//! Splitting a group of ten players into the two fairest teams of five.
//!
//! A split is a ten-bit mask: player `i` goes to team A when bit `i` is set,
//! to team B otherwise. Every mask with exactly five bits set is tried, and
//! the one whose team skill totals differ least is kept; among equally fair
//! splits the smallest mask wins.

use crate::player::Player;
use vstd::prelude::*;

verus! {

/// Players in a match.
pub const GROUP_SIZE: usize = 10;

/// Players in a team.
pub const TEAM_SIZE: usize = 5;

/// Whether bit `i` of `mask` is set, i.e. player `i` goes to team A.
pub open spec fn on_team_a(mask: u16, i: u16) -> bool {
    (mask >> i) & 1u16 == 1u16
}

/// Number of the first `k` players that `mask` puts on team A.
pub open spec fn team_a_count(mask: u16, k: nat) -> nat
    decreases k,
{
    if k == 0 {
        0
    } else {
        team_a_count(mask, (k - 1) as nat) + if on_team_a(mask, (k - 1) as u16) {
            1nat
        } else {
            0nat
        }
    }
}

/// Total skill of the first `k` players that `mask` puts on the given side
/// (`true` for team A, `false` for team B).
pub open spec fn side_total(skills: Seq<u32>, mask: u16, side: bool, k: nat) -> int
    decreases k,
{
    if k == 0 {
        0
    } else {
        side_total(skills, mask, side, (k - 1) as nat) + if on_team_a(mask, (k - 1) as u16)
            == side {
            skills[k - 1] as int
        } else {
            0
        }
    }
}

/// A mask over ten players that puts exactly five on each team.
pub open spec fn is_even_split(mask: u16) -> bool {
    mask < 1024 && team_a_count(mask, 10) == 5
}

/// The absolute difference of the two team totals under `mask`.
pub open spec fn split_gap(skills: Seq<u32>, mask: u16) -> int {
    let d = side_total(skills, mask, true, 10) - side_total(skills, mask, false, 10);
    if d < 0 {
        -d
    } else {
        d
    }
}

/// `mask` is an even split with the smallest gap, and no smaller mask is an
/// even split with the same gap.
pub open spec fn is_fairest_split(skills: Seq<u32>, mask: u16) -> bool {
    &&& is_even_split(mask)
    &&& forall|m: u16| is_even_split(m) ==> split_gap(skills, mask) <= #[trigger] split_gap(skills, m)
    &&& forall|m: u16| m < mask && is_even_split(m) ==> split_gap(skills, mask) < #[trigger] split_gap(skills, m)
}

/// The fairest split of ten skills (unique, see `lemma_fairest_split_unique`).
pub open spec fn fairest_mask(skills: Seq<u32>) -> u16 {
    choose|m: u16| is_fairest_split(skills, m)
}

/// The skill ratings of a sequence of players.
pub open spec fn skills_of(players: Seq<Player>) -> Seq<u32> {
    players.map_values(|p: Player| p.skill_rating)
}

/// Total skill of a sequence of players.
pub open spec fn skill_total(players: Seq<Player>) -> int
    decreases players.len(),
{
    if players.len() == 0 {
        0
    } else {
        skill_total(players.drop_last()) + players.last().skill_rating as int
    }
}

/// The first `k` players that `mask` puts on the given side, in their order.
pub open spec fn team_members(players: Seq<Player>, mask: u16, side: bool, k: nat) -> Seq<Player>
    decreases k,
{
    if k == 0 {
        Seq::empty()
    } else {
        let prev = team_members(players, mask, side, (k - 1) as nat);
        if on_team_a(mask, (k - 1) as u16) == side {
            prev.push(players[k - 1])
        } else {
            prev
        }
    }
}

/// At most one mask is the fairest split.
pub proof fn lemma_fairest_split_unique(skills: Seq<u32>, m1: u16, m2: u16)
    requires
        is_fairest_split(skills, m1),
        is_fairest_split(skills, m2),
    ensures
        m1 == m2,
{
    if m1 < m2 {
        assert(split_gap(skills, m2) < split_gap(skills, m1));
    } else if m2 < m1 {
        assert(split_gap(skills, m1) < split_gap(skills, m2));
    }
}

/// Team totals and team-A size of `mask` over the ten `skills`.
fn split_totals(skills: &[u32], mask: u16) -> (r: (u64, u64, u16))
    requires
        skills@.len() == 10,
    ensures
        r.0 == side_total(skills@, mask, true, 10),
        r.1 == side_total(skills@, mask, false, 10),
        r.2 == team_a_count(mask, 10),
{
    let mut sum_a: u64 = 0;
    let mut sum_b: u64 = 0;
    let mut count: u16 = 0;
    let mut i: u16 = 0;
    while i < 10
        invariant
            i <= 10,
            skills@.len() == 10,
            sum_a == side_total(skills@, mask, true, i as nat),
            sum_b == side_total(skills@, mask, false, i as nat),
            count == team_a_count(mask, i as nat),
            sum_a <= i * 0xffff_ffff,
            sum_b <= i * 0xffff_ffff,
            count <= i,
        decreases 10 - i,
    {
        let s = skills[i as usize];
        if (mask >> i) & 1 == 1 {
            sum_a = sum_a + s as u64;
            count = count + 1;
        } else {
            sum_b = sum_b + s as u64;
        }
        i = i + 1;
    }
    (sum_a, sum_b, count)
}

/// The fairest even split of ten skill ratings: all masks with five bits set
/// are tried in increasing order and the first with the smallest gap between
/// the team totals is kept.
pub fn fairest_split(skills: &[u32]) -> (mask: u16)
    requires
        skills@.len() == 10,
    ensures
        is_fairest_split(skills@, mask),
        mask == fairest_mask(skills@),
{
    let mut best_diff: u64 = u64::MAX;
    let mut best_mask: u16 = 0b00000_11111;
    let mut mask: u16 = 0;
    while mask < 1024
        invariant
            mask <= 1024,
            skills@.len() == 10,
            best_diff == u64::MAX ==> forall|m: u16| m < mask ==> !is_even_split(m),
            best_diff < u64::MAX ==> {
                &&& is_even_split(best_mask)
                &&& best_mask < mask
                &&& best_diff == split_gap(skills@, best_mask)
                &&& forall|m: u16|
                    m < mask && is_even_split(m) ==> best_diff <= #[trigger] split_gap(skills@, m)
                &&& forall|m: u16|
                    m < best_mask && is_even_split(m) ==> best_diff < #[trigger] split_gap(skills@, m)
            },
        decreases 1024 - mask,
    {
        let (sum_a, sum_b, count) = split_totals(skills, mask);
        proof {
            lemma_side_total_bound(skills@, mask, true, 10);
            lemma_side_total_bound(skills@, mask, false, 10);
        }
        if count == 5 {
            let diff = if sum_a >= sum_b {
                sum_a - sum_b
            } else {
                sum_b - sum_a
            };
            if diff < best_diff {
                best_diff = diff;
                best_mask = mask;
            }
        }
        mask = mask + 1;
    }
    proof {
        lemma_first_even_split();
        lemma_fairest_split_unique(skills@, best_mask, fairest_mask(skills@));
    }
    best_mask
}

/// Mask `0b11111` (players 0-4 on team A) is an even split.
proof fn lemma_first_even_split()
    ensures
        is_even_split(31u16),
{
    assert({
        &&& (31u16 >> 0u16) & 1u16 == 1u16
        &&& (31u16 >> 1u16) & 1u16 == 1u16
        &&& (31u16 >> 2u16) & 1u16 == 1u16
        &&& (31u16 >> 3u16) & 1u16 == 1u16
        &&& (31u16 >> 4u16) & 1u16 == 1u16
        &&& (31u16 >> 5u16) & 1u16 == 0u16
        &&& (31u16 >> 6u16) & 1u16 == 0u16
        &&& (31u16 >> 7u16) & 1u16 == 0u16
        &&& (31u16 >> 8u16) & 1u16 == 0u16
        &&& (31u16 >> 9u16) & 1u16 == 0u16
    }) by (bit_vector);
    reveal_with_fuel(team_a_count, 11);
}

/// The absolute difference of the skill totals of two teams.
pub open spec fn team_gap(a: Seq<Player>, b: Seq<Player>) -> int {
    let d = skill_total(a) - skill_total(b);
    if d < 0 {
        -d
    } else {
        d
    }
}

/// Team A of `mask` has `team_a_count` members, team B the rest.
pub proof fn lemma_team_sizes(players: Seq<Player>, mask: u16, k: nat)
    requires
        k <= players.len(),
    ensures
        team_members(players, mask, true, k).len() == team_a_count(mask, k),
        team_members(players, mask, false, k).len() + team_a_count(mask, k) == k,
    decreases k,
{
    if k > 0 {
        lemma_team_sizes(players, mask, (k - 1) as nat);
    }
}

/// The two teams of a mask together hold exactly the players split.
pub proof fn lemma_teams_partition(players: Seq<Player>, mask: u16, k: nat)
    requires
        k <= players.len(),
    ensures
        team_members(players, mask, true, k).to_multiset().add(
            team_members(players, mask, false, k).to_multiset(),
        ) == players.take(k as int).to_multiset(),
    decreases k,
{
    broadcast use vstd::seq_lib::to_multiset_build, vstd::seq_lib::group_to_multiset_ensures, vstd::multiset::group_multiset_axioms;

    if k == 0 {
        assert(players.take(0) =~= Seq::<Player>::empty());
        assert(Seq::<Player>::empty().to_multiset() =~= vstd::multiset::Multiset::empty());
        assert(team_members(players, mask, true, 0) =~= Seq::<Player>::empty());
        assert(team_members(players, mask, false, 0) =~= Seq::<Player>::empty());
    } else {
        lemma_teams_partition(players, mask, (k - 1) as nat);
        assert(players.take(k as int) =~= players.take(k - 1).push(players[k - 1]));
        assert(players.take(k - 1).push(players[k - 1]).to_multiset() =~= players.take(
            k - 1,
        ).to_multiset().insert(players[k - 1]));
        let a = team_members(players, mask, true, (k - 1) as nat);
        let b = team_members(players, mask, false, (k - 1) as nat);
        let x = players[k - 1];
        if on_team_a(mask, (k - 1) as u16) {
            assert(a.push(x).to_multiset().add(b.to_multiset()) =~= a.to_multiset().add(
                b.to_multiset(),
            ).insert(x));
        } else {
            assert(a.to_multiset().add(b.push(x).to_multiset()) =~= a.to_multiset().add(
                b.to_multiset(),
            ).insert(x));
        }
    }
}

/// The skill total of a team of `mask` is its side total.
pub proof fn lemma_team_totals(players: Seq<Player>, mask: u16, side: bool, k: nat)
    requires
        k <= players.len(),
    ensures
        skill_total(team_members(players, mask, side, k)) == side_total(
            skills_of(players),
            mask,
            side,
            k,
        ),
    decreases k,
{
    if k > 0 {
        lemma_team_totals(players, mask, side, (k - 1) as nat);
        let prev = team_members(players, mask, side, (k - 1) as nat);
        if on_team_a(mask, (k - 1) as u16) == side {
            assert(prev.push(players[k - 1]).drop_last() =~= prev);
        }
    }
}

/// The players of team `side` under `mask`, in their order.
fn collect_team(players: &Vec<Player>, mask: u16, side: bool) -> (team: Vec<Player>)
    requires
        players@.len() == 10,
    ensures
        team@ == team_members(players@, mask, side, 10),
{
    let mut team: Vec<Player> = Vec::new();
    let mut i: u16 = 0;
    while i < 10
        invariant
            i <= 10,
            players@.len() == 10,
            team@ == team_members(players@, mask, side, i as nat),
        decreases 10 - i,
    {
        if ((mask >> i) & 1 == 1) == side {
            team.push(players[i as usize]);
        }
        i = i + 1;
    }
    team
}

/// Split exactly ten players into the fairest two teams of five.
///
/// Team A takes the players whose bit is set in the fairest split
/// (`fairest_mask`), team B the others, each in the order given. No other
/// five-versus-five split has a smaller gap between the team skill totals.
pub fn balance_teams(players: Vec<Player>) -> (teams: (Vec<Player>, Vec<Player>))
    requires
        players@.len() == 10,
    ensures
        teams.0@ == team_members(players@, fairest_mask(skills_of(players@)), true, 10),
        teams.1@ == team_members(players@, fairest_mask(skills_of(players@)), false, 10),
        teams.0@.len() == 5,
        teams.1@.len() == 5,
        teams.0@.to_multiset().add(teams.1@.to_multiset()) == players@.to_multiset(),
        forall|m: u16|
            is_even_split(m) ==> team_gap(teams.0@, teams.1@) <= #[trigger] split_gap(
                skills_of(players@),
                m,
            ),
{
    let mut skills: Vec<u32> = Vec::new();
    let mut i: usize = 0;
    while i < players.len()
        invariant
            i <= players@.len(),
            skills@ == skills_of(players@).take(i as int),
        decreases players@.len() - i,
    {
        skills.push(players[i].skill_rating);
        i = i + 1;
        assert(skills@ =~= skills_of(players@).take(i as int));
    }
    assert(skills@ =~= skills_of(players@));
    let mask = fairest_split(skills.as_slice());
    let team_a = collect_team(&players, mask, true);
    let team_b = collect_team(&players, mask, false);
    proof {
        lemma_team_sizes(players@, mask, 10);
        lemma_teams_partition(players@, mask, 10);
        assert(players@.take(10) =~= players@);
        lemma_team_totals(players@, mask, true, 10);
        lemma_team_totals(players@, mask, false, 10);
    }
    (team_a, team_b)
}

proof fn lemma_side_total_bound(skills: Seq<u32>, mask: u16, side: bool, k: nat)
    requires
        k <= skills.len(),
    ensures
        0 <= side_total(skills, mask, side, k) <= k * 0xffff_ffff,
    decreases k,
{
    if k > 0 {
        lemma_side_total_bound(skills, mask, side, (k - 1) as nat);
    }
}

} // verus!
