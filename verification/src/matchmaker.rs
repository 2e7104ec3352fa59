//! Finding a group of ten compatible players in the skill-sorted pool and
//! forming a match from it.

use crate::metrics::{counter_modulus, total_of, Metrics, PLAYERS_PER_MATCH};
use crate::player::{is_wait_ms_reading, lemma_wait_ms_reads_clock, max_skill_range, min_skill_range, Player};
use crate::pool::{is_stable_skill_sort, sort_by_skill, take_window};
use crate::teams::{balance_teams, fairest_mask, skills_of, team_members, GROUP_SIZE};
use vstd::multiset::Multiset;
use vstd::prelude::*;

verus! {

/// Skill spread of the window of ten starting at `start`: the rating of its
/// last member minus that of its first (negative if the window is not sorted).
pub open spec fn window_spread(skills: Seq<u32>, start: int) -> int {
    skills[start + 9] as int - skills[start] as int
}

/// The window of ten starting at `start` is compatible: its skill spread fits
/// within the acceptable range of every member, i.e. the most restrictive
/// player sets the limit for the whole group.
pub open spec fn window_fits(skills: Seq<u32>, ranges: Seq<u32>, start: int) -> bool {
    forall|k: int| start <= k < start + 10 ==> window_spread(skills, start) <= #[trigger] ranges[k]
}

/// A window of ten starting at `start` lies within `n` players.
pub open spec fn window_in(n: int, start: int) -> bool {
    0 <= start && start + 10 <= n
}

/// Slide a window of ten over `skills` (with the acceptable range of each
/// player in `ranges`) and return the start of the first compatible window.
pub fn find_window_start(skills: &[u32], ranges: &[u32]) -> (r: Option<usize>)
    requires
        skills@.len() == ranges@.len(),
    ensures
        r matches Some(i) ==> {
            &&& window_in(skills@.len() as int, i as int)
            &&& window_fits(skills@, ranges@, i as int)
            &&& forall|j: int| 0 <= j < i ==> !#[trigger] window_fits(skills@, ranges@, j)
        },
        r is None ==> forall|j: int|
            window_in(skills@.len() as int, j) ==> !#[trigger] window_fits(skills@, ranges@, j),
{
    let n = skills.len();
    if n < 10 {
        return None;
    }
    let mut i: usize = 0;
    while i <= n - 10
        invariant
            n == skills@.len(),
            n == ranges@.len(),
            n >= 10,
            i <= n - 9,
            forall|j: int| 0 <= j < i ==> !#[trigger] window_fits(skills@, ranges@, j),
        decreases n - i,
    {
        let mut limit: u32 = ranges[i];
        let mut k: usize = 1;
        while k < 10
            invariant
                n == skills@.len(),
                n == ranges@.len(),
                i + 10 <= n,
                1 <= k <= 10,
                forall|m: int| i <= m < i + k ==> limit <= #[trigger] ranges@[m],
                exists|m: int| i <= m < i + k && limit == #[trigger] ranges@[m],
            decreases 10 - k,
        {
            if ranges[i + k] < limit {
                limit = ranges[i + k];
            }
            k = k + 1;
        }
        let lo = skills[i];
        let hi = skills[i + 9];
        if hi < lo || hi - lo <= limit {
            return Some(i);
        }
        i = i + 1;
    }
    None
}

/// `ranges[k]` is a range that `Player::acceptable_skill_range` gave for
/// `players[k]`, i.e. the tier of that player's wait when it was read.
pub open spec fn ranges_read(players: Seq<Player>, ranges: Seq<u32>) -> bool {
    &&& ranges.len() == players.len()
    &&& forall|k: int|
        0 <= k < players.len() ==> call_ensures(
            Player::acceptable_skill_range,
            (&players[k],),
            #[trigger] ranges[k],
        )
}

/// `start` is the first window of `players` whose spread fits every member's
/// range in `ranges` (`None`: no window fits).
pub open spec fn first_fitting_window(
    players: Seq<Player>,
    ranges: Seq<u32>,
    start: Option<int>,
) -> bool {
    match start {
        Some(i) => {
            &&& window_in(players.len() as int, i)
            &&& window_fits(skills_of(players), ranges, i)
            &&& forall|j: int| 0 <= j < i ==> !#[trigger] window_fits(skills_of(players), ranges, j)
        },
        None => forall|j: int|
            window_in(players.len() as int, j) ==> !#[trigger] window_fits(
                skills_of(players),
                ranges,
                j,
            ),
    }
}

/// The indices `start .. start + 10`.
pub open spec fn window_indices(start: int) -> Seq<usize> {
    Seq::new(10, |k: int| (start + k) as usize)
}

/// Find ten skill-compatible players in a pool sorted by skill, returning
/// their indices (ten consecutive positions).
///
/// Each player's acceptable range is read from the clock (see
/// `Player::acceptable_skill_range`), so the window chosen depends on the time
/// of the call; `find_window_start` is the exact rule applied to the ranges
/// read. Whatever the clock says, the result is `None` with fewer than ten
/// players; a returned window's spread is within the widest range, and every
/// window before it (or every window, when `None`) spreads wider than the
/// tightest range.
pub fn find_group_indices(sorted_players: &[Player]) -> (r: Option<Vec<usize>>)
    ensures
        sorted_players@.len() < 10 ==> r is None,
        r matches Some(v) ==> exists|i: int|
            {
                &&& window_in(sorted_players@.len() as int, i)
                &&& v@ == window_indices(i)
                &&& window_spread(skills_of(sorted_players@), i) <= max_skill_range()
                &&& forall|j: int|
                    0 <= j < i ==> #[trigger] window_spread(skills_of(sorted_players@), j)
                        > min_skill_range()
            },
        r is None ==> forall|j: int|
            window_in(sorted_players@.len() as int, j) ==> #[trigger] window_spread(
                skills_of(sorted_players@),
                j,
            ) > min_skill_range(),
        sorted_players@.len() >= 10 ==> exists|ranges: Seq<u32>|
            #[trigger] ranges_read(sorted_players@, ranges) && match r {
                Some(v) => exists|i: int|
                    v@ == #[trigger] window_indices(i) && first_fitting_window(
                        sorted_players@,
                        ranges,
                        Some(i),
                    ),
                None => first_fitting_window(sorted_players@, ranges, None),
            },
{
    let n = sorted_players.len();
    if n < GROUP_SIZE {
        return None;
    }
    let mut skills: Vec<u32> = Vec::new();
    let mut ranges: Vec<u32> = Vec::new();
    let mut i: usize = 0;
    while i < n
        invariant
            n == sorted_players@.len(),
            i <= n,
            skills@ == skills_of(sorted_players@).take(i as int),
            ranges@.len() == i,
            forall|k: int|
                0 <= k < i ==> min_skill_range() <= #[trigger] ranges@[k] <= max_skill_range(),
            forall|k: int|
                0 <= k < i ==> call_ensures(
                    Player::acceptable_skill_range,
                    (&sorted_players@[k],),
                    #[trigger] ranges@[k],
                ),
        decreases n - i,
    {
        skills.push(sorted_players[i].skill_rating);
        ranges.push(sorted_players[i].acceptable_skill_range());
        i = i + 1;
        assert(skills@ =~= skills_of(sorted_players@).take(i as int));
    }
    assert(skills@ =~= skills_of(sorted_players@));
    assert(ranges_read(sorted_players@, ranges@));
    match find_window_start(skills.as_slice(), ranges.as_slice()) {
        Some(start) => {
            let mut indices: Vec<usize> = Vec::new();
            let mut k: usize = 0;
            while k < GROUP_SIZE
                invariant
                    start + 10 <= n,
                    k <= 10,
                    indices@ =~= window_indices(start as int).take(k as int),
                decreases 10 - k,
            {
                indices.push(start + k);
                k = k + 1;
                assert(indices@ =~= window_indices(start as int).take(k as int));
            }
            assert(indices@ =~= window_indices(start as int));
            proof {
                assert(ranges@[start as int] <= max_skill_range());
                assert forall|j: int| 0 <= j < start implies #[trigger] window_spread(
                    skills_of(sorted_players@),
                    j,
                ) > min_skill_range() by {
                    assert(!window_fits(skills@, ranges@, j));
                }
            }
            Some(indices)
        },
        None => {
            proof {
                assert forall|j: int| window_in(n as int, j) implies #[trigger] window_spread(
                    skills_of(sorted_players@),
                    j,
                ) > min_skill_range() by {
                    assert(!window_fits(skills@, ranges@, j));
                }
            }
            None
        },
    }
}

/// A match formed from the pool: its id and its two balanced teams.
pub struct FormedMatch {
    /// Match id, taken from the match counter.
    pub id: u64,
    /// Team A.
    pub team_a: Vec<Player>,
    /// Team B.
    pub team_b: Vec<Player>,
}

/// The metrics counters after recording one match of ten players, whatever
/// their wait times were: ten readings were added to the total wait.
pub open spec fn match_recorded(before: Metrics, after: Metrics) -> bool {
    &&& after.matches_created as int == (before.matches_created + 1) % counter_modulus()
    &&& after.players_matched as int == (before.players_matched + PLAYERS_PER_MATCH)
        % counter_modulus()
    &&& after.current_pool_size as int == (before.current_pool_size - PLAYERS_PER_MATCH)
        % counter_modulus()
    &&& after.players_queued == before.players_queued
    &&& exists|waits: Seq<u64>|
        waits.len() == 10 && after.total_wait_ms as int == (before.total_wait_ms + #[trigger] total_of(
            waits,
        )) % counter_modulus()
    &&& before.counters_consistent() ==> after.counters_consistent()
}

/// The metrics counters are left as they were.
pub open spec fn metrics_unchanged(before: Metrics, after: Metrics) -> bool {
    &&& after.matches_created == before.matches_created
    &&& after.players_matched == before.players_matched
    &&& after.current_pool_size == before.current_pool_size
    &&& after.players_queued == before.players_queued
    &&& after.total_wait_ms == before.total_wait_ms
}

/// The pool after a match and the match's two teams together hold exactly
/// the players of the pool before: no player is lost or duplicated.
pub open spec fn conserves_players(
    before: Seq<Player>,
    after: Seq<Player>,
    team_a: Seq<Player>,
    team_b: Seq<Player>,
) -> bool {
    after.to_multiset().add(team_a.to_multiset()).add(team_b.to_multiset())
        == before.to_multiset()
}

/// The players of a group, or none.
pub open spec fn group_view(r: Option<Vec<Player>>) -> Option<Seq<Player>> {
    match r {
        Some(g) => Some(g@),
        None => None,
    }
}

/// Taking a group out of the pool `before` by the rule: `sorted` is `before`
/// stably sorted by skill, `ranges` are the ranges its players accept as read
/// from their waits, and the first window of ten whose spread fits every
/// member's range is taken out (`after` is what stays); with no such window,
/// no group is taken and `after` is `sorted`.
pub open spec fn group_taken_by_rule(
    before: Seq<Player>,
    sorted: Seq<Player>,
    ranges: Seq<u32>,
    after: Seq<Player>,
    group: Option<Seq<Player>>,
) -> bool {
    &&& is_stable_skill_sort(sorted, before)
    &&& ranges_read(sorted, ranges)
    &&& match group {
        None => after == sorted && first_fitting_window(sorted, ranges, None),
        Some(g) => exists|start: int|
            first_fitting_window(sorted, ranges, Some(start)) && g == #[trigger] sorted.subrange(
                start,
                start + 10,
            ) && after == sorted.take(start) + sorted.skip(start + 10),
    }
}

/// `waits[k]` is a wait in milliseconds that `Player::wait_ms` gave for
/// `players[k]`.
pub open spec fn waits_read(players: Seq<Player>, waits: Seq<u64>) -> bool {
    &&& waits.len() == players.len()
    &&& forall|k: int|
        0 <= k < players.len() ==> call_ensures(Player::wait_ms, (&players[k],), #[trigger] waits[k])
}

/// The total wait moved from `before` to `after` by the waits of `group`,
/// each read from the clock in milliseconds.
pub open spec fn group_waits_recorded(before: u64, after: u64, group: Seq<Player>) -> bool {
    exists|waits: Seq<u64>|
        #[trigger] waits_read(group, waits) && after as int == (before + total_of(waits))
            % counter_modulus()
}

/// Take a group of ten compatible players out of the pool, if there is one.
///
/// With fewer than ten players nothing changes. Otherwise the pool is sorted
/// by skill (stably) and the first compatible window of ten is searched for
/// (see `find_group_indices`). If one is found, its players are returned in
/// order and the others stay in the pool in sorted order.
pub fn take_match_group(pool: &mut Vec<Player>) -> (r: Option<Vec<Player>>)
    ensures
        old(pool)@.len() < 10 ==> {
            &&& r is None
            &&& final(pool)@ == old(pool)@
        },
        r is None ==> final(pool)@.len() == old(pool)@.len(),
        r is None && old(pool)@.len() >= 10 ==> {
            &&& is_stable_skill_sort(final(pool)@, old(pool)@)
            &&& forall|j: int|
                window_in(final(pool)@.len() as int, j) ==> #[trigger] window_spread(
                    skills_of(final(pool)@),
                    j,
                ) > min_skill_range()
        },
        r matches Some(group) ==> exists|sorted: Seq<Player>, start: int|
            #![trigger sorted.subrange(start, start + 10)]
            {
                &&& is_stable_skill_sort(sorted, old(pool)@)
                &&& window_in(sorted.len() as int, start)
                &&& window_spread(skills_of(sorted), start) <= max_skill_range()
                &&& forall|j: int|
                    0 <= j < start ==> #[trigger] window_spread(skills_of(sorted), j)
                        > min_skill_range()
                &&& final(pool)@ == sorted.take(start) + sorted.skip(start + 10)
                &&& group@ == sorted.subrange(start, start + 10)
            },
        r matches Some(group) ==> {
            &&& group@.len() == 10
            &&& final(pool)@.len() + 10 == old(pool)@.len()
            &&& final(pool)@.to_multiset().add(group@.to_multiset()) == old(pool)@.to_multiset()
        },
        old(pool)@.len() >= 10 ==> exists|sorted: Seq<Player>, ranges: Seq<u32>|
            #[trigger] group_taken_by_rule(old(pool)@, sorted, ranges, final(pool)@, group_view(r)),
{
    if pool.len() < GROUP_SIZE {
        return None;
    }
    sort_by_skill(pool);
    let ghost sorted = pool@;
    let found = find_group_indices(pool.as_slice());
    let ghost ranges = choose|ranges: Seq<u32>|
        #[trigger] ranges_read(sorted, ranges) && match found {
            Some(v) => exists|i: int|
                v@ == #[trigger] window_indices(i) && first_fitting_window(sorted, ranges, Some(i)),
            None => first_fitting_window(sorted, ranges, None),
        };
    let indices = match found {
        Some(v) => v,
        None => {
            assert(group_taken_by_rule(old(pool)@, sorted, ranges, pool@, None));
            return None;
        },
    };
    let ghost start_r = choose|i: int|
        indices@ == #[trigger] window_indices(i) && first_fitting_window(sorted, ranges, Some(i));
    assert(indices@[0] == start_r) by {
        assert(window_indices(start_r)[0] == (start_r + 0) as usize);
    }
    let ghost start_g = choose|i: int|
        {
            &&& window_in(sorted.len() as int, i)
            &&& indices@ == window_indices(i)
            &&& window_spread(skills_of(sorted), i) <= max_skill_range()
            &&& forall|j: int|
                0 <= j < i ==> #[trigger] window_spread(skills_of(sorted), j) > min_skill_range()
        };
    assert(indices@[0] == start_g) by {
        assert(window_in(sorted.len() as int, start_g) && indices@ == window_indices(start_g));
        assert(window_indices(start_g)[0] == (start_g + 0) as usize);
    }
    let start = indices[0];
    let group = take_window(pool, start);
    assert(group@ == sorted.subrange(start_g, start_g + 10));
    assert(group_taken_by_rule(old(pool)@, sorted, ranges, pool@, Some(group@)));
    Some(group)
}

/// Complete a match from a group of ten taken out of the pool: record it in
/// `metrics` with the players' wait times, split the ten into the fairest
/// teams, and give it the id in `match_id_counter`, which advances by one
/// (wrapping).
pub fn complete_match(
    group: Vec<Player>,
    metrics: &mut Metrics,
    match_id_counter: &mut u64,
) -> (fm: FormedMatch)
    requires
        group@.len() == 10,
    ensures
        fm.team_a@ == team_members(group@, fairest_mask(skills_of(group@)), true, 10),
        fm.team_b@ == team_members(group@, fairest_mask(skills_of(group@)), false, 10),
        fm.team_a@.len() == 5,
        fm.team_b@.len() == 5,
        fm.team_a@.to_multiset().add(fm.team_b@.to_multiset()) == group@.to_multiset(),
        fm.id == *old(match_id_counter),
        *final(match_id_counter) as int == (*old(match_id_counter) + 1) % counter_modulus(),
        match_recorded(*old(metrics), *final(metrics)),
        group_waits_recorded(old(metrics).total_wait_ms, final(metrics).total_wait_ms, group@),
{
    let mut wait_times: Vec<u64> = Vec::new();
    let mut i: usize = 0;
    while i < group.len()
        invariant
            i <= group@.len(),
            wait_times@.len() == i,
            forall|k: int|
                0 <= k < i ==> call_ensures(
                    Player::wait_ms,
                    (&group@[k],),
                    #[trigger] wait_times@[k],
                ),
        decreases group@.len() - i,
    {
        wait_times.push(group[i].wait_ms());
        i = i + 1;
    }
    metrics.record_match_created(wait_times.as_slice());
    assert(wait_times@.len() == 10);
    assert(waits_read(group@, wait_times@));
    let (team_a, team_b) = balance_teams(group);
    let id = *match_id_counter;
    proof {
        crate::metrics::lemma_wrapping_add(id, 1);
    }
    *match_id_counter = id.wrapping_add(1);
    FormedMatch { id, team_a, team_b }
}

/// Try to form one match from the pool: take a compatible group out of it
/// (`take_match_group`) and, if there is one, complete the match
/// (`complete_match`). No player is lost or duplicated: the pool after the
/// call and the two teams together hold exactly the players of the pool
/// before.
pub fn try_form_match(
    pool: &mut Vec<Player>,
    metrics: &mut Metrics,
    match_id_counter: &mut u64,
) -> (r: Option<FormedMatch>)
    ensures
        old(pool)@.len() < 10 ==> {
            &&& r is None
            &&& final(pool)@ == old(pool)@
        },
        old(metrics).current_pool_size as int == old(pool)@.len() as int % counter_modulus()
            ==> final(metrics).current_pool_size as int == final(pool)@.len() as int
            % counter_modulus(),
        r is None ==> {
            &&& final(pool)@.len() == old(pool)@.len()
            &&& metrics_unchanged(*old(metrics), *final(metrics))
            &&& *final(match_id_counter) == *old(match_id_counter)
        },
        r is None && old(pool)@.len() >= 10 ==> {
            &&& is_stable_skill_sort(final(pool)@, old(pool)@)
            &&& forall|j: int|
                window_in(final(pool)@.len() as int, j) ==> #[trigger] window_spread(
                    skills_of(final(pool)@),
                    j,
                ) > min_skill_range()
        },
        r matches Some(fm) ==> exists|sorted: Seq<Player>, start: int|
            #![trigger sorted.subrange(start, start + 10)]
            {
                let group = sorted.subrange(start, start + 10);
                let mask = fairest_mask(skills_of(group));
                &&& is_stable_skill_sort(sorted, old(pool)@)
                &&& window_in(sorted.len() as int, start)
                &&& window_spread(skills_of(sorted), start) <= max_skill_range()
                &&& forall|j: int|
                    0 <= j < start ==> #[trigger] window_spread(skills_of(sorted), j)
                        > min_skill_range()
                &&& final(pool)@ == sorted.take(start) + sorted.skip(start + 10)
                &&& fm.team_a@ == team_members(group, mask, true, 10)
                &&& fm.team_b@ == team_members(group, mask, false, 10)
            },
        r matches Some(fm) ==> {
            &&& final(pool)@.len() + 10 == old(pool)@.len()
            &&& fm.team_a@.len() == 5
            &&& fm.team_b@.len() == 5
            &&& conserves_players(old(pool)@, final(pool)@, fm.team_a@, fm.team_b@)
            &&& fm.id == *old(match_id_counter)
            &&& *final(match_id_counter) as int == (*old(match_id_counter) + 1) % counter_modulus()
            &&& match_recorded(*old(metrics), *final(metrics))
        },
        r is None && old(pool)@.len() >= 10 ==> exists|sorted: Seq<Player>, ranges: Seq<u32>|
            #[trigger] group_taken_by_rule(old(pool)@, sorted, ranges, final(pool)@, None),
        r matches Some(fm) ==> exists|group: Seq<Player>|
            {
                &&& #[trigger] group_waits_recorded(
                    old(metrics).total_wait_ms,
                    final(metrics).total_wait_ms,
                    group,
                )
                &&& group.to_multiset() == fm.team_a@.to_multiset().add(fm.team_b@.to_multiset())
                &&& exists|sorted: Seq<Player>, ranges: Seq<u32>|
                    #[trigger] group_taken_by_rule(
                        old(pool)@,
                        sorted,
                        ranges,
                        final(pool)@,
                        Some(group),
                    )
            },
{
    let ghost pool0 = pool@;
    let group = match take_match_group(pool) {
        Some(g) => g,
        None => {
            return None;
        },
    };
    let ghost group_g = group@;
    let ghost pool1 = pool@;
    let fm = complete_match(group, metrics, match_id_counter);
    assert(exists|sorted: Seq<Player>, ranges: Seq<u32>|
        #[trigger] group_taken_by_rule(pool0, sorted, ranges, pool1, Some(group_g)));
    proof {
        vstd::arithmetic::div_mod::lemma_add_mod_noop_right(
            -10,
            pool0.len() as int,
            counter_modulus(),
        );
        vstd::seq_lib::lemma_multiset_commutative(fm.team_a@, fm.team_b@);
        assert(pool@.to_multiset().add(fm.team_a@.to_multiset()).add(fm.team_b@.to_multiset())
            =~= pool@.to_multiset().add(group_g.to_multiset()));
    }
    Some(fm)
}

/// Every player of a sequence of matches: both teams of each, in order.
pub open spec fn matched_players(teams: Seq<(Seq<Player>, Seq<Player>)>) -> Multiset<Player>
    decreases teams.len(),
{
    if teams.len() == 0 {
        Multiset::empty()
    } else {
        matched_players(teams.drop_last()).add(teams.last().0.to_multiset()).add(
            teams.last().1.to_multiset(),
        )
    }
}

/// Every player appended to the pool in a sequence of arrivals.
pub open spec fn arrived_players(arrivals: Seq<Seq<Player>>) -> Multiset<Player>
    decreases arrivals.len(),
{
    if arrivals.len() == 0 {
        Multiset::empty()
    } else {
        arrived_players(arrivals.drop_last()).add(arrivals.last().to_multiset())
    }
}

/// Successive matches formed from one pool, with players appended to it in
/// between (`arrivals[i]` just before match `i`), keep every player: the
/// final pool and all matches together hold exactly the starting pool and
/// all arrivals. `pools[i]` is the pool just after match `i - 1`, and each
/// match satisfies what `try_form_match` states of a formed match.
pub proof fn lemma_matches_keep_players(
    pools: Seq<Seq<Player>>,
    arrivals: Seq<Seq<Player>>,
    teams: Seq<(Seq<Player>, Seq<Player>)>,
)
    requires
        pools.len() == teams.len() + 1,
        arrivals.len() == teams.len(),
        forall|i: int|
            0 <= i < teams.len() ==> #[trigger] conserves_players(
                pools[i] + arrivals[i],
                pools[i + 1],
                teams[i].0,
                teams[i].1,
            ),
    ensures
        pools.last().to_multiset().add(matched_players(teams)) == pools[0].to_multiset().add(
            arrived_players(arrivals),
        ),
    decreases teams.len(),
{
    broadcast use vstd::multiset::group_multiset_axioms;

    if teams.len() == 0 {
        assert(pools.last().to_multiset().add(matched_players(teams)) =~= pools[0].to_multiset().add(
            arrived_players(arrivals),
        ));
    } else {
        let k = teams.len() - 1;
        lemma_matches_keep_players(pools.drop_last(), arrivals.drop_last(), teams.drop_last());
        assert(teams.drop_last() =~= teams.subrange(0, k));
        assert forall|i: int| 0 <= i < k implies #[trigger] conserves_players(
            pools.drop_last()[i] + arrivals.drop_last()[i],
            pools.drop_last()[i + 1],
            teams.drop_last()[i].0,
            teams.drop_last()[i].1,
        ) by {
            assert(conserves_players(pools[i] + arrivals[i], pools[i + 1], teams[i].0, teams[i].1));
        }
        assert(conserves_players(pools[k] + arrivals[k], pools[k + 1], teams[k].0, teams[k].1));
        vstd::seq_lib::lemma_multiset_commutative(pools[k], arrivals[k]);
        let before = matched_players(teams.drop_last());
        let came = arrived_players(arrivals.drop_last());
        assert(pools.drop_last().last() == pools[k]);
        assert(pools.drop_last()[0] == pools[0]);
        assert(pools[k].to_multiset().add(before) == pools[0].to_multiset().add(came));
        assert(matched_players(teams) == before.add(teams[k].0.to_multiset()).add(
            teams[k].1.to_multiset(),
        ));
        assert(arrived_players(arrivals) == came.add(arrivals[k].to_multiset()));
        assert(pools[k + 1].to_multiset().add(teams[k].0.to_multiset()).add(
            teams[k].1.to_multiset(),
        ) == pools[k].to_multiset().add(arrivals[k].to_multiset()));
        assert(pools.last() == pools[k + 1]);
        let lhs = pools[k + 1].to_multiset().add(matched_players(teams));
        let rhs = pools[0].to_multiset().add(arrived_players(arrivals));
        assert forall|x: Player| lhs.count(x) == rhs.count(x) by {
            assert(pools[k + 1].to_multiset().add(teams[k].0.to_multiset()).add(
                teams[k].1.to_multiset(),
            ).count(x) == pools[k].to_multiset().add(arrivals[k].to_multiset()).count(x));
            assert(pools[k].to_multiset().add(before).count(x) == pools[0].to_multiset().add(
                came,
            ).count(x));
        }
        assert(lhs =~= rhs);
    }
}

/// Hence, when the starting pool and the arrivals hold no player twice, no
/// player is in two matches, nor both in a match and in the final pool.
pub proof fn lemma_no_player_matched_twice(
    pools: Seq<Seq<Player>>,
    arrivals: Seq<Seq<Player>>,
    teams: Seq<(Seq<Player>, Seq<Player>)>,
    x: Player,
)
    requires
        pools.len() == teams.len() + 1,
        arrivals.len() == teams.len(),
        forall|i: int|
            0 <= i < teams.len() ==> #[trigger] conserves_players(
                pools[i] + arrivals[i],
                pools[i + 1],
                teams[i].0,
                teams[i].1,
            ),
        pools[0].to_multiset().add(arrived_players(arrivals)).count(x) <= 1,
    ensures
        pools.last().to_multiset().count(x) + matched_players(teams).count(x) <= 1,
        forall|i: int, j: int|
            0 <= i < j < teams.len() ==> !((#[trigger] teams[i].0.to_multiset().add(
                teams[i].1.to_multiset(),
            )).count(x) > 0 && (#[trigger] teams[j].0.to_multiset().add(
                teams[j].1.to_multiset(),
            )).count(x) > 0),
{
    lemma_matches_keep_players(pools, arrivals, teams);
    assert forall|i: int, j: int|
        0 <= i < j < teams.len() implies !((#[trigger] teams[i].0.to_multiset().add(
            teams[i].1.to_multiset(),
        )).count(x) > 0 && (#[trigger] teams[j].0.to_multiset().add(
            teams[j].1.to_multiset(),
        )).count(x) > 0) by {
        lemma_matched_counts_two(teams, i, j, x);
    }
}

/// The players of matches `i` and `j` are both counted in `matched_players`.
proof fn lemma_matched_counts_two(
    teams: Seq<(Seq<Player>, Seq<Player>)>,
    i: int,
    j: int,
    x: Player,
)
    requires
        0 <= i < j < teams.len(),
    ensures
        matched_players(teams).count(x) >= teams[i].0.to_multiset().add(
            teams[i].1.to_multiset(),
        ).count(x) + teams[j].0.to_multiset().add(teams[j].1.to_multiset()).count(x),
    decreases teams.len(),
{
    broadcast use vstd::multiset::group_multiset_axioms;

    let last = teams.len() - 1;
    if j < last {
        lemma_matched_counts_two(teams.drop_last(), i, j, x);
    } else {
        lemma_matched_count_one(teams.drop_last(), i, x);
    }
}

/// The players of match `i` are counted in `matched_players`.
proof fn lemma_matched_count_one(teams: Seq<(Seq<Player>, Seq<Player>)>, i: int, x: Player)
    requires
        0 <= i < teams.len(),
    ensures
        matched_players(teams).count(x) >= teams[i].0.to_multiset().add(
            teams[i].1.to_multiset(),
        ).count(x),
    decreases teams.len(),
{
    broadcast use vstd::multiset::group_multiset_axioms;

    if i < teams.len() - 1 {
        lemma_matched_count_one(teams.drop_last(), i, x);
    }
}

/// Call `i` took `ids[i]` from the counter, which went from `counters[i]`
/// to `counters[i + 1]`, one more modulo 2^64.
pub open spec fn counter_advances(ids: Seq<u64>, counters: Seq<u64>) -> bool {
    &&& counters.len() == ids.len() + 1
    &&& forall|i: int|
        0 <= i < ids.len() ==> ids[i] == counters[i] && #[trigger] counters[i + 1] as int == (
        counters[i] + 1) % counter_modulus()
}

/// Match ids handed out by successive calls that share one counter (each
/// call takes the counter's value as the id and advances it by one, as
/// `try_form_match` states) are consecutive modulo 2^64, so no two of fewer
/// than 2^64 matches share an id.
pub proof fn lemma_match_ids_distinct(ids: Seq<u64>, counters: Seq<u64>)
    requires
        counter_advances(ids, counters),
    ensures
        forall|i: int| 0 <= i < ids.len() ==> #[trigger] ids[i] as int == (counters[0] + i) % counter_modulus(),
        ids.len() <= counter_modulus() ==> forall|i: int, j: int|
            0 <= i < j < ids.len() ==> #[trigger] ids[i] != #[trigger] ids[j],
{
    let md = counter_modulus();
    assert forall|i: int| 0 <= i < ids.len() implies #[trigger] ids[i] as int == (counters[0] + i) % md by {
        lemma_counter_step(ids, counters, i);
        assert(counters[i + 1] as int == (counters[i] + 1) % md);
    }
    if ids.len() <= md {
        assert forall|i: int, j: int| 0 <= i < j < ids.len() implies #[trigger] ids[i] != #[trigger] ids[j] by {
            let c = counters[0] as int;
            vstd::arithmetic::div_mod::lemma_fundamental_div_mod(c + i, md);
            vstd::arithmetic::div_mod::lemma_fundamental_div_mod(c + j, md);
            let qi = (c + i) / md;
            let qj = (c + j) / md;
            if ids[i] == ids[j] {
                assert(j - i == md * (qj - qi));
                assert(false) by (nonlinear_arith)
                    requires
                        j - i == md * (qj - qi),
                        0 < j - i < md,
                        md > 0,
                ;
            }
        }
    }
}

/// The counter before call `i` is the starting counter advanced `i` times.
proof fn lemma_counter_step(ids: Seq<u64>, counters: Seq<u64>, i: int)
    requires
        counter_advances(ids, counters),
        0 <= i <= ids.len(),
    ensures
        counters[i] as int == (counters[0] + i) % counter_modulus(),
    decreases i,
{
    let md = counter_modulus();
    if i == 0 {
        vstd::arithmetic::div_mod::lemma_small_mod(counters[0] as nat, md as nat);
    } else {
        lemma_counter_step(ids, counters, i - 1);
        assert(counters[(i - 1) + 1] as int == (counters[i - 1] + 1) % md);
        vstd::arithmetic::div_mod::lemma_add_mod_noop_right(1, counters[0] + i - 1, md);
    }
}

/// Every range that `Player::acceptable_skill_range` can give for any of
/// `players` lies between `lo` and `hi` (for players who all waited under
/// 10 s, `lo == hi ==` 50 MMR; for players who all waited 30-59 s, 300 MMR).
pub open spec fn ranges_between(players: Seq<Player>, lo: int, hi: int) -> bool {
    forall|k: int, r: u32|
        0 <= k < players.len() && #[trigger] call_ensures(
            Player::acceptable_skill_range,
            (&players[k],),
            r,
        ) ==> lo <= r <= hi
}

/// The window search follows the players' waits: the window returned is the
/// first one whose spread fits the range every member accepts. So when every
/// player accepts between `lo` and `hi`, a returned window spreads at most
/// `hi` and every window before it more than `lo`; and no window is returned
/// only if every window spreads more than `lo`.
pub proof fn lemma_group_indices_follow_waits(players: &[Player], r: Option<Vec<usize>>, lo: int, hi: int)
    requires
        call_ensures(find_group_indices, (players,), r),
        players@.len() >= 10,
        ranges_between(players@, lo, hi),
    ensures
        r matches Some(v) ==> exists|i: int|
            {
                &&& v@ == #[trigger] window_indices(i)
                &&& window_in(players@.len() as int, i)
                &&& window_spread(skills_of(players@), i) <= hi
                &&& forall|j: int| 0 <= j < i ==> #[trigger] window_spread(skills_of(players@), j) > lo
            },
        r is None ==> forall|j: int|
            window_in(players@.len() as int, j) ==> #[trigger] window_spread(skills_of(players@), j)
                > lo,
{
    assert(exists|ranges: Seq<u32>|
        #[trigger] ranges_read(players@, ranges) && match r {
            Some(v) => exists|i: int|
                v@ == #[trigger] window_indices(i) && first_fitting_window(players@, ranges, Some(i)),
            None => first_fitting_window(players@, ranges, None),
        });
    let ranges = choose|ranges: Seq<u32>|
        #[trigger] ranges_read(players@, ranges) && match r {
            Some(v) => exists|i: int|
                v@ == #[trigger] window_indices(i) && first_fitting_window(players@, ranges, Some(i)),
            None => first_fitting_window(players@, ranges, None),
        };
    lemma_fits_bounds(players@, ranges, lo, hi);
    match r {
        Some(v) => {
            let i = choose|i: int|
                v@ == #[trigger] window_indices(i) && first_fitting_window(
                    players@,
                    ranges,
                    Some(i),
                );
            assert(window_fits(skills_of(players@), ranges, i));
            assert forall|j: int| 0 <= j < i implies #[trigger] window_spread(
                skills_of(players@),
                j,
            ) > lo by {
                assert(!window_fits(skills_of(players@), ranges, j));
            }
        },
        None => {
            assert forall|j: int| window_in(players@.len() as int, j) implies #[trigger] window_spread(
                skills_of(players@),
                j,
            ) > lo by {
                assert(!window_fits(skills_of(players@), ranges, j));
            }
        },
    }
}

/// With every range read between `lo` and `hi`: a fitting window spreads at
/// most `hi`, a window that does not fit spreads more than `lo`.
proof fn lemma_fits_bounds(players: Seq<Player>, ranges: Seq<u32>, lo: int, hi: int)
    requires
        ranges_read(players, ranges),
        ranges_between(players, lo, hi),
    ensures
        forall|j: int|
            window_in(players.len() as int, j) && #[trigger] window_fits(skills_of(players), ranges, j)
                ==> window_spread(skills_of(players), j) <= hi,
        forall|j: int|
            window_in(players.len() as int, j) && !#[trigger] window_fits(skills_of(players), ranges, j)
                ==> window_spread(skills_of(players), j) > lo,
{
    assert forall|j: int|
        window_in(players.len() as int, j) && #[trigger] window_fits(skills_of(players), ranges, j)
            implies window_spread(skills_of(players), j) <= hi by {
        assert(call_ensures(Player::acceptable_skill_range, (&players[j],), ranges[j]));
    }
    assert forall|j: int|
        window_in(players.len() as int, j) && !#[trigger] window_fits(skills_of(players), ranges, j)
            implies window_spread(skills_of(players), j) > lo by {
        let k = choose|k: int|
            j <= k < j + 10 && !(window_spread(skills_of(players), j) <= #[trigger] ranges[k]);
        assert(call_ensures(Player::acceptable_skill_range, (&players[k],), ranges[k]));
    }
}

/// The spread of `group` (last minus first rating) fits some range that
/// `Player::acceptable_skill_range` gives for its member `k`.
pub open spec fn spread_within_a_range_of(group: Seq<Player>, k: int) -> bool {
    exists|r: u32|
        #[trigger] call_ensures(Player::acceptable_skill_range, (&group[k],), r)
            && group[9].skill_rating - group[0].skill_rating <= r
}

/// A group is taken out of the pool only if its skill spread is within the
/// range each of its players accepts, as read from their waits: for every
/// member there is such a reading the spread fits. In particular, when every
/// member can accept at most `hi` (e.g. 50 MMR when all waited under 10 s),
/// the group spreads at most `hi`.
pub proof fn lemma_taken_group_fits_its_players(
    before: Seq<Player>,
    sorted: Seq<Player>,
    ranges: Seq<u32>,
    after: Seq<Player>,
    group: Seq<Player>,
    hi: int,
)
    requires
        group_taken_by_rule(before, sorted, ranges, after, Some(group)),
    ensures
        group.len() == 10,
        forall|k: int| 0 <= k < 10 ==> #[trigger] spread_within_a_range_of(group, k),
        ranges_between(group, 0, hi) ==> group[9].skill_rating - group[0].skill_rating <= hi,
{
    let start = choose|start: int|
        first_fitting_window(sorted, ranges, Some(start)) && group == #[trigger] sorted.subrange(
            start,
            start + 10,
        ) && after == sorted.take(start) + sorted.skip(start + 10);
    assert forall|k: int| 0 <= k < 10 implies #[trigger] spread_within_a_range_of(group, k) by {
        assert(group[k] == sorted[start + k]);
        assert(call_ensures(Player::acceptable_skill_range, (&sorted[start + k],), ranges[start + k]));
        assert(call_ensures(Player::acceptable_skill_range, (&group[k],), ranges[start + k]));
        assert(window_spread(skills_of(sorted), start) <= ranges[start + k]);
        assert(group[9] == sorted[start + 9]);
        assert(group[0] == sorted[start]);
        assert(skills_of(sorted)[start + 9] == sorted[start + 9].skill_rating);
        assert(skills_of(sorted)[start] == sorted[start].skill_rating);
    }
    if ranges_between(group, 0, hi) {
        assert(group[0] == sorted[start]);
        assert(call_ensures(Player::acceptable_skill_range, (&group[0],), ranges[start]));
        assert(window_spread(skills_of(sorted), start) <= ranges[start]);
        assert(group[9] == sorted[start + 9]);
        assert(skills_of(sorted)[start + 9] == sorted[start + 9].skill_rating);
        assert(skills_of(sorted)[start] == sorted[start].skill_rating);
    }
}

/// No group is taken only if no window of the sorted pool fits: when every
/// player can accept at least `lo` (e.g. 300 MMR when all waited 30-59 s),
/// every window of the sorted pool then spreads more than `lo`.
pub proof fn lemma_no_group_only_if_none_fits(
    before: Seq<Player>,
    sorted: Seq<Player>,
    ranges: Seq<u32>,
    after: Seq<Player>,
    lo: int,
)
    requires
        group_taken_by_rule(before, sorted, ranges, after, None),
        ranges_between(sorted, lo, max_skill_range()),
    ensures
        after == sorted,
        forall|j: int|
            window_in(sorted.len() as int, j) ==> #[trigger] window_spread(skills_of(sorted), j) > lo,
{
    lemma_fits_bounds(sorted, ranges, lo, max_skill_range());
    assert forall|j: int| window_in(sorted.len() as int, j) implies #[trigger] window_spread(
        skills_of(sorted),
        j,
    ) > lo by {
        assert(!window_fits(skills_of(sorted), ranges, j));
    }
}

/// The wait recorded for a match is the sum of its players' waits in
/// milliseconds, each read from the clock since that player joined.
pub proof fn lemma_recorded_waits_are_clock_readings(before: u64, after: u64, group: Seq<Player>)
    requires
        group_waits_recorded(before, after, group),
    ensures
        exists|waits: Seq<u64>|
            {
                &&& waits.len() == group.len()
                &&& forall|k: int|
                    0 <= k < group.len() ==> is_wait_ms_reading(
                        group[k].joined_at,
                        #[trigger] waits[k],
                    )
                &&& after as int == (before + total_of(waits)) % counter_modulus()
            },
{
    let waits = choose|waits: Seq<u64>|
        #[trigger] waits_read(group, waits) && after as int == (before + total_of(waits))
            % counter_modulus();
    assert forall|k: int| 0 <= k < group.len() implies is_wait_ms_reading(
        group[k].joined_at,
        #[trigger] waits[k],
    ) by {
        lemma_wait_ms_reads_clock(group[k], waits[k]);
    }
}

} // verus!
