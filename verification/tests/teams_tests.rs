use matchmaker::player::{Player, MMR_UNIT};
use matchmaker::teams::{balance_teams, fairest_split};

fn player(id: u64, skill: u32) -> Player {
    Player::new(id, skill)
}

fn total(team: &[Player]) -> i64 {
    team.iter().map(|p| p.skill_rating as i64).sum()
}

#[test]
fn balance_teams_produces_equal_teams() {
    let players: Vec<Player> = (0..10)
        .map(|i| {
            let skill = if i < 5 { 1000 * MMR_UNIT } else { 2000 * MMR_UNIT };
            player(i, skill)
        })
        .collect();

    let (team_a, team_b) = balance_teams(players);

    let sum_a = total(&team_a) as f64 / MMR_UNIT as f64;
    let sum_b = total(&team_b) as f64 / MMR_UNIT as f64;

    assert!(
        (sum_a - sum_b).abs() < 1001.0,
        "Teams should be balanced as possible, {} vs {}",
        sum_a,
        sum_b
    );
}

#[test]
fn fairest_split_of_equal_skills_is_the_first_mask() {
    let skills = [1000u32; 10];
    assert_eq!(fairest_split(&skills), 0b00000_11111);
}

#[test]
fn fairest_split_pairs_strong_with_weak() {
    // 1..=10: totals 27 vs 28 is the best possible (sum 55 is odd).
    let skills: Vec<u32> = (1..=10).collect();
    let mask = fairest_split(&skills);
    assert_eq!(mask.count_ones(), 5);
    let a: u32 = (0..10).filter(|i| mask >> i & 1 == 1).map(|i| skills[i]).sum();
    let b: u32 = 55 - a;
    assert_eq!((a as i64 - b as i64).abs(), 1);
    // No even split is fairer, and none before it is as fair.
    for m in 0u16..1024 {
        if m.count_ones() == 5 {
            let sa: i64 = (0..10).filter(|i| m >> i & 1 == 1).map(|i| skills[i] as i64).sum();
            let gap = (2 * sa - 55).abs();
            assert!(gap >= 1);
            if m < mask {
                assert!(gap > 1);
            }
        }
    }
}

#[test]
fn balanced_teams_hold_every_player_once() {
    let skills = [1520, 1480, 1500, 1510, 1490, 2500, 500, 1000, 2000, 1700];
    let players: Vec<Player> = skills
        .iter()
        .enumerate()
        .map(|(i, &s)| player(i as u64, s * MMR_UNIT))
        .collect();
    let (team_a, team_b) = balance_teams(players);
    assert_eq!(team_a.len(), 5);
    assert_eq!(team_b.len(), 5);
    let mut ids: Vec<u64> = team_a.iter().chain(team_b.iter()).map(|p| p.id).collect();
    ids.sort();
    assert_eq!(ids, (0..10).collect::<Vec<u64>>());
    // Team members keep their input order.
    assert!(team_a.windows(2).all(|w| w[0].id < w[1].id));
    assert!(team_b.windows(2).all(|w| w[0].id < w[1].id));
}
