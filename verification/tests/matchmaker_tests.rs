use matchmaker::matchmaker::{
    complete_match, find_group_indices, find_window_start, take_match_group, try_form_match,
};
use matchmaker::metrics::Metrics;
use matchmaker::player::{Player, MMR_UNIT};
use matchmaker::pool::{sort_by_skill, take_window};

fn player(id: u64, skill: u32) -> Player {
    Player::new(id, skill)
}

fn make_sorted_pool(rating: Vec<u32>) -> Vec<Player> {
    let mut players: Vec<Player> = rating
        .into_iter()
        .enumerate()
        .map(|(i, r)| player(i as u64, r * MMR_UNIT))
        .collect();
    sort_by_skill(&mut players);
    players
}

#[test]
fn test_finds_group_in_tight_clusters() {
    let pool = make_sorted_pool(vec![
        1460, 1465, 1470, 1475, 1480, 1485, 1490, 1495, 1498, 1500,
    ]);

    let result = find_group_indices(&pool);
    assert!(result.is_some(), "Should find a group in a tight cluster");
}

#[test]
fn no_group_if_spread_out_pool() {
    let pool = make_sorted_pool(vec![
        100, 300, 500, 700, 900, 1100, 1300, 1500, 1700, 1900,
    ]);

    let result = find_group_indices(&pool);
    assert!(result.is_none(), "Should not find a group in a spread-out pool");
}

#[test]
fn no_group_with_fewer_than_ten_players() {
    let pool = make_sorted_pool(vec![1500; 9]);
    assert!(find_group_indices(&pool).is_none());
}

#[test]
fn group_indices_are_the_first_fitting_window() {
    // Windows starting at 0 and 1 spread too wide for fresh players; the one
    // starting at 2 fits within 50 MMR.
    let pool = make_sorted_pool(vec![
        820, 900, 1440, 1445, 1450, 1455, 1460, 1465, 1470, 1475, 1480, 1485, 2100,
    ]);
    assert_eq!(find_group_indices(&pool), Some((2..12).collect::<Vec<usize>>()));
}

#[test]
fn window_start_follows_the_most_restrictive_player() {
    // Spread 80 MMR (1440..1520): fits when every range is at least 80 MMR.
    let skills: Vec<u32> = vec![820, 900, 1440, 1460, 1470, 1480, 1490, 1500, 1505, 1510, 1515, 1520]
        .into_iter()
        .map(|s| s * MMR_UNIT)
        .collect();
    let wide = vec![150 * MMR_UNIT; 12];
    assert_eq!(find_window_start(&skills, &wide), Some(2));
    // One player of the window still on the tightest tier blocks it.
    let mut one_tight = wide.clone();
    one_tight[6] = 50 * MMR_UNIT;
    assert_eq!(find_window_start(&skills, &one_tight), None);
    // Everyone desperate: the first window (spread 690 MMR) fits.
    let desperate = vec![1500 * MMR_UNIT; 12];
    assert_eq!(find_window_start(&skills, &desperate), Some(0));
}

#[test]
fn window_start_with_short_input() {
    assert_eq!(find_window_start(&[1, 2, 3], &[10, 10, 10]), None);
    assert_eq!(find_window_start(&[5; 10], &[0; 10]), Some(0));
}

#[test]
fn sort_is_stable_by_skill() {
    let mut pool: Vec<Player> = vec![(0, 3), (1, 1), (2, 3), (3, 2), (4, 1)]
        .into_iter()
        .map(|(id, s)| player(id, s))
        .collect();
    sort_by_skill(&mut pool);
    let ids: Vec<u64> = pool.iter().map(|p| p.id).collect();
    assert_eq!(ids, vec![1, 4, 3, 0, 2]);
}

#[test]
fn take_window_splits_the_pool() {
    let mut pool: Vec<Player> = (0..14).map(|i| player(i, i as u32)).collect();
    let group = take_window(&mut pool, 3);
    assert_eq!(group.iter().map(|p| p.id).collect::<Vec<u64>>(), (3..13).collect::<Vec<u64>>());
    assert_eq!(pool.iter().map(|p| p.id).collect::<Vec<u64>>(), vec![0, 1, 2, 13]);
}

#[test]
fn try_form_match_moves_ten_players_into_teams() {
    let mut pool: Vec<Player> = vec![
        2100, 1500, 1480, 820, 1490, 1470, 1510, 1460, 1505, 1500, 1495, 1485,
    ]
    .into_iter()
    .enumerate()
    .map(|(i, s)| player(i as u64, s * MMR_UNIT))
    .collect();
    let mut metrics = Metrics::new();
    let mut counter: u64 = 7;
    let formed = try_form_match(&mut pool, &mut metrics, &mut counter).expect("a match");
    assert_eq!(formed.id, 7);
    assert_eq!(counter, 8);
    assert_eq!(formed.team_a.len(), 5);
    assert_eq!(formed.team_b.len(), 5);
    // The two outliers stay, in skill order.
    let left: Vec<u64> = pool.iter().map(|p| p.id).collect();
    assert_eq!(left, vec![3, 0]);
    assert_eq!(metrics.matches_created, 1);
    assert_eq!(metrics.players_matched, 10);
    assert_eq!(metrics.current_pool_size, 0u64.wrapping_sub(10));
    let mut ids: Vec<u64> = formed
        .team_a
        .iter()
        .chain(formed.team_b.iter())
        .map(|p| p.id)
        .collect();
    ids.sort();
    assert_eq!(ids, vec![1, 2, 4, 5, 6, 7, 8, 9, 10, 11]);
}

#[test]
fn try_form_match_without_group_leaves_pool_sorted() {
    let mut pool: Vec<Player> = vec![1900, 100, 1700, 300, 1500, 500, 1300, 700, 1100, 900]
        .into_iter()
        .enumerate()
        .map(|(i, s)| player(i as u64, s * MMR_UNIT))
        .collect();
    let mut metrics = Metrics::new();
    let mut counter: u64 = 1;
    assert!(try_form_match(&mut pool, &mut metrics, &mut counter).is_none());
    assert_eq!(counter, 1);
    assert_eq!(metrics.matches_created, 0);
    let skills: Vec<u32> = pool.iter().map(|p| p.skill_rating / MMR_UNIT).collect();
    assert_eq!(skills, vec![100, 300, 500, 700, 900, 1100, 1300, 1500, 1700, 1900]);
}

#[test]
fn try_form_match_with_small_pool_changes_nothing() {
    let mut pool: Vec<Player> = (0..9).map(|i| player(i, 1_500_000 - i as u32)).collect();
    let mut metrics = Metrics::new();
    let mut counter: u64 = 3;
    assert!(try_form_match(&mut pool, &mut metrics, &mut counter).is_none());
    assert_eq!(pool.iter().map(|p| p.id).collect::<Vec<u64>>(), (0..9).collect::<Vec<u64>>());
    assert_eq!(counter, 3);
}

#[test]
fn match_counter_wraps() {
    let mut pool: Vec<Player> = (0..10).map(|i| player(i, 1_500_000)).collect();
    let mut metrics = Metrics::new();
    let mut counter: u64 = u64::MAX;
    let formed = try_form_match(&mut pool, &mut metrics, &mut counter).expect("a match");
    assert_eq!(formed.id, u64::MAX);
    assert_eq!(counter, 0);
    assert!(pool.is_empty());
}

#[test]
fn take_match_group_then_complete_match() {
    let mut pool: Vec<Player> = vec![
        2100, 1500, 1480, 820, 1490, 1470, 1510, 1460, 1505, 1500, 1495, 1485,
    ]
    .into_iter()
    .enumerate()
    .map(|(i, s)| player(i as u64, s * MMR_UNIT))
    .collect();
    let group = take_match_group(&mut pool).expect("a group");
    assert_eq!(group.len(), 10);
    assert_eq!(pool.iter().map(|p| p.id).collect::<Vec<u64>>(), vec![3, 0]);
    let skills: Vec<u32> = group.iter().map(|p| p.skill_rating / MMR_UNIT).collect();
    assert_eq!(skills, vec![1460, 1470, 1480, 1485, 1490, 1495, 1500, 1500, 1505, 1510]);

    let mut metrics = Metrics::new();
    let mut counter: u64 = 41;
    let formed = complete_match(group, &mut metrics, &mut counter);
    assert_eq!(formed.id, 41);
    assert_eq!(counter, 42);
    assert_eq!(metrics.matches_created, 1);
    assert_eq!(metrics.players_matched, 10);
    // Fresh players have waited well under a second each.
    assert!(metrics.total_wait_ms < 10_000);
    assert_eq!(formed.team_a.len() + formed.team_b.len(), 10);
}

#[test]
fn successive_matches_share_no_player_and_have_consecutive_ids() {
    let mut pool: Vec<Player> = (0..40).map(|i| player(i, 1_500_000 + (i as u32) * 1000)).collect();
    let mut metrics = Metrics::new();
    for _ in 0..40 {
        metrics.record_player_queued();
    }
    let mut counter: u64 = 1;
    let mut seen: Vec<u64> = Vec::new();
    let mut ids: Vec<u64> = Vec::new();
    while let Some(fm) = try_form_match(&mut pool, &mut metrics, &mut counter) {
        ids.push(fm.id);
        for p in fm.team_a.iter().chain(fm.team_b.iter()) {
            assert!(!seen.contains(&p.id));
            seen.push(p.id);
        }
    }
    assert_eq!(ids, vec![1, 2, 3, 4]);
    assert_eq!(seen.len(), 40);
    assert!(pool.is_empty());
    assert_eq!(metrics.current_pool_size, pool.len() as u64);
}
