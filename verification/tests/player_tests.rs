use matchmaker::player::{skill_range_for_wait, Player, MMR_UNIT};

#[test]
fn test_fresh_player_has_tight_skill_range() {
    let player = Player::new(1, 1500 * MMR_UNIT);
    assert_eq!(player.acceptable_skill_range(), 50 * MMR_UNIT);
}

#[test]
fn test_skill_rating_stored_correctly() {
    let player = Player::new(42, 2_000_500);
    assert_eq!(player.id, 42);
    assert!((player.skill_rating as f64 / MMR_UNIT as f64 - 2000.5).abs() < 0.001);
}

#[test]
fn skill_range_tiers_at_their_bounds() {
    assert_eq!(skill_range_for_wait(0), 50_000);
    assert_eq!(skill_range_for_wait(9), 50_000);
    assert_eq!(skill_range_for_wait(10), 150_000);
    assert_eq!(skill_range_for_wait(29), 150_000);
    assert_eq!(skill_range_for_wait(30), 300_000);
    assert_eq!(skill_range_for_wait(59), 300_000);
    assert_eq!(skill_range_for_wait(60), 1_500_000);
    assert_eq!(skill_range_for_wait(u64::MAX), 1_500_000);
}

#[test]
fn skill_range_never_narrows_with_waiting() {
    let mut previous = skill_range_for_wait(0);
    for secs in 1..200u64 {
        let current = skill_range_for_wait(secs);
        assert!(current >= previous);
        previous = current;
    }
}

#[test]
fn fresh_player_has_waited_under_a_second() {
    let player = Player::new(7, 1_000_000);
    assert_eq!(player.wait_time(), 0);
    assert!(player.wait_ms() < 1000);
}
