use matchmaker::metrics::Metrics;
use matchmaker::worker::{idle_sleep_ms, WorkerState};

#[test]
fn new_metrics_are_zero() {
    let m = Metrics::new();
    assert_eq!(m.players_queued, 0);
    assert_eq!(m.matches_created, 0);
    assert_eq!(m.players_matched, 0);
    assert_eq!(m.total_wait_ms, 0);
    assert_eq!(m.current_pool_size, 0);
}

#[test]
fn queueing_and_matching_keep_counters_consistent() {
    let mut m = Metrics::new();
    for _ in 0..25 {
        m.record_player_queued();
    }
    m.record_match_created(&[100, 200, 300, 400, 500, 600, 700, 800, 900, 1000]);
    m.record_match_created(&[1; 10]);
    assert_eq!(m.players_queued, 25);
    assert_eq!(m.matches_created, 2);
    assert_eq!(m.players_matched, 20);
    assert_eq!(m.players_matched, 10 * m.matches_created);
    assert_eq!(m.current_pool_size, 5);
    assert_eq!(m.current_pool_size, m.players_queued - m.players_matched);
    assert_eq!(m.total_wait_ms, 5510);
}

#[test]
fn counters_wrap_around() {
    let mut m = Metrics::new();
    m.total_wait_ms = u64::MAX - 5;
    m.record_match_created(&[u64::MAX, 10]);
    // (2^64 - 6) + (2^64 - 1) + 10 = 2^65 + 3, i.e. 3 modulo 2^64.
    assert_eq!(m.total_wait_ms, 3);
    assert_eq!(m.current_pool_size, u64::MAX - 9);
    m.players_queued = u64::MAX;
    m.record_player_queued();
    assert_eq!(m.players_queued, 0);
}

#[test]
fn idle_backoff_tiers() {
    assert_eq!(idle_sleep_ms(0), 15);
    assert_eq!(idle_sleep_ms(1), 1);
    assert_eq!(idle_sleep_ms(5), 1);
    assert_eq!(idle_sleep_ms(6), 5);
    assert_eq!(idle_sleep_ms(20), 5);
    assert_eq!(idle_sleep_ms(21), 15);
}

#[test]
fn worker_backs_off_and_resets() {
    let mut w = WorkerState::new();
    let sleeps: Vec<u64> = (0..22).map(|_| w.on_idle()).collect();
    assert_eq!(&sleeps[..5], &[1; 5]);
    assert_eq!(&sleeps[5..20], &[5; 15]);
    assert_eq!(&sleeps[20..], &[15; 2]);
    assert!(sleeps.windows(2).all(|p| p[0] <= p[1]));
    w.on_match();
    assert_eq!(w.idle_cycles, 0);
    assert_eq!(w.on_idle(), 1);
}

#[test]
fn counters_add_up_over_a_run() {
    // The README's demo run: 3000 players queued and 296 matches formed.
    let mut m = Metrics::new();
    for _ in 0..3000 {
        m.record_player_queued();
    }
    let mut waits_total: u64 = 0;
    for i in 0..296u64 {
        let waits: Vec<u64> = (0..10).map(|k| 400 + i + k).collect();
        waits_total += waits.iter().sum::<u64>();
        m.record_match_created(&waits);
    }
    assert_eq!(m.players_queued, 3000);
    assert_eq!(m.matches_created, 296);
    assert_eq!(m.players_matched, 2960);
    assert_eq!(m.current_pool_size, 40);
    assert_eq!(m.current_pool_size + m.players_matched, m.players_queued);
    assert_eq!(m.total_wait_ms, waits_total);
}
