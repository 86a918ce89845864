use los_node::resync::StaleWatch;

#[test]
fn sync_is_tried_after_two_unchanged_ticks() {
    let mut w = StaleWatch::new();
    // The count changes from 0 to 5: not stale.
    assert!(!w.on_tick(5, 1_000, true));
    assert!(!w.on_tick(5, 1_120, true));
    // Second unchanged tick: stale for four minutes.
    assert!(w.on_tick(5, 1_240, true));
    assert_eq!(w.last_rest_sync_secs, 1_240);
    assert_eq!(w.stale_ticks, 2);
}

#[test]
fn attempts_are_at_least_a_minute_apart() {
    let mut w = StaleWatch { last_block_count: 5, stale_ticks: 5, last_rest_sync_secs: 1_000 };
    assert!(!w.on_tick(5, 1_059, true));
    assert!(w.on_tick(5, 1_060, true));
    assert!(!w.on_tick(5, 1_100, true));
    // A clock that went back never allows an attempt.
    assert!(!w.on_tick(5, 900, true));
    assert!(w.on_tick(5, 1_120, true));
}

#[test]
fn no_attempt_without_peers_and_growth_resets_the_count() {
    let mut w = StaleWatch { last_block_count: 5, stale_ticks: 1, last_rest_sync_secs: 0 };
    assert!(!w.on_tick(5, 10_000, false));
    // Without peers the attempt time is not recorded.
    assert_eq!(w.last_rest_sync_secs, 0);
    assert!(!w.on_tick(6, 10_120, true));
    assert_eq!((w.last_block_count, w.stale_ticks), (6, 0));
}

#[test]
fn a_run_of_ticks_tries_at_most_once_per_minute() {
    let mut w = StaleWatch::new();
    let mut last: Option<u64> = None;
    for k in 0..200u64 {
        let now = 100 + k * 7;
        if w.on_tick(3, now, true) {
            if let Some(prev) = last {
                assert!(now >= prev + 60);
            }
            last = Some(now);
        }
    }
    assert!(last.is_some());
}
