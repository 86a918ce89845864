use los_node::endpoint_limiter::EndpointRateLimiter;

const SEC: u64 = 1_000_000_000;
const MS: u64 = 1_000_000;

#[test]
fn admits_up_to_the_budget_then_asks_to_wait() {
    let mut limiter = EndpointRateLimiter::new_at(3, 60, 0);
    assert_eq!(limiter.check_and_record_at("LOSaddr", 0), Ok(()));
    assert_eq!(limiter.check_and_record_at("LOSaddr", SEC), Ok(()));
    assert_eq!(limiter.check_and_record_at("LOSaddr", 2 * SEC), Ok(()));
    // The oldest counted request is 3 s old: 57 s remain, rounded up.
    assert_eq!(limiter.check_and_record_at("LOSaddr", 3 * SEC), Err(58));
    // Another address has its own budget.
    assert_eq!(limiter.check_and_record_at("LOSother", 3 * SEC), Ok(()));
}

#[test]
fn requests_leave_the_window_after_it_elapses() {
    let mut limiter = EndpointRateLimiter::new_at(3, 60, 0);
    for t in [0u64, SEC, 2 * SEC] {
        assert_eq!(limiter.check_and_record_at("a", t), Ok(()));
    }
    // At 60 s the first request no longer counts.
    assert_eq!(limiter.check_and_record_at("a", 60 * SEC), Ok(()));
    // Half a second later the oldest counted request is 59.5 s old.
    assert_eq!(limiter.check_and_record_at("a", 60 * SEC + 500 * MS), Err(1));
}

#[test]
fn wait_is_computed_at_nanosecond_resolution() {
    let mut limiter = EndpointRateLimiter::new_at(1, 60, 0);
    assert_eq!(limiter.check_and_record_at("a", 0), Ok(()));
    // 0.5 ms later 59.9995 s remain: 59 whole seconds, plus one.
    assert_eq!(limiter.check_and_record_at("a", 500_000), Err(60));
    // At the same instant the whole window remains.
    assert_eq!(limiter.check_and_record_at("a", 0), Err(61));
}

#[test]
fn refused_request_is_not_recorded() {
    let mut limiter = EndpointRateLimiter::new_at(1, 10, 0);
    assert_eq!(limiter.check_and_record_at("a", 0), Ok(()));
    assert_eq!(limiter.check_and_record_at("a", 9 * SEC), Err(2));
    // Only the first request counts, so the address is free at 10 s.
    assert_eq!(limiter.check_and_record_at("a", 10 * SEC), Ok(()));
}

#[test]
fn check_only_does_not_record() {
    let mut limiter = EndpointRateLimiter::new_at(1, 10, 0);
    assert_eq!(limiter.check_only_at("x", 0), Ok(()));
    assert_eq!(limiter.check_only_at("x", 0), Ok(()));
    limiter.record_success_at("x", 0);
    assert_eq!(limiter.check_only_at("x", 5 * SEC), Err(6));
    assert_eq!(limiter.check_only_at("x", 10 * SEC), Ok(()));
}

#[test]
fn the_largest_window_is_accepted() {
    let mut limiter = EndpointRateLimiter::new_at(1, u64::MAX, 0);
    assert_eq!(limiter.check_and_record_at("a", 0), Ok(()));
    assert_eq!(limiter.check_and_record_at("a", 1), Err(u64::MAX));
}

#[test]
fn clock_versions_admit_a_first_request() {
    let mut limiter = EndpointRateLimiter::new(2, 3600);
    assert_eq!(limiter.check_only("faucet"), Ok(()));
    assert_eq!(limiter.check_and_record("faucet"), Ok(()));
    limiter.record_success("faucet");
    let wait = limiter.check_and_record("faucet").unwrap_err();
    assert!(wait >= 1 && wait <= 3601);
}

#[test]
fn earlier_requests_reduce_what_a_window_admits() {
    // Two requests already count when a burst of calls arrives in the same minute.
    let mut limiter = EndpointRateLimiter::new_at(3, 60, 0);
    assert_eq!(limiter.check_and_record_at("a", 0), Ok(()));
    assert_eq!(limiter.check_and_record_at("a", SEC), Ok(()));
    let mut admitted = 0;
    for i in 0..10u64 {
        if limiter.check_and_record_at("a", 10 * SEC + i * SEC).is_ok() {
            admitted += 1;
        }
    }
    assert_eq!(admitted, 1);
}

#[test]
fn the_send_limiter_admits_ten_a_minute() {
    let mut limiter = EndpointRateLimiter::new_at(10, 60, 0);
    let mut admitted = 0;
    for i in 0..30u64 {
        if limiter.check_and_record_at("sender", i * 2 * SEC).is_ok() {
            admitted += 1;
        }
    }
    // Calls span 58 s, all within one window.
    assert_eq!(admitted, 10);
}
