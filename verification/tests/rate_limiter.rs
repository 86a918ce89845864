use los_node::rate_limiter::{ipv4_key, ClientIp, RateLimiter, MILLITOKEN};

/// One millisecond, in nanoseconds.
const MS: u64 = 1_000_000;

#[test]
fn test_rate_limiter_allows_burst() {
    let mut limiter = RateLimiter::new(10, Some(20)); // 10 req/sec, burst 20
    let ip = ipv4_key(192, 168, 1, 1);

    // Should allow burst of 20 requests
    for i in 0..20 {
        assert!(limiter.check_rate_limit(ip), "Request {} should be allowed", i);
    }

    // 21st request should be blocked
    assert!(!limiter.check_rate_limit(ip), "Request 21 should be blocked");
}

#[test]
fn test_rate_limiter_refills() {
    let mut limiter = RateLimiter::new_at(10, Some(10), 1_000 * MS); // 10 req/sec, burst 10
    let ip = ipv4_key(192, 168, 1, 2);
    let t0: u64 = 1_000 * MS;

    // Exhaust tokens
    for _ in 0..10 {
        assert!(limiter.check_rate_limit_at(ip, t0));
    }
    assert!(!limiter.check_rate_limit_at(ip, t0)); // Should be blocked

    // One second later the bucket has refilled (10 tokens)
    let t1 = t0 + 1000 * MS;

    // Should allow 10 more requests
    for i in 0..10 {
        assert!(limiter.check_rate_limit_at(ip, t1), "Refilled request {} should be allowed", i);
    }
}

#[test]
fn test_rate_limiter_different_ips() {
    let mut limiter = RateLimiter::new(5, Some(5));
    let ip1 = ipv4_key(192, 168, 1, 10);
    let ip2 = ipv4_key(192, 168, 1, 20);

    // Exhaust ip1
    for _ in 0..5 {
        assert!(limiter.check_rate_limit(ip1));
    }
    assert!(!limiter.check_rate_limit(ip1));

    // ip2 should still work (separate bucket)
    for i in 0..5 {
        assert!(limiter.check_rate_limit(ip2), "IP2 request {} should be allowed", i);
    }
}

#[test]
fn test_get_tokens_milli() {
    let mut limiter = RateLimiter::new(10, Some(10));
    let ip = ipv4_key(192, 168, 1, 30);

    // Initial tokens should be max (10 * 1000 = 10000 millitokens)
    assert!(limiter.check_rate_limit(ip));
    let tokens = limiter.get_tokens_milli(ip).unwrap();
    // After 1 request: 10000 - 1000 = 9000 millitokens (+ small refill)
    assert!(
        (8900..=9100).contains(&tokens),
        "Tokens should be ~9000 milli after 1 request, got {}",
        tokens
    );

    // Consume 5 more
    for _ in 0..5 {
        limiter.check_rate_limit(ip);
    }
    let tokens = limiter.get_tokens_milli(ip).unwrap();
    // After 6 requests: ~4000 millitokens
    assert!(
        (3800..=4200).contains(&tokens),
        "Tokens should be ~4000 milli after 6 requests, got {}",
        tokens
    );
}

#[test]
fn test_reset_ip() {
    let mut limiter = RateLimiter::new(5, Some(5));
    let ip = ipv4_key(192, 168, 1, 40);

    // Exhaust tokens
    for _ in 0..5 {
        limiter.check_rate_limit(ip);
    }
    assert!(!limiter.check_rate_limit(ip)); // Blocked

    // Reset
    limiter.reset_ip(ip);

    // Should work again
    assert!(limiter.check_rate_limit(ip), "Should work after reset");
}

#[test]
fn test_tracked_ips_count() {
    let mut limiter = RateLimiter::new(10, Some(10));

    assert_eq!(limiter.tracked_ips(), 0);

    let ip1 = ipv4_key(10, 0, 0, 1);
    let ip2 = ipv4_key(10, 0, 0, 2);
    let ip3 = ipv4_key(10, 0, 0, 3);

    limiter.check_rate_limit(ip1);
    assert_eq!(limiter.tracked_ips(), 1);

    limiter.check_rate_limit(ip2);
    assert_eq!(limiter.tracked_ips(), 2);

    limiter.check_rate_limit(ip3);
    assert_eq!(limiter.tracked_ips(), 3);
}

#[test]
fn ipv4_and_mapped_ipv6_clients_are_apart() {
    assert_eq!(ipv4_key(192, 168, 1, 1), ClientIp::V4(0xc0a8_0101));
    assert_ne!(ipv4_key(10, 0, 0, 1), ipv4_key(10, 0, 0, 2));
    let mut limiter = RateLimiter::new_at(1, Some(1), 0);
    // ::ffff:192.168.1.1
    let mapped = ClientIp::V6(0xffff_c0a8_0101);
    assert!(limiter.check_rate_limit_at(ipv4_key(192, 168, 1, 1), 0));
    assert!(limiter.check_rate_limit_at(mapped, 0));
    assert_eq!(limiter.tracked_ips(), 2);
}

#[test]
fn default_burst_is_twice_the_rate() {
    let mut limiter = RateLimiter::new_at(3, None, 0);
    let ip = ipv4_key(1, 2, 3, 4);
    for _ in 0..6 {
        assert!(limiter.check_rate_limit_at(ip, 0));
    }
    assert!(!limiter.check_rate_limit_at(ip, 0));
}

#[test]
fn exact_token_count_after_requests_and_partial_refill() {
    let mut limiter = RateLimiter::new_at(10, Some(10), 0);
    let ip = ipv4_key(8, 8, 8, 8);
    assert!(limiter.check_rate_limit_at(ip, 0));
    assert_eq!(limiter.get_tokens_milli(ip), Some(9 * MILLITOKEN));
    assert!(limiter.check_rate_limit_at(ip, 0));
    assert_eq!(limiter.get_tokens_milli(ip), Some(8_000));
    // 150 ms at 10 req/s refill 1500 millitokens, then one token is taken.
    assert!(limiter.check_rate_limit_at(ip, 150 * MS));
    assert_eq!(limiter.get_tokens_milli(ip), Some(8_500));
    // A refill never goes above the burst capacity.
    assert!(limiter.check_rate_limit_at(ip, 100_000 * MS));
    assert_eq!(limiter.get_tokens_milli(ip), Some(9_000));
    assert_eq!(limiter.get_tokens_milli(ipv4_key(9, 9, 9, 9)), None);
}

#[test]
fn refused_request_keeps_tokens() {
    let mut limiter = RateLimiter::new_at(1, Some(1), 0);
    let ip = ipv4_key(7, 7, 7, 7);
    assert!(limiter.check_rate_limit_at(ip, 0));
    assert!(!limiter.check_rate_limit_at(ip, 500 * MS));
    assert_eq!(limiter.get_tokens_milli(ip), Some(500));
    assert!(limiter.check_rate_limit_at(ip, 1000 * MS));
}

#[test]
fn idle_buckets_are_dropped_by_cleanup() {
    let mut limiter = RateLimiter::new_at(10, Some(10), 0);
    let a = ipv4_key(1, 1, 1, 1);
    let b = ipv4_key(2, 2, 2, 2);
    limiter.check_rate_limit_at(a, 0);
    assert_eq!(limiter.tracked_ips(), 1);
    // Past the cleanup interval and the idle expiry, `a` is forgotten.
    limiter.check_rate_limit_at(b, 700_000 * MS);
    assert_eq!(limiter.tracked_ips(), 1);
    assert_eq!(limiter.get_tokens_milli(a), None);
    assert_eq!(limiter.get_tokens_milli(b), Some(9_000));
}

#[test]
fn reset_all_forgets_every_client() {
    let mut limiter = RateLimiter::new_at(2, Some(2), 0);
    let a = ipv4_key(1, 1, 1, 1);
    let b = ipv4_key(2, 2, 2, 2);
    limiter.check_rate_limit_at(a, 0);
    limiter.check_rate_limit_at(b, 0);
    limiter.reset_all();
    assert_eq!(limiter.tracked_ips(), 0);
    assert!(limiter.check_rate_limit_at(a, 0));
    assert!(limiter.check_rate_limit_at(a, 0));
    assert!(!limiter.check_rate_limit_at(a, 0));
}

#[test]
fn each_interval_is_counted_in_whole_milliseconds() {
    let mut limiter = RateLimiter::new_at(1000, Some(1), 0);
    let ip = ipv4_key(3, 3, 3, 3);
    assert!(limiter.check_rate_limit_at(ip, 0));
    // Requests 0.6 ms apart never refill: each interval is below a millisecond.
    let mut t = 0u64;
    for _ in 0..5 {
        t += 600_000;
        assert!(!limiter.check_rate_limit_at(ip, t));
    }
    assert_eq!(limiter.get_tokens_milli(ip), Some(0));
    // A full millisecond refills one token at 1000 requests per second.
    assert!(limiter.check_rate_limit_at(ip, t + MS));
}

#[test]
fn average_rate_is_bounded_by_burst_plus_refill() {
    // 10 tokens per second with a burst of 5; a request every 10 ms for 2 s.
    let t0: u64 = 1_000 * MS;
    let mut limiter = RateLimiter::new_at(10, Some(5), t0);
    let ip = ipv4_key(10, 0, 0, 1);
    let mut admitted: u64 = 0;
    for i in 0..=200u64 {
        if limiter.check_rate_limit_at(ip, t0 + i * 10 * MS) {
            admitted += 1;
        }
    }
    // Burst 5 plus 2000 ms of refill at 10 millitokens per ms = 20 tokens.
    assert!(admitted * MILLITOKEN <= 5 * MILLITOKEN + 2_000 * 10);
    assert_eq!(admitted, 25);
}
