use los_node::liveness::{is_fresh, parse_heartbeat, parse_proxy_heartbeat, parse_u64, LivePeers};

#[test]
fn numbers_are_read_as_str_parse_reads_them() {
    assert_eq!(parse_u64("123"), Some(123));
    assert_eq!(parse_u64("+7"), Some(7));
    assert_eq!(parse_u64("007"), Some(7));
    assert_eq!(parse_u64("18446744073709551615"), Some(u64::MAX));
    assert_eq!(parse_u64("18446744073709551616"), None);
    assert_eq!(parse_u64(""), None);
    assert_eq!(parse_u64("+"), None);
    assert_eq!(parse_u64("-1"), None);
    assert_eq!(parse_u64("12a"), None);
    for text in ["0", "42", "+9", "99999999999999999999", "1 2"] {
        assert_eq!(parse_u64(text), text.parse::<u64>().ok(), "{}", text);
    }
}

#[test]
fn heartbeat_bodies_split_into_four_fields() {
    let h = parse_heartbeat("LOSaddr:1700000000:ab12:cd:34").unwrap();
    assert_eq!(h.address, "LOSaddr");
    assert_eq!(h.timestamp, "1700000000");
    assert_eq!(h.public_key, "ab12");
    assert_eq!(h.signature, "cd:34");
    assert!(parse_heartbeat("a:b:c").is_none());
    let e = parse_heartbeat(":::").unwrap();
    assert_eq!((e.address.as_str(), e.timestamp.as_str(), e.public_key.as_str(), e.signature.as_str()), ("", "", "", ""));
}

#[test]
fn stamps_are_fresh_within_two_intervals() {
    assert!(is_fresh(100, 220, false));
    assert!(!is_fresh(100, 221, false));
    assert!(is_fresh(220, 100, false));
    assert!(is_fresh(100, 120, true));
    assert!(!is_fresh(100, 121, true));
    assert!(!is_fresh(121, 100, true));
}

#[test]
fn believed_heartbeats_are_recorded() {
    let mut live = LivePeers::new();
    // Our own heartbeat is skipped.
    assert!(!live.on_heartbeat("me".to_string(), "me", true, "1000", 1000, false, true, true));
    // Unregistered, badly signed, stale or unreadable heartbeats are not recorded.
    assert!(!live.on_heartbeat("v1".to_string(), "me", true, "1000", 1000, false, true, false));
    assert!(!live.on_heartbeat("v1".to_string(), "me", true, "1000", 1000, false, false, true));
    assert!(!live.on_heartbeat("v1".to_string(), "me", true, "800", 1000, false, true, true));
    assert!(!live.on_heartbeat("v1".to_string(), "me", true, "x", 1000, false, true, true));
    assert!(!live.on_heartbeat("v1".to_string(), "me", false, "1000", 1000, false, true, true));
    assert_eq!(live.last_seen("v1"), None);
    // A good one records the receiving time, and a later one replaces it.
    assert!(live.on_heartbeat("v1".to_string(), "me", true, "990", 1000, false, true, true));
    assert_eq!(live.last_seen("v1"), Some(1000));
    assert!(live.on_heartbeat("v1".to_string(), "me", true, "1050", 1060, false, true, true));
    assert_eq!(live.last_seen("v1"), Some(1060));
}

#[test]
fn relayed_heartbeats_need_both_validators_registered() {
    let mut live = LivePeers::new();
    assert!(!live.on_proxy_heartbeat("w".to_string(), "me", true, true, "50", 60, true, true, true, false));
    assert!(!live.on_proxy_heartbeat("w".to_string(), "me", true, false, "50", 60, true, true, true, true));
    assert!(!live.on_proxy_heartbeat("me".to_string(), "me", true, true, "50", 60, true, true, true, true));
    assert_eq!(live.last_seen("w"), None);
    assert!(live.on_proxy_heartbeat("w".to_string(), "me", true, true, "50", 60, true, true, true, true));
    assert_eq!(live.last_seen("w"), Some(60));
}

#[test]
fn relayed_heartbeat_bodies_split_into_five_fields() {
    let h = parse_proxy_heartbeat("W:N:55:ab:cd:ef").unwrap();
    assert_eq!(
        (h.wallet.as_str(), h.node.as_str(), h.timestamp.as_str(), h.public_key.as_str(), h.signature.as_str()),
        ("W", "N", "55", "ab", "cd:ef")
    );
    assert!(parse_proxy_heartbeat("W:N:55:ab").is_none());
}
