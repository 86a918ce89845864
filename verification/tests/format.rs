use los_node::format::{format_balance_precise, format_u128, format_uptime, get_short_addr, CIL_PER_LOS};

#[test]
fn uptime_shows_the_largest_unit_and_below() {
    assert_eq!(format_uptime(0), "0m");
    assert_eq!(format_uptime(59), "0m");
    assert_eq!(format_uptime(61), "1m");
    assert_eq!(format_uptime(3_600), "1h 0m");
    assert_eq!(format_uptime(90_061), "1d 1h 1m");
    assert_eq!(format_uptime(3 * 86_400 + 12 * 3_600 + 5 * 60), "3d 12h 5m");
    assert_eq!(format_uptime(86_400), "1d 0h 0m");
}

#[test]
fn balances_keep_eleven_decimals() {
    assert_eq!(format_balance_precise(0), "0.00000000000");
    assert_eq!(format_balance_precise(5), "0.00000000005");
    assert_eq!(format_balance_precise(CIL_PER_LOS / 2), "0.50000000000");
    assert_eq!(format_balance_precise(150_000_000_000), "1.50000000000");
    assert_eq!(format_balance_precise(1_000 * CIL_PER_LOS + 1), "1000.00000000001");
}

#[test]
fn integers_are_grouped_by_thousands_with_dots() {
    assert_eq!(format_u128(0), "0");
    assert_eq!(format_u128(999), "999");
    assert_eq!(format_u128(1_000), "1.000");
    assert_eq!(format_u128(1_234_567), "1.234.567");
    assert_eq!(format_u128(21_936_236), "21.936.236");
    assert_eq!(
        format_u128(u128::MAX),
        "340.282.366.920.938.463.463.374.607.431.768.211.455"
    );
}

#[test]
fn short_addresses_skip_the_prefix() {
    assert_eq!(get_short_addr("LOSabcdefgh1234"), "los_abcdefgh");
    assert_eq!(get_short_addr("LOSabcdefghX"), "los_abcdefgh");
    assert_eq!(get_short_addr("LOS123"), "LOS123");
    assert_eq!(get_short_addr(""), "");
}
