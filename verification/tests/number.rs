use codex_managed_channel::clock::Duration;
use codex_managed_channel::number::{parse_i32_bytes, parse_i64_bytes, parse_u32_bytes, parse_u64, parse_usize};

#[test]
fn unsigned_numbers_read_like_str_parse() {
    assert_eq!(parse_u64("0"), Some(0));
    assert_eq!(parse_u64("+42"), Some(42));
    assert_eq!(parse_u64("18446744073709551615"), Some(u64::MAX));
    assert_eq!(parse_u64("18446744073709551616"), None);
    assert_eq!(parse_u64(""), None);
    assert_eq!(parse_u64("+"), None);
    assert_eq!(parse_u64("-1"), None);
    assert_eq!(parse_u64(" 1"), None);
    assert_eq!(parse_usize("007"), Some(7));
    assert_eq!(parse_u32_bytes(b"4294967295"), Some(u32::MAX));
    assert_eq!(parse_u32_bytes(b"4294967296"), None);
}

#[test]
fn signed_numbers_read_like_str_parse() {
    assert_eq!(parse_i32_bytes(b"-2147483648"), Some(i32::MIN));
    assert_eq!(parse_i32_bytes(b"2147483647"), Some(i32::MAX));
    assert_eq!(parse_i32_bytes(b"2147483648"), None);
    assert_eq!(parse_i32_bytes(b"-"), None);
    assert_eq!(parse_i32_bytes(b"--1"), None);
    assert_eq!(parse_i32_bytes(b"+-1"), None);
    assert_eq!(parse_i64_bytes(b"-9223372036854775808"), Some(i64::MIN));
    assert_eq!(parse_i64_bytes(b"-32600"), Some(-32600));
    assert_eq!(parse_i64_bytes(b"9223372036854775808"), None);
}

#[test]
fn spans_convert_and_saturate() {
    assert_eq!(Duration::from_secs(3).as_nanos(), 3_000_000_000);
    assert_eq!(Duration::from_millis(25).as_nanos(), 25_000_000);
    assert_eq!(Duration::from_secs(90).as_secs(), 90);
    assert!(Duration::zero().is_zero());
    assert_eq!(
        Duration::from_secs(2).saturating_sub(Duration::from_secs(5)),
        Duration::zero()
    );
    assert_eq!(
        Duration::max_value().saturating_add(Duration::from_secs(1)),
        Duration::max_value()
    );
    assert!(Duration::from_secs(600).at_least(&Duration::from_secs(600)));
    assert!(!Duration::from_secs(599).at_least(&Duration::from_secs(600)));
    assert!(Duration::from_nanos(u128::MAX).is_none());
}
