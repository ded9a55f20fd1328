use railspan::text::{eq_str, hex16, simple_hash, truncate, u64_to_decimal, FNV_OFFSET};

#[test]
fn truncate_counts_characters() {
    assert_eq!(truncate("héllo wörld", 4), "héll");
    assert_eq!(truncate("short", 10), "short");
    assert_eq!(truncate("exact", 5), "exact");
    assert_eq!(truncate("", 3), "");
    assert_eq!(truncate("abc", 0), "");
}

#[test]
fn fnv1a_known_values() {
    assert_eq!(simple_hash(""), FNV_OFFSET);
    assert_eq!(simple_hash(""), 0xcbf29ce484222325);
    assert_eq!(simple_hash("a"), 0xaf63dc4c8601ec8c);
    assert_eq!(simple_hash("foobar"), 0x85944171f73967e8);
}

#[test]
fn decimal_and_hex_formatting() {
    assert_eq!(u64_to_decimal(0), "0");
    assert_eq!(u64_to_decimal(7), "7");
    assert_eq!(u64_to_decimal(1234567890), "1234567890");
    assert_eq!(u64_to_decimal(u64::MAX), u64::MAX.to_string());
    assert_eq!(hex16(0), "0000000000000000");
    assert_eq!(hex16(255), "00000000000000ff");
    assert_eq!(hex16(u64::MAX), "ffffffffffffffff");
    assert_eq!(hex16(0x1234_5678_9abc_def0), format!("{:016x}", 0x1234_5678_9abc_def0u64));
}

#[test]
fn string_equality_by_characters() {
    assert!(eq_str(&"error".to_string(), "error"));
    assert!(!eq_str(&"errors".to_string(), "error"));
    assert!(!eq_str(&"".to_string(), "x"));
}

