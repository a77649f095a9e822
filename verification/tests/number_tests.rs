use redistill::number::{format_i64, format_u64, parse_i64, parse_u64};

#[test]
fn unsigned_numbers_are_read() {
    assert_eq!(parse_u64(b"0"), Some(0));
    assert_eq!(parse_u64(b"007"), Some(7));
    assert_eq!(parse_u64(b"18446744073709551615"), Some(u64::MAX));
    assert_eq!(parse_u64(b"18446744073709551616"), None);
    assert_eq!(parse_u64(b"99999999999999999999999"), None);
    assert_eq!(parse_u64(b""), None);
    assert_eq!(parse_u64(b"-1"), None);
    assert_eq!(parse_u64(b"+1"), None);
    assert_eq!(parse_u64(b"1a"), None);
    assert_eq!(parse_u64(b" 1"), None);
}

#[test]
fn signed_numbers_are_read() {
    assert_eq!(parse_i64(b"42"), Some(42));
    assert_eq!(parse_i64(b"-42"), Some(-42));
    assert_eq!(parse_i64(b"9223372036854775807"), Some(i64::MAX));
    assert_eq!(parse_i64(b"9223372036854775808"), None);
    assert_eq!(parse_i64(b"-9223372036854775808"), Some(i64::MIN));
    assert_eq!(parse_i64(b"-9223372036854775809"), None);
    assert_eq!(parse_i64(b"-"), None);
    assert_eq!(parse_i64(b"--1"), None);
    assert_eq!(parse_i64(b""), None);
    assert_eq!(parse_i64(b"3.5"), None);
}

#[test]
fn numbers_are_written() {
    assert_eq!(format_u64(0), b"0".to_vec());
    assert_eq!(format_u64(10), b"10".to_vec());
    assert_eq!(format_u64(u64::MAX), b"18446744073709551615".to_vec());
    assert_eq!(format_i64(-1), b"-1".to_vec());
    assert_eq!(format_i64(i64::MIN), b"-9223372036854775808".to_vec());
    assert_eq!(format_i64(i64::MAX), b"9223372036854775807".to_vec());
}

#[test]
fn written_numbers_are_read_back() {
    for n in [0i64, 1, -1, 9, 10, 99, 100, -1000, 123456789, i64::MIN, i64::MAX] {
        assert_eq!(parse_i64(&format_i64(n)), Some(n));
    }
    for n in [0u64, 9, 10, 1_000_000_007, u64::MAX] {
        assert_eq!(parse_u64(&format_u64(n)), Some(n));
    }
}
