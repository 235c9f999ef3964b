use bittorrent::decimal::{
    digits_value_u64, parse_i64_slice, parse_usize_slice, push_decimal_i64, push_decimal_u64,
};

#[test]
fn writes_decimal_text() {
    let mut out = b"x".to_vec();
    push_decimal_u64(&mut out, 0);
    push_decimal_u64(&mut out, 1234);
    push_decimal_u64(&mut out, u64::MAX);
    assert_eq!(out, b"x0123418446744073709551615".to_vec());
    let mut out = Vec::new();
    push_decimal_i64(&mut out, -305);
    push_decimal_i64(&mut out, i64::MIN);
    assert_eq!(out, b"-305-9223372036854775808".to_vec());
}

#[test]
fn reads_unsigned_text() {
    assert_eq!(parse_usize_slice(b"+17", 0, 3), Some(17));
    assert_eq!(parse_usize_slice(b"0042", 0, 4), Some(42));
    assert_eq!(parse_usize_slice(b"+", 0, 1), None);
    assert_eq!(parse_usize_slice(b"-1", 0, 2), None);
    assert_eq!(parse_usize_slice(b"", 0, 0), None);
    assert_eq!(parse_usize_slice(b"12a", 0, 3), None);
    assert_eq!(parse_usize_slice(b"x99y", 1, 3), Some(99));
    assert_eq!(parse_usize_slice(b"99999999999999999999999", 0, 23), None);
}

#[test]
fn reads_signed_text() {
    assert_eq!(parse_i64_slice(b"-12", 0, 3), Some(-12));
    assert_eq!(parse_i64_slice(b"+12", 0, 3), Some(12));
    assert_eq!(parse_i64_slice(b"-", 0, 1), None);
    assert_eq!(parse_i64_slice(b"9223372036854775807", 0, 19), Some(i64::MAX));
    assert_eq!(parse_i64_slice(b"9223372036854775808", 0, 19), None);
    assert_eq!(parse_i64_slice(b"-9223372036854775808", 0, 20), Some(i64::MIN));
    assert_eq!(parse_i64_slice(b"-9223372036854775809", 0, 20), None);
    assert_eq!(parse_i64_slice(b"1 ", 0, 2), None);
}

#[test]
fn digit_values_fit_or_not() {
    assert_eq!(digits_value_u64(b"18446744073709551615", 0, 20), Some(u64::MAX));
    assert_eq!(digits_value_u64(b"18446744073709551616", 0, 20), None);
    assert_eq!(digits_value_u64(b"", 0, 0), Some(0));
}
