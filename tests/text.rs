use harp_tracker::number::parse_number;
use harp_tracker::text::{parse_fixed, parse_uint, push_fixed};

fn fixed(s: &str, places: u32) -> Option<i64> {
    parse_fixed(s.as_bytes(), 0, s.len(), places)
}

#[test]
fn decimals_read_in_fixed_units() {
    assert_eq!(fixed("45.5", 6), Some(45_500_000));
    assert_eq!(fixed("-111.25", 6), Some(-111_250_000));
    assert_eq!(fixed("+3", 2), Some(300));
    assert_eq!(fixed(".5", 2), Some(50));
    assert_eq!(fixed("7.", 2), Some(700));
    assert_eq!(fixed("1.23456789", 6), Some(1_234_567));
    assert_eq!(fixed("-0.0000019", 6), Some(-1));
}

#[test]
fn malformed_decimals_do_not_read() {
    assert_eq!(fixed("", 6), None);
    assert_eq!(fixed("-", 6), None);
    assert_eq!(fixed(".", 6), None);
    assert_eq!(fixed("1.2.3", 6), None);
    assert_eq!(fixed("1e5", 6), None);
    assert_eq!(fixed("abc", 6), None);
    assert_eq!(fixed("99999999999999999999", 0), None);
}

#[test]
fn decimal_limits_of_i64() {
    assert_eq!(fixed("9223372036854775807", 0), Some(i64::MAX));
    assert_eq!(fixed("-9223372036854775808", 0), Some(i64::MIN));
    assert_eq!(fixed("9223372036854775808", 0), None);
}

#[test]
fn unsigned_integers() {
    let s = b"x18446744073709551615y";
    assert_eq!(parse_uint(s, 1, 21), Some(u64::MAX));
    assert_eq!(parse_uint(b"18446744073709551616", 0, 20), None);
    assert_eq!(parse_uint(b"12a", 0, 3), None);
    assert_eq!(parse_uint(b"", 0, 0), None);
}

#[test]
fn fixed_text_written() {
    let mut out = Vec::new();
    push_fixed(&mut out, -1_234_567, 6);
    assert_eq!(out, b"-1.234567".to_vec());
    let mut out = Vec::new();
    push_fixed(&mut out, 5, 2);
    assert_eq!(out, b"0.05".to_vec());
    let mut out = Vec::new();
    push_fixed(&mut out, 42, 0);
    assert_eq!(out, b"42".to_vec());
}

fn number(s: &str, places: u32) -> Option<i64> {
    parse_number(s.as_bytes(), 0, s.len(), places)
}

#[test]
fn exponents_move_the_point() {
    assert_eq!(number("3.2e-6", 6), Some(3));
    assert_eq!(number("-3.2E-6", 6), Some(-3));
    assert_eq!(number("1.5e3", 2), Some(150_000));
    assert_eq!(number("1.7e9", 0), Some(1_700_000_000));
    assert_eq!(number("1e+2", 0), Some(100));
    assert_eq!(number("45.5", 6), Some(45_500_000));
    assert_eq!(number("5e-7", 6), Some(0));
    assert_eq!(number("-123456789e-8", 0), Some(-1));
    assert_eq!(number("7e-300", 6), Some(0));
}

#[test]
fn malformed_exponents_do_not_read() {
    assert_eq!(number("1e", 6), None);
    assert_eq!(number("1e-", 6), None);
    assert_eq!(number("e5", 6), None);
    assert_eq!(number("1e5e2", 6), None);
    assert_eq!(number("1e1.5", 6), None);
    assert_eq!(number("1e300", 6), None);
}
