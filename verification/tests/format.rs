use one_b_rustc::format::{push_u64, push_tenths_i64, push_tenths_i16};

fn text(f: impl Fn(&mut Vec<u8>)) -> String {
    let mut out = Vec::new();
    f(&mut out);
    String::from_utf8(out).unwrap()
}

#[test]
fn push_u64_zero() {
    assert_eq!(text(|o| push_u64(0, o)), "0");
}

#[test]
fn push_u64_digits() {
    assert_eq!(text(|o| push_u64(12345, o)), "12345");
    assert_eq!(text(|o| push_u64(10, o)), "10");
    assert_eq!(text(|o| push_u64(u64::MAX, o)), "18446744073709551615");
}

#[test]
fn push_u64_appends() {
    let mut out = b"x=".to_vec();
    push_u64(7, &mut out);
    assert_eq!(out, b"x=7".to_vec());
}

#[test]
fn push_tenths_i64_values() {
    assert_eq!(text(|o| push_tenths_i64(123, o)), "12.3");
    assert_eq!(text(|o| push_tenths_i64(0, o)), "0.0");
    assert_eq!(text(|o| push_tenths_i64(-5, o)), "-0.5");
    assert_eq!(text(|o| push_tenths_i64(-53, o)), "-5.3");
    assert_eq!(text(|o| push_tenths_i64(9, o)), "0.9");
    assert_eq!(text(|o| push_tenths_i64(i64::MAX, o)), "922337203685477580.7");
}

#[test]
fn push_tenths_i16_values() {
    assert_eq!(text(|o| push_tenths_i16(-999, o)), "-99.9");
    assert_eq!(text(|o| push_tenths_i16(999, o)), "99.9");
    assert_eq!(text(|o| push_tenths_i16(i16::MIN, o)), "-3276.8");
}
