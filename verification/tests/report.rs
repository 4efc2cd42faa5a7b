use one_b_rustc::order::cmp_name_bytes;
use one_b_rustc::report::{name_greater, render_report, sort_by_name, write_station};
use one_b_rustc::table::Agg;
use std::cmp::Ordering;

const DATA: &[u8] = b"Oslo;1.0\nAbha;2.0\nAb;3.0\n";

fn agg(off: usize, len: u16, min: i16, max: i16, sum: i64, count: u32) -> Agg {
    let mut b = [0u8; 16];
    let key = &DATA[off..off + len as usize + 1];
    b[..key.len()].copy_from_slice(key);
    let first = u64::from_le_bytes(b[0..8].try_into().unwrap());
    let second = u64::from_le_bytes(b[8..16].try_into().unwrap());
    Agg { hash: first ^ second, first_word: first, second_word: second, name_off: off, name_len: len, min, max, sum, count }
}

fn aggs() -> Vec<Agg> {
    vec![agg(0, 4, 10, 10, 10, 1), agg(9, 4, 20, 20, 20, 1), agg(18, 2, -5, 30, 25, 2)]
}

#[test]
fn compare_names_bytewise() {
    let v = aggs();
    assert_eq!(cmp_name_bytes(DATA, &v[0], &v[1]), Ordering::Greater);
    assert_eq!(cmp_name_bytes(DATA, &v[2], &v[1]), Ordering::Less);
    assert_eq!(cmp_name_bytes(DATA, &v[1], &v[1]), Ordering::Equal);
    assert!(name_greater(DATA, &v[1], &v[2]));
    assert!(!name_greater(DATA, &v[2], &v[1]));
}

#[test]
fn sort_then_render() {
    let mut v = aggs();
    sort_by_name(DATA, &mut v);
    assert_eq!(v.iter().map(|a| a.name_off).collect::<Vec<_>>(), vec![18, 9, 0]);
    let (out, checksum) = render_report(DATA, &v);
    assert_eq!(String::from_utf8(out).unwrap(), "{Ab=-0.5/1.3/3.0, Abha=2.0/2.0/2.0, Oslo=1.0/1.0/1.0}");
    let mix = |sum: i64, count: u32| (sum as u64).wrapping_mul(0x9E37_79B1_85EB_CA87).rotate_left(count & 63);
    assert_eq!(checksum, mix(10, 1) ^ mix(20, 1) ^ mix(25, 2));
}

#[test]
fn one_station_text() {
    let v = aggs();
    let mut out = b"x".to_vec();
    write_station(DATA, &v[2], &mut out);
    assert_eq!(String::from_utf8(out).unwrap(), "xAb=-0.5/1.3/3.0");
}

#[test]
fn negative_mean_rounds_away_from_zero() {
    let mut out = Vec::new();
    // sum -25 over 2: -1.25 -> -1.3
    write_station(DATA, &agg(18, 2, -20, -5, -25, 2), &mut out);
    assert_eq!(String::from_utf8(out).unwrap(), "Ab=-2.0/-1.3/-0.5");
}
