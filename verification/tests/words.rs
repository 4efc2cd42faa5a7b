use one_b_rustc::word::{find_delim, load_u64};
use one_b_rustc::number::convert_into_number;
use one_b_rustc::key::{hash_to_index_sized, hash_from_parts};
use one_b_rustc::merge::rotate_left_u64;
use one_b_rustc::table::{mask1, mask2};

fn word(bytes: &[u8]) -> u64 {
    let mut b = [0u8; 8];
    b[..bytes.len()].copy_from_slice(bytes);
    u64::from_le_bytes(b)
}

fn sep_pos(w: u64) -> u32 {
    (!w & 0x1010_1000u64).trailing_zeros()
}

#[test]
fn find_delim_marks_first_semicolon() {
    let w = word(b"ab;cd;ef");
    let m = find_delim(w, b';');
    assert_eq!(m.trailing_zeros(), 2 * 8 + 7);
    assert_eq!((m.trailing_zeros() >> 3), 2);
}

#[test]
fn find_delim_without_match_is_zero() {
    assert_eq!(find_delim(word(b"abcdefgh"), b';'), 0);
    assert_eq!(find_delim(word(b"abcdefgh"), b'\n'), 0);
}

#[test]
fn find_delim_first_byte() {
    let m = find_delim(word(b"\nbcdefgh"), b'\n');
    assert_eq!(m.trailing_zeros(), 7);
}

#[test]
fn find_delim_last_byte() {
    let m = find_delim(word(b"abcdefg;"), b';');
    assert_eq!(m.trailing_zeros(), 63);
}

#[test]
fn convert_positive_two_digits() {
    let w = word(b"12.3\nxyz");
    assert_eq!(sep_pos(w), 20);
    assert_eq!(convert_into_number(sep_pos(w), w), 123);
}

#[test]
fn convert_negative_one_digit() {
    let w = word(b"-5.3\nHam");
    assert_eq!(convert_into_number(sep_pos(w), w), -53);
}

#[test]
fn convert_single_digit() {
    let w = word(b"8.9\nPale");
    assert_eq!(sep_pos(w), 12);
    assert_eq!(convert_into_number(sep_pos(w), w), 89);
}

#[test]
fn convert_extremes() {
    let w = word(b"-99.9\nab");
    assert_eq!(sep_pos(w), 28);
    assert_eq!(convert_into_number(sep_pos(w), w), -999);
    let w = word(b"99.9\nabc");
    assert_eq!(convert_into_number(sep_pos(w), w), 999);
    let w = word(b"0.0\nabcd");
    assert_eq!(convert_into_number(sep_pos(w), w), 0);
    let w = word(b"-0.1\nabc");
    assert_eq!(convert_into_number(sep_pos(w), w), -1);
}

#[test]
fn hash_to_index_formula() {
    let h: u64 = 0x0123_4567_89AB_CDEF;
    let mixed = h ^ (h >> 33) ^ (h >> 15);
    assert_eq!(hash_to_index_sized(h, 131071), (mixed as usize) & 131071);
    assert!(hash_to_index_sized(u64::MAX, 131071) <= 131071);
    assert_eq!(hash_to_index_sized(0, 131071), 0);
}

#[test]
fn rotate_left_matches_std() {
    let x: u64 = 0x8000_0000_0000_0001;
    assert_eq!(rotate_left_u64(x, 0), x);
    assert_eq!(rotate_left_u64(x, 1), x.rotate_left(1));
    assert_eq!(rotate_left_u64(x, 63), x.rotate_left(63));
    assert_eq!(rotate_left_u64(0x1234, 8), 0x123400);
}

#[test]
fn masks() {
    assert_eq!(mask1(0), 0xFF);
    assert_eq!(mask1(3), 0xFFFF_FFFF);
    assert_eq!(mask1(7), u64::MAX);
    assert_eq!(mask1(8), u64::MAX);
    assert_eq!(mask2(0), 0);
    assert_eq!(mask2(7), 0);
    assert_eq!(mask2(8), u64::MAX);
}

#[test]
fn load_u64_reads_little_endian_and_pads() {
    let data = b"abcdefghij";
    assert_eq!(load_u64(data, 0), word(b"abcdefgh"));
    assert_eq!(load_u64(data, 4), word(b"efghij"));
    assert_eq!(load_u64(data, 10), 0);
}

#[test]
fn hash_from_parts_short_name_is_xor_of_words() {
    let data = b"Hamburg;12.0\n";
    let first = word(b"Hamburg;");
    assert_eq!(hash_from_parts(data, 0, 7, first, 0), first);
}

#[test]
fn hash_from_parts_long_name_folds_tail() {
    // a 20-byte name: key of 21 bytes, words after the first 16 bytes
    let data = b"ABCDEFGHIJKLMNOPQRST;1.0\n";
    let first = word(b"ABCDEFGH");
    let second = word(b"IJKLMNOP");
    let end = 21usize;
    let last_start = end - (end & 7);
    assert_eq!(last_start, 16);
    let last = word(&data[16..24]);
    let k = 20 - last_start;
    let expected = (first ^ second) ^ (last << (56 - (k << 3)));
    assert_eq!(hash_from_parts(data, 0, 20, first, second), expected);
}

#[test]
fn hash_from_parts_does_not_depend_on_offset() {
    let data = b"abcdefghijklmnop;1.0\nx;abcdefghijklmnop;2.0\n";
    let first = word(b"abcdefgh");
    let second = word(b"ijklmnop");
    assert_eq!(hash_from_parts(data, 0, 16, first, second), hash_from_parts(data, 23, 16, first, second));
    let long = b"zzzABCDEFGHIJKLMNOPQRSTUVWXYZ;ABCDEFGHIJKLMNOPQRSTUVWXYZ;";
    let f = word(b"ABCDEFGH");
    let s2 = word(b"IJKLMNOP");
    assert_eq!(hash_from_parts(long, 3, 26, f, s2), hash_from_parts(long, 30, 26, f, s2));
}

#[test]
fn find_delim_whole_mask() {
    assert_eq!(find_delim(word(b"ab;cd;ef"), b';'), 0x0000_8000_0080_0000);
    assert_eq!(find_delim(word(b";;;;;;;;"), b';'), 0x8080_8080_8080_8080);
}
