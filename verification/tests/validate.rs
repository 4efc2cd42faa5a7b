use one_b_rustc::validate::{check_measurements, line_end_at, is_temperature_word};
use one_b_rustc::key::hash_to_index_sized;

fn word(bytes: &[u8]) -> u64 {
    let mut b = [0u8; 8];
    b[..bytes.len()].copy_from_slice(bytes);
    u64::from_le_bytes(b)
}

#[test]
fn temperature_words() {
    assert!(is_temperature_word(word(b"1.2\n")));
    assert!(is_temperature_word(word(b"12.3\n")));
    assert!(is_temperature_word(word(b"-1.2\n")));
    assert!(is_temperature_word(word(b"-12.3")));
    assert!(!is_temperature_word(word(b"123.4")));
    assert!(!is_temperature_word(word(b"1.\n")));
    assert!(!is_temperature_word(word(b"+1.2")));
    assert!(!is_temperature_word(word(b".12")));
    assert!(!is_temperature_word(word(b"-.1")));
}

#[test]
fn line_ends() {
    let data = b"Hamburg;12.0\nBulawayo;-8.9";
    assert_eq!(line_end_at(data, 0), Some(12));
    assert_eq!(line_end_at(data, 13), Some(data.len()));
    assert_eq!(line_end_at(b";1.0\n", 0), None);
    assert_eq!(line_end_at(b"ab\nc;1.0\n", 0), None);
    assert_eq!(line_end_at(b"abc", 0), None);
    assert_eq!(line_end_at(b"a;1.0x", 0), None);
    assert_eq!(line_end_at(b"a;1.", 0), None);
}

#[test]
fn valid_files() {
    assert!(check_measurements(b"Hamburg;12.0\nBulawayo;8.9\nPalembang;38.8\nHamburg;-5.3\n"));
    assert!(check_measurements(b"a;1.0"));
    assert!(check_measurements(b""));
}

#[test]
fn malformed_files() {
    assert!(!check_measurements(b"Hamburg;12.0\n\n"));
    assert!(!check_measurements(b"Hamburg;12\n"));
    assert!(!check_measurements(b"Hamburg 12.0\n"));
    assert!(!check_measurements(b"Hamburg;12.0 \n"));
    assert!(!check_measurements(b"\n"));
    assert!(!check_measurements(b"a;1.0\nb;x.0\n"));
}

#[test]
fn long_name_limit() {
    let mut data = vec![b'x'; 65535];
    data.extend_from_slice(b";1.0\n");
    assert!(check_measurements(&data));
    let mut data = vec![b'x'; 65536];
    data.extend_from_slice(b";1.0\n");
    assert!(!check_measurements(&data));
}

/// Names of three bytes, one for each of the table's 131072 home slots, so
/// that filling a table takes no probing: a full table of names that all
/// collide would take minutes to fill.
fn spread_names() -> Vec<[u8; 3]> {
    let mut taken = vec![false; 131072];
    let mut names = Vec::new();
    let ok = |x: u8| x != 0 && x != b'\n' && x != b';';
    'outer: for c in 1..=255u8 {
        for b in 1..=255u8 {
            for a in 1..=255u8 {
                if !(ok(a) && ok(b) && ok(c)) {
                    continue;
                }
                let key = u64::from_le_bytes([a, b, c, b';', 0, 0, 0, 0]);
                let slot = hash_to_index_sized(key, 131071);
                if !taken[slot] {
                    taken[slot] = true;
                    names.push([a, b, c]);
                    if names.len() == 131072 {
                        break 'outer;
                    }
                }
            }
        }
    }
    assert_eq!(names.len(), 131072);
    names
}

fn lines_of(names: &[[u8; 3]]) -> Vec<u8> {
    let mut data = Vec::new();
    for n in names {
        data.extend_from_slice(n);
        data.extend_from_slice(b";1.0\n");
    }
    data
}

#[test]
fn too_many_stations_for_a_table() {
    let names = spread_names();
    let mut data = lines_of(&names);
    assert!(check_measurements(&data));
    data.extend_from_slice(b"zzzz;1.0\n");
    assert!(!check_measurements(&data));
}

#[test]
fn a_full_table_still_takes_known_stations() {
    let names = spread_names();
    let mut data = lines_of(&names);
    data.extend_from_slice(&lines_of(&names[5..10]));
    assert!(check_measurements(&data));
    let r = one_b_rustc::worker::aggregate_measurements(&data, true);
    assert_eq!(r.stations, 131072);
}
