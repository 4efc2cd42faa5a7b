use one_b_rustc::table::{StationTable, Agg, Entry, Scanner, collect_stations, record, name_eq};
use one_b_rustc::segment::{parse_segment, segment_bounds, SEGMENT_SIZE};
use one_b_rustc::input::next_newline;
use one_b_rustc::merge::{merge_lists, MergeTable};
use one_b_rustc::worker::{aggregate_measurements, finish_report, scan_all, WorkerResult};
use one_b_rustc::mapped::MappedFile;

const SAMPLE: &[u8] = b"Hamburg;12.0\nBulawayo;8.9\nPalembang;38.8\nHamburg;-5.3\n";

fn mix(sum: i64, count: u32) -> u64 {
    (sum as u64).wrapping_mul(0x9E37_79B1_85EB_CA87).rotate_left(count & 63)
}

fn mix_full(sum: i64, count: u32, min: i16, max: i16) -> u64 {
    mix(sum, count) ^ ((min as u64).wrapping_shl(16) ^ (max as u64).wrapping_shl(32))
}

fn output_of(r: &WorkerResult) -> String {
    String::from_utf8(r.output.clone().expect("report")).unwrap()
}

#[test]
fn sample_report() {
    let r = aggregate_measurements(SAMPLE, false);
    assert_eq!(output_of(&r), "{Bulawayo=8.9/8.9/8.9, Hamburg=-5.3/3.4/12.0, Palembang=38.8/38.8/38.8}");
    assert_eq!(r.stations, 3);
    assert_eq!(r.checksum, mix(89, 1) ^ mix(67, 2) ^ mix(388, 1));
}

#[test]
fn sample_without_output() {
    let r = aggregate_measurements(SAMPLE, true);
    assert!(r.output.is_none());
    assert_eq!(r.stations, 3);
    let expected = mix_full(89, 1, 89, 89) ^ mix_full(67, 2, -53, 120) ^ mix_full(388, 1, 388, 388);
    assert_eq!(r.checksum, expected);
}

#[test]
fn last_line_without_newline() {
    let r = aggregate_measurements(b"b;1.0\na;-2.5", false);
    assert_eq!(output_of(&r), "{a=-2.5/-2.5/-2.5, b=1.0/1.0/1.0}");
    assert_eq!(r.stations, 2);
}

#[test]
fn empty_data_gives_empty_report() {
    let r = aggregate_measurements(b"", false);
    assert_eq!(output_of(&r), "{}");
    assert_eq!(r.stations, 0);
    assert_eq!(r.checksum, 0);
}

#[test]
fn mean_rounds_half_away_from_zero() {
    // 0.1 and 0.2: mean 0.15 -> 0.2; -0.1 and -0.2: mean -0.15 -> -0.2
    let r = aggregate_measurements(b"p;0.1\np;0.2\nn;-0.1\nn;-0.2\n", false);
    assert_eq!(output_of(&r), "{n=-0.2/-0.2/-0.1, p=0.1/0.2/0.2}");
    // 1.0, 1.0, 1.1: sum 31, count 3, (31 + 1) / 3 = 10
    let r = aggregate_measurements(b"s;1.0\ns;1.0\ns;1.1\n", false);
    assert_eq!(output_of(&r), "{s=1.0/1.0/1.1}");
}

#[test]
fn names_sort_bytewise_prefix_first() {
    let r = aggregate_measurements(b"ab;1.0\na;2.0\nB;3.0\nabc;4.0\n", false);
    assert_eq!(output_of(&r), "{B=3.0/3.0/3.0, a=2.0/2.0/2.0, ab=1.0/1.0/1.0, abc=4.0/4.0/4.0}");
}

#[test]
fn long_names_are_told_apart() {
    let data = b"ABCDEFGHIJKLMNOPQRSTUVWX;1.0\nABCDEFGHIJKLMNOPQRSTUVWY;2.0\nABCDEFGHIJKLMNOPQRSTUVWX;3.0\n";
    let r = aggregate_measurements(data, false);
    assert_eq!(
        output_of(&r),
        "{ABCDEFGHIJKLMNOPQRSTUVWX=1.0/2.0/3.0, ABCDEFGHIJKLMNOPQRSTUVWY=2.0/2.0/2.0}"
    );
    assert_eq!(r.stations, 2);
}

#[test]
fn many_lines_in_three_interleaved_runs() {
    let mut data = Vec::new();
    for i in 0..300 {
        let name = format!("st{}", i % 7);
        data.extend_from_slice(name.as_bytes());
        data.extend_from_slice(format!(";{}.{}\n", i % 50, i % 10).as_bytes());
    }
    let r = aggregate_measurements(&data, false);
    assert_eq!(r.stations, 7);
    let text = output_of(&r);
    assert!(text.starts_with("{st0="));
    assert!(text.ends_with("}"));
    assert_eq!(text.matches(", ").count(), 6);
}

#[test]
fn parse_segment_and_collect() {
    let mut table = StationTable::new();
    let end = SAMPLE.len() - 1;
    parse_segment(SAMPLE, 0, end, &mut table);
    let list = collect_stations(SAMPLE, &table);
    assert_eq!(list.len(), 3);
    let hamburg = list.iter().find(|a| a.name_off == 0).unwrap();
    assert_eq!(hamburg.name_len, 7);
    assert_eq!((hamburg.min, hamburg.max, hamburg.sum, hamburg.count), (-53, 120, 67, 2));
}

#[test]
fn parse_segment_in_two_pieces_equals_whole() {
    let mut whole = StationTable::new();
    parse_segment(SAMPLE, 0, SAMPLE.len() - 1, &mut whole);
    let mut pieces = StationTable::new();
    // the second line break ends the first piece
    let cut = next_newline(14, SAMPLE.len(), SAMPLE);
    parse_segment(SAMPLE, 0, cut, &mut pieces);
    parse_segment(SAMPLE, cut + 1, SAMPLE.len() - 1, &mut pieces);
    let a = finish_report(SAMPLE, &merge_lists(SAMPLE, &vec![collect_stations(SAMPLE, &whole)]).unwrap(), false);
    let b = finish_report(SAMPLE, &merge_lists(SAMPLE, &vec![collect_stations(SAMPLE, &pieces)]).unwrap(), false);
    assert_eq!(a.output, b.output);
    assert_eq!(a.checksum, b.checksum);
}

#[test]
fn merging_two_workers_in_either_order() {
    let cut = next_newline(14, SAMPLE.len(), SAMPLE);
    let mut t1 = StationTable::new();
    parse_segment(SAMPLE, 0, cut, &mut t1);
    let mut t2 = StationTable::new();
    parse_segment(SAMPLE, cut + 1, SAMPLE.len() - 1, &mut t2);
    let l1 = collect_stations(SAMPLE, &t1);
    let l2 = collect_stations(SAMPLE, &t2);
    let ab = merge_lists(SAMPLE, &vec![l1.clone(), l2.clone()]).unwrap();
    let ba = merge_lists(SAMPLE, &vec![l2, l1]).unwrap();
    assert_eq!(ab.len(), 3);
    assert_eq!(ba.len(), 3);
    let ra = finish_report(SAMPLE, &ab, false);
    let rb = finish_report(SAMPLE, &ba, false);
    assert_eq!(output_of(&ra), "{Bulawayo=8.9/8.9/8.9, Hamburg=-5.3/3.4/12.0, Palembang=38.8/38.8/38.8}");
    assert_eq!(ra.output, rb.output);
    assert_eq!(ra.checksum, rb.checksum);
    let na = finish_report(SAMPLE, &ab, true);
    let nb = finish_report(SAMPLE, &ba, true);
    assert_eq!(na.checksum, nb.checksum);
    assert_eq!(na.stations, 3);
}

#[test]
fn empty_merge_table() {
    let t = MergeTable::new();
    assert_eq!(t.len(), 0);
    let r = finish_report(b"", &t, false);
    assert_eq!(output_of(&r), "{}");
}

#[test]
fn scan_all_matches_parse_segment() {
    let t = scan_all(SAMPLE);
    let list = collect_stations(SAMPLE, &t);
    assert_eq!(list.len(), 3);
}

#[test]
fn segment_bounds_first_segment_covers_small_data() {
    let (s, e) = segment_bounds(SAMPLE, 0);
    assert_eq!(s, 0);
    assert_eq!(e, SAMPLE.len() - 1);
}

#[test]
fn segment_bounds_later_segment_starts_after_line_break() {
    let (s, e) = segment_bounds(SAMPLE, 3);
    assert_eq!(s, 13);
    assert_eq!(e, SAMPLE.len() - 1);
    assert!(SEGMENT_SIZE > SAMPLE.len());
}

#[test]
fn segment_bounds_without_final_line_break() {
    let data = b"a;1.0\nb;2.0";
    let (s, e) = segment_bounds(data, 2);
    assert_eq!((s, e), (6, data.len()));
}

#[test]
fn next_newline_positions() {
    assert_eq!(next_newline(0, SAMPLE.len(), SAMPLE), 12);
    assert_eq!(next_newline(12, SAMPLE.len(), SAMPLE), 12);
    assert_eq!(next_newline(13, SAMPLE.len(), SAMPLE), 25);
    assert_eq!(next_newline(0, 3, b"abc"), 3);
    assert_eq!(next_newline(0, 17, b"abcdefghijklmnop\n"), 16);
    assert_eq!(next_newline(0, 10, b"abcdefghijklmnop\n"), 10);
}

#[test]
fn record_first_and_later() {
    let mut e = Entry::default();
    record(&mut e, 120);
    assert_eq!((e.min, e.max, e.sum, e.count), (120, 120, 120, 1));
    record(&mut e, -53);
    assert_eq!((e.min, e.max, e.sum, e.count), (-53, 120, 67, 2));
    record(&mut e, 999);
    assert_eq!((e.min, e.max, e.sum, e.count), (-53, 999, 1066, 3));
}

#[test]
fn record_order_does_not_matter() {
    let mut a = Entry::default();
    record(&mut a, 250);
    record(&mut a, -75);
    record(&mut a, 31);
    let mut b = Entry::default();
    record(&mut b, 31);
    record(&mut b, 250);
    record(&mut b, -75);
    assert_eq!((a.min, a.max, a.sum, a.count), (b.min, b.max, b.sum, b.count));
    assert_eq!((a.min, a.max, a.sum, a.count), (-75, 250, 206, 3));
}

#[test]
fn scanner_moves() {
    let mut s = Scanner::new(SAMPLE, 0, 13);
    assert!(s.has_next());
    s.add(13);
    assert!(!s.has_next());
    assert_eq!(s.pos, 13);
}

#[test]
fn name_eq_compares_runs() {
    let data = b"Hamburg;1.0\nHamburg;2.0\nHamburx;3.0\n";
    assert!(name_eq(data, 0, 12, 8));
    assert!(!name_eq(data, 0, 24, 8));
    let long = b"ABCDEFGHIJKLMNOPQ;ABCDEFGHIJKLMNOPQ;ABCDEFGHIJKLMNOPR;";
    assert!(name_eq(long, 0, 18, 18));
    assert!(!name_eq(long, 0, 36, 18));
}

#[test]
fn mapped_file_refuses_empty() {
    assert!(MappedFile::from_bytes(Vec::new()).is_none());
    let f = MappedFile::from_bytes(SAMPLE.to_vec()).unwrap();
    assert_eq!(f.len(), SAMPLE.len());
    assert_eq!(f.as_ptr(), SAMPLE);
}

#[test]
fn agg_fields_are_plain() {
    let a = Agg { hash: 1, first_word: 2, second_word: 3, name_off: 4, name_len: 5, min: -6, max: 7, sum: 8, count: 9 };
    let b = a;
    assert_eq!(b.count, 9);
}

#[test]
fn merge_stops_when_the_table_fills() {
    let mut data = Vec::new();
    for i in 0..140000usize {
        data.extend_from_slice(format!("s{:06};1.0\n", i).as_bytes());
    }
    let cut = next_newline(data.len() / 2, data.len(), &data);
    let mut t1 = StationTable::new();
    parse_segment(&data, 0, cut, &mut t1);
    let mut t2 = StationTable::new();
    parse_segment(&data, cut + 1, data.len() - 1, &mut t2);
    let lists = vec![collect_stations(&data, &t1), collect_stations(&data, &t2)];
    assert_eq!(lists[0].len() + lists[1].len(), 140000);
    assert!(merge_lists(&data, &lists).is_none());
}

#[test]
fn finish_workers_reports_each_short_station_once() {
    let cut = next_newline(14, SAMPLE.len(), SAMPLE);
    let mut t1 = StationTable::new();
    parse_segment(SAMPLE, 0, cut, &mut t1);
    let mut t2 = StationTable::new();
    parse_segment(SAMPLE, cut + 1, SAMPLE.len() - 1, &mut t2);
    let lists = vec![collect_stations(SAMPLE, &t1), collect_stations(SAMPLE, &t2)];
    let r = one_b_rustc::worker::finish_workers(SAMPLE, &lists, false).unwrap();
    assert_eq!(output_of(&r), "{Bulawayo=8.9/8.9/8.9, Hamburg=-5.3/3.4/12.0, Palembang=38.8/38.8/38.8}");
    assert_eq!(r.stations, 3);
}

#[test]
fn long_names_at_different_alignments_merge_together() {
    // the same 20-byte station at offsets 0 and 31, seen by two workers
    let data: &[u8] = b"ABCDEFGHIJKLMNOPQRST;1.0\nx;1.0\nABCDEFGHIJKLMNOPQRST;3.0\n";
    let mut t1 = StationTable::new();
    parse_segment(data, 0, 24, &mut t1);
    let mut t2 = StationTable::new();
    parse_segment(data, 25, data.len() - 1, &mut t2);
    let l1 = collect_stations(data, &t1);
    let l2 = collect_stations(data, &t2);
    let long2 = l2.iter().find(|a| a.name_len == 20).unwrap();
    assert_eq!(l1[0].hash, long2.hash);
    let r = one_b_rustc::worker::finish_workers(data, &vec![l1, l2], false).unwrap();
    assert_eq!(r.stations, 2);
    assert_eq!(output_of(&r), "{ABCDEFGHIJKLMNOPQRST=1.0/2.0/3.0, x=1.0/1.0/1.0}");
    let whole = aggregate_measurements(data, false);
    assert_eq!(output_of(&r), output_of(&whole));
    assert_eq!(r.checksum, whole.checksum);
    assert_eq!(r.stations, whole.stations);
}

#[test]
fn merge_table_slots_and_checksum() {
    let t = scan_all(SAMPLE);
    let merged = merge_lists(SAMPLE, &vec![collect_stations(SAMPLE, &t)]).unwrap();
    let aggs = merged.merged_aggs(SAMPLE);
    assert_eq!(aggs.len(), 3);
    assert_eq!(aggs.iter().map(|a| a.count).sum::<u32>(), 4);
    let expected = mix_full(89, 1, 89, 89) ^ mix_full(67, 2, -53, 120) ^ mix_full(388, 1, 388, 388);
    assert_eq!(merged.checksum_slots(SAMPLE), expected);
}

#[test]
fn negated_temperatures_swap_min_and_max() {
    let r = aggregate_measurements(b"a;1.5\na;-2.0\nb;0.1\nb;0.2\na;3.4\n", false);
    let n = aggregate_measurements(b"a;-1.5\na;2.0\nb;-0.1\nb;-0.2\na;-3.4\n", false);
    assert_eq!(output_of(&r), "{a=-2.0/1.0/3.4, b=0.1/0.2/0.2}");
    assert_eq!(output_of(&n), "{a=-3.4/-1.0/2.0, b=-0.2/-0.2/-0.1}");
    assert_eq!(r.stations, n.stations);
}

#[test]
fn line_order_does_not_change_the_report() {
    let a = aggregate_measurements(b"x;1.0\ny;2.0\nx;-3.0\nz;0.5\n", false);
    let b = aggregate_measurements(b"z;0.5\nx;-3.0\ny;2.0\nx;1.0\n", false);
    assert_eq!(output_of(&a), output_of(&b));
    assert_eq!(a.checksum, b.checksum);
    assert_eq!(a.stations, b.stations);
}
