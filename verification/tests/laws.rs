use one_b_rustc::format::push_tenths_i16;
use one_b_rustc::number::convert_into_number;
use one_b_rustc::worker::aggregate_measurements;
use one_b_rustc::validate::check_measurements;

fn generated(lines: usize) -> Vec<u8> {
    let names = ["Abha", "Zürich", "Oslo", "A very long station name indeed", "Ab", "abha", "Ürümqi"];
    let mut data = Vec::new();
    let mut x: u64 = 12345;
    for _ in 0..lines {
        x = x.wrapping_mul(6364136223846793005).wrapping_add(1442695040888963407);
        let name = names[(x >> 33) as usize % names.len()];
        let v = ((x >> 40) % 1999) as i64 - 999;
        let sign = if v < 0 { "-" } else { "" };
        let a = v.abs();
        data.extend_from_slice(format!("{};{}{}.{}\n", name, sign, a / 10, a % 10).as_bytes());
    }
    data
}

fn stations(report: &str) -> Vec<(String, f64, f64, f64)> {
    let inner = &report[1..report.len() - 1];
    inner
        .split(", ")
        .map(|s| {
            let (name, vals) = s.rsplit_once('=').unwrap();
            let v: Vec<f64> = vals.split('/').map(|x| x.parse().unwrap()).collect();
            (name.to_string(), v[0], v[1], v[2])
        })
        .collect()
}

#[test]
fn written_temperatures_read_back() {
    for v in -999i16..=999 {
        let mut out = Vec::new();
        push_tenths_i16(v, &mut out);
        out.push(b'\n');
        let mut b = [0u8; 8];
        b[..out.len()].copy_from_slice(&out);
        let w = u64::from_le_bytes(b);
        let sep = (!w & 0x1010_1000u64).trailing_zeros();
        assert_eq!(convert_into_number(sep, w), v as i32);
    }
}

#[test]
fn report_means_lie_between_extremes() {
    let data = generated(2000);
    assert!(check_measurements(&data));
    let r = aggregate_measurements(&data, false);
    let text = String::from_utf8(r.output.unwrap()).unwrap();
    for (_, min, mean, max) in stations(&text) {
        assert!(min <= mean && mean <= max);
    }
}

#[test]
fn report_names_sorted_and_unique() {
    let data = generated(500);
    let r = aggregate_measurements(&data, false);
    let text = String::from_utf8(r.output.unwrap()).unwrap();
    let names: Vec<String> = stations(&text).into_iter().map(|s| s.0).collect();
    assert_eq!(names.len(), r.stations);
    for pair in names.windows(2) {
        assert!(pair[0].as_bytes() < pair[1].as_bytes());
    }
}

#[test]
fn both_modes_count_the_same_stations() {
    let data = generated(300);
    let a = aggregate_measurements(&data, false);
    let b = aggregate_measurements(&data, true);
    assert_eq!(a.stations, b.stations);
    assert!(b.output.is_none());
}
