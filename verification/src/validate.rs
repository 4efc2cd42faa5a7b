//! Checking that data is a measurement file the tables can take in whole,
//! before any of it is aggregated.

use vstd::prelude::*;
use crate::word::{data_fits, byte_of, load_u64, find_delim};
use crate::number::temp_word_ok;
use crate::input::{name_end, line_ok, line_end, line_name, lines_ok, lines, lemma_name_end};
use crate::stats::{Stats, aggregate};
use crate::table::{StationTable, Scanner, find_result};
use crate::worker::valid_measurements;

verus! {

/// Whether the first bytes of `w` spell a temperature: `d.d`, `dd.d`,
/// `-d.d` or `-dd.d`.
pub fn is_temperature_word(w: u64) -> (r: bool)
    ensures
        r == temp_word_ok(w),
{
    let b0 = ((w >> 0u64) & 0xff) as u8;
    let b1 = ((w >> 8u64) & 0xff) as u8;
    let b2 = ((w >> 16u64) & 0xff) as u8;
    let b3 = ((w >> 24u64) & 0xff) as u8;
    let b4 = ((w >> 32u64) & 0xff) as u8;
    let d0 = 48 <= b0 && b0 <= 57;
    let d1 = 48 <= b1 && b1 <= 57;
    let d2 = 48 <= b2 && b2 <= 57;
    let d3 = 48 <= b3 && b3 <= 57;
    let d4 = 48 <= b4 && b4 <= 57;
    proof {
        assert(b0 == byte_of(w, 0) && b1 == byte_of(w, 1) && b2 == byte_of(w, 2) && b3 == byte_of(w, 3)
            && b4 == byte_of(w, 4));
    }
    (d0 && b1 == 46 && d2) || (d0 && d1 && b2 == 46 && d3) || (b0 == 45 && d1 && b2 == 46 && d3) || (b0 == 45
        && d1 && d2 && b3 == 46 && d4)
}

/// The end of the line that starts at `p`, when a well-formed line starts
/// there.
pub fn line_end_at(data: &[u8], p: usize) -> (r: Option<usize>)
    requires
        data_fits(data@),
        p < data.len(),
    ensures
        r is Some <==> line_ok(data@, p as int),
        r matches Some(e) ==> e == line_end(data@, p as int),
{
    let ghost d = data@;
    let len = data.len();
    let mut q = p;
    while q < len && data[q] != 59u8
        invariant
            d == data@,
            len == d.len(),
            p <= q <= len,
            name_end(d, p as int) == name_end(d, q as int),
            forall|i: int| p <= i < q ==> d[i] != 10 && d[i] != 59,
        decreases len - q,
    {
        if data[q] == 10u8 {
            proof {
                lemma_name_end(d, q + 1);
            }
            return None;
        }
        q += 1;
    }
    proof {
        lemma_name_end(d, p as int);
    }
    if q == len || q == p || q - p > 65535 {
        return None;
    }
    let w = load_u64(data, q + 1);
    if !is_temperature_word(w) {
        return None;
    }
    let dot: usize = if ((w >> 8u64) & 0xff) == 46 {
        1
    } else if ((w >> 16u64) & 0xff) == 46 {
        2
    } else {
        3
    };
    proof {
        assert(((w >> 8u64) & 0xff) as u8 == byte_of(w, 1) && ((w >> 16u64) & 0xff) as u8 == byte_of(w, 2));
        assert(((w >> 8u64) & 0xff) < 256 && ((w >> 16u64) & 0xff) < 256) by (bit_vector);
    }
    let le = q + 1 + dot + 2;
    if le > len {
        return None;
    }
    if le < len && data[le] != 10u8 {
        return None;
    }
    Some(le)
}

/// The stations of the lines from `p` on, with those of a first line
/// `x` in front.
proof fn lemma_aggregate_front_dom(x: (Seq<u8>, int), rest: Seq<(Seq<u8>, int)>)
    ensures
        aggregate(seq![x] + rest).dom() == aggregate(rest).dom().insert(x.0),
{
    crate::stats::lemma_aggregate_append(seq![x], rest);
    crate::stats::lemma_combine_dom(aggregate(seq![x]), aggregate(rest));
    crate::stats::lemma_aggregate_single(x.0, x.1);
    assert(aggregate(seq![x]).dom() =~= set![x.0]);
    assert(aggregate(seq![x] + rest).dom() =~= aggregate(rest).dom().insert(x.0));
}

/// Whether the data is a measurement file the tables can take in whole:
/// well-formed lines, fewer of them than a station's 32-bit count can
/// reach, and at most as many stations as a table has slots.
pub fn check_measurements(data: &[u8]) -> (r: bool)
    ensures
        r == valid_measurements(data@),
{
    let ghost d = data@;
    let len = data.len();
    if len > usize::MAX - 0x40_0000 {
        return false;
    }
    let ghost whole = aggregate(lines(d, 0, len as int)).dom();
    let mut table = StationTable::new();
    let mut p: usize = 0;
    let mut count: u64 = 0;
    proof {
        assert(table.view(d).dom() =~= Set::<Seq<u8>>::empty());
        assert(whole == table.view(d).dom().union(aggregate(lines(d, 0, len as int)).dom()));
        crate::stats::lemma_aggregate_finite(lines(d, 0, len as int));
    }
    while p < len
        invariant
            d == data@,
            data_fits(d),
            len == d.len(),
            p <= len + 1,
            count < 4294967295,
            lines_ok(d, 0, len as int) ==> lines(d, 0, len as int).len() == count + lines(d, p as int, len as int).len(),
            lines_ok(d, 0, len as int) == lines_ok(d, p as int, len as int),
            whole == aggregate(lines(d, 0, len as int)).dom(),
            whole.finite(),
            lines_ok(d, p as int, len as int) ==> whole == table.view(d).dom().union(aggregate(lines(d, p as int, len as int)).dom()),
            table.wf(d),
        decreases len + 1 - p,
    {
        let le = match line_end_at(data, p) {
            Some(e) => e,
            None => {
                return false;
            },
        };
        let ghost x = (line_name(d, p as int), crate::input::line_value(d, p as int));
        let ghost rest = lines(d, le + 1, len as int);
        proof {
            crate::input::lemma_line_bytes(d, p as int);
            assert(lines(d, p as int, len as int) == seq![x] + rest);
            lemma_aggregate_front_dom(x, rest);
        }
        count = count + 1;
        if count >= 4294967295 {
            return false;
        }
        let mut scanner = Scanner::new(data, p, len);
        let w = scanner.get_u64();
        let dm = find_delim(w, 59u8);
        let wb = scanner.get_u64_at(p + 8);
        let dmb = find_delim(wb, 59u8);
        let ghost v0 = table.view(d);
        if find_result(w, dm, wb, dmb, &mut scanner, &mut table).is_none() {
            proof {
                if lines_ok(d, 0, len as int) {
                    assert(whole.contains(x.0));
                    vstd::set_lib::lemma_len_subset(table.view(d).dom().insert(x.0), whole);
                    table.lemma_view_dom(d);
                }
            }
            return false;
        }
        proof {
            table.lemma_view_dom(d);
            assert(table.view(d).dom() =~= v0.dom().insert(x.0));
            if lines_ok(d, p as int, len as int) {
                assert(whole =~= table.view(d).dom().union(aggregate(rest).dom()));
            }
        }
        p = le + 1;
    }
    proof {
        assert(lines(d, p as int, len as int) =~= Seq::<(Seq<u8>, int)>::empty());
        assert(aggregate(Seq::<(Seq<u8>, int)>::empty()) == Map::<Seq<u8>, Stats>::empty());
        table.lemma_view_dom(d);
        table.lemma_len_at_most_slots(d);
        if lines_ok(d, 0, len as int) {
            assert(whole =~= table.view(d).dom());
        }
    }
    true
}

} // verus!
