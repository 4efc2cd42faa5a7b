//! Aggregating a range of lines into a station table.

use vstd::prelude::*;
use crate::word::{data_fits, find_delim};
use crate::stats::{Stats, add_obs, aggregate, combine, all_seen, stats_of};
use crate::input::{line_name, line_value, lines_ok, lines, next_newline, first_newline, lemma_line_bytes, lemma_first_newline, lemma_split_at};
use crate::table::{StationTable, Scanner, find_result, scan_number, keeps_names};

verus! {

/// Inserting a station with the statistics it already has (empty when
/// absent).
pub open spec fn pad(m: Map<Seq<u8>, Stats>, n: Seq<u8>) -> Map<Seq<u8>, Stats> {
    m.insert(n, stats_of(m, n))
}

proof fn lemma_pad_add_obs(m: Map<Seq<u8>, Stats>, p: Seq<u8>, n: Seq<u8>, v: int)
    ensures
        add_obs(pad(m, p), n, v) == pad(add_obs(m, n, v), p),
{
    assert(add_obs(pad(m, p), n, v) =~= pad(add_obs(m, n, v), p));
}

proof fn lemma_pad_present(m: Map<Seq<u8>, Stats>, p: Seq<u8>)
    requires
        m.dom().contains(p),
    ensures
        pad(m, p) == m,
{
    assert(pad(m, p) =~= m);
}

/// Every station counted at most `b` times.
pub open spec fn counts_le(m: Map<Seq<u8>, Stats>, b: int) -> bool {
    forall|n: Seq<u8>| #[trigger] m.dom().contains(n) ==> m[n].count <= b
}

proof fn lemma_counts_pad(m: Map<Seq<u8>, Stats>, p: Seq<u8>, b: int)
    requires
        counts_le(m, b),
        b >= 0,
    ensures
        counts_le(pad(m, p), b),
        stats_of(m, p).count <= b,
{
}

proof fn lemma_counts_add_obs(m: Map<Seq<u8>, Stats>, n: Seq<u8>, v: int, b: int)
    requires
        counts_le(m, b),
        b >= 0,
    ensures
        counts_le(add_obs(m, n, v), b + 1),
{
}

proof fn lemma_room(t: StationTable, data: Seq<u8>, pending: Seq<(Seq<u8>, int)>, target: Map<Seq<u8>, Stats>)
    requires
        t.wf(data),
        combine(t.view(data), aggregate(pending)) == target,
    ensures
        t.view(data).dom().subset_of(target.dom()),
        forall|i: int| 0 <= i < pending.len() ==> #[trigger] target.dom().contains(pending[i].0),
{
    crate::stats::lemma_combine_dom(t.view(data), aggregate(pending));
    assert forall|i: int| 0 <= i < pending.len() implies #[trigger] target.dom().contains(pending[i].0) by {
        lemma_aggregate_has(pending, i);
    }
}

/// A table whose stations are among those of a target of at most as many
/// stations as slots has room for any station of the target.
proof fn lemma_room_for(t: StationTable, data: Seq<u8>, n: Seq<u8>, target: Map<Seq<u8>, Stats>)
    requires
        t.wf(data),
        t.view(data).dom().subset_of(target.dom()),
        target.dom().contains(n),
        target.dom().finite(),
        target.dom().len() <= 131072,
    ensures
        t.len_spec() < 131072 || t.view(data).dom().contains(n),
{
    t.lemma_view_dom(data);
    if !t.view(data).dom().contains(n) {
        vstd::set_lib::lemma_len_subset(t.view(data).dom(), target.dom().remove(n));
    }
}

/// Every name of a run of observations is a station of its aggregate.
proof fn lemma_aggregate_has(x: Seq<(Seq<u8>, int)>, i: int)
    requires
        0 <= i < x.len(),
    ensures
        aggregate(x).dom().contains(x[i].0),
    decreases x.len(),
{
    if i < x.len() - 1 {
        lemma_aggregate_has(x.drop_last(), i);
    }
}

/// The slot filled for a station already in the target keeps the table's
/// stations inside the target.
proof fn lemma_pad_room(
    t: StationTable,
    data: Seq<u8>,
    v: Map<Seq<u8>, Stats>,
    n: Seq<u8>,
    target: Map<Seq<u8>, Stats>,
)
    requires
        t.wf(data),
        t.view(data) == pad(v, n),
        v.dom().subset_of(target.dom()),
        target.dom().contains(n),
    ensures
        t.view(data).dom().subset_of(target.dom()),
{
}

/// Aggregates the lines that start in `[seg_start, seg_end_nl)` into the
/// table.  The range is cut in three at line breaks and the three parts are
/// scanned in turn, one line of each per round, then what is left of each.
#[verifier::rlimit(100)]
#[verifier::spinoff_prover]
pub fn parse_segment(base: &[u8], seg_start: usize, seg_end_nl: usize, table: &mut StationTable)
    requires
        old(table).wf(base@),
        seg_end_nl <= base.len(),
        lines_ok(base@, seg_start as int, seg_end_nl as int),
        all_seen(old(table).view(base@)),
        old(table).consumed_spec() + lines(base@, seg_start as int, seg_end_nl as int).len() <= u32::MAX,
        combine(old(table).view(base@), aggregate(lines(base@, seg_start as int, seg_end_nl as int))).dom().len() <= 131072,
    ensures
        final(table).wf(base@),
        final(table).view(base@) == combine(old(table).view(base@), aggregate(lines(base@, seg_start as int, seg_end_nl as int))),
        all_seen(final(table).view(base@)),
        final(table).consumed_spec() == old(table).consumed_spec() + lines(base@, seg_start as int, seg_end_nl as int).len(),
        seg_start >= seg_end_nl ==> *final(table) == *old(table),
        keeps_names(old(table).stations(base@), final(table).stations(base@)),
{
    let ghost data = base@;
    let ghost st0 = table.stations(data);
    let ghost v0 = table.view(data);
    let ghost c0 = table.consumed_spec() as int;
    let ghost total = lines(data, seg_start as int, seg_end_nl as int).len() as int;
    let ghost target = combine(v0, aggregate(lines(data, seg_start as int, seg_end_nl as int)));
    proof {
        table.lemma_view_dom(data);
        crate::stats::lemma_aggregate_finite(lines(data, seg_start as int, seg_end_nl as int));
        crate::stats::lemma_combine_dom(v0, aggregate(lines(data, seg_start as int, seg_end_nl as int)));
    }
    if seg_start >= seg_end_nl {
        proof {
            assert(lines(data, seg_start as int, seg_end_nl as int) =~= Seq::<(Seq<u8>, int)>::empty());
            assert(aggregate(Seq::<(Seq<u8>, int)>::empty()) == Map::<Seq<u8>, Stats>::empty());
            crate::stats::lemma_combine_empty(v0);
        }
        return ;
    }
    let dist = (seg_end_nl - seg_start) / 3;
    let mid1 = next_newline(seg_start + dist, seg_end_nl, base);
    let mid2 = next_newline(seg_start + dist + dist, seg_end_nl, base);
    proof {
        lemma_first_newline(data, (seg_start + dist) as int, seg_end_nl as int);
        lemma_first_newline(data, (seg_start + dist + dist) as int, seg_end_nl as int);
        if mid2 < seg_end_nl {
            assert(mid1 <= mid2);
        }
        lemma_split_at(data, seg_start as int, seg_end_nl as int, mid1 as int);
        if mid1 < mid2 {
            lemma_split_at(data, mid1 + 1, seg_end_nl as int, mid2 as int);
        } else {
            assert(lines(data, mid1 + 1, mid2 as int) =~= Seq::<(Seq<u8>, int)>::empty());
        }
        assert(lines(data, seg_start as int, seg_end_nl as int) =~= lines(data, seg_start as int, mid1 as int) + lines(data, mid1 + 1, mid2 as int) + lines(data, mid2 + 1, seg_end_nl as int));
    }
    proof {
        table.lemma_counts_bounded(data);
    }
    table.add_consumed(Ghost(data), Ghost(total as nat));
    let mut s1 = Scanner::new(base, seg_start, mid1);
    let mut s2 = Scanner::new(base, mid1 + 1, mid2);
    let mut s3 = Scanner::new(base, mid2 + 1, seg_end_nl);

    while s1.has_next() && s2.has_next() && s3.has_next()
        invariant
            s1.base@ == data,
            s2.base@ == data,
            s3.base@ == data,
            s1.end == mid1,
            s2.end == mid2,
            s3.end == seg_end_nl,
            seg_start <= s1.pos <= mid1 + 1,
            mid1 + 1 <= s2.pos <= mid2 + 1,
            mid2 + 1 <= s3.pos <= seg_end_nl + 1,
            seg_start < seg_end_nl,
            seg_start <= mid1 <= mid2 <= seg_end_nl <= data.len(),
            data_fits(data),
            c0 >= 0,
            lines_ok(data, s1.pos as int, mid1 as int),
            lines_ok(data, s2.pos as int, mid2 as int),
            lines_ok(data, s3.pos as int, seg_end_nl as int),
            table.wf(data),
            all_seen(table.view(data)),
            table.consumed_spec() == c0 + total,
            (lines(data, s1.pos as int, mid1 as int).len() + lines(data, s2.pos as int, mid2 as int).len() + lines(data, s3.pos as int, seg_end_nl as int).len()) <= total,
            combine(table.view(data), aggregate(lines(data, s1.pos as int, mid1 as int) + lines(data, s2.pos as int, mid2 as int) + lines(data, s3.pos as int, seg_end_nl as int))) == target,
            target.dom().finite(),
            target.dom().len() <= 131072,
            counts_le(table.view(data), c0 + total - (lines(data, s1.pos as int, mid1 as int).len() + lines(data, s2.pos as int, mid2 as int).len() + lines(data, s3.pos as int, seg_end_nl as int).len())),
            keeps_names(st0, table.stations(data)),
        decreases (mid1 + 1 - s1.pos) + (mid2 + 1 - s2.pos) + (seg_end_nl + 1 - s3.pos),
    {
        let ghost v = table.view(data);
        let ghost b = c0 + total - (lines(data, s1.pos as int, mid1 as int).len() + lines(data, s2.pos as int, mid2 as int).len() + lines(data, s3.pos as int, seg_end_nl as int).len());
        let ghost p1 = s1.pos as int;
        let ghost p2 = s2.pos as int;
        let ghost p3 = s3.pos as int;
        let ghost r1 = lines(data, p1 + 0, mid1 as int);
        let ghost r2 = lines(data, p2 + 0, mid2 as int);
        let ghost r3 = lines(data, p3 + 0, seg_end_nl as int);
        proof {
            lemma_line_bytes(data, p1);
            lemma_line_bytes(data, p2);
            lemma_line_bytes(data, p3);
            lemma_room(*table, data, r1 + r2 + r3, target);
            assert(r1[0] == (line_name(data, p1), line_value(data, p1)));
            assert(r2[0] == (line_name(data, p2), line_value(data, p2)));
            assert(r3[0] == (line_name(data, p3), line_value(data, p3)));
            assert((r1 + r2 + r3)[0] == r1[0]);
            assert((r1 + r2 + r3)[r1.len() as int] == r2[0]);
            assert((r1 + r2 + r3)[(r1.len() + r2.len()) as int] == r3[0]);
            assert(target.dom().contains((r1 + r2 + r3)[0].0));
            assert(target.dom().contains((r1 + r2 + r3)[r1.len() as int].0));
            assert(target.dom().contains((r1 + r2 + r3)[(r1.len() + r2.len()) as int].0));
            assert(target.dom().contains(line_name(data, p1)));
            assert(target.dom().contains(line_name(data, p2)));
            assert(target.dom().contains(line_name(data, p3)));
            assert(r1.len() >= 1 && r2.len() >= 1 && r3.len() >= 1);
            crate::stats::lemma_combine_dom(v, aggregate(r1 + r2 + r3));
            lemma_room_for(*table, data, line_name(data, p1), target);
        }
        let w1 = s1.get_u64();
        let w2 = s2.get_u64();
        let w3 = s3.get_u64();
        let d1 = find_delim(w1, 59u8);
        let d2 = find_delim(w2, 59u8);
        let d3 = find_delim(w3, 59u8);
        let w1b = s1.get_u64_at(s1.pos + 8);
        let w2b = s2.get_u64_at(s2.pos + 8);
        let w3b = s3.get_u64_at(s3.pos + 8);
        let d1b = find_delim(w1b, 59u8);
        let d2b = find_delim(w2b, 59u8);
        let d3b = find_delim(w3b, 59u8);

        let i1 = find_result(w1, d1, w1b, d1b, &mut s1, table).unwrap();
        proof {
            lemma_pad_room(*table, data, v, line_name(data, p1), target);
            lemma_room_for(*table, data, line_name(data, p2), target);
        }
        let i2 = find_result(w2, d2, w2b, d2b, &mut s2, table).unwrap();
        proof {
            lemma_pad_room(*table, data, pad(v, line_name(data, p1)), line_name(data, p2), target);
            lemma_room_for(*table, data, line_name(data, p3), target);
        }
        let i3 = find_result(w3, d3, w3b, d3b, &mut s3, table).unwrap();
        let ghost v3 = table.view(data);

        let n1 = scan_number(&mut s1);
        let n2 = scan_number(&mut s2);
        let n3 = scan_number(&mut s3);
        let ghost x1 = (line_name(data, p1), line_value(data, p1));
        let ghost x2 = (line_name(data, p2), line_value(data, p2));
        let ghost x3 = (line_name(data, p3), line_value(data, p3));
        proof {
            lemma_counts_pad(v, x1.0, b);
            lemma_counts_pad(pad(v, x1.0), x2.0, b);
            lemma_counts_pad(pad(pad(v, x1.0), x2.0), x3.0, b);
            assert(v3 == pad(pad(pad(v, x1.0), x2.0), x3.0));
        }
        table.record_at(Ghost(data), i1, n1, Ghost(x1.0));
        proof {
            lemma_counts_add_obs(v3, x1.0, x1.1, b);
        }
        table.record_at(Ghost(data), i2, n2, Ghost(x2.0));
        proof {
            lemma_counts_add_obs(add_obs(v3, x1.0, x1.1), x2.0, x2.1, b + 1);
        }
        table.record_at(Ghost(data), i3, n3, Ghost(x3.0));
        proof {
            lemma_counts_add_obs(add_obs(add_obs(v3, x1.0, x1.1), x2.0, x2.1), x3.0, x3.1, b + 2);
            let a1 = add_obs(v, x1.0, x1.1);
            let a2 = add_obs(a1, x2.0, x2.1);
            let a3 = add_obs(a2, x3.0, x3.1);
            lemma_pad_add_obs(pad(pad(v, x1.0), x2.0), x3.0, x1.0, x1.1);
            lemma_pad_add_obs(pad(v, x1.0), x2.0, x1.0, x1.1);
            lemma_pad_add_obs(v, x1.0, x1.0, x1.1);
            lemma_pad_add_obs(pad(a1, x1.0), x3.0, x2.0, x2.1);
            lemma_pad_add_obs(a1, x2.0, x2.0, x2.1);
            lemma_pad_present(a1, x1.0);
            lemma_pad_add_obs(a2, x3.0, x3.0, x3.1);
            lemma_pad_present(a2, x2.0);
            lemma_pad_present(a3, x3.0);
            assert(table.view(data) == a3);
            let q1 = lines(data, s1.pos as int, mid1 as int);
            let q2 = lines(data, s2.pos as int, mid2 as int);
            let q3 = lines(data, s3.pos as int, seg_end_nl as int);
            assert(r1 =~= seq![x1] + q1);
            assert(r2 =~= seq![x2] + q2);
            assert(r3 =~= seq![x3] + q3);
            crate::stats::lemma_record_first(v, x1, q1 + r2 + r3);
            assert(seq![x1] + (q1 + r2 + r3) =~= r1 + r2 + r3);
            crate::stats::lemma_record_first(a1, x2, q1 + q2 + r3);
            crate::stats::lemma_move_front(x2, q1, q2 + r3);
            assert(seq![x2] + (q1 + q2 + r3) =~= seq![x2] + q1 + (q2 + r3));
            assert(q1 + (seq![x2] + (q2 + r3)) =~= q1 + r2 + r3);
            crate::stats::lemma_record_first(a2, x3, q1 + q2 + q3);
            crate::stats::lemma_move_front(x3, q1 + q2, q3);
            assert(seq![x3] + (q1 + q2 + q3) =~= seq![x3] + (q1 + q2) + q3);
            assert((q1 + q2) + (seq![x3] + q3) =~= q1 + q2 + r3);
        }
    }
    while s1.has_next()
        invariant
            s1.base@ == data,
            s2.base@ == data,
            s3.base@ == data,
            s1.end == mid1,
            s2.end == mid2,
            s3.end == seg_end_nl,
            seg_start <= s1.pos <= mid1 + 1,
            mid1 + 1 <= s2.pos <= mid2 + 1,
            mid2 + 1 <= s3.pos <= seg_end_nl + 1,
            seg_start < seg_end_nl,
            seg_start <= mid1 <= mid2 <= seg_end_nl <= data.len(),
            data_fits(data),
            c0 >= 0,
            lines_ok(data, s1.pos as int, mid1 as int),
            lines_ok(data, s2.pos as int, mid2 as int),
            lines_ok(data, s3.pos as int, seg_end_nl as int),
            table.wf(data),
            all_seen(table.view(data)),
            table.consumed_spec() == c0 + total,
            (lines(data, s1.pos as int, mid1 as int).len() + lines(data, s2.pos as int, mid2 as int).len() + lines(data, s3.pos as int, seg_end_nl as int).len()) <= total,
            combine(table.view(data), aggregate(lines(data, s1.pos as int, mid1 as int) + lines(data, s2.pos as int, mid2 as int) + lines(data, s3.pos as int, seg_end_nl as int))) == target,
            target.dom().finite(),
            target.dom().len() <= 131072,
            counts_le(table.view(data), c0 + total - (lines(data, s1.pos as int, mid1 as int).len() + lines(data, s2.pos as int, mid2 as int).len() + lines(data, s3.pos as int, seg_end_nl as int).len())),
            keeps_names(st0, table.stations(data)),
        decreases mid1 + 1 - s1.pos,
    {
        let ghost v = table.view(data);
        let ghost b = c0 + total - (lines(data, s1.pos as int, mid1 as int).len() + lines(data, s2.pos as int, mid2 as int).len() + lines(data, s3.pos as int, seg_end_nl as int).len());
        let ghost p = s1.pos as int;
        let ghost r1 = lines(data, s1.pos as int, mid1 as int);
        let ghost r2 = lines(data, s2.pos as int, mid2 as int);
        let ghost r3 = lines(data, s3.pos as int, seg_end_nl as int);
        proof {
            lemma_line_bytes(data, p);
            lemma_room(*table, data, r1 + r2 + r3, target);
            assert(r1[0] == (line_name(data, p), line_value(data, p)));
            assert((r1 + r2 + r3)[0] == r1[0]);
            assert(target.dom().contains((r1 + r2 + r3)[0].0));
            assert(target.dom().contains(line_name(data, p)));
            assert(r1.len() >= 1);
            lemma_room_for(*table, data, line_name(data, p), target);
        }
        let w = s1.get_u64();
        let d = find_delim(w, 59u8);
        let wb = s1.get_u64_at(s1.pos + 8);
        let db = find_delim(wb, 59u8);
        let idx = find_result(w, d, wb, db, &mut s1, table).unwrap();
        let num = scan_number(&mut s1);
        let ghost x = (line_name(data, p), line_value(data, p));
        proof {
            lemma_counts_pad(v, x.0, b);
        }
        table.record_at(Ghost(data), idx, num, Ghost(x.0));
        proof {
            lemma_counts_add_obs(pad(v, x.0), x.0, x.1, b);
            lemma_pad_add_obs(v, x.0, x.0, x.1);
            lemma_pad_present(add_obs(v, x.0, x.1), x.0);
            let q = lines(data, s1.pos as int, mid1 as int);
            assert(r1 =~= seq![x] + q);
            crate::stats::lemma_record_first(v, x, q + r2 + r3);
            assert(seq![x] + (q + r2 + r3) =~= r1 + r2 + r3);
        }
    }
    while s2.has_next()
        invariant
            s1.base@ == data,
            s2.base@ == data,
            s3.base@ == data,
            s1.end == mid1,
            s2.end == mid2,
            s3.end == seg_end_nl,
            seg_start <= s1.pos <= mid1 + 1,
            mid1 + 1 <= s2.pos <= mid2 + 1,
            mid2 + 1 <= s3.pos <= seg_end_nl + 1,
            seg_start < seg_end_nl,
            seg_start <= mid1 <= mid2 <= seg_end_nl <= data.len(),
            data_fits(data),
            c0 >= 0,
            lines_ok(data, s1.pos as int, mid1 as int),
            lines_ok(data, s2.pos as int, mid2 as int),
            lines_ok(data, s3.pos as int, seg_end_nl as int),
            table.wf(data),
            all_seen(table.view(data)),
            table.consumed_spec() == c0 + total,
            (lines(data, s1.pos as int, mid1 as int).len() + lines(data, s2.pos as int, mid2 as int).len() + lines(data, s3.pos as int, seg_end_nl as int).len()) <= total,
            combine(table.view(data), aggregate(lines(data, s1.pos as int, mid1 as int) + lines(data, s2.pos as int, mid2 as int) + lines(data, s3.pos as int, seg_end_nl as int))) == target,
            target.dom().finite(),
            target.dom().len() <= 131072,
            counts_le(table.view(data), c0 + total - (lines(data, s1.pos as int, mid1 as int).len() + lines(data, s2.pos as int, mid2 as int).len() + lines(data, s3.pos as int, seg_end_nl as int).len())),
            keeps_names(st0, table.stations(data)),
        decreases mid2 + 1 - s2.pos,
    {
        let ghost v = table.view(data);
        let ghost b = c0 + total - (lines(data, s1.pos as int, mid1 as int).len() + lines(data, s2.pos as int, mid2 as int).len() + lines(data, s3.pos as int, seg_end_nl as int).len());
        let ghost p = s2.pos as int;
        let ghost r1 = lines(data, s1.pos as int, mid1 as int);
        let ghost r2 = lines(data, s2.pos as int, mid2 as int);
        let ghost r3 = lines(data, s3.pos as int, seg_end_nl as int);
        proof {
            lemma_line_bytes(data, p);
            lemma_room(*table, data, r1 + r2 + r3, target);
            assert(r2[0] == (line_name(data, p), line_value(data, p)));
            assert((r1 + r2 + r3)[r1.len() as int] == r2[0]);
            assert(target.dom().contains((r1 + r2 + r3)[r1.len() as int].0));
            assert(target.dom().contains(line_name(data, p)));
            assert(r2.len() >= 1);
            lemma_room_for(*table, data, line_name(data, p), target);
        }
        let w = s2.get_u64();
        let d = find_delim(w, 59u8);
        let wb = s2.get_u64_at(s2.pos + 8);
        let db = find_delim(wb, 59u8);
        let idx = find_result(w, d, wb, db, &mut s2, table).unwrap();
        let num = scan_number(&mut s2);
        let ghost x = (line_name(data, p), line_value(data, p));
        proof {
            lemma_counts_pad(v, x.0, b);
        }
        table.record_at(Ghost(data), idx, num, Ghost(x.0));
        proof {
            lemma_counts_add_obs(pad(v, x.0), x.0, x.1, b);
            lemma_pad_add_obs(v, x.0, x.0, x.1);
            lemma_pad_present(add_obs(v, x.0, x.1), x.0);
            let q = lines(data, s2.pos as int, mid2 as int);
            assert(r2 =~= seq![x] + q);
            crate::stats::lemma_record_first(v, x, r1 + q + r3);
            crate::stats::lemma_move_front(x, r1, q + r3);
            assert(seq![x] + (r1 + q + r3) =~= seq![x] + r1 + (q + r3));
            assert(r1 + (seq![x] + (q + r3)) =~= r1 + r2 + r3);
        }
    }
    while s3.has_next()
        invariant
            s1.base@ == data,
            s2.base@ == data,
            s3.base@ == data,
            s1.end == mid1,
            s2.end == mid2,
            s3.end == seg_end_nl,
            seg_start <= s1.pos <= mid1 + 1,
            mid1 + 1 <= s2.pos <= mid2 + 1,
            mid2 + 1 <= s3.pos <= seg_end_nl + 1,
            seg_start < seg_end_nl,
            seg_start <= mid1 <= mid2 <= seg_end_nl <= data.len(),
            data_fits(data),
            c0 >= 0,
            lines_ok(data, s1.pos as int, mid1 as int),
            lines_ok(data, s2.pos as int, mid2 as int),
            lines_ok(data, s3.pos as int, seg_end_nl as int),
            table.wf(data),
            all_seen(table.view(data)),
            table.consumed_spec() == c0 + total,
            (lines(data, s1.pos as int, mid1 as int).len() + lines(data, s2.pos as int, mid2 as int).len() + lines(data, s3.pos as int, seg_end_nl as int).len()) <= total,
            combine(table.view(data), aggregate(lines(data, s1.pos as int, mid1 as int) + lines(data, s2.pos as int, mid2 as int) + lines(data, s3.pos as int, seg_end_nl as int))) == target,
            target.dom().finite(),
            target.dom().len() <= 131072,
            counts_le(table.view(data), c0 + total - (lines(data, s1.pos as int, mid1 as int).len() + lines(data, s2.pos as int, mid2 as int).len() + lines(data, s3.pos as int, seg_end_nl as int).len())),
            keeps_names(st0, table.stations(data)),
        decreases seg_end_nl + 1 - s3.pos,
    {
        let ghost v = table.view(data);
        let ghost b = c0 + total - (lines(data, s1.pos as int, mid1 as int).len() + lines(data, s2.pos as int, mid2 as int).len() + lines(data, s3.pos as int, seg_end_nl as int).len());
        let ghost p = s3.pos as int;
        let ghost r1 = lines(data, s1.pos as int, mid1 as int);
        let ghost r2 = lines(data, s2.pos as int, mid2 as int);
        let ghost r3 = lines(data, s3.pos as int, seg_end_nl as int);
        proof {
            lemma_line_bytes(data, p);
            lemma_room(*table, data, r1 + r2 + r3, target);
            assert(r3[0] == (line_name(data, p), line_value(data, p)));
            assert((r1 + r2 + r3)[(r1.len() + r2.len()) as int] == r3[0]);
            assert(target.dom().contains((r1 + r2 + r3)[(r1.len() + r2.len()) as int].0));
            assert(target.dom().contains(line_name(data, p)));
            assert(r3.len() >= 1);
            lemma_room_for(*table, data, line_name(data, p), target);
        }
        let w = s3.get_u64();
        let d = find_delim(w, 59u8);
        let wb = s3.get_u64_at(s3.pos + 8);
        let db = find_delim(wb, 59u8);
        let idx = find_result(w, d, wb, db, &mut s3, table).unwrap();
        let num = scan_number(&mut s3);
        let ghost x = (line_name(data, p), line_value(data, p));
        proof {
            lemma_counts_pad(v, x.0, b);
        }
        table.record_at(Ghost(data), idx, num, Ghost(x.0));
        proof {
            lemma_counts_add_obs(pad(v, x.0), x.0, x.1, b);
            lemma_pad_add_obs(v, x.0, x.0, x.1);
            lemma_pad_present(add_obs(v, x.0, x.1), x.0);
            let q = lines(data, s3.pos as int, seg_end_nl as int);
            assert(r3 =~= seq![x] + q);
            crate::stats::lemma_record_first(v, x, r1 + r2 + q);
            crate::stats::lemma_move_front(x, r1 + r2, q);
            assert(seq![x] + (r1 + r2 + q) =~= seq![x] + (r1 + r2) + q);
            assert((r1 + r2) + (seq![x] + q) =~= r1 + r2 + r3);
        }
    }
    proof {
        let r1 = lines(data, s1.pos as int, mid1 as int);
        let r2 = lines(data, s2.pos as int, mid2 as int);
        let r3 = lines(data, s3.pos as int, seg_end_nl as int);
        assert(r1 + r2 + r3 =~= Seq::<(Seq<u8>, int)>::empty());
        assert(aggregate(Seq::<(Seq<u8>, int)>::empty()) == Map::<Seq<u8>, Stats>::empty());
        crate::stats::lemma_combine_empty(table.view(data));
    }
}

/// Bytes of data handed out to a worker at a time.
pub const SEGMENT_SIZE: usize = 2097152;

/// Last line break of the segment claimed at `current` (the end of the data
/// if none follows): the first one from `current + SEGMENT_SIZE`, or from
/// the last byte.
pub open spec fn seg_end(data: Seq<u8>, current: int) -> int {
    let search = if current + 2097152 <= data.len() - 1 {
        current + 2097152
    } else {
        data.len() - 1
    };
    first_newline(data, search, data.len() as int)
}

/// First line start of the segment claimed at `current`: 0 for the first
/// segment, else just after the first line break from `current` on.
pub open spec fn seg_start(data: Seq<u8>, current: int) -> int {
    if current == 0 {
        0
    } else {
        let nl = first_newline(data, current, data.len() as int);
        if nl + 1 <= data.len() {
            nl + 1
        } else {
            data.len() as int
        }
    }
}

/// The lines of the segment claimed at byte `current` of the data: from the
/// first line that starts in it to the line break that ends the line
/// running over its end.
pub fn segment_bounds(data: &[u8], current: usize) -> (r: (usize, usize))
    requires
        current < data.len(),
        data_fits(data@),
    ensures
        r.0 == seg_start(data@, current as int),
        r.1 == seg_end(data@, current as int),
{
    let file_end = data.len();
    let seg_end_search = (current + SEGMENT_SIZE).min(file_end.saturating_sub(1));
    let seg_end_nl = next_newline(seg_end_search, file_end, data);
    let seg_start = if current == 0 {
        0
    } else {
        let nl = next_newline(current, file_end, data);
        proof {
            lemma_first_newline(data@, current as int, file_end as int);
        }
        (nl + 1).min(file_end)
    };
    (seg_start, seg_end_nl)
}

/// The lines on both sides of a line break, aggregated apart and combined,
/// give the aggregate of all the lines: the data can be cut into pieces at
/// any line break, and the pieces taken in by different tables.
pub proof fn lemma_cut_at_line_break(data: Seq<u8>, s: int, e: int, m: int)
    requires
        0 <= s <= m < e <= data.len(),
        data[m] == 10,
        lines_ok(data, s, e),
    ensures
        aggregate(lines(data, s, e)) == combine(aggregate(lines(data, s, m)), aggregate(lines(data, m + 1, e))),
{
    lemma_split_at(data, s, e, m);
    crate::stats::lemma_aggregate_append(lines(data, s, m), lines(data, m + 1, e));
}

} // verus!
