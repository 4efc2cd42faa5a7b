//! One worker's whole job: every segment of the data into one station
//! table, the table's stations through the merge, and the result: the
//! number of stations, a checksum and, when asked for, the report.

use vstd::prelude::*;
use crate::word::data_fits;
use crate::stats::{Stats, aggregate, combine, combine_all, all_seen, stats_total, parts_seen, names_distinct};
use crate::input::{lines_ok, lines, first_newline, lemma_first_newline, lemma_split_at, lemma_line_bytes, line_ok};
use crate::table::{StationTable, Agg, collect_stations, agg_pairs, agg_ok};
use crate::segment::{SEGMENT_SIZE, seg_start, seg_end, segment_bounds, parse_segment};
use crate::merge::{MergeTable, merge_lists, all_pairs, agg_count, lists_ok, counts_at_most, checksum_of, checksum_full_of};
use crate::report::{sort_by_name, render_report, render, sorted_by_name};
use crate::listing::{is_listing, listing, sorted_listing, lemma_listing_members, lemma_sorted_unique, lemma_same_members_checksum, lemma_listing_len};

verus! {

/// What a worker hands back: the number of stations, a checksum of their
/// statistics and, unless it was asked for none, the report.
#[derive(Debug)]
pub struct WorkerResult {
    pub checksum: u64,
    pub stations: usize,
    pub output: Option<Vec<u8>>,
}

/// The data is a measurement file that the tables can take in whole: well
/// formed lines, fewer of them than a station's 32-bit count can reach, and
/// at most as many stations as a table has slots.
pub open spec fn valid_measurements(data: Seq<u8>) -> bool {
    &&& data_fits(data)
    &&& lines(data, 0, data.len() as int).len() < u32::MAX
    &&& lines_ok(data, 0, data.len() as int)
    &&& aggregate(lines(data, 0, data.len() as int)).dom().len() <= 131072
}

/// The statistics of every station of the data.
pub open spec fn measurements(data: Seq<u8>) -> Map<Seq<u8>, Stats> {
    aggregate(lines(data, 0, data.len() as int))
}

/// Where the next segment starts after one that ends at `e`.
spec fn after(e: int, len: int) -> int {
    if e + 1 <= len {
        e + 1
    } else {
        len
    }
}

/// The segment claimed at `current` starts where the lines not yet taken in
/// start, ends at a line break at or after its claimed end, and what it
/// leaves is where the next one, or the end of the data, starts.
proof fn lemma_segment_step(d: Seq<u8>, c: int, nxt: int)
    requires
        0 <= c < d.len(),
        0 <= nxt <= d.len(),
        lines_ok(d, nxt, d.len() as int),
        seg_start(d, c) == nxt,
    ensures
        nxt <= seg_end(d, c) ==> lines_ok(d, nxt, seg_end(d, c)) && lines_ok(d, after(seg_end(d, c), d.len() as int), d.len() as int)
            && lines(d, nxt, d.len() as int) == lines(d, nxt, seg_end(d, c)) + lines(d, after(seg_end(d, c), d.len() as int), d.len() as int),
        seg_end(d, c) < nxt ==> after(seg_end(d, c), d.len() as int) == nxt,
        seg_end(d, c) <= d.len(),
        c + 2097152 < d.len() ==> seg_start(d, c + 2097152) == after(seg_end(d, c), d.len() as int),
        c + 2097152 >= d.len() ==> after(seg_end(d, c), d.len() as int) == d.len(),
{
    let len = d.len() as int;
    let search = if c + 2097152 <= len - 1 { c + 2097152 } else { len - 1 };
    let e = seg_end(d, c);
    lemma_first_newline(d, search, len);
    lemma_first_newline(d, c, len);
    assert(e == first_newline(d, search, len));
    assert(c <= search);
    // the segment starts at most one past its end
    if e < len {
        assert(d[e] == 10);
        assert(first_newline(d, c, len) <= e);
    }
    assert(nxt <= e + 1);
    if nxt == e && e < len {
        // a line cannot start at a line break
        assert(lines_ok(d, nxt, len));
        assert(line_ok(d, nxt));
        lemma_line_bytes(d, nxt);
        assert(false);
    }
    if nxt <= e {
        lemma_split_at(d, nxt, len, e);
        if e == len {
            assert(lines(d, len + 1, len) =~= Seq::<(Seq<u8>, int)>::empty());
            assert(lines(d, len, len) =~= Seq::<(Seq<u8>, int)>::empty());
        }
    }
    if c + 2097152 < len {
        assert(search == c + 2097152);
        assert(seg_start(d, c + 2097152) == after(first_newline(d, c + 2097152, len), len));
    }
}

/// Takes in every segment of the data, claimed `SEGMENT_SIZE` bytes after
/// the last, into one table.
pub fn scan_all(data: &[u8]) -> (t: StationTable)
    requires
        valid_measurements(data@),
    ensures
        t.wf(data@),
        t.view(data@) == measurements(data@),
        all_seen(t.view(data@)),
        t.consumed_spec() == lines(data@, 0, data@.len() as int).len(),
{
    let ghost d = data@;
    let ghost m = measurements(d);
    let file_end = data.len();
    let mut table = StationTable::new();
    let mut current: usize = 0;
    let ghost mut nxt: int = 0;
    proof {
        crate::stats::lemma_aggregate_all_seen(lines(d, 0, file_end as int));
        crate::stats::lemma_combine_empty(m);
        assert(table.view(d) == Map::<Seq<u8>, Stats>::empty());
        assert(all_seen(table.view(d)));
    }
    while current < file_end
        invariant
            d == data@,
            valid_measurements(d),
            m == measurements(d),
            file_end == d.len(),
            table.wf(d),
            all_seen(table.view(d)),
            0 <= nxt <= file_end,
            lines_ok(d, nxt, file_end as int),
            combine(table.view(d), aggregate(lines(d, nxt, file_end as int))) == m,
            table.consumed_spec() + lines(d, nxt, file_end as int).len() == lines(d, 0, file_end as int).len(),
            current < file_end ==> seg_start(d, current as int) == nxt,
            current >= file_end ==> nxt == file_end,
            current < file_end + SEGMENT_SIZE,
        decreases file_end + SEGMENT_SIZE - current,
    {
        let (s, e) = segment_bounds(data, current);
        let ghost v0 = table.view(d);
        proof {
            lemma_segment_step(d, current as int, nxt);
            crate::stats::lemma_aggregate_all_seen(lines(d, nxt, file_end as int));
            if nxt <= e {
                let a = aggregate(lines(d, nxt, e as int));
                let b = aggregate(lines(d, after(e as int, file_end as int), file_end as int));
                crate::stats::lemma_aggregate_append(lines(d, nxt, e as int), lines(d, after(e as int, file_end as int), file_end as int));
                crate::stats::lemma_combine_associative(v0, a, b);
                crate::stats::lemma_combine_dom(combine(v0, a), b);
                crate::stats::lemma_aggregate_finite(lines(d, 0, file_end as int));
                vstd::set_lib::lemma_len_subset(combine(v0, a).dom(), m.dom());
            } else {
                assert(lines(d, s as int, e as int) =~= Seq::<(Seq<u8>, int)>::empty());
                assert(aggregate(Seq::<(Seq<u8>, int)>::empty()) == Map::<Seq<u8>, Stats>::empty());
                crate::stats::lemma_combine_empty(v0);
                crate::stats::lemma_combine_dom(v0, aggregate(lines(d, nxt, file_end as int)));
                crate::stats::lemma_aggregate_finite(lines(d, 0, file_end as int));
                vstd::set_lib::lemma_len_subset(v0.dom(), m.dom());
            }
        }
        parse_segment(data, s, e, &mut table);
        proof {
            let a = aggregate(lines(d, s as int, e as int));
            let b = aggregate(lines(d, after(e as int, file_end as int), file_end as int));
            if nxt <= e {
                assert(combine(table.view(d), b) == m);
            } else {
                assert(table.view(d) == v0);
            }
            nxt = after(e as int, file_end as int);
        }
        current = current + SEGMENT_SIZE;
    }
    proof {
        assert(lines(d, file_end as int, file_end as int) =~= Seq::<(Seq<u8>, int)>::empty());
        assert(aggregate(Seq::<(Seq<u8>, int)>::empty()) == Map::<Seq<u8>, Stats>::empty());
        crate::stats::lemma_combine_empty(table.view(d));
    }
    table
}

/// The result for the merged stations of `t`: their number; with no
/// output, the checksum of their statistics with extremes; else the report
/// of the stations sorted by name and the checksum of their statistics.
pub fn finish_report(data: &[u8], t: &MergeTable, no_output: bool) -> (r: WorkerResult)
    requires
        t.wf(data@),
    ensures
        r.stations == t.len_spec(),
        no_output ==> r.output is None && r.checksum == checksum_full_of(t.pairs(data@)),
        !no_output ==> r.checksum == checksum_of(t.pairs(data@)),
        !no_output ==> exists|l: Seq<(Seq<u8>, Stats)>|
            #![trigger render(l)]
            sorted_by_name(l) && l.to_multiset() == t.pairs(data@).to_multiset() && (r.output matches Some(o) && o@ == render(l)),
        !no_output && names_distinct(t.pairs(data@)) ==> (r.output matches Some(o) && o@ == render(
            sorted_listing(stats_total(t.pairs(data@))),
        )),
        !no_output && names_distinct(t.pairs(data@)) ==> r.checksum == checksum_of(
            sorted_listing(stats_total(t.pairs(data@))),
        ),
{
    let ghost d = data@;
    let stations = t.len();
    if no_output {
        let checksum = t.checksum_slots(data);
        return WorkerResult { checksum, stations, output: None };
    }
    let mut merged = t.merged_aggs(data);
    proof {
        assert forall|k: int| 0 <= k < agg_pairs(d, merged@).len() implies (#[trigger] agg_pairs(d, merged@)[k]).1.count > 0 by {
            assert(merged@[k].count > 0);
        }
    }
    sort_by_name(data, &mut merged);
    let (output, checksum) = render_report(data, &merged);
    proof {
        let l = agg_pairs(d, merged@);
        let p = t.pairs(d);
        assert(sorted_by_name(l) && l.to_multiset() == p.to_multiset() && output@ == render(l));
        if names_distinct(p) {
            let m = stats_total(p);
            assert(is_listing(l, m) && sorted_by_name(l));
            let s = sorted_listing(m);
            lemma_listing_members(l, m);
            lemma_listing_members(s, m);
            lemma_sorted_unique(l, s);
            t.lemma_pairs_seen(d);
            lemma_listing_members(p, m);
            lemma_same_members_checksum(p, s);
        }
    }
    WorkerResult { checksum, stations, output: Some(output) }
}

/// The end of a run with several workers: their station lists merged into
/// one table and the result for the lists' totals, each station once;
/// `None` when the lists name more stations than the merge table has slots.
pub fn finish_workers(data: &[u8], lists: &Vec<Vec<Agg>>, no_output: bool) -> (r: Option<WorkerResult>)
    requires
        data_fits(data@),
        lists_ok(data@, lists@),
        counts_at_most(stats_total(all_pairs(data@, lists@)), u32::MAX as int),
    ensures
        r is Some <==> stats_total(all_pairs(data@, lists@)).dom().len() <= 131072,
        r matches Some(w) ==> w.stations == stats_total(all_pairs(data@, lists@)).dom().len(),
        r matches Some(w) ==> (no_output <==> w.output is None),
        r matches Some(w) ==> no_output ==> w.checksum == checksum_full_of(listing(stats_total(all_pairs(data@, lists@)))),
        r matches Some(w) ==> !no_output ==> (w.output matches Some(o) && o@ == render(
            sorted_listing(stats_total(all_pairs(data@, lists@))),
        )) && w.checksum == checksum_of(sorted_listing(stats_total(all_pairs(data@, lists@)))),
{
    let ghost d = data@;
    let merged = match merge_lists(data, lists) {
        Some(t) => t,
        None => {
            return None;
        },
    };
    let r = finish_report(data, &merged, no_output);
    proof {
        let p = merged.pairs(d);
        let m = stats_total(all_pairs(d, lists@));
        merged.lemma_pairs_seen(d);
        assert(is_listing(p, m));
        lemma_listing_len(p, m);
        lemma_listing_members(p, m);
        if no_output {
            let l = listing(m);
            lemma_listing_members(l, m);
            lemma_same_members_checksum(p, l);
        }
    }
    Some(r)
}

/// The whole job of one worker over the data: every station's statistics,
/// their number, their checksum and, unless `no_output`, the report of the
/// stations sorted by name.
pub fn aggregate_measurements(data: &[u8], no_output: bool) -> (r: WorkerResult)
    requires
        valid_measurements(data@),
    ensures
        r.stations == measurements(data@).dom().len(),
        no_output ==> r.output is None && r.checksum == checksum_full_of(listing(measurements(data@))),
        !no_output ==> (r.output matches Some(o) && o@ == render(sorted_listing(measurements(data@)))),
        !no_output ==> r.checksum == checksum_of(sorted_listing(measurements(data@))),
{
    let ghost d = data@;
    let ghost m = measurements(d);
    let table = scan_all(data);
    let list = collect_stations(data, &table);
    let mut lists: Vec<Vec<Agg>> = Vec::new();
    lists.push(list);
    proof {
        table.lemma_view_dom(d);
        table.lemma_counts_bounded(d);
        assert(lists@.drop_last() =~= Seq::<Vec<Agg>>::empty());
        assert(lists@.last() == list);
        assert(all_pairs(d, Seq::<Vec<Agg>>::empty()) == Seq::<(Seq<u8>, Stats)>::empty());
        assert(agg_count(Seq::<Vec<Agg>>::empty()) == 0);
        assert(all_pairs(d, lists@) =~= agg_pairs(d, list@));
        assert(agg_count(lists@) == list@.len());
        assert(lists_ok(d, lists@)) by {
            assert forall|i: int, k: int| 0 <= i < lists@.len() && 0 <= k < lists@[i]@.len() implies #[trigger] agg_ok(d, lists@[i]@[k]) by {
                assert(lists@[i] == list);
            }
        }
        assert(names_distinct(agg_pairs(d, list@))) by {
            assert forall|i: int, j: int| 0 <= i < agg_pairs(d, list@).len() && 0 <= j < agg_pairs(d, list@).len() && i != j
                implies #[trigger] agg_pairs(d, list@)[i].0 != #[trigger] agg_pairs(d, list@)[j].0 by {
                assert(crate::table::agg_pair(d, list@[i]).0 != crate::table::agg_pair(d, list@[j]).0);
            }
        }
    }
    let merged = merge_lists(data, &lists).unwrap();
    proof {
        let p = merged.pairs(d);
        assert(p == agg_pairs(d, list@));
        assert(parts_seen(p)) by {
            assert forall|k: int| 0 <= k < p.len() implies (#[trigger] p[k]).1.count > 0 by {
                assert(agg_ok(d, list@[k]));
            }
        }
        assert(is_listing(p, m));
        merged.lemma_pairs_seen(d);
        lemma_listing_len(p, m);
        lemma_listing_members(p, m);
    }
    let r = finish_report(data, &merged, no_output);
    proof {
        let p = merged.pairs(d);
        if no_output {
            let l = listing(m);
            lemma_listing_members(l, m);
            lemma_same_members_checksum(p, l);
        }
    }
    r
}

/// In the report, every station's mean lies between its minimum and its
/// maximum.
pub proof fn lemma_mean_within_extremes(data: Seq<u8>, n: Seq<u8>)
    requires
        measurements(data).dom().contains(n),
    ensures
        measurements(data)[n].min <= crate::report::mean_tenths(measurements(data)[n]) <= measurements(data)[n].max,
{
    crate::stats::lemma_aggregate_consistent(lines(data, 0, data.len() as int));
    crate::report::lemma_mean_between(measurements(data)[n]);
}

/// A segment claimed at any offset inside a valid file covers whole lines:
/// its lines are well formed and their stations are stations of the file,
/// so any worker can parse it on its own.
pub proof fn lemma_claimed_segment(data: Seq<u8>, c: int)
    requires
        valid_measurements(data),
        0 <= c < data.len(),
    ensures
        seg_end(data, c) <= data.len(),
        lines_ok(data, seg_start(data, c), seg_end(data, c)),
        aggregate(lines(data, seg_start(data, c), seg_end(data, c))).dom().subset_of(measurements(data).dom()),
{
    let len = data.len() as int;
    let s = seg_start(data, c);
    let search = if c + 2097152 <= len - 1 { c + 2097152 } else { len - 1 };
    let e = seg_end(data, c);
    lemma_first_newline(data, search, len);
    lemma_first_newline(data, c, len);
    crate::stats::lemma_aggregate_all_seen(lines(data, 0, len));
    // the lines from the segment's start to the end of the file
    let f = first_newline(data, c, len);
    if c > 0 && f < len {
        lemma_split_at(data, 0, len, f);
        crate::stats::lemma_aggregate_append(lines(data, 0, f), lines(data, f + 1, len));
        crate::stats::lemma_combine_dom(aggregate(lines(data, 0, f)), aggregate(lines(data, f + 1, len)));
    }
    assert(lines_ok(data, s, len));
    assert(aggregate(lines(data, s, len)).dom().subset_of(measurements(data).dom()));
    if s <= e {
        if e < len {
            assert(data[e] == 10);
        }
        lemma_split_at(data, s, len, e);
        crate::stats::lemma_aggregate_append(lines(data, s, e), lines(data, e + 1, len));
        crate::stats::lemma_combine_dom(aggregate(lines(data, s, e)), aggregate(lines(data, e + 1, len)));
    } else {
        assert(lines(data, s, e) =~= Seq::<(Seq<u8>, int)>::empty());
        assert(aggregate(Seq::<(Seq<u8>, int)>::empty()) == Map::<Seq<u8>, Stats>::empty());
    }
}

/// The lines of the segment claimed at the `i`-th offset, `i * SEGMENT_SIZE`.
pub open spec fn claimed_lines(data: Seq<u8>, i: nat) -> Seq<(Seq<u8>, int)> {
    lines(data, seg_start(data, (i * 2097152) as int), seg_end(data, (i * 2097152) as int))
}

/// The statistics of the segments claimed at each offset of `claims`.
pub open spec fn claim_stats(data: Seq<u8>, claims: Seq<nat>) -> Seq<Map<Seq<u8>, Stats>> {
    claims.map_values(|i: nat| aggregate(claimed_lines(data, i)))
}

/// How many offsets, `SEGMENT_SIZE` apart from 0, lie inside the data: the
/// claims made before the cursor passes its end.
pub open spec fn claim_count(data: Seq<u8>) -> nat {
    ((data.len() + 2097151) / 2097152) as nat
}

/// The claims `0 .. n`, in order.
pub open spec fn first_claims(n: nat) -> Seq<nat> {
    Seq::new(n, |i: int| i as nat)
}

/// Where the lines not yet claimed start once `k` segments are claimed.
spec fn next_start(data: Seq<u8>, k: nat) -> int {
    if k * 2097152 < data.len() {
        seg_start(data, (k * 2097152) as int)
    } else {
        data.len() as int
    }
}

proof fn lemma_claims_prefix(data: Seq<u8>, k: nat)
    requires
        valid_measurements(data),
        k <= claim_count(data),
    ensures
        0 <= next_start(data, k) <= data.len(),
        lines_ok(data, next_start(data, k), data.len() as int),
        combine(combine_all(claim_stats(data, first_claims(k))), aggregate(lines(data, next_start(data, k), data.len() as int)))
            == measurements(data),
        crate::stats::each_seen(claim_stats(data, first_claims(k))),
    decreases k,
{
    let len = data.len() as int;
    let m = measurements(data);
    crate::stats::lemma_aggregate_all_seen(lines(data, 0, len));
    if k == 0 {
        assert(claim_stats(data, first_claims(0)) =~= Seq::<Map<Seq<u8>, Stats>>::empty());
        assert(combine_all(Seq::<Map<Seq<u8>, Stats>>::empty()) == Map::<Seq<u8>, Stats>::empty());
        crate::stats::lemma_combine_empty(m);
    } else {
        let j = (k - 1) as nat;
        lemma_claims_prefix(data, j);
        let c: int = (j * 2097152) as int;
        let len_n = data.len();
        assert(c < len) by (nonlinear_arith)
            requires
                j < k,
                k <= (len_n + 2097151) / 2097152,
                c == j * 2097152,
                len == len_n,
        ;
        let nx = next_start(data, j);
        let t = combine_all(claim_stats(data, first_claims(j)));
        lemma_segment_step(data, c, nx);
        let s = seg_start(data, c);
        let e = seg_end(data, c);
        let seg = aggregate(lines(data, s, e));
        let rest = aggregate(lines(data, after(e, len), len));
        assert(claim_stats(data, first_claims(k)) =~= claim_stats(data, first_claims(j)).push(seg));
        assert(claim_stats(data, first_claims(k)).drop_last() =~= claim_stats(data, first_claims(j)));
        crate::stats::lemma_aggregate_all_seen(lines(data, s, e));
        crate::stats::lemma_aggregate_all_seen(lines(data, nx, len));
        assert(crate::stats::each_seen(claim_stats(data, first_claims(k)))) by {
            assert forall|i: int| 0 <= i < claim_stats(data, first_claims(k)).len() implies crate::stats::all_seen(
                #[trigger] claim_stats(data, first_claims(k))[i],
            ) by {
                if i < j {
                    assert(claim_stats(data, first_claims(k))[i] == claim_stats(data, first_claims(j))[i]);
                }
            }
        }
        assert(k * 2097152 == c + 2097152);
        if nx <= e {
            crate::stats::lemma_aggregate_append(lines(data, nx, e), lines(data, after(e, len), len));
            crate::stats::lemma_combine_associative(t, seg, rest);
        } else {
            assert(lines(data, s, e) =~= Seq::<(Seq<u8>, int)>::empty());
            assert(aggregate(Seq::<(Seq<u8>, int)>::empty()) == Map::<Seq<u8>, Stats>::empty());
            crate::stats::lemma_combine_all_seen(claim_stats(data, first_claims(j)));
            crate::stats::lemma_combine_empty(t);
        }
    }
}

proof fn lemma_map_values_multiset(s1: Seq<nat>, s2: Seq<nat>, f: spec_fn(nat) -> Map<Seq<u8>, Stats>)
    requires
        s1.to_multiset() == s2.to_multiset(),
    ensures
        s1.map_values(f).to_multiset() == s2.map_values(f).to_multiset(),
    decreases s1.len(),
{
    broadcast use vstd::seq_lib::group_to_multiset_ensures;
    broadcast use vstd::multiset::group_multiset_axioms;

    if s1.len() == 0 {
        assert(s1.to_multiset().len() == s1.len());
        assert(s2.to_multiset().len() == s2.len());
        assert(s1.map_values(f) =~= s2.map_values(f));
    } else {
        let x = s1.last();
        let a0 = s1.drop_last();
        assert(s1 =~= a0.push(x));
        assert(s1.to_multiset().count(x) > 0);
        assert(s2.contains(x));
        let k = choose|k: int| 0 <= k < s2.len() && s2[k] == x;
        let b0 = s2.remove(k);
        assert(b0.to_multiset() == s2.to_multiset().remove(s2[k]));
        assert(a0.to_multiset() =~= s1.to_multiset().remove(x));
        lemma_map_values_multiset(a0, b0, f);
        assert(s1.map_values(f) =~= a0.map_values(f).push(f(x)));
        let m2 = s2.map_values(f);
        assert(m2.remove(k) =~= b0.map_values(f));
        assert(m2.remove(k).to_multiset() == m2.to_multiset().remove(m2[k]));
        assert(m2[k] == f(x));
        assert(m2.to_multiset().count(f(x)) > 0) by {
            assert(m2.contains(m2[k]));
        }
        assert(m2.to_multiset() =~= b0.map_values(f).to_multiset().insert(f(x)));
    }
}

/// However the claimed segments are shared out among workers and in
/// whatever order they are taken in, their statistics taken together are
/// those of the whole file: each line is in exactly one claimed segment.
pub proof fn lemma_claims_cover(data: Seq<u8>, claims: Seq<nat>)
    requires
        valid_measurements(data),
        claims.to_multiset() == first_claims(claim_count(data)).to_multiset(),
    ensures
        combine_all(claim_stats(data, claims)) == measurements(data),
{
    let n = claim_count(data);
    let len = data.len() as int;
    lemma_claims_prefix(data, n);
    let len_n = data.len();
    assert(n * 2097152 >= len) by (nonlinear_arith)
        requires
            n == (len_n + 2097151) / 2097152,
            len == len_n,
    ;
    assert(lines(data, len, len) =~= Seq::<(Seq<u8>, int)>::empty());
    assert(aggregate(Seq::<(Seq<u8>, int)>::empty()) == Map::<Seq<u8>, Stats>::empty());
    crate::stats::lemma_combine_all_seen(claim_stats(data, first_claims(n)));
    crate::stats::lemma_combine_empty(combine_all(claim_stats(data, first_claims(n))));
    lemma_map_values_multiset(first_claims(n), claims, |i: nat| aggregate(claimed_lines(data, i)));
    crate::stats::lemma_combine_all_permutation(claim_stats(data, first_claims(n)), claim_stats(data, claims));
}

/// The statistics of each worker's share of claims, each share's segments
/// taken in order.
pub open spec fn share_stats(data: Seq<u8>, shares: Seq<Seq<nat>>) -> Seq<Map<Seq<u8>, Stats>> {
    shares.map_values(|w: Seq<nat>| combine_all(claim_stats(data, w)))
}

proof fn lemma_claim_stats_seen(data: Seq<u8>, claims: Seq<nat>)
    ensures
        crate::stats::each_seen(claim_stats(data, claims)),
{
    assert forall|i: int| 0 <= i < claim_stats(data, claims).len() implies all_seen(#[trigger] claim_stats(data, claims)[i]) by {
        crate::stats::lemma_aggregate_all_seen(claimed_lines(data, claims[i]));
    }
}

proof fn lemma_shares_total(data: Seq<u8>, shares: Seq<Seq<nat>>)
    ensures
        combine_all(share_stats(data, shares)) == combine_all(claim_stats(data, shares.flatten_alt())),
    decreases shares.len(),
{
    if shares.len() == 0 {
        assert(share_stats(data, shares) =~= Seq::<Map<Seq<u8>, Stats>>::empty());
        assert(claim_stats(data, shares.flatten_alt()) =~= Seq::<Map<Seq<u8>, Stats>>::empty());
    } else {
        let s0 = shares.drop_last();
        let w = shares.last();
        lemma_shares_total(data, s0);
        assert(share_stats(data, shares).drop_last() =~= share_stats(data, s0));
        assert(share_stats(data, shares).last() == combine_all(claim_stats(data, w)));
        assert(claim_stats(data, shares.flatten_alt()) =~= claim_stats(data, s0.flatten_alt()) + claim_stats(data, w));
        lemma_claim_stats_seen(data, s0.flatten_alt());
        lemma_claim_stats_seen(data, w);
        crate::stats::lemma_combine_all_append(claim_stats(data, s0.flatten_alt()), claim_stats(data, w));
    }
}

/// Workers that share out the claims between them, each taking its
/// segments in the order it claimed them, together hold the statistics of
/// the whole file, however the claims were shared out.
pub proof fn lemma_workers_cover(data: Seq<u8>, shares: Seq<Seq<nat>>)
    requires
        valid_measurements(data),
        shares.flatten().to_multiset() == first_claims(claim_count(data)).to_multiset(),
    ensures
        combine_all(share_stats(data, shares)) == measurements(data),
{
    shares.lemma_flatten_and_flatten_alt_are_equivalent();
    lemma_shares_total(data, shares);
    lemma_claims_cover(data, shares.flatten());
}

/// Workers that share the claimed segments out between them, each handing
/// the merge the stations of its own share, hand it together the
/// statistics of the whole file, however the segments were shared out and
/// in whatever order each worker took its own: the result `finish_workers`
/// gives for their lists is the one `aggregate_measurements` gives.
pub proof fn lemma_parallel_total(data: Seq<u8>, shares: Seq<Seq<nat>>, lists: Seq<Vec<Agg>>)
    requires
        valid_measurements(data),
        shares.flatten().to_multiset() == first_claims(claim_count(data)).to_multiset(),
        lists_ok(data, lists),
        lists.len() == shares.len(),
        forall|i: int| 0 <= i < lists.len() ==> stats_total(agg_pairs(data, #[trigger] lists[i]@)) == share_stats(data, shares)[i],
    ensures
        stats_total(all_pairs(data, lists)) == measurements(data),
{
    crate::merge::lemma_all_pairs_total(data, lists);
    assert(lists.map_values(|l: Vec<Agg>| stats_total(agg_pairs(data, l@))) =~= share_stats(data, shares));
    lemma_workers_cover(data, shares);
}

/// Two measurement files with the same lines, each as often, in whatever
/// order, have the same statistics, so the same report and checksum.
pub proof fn lemma_lines_permuted(d1: Seq<u8>, d2: Seq<u8>)
    requires
        lines(d1, 0, d1.len() as int).to_multiset() == lines(d2, 0, d2.len() as int).to_multiset(),
    ensures
        measurements(d1) == measurements(d2),
{
    crate::stats::lemma_aggregate_permutation(lines(d1, 0, d1.len() as int), lines(d2, 0, d2.len() as int));
}

/// A measurement file whose temperatures are those of another, negated,
/// line by line, has the same stations with negated statistics: smallest
/// and largest swap and change sign, and so does the rounded mean.
pub proof fn lemma_lines_negated(d1: Seq<u8>, d2: Seq<u8>)
    requires
        lines(d2, 0, d2.len() as int) == crate::stats::negate_obs(lines(d1, 0, d1.len() as int)),
    ensures
        measurements(d2) == crate::stats::negate_all(measurements(d1)),
        forall|n: Seq<u8>| #[trigger] measurements(d1).dom().contains(n) ==> crate::report::mean_tenths(measurements(d2)[n])
            == -crate::report::mean_tenths(measurements(d1)[n]),
{
    crate::stats::lemma_aggregate_negated(lines(d1, 0, d1.len() as int));
    crate::stats::lemma_aggregate_all_seen(lines(d1, 0, d1.len() as int));
    assert forall|n: Seq<u8>| #[trigger] measurements(d1).dom().contains(n) implies crate::report::mean_tenths(measurements(d2)[n])
        == -crate::report::mean_tenths(measurements(d1)[n]) by {
        crate::report::lemma_mean_negated(measurements(d1)[n]);
    }
}

} // verus!
