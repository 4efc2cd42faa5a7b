//! A map of station statistics written out as a list with one entry per
//! station, in any order or sorted by name.

use vstd::prelude::*;
use crate::stats::{Stats, stats_total, parts_seen, names_distinct, single, lemma_total_seen, lemma_combine_dom};
use crate::order::{lex_le, lemma_lex_total, lemma_lex_trans};
use crate::word::lemma_xor_laws;
use crate::merge::{checksum_of, checksum_full_of, station_mix, station_mix_full};
use crate::report::{sorted_by_name, lemma_checksum_append};

verus! {

/// `l` lists the stations of `m`, each once, with their statistics.
pub open spec fn is_listing(l: Seq<(Seq<u8>, Stats)>, m: Map<Seq<u8>, Stats>) -> bool {
    &&& names_distinct(l)
    &&& parts_seen(l)
    &&& stats_total(l) == m
}

/// Some list of the stations of `m`.
pub open spec fn listing(m: Map<Seq<u8>, Stats>) -> Seq<(Seq<u8>, Stats)> {
    choose|l: Seq<(Seq<u8>, Stats)>| is_listing(l, m)
}

/// The list of the stations of `m` sorted by name.
pub open spec fn sorted_listing(m: Map<Seq<u8>, Stats>) -> Seq<(Seq<u8>, Stats)> {
    choose|l: Seq<(Seq<u8>, Stats)>| is_listing(l, m) && sorted_by_name(l)
}

/// In a list with one entry per station, the total of a station is its
/// entry.
pub proof fn lemma_distinct_total(l: Seq<(Seq<u8>, Stats)>)
    requires
        names_distinct(l),
        parts_seen(l),
    ensures
        forall|k: int| 0 <= k < l.len() ==> stats_total(l).dom().contains(#[trigger] l[k].0) && stats_total(l)[l[k].0] == l[k].1,
        forall|n: Seq<u8>| #[trigger] stats_total(l).dom().contains(n) ==> exists|k: int| 0 <= k < l.len() && l[k].0 == n,
    decreases l.len(),
{
    if l.len() > 0 {
        let l0 = l.drop_last();
        assert(names_distinct(l0)) by {
            assert forall|i: int, j: int| 0 <= i < l0.len() && 0 <= j < l0.len() && i != j implies #[trigger] l0[i].0 != #[trigger] l0[j].0 by {
                assert(l0[i] == l[i] && l0[j] == l[j]);
            }
        }
        assert(parts_seen(l0));
        lemma_distinct_total(l0);
        lemma_total_seen(l0);
        let last = l.last();
        assert(last == l[l.len() - 1]);
        assert(!stats_total(l0).dom().contains(last.0)) by {
            if stats_total(l0).dom().contains(last.0) {
                let k = choose|k: int| 0 <= k < l0.len() && l0[k].0 == last.0;
                assert(l[k].0 == l[l.len() - 1].0);
            }
        }
        lemma_combine_dom(stats_total(l0), single(last.0, last.1));
        assert forall|k: int| 0 <= k < l.len() implies stats_total(l).dom().contains(#[trigger] l[k].0) && stats_total(l)[l[k].0] == l[k].1 by {
            if k < l.len() - 1 {
                assert(l[k] == l0[k]);
                assert(l[k].0 != last.0);
            }
        }
        assert forall|n: Seq<u8>| #[trigger] stats_total(l).dom().contains(n) implies exists|k: int| 0 <= k < l.len() && l[k].0 == n by {
            if n != last.0 {
                assert(stats_total(l0).dom().contains(n));
                let k = choose|k: int| 0 <= k < l0.len() && l0[k].0 == n;
                assert(l[k] == l0[k]);
            } else {
                assert(l[l.len() - 1].0 == n);
            }
        }
    }
}

/// A station entry belongs to a listing of `m` exactly when it is a
/// station of `m` with its statistics.
pub proof fn lemma_listing_members(l: Seq<(Seq<u8>, Stats)>, m: Map<Seq<u8>, Stats>)
    requires
        is_listing(l, m),
    ensures
        forall|x: (Seq<u8>, Stats)| #[trigger] l.contains(x) <==> (m.dom().contains(x.0) && m[x.0] == x.1),
{
    lemma_distinct_total(l);
    assert forall|x: (Seq<u8>, Stats)| #[trigger] l.contains(x) <==> (m.dom().contains(x.0) && m[x.0] == x.1) by {
        if l.contains(x) {
            let k = choose|k: int| 0 <= k < l.len() && l[k] == x;
            assert(m.dom().contains(l[k].0));
        }
        if m.dom().contains(x.0) && m[x.0] == x.1 {
            let k = choose|k: int| 0 <= k < l.len() && l[k].0 == x.0;
            assert(m[l[k].0] == l[k].1);
            assert(l[k] == x);
        }
    }
}

proof fn lemma_distinct_tail(l: Seq<(Seq<u8>, Stats)>)
    requires
        names_distinct(l),
        l.len() > 0,
    ensures
        names_distinct(l.drop_first()),
        forall|x: (Seq<u8>, Stats)| #[trigger] l.drop_first().contains(x) <==> (l.contains(x) && x != l[0]),
{
    let t = l.drop_first();
    assert forall|i: int, j: int| 0 <= i < t.len() && 0 <= j < t.len() && i != j implies #[trigger] t[i].0 != #[trigger] t[j].0 by {
        assert(t[i] == l[i + 1] && t[j] == l[j + 1]);
    }
    assert forall|x: (Seq<u8>, Stats)| #[trigger] t.contains(x) <==> (l.contains(x) && x != l[0]) by {
        if t.contains(x) {
            let k = choose|k: int| 0 <= k < t.len() && t[k] == x;
            assert(l[k + 1] == x);
            assert(l[k + 1].0 != l[0].0);
        }
        if l.contains(x) && x != l[0] {
            let k = choose|k: int| 0 <= k < l.len() && l[k] == x;
            assert(k != 0);
            assert(t[k - 1] == x);
        }
    }
}

/// Two lists sorted by name, one entry per station, with the same entries,
/// are the same list.
pub proof fn lemma_sorted_unique(l1: Seq<(Seq<u8>, Stats)>, l2: Seq<(Seq<u8>, Stats)>)
    requires
        names_distinct(l1),
        names_distinct(l2),
        sorted_by_name(l1),
        sorted_by_name(l2),
        forall|x: (Seq<u8>, Stats)| #![trigger l1.contains(x)] #![trigger l2.contains(x)] l1.contains(x) <==> l2.contains(x),
    ensures
        l1 == l2,
    decreases l1.len(),
{
    if l1.len() == 0 {
        if l2.len() > 0 {
            assert(l2.contains(l2[0]));
            assert(l1.contains(l2[0]));
        }
        assert(l1 =~= l2);
    } else {
        assert(l1.contains(l1[0]));
        assert(l2.len() > 0);
        assert(l2.contains(l2[0]));
        assert(l1.contains(l2[0]));
        assert(l2.contains(l1[0]));
        let k = choose|k: int| 0 <= k < l2.len() && l2[k] == l1[0];
        let k2 = choose|k: int| 0 <= k < l1.len() && l1[k] == l2[0];
        if k > 0 {
            assert(lex_le(l2[0].0, l2[k].0));
        }
        if k2 > 0 {
            assert(lex_le(l1[0].0, l1[k2].0));
        }
        lemma_lex_total(l1[0].0, l2[0].0);
        if k2 > 0 {
            assert(l1[0].0 == l1[k2].0);
        }
        assert(l1[0] == l2[0]);
        lemma_distinct_tail(l1);
        lemma_distinct_tail(l2);
        let t1 = l1.drop_first();
        let t2 = l2.drop_first();
        assert forall|a: int, b: int| 0 <= a < b < t1.len() implies lex_le(#[trigger] t1[a].0, #[trigger] t1[b].0) by {
            assert(t1[a] == l1[a + 1] && t1[b] == l1[b + 1]);
        }
        assert forall|a: int, b: int| 0 <= a < b < t2.len() implies lex_le(#[trigger] t2[a].0, #[trigger] t2[b].0) by {
            assert(t2[a] == l2[a + 1] && t2[b] == l2[b + 1]);
        }
        lemma_sorted_unique(t1, t2);
        assert(l1 =~= seq![l1[0]] + t1);
        assert(l2 =~= seq![l2[0]] + t2);
    }
}

/// The checksum terms XORed over a list are the same for any list with the
/// same entries, one per station.
pub proof fn lemma_same_members_checksum(l1: Seq<(Seq<u8>, Stats)>, l2: Seq<(Seq<u8>, Stats)>)
    requires
        names_distinct(l1),
        names_distinct(l2),
        forall|x: (Seq<u8>, Stats)| #![trigger l1.contains(x)] #![trigger l2.contains(x)] l1.contains(x) <==> l2.contains(x),
    ensures
        checksum_of(l1) == checksum_of(l2),
        checksum_full_of(l1) == checksum_full_of(l2),
    decreases l1.len(),
{
    if l1.len() == 0 {
        if l2.len() > 0 {
            assert(l2.contains(l2[0]));
            assert(l1.contains(l2[0]));
        }
        assert(l2 =~= Seq::<(Seq<u8>, Stats)>::empty());
    } else {
        let x = l1.last();
        assert(l1.contains(l1[l1.len() - 1]));
        let k = choose|k: int| 0 <= k < l2.len() && l2[k] == x;
        let pre = l2.subrange(0, k);
        let post = l2.subrange(k + 1, l2.len() as int);
        let rest = pre + post;
        let l1p = l1.drop_last();
        assert(names_distinct(l1p)) by {
            assert forall|i: int, j: int| 0 <= i < l1p.len() && 0 <= j < l1p.len() && i != j implies #[trigger] l1p[i].0 != #[trigger] l1p[j].0 by {
                assert(l1p[i] == l1[i] && l1p[j] == l1[j]);
            }
        }
        assert(names_distinct(rest)) by {
            assert forall|i: int, j: int| 0 <= i < rest.len() && 0 <= j < rest.len() && i != j implies #[trigger] rest[i].0 != #[trigger] rest[j].0 by {
                let ii = if i < k { i } else { i + 1 };
                let jj = if j < k { j } else { j + 1 };
                assert(rest[i] == l2[ii] && rest[j] == l2[jj]);
            }
        }
        assert forall|y: (Seq<u8>, Stats)| #[trigger] l1p.contains(y) <==> rest.contains(y) by {
            if l1p.contains(y) {
                let i = choose|i: int| 0 <= i < l1p.len() && l1p[i] == y;
                assert(l1[i] == y);
                assert(l1[i].0 != l1[l1.len() - 1].0);
                assert(l1.contains(y));
                let j = choose|j: int| 0 <= j < l2.len() && l2[j] == y;
                assert(j != k);
                if j < k {
                    assert(rest[j] == y);
                } else {
                    assert(rest[j - 1] == y);
                }
            }
            if rest.contains(y) {
                let i = choose|i: int| 0 <= i < rest.len() && rest[i] == y;
                let ii = if i < k { i } else { i + 1 };
                assert(l2[ii] == y);
                assert(ii != k);
                assert(l2[ii].0 != l2[k].0);
                assert(l2.contains(y));
                assert(l1.contains(y));
                let j = choose|j: int| 0 <= j < l1.len() && l1[j] == y;
                assert(j != l1.len() - 1);
                assert(l1p[j] == y);
            }
        }
        lemma_same_members_checksum(l1p, rest);
        assert(l2 =~= pre + seq![x] + post);
        lemma_checksum_append(pre + seq![x], post);
        lemma_checksum_append(pre, seq![x]);
        lemma_checksum_append(pre, post);
        lemma_checksum_full_append(pre + seq![x], post);
        lemma_checksum_full_append(pre, seq![x]);
        lemma_checksum_full_append(pre, post);
        let sx = seq![x];
        assert(sx.drop_last() =~= Seq::<(Seq<u8>, Stats)>::empty());
        assert(sx.last() == x);
        assert(checksum_of(Seq::<(Seq<u8>, Stats)>::empty()) == 0);
        assert(checksum_full_of(Seq::<(Seq<u8>, Stats)>::empty()) == 0);
        assert(checksum_of(sx) == checksum_of(sx.drop_last()) ^ station_mix(sx.last().1));
        assert(checksum_full_of(sx) == checksum_full_of(sx.drop_last()) ^ station_mix_full(sx.last().1));
        assert(l1.drop_last() == l1p);
        let a = checksum_of(pre);
        let b = checksum_of(post);
        let mx = station_mix(x.1);
        assert(checksum_of(seq![x]) == 0u64 ^ mx);
        lemma_xor_laws(0u64, mx, 0u64);
        lemma_xor_laws(a, mx, b);
        lemma_xor_laws(mx, b, 0u64);
        lemma_xor_laws(a, b, mx);
        let fa = checksum_full_of(pre);
        let fb = checksum_full_of(post);
        let fx = station_mix_full(x.1);
        assert(checksum_full_of(seq![x]) == 0u64 ^ fx);
        lemma_xor_laws(0u64, fx, 0u64);
        lemma_xor_laws(fa, fx, fb);
        lemma_xor_laws(fx, fb, 0u64);
        lemma_xor_laws(fa, fb, fx);
    }
}

/// The full checksum is the XOR of the two halves' full checksums.
pub proof fn lemma_checksum_full_append(x: Seq<(Seq<u8>, Stats)>, y: Seq<(Seq<u8>, Stats)>)
    ensures
        checksum_full_of(x + y) == checksum_full_of(x) ^ checksum_full_of(y),
    decreases y.len(),
{
    if y.len() == 0 {
        assert(x + y =~= x);
        let c = checksum_full_of(x);
        lemma_xor_laws(c, 0, 0);
    } else {
        let y0 = y.drop_last();
        lemma_checksum_full_append(x, y0);
        assert((x + y).drop_last() =~= x + y0);
        assert((x + y).last() == y.last());
        let a = checksum_full_of(x);
        let b = checksum_full_of(y0);
        let m = station_mix_full(y.last().1);
        lemma_xor_laws(a, b, m);
    }
}

/// A listing has one entry per station.
pub proof fn lemma_listing_len(l: Seq<(Seq<u8>, Stats)>, m: Map<Seq<u8>, Stats>)
    requires
        is_listing(l, m),
    ensures
        m.dom().finite(),
        l.len() == m.dom().len(),
    decreases l.len(),
{
    lemma_total_seen(l);
    if l.len() > 0 {
        let l0 = l.drop_last();
        let last = l.last();
        assert(names_distinct(l0)) by {
            assert forall|i: int, j: int| 0 <= i < l0.len() && 0 <= j < l0.len() && i != j implies #[trigger] l0[i].0 != #[trigger] l0[j].0 by {
                assert(l0[i] == l[i] && l0[j] == l[j]);
            }
        }
        assert(parts_seen(l0));
        lemma_listing_len(l0, stats_total(l0));
        lemma_distinct_total(l0);
        assert(last == l[l.len() - 1]);
        assert(!stats_total(l0).dom().contains(last.0)) by {
            if stats_total(l0).dom().contains(last.0) {
                let k = choose|k: int| 0 <= k < l0.len() && l0[k].0 == last.0;
                assert(l[k].0 == l[l.len() - 1].0);
            }
        }
        lemma_combine_dom(stats_total(l0), single(last.0, last.1));
        assert(single(last.0, last.1).dom() =~= set![last.0]);
        assert(m.dom() =~= stats_total(l0).dom().insert(last.0));
    } else {
        assert(m.dom() =~= Set::<Seq<u8>>::empty());
    }
}

/// `x` put into `l` just before the first entry whose name does not come
/// before its own.
pub open spec fn insert_by_name(x: (Seq<u8>, Stats), l: Seq<(Seq<u8>, Stats)>) -> Seq<(Seq<u8>, Stats)>
    decreases l.len(),
{
    if l.len() == 0 {
        seq![x]
    } else if lex_le(x.0, l[0].0) {
        seq![x] + l
    } else {
        seq![l[0]] + insert_by_name(x, l.drop_first())
    }
}

/// `l` sorted by name, entry by entry.
pub open spec fn sort_names(l: Seq<(Seq<u8>, Stats)>) -> Seq<(Seq<u8>, Stats)>
    decreases l.len(),
{
    if l.len() == 0 {
        l
    } else {
        insert_by_name(l[0], sort_names(l.drop_first()))
    }
}

proof fn lemma_insert_by_name(x: (Seq<u8>, Stats), l: Seq<(Seq<u8>, Stats)>)
    requires
        sorted_by_name(l),
    ensures
        sorted_by_name(insert_by_name(x, l)),
        insert_by_name(x, l).len() == l.len() + 1,
        forall|y: (Seq<u8>, Stats)| #[trigger] insert_by_name(x, l).contains(y) <==> (y == x || l.contains(y)),
        names_distinct(l) && (forall|y: (Seq<u8>, Stats)| #[trigger] l.contains(y) ==> y.0 != x.0) ==> names_distinct(
            insert_by_name(x, l),
        ),
    decreases l.len(),
{
    let r = insert_by_name(x, l);
    if l.len() == 0 {
        assert(r =~= seq![x]);
        assert forall|y: (Seq<u8>, Stats)| #[trigger] r.contains(y) <==> (y == x || l.contains(y)) by {
            if r.contains(y) {
                let k = choose|k: int| 0 <= k < r.len() && r[k] == y;
            }
            if y == x {
                assert(r[0] == y);
            }
        }
    } else if lex_le(x.0, l[0].0) {
        assert(r =~= seq![x] + l);
        assert forall|a: int, b: int| 0 <= a < b < r.len() implies lex_le(#[trigger] r[a].0, #[trigger] r[b].0) by {
            if a == 0 {
                assert(r[b] == l[b - 1]);
                if b - 1 > 0 {
                    assert(lex_le(l[0].0, l[b - 1].0));
                    lemma_lex_trans(x.0, l[0].0, l[b - 1].0);
                }
            } else {
                assert(r[a] == l[a - 1] && r[b] == l[b - 1]);
            }
        }
        assert forall|y: (Seq<u8>, Stats)| #[trigger] r.contains(y) <==> (y == x || l.contains(y)) by {
            if r.contains(y) {
                let k = choose|k: int| 0 <= k < r.len() && r[k] == y;
                if k > 0 {
                    assert(l[k - 1] == y);
                }
            }
            if y == x {
                assert(r[0] == y);
            }
            if l.contains(y) {
                let k = choose|k: int| 0 <= k < l.len() && l[k] == y;
                assert(r[k + 1] == y);
            }
        }
        if names_distinct(l) && (forall|y: (Seq<u8>, Stats)| #[trigger] l.contains(y) ==> y.0 != x.0) {
            assert forall|a: int, b: int| 0 <= a < r.len() && 0 <= b < r.len() && a != b implies #[trigger] r[a].0 != #[trigger] r[b].0 by {
                if a == 0 {
                    assert(l.contains(l[b - 1]));
                } else if b == 0 {
                    assert(l.contains(l[a - 1]));
                } else {
                    assert(r[a] == l[a - 1] && r[b] == l[b - 1]);
                }
            }
        }
    } else {
        let t = l.drop_first();
        assert(sorted_by_name(t)) by {
            assert forall|a: int, b: int| 0 <= a < b < t.len() implies lex_le(#[trigger] t[a].0, #[trigger] t[b].0) by {
                assert(t[a] == l[a + 1] && t[b] == l[b + 1]);
            }
        }
        lemma_insert_by_name(x, t);
        let rt = insert_by_name(x, t);
        assert(r =~= seq![l[0]] + rt);
        lemma_lex_total(x.0, l[0].0);
        assert forall|j: int| 0 <= j < rt.len() implies lex_le(l[0].0, #[trigger] rt[j].0) by {
            assert(rt.contains(rt[j]));
            if rt[j] != x {
                assert(t.contains(rt[j]));
                let k = choose|k: int| 0 <= k < t.len() && t[k] == rt[j];
                assert(l[k + 1] == t[k]);
            }
        }
        assert forall|a: int, b: int| 0 <= a < b < r.len() implies lex_le(#[trigger] r[a].0, #[trigger] r[b].0) by {
            if a == 0 {
                assert(r[b] == rt[b - 1]);
            } else {
                assert(r[a] == rt[a - 1] && r[b] == rt[b - 1]);
            }
        }
        assert forall|y: (Seq<u8>, Stats)| #[trigger] r.contains(y) <==> (y == x || l.contains(y)) by {
            if r.contains(y) {
                let k = choose|k: int| 0 <= k < r.len() && r[k] == y;
                if k > 0 {
                    assert(rt[k - 1] == y);
                    assert(rt.contains(y));
                    if y != x {
                        assert(t.contains(y));
                        let i = choose|i: int| 0 <= i < t.len() && t[i] == y;
                        assert(l[i + 1] == y);
                    }
                } else {
                    assert(l[0] == y);
                }
            }
            if y == x {
                assert(rt.contains(x));
                let i = choose|i: int| 0 <= i < rt.len() && rt[i] == x;
                assert(r[i + 1] == y);
            }
            if l.contains(y) {
                let k = choose|k: int| 0 <= k < l.len() && l[k] == y;
                if k == 0 {
                    assert(r[0] == y);
                } else {
                    assert(t[k - 1] == y);
                    assert(t.contains(y));
                    assert(rt.contains(y));
                    let i = choose|i: int| 0 <= i < rt.len() && rt[i] == y;
                    assert(r[i + 1] == y);
                }
            }
        }
        if names_distinct(l) && (forall|y: (Seq<u8>, Stats)| #[trigger] l.contains(y) ==> y.0 != x.0) {
            lemma_distinct_tail(l);
            assert forall|y: (Seq<u8>, Stats)| #[trigger] t.contains(y) implies y.0 != x.0 by {
                assert(l.contains(y));
            }
            assert forall|a: int, b: int| 0 <= a < r.len() && 0 <= b < r.len() && a != b implies #[trigger] r[a].0 != #[trigger] r[b].0 by {
                if a == 0 || b == 0 {
                    let o = if a == 0 { b } else { a };
                    assert(rt.contains(rt[o - 1]));
                    assert(r[o] == rt[o - 1]);
                    if rt[o - 1] == x {
                        assert(l.contains(l[0]));
                    } else {
                        assert(t.contains(rt[o - 1]));
                        let i = choose|i: int| 0 <= i < t.len() && t[i] == rt[o - 1];
                        assert(l[i + 1] == t[i]);
                    }
                } else {
                    assert(r[a] == rt[a - 1] && r[b] == rt[b - 1]);
                }
            }
        }
    }
}

proof fn lemma_sort_names(l: Seq<(Seq<u8>, Stats)>)
    ensures
        sorted_by_name(sort_names(l)),
        sort_names(l).len() == l.len(),
        forall|y: (Seq<u8>, Stats)| #[trigger] sort_names(l).contains(y) <==> l.contains(y),
        names_distinct(l) ==> names_distinct(sort_names(l)),
    decreases l.len(),
{
    if l.len() > 0 {
        let t = l.drop_first();
        lemma_sort_names(t);
        let st = sort_names(t);
        lemma_insert_by_name(l[0], st);
        assert forall|y: (Seq<u8>, Stats)| #[trigger] sort_names(l).contains(y) <==> l.contains(y) by {
            if y != l[0] && l.contains(y) {
                let k = choose|k: int| 0 <= k < l.len() && l[k] == y;
                assert(t[k - 1] == y);
                assert(t.contains(y));
            }
            if st.contains(y) {
                assert(t.contains(y));
                let k = choose|k: int| 0 <= k < t.len() && t[k] == y;
                assert(l[k + 1] == y);
            }
            if y == l[0] {
                assert(l.contains(l[0]));
            }
        }
        if names_distinct(l) {
            lemma_distinct_tail(l);
            assert forall|y: (Seq<u8>, Stats)| #[trigger] st.contains(y) implies y.0 != l[0].0 by {
                assert(t.contains(y));
                let k = choose|k: int| 0 <= k < t.len() && t[k] == y;
                assert(l[k + 1] == y);
            }
        }
    } else {
        assert forall|y: (Seq<u8>, Stats)| #[trigger] sort_names(l).contains(y) <==> l.contains(y) by {}
    }
}

/// Two lists with one entry per station and the same entries have the same
/// totals.
proof fn lemma_same_members_total(l1: Seq<(Seq<u8>, Stats)>, l2: Seq<(Seq<u8>, Stats)>)
    requires
        names_distinct(l1),
        names_distinct(l2),
        parts_seen(l1),
        parts_seen(l2),
        forall|x: (Seq<u8>, Stats)| #![trigger l1.contains(x)] #![trigger l2.contains(x)] l1.contains(x) <==> l2.contains(x),
    ensures
        stats_total(l1) == stats_total(l2),
{
    lemma_distinct_total(l1);
    lemma_distinct_total(l2);
    let m1 = stats_total(l1);
    let m2 = stats_total(l2);
    assert forall|n: Seq<u8>| #[trigger] m1.dom().contains(n) implies m2.dom().contains(n) && m2[n] == m1[n] by {
        let k = choose|k: int| 0 <= k < l1.len() && l1[k].0 == n;
        assert(l1.contains(l1[k]));
        assert(l2.contains(l1[k]));
        let j = choose|j: int| 0 <= j < l2.len() && l2[j] == l1[k];
        assert(m2.dom().contains(l2[j].0));
    }
    assert forall|n: Seq<u8>| #[trigger] m2.dom().contains(n) implies m1.dom().contains(n) by {
        let k = choose|k: int| 0 <= k < l2.len() && l2[k].0 == n;
        assert(l2.contains(l2[k]));
        assert(l1.contains(l2[k]));
        let j = choose|j: int| 0 <= j < l1.len() && l1[j] == l2[k];
        assert(m1.dom().contains(l1[j].0));
    }
    assert(m1 =~= m2);
}

/// Whatever listing a map of station statistics has, it has one sorted by
/// name: the report of the stations is always defined.
pub proof fn lemma_sorted_listing(l: Seq<(Seq<u8>, Stats)>, m: Map<Seq<u8>, Stats>)
    requires
        is_listing(l, m),
    ensures
        is_listing(sorted_listing(m), m),
        sorted_by_name(sorted_listing(m)),
        is_listing(listing(m), m),
{
    lemma_sort_names(l);
    let s = sort_names(l);
    assert(parts_seen(s)) by {
        assert forall|k: int| 0 <= k < s.len() implies (#[trigger] s[k]).1.count > 0 by {
            assert(s.contains(s[k]));
            let j = choose|j: int| 0 <= j < l.len() && l[j] == s[k];
        }
    }
    lemma_same_members_total(s, l);
    assert(is_listing(s, m) && sorted_by_name(s));
}

} // verus!
