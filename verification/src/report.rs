//! Sorting the merged stations by name and writing the report
//! `{name=min/mean/max, ...}`.

use vstd::prelude::*;
use std::cmp::Ordering;
use crate::stats::{Stats, stats_total, parts_seen, names_distinct, lemma_total_append, lemma_total_seen, lemma_combine_commutative};
use crate::table::{Agg, agg_entry, agg_pair, agg_pairs, entry_ok, entry_name};
use crate::order::{lex_le, lex_lt, cmp_name_bytes, lemma_lex_trans, lemma_lex_total};
use crate::word::{lemma_xor_laws, lemma_low_six};
use crate::merge::{station_mix, checksum_of, rotate_left_u64};
use crate::format::{tenths, push_tenths_i16, push_tenths_i64};

verus! {

/// The names of the list appear in byte-wise lexicographic order.
pub open spec fn sorted_by_name(l: Seq<(Seq<u8>, Stats)>) -> bool {
    forall|a: int, b: int| 0 <= a < b < l.len() ==> lex_le(#[trigger] l[a].0, #[trigger] l[b].0)
}

/// The name of `v[a]` comes before or equals that of `v[b]`.
pub open spec fn names_le(d: Seq<u8>, v: Seq<Agg>, a: int, b: int) -> bool {
    lex_le(agg_pair(d, v[a]).0, agg_pair(d, v[b]).0)
}

/// `l` with the elements at `j - 1` and `j` exchanged.
pub open spec fn swap_back<A>(l: Seq<A>, j: int) -> Seq<A> {
    l.update(j - 1, l[j]).update(j, l[j - 1])
}

/// The checksum is the XOR of the two halves' checksums.
pub proof fn lemma_checksum_append(x: Seq<(Seq<u8>, Stats)>, y: Seq<(Seq<u8>, Stats)>)
    ensures
        checksum_of(x + y) == checksum_of(x) ^ checksum_of(y),
    decreases y.len(),
{
    if y.len() == 0 {
        assert(x + y =~= x);
        let c = checksum_of(x);
        lemma_xor_laws(c, 0, 0);
    } else {
        let y0 = y.drop_last();
        lemma_checksum_append(x, y0);
        assert((x + y).drop_last() =~= x + y0);
        assert((x + y).last() == y.last());
        let a = checksum_of(x);
        let b = checksum_of(y0);
        let m = station_mix(y.last().1);
        lemma_xor_laws(a, b, m);
    }
}

/// Exchanging two neighbours changes neither the totals, nor the checksum,
/// nor the multiset of a list.
pub proof fn lemma_swap_back(l: Seq<(Seq<u8>, Stats)>, j: int)
    requires
        0 < j < l.len(),
        parts_seen(l),
    ensures
        stats_total(swap_back(l, j)) == stats_total(l),
        checksum_of(swap_back(l, j)) == checksum_of(l),
        swap_back(l, j).to_multiset() == l.to_multiset(),
        parts_seen(swap_back(l, j)),
        names_distinct(l) ==> names_distinct(swap_back(l, j)),
{
    let s = swap_back(l, j);
    if names_distinct(l) {
        assert forall|a: int, b: int| 0 <= a < s.len() && 0 <= b < s.len() && a != b implies #[trigger] s[a].0 != #[trigger] s[b].0 by {
            let aa = if a == j - 1 { j } else if a == j { j - 1 } else { a };
            let bb = if b == j - 1 { j } else if b == j { j - 1 } else { b };
            assert(s[a] == l[aa] && s[b] == l[bb]);
        }
    }
    let pre = l.subrange(0, j - 1);
    let post = l.subrange(j + 1, l.len() as int);
    let ab = seq![l[j - 1], l[j]];
    let ba = seq![l[j], l[j - 1]];
    assert(l =~= pre + ab + post);
    assert(s =~= pre + ba + post);
    assert(parts_seen(pre));
    assert(parts_seen(post));
    assert(parts_seen(ab));
    assert(parts_seen(ba));
    assert(parts_seen(pre + ab));
    assert(parts_seen(pre + ba));
    lemma_total_append(pre + ab, post);
    lemma_total_append(pre + ba, post);
    lemma_total_append(pre, ab);
    lemma_total_append(pre, ba);
    lemma_total_append(seq![l[j - 1]], seq![l[j]]);
    lemma_total_append(seq![l[j]], seq![l[j - 1]]);
    assert(seq![l[j - 1]] + seq![l[j]] =~= ab);
    assert(seq![l[j]] + seq![l[j - 1]] =~= ba);
    assert(parts_seen(seq![l[j]]));
    assert(parts_seen(seq![l[j - 1]]));
    lemma_total_seen(seq![l[j]]);
    lemma_total_seen(seq![l[j - 1]]);
    lemma_combine_commutative(stats_total(seq![l[j - 1]]), stats_total(seq![l[j]]));
    lemma_checksum_append(pre + ab, post);
    lemma_checksum_append(pre + ba, post);
    lemma_checksum_append(pre, ab);
    lemma_checksum_append(pre, ba);
    assert(ab.drop_last() =~= seq![l[j - 1]]);
    assert(ba.drop_last() =~= seq![l[j]]);
    assert(seq![l[j - 1]].drop_last() =~= Seq::<(Seq<u8>, Stats)>::empty());
    assert(seq![l[j]].drop_last() =~= Seq::<(Seq<u8>, Stats)>::empty());
    let m1 = station_mix(l[j - 1].1);
    let m2 = station_mix(l[j].1);
    assert(checksum_of(Seq::<(Seq<u8>, Stats)>::empty()) == 0);
    assert(seq![l[j - 1]].last() == l[j - 1]);
    assert(seq![l[j]].last() == l[j]);
    assert(checksum_of(seq![l[j - 1]]) == 0u64 ^ m1);
    assert(checksum_of(seq![l[j]]) == 0u64 ^ m2);
    assert(ab.last() == l[j]);
    assert(ba.last() == l[j - 1]);
    assert(checksum_of(ab) == (0u64 ^ m1) ^ m2);
    assert(checksum_of(ba) == (0u64 ^ m2) ^ m1);
    lemma_xor_laws(0u64, m1, m2);
    lemma_xor_laws(0u64, m2, m1);
    lemma_xor_laws(m1, m2, 0u64);
    broadcast use vstd::seq_lib::group_to_multiset_ensures;
    broadcast use vstd::multiset::group_multiset_properties;
    assert(s.to_multiset() =~= l.to_multiset());
}

/// The name of `a` comes strictly after that of `b`.
pub fn name_greater(data: &[u8], a: &Agg, b: &Agg) -> (r: bool)
    requires
        a.name_off + a.name_len <= data.len(),
        b.name_off + b.name_len <= data.len(),
    ensures
        r == lex_lt(entry_name(data@, agg_entry(*b)), entry_name(data@, agg_entry(*a))),
{
    match cmp_name_bytes(data, a, b) {
        Ordering::Greater => true,
        Ordering::Less => {
            proof {
                lemma_lex_total(entry_name(data@, agg_entry(*a)), entry_name(data@, agg_entry(*b)));
            }
            false
        },
        Ordering::Equal => false,
    }
}

/// Sorts `v` by name, keeping stations with equal names in their order.
pub fn sort_by_name(data: &[u8], v: &mut Vec<Agg>)
    requires
        forall|i: int| 0 <= i < old(v)@.len() ==> #[trigger] entry_ok(data@, agg_entry(old(v)@[i]), u32::MAX as int),
        parts_seen(agg_pairs(data@, old(v)@)),
    ensures
        final(v)@.len() == old(v)@.len(),
        sorted_by_name(agg_pairs(data@, final(v)@)),
        stats_total(agg_pairs(data@, final(v)@)) == stats_total(agg_pairs(data@, old(v)@)),
        checksum_of(agg_pairs(data@, final(v)@)) == checksum_of(agg_pairs(data@, old(v)@)),
        agg_pairs(data@, final(v)@).to_multiset() == agg_pairs(data@, old(v)@).to_multiset(),
        forall|i: int| 0 <= i < final(v)@.len() ==> #[trigger] entry_ok(data@, agg_entry(final(v)@[i]), u32::MAX as int),
        parts_seen(agg_pairs(data@, final(v)@)),
        names_distinct(agg_pairs(data@, old(v)@)) ==> names_distinct(agg_pairs(data@, final(v)@)),
{
    let ghost d = data@;
    let ghost orig = agg_pairs(d, v@);
    let n = v.len();
    if n < 2 {
        return ;
    }
    let mut i: usize = 1;
    while i < n
        invariant
            d == data@,
            1 <= i <= n,
            n == v@.len(),
            forall|k: int| 0 <= k < v@.len() ==> #[trigger] entry_ok(d, agg_entry(v@[k]), u32::MAX as int),
            parts_seen(agg_pairs(d, v@)),
            stats_total(agg_pairs(d, v@)) == stats_total(orig),
            checksum_of(agg_pairs(d, v@)) == checksum_of(orig),
            agg_pairs(d, v@).to_multiset() == orig.to_multiset(),
            names_distinct(orig) ==> names_distinct(agg_pairs(d, v@)),
            forall|a: int, b: int| 0 <= a < b < i ==> #[trigger] names_le(d, v@, a, b),
        decreases n - i,
    {
        let mut j = i;
        proof {
            assert forall|k: int| 0 <= k < v@.len() implies (#[trigger] v@[k]).name_off + v@[k].name_len <= d.len() by {
                assert(entry_ok(d, agg_entry(v@[k]), u32::MAX as int));
            }
        }
        while j > 0 && name_greater(data, &v[j - 1], &v[j])
            invariant
                d == data@,
                0 <= j <= i < n,
                n == v@.len(),
                forall|k: int| 0 <= k < v@.len() ==> #[trigger] entry_ok(d, agg_entry(v@[k]), u32::MAX as int),
                forall|k: int| 0 <= k < v@.len() ==> (#[trigger] v@[k]).name_off + v@[k].name_len <= d.len(),
                parts_seen(agg_pairs(d, v@)),
                stats_total(agg_pairs(d, v@)) == stats_total(orig),
                checksum_of(agg_pairs(d, v@)) == checksum_of(orig),
                agg_pairs(d, v@).to_multiset() == orig.to_multiset(),
                names_distinct(orig) ==> names_distinct(agg_pairs(d, v@)),
                forall|a: int, b: int| 0 <= a < b <= i && a != j && b != j ==> #[trigger] names_le(d, v@, a, b),
                forall|b: int| j < b <= i ==> lex_lt(agg_pair(d, v@[j as int]).0, #[trigger] agg_pair(d, v@[b]).0),
            decreases j,
        {
            let ghost v0 = v@;
            let x = v[j - 1];
            let y = v[j];
            v.set(j - 1, y);
            v.set(j, x);
            proof {
                assert(v@ =~= swap_back(v0, j as int));
                assert(agg_pairs(d, v@) =~= swap_back(agg_pairs(d, v0), j as int));
                lemma_swap_back(agg_pairs(d, v0), j as int);
                assert forall|k: int| 0 <= k < v@.len() implies #[trigger] entry_ok(d, agg_entry(v@[k]), u32::MAX as int) by {
                    if k == j - 1 {
                        assert(entry_ok(d, agg_entry(v0[j as int]), u32::MAX as int));
                    } else if k == j {
                        assert(entry_ok(d, agg_entry(v0[j - 1]), u32::MAX as int));
                    } else {
                        assert(entry_ok(d, agg_entry(v0[k]), u32::MAX as int));
                    }
                }
                assert forall|k: int| 0 <= k < v@.len() implies (#[trigger] v@[k]).name_off + v@[k].name_len <= d.len() by {
                    assert(entry_ok(d, agg_entry(v@[k]), u32::MAX as int));
                }
                let nx = agg_pair(d, x).0;
                let ny = agg_pair(d, y).0;
                assert(lex_lt(ny, nx));
                assert forall|a: int, b: int| 0 <= a < b <= i && a != j - 1 && b != j - 1 implies #[trigger] names_le(d, v@, a, b) by {
                    if b == j {
                        assert(names_le(d, v0, a, j - 1));
                    } else if a == j {
                        assert(names_le(d, v0, j - 1, b));
                    } else {
                        assert(names_le(d, v0, a, b));
                    }
                }
                assert forall|b: int| j - 1 < b <= i implies lex_lt(agg_pair(d, v@[j - 1]).0, #[trigger] agg_pair(d, v@[b]).0) by {
                    if b > j {
                        assert(lex_lt(agg_pair(d, v0[j as int]).0, agg_pair(d, v0[b]).0));
                    }
                }
            }
            j -= 1;
        }
        proof {
            assert forall|a: int, b: int| 0 <= a < b < i + 1 implies #[trigger] names_le(d, v@, a, b) by {
                if b == j {
                    if a < j - 1 {
                        assert(names_le(d, v@, a, j - 1));
                    }
                    // the inner loop stopped: v[j - 1] is not greater than v[j]
                    assert(names_le(d, v@, j - 1, j as int)) by {
                        lemma_lex_total(agg_pair(d, v@[j - 1]).0, agg_pair(d, v@[j as int]).0);
                    }
                    if a < j - 1 {
                        lemma_lex_trans(agg_pair(d, v@[a]).0, agg_pair(d, v@[j - 1]).0, agg_pair(d, v@[j as int]).0);
                    }
                } else if a == j {
                    assert(lex_lt(agg_pair(d, v@[j as int]).0, agg_pair(d, v@[b]).0));
                } else {
                }
            }
        }
        i += 1;
    }
    proof {
        assert forall|a: int, b: int| 0 <= a < b < agg_pairs(d, v@).len() implies lex_le(#[trigger] agg_pairs(d, v@)[a].0, #[trigger] agg_pairs(d, v@)[b].0) by {
            assert(names_le(d, v@, a, b));
        }
    }
}

/// The mean temperature in tenths, rounded half away from zero.
pub open spec fn mean_tenths(s: Stats) -> int {
    let half = (s.count / 2) as int;
    if s.sum >= 0 {
        (s.sum + half) / (s.count as int)
    } else {
        -((-s.sum + half) / (s.count as int))
    }
}

/// The mean of negated temperatures is the negated mean: the rounding, half
/// away from zero, is the same on both sides of zero.
pub proof fn lemma_mean_negated(s: Stats)
    requires
        s.count > 0,
    ensures
        mean_tenths(crate::stats::negated(s)) == -mean_tenths(s),
{
    if s.sum == 0 {
        let c = s.count as int;
        let h = (s.count / 2) as int;
        assert(h / c == 0) by (nonlinear_arith)
            requires
                c > 0,
                h == c / 2,
        ;
    }
}

/// A nonnegative total `x` of `c` readings and its mean `m` in tenths
/// rounded half up: `m` is the nearest whole number of tenths to `x / c`,
/// the larger one on a tie.
proof fn lemma_rounded_half_up(x: int, c: int, half: int, m: int)
    requires
        x >= 0,
        c > 0,
        half == c / 2,
        m == (x + half) / c,
    ensures
        2 * c * m - c <= 2 * x < 2 * c * m + c,
{
    let q = (x + half) / c;
    let r = (x + half) % c;
    vstd::arithmetic::div_mod::lemma_fundamental_div_mod(x + half, c);
    vstd::arithmetic::div_mod::lemma_mod_pos_bound(x + half, c);
    vstd::arithmetic::div_mod::lemma_fundamental_div_mod(c, 2);
    vstd::arithmetic::div_mod::lemma_mod_pos_bound(c, 2);
    let t = c % 2;
    assert(2 * c * m - c <= 2 * x < 2 * c * m + c) by (nonlinear_arith)
        requires
            x + half == c * q + r,
            0 <= r < c,
            c == 2 * half + t,
            0 <= t < 2,
            m == q,
            c > 0,
    ;
}

/// The mean printed for a station is its sum divided by its count, rounded
/// to the nearest tenth, halves away from zero: `m` is the mean in tenths
/// of a sum `s` of `c` readings exactly when `|2 s - 2 c m| <= c`, with a
/// tie going to the `m` farther from zero.
pub proof fn lemma_mean_rounds_half_away(s: Stats)
    requires
        s.count > 0,
    ensures
        s.sum >= 0 ==> 2 * s.count * mean_tenths(s) - s.count <= 2 * s.sum < 2 * s.count * mean_tenths(s) + s.count,
        s.sum < 0 ==> 2 * s.count * mean_tenths(s) - s.count < 2 * s.sum <= 2 * s.count * mean_tenths(s) + s.count,
{
    let c: int = s.count as int;
    let half: int = c / 2;
    if s.sum >= 0 {
        lemma_rounded_half_up(s.sum, c, half, (s.sum + half) / c);
    } else {
        let q = (-s.sum + half) / c;
        lemma_rounded_half_up(-s.sum, c, half, q);
        assert(mean_tenths(s) == -q);
        assert(2 * c * (-q) == -(2 * c * q)) by (nonlinear_arith);
    }
}

/// `name=min/mean/max` for one station.
pub open spec fn station_text(p: (Seq<u8>, Stats)) -> Seq<u8> {
    p.0 + seq![61u8] + tenths(p.1.min) + seq![47u8] + tenths(mean_tenths(p.1)) + seq![47u8] + tenths(p.1.max)
}

/// The stations' texts separated by `, `.
pub open spec fn join_stations(l: Seq<(Seq<u8>, Stats)>) -> Seq<u8>
    decreases l.len(),
{
    if l.len() == 0 {
        Seq::empty()
    } else if l.len() == 1 {
        station_text(l[0])
    } else {
        join_stations(l.drop_last()) + seq![44u8, 32u8] + station_text(l.last())
    }
}

/// The report `{name=min/mean/max, ...}` of a list of stations.
pub open spec fn render(l: Seq<(Seq<u8>, Stats)>) -> Seq<u8> {
    seq![123u8] + join_stations(l) + seq![125u8]
}

/// Appends `name=min/mean/max` for the station of `a`.
#[verifier::rlimit(40)]
#[verifier::spinoff_prover]
pub fn write_station(data: &[u8], a: &Agg, output: &mut Vec<u8>)
    requires
        entry_ok(data@, agg_entry(*a), u32::MAX as int),
        a.count > 0,
    ensures
        final(output)@ == old(output)@ + station_text(agg_pair(data@, *a)),
{
    let ghost d = data@;
    let ghost before = output@;
    let off = a.name_off;
    let len = a.name_len as usize;
    let mut k: usize = 0;
    while k < len
        invariant
            d == data@,
            off + len < data.len(),
            k <= len,
            output@ == before + d.subrange(off as int, off + k),
        decreases len - k,
    {
        output.push(data[off + k]);
        proof {
            assert(d.subrange(off as int, off + k + 1) =~= d.subrange(off as int, off + k).push(d[off + k]));
        }
        k += 1;
    }
    output.push(61u8);
    push_tenths_i16(a.min, output);
    output.push(47u8);
    let sum = a.sum;
    let count = a.count as i64;
    let half = count / 2;
    let avg_tenths = if sum >= 0 {
        (sum + half) / count
    } else {
        (sum - half) / count
    };
    proof {
        assert(avg_tenths == mean_tenths(agg_pair(d, *a).1));
    }
    push_tenths_i64(avg_tenths, output);
    output.push(47u8);
    push_tenths_i16(a.max, output);
    proof {
        assert(output@ =~= before + station_text(agg_pair(d, *a)));
    }
}

/// Writes the report of the stations of `merged`, in their order, and the
/// checksum of their statistics.
pub fn render_report(data: &[u8], merged: &Vec<Agg>) -> (r: (Vec<u8>, u64))
    requires
        forall|i: int| 0 <= i < merged@.len() ==> #[trigger] entry_ok(data@, agg_entry(merged@[i]), u32::MAX as int),
        parts_seen(agg_pairs(data@, merged@)),
    ensures
        r.0@ == render(agg_pairs(data@, merged@)),
        r.1 == checksum_of(agg_pairs(data@, merged@)),
{
    let ghost d = data@;
    let ghost l = agg_pairs(d, merged@);
    let mut checksum: u64 = 0;
    let mut output: Vec<u8> = Vec::new();
    output.push(123u8);
    let mut i: usize = 0;
    proof {
        assert(l.subrange(0, 0) =~= Seq::<(Seq<u8>, Stats)>::empty());
    }
    while i < merged.len()
        invariant
            d == data@,
            l == agg_pairs(d, merged@),
            forall|k: int| 0 <= k < merged@.len() ==> #[trigger] entry_ok(d, agg_entry(merged@[k]), u32::MAX as int),
            parts_seen(l),
            i <= merged@.len(),
            output@ == seq![123u8] + join_stations(l.subrange(0, i as int)),
            checksum == checksum_of(l.subrange(0, i as int)),
        decreases merged@.len() - i,
    {
        let a = merged[i];
        let ghost before = output@;
        let ghost p = l[i as int];
        proof {
            assert(entry_ok(d, agg_entry(merged@[i as int]), u32::MAX as int));
            assert(p == agg_pair(d, a));
            assert(p.1.count > 0);
        }
        if i != 0 {
            output.push(44u8);
            output.push(32u8);
        }
        write_station(data, &a, &mut output);
        proof {
            lemma_low_six(a.count);
        }
        let m = rotate_left_u64((a.sum as u64).wrapping_mul(0x9E37_79B1_85EB_CA87), a.count & 63);
        checksum ^= m;
        proof {
            lemma_low_six(a.count);
            assert(m == station_mix(p.1));
            let lp = l.subrange(0, i + 1);
            assert(lp.drop_last() =~= l.subrange(0, i as int));
            assert(lp.last() == p);
            assert(output@ =~= seq![123u8] + join_stations(lp)) by {
                if i == 0 {
                    assert(lp.len() == 1);
                    assert(lp[0] == p);
                    assert(join_stations(l.subrange(0, 0)) =~= Seq::<u8>::empty());
                }
            }
        }
        i += 1;
    }
    output.push(125u8);
    proof {
        assert(l.subrange(0, merged@.len() as int) =~= l);
    }
    (output, checksum)
}

/// The mean of consistent statistics, rounded, lies between their minimum
/// and maximum.
pub proof fn lemma_mean_between(s: Stats)
    requires
        crate::stats::stats_consistent(s),
    ensures
        s.min <= mean_tenths(s) <= s.max,
{
    let c = s.count as int;
    let h = c / 2;
    assert(0 <= h < c);
    if s.sum >= 0 {
        let q = (s.sum + h) / c;
        assert(s.min <= q <= s.max) by (nonlinear_arith)
            requires
                q == (s.sum + h) / c,
                0 <= h < c,
                s.min * c <= s.sum,
                s.sum <= s.max * c,
        ;
    } else {
        let q = (-s.sum + h) / c;
        assert(-s.max <= q <= -s.min) by (nonlinear_arith)
            requires
                q == (-s.sum + h) / c,
                0 <= h < c,
                s.min * c <= s.sum,
                s.sum <= s.max * c,
        ;
    }
}

} // verus!
