//! Per-station statistics (min, max, sum, count of temperatures in tenths)
//! and how observations and partial results combine.

use vstd::prelude::*;

verus! {

/// Statistics of a station; `count == 0` stands for "nothing seen yet".
pub struct Stats {
    pub min: int,
    pub max: int,
    pub sum: int,
    pub count: nat,
}

/// The smaller of two integers.
pub open spec fn min_int(a: int, b: int) -> int {
    if a <= b {
        a
    } else {
        b
    }
}

/// The larger of two integers.
pub open spec fn max_int(a: int, b: int) -> int {
    if a >= b {
        a
    } else {
        b
    }
}

/// The statistics of no observation.
pub open spec fn empty_stats() -> Stats {
    Stats { min: 0, max: 0, sum: 0, count: 0 }
}

/// The statistics after one more observation `v`.
pub open spec fn observe(s: Stats, v: int) -> Stats {
    if s.count == 0 {
        Stats { min: v, max: v, sum: v, count: 1 }
    } else {
        Stats { min: min_int(s.min, v), max: max_int(s.max, v), sum: s.sum + v, count: s.count + 1 }
    }
}

/// The statistics of two disjoint groups of observations taken together.
pub open spec fn merge_stats(a: Stats, b: Stats) -> Stats {
    if a.count == 0 {
        b
    } else if b.count == 0 {
        a
    } else {
        Stats {
            min: min_int(a.min, b.min),
            max: max_int(a.max, b.max),
            sum: a.sum + b.sum,
            count: a.count + b.count,
        }
    }
}

/// Statistics of `name` in a map, empty when absent.
pub open spec fn stats_of(m: Map<Seq<u8>, Stats>, name: Seq<u8>) -> Stats {
    if m.dom().contains(name) {
        m[name]
    } else {
        empty_stats()
    }
}

/// The map after observing `v` for `name`.
pub open spec fn add_obs(m: Map<Seq<u8>, Stats>, name: Seq<u8>, v: int) -> Map<Seq<u8>, Stats> {
    m.insert(name, observe(stats_of(m, name), v))
}

/// The statistics of every station named in a list of observations.
pub open spec fn aggregate(obs: Seq<(Seq<u8>, int)>) -> Map<Seq<u8>, Stats>
    decreases obs.len(),
{
    if obs.len() == 0 {
        Map::empty()
    } else {
        add_obs(aggregate(obs.drop_last()), obs.last().0, obs.last().1)
    }
}

/// Two maps of statistics taken together, station by station.
pub open spec fn combine(a: Map<Seq<u8>, Stats>, b: Map<Seq<u8>, Stats>) -> Map<Seq<u8>, Stats> {
    Map::new(
        |n: Seq<u8>| a.dom().contains(n) || b.dom().contains(n),
        |n: Seq<u8>| merge_stats(stats_of(a, n), stats_of(b, n)),
    )
}

/// Every station of the map has seen at least one observation.
pub open spec fn all_seen(m: Map<Seq<u8>, Stats>) -> bool {
    forall|n: Seq<u8>| m.dom().contains(n) ==> m[n].count > 0
}

proof fn lemma_observe_merge(a: Stats, b: Stats, v: int)
    ensures
        observe(merge_stats(a, b), v) == merge_stats(a, observe(b, v)),
{
}

/// Two temperatures of one station give the same statistics in whichever
/// order they are recorded.
pub proof fn lemma_observe_commutes(s: Stats, v: int, w: int)
    ensures
        observe(observe(s, v), w) == observe(observe(s, w), v),
{
}

/// Two observations, of one station or of two, may be recorded into a map
/// of statistics in either order.
pub proof fn lemma_add_obs_commutes(m: Map<Seq<u8>, Stats>, n1: Seq<u8>, v: int, n2: Seq<u8>, w: int)
    ensures
        add_obs(add_obs(m, n1, v), n2, w) == add_obs(add_obs(m, n2, w), n1, v),
{
    if n1 == n2 {
        lemma_observe_commutes(stats_of(m, n1), v, w);
    }
    assert(add_obs(add_obs(m, n1, v), n2, w) =~= add_obs(add_obs(m, n2, w), n1, v));
}

/// The statistics of the negated temperatures: the smallest and the largest
/// change sign and places, the sum changes sign.
pub open spec fn negated(s: Stats) -> Stats {
    Stats { min: -s.max, max: -s.min, sum: -s.sum, count: s.count }
}

/// A run of observations with every temperature negated.
pub open spec fn negate_obs(obs: Seq<(Seq<u8>, int)>) -> Seq<(Seq<u8>, int)> {
    obs.map_values(|x: (Seq<u8>, int)| (x.0, -x.1))
}

/// Every station's statistics negated.
pub open spec fn negate_all(m: Map<Seq<u8>, Stats>) -> Map<Seq<u8>, Stats> {
    Map::new(|n: Seq<u8>| m.dom().contains(n), |n: Seq<u8>| negated(m[n]))
}

/// Negating the temperatures of a run of observations negates the
/// statistics of every station and names the same stations.
pub proof fn lemma_aggregate_negated(obs: Seq<(Seq<u8>, int)>)
    ensures
        aggregate(negate_obs(obs)) == negate_all(aggregate(obs)),
    decreases obs.len(),
{
    if obs.len() == 0 {
        assert(negate_obs(obs) =~= Seq::<(Seq<u8>, int)>::empty());
        assert(negate_all(aggregate(obs)) =~= Map::<Seq<u8>, Stats>::empty());
    } else {
        let o = obs.drop_last();
        lemma_aggregate_negated(o);
        assert(negate_obs(obs).drop_last() =~= negate_obs(o));
        assert(negate_obs(obs).last() == (obs.last().0, -obs.last().1));
        let m = aggregate(o);
        let n = obs.last().0;
        assert(stats_of(negate_all(m), n) == negated(stats_of(m, n)));
        assert(add_obs(negate_all(m), n, -obs.last().1) =~= negate_all(add_obs(m, n, obs.last().1)));
    }
}

/// Recording an observation into combined statistics is the same as
/// recording it into the second part first.
pub proof fn lemma_add_obs_combine(a: Map<Seq<u8>, Stats>, b: Map<Seq<u8>, Stats>, name: Seq<u8>, v: int)
    ensures
        add_obs(combine(a, b), name, v) == combine(a, add_obs(b, name, v)),
{
    lemma_observe_merge(stats_of(a, name), stats_of(b, name), v);
    assert(add_obs(combine(a, b), name, v) =~= combine(a, add_obs(b, name, v)));
}

/// Combining with nothing changes nothing.
pub proof fn lemma_combine_empty(a: Map<Seq<u8>, Stats>)
    requires
        all_seen(a),
    ensures
        combine(a, Map::empty()) == a,
        combine(Map::empty(), a) == a,
{
    assert(combine(a, Map::empty()) =~= a);
    assert(combine(Map::empty(), a) =~= a);
}

/// Taking statistics together does not depend on the order of the parts.
pub proof fn lemma_combine_commutative(a: Map<Seq<u8>, Stats>, b: Map<Seq<u8>, Stats>)
    requires
        all_seen(a),
        all_seen(b),
    ensures
        combine(a, b) == combine(b, a),
{
    assert(combine(a, b) =~= combine(b, a));
}

/// Taking statistics together does not depend on how the parts are grouped.
pub proof fn lemma_combine_associative(
    a: Map<Seq<u8>, Stats>,
    b: Map<Seq<u8>, Stats>,
    c: Map<Seq<u8>, Stats>,
)
    ensures
        combine(combine(a, b), c) == combine(a, combine(b, c)),
{
    assert(combine(combine(a, b), c) =~= combine(a, combine(b, c)));
}

/// The statistics of two runs of observations, one after the other, are
/// those of each run taken together: pieces of the input can be
/// aggregated apart and merged.
pub proof fn lemma_aggregate_append(x: Seq<(Seq<u8>, int)>, y: Seq<(Seq<u8>, int)>)
    ensures
        aggregate(x + y) == combine(aggregate(x), aggregate(y)),
    decreases y.len(),
{
    lemma_aggregate_all_seen(x);
    if y.len() == 0 {
        assert(x + y =~= x);
        lemma_combine_empty(aggregate(x));
    } else {
        let y0 = y.drop_last();
        lemma_aggregate_append(x, y0);
        assert((x + y).drop_last() =~= x + y0);
        assert((x + y).last() == y.last());
        lemma_add_obs_combine(aggregate(x), aggregate(y0), y.last().0, y.last().1);
    }
}

/// Every station of an aggregate has at least one observation.
pub proof fn lemma_aggregate_all_seen(x: Seq<(Seq<u8>, int)>)
    ensures
        all_seen(aggregate(x)),
    decreases x.len(),
{
    if x.len() > 0 {
        lemma_aggregate_all_seen(x.drop_last());
    }
}

/// One observation alone.
pub proof fn lemma_aggregate_single(n: Seq<u8>, v: int)
    ensures
        aggregate(seq![(n, v)]) == add_obs(Map::empty(), n, v),
{
    assert(seq![(n, v)].drop_last() =~= Seq::<(Seq<u8>, int)>::empty());
    assert(aggregate(Seq::<(Seq<u8>, int)>::empty()) == Map::<Seq<u8>, Stats>::empty());
    assert(seq![(n, v)].last() == (n, v));
}

/// Observing `v` for `n` is combining with the statistics of that single
/// observation.
pub proof fn lemma_add_obs_is_combine(m: Map<Seq<u8>, Stats>, n: Seq<u8>, v: int)
    requires
        all_seen(m),
    ensures
        add_obs(m, n, v) == combine(m, aggregate(seq![(n, v)])),
{
    lemma_aggregate_single(n, v);
    lemma_add_obs_combine(m, Map::empty(), n, v);
    lemma_combine_empty(m);
}

/// The order of two runs of observations does not matter.
pub proof fn lemma_aggregate_swap(x: Seq<(Seq<u8>, int)>, y: Seq<(Seq<u8>, int)>)
    ensures
        aggregate(x + y) == aggregate(y + x),
{
    lemma_aggregate_append(x, y);
    lemma_aggregate_append(y, x);
    lemma_aggregate_all_seen(x);
    lemma_aggregate_all_seen(y);
    lemma_combine_commutative(aggregate(x), aggregate(y));
}

/// How many observations of a run are of station `n`.
pub open spec fn readings_count(obs: Seq<(Seq<u8>, int)>, n: Seq<u8>) -> nat
    decreases obs.len(),
{
    if obs.len() == 0 {
        0
    } else {
        readings_count(obs.drop_last(), n) + if obs.last().0 == n { 1nat } else { 0nat }
    }
}

/// The sum of the temperatures of station `n` in a run.
pub open spec fn readings_sum(obs: Seq<(Seq<u8>, int)>, n: Seq<u8>) -> int
    decreases obs.len(),
{
    if obs.len() == 0 {
        0
    } else {
        readings_sum(obs.drop_last(), n) + if obs.last().0 == n { obs.last().1 } else { 0 }
    }
}

/// The statistics of a station are those of its own readings: it is a
/// station exactly when it has a reading, its smallest and largest are
/// readings of it and bound all of them, and its count and sum are how many
/// readings it has and their sum.
pub proof fn lemma_aggregate_readings(obs: Seq<(Seq<u8>, int)>, n: Seq<u8>)
    ensures
        aggregate(obs).dom().contains(n) <==> exists|i: int| 0 <= i < obs.len() && (#[trigger] obs[i]).0 == n,
        aggregate(obs).dom().contains(n) ==> {
            let s = aggregate(obs)[n];
            &&& forall|i: int| 0 <= i < obs.len() && (#[trigger] obs[i]).0 == n ==> s.min <= obs[i].1 <= s.max
            &&& exists|i: int| 0 <= i < obs.len() && (#[trigger] obs[i]).0 == n && obs[i].1 == s.min
            &&& exists|i: int| 0 <= i < obs.len() && (#[trigger] obs[i]).0 == n && obs[i].1 == s.max
            &&& s.count == readings_count(obs, n)
            &&& s.sum == readings_sum(obs, n)
        },
        !aggregate(obs).dom().contains(n) ==> readings_count(obs, n) == 0 && readings_sum(obs, n) == 0,
    decreases obs.len(),
{
    if obs.len() > 0 {
        let o = obs.drop_last();
        let x = obs.last();
        lemma_aggregate_readings(o, n);
        lemma_aggregate_all_seen(o);
        let m = aggregate(o);
        assert(aggregate(obs) == add_obs(m, x.0, x.1));
        assert forall|i: int| 0 <= i < o.len() implies #[trigger] o[i] == obs[i] by {}
        assert(obs[obs.len() - 1] == x);
        if x.0 == n {
            if m.dom().contains(n) {
                let s0 = m[n];
                let s = aggregate(obs)[n];
                assert(s == observe(s0, x.1));
                assert forall|i: int| 0 <= i < obs.len() && (#[trigger] obs[i]).0 == n implies s.min <= obs[i].1 <= s.max by {
                    if i < o.len() {
                        assert(o[i] == obs[i]);
                    }
                }
                let i1 = choose|i: int| 0 <= i < o.len() && (#[trigger] o[i]).0 == n && o[i].1 == s0.min;
                let i2 = choose|i: int| 0 <= i < o.len() && (#[trigger] o[i]).0 == n && o[i].1 == s0.max;
                assert(obs[i1] == o[i1]);
                assert(obs[i2] == o[i2]);
                if x.1 < s0.min {
                    assert(obs[obs.len() - 1].1 == s.min);
                } else {
                    assert(obs[i1].1 == s.min);
                }
                if x.1 > s0.max {
                    assert(obs[obs.len() - 1].1 == s.max);
                } else {
                    assert(obs[i2].1 == s.max);
                }
            } else {
                let s = aggregate(obs)[n];
                assert forall|i: int| 0 <= i < obs.len() && (#[trigger] obs[i]).0 == n implies s.min <= obs[i].1 <= s.max by {
                    if i < o.len() {
                        assert(o[i] == obs[i]);
                        assert(o[i].0 == n);
                    }
                }
                assert(obs[obs.len() - 1].1 == s.min);
            }
        } else {
            assert((exists|i: int| 0 <= i < obs.len() && (#[trigger] obs[i]).0 == n) ==> (exists|i: int| 0 <= i < o.len() && (#[trigger] o[i]).0 == n)) by {
                if exists|i: int| 0 <= i < obs.len() && (#[trigger] obs[i]).0 == n {
                    let i = choose|i: int| 0 <= i < obs.len() && (#[trigger] obs[i]).0 == n;
                    assert(o[i] == obs[i]);
                }
            }
            if m.dom().contains(n) {
                let s = aggregate(obs)[n];
                assert(s == m[n]);
                let i1 = choose|i: int| 0 <= i < o.len() && (#[trigger] o[i]).0 == n && o[i].1 == s.min;
                let i2 = choose|i: int| 0 <= i < o.len() && (#[trigger] o[i]).0 == n && o[i].1 == s.max;
                assert(obs[i1] == o[i1]);
                assert(obs[i2] == o[i2]);
                assert forall|i: int| 0 <= i < obs.len() && (#[trigger] obs[i]).0 == n implies s.min <= obs[i].1 <= s.max by {
                    assert(o[i] == obs[i]);
                }
            }
        }
        if exists|i: int| 0 <= i < o.len() && (#[trigger] o[i]).0 == n {
            let i = choose|i: int| 0 <= i < o.len() && (#[trigger] o[i]).0 == n;
            assert(obs[i] == o[i]);
        }
    }
}

/// The statistics of a run of observations do not depend on its order: two
/// runs with the same observations, each as often, aggregate alike.
pub proof fn lemma_aggregate_permutation(a: Seq<(Seq<u8>, int)>, b: Seq<(Seq<u8>, int)>)
    requires
        a.to_multiset() == b.to_multiset(),
    ensures
        aggregate(a) == aggregate(b),
    decreases a.len(),
{
    broadcast use vstd::seq_lib::group_to_multiset_ensures;
    broadcast use vstd::multiset::group_multiset_axioms;

    if a.len() == 0 {
        assert(a.to_multiset().len() == a.len());
        assert(b.to_multiset().len() == b.len());
        assert(b =~= a);
    } else {
        let x = a.last();
        let a0 = a.drop_last();
        assert(a =~= a0.push(x));
        assert(a.to_multiset().count(x) > 0);
        assert(b.contains(x));
        let k = choose|k: int| 0 <= k < b.len() && b[k] == x;
        let b0 = b.remove(k);
        assert(b0.to_multiset() == b.to_multiset().remove(b[k]));
        assert(a0.to_multiset() =~= a.to_multiset().remove(x));
        lemma_aggregate_permutation(a0, b0);
        let pre = b.subrange(0, k);
        let post = b.subrange(k + 1, b.len() as int);
        assert(b =~= pre + (seq![x] + post));
        assert(b0 =~= pre + post);
        lemma_aggregate_swap(seq![x], post);
        lemma_aggregate_append(pre, seq![x] + post);
        lemma_aggregate_append(pre, post + seq![x]);
        assert(pre + (post + seq![x]) =~= b0.push(x));
        assert(b0.push(x).drop_last() =~= b0);
        assert(a0.push(x).drop_last() =~= a0);
    }
}

/// Recording the first pending observation keeps "recorded combined with
/// pending" unchanged.
pub proof fn lemma_record_first(m: Map<Seq<u8>, Stats>, x: (Seq<u8>, int), rest: Seq<(Seq<u8>, int)>)
    requires
        all_seen(m),
    ensures
        combine(add_obs(m, x.0, x.1), aggregate(rest)) == combine(m, aggregate(seq![x] + rest)),
        all_seen(add_obs(m, x.0, x.1)),
{
    lemma_add_obs_is_combine(m, x.0, x.1);
    lemma_aggregate_append(seq![x], rest);
    assert(seq![(x.0, x.1)] =~= seq![x]);
    lemma_combine_associative(m, aggregate(seq![x]), aggregate(rest));
}

/// The stations of combined statistics are those of either part.
pub proof fn lemma_combine_dom(a: Map<Seq<u8>, Stats>, b: Map<Seq<u8>, Stats>)
    ensures
        combine(a, b).dom() == a.dom().union(b.dom()),
{
    assert(combine(a, b).dom() =~= a.dom().union(b.dom()));
}

/// An aggregate names finitely many stations.
pub proof fn lemma_aggregate_finite(x: Seq<(Seq<u8>, int)>)
    ensures
        aggregate(x).dom().finite(),
    decreases x.len(),
{
    if x.len() > 0 {
        lemma_aggregate_finite(x.drop_last());
    }
}

/// An observation may be taken from the front of a run and put back
/// anywhere further on.
pub proof fn lemma_move_front(
    x: (Seq<u8>, int),
    a: Seq<(Seq<u8>, int)>,
    b: Seq<(Seq<u8>, int)>,
)
    ensures
        aggregate(seq![x] + a + b) == aggregate(a + (seq![x] + b)),
{
    lemma_aggregate_append(seq![x] + a, b);
    lemma_aggregate_swap(seq![x], a);
    lemma_aggregate_append(a + seq![x], b);
    assert(a + seq![x] + b =~= a + (seq![x] + b));
}

/// The statistics of one station alone.
pub open spec fn single(n: Seq<u8>, s: Stats) -> Map<Seq<u8>, Stats> {
    Map::empty().insert(n, s)
}

/// Partial statistics taken together, station by station (a station may
/// appear more than once).
pub open spec fn stats_total(list: Seq<(Seq<u8>, Stats)>) -> Map<Seq<u8>, Stats>
    decreases list.len(),
{
    if list.len() == 0 {
        Map::empty()
    } else {
        combine(stats_total(list.drop_last()), single(list.last().0, list.last().1))
    }
}

/// Every part has seen at least one temperature.
pub open spec fn parts_seen(list: Seq<(Seq<u8>, Stats)>) -> bool {
    forall|i: int| 0 <= i < list.len() ==> (#[trigger] list[i]).1.count > 0
}

/// Totals of parts that have all seen a temperature have only stations
/// that have, and finitely many.
pub proof fn lemma_total_seen(list: Seq<(Seq<u8>, Stats)>)
    requires
        parts_seen(list),
    ensures
        all_seen(stats_total(list)),
        stats_total(list).dom().finite(),
    decreases list.len(),
{
    if list.len() > 0 {
        assert(parts_seen(list.drop_last()));
        lemma_total_seen(list.drop_last());
        assert(list.last() == list[list.len() - 1]);
        lemma_combine_dom(stats_total(list.drop_last()), single(list.last().0, list.last().1));
    }
}

/// Totals of two lists, one after the other, are combined totals.
pub proof fn lemma_total_append(a: Seq<(Seq<u8>, Stats)>, b: Seq<(Seq<u8>, Stats)>)
    requires
        parts_seen(a),
        parts_seen(b),
    ensures
        stats_total(a + b) == combine(stats_total(a), stats_total(b)),
    decreases b.len(),
{
    lemma_total_seen(a);
    if b.len() == 0 {
        assert(a + b =~= a);
        lemma_combine_empty(stats_total(a));
    } else {
        let b0 = b.drop_last();
        assert(parts_seen(b0));
        lemma_total_append(a, b0);
        assert((a + b).drop_last() =~= a + b0);
        assert((a + b).last() == b.last());
        lemma_combine_associative(stats_total(a), stats_total(b0), single(b.last().0, b.last().1));
    }
}

/// Merging more statistics into one part of a list combines them into the
/// total.
pub proof fn lemma_total_update(list: Seq<(Seq<u8>, Stats)>, k: int, s: Stats)
    requires
        parts_seen(list),
        0 <= k < list.len(),
        s.count > 0,
    ensures
        stats_total(list.update(k, (list[k].0, merge_stats(list[k].1, s)))) == combine(
            stats_total(list),
            single(list[k].0, s),
        ),
{
    let n = list[k].0;
    let pre = list.subrange(0, k);
    let post = list.subrange(k + 1, list.len() as int);
    let up = list.update(k, (n, merge_stats(list[k].1, s)));
    assert(list =~= pre + seq![list[k]] + post);
    assert(up =~= pre + seq![(n, merge_stats(list[k].1, s))] + post);
    assert(parts_seen(pre));
    assert(parts_seen(post));
    assert(parts_seen(seq![list[k]]));
    assert(parts_seen(seq![(n, merge_stats(list[k].1, s))]));
    assert(parts_seen(pre + seq![list[k]]));
    assert(parts_seen(pre + seq![(n, merge_stats(list[k].1, s))]));
    lemma_total_append(pre + seq![list[k]], post);
    lemma_total_append(pre, seq![list[k]]);
    lemma_total_append(pre + seq![(n, merge_stats(list[k].1, s))], post);
    lemma_total_append(pre, seq![(n, merge_stats(list[k].1, s))]);
    let one = seq![list[k]];
    let two = seq![(n, merge_stats(list[k].1, s))];
    assert(one.drop_last() =~= Seq::<(Seq<u8>, Stats)>::empty());
    assert(two.drop_last() =~= Seq::<(Seq<u8>, Stats)>::empty());
    assert(stats_total(Seq::<(Seq<u8>, Stats)>::empty()) == Map::<Seq<u8>, Stats>::empty());
    lemma_combine_empty(single(n, list[k].1));
    lemma_combine_empty(single(n, merge_stats(list[k].1, s)));
    assert(stats_total(one) == single(n, list[k].1));
    assert(stats_total(two) == single(n, merge_stats(list[k].1, s)));
    assert(single(n, merge_stats(list[k].1, s)) =~= combine(single(n, list[k].1), single(n, s)));
    lemma_total_seen(pre);
    lemma_total_seen(post);
    let tp = stats_total(pre);
    let tq = stats_total(post);
    let a = single(n, list[k].1);
    let b = single(n, s);
    // combine(combine(tp, combine(a, b)), tq) == combine(combine(combine(tp, a), tq), b)
    lemma_combine_associative(tp, a, b);
    lemma_combine_associative(combine(tp, a), b, tq);
    lemma_combine_commutative(b, tq);
    lemma_combine_associative(combine(tp, a), tq, b);
}

/// No two parts of the list name the same station.
pub open spec fn names_distinct(l: Seq<(Seq<u8>, Stats)>) -> bool {
    forall|i: int, j: int| 0 <= i < l.len() && 0 <= j < l.len() && i != j ==> #[trigger] l[i].0 != #[trigger] l[j].0
}

/// Statistics of at least one observation whose sum lies between the count
/// times the minimum and the count times the maximum.
pub open spec fn stats_consistent(s: Stats) -> bool {
    &&& s.count > 0
    &&& s.min <= s.max
    &&& s.min * s.count <= s.sum <= s.max * s.count
}

proof fn lemma_observe_consistent(s: Stats, v: int)
    requires
        s.count == 0 || stats_consistent(s),
    ensures
        stats_consistent(observe(s, v)),
{
    if s.count > 0 {
        let o = observe(s, v);
        let c = s.count as int;
        assert(o.min * (c + 1) <= s.sum + v) by (nonlinear_arith)
            requires
                o.min <= s.min,
                o.min <= v,
                s.min * c <= s.sum,
                c > 0,
        ;
        assert(s.sum + v <= o.max * (c + 1)) by (nonlinear_arith)
            requires
                o.max >= s.max,
                o.max >= v,
                s.sum <= s.max * c,
                c > 0,
        ;
    }
}

/// Every station of an aggregate has consistent statistics.
pub proof fn lemma_aggregate_consistent(obs: Seq<(Seq<u8>, int)>)
    ensures
        forall|n: Seq<u8>| #[trigger] aggregate(obs).dom().contains(n) ==> stats_consistent(aggregate(obs)[n]),
    decreases obs.len(),
{
    if obs.len() > 0 {
        let pre = obs.drop_last();
        lemma_aggregate_consistent(pre);
        lemma_observe_consistent(stats_of(aggregate(pre), obs.last().0), obs.last().1);
    }
}

/// Maps of statistics taken together, one after the other.
pub open spec fn combine_all(ms: Seq<Map<Seq<u8>, Stats>>) -> Map<Seq<u8>, Stats>
    decreases ms.len(),
{
    if ms.len() == 0 {
        Map::empty()
    } else {
        combine(combine_all(ms.drop_last()), ms.last())
    }
}

/// Every map of the list has only stations that have seen a temperature.
pub open spec fn each_seen(ms: Seq<Map<Seq<u8>, Stats>>) -> bool {
    forall|i: int| 0 <= i < ms.len() ==> all_seen(#[trigger] ms[i])
}

proof fn lemma_combine_seen(a: Map<Seq<u8>, Stats>, b: Map<Seq<u8>, Stats>)
    requires
        all_seen(a),
        all_seen(b),
    ensures
        all_seen(combine(a, b)),
{
}

/// Maps whose stations have all seen a temperature combine into one whose
/// stations have.
pub proof fn lemma_combine_all_seen(ms: Seq<Map<Seq<u8>, Stats>>)
    requires
        each_seen(ms),
    ensures
        all_seen(combine_all(ms)),
    decreases ms.len(),
{
    if ms.len() > 0 {
        lemma_combine_all_seen(ms.drop_last());
        lemma_combine_seen(combine_all(ms.drop_last()), ms.last());
    }
}

/// Combining two runs of maps, one after the other, combines their
/// combinations.
pub proof fn lemma_combine_all_append(a: Seq<Map<Seq<u8>, Stats>>, b: Seq<Map<Seq<u8>, Stats>>)
    requires
        each_seen(a),
        each_seen(b),
    ensures
        combine_all(a + b) == combine(combine_all(a), combine_all(b)),
    decreases b.len(),
{
    lemma_combine_all_seen(a);
    if b.len() == 0 {
        assert(a + b =~= a);
        lemma_combine_empty(combine_all(a));
    } else {
        let b0 = b.drop_last();
        lemma_combine_all_append(a, b0);
        assert((a + b).drop_last() =~= a + b0);
        assert((a + b).last() == b.last());
        lemma_combine_associative(combine_all(a), combine_all(b0), b.last());
    }
}

/// Taking maps of statistics together gives the same result in any order:
/// two lists with the same maps, each as often, combine to the same map.
pub proof fn lemma_combine_all_permutation(a: Seq<Map<Seq<u8>, Stats>>, b: Seq<Map<Seq<u8>, Stats>>)
    requires
        each_seen(a),
        a.to_multiset() == b.to_multiset(),
    ensures
        combine_all(a) == combine_all(b),
    decreases a.len(),
{
    broadcast use vstd::seq_lib::group_to_multiset_ensures;
    broadcast use vstd::multiset::group_multiset_axioms;

    if a.len() == 0 {
        assert(a.to_multiset().len() == a.len());
        assert(b.to_multiset().len() == b.len());
        assert(b.len() == 0);
        assert(b =~= a);
    } else {
        let x = a.last();
        let a0 = a.drop_last();
        assert(a =~= a0.push(x));
        assert(a.to_multiset().count(x) > 0);
        assert(b.contains(x));
        let k = choose|k: int| 0 <= k < b.len() && b[k] == x;
        let b0 = b.remove(k);
        assert(b0.to_multiset() == b.to_multiset().remove(b[k]));
        assert(a0.to_multiset() =~= a.to_multiset().remove(x));
        assert(each_seen(a0)) by {
            assert forall|i: int| 0 <= i < a0.len() implies all_seen(#[trigger] a0[i]) by {
                assert(a0[i] == a[i]);
            }
        }
        lemma_combine_all_permutation(a0, b0);
        assert(each_seen(b)) by {
            assert forall|i: int| 0 <= i < b.len() implies all_seen(#[trigger] b[i]) by {
                assert(b.to_multiset().count(b[i]) > 0);
                assert(a.contains(b[i]));
                let j = choose|j: int| 0 <= j < a.len() && a[j] == b[i];
            }
        }
        let pre = b.subrange(0, k);
        let post = b.subrange(k + 1, b.len() as int);
        assert(b =~= pre + seq![x] + post);
        assert(b0 =~= pre + post);
        assert(each_seen(pre) && each_seen(post) && each_seen(seq![x])) by {
            assert forall|i: int| 0 <= i < pre.len() implies all_seen(#[trigger] pre[i]) by {
                assert(pre[i] == b[i]);
            }
            assert forall|i: int| 0 <= i < post.len() implies all_seen(#[trigger] post[i]) by {
                assert(post[i] == b[k + 1 + i]);
            }
            assert(all_seen(a[a.len() - 1]));
        }
        assert(each_seen(pre + seq![x]));
        lemma_combine_all_append(pre + seq![x], post);
        lemma_combine_all_append(pre, seq![x]);
        lemma_combine_all_append(pre, post);
        assert(seq![x].drop_last() =~= Seq::<Map<Seq<u8>, Stats>>::empty());
        assert(seq![x].last() == x);
        assert(combine_all(Seq::<Map<Seq<u8>, Stats>>::empty()) == Map::<Seq<u8>, Stats>::empty());
        assert(combine_all(seq![x]) == combine(combine_all(seq![x].drop_last()), seq![x].last()));
        assert(combine_all(seq![x]) == combine(Map::<Seq<u8>, Stats>::empty(), x));
        lemma_combine_empty(x);
        let ca = combine_all(pre);
        let cp = combine_all(post);
        lemma_combine_all_seen(post);
        // combine(combine(ca, x), cp) == combine(combine(ca, cp), x)
        lemma_combine_associative(ca, x, cp);
        lemma_combine_commutative(x, cp);
        lemma_combine_associative(ca, cp, x);
    }
}

} // verus!
