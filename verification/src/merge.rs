//! Merging the station lists of several workers into one table.

use vstd::prelude::*;
use crate::word::{data_fits, lemma_xor_laws, lemma_low_six};
use crate::key::{hash_to_index_sized, mix, station_hash};
use crate::stats::{
    names_distinct, Stats, merge_stats, stats_of, stats_total, single, parts_seen, combine, lemma_total_seen,
    lemma_total_append, lemma_total_update, lemma_combine_dom,
};
use crate::table::{Entry, Agg, agg_entry, agg_pair, agg_pairs, agg_ok, entry_ok, entry_name, entry_stats, name_eq, same_bytes, lemma_short_key_match, lemma_pigeonhole, lemma_index_mask, lemma_probe_arith, probe_dist, zero_entry};

verus! {

/// Slots of the merge table.
pub const MERGE_TABLE_SIZE: usize = 131072;

/// The table the workers' lists are merged into, and its occupied slots in
/// the order they were filled.
pub struct MergeTable {
    entries: Vec<Entry>,
    used: Vec<u32>,
}

/// The stations and statistics of the slots `used` lists, in that order.
pub open spec fn slot_pairs(data: Seq<u8>, entries: Seq<Entry>, used: Seq<u32>) -> Seq<(Seq<u8>, Stats)> {
    used.map_values(|j: u32| (entry_name(data, entries[j as int]), entry_stats(entries[j as int])))
}

/// Every run of `Agg`s of the lists, one list after the other.
pub open spec fn all_pairs(data: Seq<u8>, lists: Seq<Vec<Agg>>) -> Seq<(Seq<u8>, Stats)>
    decreases lists.len(),
{
    if lists.len() == 0 {
        Seq::empty()
    } else {
        all_pairs(data, lists.drop_last()) + agg_pairs(data, lists.last()@)
    }
}

/// Number of `Agg`s in the lists.
pub open spec fn agg_count(lists: Seq<Vec<Agg>>) -> nat
    decreases lists.len(),
{
    if lists.len() == 0 {
        0
    } else {
        agg_count(lists.drop_last()) + lists.last()@.len()
    }
}

/// Every station has at most `b` temperatures.
pub open spec fn counts_at_most(m: Map<Seq<u8>, Stats>, b: int) -> bool {
    forall|n: Seq<u8>| #[trigger] m.dom().contains(n) ==> m[n].count <= b
}

/// The slot at which probing starts for the station an entry holds: that
/// of the hash of its name.
pub open spec fn entry_home(data: Seq<u8>, e: Entry) -> int {
    (mix(station_hash(entry_name(data, e))) % 131072) as int
}

impl MergeTable {
    /// Slot `j` holds a station.
    pub closed spec fn occupied(self, j: int) -> bool {
        self.entries@[j].name_len != 0
    }

    /// The merged stations, one per occupied slot, in the order the slots
    /// were filled.
    pub closed spec fn pairs(self, data: Seq<u8>) -> Seq<(Seq<u8>, Stats)> {
        slot_pairs(data, self.entries@, self.used@)
    }

    /// Number of occupied slots.
    pub closed spec fn len_spec(self) -> nat {
        self.used@.len()
    }

    /// The table is consistent with the data its stations point into.
    pub closed spec fn wf(self, data: Seq<u8>) -> bool {
        &&& data_fits(data)
        &&& self.entries@.len() == 131072
        &&& self.used@.no_duplicates()
        &&& forall|i: int| 0 <= i < self.used@.len() ==> #[trigger] self.used@[i] < 131072
            && self.occupied(self.used@[i] as int)
        &&& forall|j: int| 0 <= j < 131072 && #[trigger] self.occupied(j) ==> self.used@.contains(j as u32)
        &&& forall|j: int|
            0 <= j < 131072 && #[trigger] self.occupied(j) ==> entry_ok(data, self.entries@[j], u32::MAX as int)
                && self.entries@[j].count > 0
        &&& forall|j: int, dd: int|
            #![trigger self.occupied(j), self.occupied((entry_home(data, self.entries@[j]) + dd) % 131072)]
            0 <= j < 131072 && self.occupied(j) && 0 <= dd < probe_dist(entry_home(data, self.entries@[j]), j)
                ==> self.occupied((entry_home(data, self.entries@[j]) + dd) % 131072)
    }

    /// An empty merge table.
    pub fn new() -> (t: Self)
        ensures
            forall|data: Seq<u8>| data_fits(data) ==> #[trigger] t.wf(data),
            forall|data: Seq<u8>| #[trigger] t.pairs(data) == Seq::<(Seq<u8>, Stats)>::empty(),
            t.len_spec() == 0,
    {
        let mut entries: Vec<Entry> = Vec::new();
        let mut i: usize = 0;
        while i < MERGE_TABLE_SIZE
            invariant
                i <= MERGE_TABLE_SIZE,
                entries@.len() == i,
                forall|j: int| 0 <= j < i ==> #[trigger] entries@[j] == zero_entry(),
            decreases MERGE_TABLE_SIZE - i,
        {
            entries.push(Entry::default());
            i += 1;
        }
        let t = MergeTable { entries, used: Vec::new() };
        assert forall|data: Seq<u8>| #[trigger] t.pairs(data) == Seq::<(Seq<u8>, Stats)>::empty() by {
            assert(t.pairs(data) =~= Seq::<(Seq<u8>, Stats)>::empty());
        }
        t
    }

    /// Number of merged stations.
    pub fn len(&self) -> (r: usize)
        ensures
            r == self.len_spec(),
    {
        self.used.len()
    }

    /// The table never lists more stations than it has slots.
    pub proof fn lemma_len_at_most_slots(self, data: Seq<u8>)
        requires
            self.wf(data),
        ensures
            self.len_spec() <= 131072,
    {
        let slots = self.used@.map_values(|x: u32| x as int);
        let range = vstd::set_lib::set_int_range(0, 131072);
        vstd::set_lib::lemma_int_range(0, 131072);
        assert forall|a: int, b: int| 0 <= a < slots.len() && 0 <= b < slots.len() && a != b implies slots[a] != slots[b] by {
            assert(self.used@[a] != self.used@[b]);
        }
        assert(slots.no_duplicates());
        slots.unique_seq_to_set();
        assert forall|x: int| slots.to_set().contains(x) implies range.contains(x) by {
            let i = choose|i: int| 0 <= i < slots.len() && slots[i] == x;
            assert(self.used@[i] < 131072);
        }
        vstd::set_lib::lemma_len_subset(slots.to_set(), range);
    }

    /// Every merged station has seen a temperature, and there is one per
    /// occupied slot.
    pub proof fn lemma_pairs_seen(self, data: Seq<u8>)
        requires
            self.wf(data),
        ensures
            parts_seen(self.pairs(data)),
            self.pairs(data).len() == self.len_spec(),
    {
        assert forall|i: int| 0 <= i < self.pairs(data).len() implies (#[trigger] self.pairs(data)[i]).1.count > 0 by {
            assert(self.occupied(self.used@[i] as int));
        }
    }

    /// Adds the statistics of one `Agg`: into the first slot, probing from
    /// its hash, that holds the same station, or into the first empty one.
    /// Returns `false`, changing nothing, when every slot holds another
    /// station.
    #[verifier::rlimit(100)]
    #[verifier::spinoff_prover]
    pub fn merge_agg(&mut self, data: &[u8], agg: &Agg) -> (ok: bool)
        requires
            old(self).wf(data@),
            agg_ok(data@, *agg),
            stats_of(stats_total(old(self).pairs(data@)), agg_pair(data@, *agg).0).count + agg.count
                <= u32::MAX,
        ensures
            final(self).wf(data@),
            old(self).len_spec() < 131072 ==> ok,
            !ok ==> *final(self) == *old(self) && old(self).len_spec() >= 131072
                && forall|k: int| 0 <= k < old(self).pairs(data@).len() ==> (#[trigger] old(self).pairs(data@)[k]).0 != agg_pair(data@, *agg).0,
            ok ==> stats_total(final(self).pairs(data@)) == combine(
                stats_total(old(self).pairs(data@)),
                single(agg_pair(data@, *agg).0, agg_pair(data@, *agg).1),
            ),
            ok ==> final(self).len_spec() <= old(self).len_spec() + 1,
            ok ==> (final(self).pairs(data@) == old(self).pairs(data@).push(agg_pair(data@, *agg))
                || exists|k: int| 0 <= k < old(self).pairs(data@).len() && (#[trigger] old(self).pairs(data@)[k]).0 == agg_pair(data@, *agg).0),
            names_distinct(old(self).pairs(data@)) ==> names_distinct(final(self).pairs(data@)),
    {
        let ghost d = data@;
        let ghost t0 = *self;
        let ghost n = agg_pair(d, *agg).0;
        let ghost s = agg_pair(d, *agg).1;
        let merge_mask = MERGE_TABLE_SIZE - 1;
        let mut idx = hash_to_index_sized(agg.hash, merge_mask);
        let ghost h = (mix(agg.hash) % 131072) as int;
        proof {
            lemma_index_mask(mix(agg.hash));
            lemma_pairs_seen_ext(t0, d);
        }
        proof {
            assert forall|j: int| 0 <= j < 131072 && #[trigger] self.entries@[j].name_len != 0 implies self.used@.contains(j as u32) by {
                assert(self.occupied(j));
            }
        }
        let ghost empty_slot: int = if self.used@.len() < 131072 {
            lemma_pigeonhole(self.used@, self.entries@)
        } else {
            0
        };
        let ghost mut dist: int = 0;
        let mut probes: usize = 0;
        loop
            invariant
                *self == t0,
                t0 == *old(self),
                merge_mask == 131071,
                t0.wf(d),
                d == data@,
                t0.used@.len() < 131072 ==> 0 <= empty_slot < 131072 && !t0.occupied(empty_slot),
                h == (mix(agg.hash) % 131072) as int,
                0 <= h < 131072,
                0 <= dist < 131072,
                probes == dist,
                forall|dd: int| 0 <= dd < dist ==> entry_name(d, #[trigger] t0.entries@[(h + dd) % 131072]) != n,
                idx == (h + dist) % 131072,
                forall|dd: int| 0 <= dd < dist ==> #[trigger] t0.occupied((h + dd) % 131072),
                agg_ok(d, *agg),
                n == agg_pair(d, *agg).0,
                s == agg_pair(d, *agg).1,
                stats_of(stats_total(t0.pairs(d)), n).count + agg.count <= u32::MAX,
                parts_seen(t0.pairs(d)),
                t0.pairs(d).len() == t0.used@.len(),
            decreases 131072 - dist,
        {
            proof {
                lemma_probe_arith(h, dist, 0);
            }
            let mut entry = self.entries[idx];
            if entry.name_len == 0 {
                entry.first_word = agg.first_word;
                entry.second_word = agg.second_word;
                entry.name_off = agg.name_off;
                entry.name_len = agg.name_len;
                entry.min = agg.min;
                entry.max = agg.max;
                entry.sum = agg.sum;
                entry.count = agg.count;
                self.entries.set(idx, entry);
                self.used.push(idx as u32);
                proof {
                    let t1 = *self;
                    assert(entry == agg_entry(*agg));
                    assert(t1.occupied(idx as int));
                    assert(!t0.used@.contains(idx as u32));
                    assert forall|j: int| 0 <= j < 131072 && #[trigger] t1.occupied(j) implies t1.used@.contains(j as u32) by {
                        if j != idx {
                            assert(t0.occupied(j));
                            assert(t0.used@.contains(j as u32));
                            let i = choose|i: int| 0 <= i < t0.used@.len() && t0.used@[i] == j as u32;
                            assert(t1.used@[i] == j as u32);
                        } else {
                            assert(t1.used@[t1.used@.len() - 1] == j as u32);
                        }
                    }
                    assert forall|j: int| 0 <= j < 131072 && #[trigger] t1.occupied(j) implies entry_ok(d, t1.entries@[j], u32::MAX as int)
                        && t1.entries@[j].count > 0 by {
                        if j != idx {
                            assert(t0.occupied(j));
                        }
                    }
                    assert forall|i: int| 0 <= i < t1.used@.len() implies #[trigger] t1.used@[i] < 131072
                        && t1.occupied(t1.used@[i] as int) by {
                        if i < t0.used@.len() {
                            assert(t0.occupied(t0.used@[i] as int));
                        }
                    }
                    assert(agg.hash == station_hash(n));
                    assert(entry_home(d, entry) == h);
                    assert forall|j: int, dd: int|
                        0 <= j < 131072 && t1.occupied(j) && 0 <= dd < probe_dist(entry_home(d, t1.entries@[j]), j)
                        implies #[trigger] t1.occupied((entry_home(d, t1.entries@[j]) + dd) % 131072) by {
                        if j == idx {
                            assert(probe_dist(h, idx as int) == dist);
                            assert(t0.occupied((h + dd) % 131072));
                        } else {
                            assert(t0.occupied(j));
                            assert(t0.occupied((entry_home(d, t0.entries@[j]) + dd) % 131072));
                        }
                    }
                    assert(t1.wf(d));
                    assert forall|i: int| 0 <= i < t0.used@.len() implies t1.entries@[t1.used@[i] as int] == t0.entries@[t0.used@[i] as int] by {
                        assert(t0.occupied(t0.used@[i] as int));
                    }
                    assert(t1.pairs(d) =~= t0.pairs(d).push(agg_pair(d, *agg)));
                    assert(t1.pairs(d).drop_last() =~= t0.pairs(d));
                    if names_distinct(t0.pairs(d)) {
                        lemma_new_station(t0, d, h, dist, n);
                        assert forall|a: int, b: int|
                            0 <= a < t1.pairs(d).len() && 0 <= b < t1.pairs(d).len() && a != b implies #[trigger] t1.pairs(d)[a].0
                            != #[trigger] t1.pairs(d)[b].0 by {
                            let last = t0.pairs(d).len() as int;
                            if a == last {
                                assert(t1.pairs(d)[b] == t0.pairs(d)[b]);
                            } else if b == last {
                                assert(t1.pairs(d)[a] == t0.pairs(d)[a]);
                            } else {
                                assert(t1.pairs(d)[a] == t0.pairs(d)[a] && t1.pairs(d)[b] == t0.pairs(d)[b]);
                            }
                        }
                    }
                }
                return true;
            }
            proof {
                assert(t0.occupied(idx as int));
                assert(t0.used@.contains(idx as u32));
            }
            if entry.name_len == agg.name_len && entry.first_word == agg.first_word && entry.second_word
                == agg.second_word {
                let name_len = agg.name_len as usize;
                let ok = if name_len < 16 {
                    true
                } else {
                    name_eq(data, entry.name_off, agg.name_off, name_len + 1)
                };
                if ok {
                    let ghost k = choose|k: int| 0 <= k < t0.used@.len() && t0.used@[k] == idx as u32;
                    proof {
                        let en = entry_name(d, entry);
                        if name_len < 16 {
                            lemma_short_key_match(n, en);
                        } else {
                            assert forall|i: int| 0 <= i < name_len implies en[i] == n[i] by {
                                assert(crate::word::byte_at(d, entry.name_off + i) == crate::word::byte_at(d, agg.name_off + i));
                            }
                            assert(en =~= n);
                        }
                        assert(t0.pairs(d)[k] == (en, entry_stats(entry)));
                        assert(t0.pairs(d)[k].0 == n);
                        lemma_part_le_total(t0.pairs(d), k);
                    }
                    if agg.min < entry.min {
                        entry.min = agg.min;
                    }
                    if agg.max > entry.max {
                        entry.max = agg.max;
                    }
                    entry.sum += agg.sum;
                    entry.count += agg.count;
                    self.entries.set(idx, entry);
                    proof {
                        let t1 = *self;
                        let old_e = t0.entries@[idx as int];
                        assert(entry_stats(entry) == merge_stats(entry_stats(old_e), s));
                        assert forall|j: int| 0 <= j < 131072 && #[trigger] t1.occupied(j) implies entry_ok(d, t1.entries@[j], u32::MAX as int)
                            && t1.entries@[j].count > 0 by {
                            assert(t0.occupied(j));
                        }
                        assert forall|j: int| 0 <= j < 131072 && #[trigger] t1.occupied(j) implies t1.used@.contains(j as u32) by {
                            assert(t0.occupied(j));
                        }
                        assert forall|i: int| 0 <= i < t1.used@.len() implies #[trigger] t1.used@[i] < 131072
                            && t1.occupied(t1.used@[i] as int) by {
                            assert(t0.occupied(t0.used@[i] as int));
                        }
                        assert forall|j: int| 0 <= j < 131072 implies #[trigger] t1.occupied(j) == t0.occupied(j)
                            && entry_home(d, t1.entries@[j]) == entry_home(d, t0.entries@[j]) by {}
                        assert forall|j: int, dd: int|
                            0 <= j < 131072 && t1.occupied(j) && 0 <= dd < probe_dist(entry_home(d, t1.entries@[j]), j)
                            implies #[trigger] t1.occupied((entry_home(d, t1.entries@[j]) + dd) % 131072) by {
                            assert(t0.occupied(j));
                            assert(t0.occupied((entry_home(d, t0.entries@[j]) + dd) % 131072));
                            lemma_probe_arith(entry_home(d, t0.entries@[j]), 0, j);
                            assert(0 <= (entry_home(d, t0.entries@[j]) + dd) % 131072 < 131072);
                        }
                        assert(t1.wf(d));
                        let p0 = t0.pairs(d);
                        assert(t1.pairs(d) =~= p0.update(k, (p0[k].0, merge_stats(p0[k].1, s))));
                        lemma_total_update(p0, k, s);
                        assert forall|a: int| 0 <= a < t1.pairs(d).len() implies #[trigger] t1.pairs(d)[a].0 == p0[a].0 by {}
                    }
                    return true;
                }
            }
            proof {
                assert(entry_ok(d, entry, u32::MAX as int));
                lemma_other_station(d, entry, *agg);
            }
            if probes + 1 == MERGE_TABLE_SIZE {
                proof {
                    if t0.used@.len() < 131072 {
                        lemma_probe_arith(h, 0, empty_slot);
                        let de = probe_dist(h, empty_slot);
                        if de < dist {
                            assert(t0.occupied((h + de) % 131072));
                        }
                        assert(false);
                    }
                    assert forall|k: int| 0 <= k < t0.pairs(d).len() implies (#[trigger] t0.pairs(d)[k]).0 != n by {
                        let j = t0.used@[k] as int;
                        assert(t0.occupied(j));
                        lemma_probe_arith(h, 0, j);
                        let dj = probe_dist(h, j);
                        if dj < dist {
                            assert(entry_name(d, t0.entries@[(h + dj) % 131072]) != n);
                        }
                        assert(t0.pairs(d)[k].0 == entry_name(d, t0.entries@[j]));
                    }
                }
                return false;
            }
            proof {
                lemma_index_mask((idx + 1) as u64);
                lemma_probe_arith(h, dist, 0);
            }
            let ghost old_idx = idx as int;
            idx = (idx + 1) & merge_mask;
            probes = probes + 1;
            proof {
                let ghost d0 = dist;
                dist = dist + 1;
                assert forall|dd: int| 0 <= dd < dist implies #[trigger] t0.occupied((h + dd) % 131072) by {
                    if dd == d0 {
                        assert((h + dd) % 131072 == old_idx);
                    }
                }
                assert forall|dd: int| 0 <= dd < dist implies entry_name(d, #[trigger] t0.entries@[(h + dd) % 131072]) != n by {
                    if dd == d0 {
                        assert((h + dd) % 131072 == old_idx);
                    }
                }
            }
        }
    }
}

/// Probing for a station from the home slot of its hash, every slot before
/// the first empty one holding another station: the station is not in the
/// table.
proof fn lemma_new_station(t: MergeTable, d: Seq<u8>, h: int, dist: int, n: Seq<u8>)
    requires
        t.wf(d),
        h == (mix(station_hash(n)) % 131072) as int,
        0 <= dist < 131072,
        !t.occupied((h + dist) % 131072),
        forall|dd: int| 0 <= dd < dist ==> entry_name(d, #[trigger] t.entries@[(h + dd) % 131072]) != n,
    ensures
        forall|k: int| 0 <= k < t.pairs(d).len() ==> (#[trigger] t.pairs(d)[k]).0 != n,
{
    assert forall|k: int| 0 <= k < t.pairs(d).len() implies (#[trigger] t.pairs(d)[k]).0 != n by {
        let j = t.used@[k] as int;
        assert(t.occupied(j));
        assert(t.pairs(d)[k].0 == entry_name(d, t.entries@[j]));
        if entry_name(d, t.entries@[j]) == n {
            assert(entry_home(d, t.entries@[j]) == h);
            lemma_probe_arith(h, dist, j);
            let dj = probe_dist(h, j);
            if dj < dist {
                assert(entry_name(d, t.entries@[(h + dj) % 131072]) != n);
            } else if dj > dist {
                assert(t.occupied((entry_home(d, t.entries@[j]) + dist) % 131072));
            }
        }
    }
}

/// An entry that the merge does not match with an `Agg` holds another
/// station: the same station has the same length, key words and bytes.
proof fn lemma_other_station(d: Seq<u8>, entry: Entry, agg: Agg)
    requires
        entry_ok(d, entry, u32::MAX as int),
        agg_ok(d, agg),
    ensures
        entry_name(d, entry) == agg_pair(d, agg).0 ==> entry.name_len == agg.name_len && entry.first_word
            == agg.first_word && entry.second_word == agg.second_word && same_bytes(
            d,
            entry.name_off as int,
            agg.name_off as int,
            agg.name_len + 1,
        ),
{
    let en = entry_name(d, entry);
    let n = agg_pair(d, agg).0;
    if en == n {
        assert forall|i: int| 0 <= i < agg.name_len + 1 implies #[trigger] crate::word::byte_at(d, entry.name_off + i)
            == crate::word::byte_at(d, agg.name_off + i) by {
            if i < agg.name_len {
                assert(en[i] == n[i]);
            }
        }
    }
}

/// Rotates the bits of `x` left by `n`.
pub open spec fn rotl(x: u64, n: u32) -> u64 {
    (x << n) | (x >> ((64 - n) % 64) as u32)
}

/// The checksum term of one station's statistics.
pub open spec fn station_mix(s: Stats) -> u64 {
    rotl(vstd::wrapping::u64_specs::wrapping_mul(s.sum as u64, 0x9E37_79B1_85EB_CA87u64), (s.count % 64) as u32)
}

/// The checksum term of one station, with its extremes.
pub open spec fn station_mix_full(s: Stats) -> u64 {
    station_mix(s) ^ (((s.min as u64) << 16u64) ^ ((s.max as u64) << 32u64))
}

proof fn lemma_rotl_bits(x: u64, n: u64, i: u64)
    requires
        n < 64,
        i < 64,
    ensures
        ((x << n) | (x >> (((64 - n) % 64) as u64))) >> i & 1 == x >> (((i + 64 - n) % 64) as u64) & 1,
{
    assert(((x << n) | (x >> (((64 - n) % 64) as u64))) >> i & 1 == x >> (((i + 64 - n) % 64) as u64) & 1) by (bit_vector)
        requires
            n < 64,
            i < 64,
    ;
}

/// The checksum term of a station is its sum, as a 64-bit word, times
/// `0x9E37_79B1_85EB_CA87` (wrapping), rotated left by its count modulo 64:
/// bit `i` of the term is bit `i - count` (modulo 64) of that product.
pub proof fn lemma_station_mix_rotates(s: Stats, i: u64)
    requires
        i < 64,
    ensures
        station_mix(s) >> i & 1 == vstd::wrapping::u64_specs::wrapping_mul(s.sum as u64, 0x9E37_79B1_85EB_CA87u64)
            >> (((i + 64 - s.count % 64) % 64) as u64) & 1,
{
    let w = vstd::wrapping::u64_specs::wrapping_mul(s.sum as u64, 0x9E37_79B1_85EB_CA87u64);
    let n: u64 = (s.count % 64) as u64;
    let n32: u32 = (s.count % 64) as u32;
    assert(n32 == n);
    lemma_rotl_bits(w, n, i);
    assert(station_mix(s) == (w << n32) | (w >> ((64 - n32) % 64) as u32));
    assert((w << n32) == (w << n));
    assert((w >> ((64 - n32) % 64) as u32) == (w >> (((64 - n) % 64) as u64)));
}

/// With extremes that fit in 16 bits, the term that `--no-output` adds for a
/// station is its smallest temperature, sign-extended to 64 bits, moved up
/// 16 bits, xored with its largest, sign-extended, moved up 32 bits.
pub proof fn lemma_station_mix_full_extremes(s: Stats)
    requires
        i16::MIN <= s.min <= i16::MAX,
        i16::MIN <= s.max <= i16::MAX,
    ensures
        station_mix_full(s) == station_mix(s) ^ ((((s.min as i16) as i64 as u64) << 16u64) ^ (((s.max as i16) as i64 as u64) << 32u64)),
        (station_mix_full(s) ^ station_mix(s)) & 0xFFFF == 0,
        (station_mix_full(s) ^ station_mix(s)) >> 48u64 == if (s.min < 0) == (s.max < 0) { 0u64 } else { 0xFFFFu64 },
{
    let lo: i16 = s.min as i16;
    let hi: i16 = s.max as i16;
    assert(s.min as u64 == lo as i64 as u64);
    assert(s.max as u64 == hi as i64 as u64);
    let y = ((lo as i64 as u64) << 16u64) ^ ((hi as i64 as u64) << 32u64);
    let m = station_mix(s);
    assert(station_mix_full(s) == m ^ y);
    assert((m ^ y) ^ m == y) by (bit_vector);
    assert(y & 0xFFFF == 0 && y >> 48u64 == if (lo < 0) == (hi < 0) { 0u64 } else { 0xFFFFu64 }) by (bit_vector)
        requires
            y == ((lo as i64 as u64) << 16u64) ^ ((hi as i64 as u64) << 32u64),
    ;
}

/// XOR of the checksum terms of a list of stations.
pub open spec fn checksum_of(list: Seq<(Seq<u8>, Stats)>) -> u64
    decreases list.len(),
{
    if list.len() == 0 {
        0
    } else {
        checksum_of(list.drop_last()) ^ station_mix(list.last().1)
    }
}

/// XOR of the full checksum terms (extremes included) of a list of stations.
pub open spec fn checksum_full_of(list: Seq<(Seq<u8>, Stats)>) -> u64
    decreases list.len(),
{
    if list.len() == 0 {
        0
    } else {
        checksum_full_of(list.drop_last()) ^ station_mix_full(list.last().1)
    }
}

/// `x` rotated left by `n` bits.
pub fn rotate_left_u64(x: u64, n: u32) -> (r: u64)
    requires
        n < 64,
    ensures
        r == rotl(x, n),
{
    x.wrapping_shl(n) | x.wrapping_shr(64 - n)
}

impl MergeTable {
    /// The checksum of the merged stations with their extremes.
    pub fn checksum_slots(&self, bytes: &[u8]) -> (c: u64)
        requires
            self.wf(bytes@),
        ensures
            c == checksum_full_of(self.pairs(bytes@)),
    {
        let ghost data = bytes@;
        let mut checksum: u64 = 0;
        let mut i: usize = 0;
        while i < self.used.len()
            invariant
                self.wf(data),
                i <= self.used@.len(),
                checksum == checksum_full_of(self.pairs(data).subrange(0, i as int)),
            decreases self.used@.len() - i,
        {
            let idx = self.used[i];
            let e = self.entries[idx as usize];
            proof {
                assert(self.occupied(idx as int));
            }
            proof {
                lemma_low_six(e.count);
            }
            let m = rotate_left_u64((e.sum as u64).wrapping_mul(0x9E37_79B1_85EB_CA87), e.count & 63);
            let ghost before = checksum;
            checksum ^= m;
            checksum ^= (e.min as u64).wrapping_shl(16) ^ (e.max as u64).wrapping_shl(32);
            proof {
                let p = self.pairs(data);
                assert(p.subrange(0, i + 1).drop_last() =~= p.subrange(0, i as int));
                assert(p.subrange(0, i + 1).last() == p[i as int]);
                lemma_low_six(e.count);
                let x = station_mix(p[i as int].1);
                let y = ((e.min as u64) << 16u64) ^ ((e.max as u64) << 32u64);
                lemma_xor_laws(before, x, y);
            }
            i += 1;
        }
        proof {
            assert(self.pairs(data).subrange(0, self.used@.len() as int) =~= self.pairs(data));
        }
        checksum
    }

    /// The merged stations as `Agg`s, in the order their slots were filled.
    pub fn merged_aggs(&self, bytes: &[u8]) -> (r: Vec<Agg>)
        requires
            self.wf(bytes@),
        ensures
            agg_pairs(bytes@, r@) == self.pairs(bytes@),
            forall|i: int| 0 <= i < r@.len() ==> entry_ok(bytes@, agg_entry(#[trigger] r@[i]), u32::MAX as int),
            forall|k: int| 0 <= k < r@.len() ==> (#[trigger] r@[k]).count > 0,
    {
        let ghost data = bytes@;
        let mut out: Vec<Agg> = Vec::with_capacity(self.used.len());
        let mut i: usize = 0;
        while i < self.used.len()
            invariant
                self.wf(data),
                i <= self.used@.len(),
                agg_pairs(data, out@) == self.pairs(data).subrange(0, i as int),
                forall|k: int| 0 <= k < out@.len() ==> #[trigger] entry_ok(data, agg_entry(out@[k]), u32::MAX as int) && out@[k].count > 0,
            decreases self.used@.len() - i,
        {
            let idx = self.used[i];
            let e = self.entries[idx as usize];
            proof {
                assert(self.occupied(idx as int));
            }
            if e.name_len == 0 {
                i += 1;
                continue;
            }
            let a = Agg {
                hash: 0,
                first_word: e.first_word,
                second_word: e.second_word,
                name_off: e.name_off,
                name_len: e.name_len,
                min: e.min,
                max: e.max,
                sum: e.sum,
                count: e.count,
            };
            let ghost out0 = out@;
            out.push(a);
            proof {
                assert(agg_entry(a) == e);
                assert(entry_ok(data, agg_entry(a), u32::MAX as int) && a.count > 0);
                assert forall|k: int| 0 <= k < out@.len() implies #[trigger] entry_ok(data, agg_entry(out@[k]), u32::MAX as int) && out@[k].count > 0 by {
                    if k < out0.len() {
                        assert(out@[k] == out0[k]);
                    }
                }
                assert(self.pairs(data)[i as int] == agg_pair(data, a));
                assert(agg_pairs(data, out@) =~= agg_pairs(data, out0).push(agg_pair(data, a)));
                assert(self.pairs(data).subrange(0, i + 1) =~= self.pairs(data).subrange(0, i as int).push(self.pairs(data)[i as int]));
            }
            i += 1;
        }
        proof {
            assert(self.pairs(data).subrange(0, self.used@.len() as int) =~= self.pairs(data));
            assert forall|k: int| 0 <= k < out@.len() implies (#[trigger] out@[k]).count > 0 by {
                assert(entry_ok(data, agg_entry(out@[k]), u32::MAX as int) && out@[k].count > 0);
            }
        }
        out
    }
}

/// Every `Agg` of every list names a station of the data.
pub open spec fn lists_ok(data: Seq<u8>, lists: Seq<Vec<Agg>>) -> bool {
    forall|i: int, k: int| 0 <= i < lists.len() && 0 <= k < lists[i]@.len() ==> #[trigger] agg_ok(data, lists[i]@[k])
}

proof fn lemma_agg_pairs_seen(data: Seq<u8>, list: Seq<Agg>)
    requires
        forall|k: int| 0 <= k < list.len() ==> #[trigger] agg_ok(data, list[k]),
    ensures
        parts_seen(agg_pairs(data, list)),
{
    assert forall|k: int| 0 <= k < agg_pairs(data, list).len() implies (#[trigger] agg_pairs(data, list)[k]).1.count > 0 by {
        assert(agg_ok(data, list[k]));
    }
}

proof fn lemma_all_pairs_seen(data: Seq<u8>, lists: Seq<Vec<Agg>>)
    requires
        lists_ok(data, lists),
    ensures
        parts_seen(all_pairs(data, lists)),
        all_pairs(data, lists).len() == agg_count(lists),
    decreases lists.len(),
{
    if lists.len() > 0 {
        let l = lists.drop_last();
        assert(lists_ok(data, l)) by {
            assert forall|i: int, k: int| 0 <= i < l.len() && 0 <= k < l[i]@.len() implies #[trigger] agg_ok(data, l[i]@[k]) by {
                assert(l[i] == lists[i]);
            }
        }
        lemma_all_pairs_seen(data, l);
        assert forall|k: int| 0 <= k < lists.last()@.len() implies #[trigger] agg_ok(data, lists.last()@[k]) by {
            assert(lists.last() == lists[lists.len() - 1]);
        }
        lemma_agg_pairs_seen(data, lists.last()@);
    }
}

/// The count of a station in a prefix is at most its count in the whole.
proof fn lemma_prefix_count(a: Seq<(Seq<u8>, Stats)>, b: Seq<(Seq<u8>, Stats)>, n: Seq<u8>)
    requires
        parts_seen(a),
        parts_seen(b),
    ensures
        stats_of(stats_total(a), n).count <= stats_of(stats_total(a + b), n).count,
{
    lemma_total_append(a, b);
    lemma_total_seen(a);
    lemma_total_seen(b);
}

/// Merges the station lists of all workers, list after list; `None` when an
/// `Agg` finds every slot holding another station.
pub fn merge_lists(data: &[u8], lists: &Vec<Vec<Agg>>) -> (r: Option<MergeTable>)
    requires
        data_fits(data@),
        lists_ok(data@, lists@),
        counts_at_most(stats_total(all_pairs(data@, lists@)), u32::MAX as int),
    ensures
        r is Some <==> stats_total(all_pairs(data@, lists@)).dom().len() <= 131072,
        r matches Some(t) ==> {
            &&& t.wf(data@)
            &&& stats_total(t.pairs(data@)) == stats_total(all_pairs(data@, lists@))
            &&& t.len_spec() <= agg_count(lists@)
            &&& names_distinct(t.pairs(data@))
            &&& names_distinct(all_pairs(data@, lists@)) ==> t.pairs(data@) == all_pairs(data@, lists@)
        },
{
    let ghost d = data@;
    let ghost whole = all_pairs(d, lists@);
    let mut t = MergeTable::new();
    proof {
        assert(t.wf(d));
        assert(t.used@.len() == 0);
        assert(t.pairs(d) =~= Seq::<(Seq<u8>, Stats)>::empty());
        lemma_all_pairs_seen(d, lists@);
        assert(lists@.subrange(0, 0) =~= Seq::<Vec<Agg>>::empty());
        assert(all_pairs(d, lists@.subrange(0, 0)) =~= Seq::<(Seq<u8>, Stats)>::empty());
    }
    let mut i: usize = 0;
    while i < lists.len()
        invariant
            d == data@,
            data_fits(d),
            lists_ok(d, lists@),
            whole == all_pairs(d, lists@),
            parts_seen(whole),
            whole.len() == agg_count(lists@),
            counts_at_most(stats_total(whole), u32::MAX as int),
            0 <= i <= lists@.len(),
            t.wf(d),
            stats_total(t.pairs(d)) == stats_total(all_pairs(d, lists@.subrange(0, i as int))),
            t.len_spec() <= all_pairs(d, lists@.subrange(0, i as int)).len(),
            all_pairs(d, lists@.subrange(0, i as int)).len() == agg_count(lists@.subrange(0, i as int)),
            whole.subrange(0, all_pairs(d, lists@.subrange(0, i as int)).len() as int) == all_pairs(d, lists@.subrange(0, i as int)),
            names_distinct(whole) ==> t.pairs(d) == all_pairs(d, lists@.subrange(0, i as int)),
            names_distinct(t.pairs(d)),
        decreases lists@.len() - i,
    {
        let list = &lists[i];
        let ghost pre = all_pairs(d, lists@.subrange(0, i as int));
        proof {
            assert(lists@.subrange(0, i + 1).drop_last() =~= lists@.subrange(0, i as int));
            assert(lists@.subrange(0, i + 1).last() == lists@[i as int]);
            assert(all_pairs(d, lists@.subrange(0, i + 1)) == pre + agg_pairs(d, list@));
            lemma_all_pairs_prefix(d, lists@, i as int + 1);
        }
        let mut j: usize = 0;
        while j < list.len()
            invariant
                d == data@,
                data_fits(d),
                lists_ok(d, lists@),
                whole == all_pairs(d, lists@),
                parts_seen(whole),
                whole.len() == agg_count(lists@),
                counts_at_most(stats_total(whole), u32::MAX as int),
                0 <= i < lists@.len(),
                *list == lists@[i as int],
                0 <= j <= list@.len(),
                t.wf(d),
                pre == all_pairs(d, lists@.subrange(0, i as int)),
                stats_total(t.pairs(d)) == stats_total(pre + agg_pairs(d, list@).subrange(0, j as int)),
                t.len_spec() <= pre.len() + j,
                whole.subrange(0, (pre.len() + list@.len()) as int) == pre + agg_pairs(d, list@),
                pre.len() + list@.len() <= whole.len(),
                names_distinct(whole) ==> t.pairs(d) == pre + agg_pairs(d, list@).subrange(0, j as int),
                names_distinct(t.pairs(d)),
            decreases list@.len() - j,
        {
            let agg = &list[j];
            let ghost cur = pre + agg_pairs(d, list@).subrange(0, j as int);
            let ghost nxt = pre + agg_pairs(d, list@).subrange(0, j as int + 1);
            proof {
                assert(agg_ok(d, lists@[i as int]@[j as int]));
                assert(nxt =~= cur.push(agg_pair(d, *agg)));
                let big = pre + agg_pairs(d, list@);
                assert forall|k: int| 0 <= k < nxt.len() implies #[trigger] nxt[k] == whole[k] by {
                    assert(nxt[k] == big[k]);
                    assert(whole.subrange(0, (pre.len() + list@.len()) as int)[k] == whole[k]);
                }
                assert(whole =~= nxt + whole.subrange(nxt.len() as int, whole.len() as int));
                assert(parts_seen(nxt) && parts_seen(cur)) by {
                    assert forall|k: int| 0 <= k < nxt.len() implies (#[trigger] nxt[k]).1.count > 0 by {
                        assert(nxt[k] == whole[k]);
                    }
                    assert forall|k: int| 0 <= k < cur.len() implies (#[trigger] cur[k]).1.count > 0 by {
                        assert(cur[k] == nxt[k]);
                    }
                }
                assert(parts_seen(whole.subrange(nxt.len() as int, whole.len() as int)));
                lemma_prefix_count(nxt, whole.subrange(nxt.len() as int, whole.len() as int), agg_pair(d, *agg).0);
                lemma_total_seen(cur);
                lemma_total_seen(whole);
                lemma_combine_dom(stats_total(cur), single(agg_pair(d, *agg).0, agg_pair(d, *agg).1));
                assert(stats_total(nxt) == combine(stats_total(cur), single(agg_pair(d, *agg).0, agg_pair(d, *agg).1))) by {
                    assert(nxt.drop_last() =~= cur);
                }
                assert(stats_total(whole).dom().contains(agg_pair(d, *agg).0)) by {
                    lemma_total_append(nxt, whole.subrange(nxt.len() as int, whole.len() as int));
                    lemma_combine_dom(stats_total(nxt), stats_total(whole.subrange(nxt.len() as int, whole.len() as int)));
                }
            }
            let ghost tp = t.pairs(d);
            let ghost t_before = t;
            if !t.merge_agg(data, agg) {
                proof {
                    let n = agg_pair(d, *agg).0;
                    let rest = whole.subrange(cur.len() as int, whole.len() as int);
                    t_before.lemma_pairs_seen(d);
                    crate::listing::lemma_listing_len(tp, stats_total(tp));
                    crate::listing::lemma_distinct_total(tp);
                    assert(!stats_total(tp).dom().contains(n));
                    assert(whole =~= cur + rest);
                    assert(parts_seen(rest)) by {
                        assert forall|k: int| 0 <= k < rest.len() implies (#[trigger] rest[k]).1.count > 0 by {
                            assert(rest[k] == whole[cur.len() + k]);
                        }
                    }
                    lemma_total_append(cur, rest);
                    lemma_combine_dom(stats_total(cur), stats_total(rest));
                    vstd::set_lib::lemma_len_subset(stats_total(cur).dom().insert(n), stats_total(whole).dom());
                }
                return None;
            }
            proof {
                assert(agg_pairs(d, list@).subrange(0, j as int + 1) =~= agg_pairs(d, list@).subrange(0, j as int).push(agg_pair(d, *agg)));
                if names_distinct(whole) {
                    assert(nxt[cur.len() as int] == agg_pair(d, *agg));
                    if t.pairs(d) != tp.push(agg_pair(d, *agg)) {
                        let k = choose|k: int| 0 <= k < tp.len() && (#[trigger] tp[k]).0 == agg_pair(d, *agg).0;
                        assert(tp[k] == cur[k]);
                        assert(cur[k] == whole[k]);
                        assert(whole[cur.len() as int] == agg_pair(d, *agg));
                        assert(false);
                    }
                    assert(t.pairs(d) =~= nxt);
                }
            }
            j += 1;
        }
        proof {
            assert(agg_pairs(d, list@).subrange(0, list@.len() as int) =~= agg_pairs(d, list@));
        }
        i += 1;
    }
    proof {
        assert(lists@.subrange(0, lists@.len() as int) =~= lists@);
        t.lemma_pairs_seen(d);
        t.lemma_len_at_most_slots(d);
        crate::listing::lemma_listing_len(t.pairs(d), stats_total(t.pairs(d)));
    }
    Some(t)
}

/// The pairs of the first `i` lists are a prefix of all pairs.
proof fn lemma_all_pairs_prefix(data: Seq<u8>, lists: Seq<Vec<Agg>>, i: int)
    requires
        0 <= i <= lists.len(),
    ensures
        all_pairs(data, lists).subrange(0, all_pairs(data, lists.subrange(0, i)).len() as int) == all_pairs(data, lists.subrange(0, i)),
        all_pairs(data, lists.subrange(0, i)).len() <= all_pairs(data, lists).len(),
        all_pairs(data, lists.subrange(0, i)).len() == agg_count(lists.subrange(0, i)),
    decreases lists.len() - i,
{
    if i == lists.len() {
        assert(lists.subrange(0, i) =~= lists);
        lemma_all_pairs_len(data, lists);
    } else {
        lemma_all_pairs_prefix(data, lists, i + 1);
        let a = all_pairs(data, lists.subrange(0, i));
        assert(lists.subrange(0, i + 1).drop_last() =~= lists.subrange(0, i));
        assert(all_pairs(data, lists.subrange(0, i + 1)) == a + agg_pairs(data, lists[i]@));
        lemma_all_pairs_len(data, lists.subrange(0, i));
        let w = all_pairs(data, lists);
        let b = all_pairs(data, lists.subrange(0, i + 1));
        assert(w.subrange(0, a.len() as int) =~= b.subrange(0, a.len() as int));
        assert(b.subrange(0, a.len() as int) =~= a);
    }
}

proof fn lemma_all_pairs_len(data: Seq<u8>, lists: Seq<Vec<Agg>>)
    ensures
        all_pairs(data, lists).len() == agg_count(lists),
    decreases lists.len(),
{
    if lists.len() > 0 {
        lemma_all_pairs_len(data, lists.drop_last());
    }
}

proof fn lemma_pairs_seen_ext(t: MergeTable, data: Seq<u8>)
    requires
        t.wf(data),
    ensures
        parts_seen(t.pairs(data)),
        t.pairs(data).len() == t.len_spec(),
{
    t.lemma_pairs_seen(data);
}

/// One part's count is at most its station's total count.
pub proof fn lemma_part_le_total(list: Seq<(Seq<u8>, Stats)>, k: int)
    requires
        parts_seen(list),
        0 <= k < list.len(),
    ensures
        stats_total(list).dom().contains(list[k].0),
        list[k].1.count <= stats_total(list)[list[k].0].count,
    decreases list.len(),
{
    let last = list.len() - 1;
    assert(parts_seen(list.drop_last()));
    if k < last {
        lemma_part_le_total(list.drop_last(), k);
    }
    assert(list.last() == list[last]);
}

/// The parts of two runs of lists, one after the other, are the parts of
/// each run.
proof fn lemma_all_pairs_append(data: Seq<u8>, a: Seq<Vec<Agg>>, b: Seq<Vec<Agg>>)
    ensures
        all_pairs(data, a + b) == all_pairs(data, a) + all_pairs(data, b),
    decreases b.len(),
{
    if b.len() == 0 {
        assert(a + b =~= a);
        assert(all_pairs(data, a) + all_pairs(data, b) =~= all_pairs(data, a));
    } else {
        lemma_all_pairs_append(data, a, b.drop_last());
        assert((a + b).drop_last() =~= a + b.drop_last());
        assert((a + b).last() == b.last());
        assert(all_pairs(data, a) + all_pairs(data, b) =~= all_pairs(data, a) + all_pairs(data, b.drop_last())
            + agg_pairs(data, b.last()@));
    }
}

/// The totals the merge reaches do not depend on the order in which the
/// workers' lists come: merging `a` then `b` totals as `b` then `a`.
pub proof fn lemma_merge_order(data: Seq<u8>, a: Seq<Vec<Agg>>, b: Seq<Vec<Agg>>)
    requires
        lists_ok(data, a),
        lists_ok(data, b),
    ensures
        stats_total(all_pairs(data, a + b)) == stats_total(all_pairs(data, b + a)),
{
    lemma_all_pairs_seen(data, a);
    lemma_all_pairs_seen(data, b);
    lemma_all_pairs_append(data, a, b);
    lemma_all_pairs_append(data, b, a);
    lemma_total_append(all_pairs(data, a), all_pairs(data, b));
    lemma_total_append(all_pairs(data, b), all_pairs(data, a));
    lemma_total_seen(all_pairs(data, a));
    lemma_total_seen(all_pairs(data, b));
    crate::stats::lemma_combine_commutative(stats_total(all_pairs(data, a)), stats_total(all_pairs(data, b)));
}

/// The totals of all the lists' parts are the totals of each list, taken
/// together list after list.
pub proof fn lemma_all_pairs_total(data: Seq<u8>, lists: Seq<Vec<Agg>>)
    requires
        lists_ok(data, lists),
    ensures
        stats_total(all_pairs(data, lists)) == crate::stats::combine_all(
            lists.map_values(|l: Vec<Agg>| stats_total(agg_pairs(data, l@))),
        ),
    decreases lists.len(),
{
    let per = lists.map_values(|l: Vec<Agg>| stats_total(agg_pairs(data, l@)));
    if lists.len() == 0 {
        assert(per =~= Seq::<Map<Seq<u8>, Stats>>::empty());
    } else {
        let l0 = lists.drop_last();
        assert(lists_ok(data, l0)) by {
            assert forall|i: int, k: int| 0 <= i < l0.len() && 0 <= k < l0[i]@.len() implies #[trigger] agg_ok(data, l0[i]@[k]) by {
                assert(l0[i] == lists[i]);
            }
        }
        lemma_all_pairs_total(data, l0);
        lemma_all_pairs_seen(data, l0);
        assert forall|k: int| 0 <= k < lists.last()@.len() implies #[trigger] agg_ok(data, lists.last()@[k]) by {
            assert(lists.last() == lists[lists.len() - 1]);
        }
        lemma_agg_pairs_seen(data, lists.last()@);
        lemma_total_append(all_pairs(data, l0), agg_pairs(data, lists.last()@));
        assert(per.drop_last() =~= l0.map_values(|l: Vec<Agg>| stats_total(agg_pairs(data, l@))));
    }
}

} // verus!
