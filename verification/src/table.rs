//! The per-worker station table: open addressing with linear probing over
//! `HASH_TABLE_SIZE` slots, each slot naming its station by an offset into
//! the data.

use vstd::prelude::*;
use crate::word::{lemma_xor_laws, data_fits, word_at, byte_at, byte_of, load_u64, low_mask, first_match, find_delim, lemma_word_at_bytes, lemma_word_eq_by_bytes, lemma_mask_bytes, lemma_first_match_bound};
use crate::key::{key_of, key_first, key_second, key_hash, tail_hash, mix, hash_to_index_sized, station_hash, hash_from_parts};
use crate::stats::{names_distinct, Stats, observe, empty_stats, stats_of, add_obs, combine, all_seen, stats_total, single};
use crate::input::{name_end, line_ok, line_name, lines, lemma_name_end};
use crate::number::{temp_word_ok, temp_dot_index, temp_word_value, convert_into_number, lemma_dot_position};

verus! {

/// Slots of a station table.
pub const HASH_TABLE_SIZE: usize = 131072;

/// Distance between two slots probed one after the other.
pub const PROBE_STEP: usize = 1;

/// One slot of a station table; `name_len == 0` marks an empty slot.
#[derive(Clone, Copy)]
pub struct Entry {
    pub first_word: u64,
    pub second_word: u64,
    pub sum: i64,
    pub name_off: usize,
    pub count: u32,
    pub min: i16,
    pub max: i16,
    pub name_len: u16,
}

/// An empty slot.
pub open spec fn zero_entry() -> Entry {
    Entry {
        first_word: 0,
        second_word: 0,
        sum: 0,
        name_off: 0,
        count: 0,
        min: 0,
        max: 0,
        name_len: 0,
    }
}

impl Default for Entry {
    fn default() -> (e: Self)
        ensures
            e == zero_entry(),
    {
        Entry {
            first_word: 0,
            second_word: 0,
            sum: 0,
            name_off: 0,
            count: 0,
            min: 0,
            max: 0,
            name_len: 0,
        }
    }
}

/// The name an entry points at in the data.
pub open spec fn entry_name(data: Seq<u8>, e: Entry) -> Seq<u8> {
    data.subrange(e.name_off as int, e.name_off + e.name_len)
}

/// The statistics an entry holds.
pub open spec fn entry_stats(e: Entry) -> Stats {
    Stats { min: e.min as int, max: e.max as int, sum: e.sum as int, count: e.count as nat }
}

/// Statistics of at most `limit` temperatures, each within -99.9..99.9.
pub open spec fn stats_bounded(s: Stats, limit: int) -> bool {
    &&& s.count <= limit
    &&& s.count > 0 ==> -999 <= s.min <= s.max <= 999 && -999 * s.count <= s.sum <= 999 * s.count
}

/// An entry names a station of the data: a nonempty name followed by `;`,
/// whose key words it keeps.
pub open spec fn entry_ok(data: Seq<u8>, e: Entry, limit: int) -> bool {
    let off = e.name_off as int;
    let len = e.name_len as int;
    &&& len >= 1
    &&& off + len < data.len()
    &&& data[off + len] == 59
    &&& forall|i: int| off <= i < off + len ==> data[i] != 59
    &&& e.first_word == key_first(key_of(entry_name(data, e)))
    &&& e.second_word == key_second(key_of(entry_name(data, e)))
    &&& stats_bounded(entry_stats(e), limit)
}

/// Slot at which probing for a key starts.
pub open spec fn home(k: Seq<u8>) -> int {
    (mix(key_hash(k)) % 131072) as int
}

/// How many steps probing takes from slot `h` to slot `j`.
pub open spec fn probe_dist(h: int, j: int) -> int {
    (j - h + 131072) % 131072
}

/// Adds one temperature (in tenths) to an entry: its extremes keep the
/// temperature as an `i16`, its sum and count take it in.
pub fn record(entry: &mut Entry, number: i32)
    requires
        old(entry).count < u32::MAX,
        old(entry).count != 0 ==> i64::MIN <= old(entry).sum + number <= i64::MAX,
    ensures
        old(entry).count == 0 ==> final(entry).min == number as i16 && final(entry).max == number as i16
            && final(entry).sum == number && final(entry).count == 1,
        old(entry).count != 0 ==> final(entry).min == (if (number as i16) < old(entry).min { number as i16 } else { old(entry).min })
            && final(entry).max == (if (number as i16) > old(entry).max { number as i16 } else { old(entry).max })
            && final(entry).sum == old(entry).sum + number && final(entry).count == old(entry).count + 1,
        -999 <= number <= 999 ==> entry_stats(*final(entry)) == observe(entry_stats(*old(entry)), number as int),
        final(entry).first_word == old(entry).first_word,
        final(entry).second_word == old(entry).second_word,
        final(entry).name_off == old(entry).name_off,
        final(entry).name_len == old(entry).name_len,
{
    let num = number as i16;
    if entry.count == 0 {
        entry.min = num;
        entry.max = num;
        entry.sum = number as i64;
        entry.count = 1;
        return ;
    }
    if num < entry.min {
        entry.min = num;
    }
    if num > entry.max {
        entry.max = num;
    }
    entry.sum += number as i64;
    entry.count += 1;
}

/// A station table: slots, the list of occupied slots in the order they were
/// filled, and how many lines of input it has taken in (a count kept for the
/// proofs only, which bounds every station's count).
pub struct StationTable {
    entries: Vec<Entry>,
    used: Vec<u32>,
    consumed: Ghost<nat>,
}

impl StationTable {
    /// Slot `j` holds a station.
    pub closed spec fn occupied(self, j: int) -> bool {
        self.entries@[j].name_len != 0
    }

    /// Slot `j` holds the station `n`.
    pub closed spec fn holds(self, data: Seq<u8>, j: int, n: Seq<u8>) -> bool {
        &&& 0 <= j < 131072
        &&& self.occupied(j)
        &&& entry_name(data, self.entries@[j]) == n
    }

    /// The content of slot `j`.
    pub closed spec fn entry(self, j: int) -> Entry {
        self.entries@[j]
    }

    /// The stations of the table with their statistics, in the order their
    /// slots were filled.
    pub closed spec fn stations(self, data: Seq<u8>) -> Seq<(Seq<u8>, Stats)> {
        self.used@.map_values(|j: u32| (entry_name(data, self.entries@[j as int]), entry_stats(self.entries@[j as int])))
    }

    /// Lines of input taken in so far.
    pub closed spec fn consumed_spec(self) -> nat {
        self.consumed@
    }

    /// Number of stations in the table.
    pub closed spec fn len_spec(self) -> nat {
        self.used@.len()
    }

    /// The statistics of every station in the table.
    pub closed spec fn view(self, data: Seq<u8>) -> Map<Seq<u8>, Stats> {
        Map::new(
            |n: Seq<u8>| exists|j: int| self.holds(data, j, n),
            |n: Seq<u8>| entry_stats(self.entries@[choose|j: int| self.holds(data, j, n)]),
        )
    }

    /// The table is consistent with the data it was filled from.
    pub closed spec fn wf(self, data: Seq<u8>) -> bool {
        &&& data_fits(data)
        &&& self.entries@.len() == 131072
        &&& self.consumed@ <= u32::MAX
        &&& self.used@.no_duplicates()
        &&& forall|i: int| 0 <= i < self.used@.len() ==> #[trigger] self.used@[i] < 131072
            && self.occupied(self.used@[i] as int)
        &&& forall|j: int| 0 <= j < 131072 && #[trigger] self.occupied(j) ==> self.used@.contains(
            j as u32,
        )
        &&& forall|j: int|
            0 <= j < 131072 && #[trigger] self.occupied(j) ==> entry_ok(
                data,
                self.entries@[j],
                self.consumed@ as int,
            )
        &&& forall|j1: int, j2: int|
            #![trigger self.occupied(j1), self.occupied(j2)]
            0 <= j1 < 131072 && 0 <= j2 < 131072 && self.occupied(j1) && self.occupied(j2)
                && entry_name(data, self.entries@[j1]) == entry_name(data, self.entries@[j2]) ==> j1
                == j2
        &&& forall|j: int, d: int|
            #![trigger self.occupied(j), self.occupied((home(key_of(entry_name(data, self.entries@[j]))) + d) % 131072)]
            0 <= j < 131072 && self.occupied(j) && 0 <= d < probe_dist(
                home(key_of(entry_name(data, self.entries@[j]))),
                j,
            ) ==> self.occupied((home(key_of(entry_name(data, self.entries@[j]))) + d) % 131072)
    }

    /// An empty table.
    pub fn new() -> (t: Self)
        ensures
            forall|data: Seq<u8>| data_fits(data) ==> #[trigger] t.wf(data),
            forall|data: Seq<u8>| #[trigger] t.view(data) == Map::<Seq<u8>, Stats>::empty(),
            t.consumed_spec() == 0,
            t.len_spec() == 0,
    {
        let mut entries: Vec<Entry> = Vec::new();
        let mut i: usize = 0;
        while i < HASH_TABLE_SIZE
            invariant
                i <= HASH_TABLE_SIZE,
                entries@.len() == i,
                forall|j: int| 0 <= j < i ==> #[trigger] entries@[j] == zero_entry(),
            decreases HASH_TABLE_SIZE - i,
        {
            entries.push(Entry::default());
            i += 1;
        }
        let t = StationTable { entries, used: Vec::new(), consumed: Ghost(0) };
        assert forall|data: Seq<u8>| #[trigger] t.view(data) == Map::<Seq<u8>, Stats>::empty() by {
            assert(t.view(data) =~= Map::<Seq<u8>, Stats>::empty());
        }
        t
    }

    /// Number of stations in the table.
    pub fn len(&self) -> (r: usize)
        ensures
            r == self.len_spec(),
    {
        self.used.len()
    }

    /// A station held in slot `j` is in the view with that slot's statistics.
    proof fn lemma_view_at(self, data: Seq<u8>, j: int)
        requires
            self.wf(data),
            0 <= j < 131072,
            self.occupied(j),
        ensures
            self.view(data).dom().contains(entry_name(data, self.entries@[j])),
            self.view(data)[entry_name(data, self.entries@[j])] == entry_stats(self.entries@[j]),
    {
        let n = entry_name(data, self.entries@[j]);
        assert(self.holds(data, j, n));
        let c = choose|c: int| self.holds(data, c, n);
        assert(self.occupied(c) && self.occupied(j));
        assert(c == j);
    }

    /// With an empty slot, there are fewer stations than slots.
    proof fn lemma_room_if_empty_slot(self, data: Seq<u8>, e: int)
        requires
            self.wf(data),
            0 <= e < 131072,
            !self.occupied(e),
        ensures
            self.used@.len() < 131072,
    {
        let slots = self.used@.map_values(|x: u32| x as int);
        let range = vstd::set_lib::set_int_range(0, 131072).remove(e);
        vstd::set_lib::lemma_int_range(0, 131072);
        assert forall|a: int, b: int| 0 <= a < slots.len() && 0 <= b < slots.len() && a != b implies slots[a] != slots[b] by {
            assert(self.used@[a] != self.used@[b]);
        }
        assert(slots.no_duplicates());
        slots.unique_seq_to_set();
        assert forall|x: int| slots.to_set().contains(x) implies range.contains(x) by {
            let i = choose|i: int| 0 <= i < slots.len() && slots[i] == x;
            assert(self.occupied(self.used@[i] as int));
        }
        vstd::set_lib::lemma_len_subset(slots.to_set(), range);
    }

    /// The stations of a table, in fill order, are its view's stations, each
    /// once, with their statistics.
    pub proof fn lemma_stations(self, data: Seq<u8>)
        requires
            self.wf(data),
        ensures
            names_distinct(self.stations(data)),
            self.stations(data).len() == self.view(data).dom().len(),
            forall|k: int| 0 <= k < self.stations(data).len() ==> self.view(data).dom().contains(
                #[trigger] self.stations(data)[k].0,
            ) && self.view(data)[self.stations(data)[k].0] == self.stations(data)[k].1,
    {
        self.lemma_view_dom(data);
        let st = self.stations(data);
        assert forall|a: int, b: int| 0 <= a < st.len() && 0 <= b < st.len() && a != b implies #[trigger] st[a].0
            != #[trigger] st[b].0 by {
            assert(self.occupied(self.used@[a] as int) && self.occupied(self.used@[b] as int));
        }
        assert forall|k: int| 0 <= k < st.len() implies self.view(data).dom().contains(#[trigger] st[k].0)
            && self.view(data)[st[k].0] == st[k].1 by {
            assert(self.occupied(self.used@[k] as int));
            self.lemma_view_at(data, self.used@[k] as int);
        }
    }

    /// A table never lists more stations than it has slots.
    pub proof fn lemma_len_at_most_slots(self, data: Seq<u8>)
        requires
            self.wf(data),
        ensures
            self.len_spec() <= 131072,
    {
        let slots = self.used@.map_values(|x: u32| x as int);
        let range = vstd::set_lib::set_int_range(0, 131072);
        vstd::set_lib::lemma_int_range(0, 131072);
        assert forall|a: int, b: int| 0 <= a < slots.len() && 0 <= b < slots.len() && a != b implies slots[a] != slots[b] by {
            assert(self.used@[a] != self.used@[b]);
        }
        assert(slots.no_duplicates());
        slots.unique_seq_to_set();
        assert forall|x: int| slots.to_set().contains(x) implies range.contains(x) by {
            let i = choose|i: int| 0 <= i < slots.len() && slots[i] == x;
            assert(self.used@[i] < 131072);
        }
        vstd::set_lib::lemma_len_subset(slots.to_set(), range);
    }

    /// With fewer stations than slots, some slot is empty.
    proof fn lemma_has_empty_slot(self, data: Seq<u8>) -> (e: int)
        requires
            self.wf(data),
            self.used@.len() < 131072,
        ensures
            0 <= e < 131072,
            !self.occupied(e),
    {
        if forall|j: int| 0 <= j < 131072 ==> #[trigger] self.occupied(j) {
            let full = vstd::set_lib::set_int_range(0, 131072);
            let seen = self.used@.map_values(|x: u32| x as int).to_set();
            vstd::set_lib::lemma_int_range(0, 131072);
            assert forall|j: int| full.contains(j) implies seen.contains(j) by {
                assert(self.occupied(j));
                assert(self.used@.contains(j as u32));
                let i = choose|i: int| 0 <= i < self.used@.len() && self.used@[i] == j as u32;
                assert(self.used@.map_values(|x: u32| x as int)[i] == j);
            }
            self.used@.map_values(|x: u32| x as int).lemma_cardinality_of_set();
            vstd::set_lib::lemma_len_subset(full, seen);
            assert(false);
            0
        } else {
            choose|j: int| 0 <= j < 131072 && !self.occupied(j)
        }
    }
}

/// The `rem` low bytes of two words agree exactly when their difference,
/// shifted to drop the other bytes, is zero.
proof fn lemma_low_bytes_eq(wa: u64, wb: u64, rem: u64)
    requires
        1 <= rem <= 7,
    ensures
        ((wa ^ wb) << ((64 - rem * 8) as u64)) == 0 <==> forall|k: u64|
            k < rem ==> #[trigger] byte_of(wa, k) == byte_of(wb, k),
{
    lemma_low_bytes_cases(wa, wb);
    if rem == 1 {
        assert(((wa ^ wb) << 56u64) == 0 <==> byte_of(wa, 0) == byte_of(wb, 0));
    } else if rem == 2 {
        assert(((wa ^ wb) << 48u64) == 0 <==> byte_of(wa, 0) == byte_of(wb, 0) && byte_of(wa, 1) == byte_of(wb, 1));
    } else if rem == 3 {
        assert(((wa ^ wb) << 40u64) == 0 <==> byte_of(wa, 0) == byte_of(wb, 0) && byte_of(wa, 1) == byte_of(wb, 1) && byte_of(wa, 2) == byte_of(wb, 2));
    } else if rem == 4 {
        assert(((wa ^ wb) << 32u64) == 0 <==> byte_of(wa, 0) == byte_of(wb, 0) && byte_of(wa, 1) == byte_of(wb, 1) && byte_of(wa, 2) == byte_of(wb, 2) && byte_of(wa, 3) == byte_of(wb, 3));
    } else if rem == 5 {
        assert(((wa ^ wb) << 24u64) == 0 <==> byte_of(wa, 0) == byte_of(wb, 0) && byte_of(wa, 1) == byte_of(wb, 1) && byte_of(wa, 2) == byte_of(wb, 2) && byte_of(wa, 3) == byte_of(wb, 3) && byte_of(wa, 4) == byte_of(wb, 4));
    } else if rem == 6 {
        assert(((wa ^ wb) << 16u64) == 0 <==> byte_of(wa, 0) == byte_of(wb, 0) && byte_of(wa, 1) == byte_of(wb, 1) && byte_of(wa, 2) == byte_of(wb, 2) && byte_of(wa, 3) == byte_of(wb, 3) && byte_of(wa, 4) == byte_of(wb, 4) && byte_of(wa, 5) == byte_of(wb, 5));
    } else if rem == 7 {
        assert(((wa ^ wb) << 8u64) == 0 <==> byte_of(wa, 0) == byte_of(wb, 0) && byte_of(wa, 1) == byte_of(wb, 1) && byte_of(wa, 2) == byte_of(wb, 2) && byte_of(wa, 3) == byte_of(wb, 3) && byte_of(wa, 4) == byte_of(wb, 4) && byte_of(wa, 5) == byte_of(wb, 5) && byte_of(wa, 6) == byte_of(wb, 6));
    }
}

/// The low bytes of two words agree exactly when their difference, shifted
/// to drop the other bytes, is zero.
proof fn lemma_low_bytes_cases(wa: u64, wb: u64)
    by (bit_vector)
    ensures
        ((wa ^ wb) << 56u64) == 0 <==> byte_of(wa, 0) == byte_of(wb, 0),
        ((wa ^ wb) << 48u64) == 0 <==> byte_of(wa, 0) == byte_of(wb, 0) && byte_of(wa, 1) == byte_of(wb, 1),
        ((wa ^ wb) << 40u64) == 0 <==> byte_of(wa, 0) == byte_of(wb, 0) && byte_of(wa, 1) == byte_of(wb, 1) && byte_of(wa, 2) == byte_of(wb, 2),
        ((wa ^ wb) << 32u64) == 0 <==> byte_of(wa, 0) == byte_of(wb, 0) && byte_of(wa, 1) == byte_of(wb, 1) && byte_of(wa, 2) == byte_of(wb, 2) && byte_of(wa, 3) == byte_of(wb, 3),
        ((wa ^ wb) << 24u64) == 0 <==> byte_of(wa, 0) == byte_of(wb, 0) && byte_of(wa, 1) == byte_of(wb, 1) && byte_of(wa, 2) == byte_of(wb, 2) && byte_of(wa, 3) == byte_of(wb, 3) && byte_of(wa, 4) == byte_of(wb, 4),
        ((wa ^ wb) << 16u64) == 0 <==> byte_of(wa, 0) == byte_of(wb, 0) && byte_of(wa, 1) == byte_of(wb, 1) && byte_of(wa, 2) == byte_of(wb, 2) && byte_of(wa, 3) == byte_of(wb, 3) && byte_of(wa, 4) == byte_of(wb, 4) && byte_of(wa, 5) == byte_of(wb, 5),
        ((wa ^ wb) << 8u64) == 0 <==> byte_of(wa, 0) == byte_of(wb, 0) && byte_of(wa, 1) == byte_of(wb, 1) && byte_of(wa, 2) == byte_of(wb, 2) && byte_of(wa, 3) == byte_of(wb, 3) && byte_of(wa, 4) == byte_of(wb, 4) && byte_of(wa, 5) == byte_of(wb, 5) && byte_of(wa, 6) == byte_of(wb, 6),
{
}

/// The bytes `[off_a, off_a + len_plus1)` and `[off_b, off_b + len_plus1)`
/// of the data are equal.
pub open spec fn same_bytes(data: Seq<u8>, off_a: int, off_b: int, len: int) -> bool {
    forall|i: int| 0 <= i < len ==> #[trigger] byte_at(data, off_a + i) == byte_at(data, off_b + i)
}

/// Compares two runs of `len_plus1` bytes of the data, a word at a time.
pub fn name_eq(data: &[u8], off_a: usize, off_b: usize, len_plus1: usize) -> (r: bool)
    requires
        off_a + len_plus1 <= data.len(),
        off_b + len_plus1 <= data.len(),
        data_fits(data@),
    ensures
        r == same_bytes(data@, off_a as int, off_b as int, len_plus1 as int),
{
    let mut i = 0usize;
    while i + 8 <= len_plus1
        invariant
            off_a + len_plus1 <= data.len(),
            off_b + len_plus1 <= data.len(),
            data_fits(data@),
            i <= len_plus1,
            same_bytes(data@, off_a as int, off_b as int, i as int),
        decreases len_plus1 - i,
    {
        let wa = load_u64(data, off_a + i);
        let wb = load_u64(data, off_b + i);
        proof {
            lemma_word_at_bytes(data@, (off_a + i) as int);
            lemma_word_at_bytes(data@, (off_b + i) as int);
        }
        if wa != wb {
            proof {
                if same_bytes(data@, off_a as int, off_b as int, len_plus1 as int) {
                    assert forall|k: u64| k < 8 implies #[trigger] byte_of(wa, k) == byte_of(wb, k) by {
                        assert(byte_at(data@, off_a + (i + k)) == byte_at(data@, off_b + (i + k)));
                    }
                    lemma_word_eq_by_bytes(wa, wb);
                }
            }
            return false;
        }
        proof {
            assert forall|t: int| 0 <= t < i + 8 implies #[trigger] byte_at(data@, off_a + t) == byte_at(data@, off_b + t) by {
                if t >= i {
                    assert(byte_of(wa, (t - i) as u64) == byte_of(wb, (t - i) as u64));
                }
            }
        }
        i += 8;
    }
    if i == len_plus1 {
        return true;
    }
    let wa = load_u64(data, off_a + i);
    let wb = load_u64(data, off_b + i);
    let remaining = len_plus1 - i;
    assert(remaining << 3 == remaining * 8) by (bit_vector)
        requires
            remaining < 8,
    ;
    let shift = 64 - (remaining << 3);
    proof {
        lemma_word_at_bytes(data@, (off_a + i) as int);
        lemma_word_at_bytes(data@, (off_b + i) as int);
        lemma_low_bytes_eq(wa, wb, remaining as u64);
        if ((wa ^ wb) << (shift as u64)) == 0 {
            assert forall|t: int| 0 <= t < len_plus1 implies #[trigger] byte_at(data@, off_a + t) == byte_at(data@, off_b + t) by {
                if t >= i {
                    assert(byte_of(wa, (t - i) as u64) == byte_of(wb, (t - i) as u64));
                }
            }
        } else {
            if same_bytes(data@, off_a as int, off_b as int, len_plus1 as int) {
                assert forall|k: u64| k < remaining implies #[trigger] byte_of(wa, k) == byte_of(wb, k) by {
                    assert(byte_at(data@, off_a + (i + k)) == byte_at(data@, off_b + (i + k)));
                }
            }
        }
    }
    ((wa ^ wb) << shift) == 0
}

/// `MASK1[k]`: the `k + 1` low bytes of a word (all eight from `k == 7` on).
pub fn mask1(k: usize) -> (m: u64)
    requires
        k <= 8,
    ensures
        m == low_mask(((k + 1) * 8) as u64),
{
    if k >= 7 {
        0xFFFF_FFFF_FFFF_FFFF
    } else {
        let s = ((k + 1) * 8) as u64;
        assert(s < 64 ==> 1u64 << s >= 1) by (bit_vector);
        (1u64 << s) - 1
    }
}

/// `MASK2[k]`: all ones for `k == 8` (no delimiter in the first word), else 0.
pub fn mask2(k: usize) -> (m: u64)
    requires
        k <= 8,
    ensures
        m == if k == 8 {
            0xFFFF_FFFF_FFFF_FFFFu64
        } else {
            0u64
        },
{
    if k == 8 {
        0xFFFF_FFFF_FFFF_FFFF
    } else {
        0
    }
}

/// A word of a key, read from the data and masked to the bytes that lie
/// inside the key.
pub proof fn lemma_key_word(data: Seq<u8>, addr: int, k: Seq<u8>, off: int, m: u64)
    requires
        m <= 8,
        forall|i: int|
            0 <= i < 8 ==> #[trigger] byte_at(k, off + i) == if i < m {
                byte_at(data, addr + off + i)
            } else {
                0
            },
    ensures
        word_at(k, off) == word_at(data, addr + off) & low_mask((m * 8) as u64),
{
    let w = word_at(data, addr + off);
    lemma_word_at_bytes(data, addr + off);
    lemma_word_at_bytes(k, off);
    lemma_mask_bytes(w, m);
    assert forall|i: u64| i < 8 implies #[trigger] byte_of(word_at(k, off), i) == byte_of(
        w & low_mask((m * 8) as u64),
        i,
    ) by {
        assert(byte_at(k, off + i as int) == if (i as int) < m {
            byte_at(data, addr + off + i as int)
        } else {
            0
        });
    }
    lemma_word_eq_by_bytes(word_at(k, off), w & low_mask((m * 8) as u64));
}

/// The key of the name at `[addr, addr + len)` is the data from `addr` to
/// its `;`, and its words are the data words masked to the key's length.
pub proof fn lemma_key_words(data: Seq<u8>, addr: int, len: int)
    requires
        0 <= addr,
        1 <= len,
        addr + len < data.len(),
        data[addr + len] == 59,
    ensures
        key_of(data.subrange(addr, addr + len)) == data.subrange(addr, addr + len + 1),
        len + 1 <= 8 ==> key_first(key_of(data.subrange(addr, addr + len))) == word_at(data, addr)
            & low_mask(((len + 1) * 8) as u64),
        len + 1 <= 8 ==> key_second(key_of(data.subrange(addr, addr + len))) == 0,
        len + 1 > 8 ==> key_first(key_of(data.subrange(addr, addr + len))) == word_at(data, addr),
        8 < len + 1 <= 16 ==> key_second(key_of(data.subrange(addr, addr + len))) == word_at(
            data,
            addr + 8,
        ) & low_mask(((len + 1 - 8) * 8) as u64),
        len + 1 > 16 ==> key_second(key_of(data.subrange(addr, addr + len))) == word_at(
            data,
            addr + 8,
        ),
{
    let k = key_of(data.subrange(addr, addr + len));
    assert(k =~= data.subrange(addr, addr + len + 1));
    let tl = len + 1;
    assert forall|i: int| 0 <= i implies #[trigger] byte_at(k, i) == if i < tl {
        byte_at(data, addr + i)
    } else {
        0
    } by {}
    let m0: u64 = if tl >= 8 { 8 } else { tl as u64 };
    lemma_key_word(data, addr, k, 0, m0);
    assert(low_mask(64) == 0xFFFF_FFFF_FFFF_FFFFu64);
    let w0 = word_at(data, addr);
    let m1: u64 = if tl >= 16 { 8 } else if tl <= 8 { 0 } else { (tl - 8) as u64 };
    lemma_key_word(data, addr, k, 8, m1);
    let w1 = word_at(data, addr + 8);
    assert(w0 & 0xFFFF_FFFF_FFFF_FFFFu64 == w0 && low_mask(0) == 0 && w1 & 0 == 0) by (bit_vector);
}

/// A cursor over the data: the next line starts at `pos`; lines that start
/// before `end` belong to this cursor.
pub struct Scanner<'a> {
    pub pos: usize,
    pub end: usize,
    pub base: &'a [u8],
}

impl<'a> Scanner<'a> {
    /// A cursor at `start` over the lines that start before `end`.
    pub fn new(base: &'a [u8], start: usize, end: usize) -> (s: Self)
        ensures
            s.pos == start,
            s.end == end,
            s.base@ == base@,
    {
        Scanner { pos: start, end, base }
    }

    /// A line starts at the cursor.
    pub fn has_next(&self) -> (r: bool)
        ensures
            r == (self.pos < self.end),
    {
        self.pos < self.end
    }

    /// Moves the cursor `delta` bytes on.
    pub fn add(&mut self, delta: usize)
        requires
            old(self).pos + delta <= usize::MAX,
        ensures
            final(self).pos == old(self).pos + delta,
            final(self).end == old(self).end,
            final(self).base@ == old(self).base@,
    {
        self.pos += delta;
    }

    /// The word at the cursor.
    pub fn get_u64(&self) -> (w: u64)
        requires
            self.pos <= usize::MAX - 8,
        ensures
            w == word_at(self.base@, self.pos as int),
    {
        load_u64(self.base, self.pos)
    }

    /// The word at `pos`.
    pub fn get_u64_at(&self, pos: usize) -> (w: u64)
        requires
            pos <= usize::MAX - 8,
        ensures
            w == word_at(self.base@, pos as int),
    {
        load_u64(self.base, pos)
    }
}

impl StationTable {
    /// After a change to slot `idx` alone, which leaves that slot holding a
    /// station (the same one, if it held one before), the view changes at
    /// that station only.
    proof fn lemma_view_update(self, t2: Self, data: Seq<u8>, idx: int)
        requires
            self.wf(data),
            t2.wf(data),
            0 <= idx < 131072,
            t2.occupied(idx),
            forall|j: int| 0 <= j < 131072 && j != idx ==> t2.entries@[j] == self.entries@[j],
            self.occupied(idx) ==> entry_name(data, self.entries@[idx]) == entry_name(
                data,
                t2.entries@[idx],
            ),
        ensures
            t2.view(data) == self.view(data).insert(
                entry_name(data, t2.entries@[idx]),
                entry_stats(t2.entries@[idx]),
            ),
    {
        let n = entry_name(data, t2.entries@[idx]);
        let v1 = self.view(data);
        let v2 = t2.view(data);
        let v3 = v1.insert(n, entry_stats(t2.entries@[idx]));
        t2.lemma_view_at(data, idx);
        assert forall|m: Seq<u8>| v2.dom().contains(m) <==> v3.dom().contains(m) by {
            if v2.dom().contains(m) && m != n {
                let j = choose|j: int| t2.holds(data, j, m);
                assert(j != idx);
                assert(self.holds(data, j, m));
            }
            if v1.dom().contains(m) && m != n {
                let j = choose|j: int| self.holds(data, j, m);
                assert(j != idx);
                assert(t2.holds(data, j, m));
            }
        }
        assert forall|m: Seq<u8>| v2.dom().contains(m) implies v2[m] == v3[m] by {
            if m != n {
                let j = choose|j: int| t2.holds(data, j, m);
                assert(j != idx);
                assert(self.occupied(j));
                t2.lemma_view_at(data, j);
                self.lemma_view_at(data, j);
            }
        }
        assert(v2 =~= v3);
    }
}

/// Fills the empty slot `idx` with the station named by the `name_len`
/// bytes at `name_addr`, with no temperatures yet.
fn new_entry(
    base: &[u8],
    table: &mut StationTable,
    idx: usize,
    name_addr: usize,
    name_len: usize,
) -> (r: usize)
    requires
        old(table).wf(base@),
        idx < HASH_TABLE_SIZE,
        !old(table).occupied(idx as int),
        old(table).used@.len() < 131072,
        1 <= name_len <= 65535,
        name_addr + name_len < base@.len(),
        base@[name_addr + name_len] == 59,
        forall|i: int| name_addr <= i < name_addr + name_len ==> base@[i] != 59,
        !old(table).view(base@).dom().contains(
            base@.subrange(name_addr as int, name_addr + name_len),
        ),
        forall|d: int|
            0 <= d < probe_dist(
                home(key_of(base@.subrange(name_addr as int, name_addr + name_len))),
                idx as int,
            ) ==> #[trigger] old(table).occupied(
                (home(key_of(base@.subrange(name_addr as int, name_addr + name_len))) + d)
                    % 131072,
            ),
    ensures
        r == idx,
        final(table).wf(base@),
        final(table).view(base@) == old(table).view(base@).insert(
            base@.subrange(name_addr as int, name_addr + name_len),
            empty_stats(),
        ),
        final(table).consumed_spec() == old(table).consumed_spec(),
        final(table).len_spec() == old(table).len_spec() + 1,
        final(table).holds(base@, r as int, base@.subrange(name_addr as int, name_addr + name_len)),
        forall|j: int, m: Seq<u8>| #[trigger] old(table).holds(base@, j, m) ==> final(table).holds(base@, j, m),
        final(table).entry(idx as int) == (Entry {
            first_word: key_first(key_of(base@.subrange(name_addr as int, name_addr + name_len))),
            second_word: key_second(key_of(base@.subrange(name_addr as int, name_addr + name_len))),
            sum: 0,
            name_off: name_addr,
            count: 0,
            min: 0,
            max: 0,
            name_len: name_len as u16,
        }),
        forall|j: int| 0 <= j < 131072 && j != idx ==> #[trigger] final(table).entry(j) == old(table).entry(j),
        final(table).stations(base@) == old(table).stations(base@).push(
            (base@.subrange(name_addr as int, name_addr + name_len), empty_stats()),
        ),
{
    let ghost data = base@;
    let ghost n = data.subrange(name_addr as int, name_addr + name_len);
    let total_len = name_len + 1;
    let mut first = load_u64(base, name_addr);
    let mut second = load_u64(base, name_addr + 8);
    proof {
        lemma_key_words(data, name_addr as int, name_len as int);
    }
    if total_len <= 8 {
        first &= mask1(total_len - 1);
        second = 0;
    } else if total_len < 16 {
        second &= mask1(total_len - 9);
    }
    let mut entry = table.entries[idx];
    entry.first_word = first;
    entry.second_word = second;
    entry.name_off = name_addr;
    entry.name_len = name_len as u16;
    entry.sum = 0;
    entry.count = 0;
    entry.min = 0;
    entry.max = 0;
    let ghost old_table = *table;
    table.entries.set(idx, entry);
    table.used.push(idx as u32);
    proof {
        let t2 = *table;
        assert(entry_name(data, entry) =~= n);
        assert(t2.occupied(idx as int));
        assert forall|j: int| 0 <= j < 131072 && #[trigger] t2.occupied(j) implies t2.used@.contains(j as u32) by {
            if j != idx {
                assert(old_table.occupied(j));
                assert(old_table.used@.contains(j as u32));
                let i = choose|i: int| 0 <= i < old_table.used@.len() && old_table.used@[i] == j as u32;
                assert(t2.used@[i] == j as u32);
            } else {
                assert(t2.used@[t2.used@.len() - 1] == j as u32);
            }
        }
        assert(!old_table.used@.contains(idx as u32));
        assert forall|j1: int, j2: int|
            #![trigger t2.occupied(j1), t2.occupied(j2)]
            0 <= j1 < 131072 && 0 <= j2 < 131072 && t2.occupied(j1) && t2.occupied(j2)
                && entry_name(data, t2.entries@[j1]) == entry_name(data, t2.entries@[j2]) implies j1 == j2 by {
            if j1 == idx && j2 != idx {
                old_table.lemma_view_at(data, j2);
            }
            if j2 == idx && j1 != idx {
                old_table.lemma_view_at(data, j1);
            }
        }
        assert(t2.used@.no_duplicates());
        assert(forall|i: int| 0 <= i < t2.used@.len() ==> #[trigger] t2.used@[i] < 131072
            && t2.occupied(t2.used@[i] as int));
        assert(entry_ok(data, entry, t2.consumed@ as int));
        assert(forall|j: int|
            0 <= j < 131072 && #[trigger] t2.occupied(j) ==> entry_ok(
                data,
                t2.entries@[j],
                t2.consumed@ as int,
            ));
        assert forall|j: int, d: int|
            0 <= j < 131072 && t2.occupied(j) && 0 <= d < probe_dist(
                home(key_of(entry_name(data, t2.entries@[j]))),
                j,
            ) implies #[trigger] t2.occupied((home(key_of(entry_name(data, t2.entries@[j]))) + d) % 131072) by {
            if j != idx {
                assert(old_table.occupied(j));
                assert(old_table.occupied((home(key_of(entry_name(data, old_table.entries@[j]))) + d) % 131072));
            } else {
                assert(old_table.occupied((home(key_of(n)) + d) % 131072));
            }
        }
        assert(t2.wf(data));
        old_table.lemma_view_update(t2, data, idx as int);
        assert(entry_stats(entry) == empty_stats());
        assert forall|i: int| 0 <= i < old_table.used@.len() implies t2.entries@[t2.used@[i] as int] == old_table.entries@[old_table.used@[i] as int] by {
            assert(old_table.occupied(old_table.used@[i] as int));
        }
        assert(t2.stations(data) =~= old_table.stations(data).push((n, empty_stats())));
    }
    idx
}

/// The first `;` from `p` on is `j` bytes later.
pub proof fn lemma_name_end_at(data: Seq<u8>, p: int, j: int)
    requires
        0 <= p,
        0 <= j,
        p + j < data.len(),
        data[p + j] == 59,
        forall|i: int| p <= i < p + j ==> data[i] != 59,
    ensures
        name_end(data, p) == p + j,
    decreases j,
{
    if j > 0 {
        lemma_name_end_at(data, p + 1, j - 1);
    }
}

/// Shifting the bytes `0..=j` of a word to its top forgets the other bytes.
pub proof fn lemma_shl_low_bytes(x: u64, y: u64, j: u64)
    requires
        j < 8,
        forall|i: u64| i <= j ==> #[trigger] byte_of(x, i) == byte_of(y, i),
    ensures
        x << ((56 - 8 * j) as u64) == y << ((56 - 8 * j) as u64),
{
    assert(byte_of(x, 0) == byte_of(y, 0));
    assert(j >= 1 ==> byte_of(x, 1) == byte_of(y, 1));
    assert(j >= 2 ==> byte_of(x, 2) == byte_of(y, 2));
    assert(j >= 3 ==> byte_of(x, 3) == byte_of(y, 3));
    assert(j >= 4 ==> byte_of(x, 4) == byte_of(y, 4));
    assert(j >= 5 ==> byte_of(x, 5) == byte_of(y, 5));
    assert(j >= 6 ==> byte_of(x, 6) == byte_of(y, 6));
    assert(j >= 7 ==> byte_of(x, 7) == byte_of(y, 7));
    lemma_shl_cases(x, y);
    if j == 0 {
        assert(byte_of(x, 0) == byte_of(y, 0) ==> x << 56u64 == y << 56u64);
    } else if j == 1 {
        assert(byte_of(x, 0) == byte_of(y, 0) && byte_of(x, 1) == byte_of(y, 1) ==> x << 48u64 == y << 48u64);
    } else if j == 2 {
        assert(byte_of(x, 0) == byte_of(y, 0) && byte_of(x, 1) == byte_of(y, 1) && byte_of(x, 2) == byte_of(y, 2) ==> x << 40u64 == y << 40u64);
    } else if j == 3 {
        assert(byte_of(x, 0) == byte_of(y, 0) && byte_of(x, 1) == byte_of(y, 1) && byte_of(x, 2) == byte_of(y, 2) && byte_of(x, 3) == byte_of(y, 3) ==> x << 32u64 == y << 32u64);
    } else if j == 4 {
        assert(byte_of(x, 0) == byte_of(y, 0) && byte_of(x, 1) == byte_of(y, 1) && byte_of(x, 2) == byte_of(y, 2) && byte_of(x, 3) == byte_of(y, 3) && byte_of(x, 4) == byte_of(y, 4) ==> x << 24u64 == y << 24u64);
    } else if j == 5 {
        assert(byte_of(x, 0) == byte_of(y, 0) && byte_of(x, 1) == byte_of(y, 1) && byte_of(x, 2) == byte_of(y, 2) && byte_of(x, 3) == byte_of(y, 3) && byte_of(x, 4) == byte_of(y, 4) && byte_of(x, 5) == byte_of(y, 5) ==> x << 16u64 == y << 16u64);
    } else if j == 6 {
        assert(byte_of(x, 0) == byte_of(y, 0) && byte_of(x, 1) == byte_of(y, 1) && byte_of(x, 2) == byte_of(y, 2) && byte_of(x, 3) == byte_of(y, 3) && byte_of(x, 4) == byte_of(y, 4) && byte_of(x, 5) == byte_of(y, 5) && byte_of(x, 6) == byte_of(y, 6) ==> x << 8u64 == y << 8u64);
    } else if j == 7 {
        assert(byte_of(x, 0) == byte_of(y, 0) && byte_of(x, 1) == byte_of(y, 1) && byte_of(x, 2) == byte_of(y, 2) && byte_of(x, 3) == byte_of(y, 3) && byte_of(x, 4) == byte_of(y, 4) && byte_of(x, 5) == byte_of(y, 5) && byte_of(x, 6) == byte_of(y, 6) && byte_of(x, 7) == byte_of(y, 7) ==> x << 0u64 == y << 0u64);
    }
}

/// Words that agree on their low bytes agree once shifted to drop the
/// other bytes.
proof fn lemma_shl_cases(x: u64, y: u64)
    by (bit_vector)
    ensures
        byte_of(x, 0) == byte_of(y, 0) ==> x << 56u64 == y << 56u64,
        byte_of(x, 0) == byte_of(y, 0) && byte_of(x, 1) == byte_of(y, 1) ==> x << 48u64 == y << 48u64,
        byte_of(x, 0) == byte_of(y, 0) && byte_of(x, 1) == byte_of(y, 1) && byte_of(x, 2) == byte_of(y, 2) ==> x << 40u64 == y << 40u64,
        byte_of(x, 0) == byte_of(y, 0) && byte_of(x, 1) == byte_of(y, 1) && byte_of(x, 2) == byte_of(y, 2) && byte_of(x, 3) == byte_of(y, 3) ==> x << 32u64 == y << 32u64,
        byte_of(x, 0) == byte_of(y, 0) && byte_of(x, 1) == byte_of(y, 1) && byte_of(x, 2) == byte_of(y, 2) && byte_of(x, 3) == byte_of(y, 3) && byte_of(x, 4) == byte_of(y, 4) ==> x << 24u64 == y << 24u64,
        byte_of(x, 0) == byte_of(y, 0) && byte_of(x, 1) == byte_of(y, 1) && byte_of(x, 2) == byte_of(y, 2) && byte_of(x, 3) == byte_of(y, 3) && byte_of(x, 4) == byte_of(y, 4) && byte_of(x, 5) == byte_of(y, 5) ==> x << 16u64 == y << 16u64,
        byte_of(x, 0) == byte_of(y, 0) && byte_of(x, 1) == byte_of(y, 1) && byte_of(x, 2) == byte_of(y, 2) && byte_of(x, 3) == byte_of(y, 3) && byte_of(x, 4) == byte_of(y, 4) && byte_of(x, 5) == byte_of(y, 5) && byte_of(x, 6) == byte_of(y, 6) ==> x << 8u64 == y << 8u64,
        byte_of(x, 0) == byte_of(y, 0) && byte_of(x, 1) == byte_of(y, 1) && byte_of(x, 2) == byte_of(y, 2) && byte_of(x, 3) == byte_of(y, 3) && byte_of(x, 4) == byte_of(y, 4) && byte_of(x, 5) == byte_of(y, 5) && byte_of(x, 6) == byte_of(y, 6) && byte_of(x, 7) == byte_of(y, 7) ==> x << 0u64 == y << 0u64,
{
}

/// Two keys of at most 16 bytes, each a name without `;` followed by `;`,
/// have the same two words exactly when the names are equal.
pub proof fn lemma_short_key_match(n: Seq<u8>, en: Seq<u8>)
    requires
        key_of(n).len() <= 16,
        forall|i: int| 0 <= i < n.len() ==> n[i] != 59,
        forall|i: int| 0 <= i < en.len() ==> en[i] != 59,
    ensures
        (key_first(key_of(en)) == key_first(key_of(n)) && key_second(key_of(en)) == key_second(
            key_of(n),
        )) <==> en == n,
{
    let k = key_of(n);
    let ke = key_of(en);
    if key_first(ke) == key_first(k) && key_second(ke) == key_second(k) {
        lemma_word_at_bytes(k, 0);
        lemma_word_at_bytes(ke, 0);
        lemma_word_at_bytes(k, 8);
        lemma_word_at_bytes(ke, 8);
        assert forall|i: int| 0 <= i < 16 implies #[trigger] byte_at(ke, i) == byte_at(k, i) by {
            if i < 8 {
                assert(byte_of(word_at(k, 0), i as u64) == byte_of(word_at(ke, 0), i as u64));
            } else {
                assert(byte_of(word_at(k, 8), (i - 8) as u64) == byte_of(word_at(ke, 8), (i - 8) as u64));
            }
        }
        let len = n.len() as int;
        assert(byte_at(k, len) == 59);
        assert(byte_at(ke, len) == 59);
        if en.len() > len {
            assert(ke[len] == en[len]);
        }
        if en.len() < len {
            assert(byte_at(ke, en.len() as int) == 59);
            assert(k[en.len() as int] == n[en.len() as int]);
        }
        assert(en.len() == len);
        assert forall|i: int| 0 <= i < len implies en[i] == n[i] by {
            assert(byte_at(ke, i) == byte_at(k, i));
        }
        assert(en =~= n);
    }
}

/// Probing `d` steps from `h` reaches a slot `d` steps away, and every slot
/// is reached within one round.
pub proof fn lemma_probe_arith(h: int, d: int, j: int)
    requires
        0 <= h < 131072,
        0 <= d < 131072,
        0 <= j < 131072,
    ensures
        probe_dist(h, (h + d) % 131072) == d,
        0 <= probe_dist(h, j) < 131072,
        (h + probe_dist(h, j)) % 131072 == j,
        0 <= (h + d) % 131072 < 131072,
        (h + d) % 131072 + 1 < 131072 ==> ((h + d) % 131072 + 1) % 131072 == (h + d) % 131072 + 1,
        ((h + d) % 131072 + 1) % 131072 == (h + d + 1) % 131072,
{
    if h + d < 131072 {
        assert((h + d) % 131072 == h + d);
    } else {
        assert((h + d) % 131072 == h + d - 131072);
    }
    if j >= h {
        assert(probe_dist(h, j) == j - h);
    } else {
        assert(probe_dist(h, j) == j - h + 131072);
    }
}

/// Reducing a hash to a slot with a mask is reducing it modulo the table size.
pub proof fn lemma_index_mask(x: u64)
    ensures
        (x as usize) & 131071usize == (x % 131072) as usize,
{
    assert((x as usize) & 131071usize == (x % 131072) as usize) by (bit_vector);
}

/// `delim` marks the `;` bytes of `word` as `find_delim` does.
pub open spec fn marks_semicolons(word: u64, delim: u64) -> bool {
    &&& (delim.trailing_zeros() >> 3) as u64 == first_match(word, 59)
    &&& (delim == 0 <==> first_match(word, 59) == 8)
    &&& (delim != 0 ==> delim.trailing_zeros() == first_match(word, 59) * 8 + 7)
}

/// Reads the station name of the line at the cursor (leaving the cursor on
/// its `;`) and returns the slot that holds that station, filling an empty
/// slot when the station is new; `None`, changing nothing, when the station
/// is new and every slot holds another one.  `word`/`word_b` are the two
/// words at the cursor and `delim_mask`/`delim_mask_b` their `;` marks.
pub(crate) fn find_result(
    word: u64,
    delim_mask: u64,
    word_b: u64,
    delim_mask_b: u64,
    scanner: &mut Scanner,
    table: &mut StationTable,
) -> (r: Option<usize>)
    requires
        old(table).wf(old(scanner).base@),
        line_ok(old(scanner).base@, old(scanner).pos as int),
        word == word_at(old(scanner).base@, old(scanner).pos as int),
        word_b == word_at(old(scanner).base@, old(scanner).pos + 8),
        marks_semicolons(word, delim_mask),
        marks_semicolons(word_b, delim_mask_b),
    ensures
        final(scanner).base@ == old(scanner).base@,
        final(scanner).end == old(scanner).end,
        final(scanner).pos == name_end(old(scanner).base@, old(scanner).pos as int),
        final(table).wf(old(scanner).base@),
        old(table).len_spec() < 131072 || old(table).view(old(scanner).base@).dom().contains(
            line_name(old(scanner).base@, old(scanner).pos as int),
        ) ==> r is Some,
        r is None ==> *final(table) == *old(table) && old(table).len_spec() >= 131072
            && !old(table).view(old(scanner).base@).dom().contains(line_name(old(scanner).base@, old(scanner).pos as int)),
        r matches Some(idx) ==> idx < 131072 && final(table).holds(old(scanner).base@, idx as int, line_name(old(scanner).base@, old(scanner).pos as int)),
        old(table).view(old(scanner).base@).dom().contains(line_name(old(scanner).base@, old(scanner).pos as int)) ==> *final(table)
            == *old(table),
        keeps_names(old(table).stations(old(scanner).base@), final(table).stations(old(scanner).base@)),
        r matches Some(idx) ==> (!old(table).view(old(scanner).base@).dom().contains(line_name(old(scanner).base@, old(scanner).pos as int))
            ==> final(table).stations(old(scanner).base@) == old(table).stations(old(scanner).base@).push(
            (line_name(old(scanner).base@, old(scanner).pos as int), empty_stats()),
        ) && final(table).entry(idx as int).name_off == old(scanner).pos),
        r is Some ==> final(table).view(old(scanner).base@) == old(table).view(old(scanner).base@).insert(
            line_name(old(scanner).base@, old(scanner).pos as int),
            crate::stats::stats_of(old(table).view(old(scanner).base@), line_name(old(scanner).base@, old(scanner).pos as int)),
        ),
        final(table).consumed_spec() == old(table).consumed_spec(),
        final(table).len_spec() <= old(table).len_spec() + 1,
        forall|j: int, m: Seq<u8>| #[trigger] old(table).holds(old(scanner).base@, j, m) ==> final(table).holds(old(scanner).base@, j, m),
{
    let ghost data = scanner.base@;
    let ghost p0 = scanner.pos as int;
    let ghost q = name_end(data, p0);
    let ghost n = data.subrange(p0, q);
    let ghost k = key_of(n);
    let name_addr = scanner.pos;
    proof {
        lemma_name_end(data, p0);
        lemma_key_words(data, p0, q - p0);
        lemma_word_at_bytes(data, p0);
        lemma_word_at_bytes(data, p0 + 8);
        lemma_first_match_bound(word, 59, 0);
        lemma_first_match_bound(word_b, 59, 0);
    }
    let mut word = word;
    let mut hash: u64;
    let mut first_word: u64 = 0;
    let mut second_word: u64 = 0;
    let mut fast16 = false;

    if (delim_mask | delim_mask_b) != 0 {
        let lc1 = (delim_mask.trailing_zeros() >> 3) as usize;
        let lc2 = (delim_mask_b.trailing_zeros() >> 3) as usize;
        let mask = mask2(lc1);
        word &= mask1(lc1);
        let w2 = word_b & mask1(lc2);
        second_word = w2 & mask;
        first_word = word;
        hash = first_word ^ second_word;
        proof {
            assert(delim_mask != 0 || delim_mask_b != 0) by (bit_vector)
                requires (delim_mask | delim_mask_b) != 0;
            if lc1 < 8 {
                assert(byte_of(word_at(data, p0), lc1 as u64) == 59);
                assert forall|i: int| p0 <= i < p0 + lc1 implies data[i] != 59 by {
                    assert(byte_of(word_at(data, p0), (i - p0) as u64) != 59);
                }
                lemma_name_end_at(data, p0, lc1 as int);
                assert(w2 & 0 == 0 && (lc2 as u64 & 0) == 0) by (bit_vector);
            } else {
                assert(byte_of(word_at(data, p0 + 8), lc2 as u64) == 59);
                assert forall|i: int| p0 <= i < p0 + 8 + lc2 implies data[i] != 59 by {
                    if i < p0 + 8 {
                        assert(byte_of(word_at(data, p0), (i - p0) as u64) != 59);
                    } else {
                        assert(byte_of(word_at(data, p0 + 8), (i - p0 - 8) as u64) != 59);
                    }
                }
                lemma_name_end_at(data, p0, 8 + lc2 as int);
                let w0 = word_at(data, p0);
                assert(w0 & 0xFFFF_FFFF_FFFF_FFFFu64 == w0 && w2 & 0xFFFF_FFFF_FFFF_FFFFu64 == w2
                    && (lc2 < 8 ==> (lc2 as u64 & 0xFFFF_FFFF_FFFF_FFFFu64) as usize == lc2)) by (bit_vector);
            }
            assert(first_word == key_first(k));
            assert(second_word == key_second(k));
            assert(hash == key_hash(k));
        }
        scanner.add(lc1 + (((lc2 as u64) & mask) as usize));
        fast16 = true;
    } else {
        hash = word ^ word_b;
        proof {
            assert(delim_mask == 0 && delim_mask_b == 0) by (bit_vector)
                requires (delim_mask | delim_mask_b) == 0;
            assert forall|i: int| p0 <= i < p0 + 16 && i < data.len() implies data[i] != 59 by {
                if i < p0 + 8 {
                    assert(byte_of(word_at(data, p0), (i - p0) as u64) != 59);
                } else {
                    assert(byte_of(word_at(data, p0 + 8), (i - p0 - 8) as u64) != 59);
                }
            }
            assert(q >= p0 + 16);
            let w0 = word_at(data, p0);
            let w1 = word_at(data, p0 + 8);
            let t16 = tail_hash(k, 16);
            assert((w0 ^ w1) ^ t16 == w0 ^ w1 ^ t16);
        }
        scanner.add(16);
        loop
            invariant_except_break
                scanner.base@ == data,
                p0 + 16 <= scanner.pos <= q,
                (scanner.pos - p0) % 8 == 0,
                hash ^ tail_hash(k, scanner.pos - p0) == key_hash(k),
            invariant
                scanner.end == old(scanner).end,
                data == old(scanner).base@,
                p0 == old(scanner).pos,
                q == name_end(data, p0),
                0 <= p0 < q < data.len(),
                q - p0 <= 65535,
                data_fits(data),
                n == data.subrange(p0, q),
                k == key_of(n),
                k == data.subrange(p0, q + 1),
                data[q] == 59,
                forall|i: int| p0 <= i < q ==> data[i] != 59,
            ensures
                scanner.base@ == data,
                scanner.pos == q,
                hash == key_hash(k),
            decreases q - scanner.pos,
        {
            word = scanner.get_u64();
            let m = find_delim(word, 59u8);
            let ghost pos = scanner.pos as int;
            let ghost rel = pos - p0;
            proof {
                lemma_word_at_bytes(data, pos);
                lemma_first_match_bound(word, 59, 0);
            }
            if m != 0 {
                let tz = m.trailing_zeros();
                let ghost j = first_match(word, 59);
                proof {
                    assert(byte_of(word, j) == 59);
                    assert forall|i: int| pos <= i < pos + j implies data[i] != 59 by {
                        assert(byte_of(word, (i - pos) as u64) != 59);
                    }
                    lemma_name_end_at(data, pos, j as int);
                    assert(k.len() - rel == j + 1);
                    lemma_word_at_bytes(k, rel);
                    assert forall|i: u64| i <= j implies #[trigger] byte_of(word, i) == byte_of(word_at(k, rel), i) by {
                        assert(byte_at(k, rel + i) == data[pos + i]);
                    }
                    lemma_shl_low_bytes(word, word_at(k, rel), j);
                    assert(tz < 64 ==> ((63 - tz) as u32) % 64 == (63 - tz) as u32) by (bit_vector);
                }
                word = word.wrapping_shl(63 - tz);
                scanner.add((tz >> 3) as usize);
                proof {
                    assert(word == word_at(k, rel) << ((56 - 8 * j) as u64));
                    assert(tail_hash(k, rel) == word);
                    let h0 = hash;
                    assert(h0 ^ word == h0 ^ word);
                }
                hash ^= word;
                break;
            } else {
                proof {
                    assert forall|i: int| pos <= i < pos + 8 && i < data.len() implies data[i] != 59 by {
                        assert(byte_of(word, (i - pos) as u64) != 59);
                    }
                    assert(q >= pos + 8);
                    assert(byte_at(k, rel + 0) == byte_at(data, pos + 0));
                    assert(byte_at(k, rel + 1) == byte_at(data, pos + 1));
                    assert(byte_at(k, rel + 2) == byte_at(data, pos + 2));
                    assert(byte_at(k, rel + 3) == byte_at(data, pos + 3));
                    assert(byte_at(k, rel + 4) == byte_at(data, pos + 4));
                    assert(byte_at(k, rel + 5) == byte_at(data, pos + 5));
                    assert(byte_at(k, rel + 6) == byte_at(data, pos + 6));
                    assert(byte_at(k, rel + 7) == byte_at(data, pos + 7));
                    assert(word_at(k, rel) == word);
                    let t8 = tail_hash(k, rel + 8);
                    let h0 = hash;
                    lemma_xor_laws(h0, word, t8);
                }
                scanner.add(8);
                hash ^= word;
            }
        }
    }

    let name_len = scanner.pos - name_addr;
    let total_len = name_len + 1;
    let mut idx = hash_to_index_sized(hash, HASH_TABLE_SIZE - 1);
    let ghost h = home(k);
    proof {
        lemma_index_mask(mix(hash));
        assert(idx == h);
    }
    let ghost empty_slot: int = if table.used@.len() < 131072 {
        table.lemma_has_empty_slot(data)
    } else {
        0
    };
    let ghost mut d: int = 0;
    let mut probes: usize = 0;
    assert(idx == (h + d) % 131072);
    loop
        invariant
            scanner.base@ == data,
            data == old(scanner).base@,
            p0 == old(scanner).pos,
            scanner.end == old(scanner).end,
            scanner.pos == q,
            name_addr == p0,
            name_len == q - p0,
            total_len == name_len + 1,
            *table == *old(table),
            table.wf(data),
            table.used@.len() < 131072 ==> 0 <= empty_slot < 131072 && !table.occupied(empty_slot),
            probes == d,
            0 <= h < 131072,
            h == home(k),
            0 <= d < 131072,
            idx == (h + d) % 131072,
            forall|dd: int| 0 <= dd < d ==> #[trigger] table.occupied((h + dd) % 131072)
                && entry_name(data, table.entries@[(h + dd) % 131072]) != n,
            fast16 ==> k.len() <= 16 && first_word == key_first(k) && second_word == key_second(k),
            !fast16 ==> k.len() > 16,
            q == name_end(data, p0),
            0 <= p0 < q < data.len(),
            q - p0 <= 65535,
            n == data.subrange(p0, q),
            k == key_of(n),
            k == data.subrange(p0, q + 1),
            data[q] == 59,
            forall|i: int| p0 <= i < q ==> data[i] != 59,
        decreases 131072 - d,
    {
        proof {
            lemma_probe_arith(h, d, 0);
        }
        let entry = table.entries[idx];
        if entry.name_len == 0 {
            proof {
                assert(!table.occupied(idx as int));
                if table.view(data).dom().contains(n) {
                    let j = choose|j: int| table.holds(data, j, n);
                    lemma_probe_arith(h, d, j);
                    let dj = probe_dist(h, j);
                    if dj < d {
                        assert(table.occupied((h + dj) % 131072));
                    } else if dj > d {
                        assert(table.occupied((h + d) % 131072));
                    }
                    assert(false);
                }
                assert forall|dd: int| 0 <= dd < probe_dist(h, idx as int) implies #[trigger] table.occupied((h + dd) % 131072) by {
                    assert(table.occupied((h + dd) % 131072));
                }
                assert(key_of(scanner.base@.subrange(name_addr as int, name_addr + name_len)) == k);
                assert(stats_of_absent(table.view(data), n));
                table.lemma_room_if_empty_slot(data, idx as int);
            }
            return Some(new_entry(scanner.base, table, idx, name_addr, name_len));
        }
        proof {
            assert(table.occupied(idx as int));
            let en = entry_name(data, entry);
            assert(entry_ok(data, entry, table.consumed@ as int));
        }
        if fast16 {
            if entry.first_word == first_word && entry.second_word == second_word {
                proof {
                    lemma_short_key_match(n, entry_name(data, entry));
                    table.lemma_view_at(data, idx as int);
                    assert(table.view(data).insert(n, crate::stats::stats_of(table.view(data), n)) =~= table.view(data));
                }
                return Some(idx);
            }
            proof {
                lemma_short_key_match(n, entry_name(data, entry));
            }
        } else if entry.name_len as usize == name_len && name_eq(
            scanner.base,
            entry.name_off,
            name_addr,
            total_len,
        ) {
            proof {
                let en = entry_name(data, entry);
                assert forall|i: int| 0 <= i < n.len() implies en[i] == n[i] by {
                    assert(byte_at(data, entry.name_off + i) == byte_at(data, p0 + i));
                }
                assert(en =~= n);
                table.lemma_view_at(data, idx as int);
                assert(table.view(data).insert(n, crate::stats::stats_of(table.view(data), n)) =~= table.view(data));
            }
            return Some(idx);
        } else {
            proof {
                let en = entry_name(data, entry);
                if en == n {
                    if entry.name_len as usize == name_len {
                        assert forall|i: int| 0 <= i < total_len implies #[trigger] byte_at(data, entry.name_off + i) == byte_at(data, p0 + i) by {
                            if i < name_len {
                                assert(en[i] == n[i]);
                            }
                        }
                    }
                    assert(false);
                }
            }
        }
        assert(table.occupied(idx as int) && entry_name(data, table.entries@[idx as int]) != n);
        let ghost old_idx = idx as int;
        if probes + 1 == HASH_TABLE_SIZE {
            proof {
                if table.view(data).dom().contains(n) {
                    let j = choose|j: int| table.holds(data, j, n);
                    lemma_probe_arith(h, 0, j);
                    let dj = probe_dist(h, j);
                    if dj < d {
                        assert(table.occupied((h + dj) % 131072));
                    }
                    assert(false);
                }
                if table.used@.len() < 131072 {
                    lemma_probe_arith(h, 0, empty_slot);
                    let de = probe_dist(h, empty_slot);
                    if de < d {
                        assert(table.occupied((h + de) % 131072));
                    }
                    assert(false);
                }
            }
            return None;
        }
        proof {
            lemma_index_mask((idx + 1) as u64);
            lemma_probe_arith(h, d, 0);
        }
        idx = (idx + PROBE_STEP) & (HASH_TABLE_SIZE - 1);
        probes = probes + 1;
        proof {
            let ghost d0 = d;
            assert(forall|dd: int| 0 <= dd < d0 ==> #[trigger] table.occupied((h + dd) % 131072)
                && entry_name(data, table.entries@[(h + dd) % 131072]) != n);
            assert(old_idx == (h + d0) % 131072);
            d = d + 1;
            assert forall|dd: int| 0 <= dd < d implies #[trigger] table.occupied((h + dd) % 131072)
                && entry_name(data, table.entries@[(h + dd) % 131072]) != n by {
                if dd < d0 {
                } else {
                    assert(dd == d0);
                    assert((h + dd) % 131072 == old_idx);
                }
            }
        }
    }
}

/// Reads the temperature after the `;` at the cursor and moves the cursor to
/// the start of the next line.
pub(crate) fn scan_number(scanner: &mut Scanner) -> (r: i32)
    requires
        old(scanner).pos + 16 <= usize::MAX,
        temp_word_ok(word_at(old(scanner).base@, old(scanner).pos + 1)),
    ensures
        r == temp_word_value(word_at(old(scanner).base@, old(scanner).pos + 1)),
        final(scanner).pos == old(scanner).pos + temp_dot_index(word_at(old(scanner).base@, old(scanner).pos + 1)) + 4,
        final(scanner).base@ == old(scanner).base@,
        final(scanner).end == old(scanner).end,
{
    let number_word = scanner.get_u64_at(scanner.pos + 1);
    let decimal_sep_pos = (!number_word & 0x1010_1000u64).trailing_zeros();
    proof {
        lemma_dot_position(number_word);
        assert(decimal_sep_pos == 12 || decimal_sep_pos == 20 || decimal_sep_pos == 28);
        assert((decimal_sep_pos <= 28 ==> ((decimal_sep_pos as usize) >> 3) == (decimal_sep_pos >> 3) as usize)
            && (12u32 >> 3) == 1u32 && (20u32 >> 3) == 2u32 && (28u32 >> 3) == 3u32) by (bit_vector);
    }
    let number = convert_into_number(decimal_sep_pos, number_word);
    scanner.add(((decimal_sep_pos as usize) >> 3) + 4);
    number
}

impl StationTable {
    /// The view names exactly one station per occupied slot.
    pub proof fn lemma_view_dom(self, data: Seq<u8>)
        requires
            self.wf(data),
        ensures
            self.view(data).dom().finite(),
            self.view(data).dom().len() == self.len_spec(),
    {
        let names = self.used@.map_values(|j: u32| entry_name(data, self.entries@[j as int]));
        assert forall|a: int, b: int| 0 <= a < names.len() && 0 <= b < names.len() && a != b implies names[a] != names[b] by {
            assert(self.occupied(self.used@[a] as int));
            assert(self.occupied(self.used@[b] as int));
        }
        assert(names.no_duplicates());
        names.unique_seq_to_set();
        assert forall|m: Seq<u8>| self.view(data).dom().contains(m) <==> names.to_set().contains(m) by {
            if self.view(data).dom().contains(m) {
                let j = choose|j: int| self.holds(data, j, m);
                assert(self.used@.contains(j as u32));
                let i = choose|i: int| 0 <= i < self.used@.len() && self.used@[i] == j as u32;
                assert(names[i] == m);
            }
            if names.to_set().contains(m) {
                let i = choose|i: int| 0 <= i < names.len() && names[i] == m;
                assert(self.holds(data, self.used@[i] as int, m));
            }
        }
        assert(self.view(data).dom() =~= names.to_set());
    }

    /// Adds one temperature to the station held in slot `idx`.
    pub(crate) fn record_at(&mut self, Ghost(data): Ghost<Seq<u8>>, idx: usize, number: i32, Ghost(n): Ghost<Seq<u8>>)
        requires
            old(self).wf(data),
            old(self).holds(data, idx as int, n),
            -999 <= number <= 999,
            old(self).view(data)[n].count < old(self).consumed_spec(),
        ensures
            final(self).wf(data),
            final(self).view(data) == add_obs(old(self).view(data), n, number as int),
            final(self).consumed_spec() == old(self).consumed_spec(),
            final(self).len_spec() == old(self).len_spec(),
            forall|j: int, m: Seq<u8>| #[trigger] old(self).holds(data, j, m) ==> final(self).holds(data, j, m),
            same_names(old(self).stations(data), final(self).stations(data)),
    {
        proof {
            self.lemma_view_at(data, idx as int);
        }
        let ghost t1 = *self;
        let mut e = self.entries[idx];
        proof {
            assert(self.occupied(idx as int));
            assert(entry_ok(data, e, self.consumed@ as int));
            let c = e.count as int;
            assert(999 * c <= 999 * 4294967295) by (nonlinear_arith)
                requires
                    c <= 4294967295,
            ;
        }
        record(&mut e, number);
        self.entries.set(idx, e);
        proof {
            let t2 = *self;
            assert(t2.occupied(idx as int));
            assert(entry_name(data, e) == n);
            assert(entry_ok(data, e, t2.consumed@ as int));
            assert forall|j1: int, j2: int|
                #![trigger t2.occupied(j1), t2.occupied(j2)]
                0 <= j1 < 131072 && 0 <= j2 < 131072 && t2.occupied(j1) && t2.occupied(j2)
                    && entry_name(data, t2.entries@[j1]) == entry_name(data, t2.entries@[j2]) implies j1 == j2 by {
                assert(t1.occupied(j1) && t1.occupied(j2));
            }
            assert forall|j: int, d: int|
                0 <= j < 131072 && t2.occupied(j) && 0 <= d < probe_dist(
                    home(key_of(entry_name(data, t2.entries@[j]))),
                    j,
                ) implies #[trigger] t2.occupied((home(key_of(entry_name(data, t2.entries@[j]))) + d) % 131072) by {
                assert(t1.occupied(j));
                assert(t1.occupied((home(key_of(entry_name(data, t1.entries@[j]))) + d) % 131072));
            }
            assert forall|j: int| 0 <= j < 131072 && #[trigger] t2.occupied(j) implies entry_ok(data, t2.entries@[j], t2.consumed@ as int) by {
                assert(t1.occupied(j));
            }
            assert forall|j: int| 0 <= j < 131072 && #[trigger] t2.occupied(j) implies t2.used@.contains(j as u32) by {
                assert(t1.occupied(j));
            }
            assert(t2.wf(data));
            t1.lemma_view_update(t2, data, idx as int);
            assert forall|j: int, m: Seq<u8>| #[trigger] t1.holds(data, j, m) implies t2.holds(data, j, m) by {}
            assert forall|k: int| 0 <= k < t2.stations(data).len() implies #[trigger] t2.stations(data)[k].0 == t1.stations(data)[k].0 by {
                assert(t1.occupied(t1.used@[k] as int));
            }
        }
    }
}

/// Two lists of stations name the same stations in the same places.
pub open spec fn same_names(a: Seq<(Seq<u8>, Stats)>, b: Seq<(Seq<u8>, Stats)>) -> bool {
    &&& a.len() == b.len()
    &&& forall|k: int| 0 <= k < a.len() ==> #[trigger] b[k].0 == a[k].0
}

/// `b` keeps the stations of `a` in their places, maybe with other
/// statistics, and may list more after them.
pub open spec fn keeps_names(a: Seq<(Seq<u8>, Stats)>, b: Seq<(Seq<u8>, Stats)>) -> bool {
    &&& a.len() <= b.len()
    &&& forall|k: int| 0 <= k < a.len() ==> #[trigger] b[k].0 == a[k].0
}

impl StationTable {
    /// Counts `amount` more lines of input as taken in.
    pub(crate) fn add_consumed(&mut self, Ghost(data): Ghost<Seq<u8>>, Ghost(amount): Ghost<nat>)
        requires
            old(self).wf(data),
            old(self).consumed_spec() + amount <= u32::MAX,
        ensures
            final(self).wf(data),
            final(self).view(data) == old(self).view(data),
            final(self).consumed_spec() == old(self).consumed_spec() + amount,
            final(self).len_spec() == old(self).len_spec(),
            final(self).stations(data) == old(self).stations(data),
    {
        let ghost t0 = *self;
        self.consumed = Ghost(self.consumed@ + amount);
        proof {
            let t1 = *self;
            assert forall|j: int, n: Seq<u8>| t1.holds(data, j, n) == t0.holds(data, j, n) by {}
            assert(t1.view(data) =~= t0.view(data));
            assert forall|j: int| 0 <= j < 131072 && #[trigger] t1.occupied(j) implies entry_ok(data, t1.entries@[j], t1.consumed@ as int) by {
                assert(t0.occupied(j));
            }
            assert forall|j: int| 0 <= j < 131072 && #[trigger] t1.occupied(j) implies t1.used@.contains(j as u32) by {
                assert(t0.occupied(j));
            }
            assert forall|j1: int, j2: int|
                #![trigger t1.occupied(j1), t1.occupied(j2)]
                0 <= j1 < 131072 && 0 <= j2 < 131072 && t1.occupied(j1) && t1.occupied(j2)
                    && entry_name(data, t1.entries@[j1]) == entry_name(data, t1.entries@[j2]) implies j1 == j2 by {
                assert(t0.occupied(j1) && t0.occupied(j2));
            }
            assert forall|j: int, d: int|
                0 <= j < 131072 && t1.occupied(j) && 0 <= d < probe_dist(
                    home(key_of(entry_name(data, t1.entries@[j]))),
                    j,
                ) implies #[trigger] t1.occupied((home(key_of(entry_name(data, t1.entries@[j]))) + d) % 131072) by {
                assert(t0.occupied(j));
                assert(t0.occupied((home(key_of(entry_name(data, t0.entries@[j]))) + d) % 131072));
            }
        }
    }

    /// No station of a table has more temperatures than the lines it took in.
    pub proof fn lemma_counts_bounded(self, data: Seq<u8>)
        requires
            self.wf(data),
        ensures
            forall|n: Seq<u8>| #[trigger] self.view(data).dom().contains(n) ==> self.view(data)[n].count <= self.consumed_spec(),
            data_fits(data),
    {
        assert forall|n: Seq<u8>| #[trigger] self.view(data).dom().contains(n) implies self.view(data)[n].count <= self.consumed_spec() by {
            let j = choose|j: int| self.holds(data, j, n);
            self.lemma_view_at(data, j);
            assert(self.occupied(j));
        }
    }
}

/// The statistics of one station as a worker hands them to the merge.
#[derive(Clone, Copy)]
pub struct Agg {
    pub hash: u64,
    pub first_word: u64,
    pub second_word: u64,
    pub name_off: usize,
    pub name_len: u16,
    pub min: i16,
    pub max: i16,
    pub sum: i64,
    pub count: u32,
}

/// The entry that holds the same station and statistics as an `Agg`.
pub open spec fn agg_entry(a: Agg) -> Entry {
    Entry {
        first_word: a.first_word,
        second_word: a.second_word,
        sum: a.sum,
        name_off: a.name_off,
        count: a.count,
        min: a.min,
        max: a.max,
        name_len: a.name_len,
    }
}

/// The station name and statistics of an `Agg`.
pub open spec fn agg_pair(data: Seq<u8>, a: Agg) -> (Seq<u8>, Stats) {
    (entry_name(data, agg_entry(a)), entry_stats(agg_entry(a)))
}

/// An `Agg` names a station of the data, has seen a temperature, and carries
/// the merge hash of its name.
pub open spec fn agg_ok(data: Seq<u8>, a: Agg) -> bool {
    &&& entry_ok(data, agg_entry(a), u32::MAX as int)
    &&& a.count > 0
    &&& a.hash == station_hash(entry_name(data, agg_entry(a)))
}

/// The stations and statistics of a list of `Agg`s.
pub open spec fn agg_pairs(data: Seq<u8>, list: Seq<Agg>) -> Seq<(Seq<u8>, Stats)> {
    list.map_values(|a: Agg| agg_pair(data, a))
}

/// No two `Agg`s of the list name the same station.
pub open spec fn agg_names_distinct(data: Seq<u8>, list: Seq<Agg>) -> bool {
    forall|i: int, j: int|
        0 <= i < list.len() && 0 <= j < list.len() && i != j ==> #[trigger] agg_pair(data, list[i]).0 != #[trigger] agg_pair(data, list[j]).0
}

/// Lists the stations of a table, in the order they were first seen, with
/// their merge hashes.
pub fn collect_stations(data: &[u8], table: &StationTable) -> (out: Vec<Agg>)
    requires
        table.wf(data@),
        all_seen(table.view(data@)),
    ensures
        forall|i: int| 0 <= i < out@.len() ==> #[trigger] agg_ok(data@, out@[i]),
        forall|i: int| 0 <= i < out@.len() ==> (#[trigger] out@[i]).count <= table.consumed_spec(),
        agg_names_distinct(data@, out@),
        stats_total(agg_pairs(data@, out@)) == table.view(data@),
        out@.len() == table.len_spec(),
        agg_pairs(data@, out@) == table.stations(data@),
{
    let ghost d = data@;
    let mut out: Vec<Agg> = Vec::new();
    let mut i: usize = 0;
    while i < table.used.len()
        invariant
            table.wf(d),
            d == data@,
            all_seen(table.view(d)),
            0 <= i <= table.used@.len(),
            out@.len() == i,
            forall|k: int| 0 <= k < i ==> #[trigger] out@[k] == {
                let e = table.entries@[table.used@[k] as int];
                Agg {
                    hash: station_hash(entry_name(d, e)),
                    first_word: e.first_word,
                    second_word: e.second_word,
                    name_off: e.name_off,
                    name_len: e.name_len,
                    min: e.min,
                    max: e.max,
                    sum: e.sum,
                    count: e.count,
                }
            },
        decreases table.used@.len() - i,
    {
        let idx = table.used[i];
        let e = table.entries[idx as usize];
        proof {
            assert(table.occupied(idx as int));
            table.lemma_view_at(d, idx as int);
            assert(entry_ok(d, e, table.consumed@ as int));
            lemma_key_words(d, e.name_off as int, e.name_len as int);
        }
        let hash = hash_from_parts(data, e.name_off, e.name_len as usize, e.first_word, e.second_word);
        proof {
            assert(hash == station_hash(entry_name(d, e)));
        }
        out.push(Agg {
            hash,
            first_word: e.first_word,
            second_word: e.second_word,
            name_off: e.name_off,
            name_len: e.name_len,
            min: e.min,
            max: e.max,
            sum: e.sum,
            count: e.count,
        });
        i += 1;
    }
    proof {
        let pairs = agg_pairs(d, out@);
        assert forall|k: int| 0 <= k < out@.len() implies #[trigger] agg_ok(d, out@[k]) && out@[k].count <= table.consumed_spec() by {
            let j = table.used@[k] as int;
            assert(table.occupied(j));
            table.lemma_view_at(d, j);
            assert(agg_entry(out@[k]) == table.entries@[j]);
        }
        assert forall|a: int, b: int|
            0 <= a < out@.len() && 0 <= b < out@.len() && a != b implies #[trigger] agg_pair(d, out@[a]).0 != #[trigger] agg_pair(d, out@[b]).0 by {
            let ja = table.used@[a] as int;
            let jb = table.used@[b] as int;
            assert(table.occupied(ja) && table.occupied(jb));
            assert(agg_entry(out@[a]) == table.entries@[ja]);
            assert(agg_entry(out@[b]) == table.entries@[jb]);
        }
        table.lemma_total_of_used(d, out@);
        assert forall|k: int| 0 <= k < out@.len() implies #[trigger] agg_pairs(d, out@)[k] == table.stations(d)[k] by {
            assert(agg_entry(out@[k]) == table.entries@[table.used@[k] as int]);
        }
        assert(agg_pairs(d, out@) =~= table.stations(d));
    }
    out
}

impl StationTable {
    proof fn lemma_total_prefix(self, data: Seq<u8>, out: Seq<Agg>, i: int)
        requires
            self.wf(data),
            all_seen(self.view(data)),
            out.len() == self.used@.len(),
            forall|k: int| 0 <= k < out.len() ==> agg_entry(#[trigger] out[k]) == self.entries@[self.used@[k] as int],
            0 <= i <= out.len(),
        ensures
            stats_total(agg_pairs(data, out).subrange(0, i)) == Map::new(
                |m: Seq<u8>| exists|k: int| 0 <= k < i && agg_pairs(data, out)[k].0 == m,
                |m: Seq<u8>| self.view(data)[m],
            ),
        decreases i,
    {
        let pairs = agg_pairs(data, out);
        if i == 0 {
            assert(pairs.subrange(0, 0) =~= Seq::<(Seq<u8>, Stats)>::empty());
            assert(Map::new(
                |m: Seq<u8>| exists|k: int| 0 <= k < i && pairs[k].0 == m,
                |m: Seq<u8>| self.view(data)[m],
            ) =~= Map::<Seq<u8>, Stats>::empty());
        } else {
            let i0 = i - 1;
            self.lemma_total_prefix(data, out, i0);
            let j = self.used@[i0] as int;
            assert(self.occupied(j));
            self.lemma_view_at(data, j);
            let nm = pairs[i0].0;
            assert(pairs[i0] == (entry_name(data, self.entries@[j]), entry_stats(self.entries@[j])));
            let before = Map::new(
                |m: Seq<u8>| exists|k: int| 0 <= k < i0 && pairs[k].0 == m,
                |m: Seq<u8>| self.view(data)[m],
            );
            let after = Map::new(
                |m: Seq<u8>| exists|k: int| 0 <= k < i && pairs[k].0 == m,
                |m: Seq<u8>| self.view(data)[m],
            );
            assert(pairs.subrange(0, i).drop_last() =~= pairs.subrange(0, i0));
            assert(pairs.subrange(0, i).last() == pairs[i0]);
            assert(!before.dom().contains(nm)) by {
                if before.dom().contains(nm) {
                    let k = choose|k: int| 0 <= k < i0 && pairs[k].0 == nm;
                    let jk = self.used@[k] as int;
                    assert(self.occupied(jk));
                    assert(pairs[k] == (entry_name(data, self.entries@[jk]), entry_stats(self.entries@[jk])));
                    assert(self.used@[k] != self.used@[i0]);
                }
            }
            assert forall|m: Seq<u8>| before.dom().contains(m) implies before[m].count > 0 by {
                let k = choose|k: int| 0 <= k < i0 && pairs[k].0 == m;
                let jk = self.used@[k] as int;
                assert(self.occupied(jk));
                self.lemma_view_at(data, jk);
                assert(pairs[k] == (entry_name(data, self.entries@[jk]), entry_stats(self.entries@[jk])));
            }
            assert forall|m: Seq<u8>| after.dom().contains(m) <==> (before.dom().contains(m) || m == nm) by {
                if after.dom().contains(m) && m != nm {
                    let k = choose|k: int| 0 <= k < i && pairs[k].0 == m;
                    assert(k != i0);
                }
            }
            assert(combine(before, single(nm, pairs[i0].1)) =~= after);
        }
    }

    /// The statistics of the stations listed slot by slot in the order of
    /// `used` are the table's view.
    proof fn lemma_total_of_used(self, data: Seq<u8>, out: Seq<Agg>)
        requires
            self.wf(data),
            all_seen(self.view(data)),
            out.len() == self.used@.len(),
            forall|k: int| 0 <= k < out.len() ==> agg_entry(#[trigger] out[k]) == self.entries@[self.used@[k] as int],
        ensures
            stats_total(agg_pairs(data, out)) == self.view(data),
    {
        let pairs = agg_pairs(data, out);
        let n = out.len() as int;
        self.lemma_total_prefix(data, out, n);
        assert(pairs.subrange(0, n) =~= pairs);
        assert forall|m: Seq<u8>| #[trigger] self.view(data).dom().contains(m) <==> exists|k: int| 0 <= k < n && pairs[k].0 == m by {
            if self.view(data).dom().contains(m) {
                let j = choose|j: int| self.holds(data, j, m);
                assert(self.used@.contains(j as u32));
                let k = choose|k: int| 0 <= k < self.used@.len() && self.used@[k] == j as u32;
                assert(pairs[k] == (entry_name(data, self.entries@[j]), entry_stats(self.entries@[j])));
            }
            if exists|k: int| 0 <= k < n && pairs[k].0 == m {
                let k = choose|k: int| 0 <= k < n && pairs[k].0 == m;
                let jk = self.used@[k] as int;
                assert(self.occupied(jk));
                assert(pairs[k] == (entry_name(data, self.entries@[jk]), entry_stats(self.entries@[jk])));
                assert(self.holds(data, jk, m));
            }
        }
        assert(stats_total(pairs) =~= self.view(data));
    }
}

/// A table of 131072 slots in which fewer slots are listed as used than
/// there are slots, and every occupied slot is listed, has an empty slot.
pub proof fn lemma_pigeonhole(used: Seq<u32>, entries: Seq<Entry>) -> (e: int)
    requires
        used.len() < 131072,
        entries.len() == 131072,
        forall|j: int| 0 <= j < 131072 && #[trigger] entries[j].name_len != 0 ==> used.contains(j as u32),
    ensures
        0 <= e < 131072,
        entries[e].name_len == 0,
{
    if forall|j: int| 0 <= j < 131072 ==> #[trigger] entries[j].name_len != 0 {
        let full = vstd::set_lib::set_int_range(0, 131072);
        let seen = used.map_values(|x: u32| x as int).to_set();
        vstd::set_lib::lemma_int_range(0, 131072);
        assert forall|j: int| full.contains(j) implies seen.contains(j) by {
            assert(entries[j].name_len != 0);
            assert(used.contains(j as u32));
            let i = choose|i: int| 0 <= i < used.len() && used[i] == j as u32;
            assert(used.map_values(|x: u32| x as int)[i] == j);
        }
        used.map_values(|x: u32| x as int).lemma_cardinality_of_set();
        vstd::set_lib::lemma_len_subset(full, seen);
        assert(false);
        0
    } else {
        choose|j: int| 0 <= j < 131072 && entries[j].name_len == 0
    }
}

/// A station absent from a map has empty statistics in it.
pub open spec fn stats_of_absent(m: Map<Seq<u8>, Stats>, n: Seq<u8>) -> bool {
    !m.dom().contains(n) ==> crate::stats::stats_of(m, n) == empty_stats()
}

} // verus!
