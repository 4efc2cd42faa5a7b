//! Station keys (the name followed by its `;`), the two words that identify
//! short keys, and the hash that places a key in a table.

use vstd::prelude::*;
use crate::word::{word_at, byte_at, byte_of, load_u64, data_fits, lemma_word_at_bytes, lemma_word_eq_by_bytes, lemma_xor_laws};

verus! {

/// The key of a station: its name and the `;` that ends it.
pub open spec fn key_of(name: Seq<u8>) -> Seq<u8> {
    name.push(59)
}

/// The first word of a key (zero-padded when the key is shorter).
pub open spec fn key_first(k: Seq<u8>) -> u64 {
    word_at(k, 0)
}

/// The second word of a key (zero-padded when the key is shorter).
pub open spec fn key_second(k: Seq<u8>) -> u64 {
    word_at(k, 8)
}

/// Hash of the words of a key from offset `p` on; the last word keeps only
/// the bytes up to the `;`, moved to its top.
pub open spec fn tail_hash(k: Seq<u8>, p: int) -> u64
    decreases k.len() - p,
{
    if k.len() - p <= 8 {
        word_at(k, p) << ((56 - 8 * (k.len() - 1 - p)) as u64)
    } else {
        word_at(k, p) ^ tail_hash(k, p + 8)
    }
}

/// The hash of a key.
pub open spec fn key_hash(k: Seq<u8>) -> u64 {
    if k.len() <= 16 {
        key_first(k) ^ key_second(k)
    } else {
        key_first(k) ^ key_second(k) ^ tail_hash(k, 16)
    }
}

/// The bits of a hash mixed before they pick a slot.
pub open spec fn mix(h: u64) -> u64 {
    h ^ (h >> 33u64) ^ (h >> 15u64)
}

/// Picks a slot for `hash` in a table of `mask + 1` slots.
pub fn hash_to_index_sized(hash: u64, mask: usize) -> (r: usize)
    ensures
        r == ((mix(hash) as usize) & mask),
        r <= mask,
{
    let h = hash ^ (hash >> 33u32) ^ (hash >> 15u32);
    let r = (h as usize) & mask;
    assert(r <= mask) by (bit_vector)
        requires
            r == (h as usize) & mask,
    ;
    r
}

/// The hash of a station's name: that of its key, which merging uses to
/// place the station; it depends on the name's bytes alone.
pub open spec fn station_hash(name: Seq<u8>) -> u64 {
    key_hash(key_of(name))
}

/// The merge hash of the station named at `off`, from the key words
/// `first` and `second` its slot keeps and, for a key longer than 16 bytes,
/// the rest of the key read from the data word by word from the key's start,
/// the last word shifted so that the `;` is its top byte.
pub fn hash_from_parts(data: &[u8], off: usize, name_len: usize, first: u64, second: u64) -> (h: u64)
    requires
        data_fits(data@),
        name_len + 1 > 16 ==> off + name_len < data.len() && data@[off + name_len as int] == 59,
    ensures
        name_len + 1 <= 16 ==> h == first ^ second,
        name_len + 1 > 16 ==> h == first ^ second ^ tail_hash(key_of(data@.subrange(off as int, off + name_len)), 16),
        off + name_len <= data.len() && first == key_first(key_of(data@.subrange(off as int, off + name_len)))
            && second == key_second(key_of(data@.subrange(off as int, off + name_len)))
            ==> h == station_hash(data@.subrange(off as int, off + name_len)),
{
    let total_len = name_len + 1;
    let hash = first ^ second;
    if total_len <= 16 {
        return hash;
    }
    let ghost k = key_of(data@.subrange(off as int, off + name_len));
    proof {
        assert(k =~= data@.subrange(off as int, off + total_len));
    }
    let mut hash = hash;
    let mut p: usize = 16;
    while total_len - p > 8
        invariant
            16 <= p < total_len,
            p % 8 == 0,
            total_len == name_len + 1,
            off + name_len < data.len(),
            data_fits(data@),
            k == data@.subrange(off as int, off + total_len),
            k.len() == total_len,
            hash ^ tail_hash(k, p as int) == first ^ second ^ tail_hash(k, 16),
        decreases total_len - p,
    {
        let w = load_u64(data, off + p);
        proof {
            lemma_word_at_bytes(data@, (off + p) as int);
            lemma_word_at_bytes(k, p as int);
            assert forall|i: u64| i < 8 implies #[trigger] byte_of(w, i) == byte_of(word_at(k, p as int), i) by {
                assert(byte_at(k, p + i) == byte_at(data@, off + p + i));
            }
            lemma_word_eq_by_bytes(w, word_at(k, p as int));
            assert(tail_hash(k, p as int) == word_at(k, p as int) ^ tail_hash(k, p + 8));
            lemma_xor_laws(hash, w, tail_hash(k, p + 8));
        }
        hash = hash ^ w;
        p = p + 8;
    }
    let w = load_u64(data, off + p);
    let j = total_len - 1 - p;
    proof {
        lemma_word_at_bytes(data@, (off + p) as int);
        lemma_word_at_bytes(k, p as int);
        assert forall|i: u64| i <= j implies #[trigger] byte_of(w, i) == byte_of(word_at(k, p as int), i) by {
            assert(byte_at(k, p + i) == byte_at(data@, off + p + i));
        }
        crate::table::lemma_shl_low_bytes(w, word_at(k, p as int), j as u64);
        assert(tail_hash(k, p as int) == word_at(k, p as int) << ((56 - 8 * j) as u64));
    }
    hash ^ (w << ((56 - 8 * j) as u64))
}

} // verus!
