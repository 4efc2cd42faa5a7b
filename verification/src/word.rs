//! Little-endian 8-byte words read from a byte buffer, and the SWAR search
//! for a byte inside such a word.

use vstd::prelude::*;

verus! {

/// The byte at `i`, or 0 past the end of the buffer (a mapped file reads
/// as zeros after its last byte).
pub open spec fn byte_at(data: Seq<u8>, i: int) -> u8 {
    if 0 <= i < data.len() {
        data[i]
    } else {
        0
    }
}

/// Byte number `k` (0 is the least significant) of a word.
pub open spec fn byte_of(w: u64, k: u64) -> u8 {
    ((w >> (k * 8) as u64) & 0xff) as u8
}

/// Eight bytes packed little-endian into a word.
pub open spec fn pack(b0: u8, b1: u8, b2: u8, b3: u8, b4: u8, b5: u8, b6: u8, b7: u8) -> u64 {
    (b0 as u64) | ((b1 as u64) << 8) | ((b2 as u64) << 16) | ((b3 as u64) << 24) | ((b4 as u64)
        << 32) | ((b5 as u64) << 40) | ((b6 as u64) << 48) | ((b7 as u64) << 56)
}

/// The word whose bytes are those of `data` from position `p` on.
pub open spec fn word_at(data: Seq<u8>, p: int) -> u64 {
    pack(
        byte_at(data, p),
        byte_at(data, p + 1),
        byte_at(data, p + 2),
        byte_at(data, p + 3),
        byte_at(data, p + 4),
        byte_at(data, p + 5),
        byte_at(data, p + 6),
        byte_at(data, p + 7),
    )
}

/// Index of the first byte of `w`, from `k` on, that equals `b`; 8 if none.
pub open spec fn first_match_from(w: u64, b: u8, k: u64) -> u64
    decreases 8 - k,
{
    if k >= 8 {
        8
    } else if byte_of(w, k) == b {
        k
    } else {
        first_match_from(w, b, (k + 1) as u64)
    }
}

/// Index of the first byte of `w` that equals `b`; 8 if none.
pub open spec fn first_match(w: u64, b: u8) -> u64 {
    first_match_from(w, b, 0)
}

/// The bytes of a packed word are the bytes it was packed from.
pub proof fn lemma_pack_bytes(b0: u8, b1: u8, b2: u8, b3: u8, b4: u8, b5: u8, b6: u8, b7: u8)
    by (bit_vector)
    ensures
        byte_of(pack(b0, b1, b2, b3, b4, b5, b6, b7), 0) == b0,
        byte_of(pack(b0, b1, b2, b3, b4, b5, b6, b7), 1) == b1,
        byte_of(pack(b0, b1, b2, b3, b4, b5, b6, b7), 2) == b2,
        byte_of(pack(b0, b1, b2, b3, b4, b5, b6, b7), 3) == b3,
        byte_of(pack(b0, b1, b2, b3, b4, b5, b6, b7), 4) == b4,
        byte_of(pack(b0, b1, b2, b3, b4, b5, b6, b7), 5) == b5,
        byte_of(pack(b0, b1, b2, b3, b4, b5, b6, b7), 6) == b6,
        byte_of(pack(b0, b1, b2, b3, b4, b5, b6, b7), 7) == b7,
{
}

/// The mask `find_delim` computes: the byte-wise zero test on
/// `word ^ (byte repeated)`, whose lowest set bit is bit 7 of the first byte
/// of `word` equal to `byte`.
pub open spec fn delim_mask(word: u64, byte: u8) -> u64 {
    let input = word ^ repeat_byte(byte);
    (vstd::wrapping::u64_specs::wrapping_sub(input, 0x0101_0101_0101_0101u64) & !input) & 0x8080_8080_8080_8080u64
}

/// Marks the bytes of `word` equal to `byte`: the lowest set bit of the
/// result is bit 7 of the first such byte, and the result is 0 when there is
/// none.
pub fn find_delim(word: u64, byte: u8) -> (r: u64)
    ensures
        r == delim_mask(word, byte),
        r & 0x7F7F_7F7F_7F7F_7F7Fu64 == 0,
        (r.trailing_zeros() >> 3) as u64 == first_match(word, byte),
        r == 0 <==> first_match(word, byte) == 8,
        r != 0 ==> r.trailing_zeros() == first_match(word, byte) * 8 + 7,
{
    let rep: u64 = (byte as u64) * 0x0101_0101_0101_0101u64;
    let input = word ^ rep;
    let t = input.wrapping_sub(0x0101_0101_0101_0101);
    let r = (t & !input) & 0x8080_8080_8080_8080;
    proof {
        assert(rep == repeat_byte(byte));
        assert(r & 0x7F7F_7F7F_7F7F_7F7Fu64 == 0) by (bit_vector)
            requires
                r == (t & !input) & 0x8080_8080_8080_8080u64,
        ;
        lemma_first_match_bound(input, 0, 0);
        lemma_swar_zero_byte(input, t, r);
        lemma_xor_bytes(word, byte, input);
        lemma_lowest_bit(r, first_match(input, 0));
        lemma_first_match_xor(word, byte, input);
    }
    r
}

/// Byte `k` of `word ^ (byte repeated)` is 0 exactly where byte `k` of `word` is `byte`.
proof fn lemma_xor_bytes(word: u64, byte: u8, input: u64)
    requires
        input == word ^ repeat_byte(byte),
    ensures
        forall|k: u64| k < 8 ==> (#[trigger] byte_of(input, k) == 0 <==> byte_of(word, k) == byte),
{
    assert forall|k: u64| k < 8 implies (#[trigger] byte_of(input, k) == 0 <==> byte_of(word, k)
        == byte) by {
        assert(k < 8 && input == word ^ repeat_byte(byte) ==> (((input
            >> (k * 8) as u64) & 0xff) as u8 == 0 <==> ((word >> (k * 8) as u64) & 0xff) as u8
            == byte)) by (bit_vector);
    }
}

proof fn lemma_first_match_xor(word: u64, byte: u8, input: u64)
    requires
        forall|k: u64| k < 8 ==> (#[trigger] byte_of(input, k) == 0 <==> byte_of(word, k) == byte),
    ensures
        first_match(input, 0) == first_match(word, byte),
{
    assert(byte_of(input, 0) == 0 <==> byte_of(word, 0) == byte);
    assert(byte_of(input, 1) == 0 <==> byte_of(word, 1) == byte);
    assert(byte_of(input, 2) == 0 <==> byte_of(word, 2) == byte);
    assert(byte_of(input, 3) == 0 <==> byte_of(word, 3) == byte);
    assert(byte_of(input, 4) == 0 <==> byte_of(word, 4) == byte);
    assert(byte_of(input, 5) == 0 <==> byte_of(word, 5) == byte);
    assert(byte_of(input, 6) == 0 <==> byte_of(word, 6) == byte);
    assert(byte_of(input, 7) == 0 <==> byte_of(word, 7) == byte);
    reveal_with_fuel(first_match_from, 9);
}

/// The classic zero-byte test: below the first zero byte of `x` no bit is
/// set, and bit 7 of that byte is set.
proof fn lemma_swar_zero_byte(x: u64, t: u64, r: u64)
    requires
        t == vstd::wrapping::u64_specs::wrapping_sub(x, 0x0101_0101_0101_0101u64),
        r == (t & !x) & 0x8080_8080_8080_8080u64,
    ensures
        first_match(x, 0) < 8 ==> r & low_mask((first_match(x, 0) * 8 + 7) as u64) == 0
            && (r >> (first_match(x, 0) * 8 + 7) as u64) & 1 == 1,
        first_match(x, 0) == 8 ==> r == 0,
{
    assert(t == ((x - 0x0101_0101_0101_0101u64) as u64)) by (bit_vector)
        requires
            t == vstd::wrapping::u64_specs::wrapping_sub(x, 0x0101_0101_0101_0101u64),
    ;
    lemma_swar_cases(x, t, r);
    reveal_with_fuel(first_match_from, 9);
}

/// The zero-byte test, byte by byte.
proof fn lemma_swar_cases(x: u64, t: u64, r: u64)
    by (bit_vector)
    requires
        t == ((x - 0x0101_0101_0101_0101u64) as u64),
        r == (t & !x) & 0x8080_8080_8080_8080u64,
    ensures
        byte_of(x, 0) == 0 ==> r & low_mask(7) == 0 && (r >> 7u64) & 1 == 1,
        byte_of(x, 0) != 0 && byte_of(x, 1) == 0 ==> r & low_mask(15) == 0 && (r >> 15u64) & 1 == 1,
        byte_of(x, 0) != 0 && byte_of(x, 1) != 0 && byte_of(x, 2) == 0 ==> r & low_mask(23) == 0 && (r >> 23u64) & 1 == 1,
        byte_of(x, 0) != 0 && byte_of(x, 1) != 0 && byte_of(x, 2) != 0 && byte_of(x, 3) == 0 ==> r & low_mask(31) == 0 && (r >> 31u64) & 1 == 1,
        byte_of(x, 0) != 0 && byte_of(x, 1) != 0 && byte_of(x, 2) != 0 && byte_of(x, 3) != 0 && byte_of(x, 4) == 0 ==> r & low_mask(39) == 0 && (r >> 39u64) & 1 == 1,
        byte_of(x, 0) != 0 && byte_of(x, 1) != 0 && byte_of(x, 2) != 0 && byte_of(x, 3) != 0 && byte_of(x, 4) != 0 && byte_of(x, 5) == 0 ==> r & low_mask(47) == 0 && (r >> 47u64) & 1 == 1,
        byte_of(x, 0) != 0 && byte_of(x, 1) != 0 && byte_of(x, 2) != 0 && byte_of(x, 3) != 0 && byte_of(x, 4) != 0 && byte_of(x, 5) != 0 && byte_of(x, 6) == 0 ==> r & low_mask(55) == 0 && (r >> 55u64) & 1 == 1,
        byte_of(x, 0) != 0 && byte_of(x, 1) != 0 && byte_of(x, 2) != 0 && byte_of(x, 3) != 0 && byte_of(x, 4) != 0 && byte_of(x, 5) != 0 && byte_of(x, 6) != 0 && byte_of(x, 7) == 0 ==> r & low_mask(63) == 0 && (r >> 63u64) & 1 == 1,
        byte_of(x, 0) != 0 && byte_of(x, 1) != 0 && byte_of(x, 2) != 0 && byte_of(x, 3) != 0 && byte_of(x, 4) != 0 && byte_of(x, 5) != 0 && byte_of(x, 6) != 0 && byte_of(x, 7) != 0 ==> r == 0,
{
}

/// `first_match_from` is the first matching byte from `k` on, or 8.
pub proof fn lemma_first_match_bound(w: u64, b: u8, k: u64)
    requires
        k <= 8,
    ensures
        k <= first_match_from(w, b, k) <= 8,
        first_match_from(w, b, k) < 8 ==> byte_of(w, first_match_from(w, b, k)) == b,
        forall|i: u64| k <= i < first_match_from(w, b, k) ==> byte_of(w, i) != b,
    decreases 8 - k,
{
    if k < 8 {
        lemma_first_match_bound(w, b, (k + 1) as u64);
    }
}

/// `b` in each of the eight bytes of a word.
pub open spec fn repeat_byte(b: u8) -> u64 {
    ((b as u64) * 0x0101_0101_0101_0101u64) as u64
}

/// Mask of the `n` lowest bits.
pub open spec fn low_mask(n: u64) -> u64 {
    if n >= 64 {
        0xffff_ffff_ffff_ffff
    } else {
        ((1u64 << n) - 1) as u64
    }
}

/// A word whose bits below `n` are clear and whose bit `n` is set has
/// exactly `n` trailing zeros; a zero word has 64.
proof fn lemma_lowest_bit(r: u64, j: u64)
    requires
        j <= 8,
        j < 8 ==> r & low_mask((j * 8 + 7) as u64) == 0 && (r >> (j * 8 + 7) as u64) & 1 == 1,
        j == 8 ==> r == 0,
    ensures
        (r.trailing_zeros() >> 3) as u64 == j,
        r == 0 <==> j == 8,
        j < 8 ==> r.trailing_zeros() == j * 8 + 7,
{
    let t32 = r.trailing_zeros();
    if j < 8 {
        lemma_tz_exact(r, (j * 8 + 7) as u64);
    } else {
        broadcast use vstd::std_specs::bits::axiom_u64_trailing_zeros;
    }
    assert((j < 8 && t32 as u64 == (j * 8 + 7) as u64 ==> (t32 >> 3) as u64 == j) && (t32 == 64 ==> (t32 >> 3) as u64 == 8))
        by (bit_vector);
}

/// Reads the word at `pos` (bytes past the end of `data` read as 0).
pub fn load_u64(data: &[u8], pos: usize) -> (w: u64)
    requires
        pos <= usize::MAX - 8,
    ensures
        w == word_at(data@, pos as int),
{
    let b0 = get_byte(data, pos);
    let b1 = get_byte(data, pos + 1);
    let b2 = get_byte(data, pos + 2);
    let b3 = get_byte(data, pos + 3);
    let b4 = get_byte(data, pos + 4);
    let b5 = get_byte(data, pos + 5);
    let b6 = get_byte(data, pos + 6);
    let b7 = get_byte(data, pos + 7);
    (b0 as u64) | ((b1 as u64) << 8) | ((b2 as u64) << 16) | ((b3 as u64) << 24) | ((b4 as u64)
        << 32) | ((b5 as u64) << 40) | ((b6 as u64) << 48) | ((b7 as u64) << 56)
}

/// The byte at `i`, or 0 past the end of `data`.
pub fn get_byte(data: &[u8], i: usize) -> (b: u8)
    ensures
        b == byte_at(data@, i as int),
{
    if i < data.len() {
        data[i]
    } else {
        0
    }
}

/// The bytes of the word read at `p` are those of `data` at `p..p + 8`.
pub proof fn lemma_word_at_bytes(data: Seq<u8>, p: int)
    ensures
        forall|k: u64| k < 8 ==> #[trigger] byte_of(word_at(data, p), k) == byte_at(data, p + k),
{
    lemma_pack_bytes(
        byte_at(data, p),
        byte_at(data, p + 1),
        byte_at(data, p + 2),
        byte_at(data, p + 3),
        byte_at(data, p + 4),
        byte_at(data, p + 5),
        byte_at(data, p + 6),
        byte_at(data, p + 7),
    );
    assert forall|k: u64| k < 8 implies #[trigger] byte_of(word_at(data, p), k) == byte_at(
        data,
        p + k,
    ) by {
        if k == 0 {
        } else if k == 1 {
        } else if k == 2 {
        } else if k == 3 {
        } else if k == 4 {
        } else if k == 5 {
        } else if k == 6 {
        } else {
        }
    }
}

/// Two words with the same eight bytes are equal.
pub proof fn lemma_word_eq_by_bytes(x: u64, y: u64)
    requires
        forall|k: u64| k < 8 ==> #[trigger] byte_of(x, k) == byte_of(y, k),
    ensures
        x == y,
{
    assert(byte_of(x, 0) == byte_of(y, 0));
    assert(byte_of(x, 1) == byte_of(y, 1));
    assert(byte_of(x, 2) == byte_of(y, 2));
    assert(byte_of(x, 3) == byte_of(y, 3));
    assert(byte_of(x, 4) == byte_of(y, 4));
    assert(byte_of(x, 5) == byte_of(y, 5));
    assert(byte_of(x, 6) == byte_of(y, 6));
    assert(byte_of(x, 7) == byte_of(y, 7));
    assert(byte_of(x, 0) == byte_of(y, 0) && byte_of(x, 1) == byte_of(y, 1) && byte_of(x, 2)
        == byte_of(y, 2) && byte_of(x, 3) == byte_of(y, 3) && byte_of(x, 4) == byte_of(y, 4)
        && byte_of(x, 5) == byte_of(y, 5) && byte_of(x, 6) == byte_of(y, 6) && byte_of(x, 7)
        == byte_of(y, 7) ==> x == y) by (bit_vector);
}

/// Masking a word to its `m` low bytes keeps those bytes and clears the others.
pub proof fn lemma_mask_bytes(w: u64, m: u64)
    requires
        m <= 8,
    ensures
        forall|k: u64|
            k < 8 ==> #[trigger] byte_of(w & low_mask((m * 8) as u64), k) == if k < m {
                byte_of(w, k)
            } else {
                0
            },
{
    assert forall|k: u64| k < 8 implies #[trigger] byte_of(w & low_mask((m * 8) as u64), k) == if k < m {
        byte_of(w, k)
    } else {
        0
    } by {
        assert(m <= 8 && k < 8 ==> byte_of(w & low_mask((m * 8) as u64), k) == if k < m {
            byte_of(w, k)
        } else {
            0
        }) by (bit_vector);
    }
}

/// A word whose bits below `n` are clear and whose bit `n` is set has
/// exactly `n` trailing zeros.
pub proof fn lemma_tz_exact(r: u64, n: u64)
    requires
        n < 64,
        r & low_mask(n) == 0,
        (r >> n) & 1 == 1,
    ensures
        r.trailing_zeros() == n,
{
    broadcast use vstd::std_specs::bits::axiom_u64_trailing_zeros;

    let tz = r.trailing_zeros() as u64;
    assert((r & low_mask(n) == 0 && (r >> n) & 1 == 1 ==> r != 0) && (r & low_mask(n) == 0 && tz < n ==> (r >> tz) & 1 == 0))
        by (bit_vector);
    assert(tz <= n);
}

/// XOR is associative and commutative, with 0 as its identity.
pub proof fn lemma_xor_laws(a: u64, b: u64, c: u64)
    by (bit_vector)
    ensures
        (a ^ b) ^ c == a ^ (b ^ c),
        a ^ b == b ^ a,
        a ^ 0 == a,
        0 ^ a == a,
{
}

/// The low six bits of a count: a shift amount below 64.
pub proof fn lemma_low_six(c: u32)
    by (bit_vector)
    ensures
        c & 63 < 64,
        c & 63 == (c % 64) as u32,
{
}

/// The data leaves room in the address range to read a few words past
/// its end.
pub open spec fn data_fits(data: Seq<u8>) -> bool {
    data.len() + 0x40_0000 <= usize::MAX
}

} // verus!
