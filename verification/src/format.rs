//! Decimal text of integers and of temperatures in tenths of a degree.

use vstd::prelude::*;
use crate::word::{word_at, byte_at, byte_of, lemma_word_at_bytes};
use crate::number::{temp_word_ok, temp_word_value};

verus! {

/// The decimal digits of `n`, without leading zeros (`0` for zero).
pub open spec fn decimal(n: nat) -> Seq<u8>
    decreases n,
{
    if n < 10 {
        seq![(48 + n) as u8]
    } else {
        decimal(n / 10).push((48 + n % 10) as u8)
    }
}

/// `v` tenths written as `-?d+.d`.
pub open spec fn tenths(v: int) -> Seq<u8> {
    let a: nat = if v < 0 {
        (-v) as nat
    } else {
        v as nat
    };
    (if v < 0 {
        seq![45u8]
    } else {
        Seq::<u8>::empty()
    }) + decimal(a / 10) + seq![46u8, (48 + a % 10) as u8]
}

/// Ten to the power `i`.
pub open spec fn pow10(i: nat) -> nat
    decreases i,
{
    if i == 0 {
        1
    } else {
        10 * pow10((i - 1) as nat)
    }
}

/// Appends the decimal digits of `n` to `out`.
pub fn push_u64(n: u64, out: &mut Vec<u8>)
    ensures
        final(out)@ == old(out)@ + decimal(n as nat),
{
    let mut n = n;
    let ghost n0 = n as nat;
    let mut tmp = [0u8; 20];
    let mut i = tmp.len();
    if n == 0 {
        out.push(48u8);
        return ;
    }
    proof {
        reveal_with_fuel(pow10, 21);
    }
    while n != 0
        invariant
            i <= 20,
            tmp@.len() == 20,
            n0 > 0,
            (n as nat) < pow10(i as nat),
            decimal(n0) == (if n == 0 {
                Seq::<u8>::empty()
            } else {
                decimal(n as nat)
            }) + tmp@.subrange(i as int, 20),
        decreases n,
    {
        let q = n / 10;
        let r = (n - q * 10) as u8;
        proof {
            if i == 0 {
                assert(pow10(0) == 1);
            }
            assert(pow10(i as nat) == 10 * pow10((i - 1) as nat));
        }
        let ghost old_t = tmp@;
        i -= 1;
        tmp[i] = 48u8 + r;
        proof {
            let rest = if q == 0 {
                Seq::<u8>::empty()
            } else {
                decimal(q as nat)
            };
            assert(decimal(n as nat) == rest.push((48 + r) as u8));
            assert(tmp@.subrange(i as int, 20) =~= seq![(48 + r) as u8] + old_t.subrange(i + 1, 20));
            assert(rest.push((48 + r) as u8) + old_t.subrange(i + 1, 20) =~= rest + tmp@.subrange(i as int, 20));
        }
        n = q;
    }
    let mut j = i;
    while j < 20
        invariant
            i <= j <= 20,
            tmp@.len() == 20,
            decimal(n0) == tmp@.subrange(i as int, 20),
            out@ == old(out)@ + tmp@.subrange(i as int, j as int),
        decreases 20 - j,
    {
        out.push(tmp[j]);
        proof {
            assert(tmp@.subrange(i as int, j + 1) =~= tmp@.subrange(i as int, j as int).push(tmp@[j as int]));
        }
        j += 1;
    }
}

/// Appends `val` tenths as `-?d+.d`.
pub fn push_tenths_i64(val: i64, out: &mut Vec<u8>)
    requires
        val != i64::MIN,
    ensures
        final(out)@ == old(out)@ + tenths(val as int),
{
    let negative = val < 0;
    let mut abs = (if negative {
        -val
    } else {
        val
    }) as u64;
    let frac = (abs % 10) as u8;
    abs /= 10;
    let ghost before = out@;
    if negative {
        out.push(45u8);
    }
    push_u64(abs, out);
    out.push(46u8);
    out.push(48u8 + frac);
    proof {
        let a: nat = if val < 0 { (-val) as nat } else { val as nat };
        assert(abs as nat == a / 10);
        assert(frac as nat == a % 10);
        assert(out@ =~= before + tenths(val as int));
    }
}

/// Appends `val` tenths as `-?d+.d`.
pub fn push_tenths_i16(val: i16, out: &mut Vec<u8>)
    ensures
        final(out)@ == old(out)@ + tenths(val as int),
{
    push_tenths_i64(val as i64, out);
}

/// A temperature the report writes (tenths within -99.9..99.9) reads back
/// as the same temperature: the report's numbers are in the format of the
/// input.
pub proof fn lemma_temperature_round_trip(v: int)
    requires
        -999 <= v <= 999,
    ensures
        temp_word_ok(word_at(tenths(v), 0)),
        temp_word_value(word_at(tenths(v), 0)) == v,
{
    let t = tenths(v);
    let a: nat = if v < 0 { (-v) as nat } else { v as nat };
    let w = word_at(t, 0);
    lemma_word_at_bytes(t, 0);
    reveal_with_fuel(decimal, 2);
    let sign = if v < 0 { seq![45u8] } else { Seq::<u8>::empty() };
    let frac = seq![46u8, (48 + a % 10) as u8];
    if a / 10 < 10 {
        assert(decimal(a / 10) == seq![(48 + a / 10) as u8]);
    } else {
        assert(decimal(a / 10) == seq![(48 + a / 100) as u8, (48 + (a / 10) % 10) as u8]);
    }
    assert(t == sign + decimal(a / 10) + frac);
    assert(byte_of(w, 0) == byte_at(t, 0));
    assert(byte_of(w, 1) == byte_at(t, 1));
    assert(byte_of(w, 2) == byte_at(t, 2));
    assert(byte_of(w, 3) == byte_at(t, 3));
    assert(byte_of(w, 4) == byte_at(t, 4));
    assert(a == 100 * (a / 100) + 10 * ((a / 10) % 10) + a % 10);
    assert(a < 100 ==> a == 10 * (a / 10) + a % 10);
}

} // verus!
