//! Temperatures written as `-?d?d.d`, decoded from one word without a loop.

use vstd::prelude::*;
use crate::word::{byte_of, low_mask, lemma_tz_exact};

verus! {

/// An ASCII decimal digit.
pub open spec fn is_digit(b: u8) -> bool {
    48 <= b <= 57
}

/// The value of an ASCII decimal digit.
pub open spec fn digit_value(b: u8) -> int {
    b - 48
}

/// The first bytes of `w` spell a temperature: `d.d`, `dd.d`, `-d.d` or `-dd.d`.
pub open spec fn temp_word_ok(w: u64) -> bool {
    let b0 = byte_of(w, 0);
    let b1 = byte_of(w, 1);
    let b2 = byte_of(w, 2);
    let b3 = byte_of(w, 3);
    let b4 = byte_of(w, 4);
    ||| is_digit(b0) && b1 == 46 && is_digit(b2)
    ||| is_digit(b0) && is_digit(b1) && b2 == 46 && is_digit(b3)
    ||| b0 == 45 && is_digit(b1) && b2 == 46 && is_digit(b3)
    ||| b0 == 45 && is_digit(b1) && is_digit(b2) && b3 == 46 && is_digit(b4)
}

/// Index of the `.` in a temperature word.
pub open spec fn temp_dot_index(w: u64) -> u64 {
    if byte_of(w, 1) == 46 {
        1
    } else if byte_of(w, 2) == 46 {
        2
    } else {
        3
    }
}

/// The temperature spelled by `w`, in tenths of a degree.
pub open spec fn temp_word_value(w: u64) -> int {
    let b0 = byte_of(w, 0);
    let b1 = byte_of(w, 1);
    let b2 = byte_of(w, 2);
    let b3 = byte_of(w, 3);
    let b4 = byte_of(w, 4);
    if b0 == 45 {
        if b2 == 46 {
            -(10 * digit_value(b1) + digit_value(b3))
        } else {
            -(100 * digit_value(b1) + 10 * digit_value(b2) + digit_value(b4))
        }
    } else {
        if b1 == 46 {
            10 * digit_value(b0) + digit_value(b2)
        } else {
            100 * digit_value(b0) + 10 * digit_value(b1) + digit_value(b3)
        }
    }
}

/// Decodes the temperature at the start of `number_word`, whose `.` sits at
/// bit `decimal_sep_pos` (bit 4 of the `.` byte), into tenths of a degree.
pub fn convert_into_number(decimal_sep_pos: u32, number_word: u64) -> (r: i32)
    requires
        decimal_sep_pos <= 28,
    ensures
        temp_word_ok(number_word) && decimal_sep_pos == temp_dot_index(number_word) * 8 + 4 ==> r
            == temp_word_value(number_word),
{
    let shift: u32 = 28 - decimal_sep_pos;
    let signed: i64 = (((!number_word) << 59u32) as i64) >> 63u32;
    let design_mask: u64 = !((signed as u64) & 0xFF);
    let digits: u64 = ((number_word & design_mask) << shift) & 0x000F_000F_0F00u64;
    let abs_value: i32 = (((digits.wrapping_mul(0x640A_0001)) >> 32u32) & 0x3FF) as i32;
    let s: i32 = signed as i32;
    proof {
        assert(-2048 <= (abs_value ^ s) <= 2048 && (s == 0 || s == -1)) by (bit_vector)
            requires
                abs_value == (((vstd::wrapping::u64_specs::wrapping_mul(digits, 0x640A_0001) >> 32u32) & 0x3FF) as i32),
                signed == (((!number_word) << 59u32) as i64) >> 63u32,
                s == signed as i32,
        ;
        if temp_word_ok(number_word) && decimal_sep_pos == temp_dot_index(number_word) * 8 + 4 {
            lemma_convert(decimal_sep_pos, number_word, shift, signed, digits, abs_value);
        }
    }
    (abs_value ^ s) - s
}

proof fn lemma_convert(dsp: u32, w: u64, shift: u32, signed: i64, digits: u64, abs_value: i32)
    requires
        temp_word_ok(w),
        dsp == temp_dot_index(w) * 8 + 4,
        shift == 28 - dsp,
        signed == (((!w) << 59u32) as i64) >> 63u32,
        digits == ((w & !((signed as u64) & 0xFF)) << shift) & 0x000F_000F_0F00u64,
        abs_value == (((vstd::wrapping::u64_specs::wrapping_mul(digits, 0x640A_0001) >> 32u32)
            & 0x3FF) as i32),
    ensures
        (abs_value ^ (signed as i32)) - (signed as i32) == temp_word_value(w),
{
    assert(vstd::wrapping::u64_specs::wrapping_mul(digits, 0x640A_0001) == (digits
        * 0x640A_0001u64) as u64) by (bit_vector);
    let b0 = byte_of(w, 0);
    let b1 = byte_of(w, 1);
    let b2 = byte_of(w, 2);
    let b3 = byte_of(w, 3);
    let b4 = byte_of(w, 4);
    if b0 == 45 && b2 == 46 {
        assert(b0 == 45 && 48 <= b1 <= 57 && b2 == 46 && 48 <= b3 <= 57 && dsp == 20 ==> (abs_value ^ (signed as i32)) - (signed as i32) == -(10 * (b1 - 48) + (b3 - 48)))
            by (bit_vector)
            requires
                b0 == byte_of(w, 0),
                b1 == byte_of(w, 1),
                b2 == byte_of(w, 2),
                b3 == byte_of(w, 3),
                b4 == byte_of(w, 4),
                shift == 28 - dsp,
                signed == (((!w) << 59u32) as i64) >> 63u32,
                digits == ((w & !((signed as u64) & 0xFF)) << shift) & 0x000F_000F_0F00u64,
                abs_value == ((((digits * 0x640A_0001u64) as u64) >> 32u32) & 0x3FF) as i32,
        ;
    } else if b0 == 45 {
        assert(b0 == 45 && 48 <= b1 <= 57 && 48 <= b2 <= 57 && b3 == 46 && 48 <= b4 <= 57 && dsp == 28 ==> (abs_value ^ (signed as i32)) - (signed as i32) == -(100 * (b1 - 48) + 10 * (b2 - 48) + (b4 - 48)))
            by (bit_vector)
            requires
                b0 == byte_of(w, 0),
                b1 == byte_of(w, 1),
                b2 == byte_of(w, 2),
                b3 == byte_of(w, 3),
                b4 == byte_of(w, 4),
                shift == 28 - dsp,
                signed == (((!w) << 59u32) as i64) >> 63u32,
                digits == ((w & !((signed as u64) & 0xFF)) << shift) & 0x000F_000F_0F00u64,
                abs_value == ((((digits * 0x640A_0001u64) as u64) >> 32u32) & 0x3FF) as i32,
        ;
    } else if b1 == 46 {
        assert(48 <= b0 <= 57 && b1 == 46 && 48 <= b2 <= 57 && dsp == 12 ==> (abs_value ^ (signed as i32)) - (signed as i32) == 10 * (b0 - 48) + (b2 - 48))
            by (bit_vector)
            requires
                b0 == byte_of(w, 0),
                b1 == byte_of(w, 1),
                b2 == byte_of(w, 2),
                b3 == byte_of(w, 3),
                b4 == byte_of(w, 4),
                shift == 28 - dsp,
                signed == (((!w) << 59u32) as i64) >> 63u32,
                digits == ((w & !((signed as u64) & 0xFF)) << shift) & 0x000F_000F_0F00u64,
                abs_value == ((((digits * 0x640A_0001u64) as u64) >> 32u32) & 0x3FF) as i32,
        ;
    } else {
        assert(48 <= b0 <= 57 && 48 <= b1 <= 57 && b2 == 46 && 48 <= b3 <= 57 && dsp == 20 ==> (abs_value ^ (signed as i32)) - (signed as i32) == 100 * (b0 - 48) + 10 * (b1 - 48) + (b3 - 48))
            by (bit_vector)
            requires
                b0 == byte_of(w, 0),
                b1 == byte_of(w, 1),
                b2 == byte_of(w, 2),
                b3 == byte_of(w, 3),
                b4 == byte_of(w, 4),
                shift == 28 - dsp,
                signed == (((!w) << 59u32) as i64) >> 63u32,
                digits == ((w & !((signed as u64) & 0xFF)) << shift) & 0x000F_000F_0F00u64,
                abs_value == ((((digits * 0x640A_0001u64) as u64) >> 32u32) & 0x3FF) as i32,
        ;
    }
}

/// Bit 4 is clear in `.` and set in every digit, so the lowest set bit of
/// `!w & 0x10101000` is bit 4 of the `.` byte.
pub proof fn lemma_dot_position(w: u64)
    requires
        temp_word_ok(w),
    ensures
        (!w & 0x1010_1000u64).trailing_zeros() == temp_dot_index(w) * 8 + 4,
{
    let r = !w & 0x1010_1000u64;
    let b0 = byte_of(w, 0);
    let b1 = byte_of(w, 1);
    let b2 = byte_of(w, 2);
    let b3 = byte_of(w, 3);
    if b1 == 46 {
        assert(b1 == 46 ==> r & low_mask(12) == 0 && (r >> 12u64) & 1 == 1) by (bit_vector)
            requires
                r == !w & 0x1010_1000u64,
                b0 == byte_of(w, 0),
                b1 == byte_of(w, 1),
                b2 == byte_of(w, 2),
                b3 == byte_of(w, 3),
        ;
        lemma_tz_exact(r, 12);
    } else if b2 == 46 {
        assert(48 <= b1 <= 57 && b2 == 46 ==> r & low_mask(20) == 0 && (r >> 20u64) & 1 == 1) by (bit_vector)
            requires
                r == !w & 0x1010_1000u64,
                b0 == byte_of(w, 0),
                b1 == byte_of(w, 1),
                b2 == byte_of(w, 2),
                b3 == byte_of(w, 3),
        ;
        lemma_tz_exact(r, 20);
    } else {
        assert(48 <= b1 <= 57 && 48 <= b2 <= 57 && b3 == 46 ==> r & low_mask(28) == 0 && (r >> 28u64) & 1 == 1) by (bit_vector)
            requires
                r == !w & 0x1010_1000u64,
                b0 == byte_of(w, 0),
                b1 == byte_of(w, 1),
                b2 == byte_of(w, 2),
                b3 == byte_of(w, 3),
        ;
        lemma_tz_exact(r, 28);
    }
}

} // verus!
