//! The measurement file: lines `name;temperature\n`, and the search for
//! line ends that splits it into pieces.

use vstd::prelude::*;
use crate::word::{byte_of, word_at, find_delim, load_u64, lemma_word_at_bytes, lemma_first_match_bound};
use crate::number::{temp_word_ok, temp_dot_index, temp_word_value};

verus! {

/// Position of the first `;` at or after `p`, or the end of the data.
pub open spec fn name_end(data: Seq<u8>, p: int) -> int
    decreases data.len() - p,
{
    if p < 0 || p >= data.len() {
        data.len() as int
    } else if data[p] == 59 {
        p
    } else {
        name_end(data, p + 1)
    }
}

/// The word holding the temperature of the line that starts at `p`.
pub open spec fn temp_word(data: Seq<u8>, p: int) -> u64 {
    word_at(data, name_end(data, p) + 1)
}

/// Position of the `\n` that ends the line starting at `p` (the end of the
/// data for a last line without one).
pub open spec fn line_end(data: Seq<u8>, p: int) -> int {
    name_end(data, p) + 1 + temp_dot_index(temp_word(data, p)) + 2
}

/// The station name of the line starting at `p`.
pub open spec fn line_name(data: Seq<u8>, p: int) -> Seq<u8> {
    data.subrange(p, name_end(data, p))
}

/// The temperature of the line starting at `p`, in tenths of a degree.
pub open spec fn line_value(data: Seq<u8>, p: int) -> int {
    temp_word_value(temp_word(data, p))
}

/// A well-formed line starts at `p`: a name of 1 to 65535 bytes holding no
/// line break, `;`, a temperature, then `\n` or the end of the data.
pub open spec fn line_ok(data: Seq<u8>, p: int) -> bool {
    let q = name_end(data, p);
    &&& 0 <= p < q < data.len()
    &&& q - p <= 65535
    &&& forall|i: int| p <= i < q ==> data[i] != 10
    &&& temp_word_ok(temp_word(data, p))
    &&& line_end(data, p) <= data.len()
    &&& line_end(data, p) < data.len() ==> data[line_end(data, p)] == 10
}

/// Every line that starts in `[s, e)` is well formed, and the last of them
/// ends at or before `e`.
pub open spec fn lines_ok(data: Seq<u8>, s: int, e: int) -> bool
    decreases if s < e { e - s } else { 0 },
{
    if s >= e {
        true
    } else if !line_ok(data, s) || line_end(data, s) > e {
        false
    } else {
        lines_ok(data, line_end(data, s) + 1, e)
    }
}

/// The (name, tenths) pairs of the lines that start in `[s, e)`, in order.
pub open spec fn lines(data: Seq<u8>, s: int, e: int) -> Seq<(Seq<u8>, int)>
    decreases if s < e { e - s } else { 0 },
{
    if s >= e || !line_ok(data, s) {
        Seq::empty()
    } else {
        seq![(line_name(data, s), line_value(data, s))] + lines(data, line_end(data, s) + 1, e)
    }
}

/// Position of the first `\n` in `[p, end)`, or `end` if there is none.
pub open spec fn first_newline(data: Seq<u8>, p: int, end: int) -> int
    decreases end - p,
{
    if p >= end {
        end
    } else if 0 <= p < data.len() && data[p] == 10 {
        p
    } else {
        first_newline(data, p + 1, end)
    }
}

proof fn lemma_first_newline_skip(data: Seq<u8>, p: int, k: int, end: int)
    requires
        0 <= p,
        0 <= k,
        p + k <= end <= data.len(),
        forall|i: int| p <= i < p + k ==> data[i] != 10,
    ensures
        first_newline(data, p, end) == first_newline(data, p + k, end),
    decreases k,
{
    if k > 0 {
        lemma_first_newline_skip(data, p + 1, k - 1, end);
    }
}

/// Returns the position of the first `\n` in `[pos, file_end)`, or
/// `file_end` if there is none.
pub fn next_newline(start: usize, file_end: usize, data: &[u8]) -> (r: usize)
    requires
        file_end <= data.len(),
    ensures
        r == first_newline(data@, start as int, file_end as int),
{
    let mut pos = start;
    let ghost target = first_newline(data@, start as int, file_end as int);
    while pos <= file_end && 8 <= file_end - pos
        invariant
            file_end <= data.len(),
            first_newline(data@, pos as int, file_end as int) == target,
            target == first_newline(data@, start as int, file_end as int),
        decreases file_end - pos,
    {
        let word = load_u64(data, pos);
        let m = find_delim(word, 10u8);
        proof {
            lemma_word_at_bytes(data@, pos as int);
            lemma_first_match_bound(word, 10u8, 0);
        }
        if m != 0 {
            let j = (m.trailing_zeros() >> 3) as usize;
            proof {
                assert forall|i: int| pos <= i < pos + j implies data@[i] != 10 by {
                    assert(byte_of(word, (i - pos) as u64) != 10);
                }
                assert(byte_of(word, j as u64) == 10);
                assert(data@[pos + j] == 10);
                lemma_first_newline_skip(data@, pos as int, j as int, file_end as int);
            }
            return pos + j;
        }
        proof {
            assert forall|i: int| pos <= i < pos + 8 implies data@[i] != 10 by {
                assert(byte_of(word, (i - pos) as u64) != 10);
            }
            lemma_first_newline_skip(data@, pos as int, 8, file_end as int);
        }
        pos += 8;
    }
    while pos < file_end
        invariant
            file_end <= data.len(),
            first_newline(data@, pos as int, file_end as int) == target,
            target == first_newline(data@, start as int, file_end as int),
        decreases file_end - pos,
    {
        if data[pos] == 10u8 {
            return pos;
        }
        pos += 1;
    }
    file_end
}

/// `name_end` is the first `;` at or after `p`, or the end of the data.
pub proof fn lemma_name_end(data: Seq<u8>, p: int)
    requires
        0 <= p,
    ensures
        p <= name_end(data, p) <= data.len() || (p > data.len() && name_end(data, p) == data.len()),
        name_end(data, p) < data.len() ==> data[name_end(data, p)] == 59,
        forall|i: int| p <= i < name_end(data, p) ==> data[i] != 59,
    decreases data.len() - p,
{
    if p < data.len() && data[p] != 59 {
        lemma_name_end(data, p + 1);
    }
}

/// The bytes of a temperature are digits, `.` or `-`: never `\n` nor `;`.
pub proof fn lemma_temp_bytes(w: u64)
    requires
        temp_word_ok(w),
    ensures
        forall|k: u64|
            k < temp_dot_index(w) + 2 ==> #[trigger] byte_of(w, k) != 10 && byte_of(w, k) != 59,
        1 <= temp_dot_index(w) <= 3,
{
    assert forall|k: u64| k < temp_dot_index(w) + 2 implies #[trigger] byte_of(w, k) != 10
        && byte_of(w, k) != 59 by {
        if k == 0 {
        } else if k == 1 {
        } else if k == 2 {
        } else if k == 3 {
        } else {
        }
    }
}

/// The bytes of a well-formed line other than its end are not `\n`.
pub proof fn lemma_line_bytes(data: Seq<u8>, p: int)
    requires
        line_ok(data, p),
    ensures
        p < name_end(data, p) < line_end(data, p),
        data[name_end(data, p)] == 59,
        line_end(data, p) == name_end(data, p) + 1 + temp_dot_index(temp_word(data, p)) + 2,
        forall|i: int| p <= i < line_end(data, p) ==> data[i] != 10,
        forall|i: int| p <= i < name_end(data, p) ==> data[i] != 59,
{
    let q = name_end(data, p);
    let w = temp_word(data, p);
    lemma_name_end(data, p);
    lemma_temp_bytes(w);
    lemma_word_at_bytes(data, q + 1);
    assert forall|i: int| p <= i < line_end(data, p) implies data[i] != 10 by {
        if i > q {
            assert(byte_of(w, (i - q - 1) as u64) != 10);
        }
    }
}

/// A `\n` inside a run of well-formed lines is the end of one of them, so
/// the run splits there.
pub proof fn lemma_split_at_newline(data: Seq<u8>, s: int, e: int, m: int)
    requires
        0 <= s <= m < e,
        m < data.len(),
        data[m] == 10,
        lines_ok(data, s, e),
    ensures
        lines_ok(data, s, m),
        lines_ok(data, m + 1, e),
        lines(data, s, e) == lines(data, s, m) + lines(data, m + 1, e),
    decreases e - s,
{
    let r = line_end(data, s);
    lemma_line_bytes(data, s);
    assert(m >= r);
    if m == r {
        assert(lines_ok(data, r + 1, m));
        assert(lines(data, r + 1, m) =~= Seq::empty());
        assert(lines(data, s, m) =~= seq![(line_name(data, s), line_value(data, s))]);
    } else {
        lemma_split_at_newline(data, r + 1, e, m);
        assert(lines_ok(data, s, m));
        assert(lines(data, s, e) =~= lines(data, s, m) + lines(data, m + 1, e));
    }
}

/// The first `\n` from `p` on: no `\n` before it, and any `\n` from `p` on
/// is at or after it.
pub proof fn lemma_first_newline(data: Seq<u8>, p: int, e: int)
    requires
        0 <= p <= e <= data.len(),
    ensures
        p <= first_newline(data, p, e) <= e,
        first_newline(data, p, e) < e ==> data[first_newline(data, p, e)] == 10,
        forall|i: int| p <= i < first_newline(data, p, e) ==> data[i] != 10,
        forall|x: int| p <= x < e && data[x] == 10 ==> first_newline(data, p, e) <= x,
    decreases e - p,
{
    if p < e && data[p] != 10 {
        lemma_first_newline(data, p + 1, e);
    }
}

/// Splits the lines of `[s, e)` at `m`, the end of the data range or a line
/// break inside it.
pub proof fn lemma_split_at(data: Seq<u8>, s: int, e: int, m: int)
    requires
        0 <= s <= m <= e <= data.len(),
        m < e ==> data[m] == 10,
        lines_ok(data, s, e),
    ensures
        lines_ok(data, s, m),
        lines_ok(data, m + 1, e),
        lines(data, s, e) == lines(data, s, m) + lines(data, m + 1, e),
{
    if m < e {
        if s < e {
            lemma_split_at_newline(data, s, e, m);
        }
    } else {
        assert(lines(data, m + 1, e) =~= Seq::<(Seq<u8>, int)>::empty());
        assert(lines(data, s, e) + Seq::<(Seq<u8>, int)>::empty() =~= lines(data, s, e));
    }
}

} // verus!
