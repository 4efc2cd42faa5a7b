//! Byte-wise lexicographic order of station names.

use vstd::prelude::*;
use std::cmp::Ordering;
use crate::table::{Agg, agg_entry, entry_name};

verus! {

/// `a` comes before `b` or equals it, byte by byte, a prefix first.
pub open spec fn lex_le(a: Seq<u8>, b: Seq<u8>) -> bool
    decreases a.len(),
{
    if a.len() == 0 {
        true
    } else if b.len() == 0 {
        false
    } else if a[0] != b[0] {
        a[0] < b[0]
    } else {
        lex_le(a.drop_first(), b.drop_first())
    }
}

/// `a` comes strictly before `b`.
pub open spec fn lex_lt(a: Seq<u8>, b: Seq<u8>) -> bool {
    lex_le(a, b) && a != b
}

/// Any two names are ordered one way or the other, and both ways only when
/// they are equal.
pub proof fn lemma_lex_total(a: Seq<u8>, b: Seq<u8>)
    ensures
        lex_le(a, b) || lex_le(b, a),
        lex_le(a, b) && lex_le(b, a) ==> a == b,
    decreases a.len(),
{
    if a.len() > 0 && b.len() > 0 && a[0] == b[0] {
        lemma_lex_total(a.drop_first(), b.drop_first());
        if lex_le(a, b) && lex_le(b, a) {
            assert(a =~= seq![a[0]] + a.drop_first());
            assert(b =~= seq![b[0]] + b.drop_first());
        }
    }
    if a.len() == 0 && b.len() == 0 {
        assert(a =~= b);
    }
}

/// The order of names is transitive.
pub proof fn lemma_lex_trans(a: Seq<u8>, b: Seq<u8>, c: Seq<u8>)
    requires
        lex_le(a, b),
        lex_le(b, c),
    ensures
        lex_le(a, c),
    decreases a.len(),
{
    if a.len() > 0 && b.len() > 0 && c.len() > 0 && a[0] == b[0] && b[0] == c[0] {
        lemma_lex_trans(a.drop_first(), b.drop_first(), c.drop_first());
    }
}

/// Names are ordered by their first differing byte, the smaller byte
/// first: two names that agree on their first `i` bytes and then differ
/// come in the order of their bytes at `i`.
pub proof fn lemma_lex_first_difference(a: Seq<u8>, b: Seq<u8>, i: int)
    requires
        0 <= i < a.len(),
        i < b.len(),
        a.subrange(0, i) == b.subrange(0, i),
        a[i] < b[i],
    ensures
        lex_lt(a, b),
        !lex_le(b, a),
    decreases i,
{
    if i > 0 {
        assert(a[0] == a.subrange(0, i)[0]);
        assert(b[0] == b.subrange(0, i)[0]);
        assert(a.drop_first().subrange(0, i - 1) =~= a.subrange(0, i).drop_first());
        assert(b.drop_first().subrange(0, i - 1) =~= b.subrange(0, i).drop_first());
        lemma_lex_first_difference(a.drop_first(), b.drop_first(), i - 1);
    }
}

/// A name comes before every longer name that starts with it.
pub proof fn lemma_lex_prefix_first(a: Seq<u8>, b: Seq<u8>)
    requires
        a.len() < b.len(),
        b.subrange(0, a.len() as int) == a,
    ensures
        lex_lt(a, b),
        !lex_le(b, a),
    decreases a.len(),
{
    if a.len() > 0 {
        assert(a[0] == b.subrange(0, a.len() as int)[0]);
        assert(b.drop_first().subrange(0, a.len() - 1) =~= a.drop_first());
        lemma_lex_prefix_first(a.drop_first(), b.drop_first());
    }
    assert(a.len() != b.len());
}

/// Every name comes before or equals itself.
pub proof fn lemma_lex_refl(a: Seq<u8>)
    ensures
        lex_le(a, a),
    decreases a.len(),
{
    if a.len() > 0 {
        lemma_lex_refl(a.drop_first());
    }
}

/// Offset and length of the name of an `Agg`.
pub fn name_range(a: &Agg) -> (r: (usize, usize))
    ensures
        r.0 == a.name_off,
        r.1 == a.name_len,
{
    (a.name_off, a.name_len as usize)
}

/// The `len` bytes of `d` from `off`.
pub open spec fn bytes_at(d: Seq<u8>, off: usize, len: usize) -> Seq<u8> {
    d.subrange(off as int, off + len)
}

/// The bytes of `s` from `i` on.
pub open spec fn tail_from(s: Seq<u8>, i: usize) -> Seq<u8> {
    s.skip(i as int)
}

proof fn lemma_name_bytes(d: Seq<u8>, a: Agg)
    ensures
        entry_name(d, agg_entry(a)) == bytes_at(d, a.name_off, a.name_len as usize),
{
}

/// One step of the comparison: equal first bytes leave the order to the rest.
proof fn lemma_compare_step(d: Seq<u8>, ao: usize, al: usize, bo: usize, bl: usize, i: usize, x: u8, y: u8)
    requires
        i < al,
        i < bl,
        ao + al <= d.len(),
        bo + bl <= d.len(),
        x == d[ao + i],
        y == d[bo + i],
    ensures
        ({
            let na = bytes_at(d, ao, al);
            let nb = bytes_at(d, bo, bl);
            &&& x == na[i as int] && y == nb[i as int]
            &&& x == y ==> (lex_le(tail_from(na, i), tail_from(nb, i)) == lex_le(tail_from(na, (i + 1) as usize), tail_from(nb, (i + 1) as usize))
                && lex_le(tail_from(nb, i), tail_from(na, i)) == lex_le(tail_from(nb, (i + 1) as usize), tail_from(na, (i + 1) as usize)))
            &&& x < y ==> lex_le(tail_from(na, i), tail_from(nb, i)) && !lex_le(tail_from(nb, i), tail_from(na, i))
            &&& x > y ==> lex_le(tail_from(nb, i), tail_from(na, i)) && !lex_le(tail_from(na, i), tail_from(nb, i))
            &&& lex_le(na, na) && lex_le(nb, nb)
        }),
{
    let na = bytes_at(d, ao, al);
    let nb = bytes_at(d, bo, bl);
    lemma_lex_refl(na);
    lemma_lex_refl(nb);
    assert(tail_from(na, i).drop_first() =~= tail_from(na, (i + 1) as usize));
    assert(tail_from(nb, i).drop_first() =~= tail_from(nb, (i + 1) as usize));
}

/// After a common prefix of length `i`, the shorter name comes first.
proof fn lemma_compare_end(na: Seq<u8>, nb: Seq<u8>, i: usize)
    requires
        i <= na.len(),
        i <= nb.len(),
        i == na.len() || i == nb.len(),
        forall|k: int| 0 <= k < i ==> na[k] == nb[k],
    ensures
        na.len() <= nb.len() ==> lex_le(tail_from(na, i), tail_from(nb, i)),
        nb.len() <= na.len() ==> lex_le(tail_from(nb, i), tail_from(na, i)),
        na.len() == nb.len() ==> na == nb,
        na.len() != nb.len() ==> na != nb,
        lex_le(na, na),
{
    if na.len() == nb.len() {
        assert(na =~= nb);
    }
    lemma_lex_refl(na);
}

/// Compares the names of two `Agg`s byte by byte, a prefix first.
pub fn cmp_name_bytes(data: &[u8], a: &Agg, b: &Agg) -> (r: Ordering)
    requires
        a.name_off + a.name_len <= data.len(),
        b.name_off + b.name_len <= data.len(),
    ensures
        match r {
            Ordering::Less => lex_lt(entry_name(data@, agg_entry(*a)), entry_name(data@, agg_entry(*b))),
            Ordering::Equal => entry_name(data@, agg_entry(*a)) == entry_name(data@, agg_entry(*b)),
            Ordering::Greater => lex_lt(entry_name(data@, agg_entry(*b)), entry_name(data@, agg_entry(*a))),
        },
{
    let (ao, al) = name_range(a);
    let (bo, bl) = name_range(b);
    let ghost na = bytes_at(data@, ao, al);
    let ghost nb = bytes_at(data@, bo, bl);
    proof {
        lemma_name_bytes(data@, *a);
        lemma_name_bytes(data@, *b);
    }
    let n = if al < bl {
        al
    } else {
        bl
    };
    let mut i: usize = 0;
    proof {
        assert(tail_from(na, 0) =~= na);
        assert(tail_from(nb, 0) =~= nb);
    }
    while i < n
        invariant
            i <= n,
            n <= al,
            n <= bl,
            n == al || n == bl,
            ao + al <= data.len(),
            bo + bl <= data.len(),
            na == bytes_at(data@, ao, al),
            nb == bytes_at(data@, bo, bl),
            na == entry_name(data@, agg_entry(*a)),
            nb == entry_name(data@, agg_entry(*b)),
            na.len() == al,
            nb.len() == bl,
            forall|k: int| 0 <= k < i ==> na[k] == nb[k],
            lex_le(na, nb) == lex_le(tail_from(na, i), tail_from(nb, i)),
            lex_le(nb, na) == lex_le(tail_from(nb, i), tail_from(na, i)),
        decreases n - i,
    {
        let x = data[ao + i];
        let y = data[bo + i];
        proof {
            lemma_compare_step(data@, ao, al, bo, bl, i, x, y);
        }
        if x < y {
            return Ordering::Less;
        }
        if x > y {
            return Ordering::Greater;
        }
        i += 1;
    }
    proof {
        lemma_compare_end(na, nb, i);
    }
    if al < bl {
        Ordering::Less
    } else if al > bl {
        Ordering::Greater
    } else {
        Ordering::Equal
    }
}

} // verus!
