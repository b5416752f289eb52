//! Byte spans: finding a delimiter and splitting on it.

use vstd::prelude::*;
use vstd::slice::slice_subrange;
use vstd::utf8::*;

verus! {

/// The index of the first occurrence of `b` in `s`, or the length of `s` when
/// `b` does not occur.
pub open spec fn position(s: Seq<u8>, b: u8) -> int
    decreases s.len(),
{
    if s.len() == 0 || s[0] == b {
        0
    } else {
        1 + position(s.skip(1), b)
    }
}

/// The pieces of `s` between the occurrences of `b`, in order. There is one
/// piece more than there are occurrences; pieces may be empty.
pub open spec fn split(s: Seq<u8>, b: u8) -> Seq<Seq<u8>>
    decreases s.len(),
{
    let p = position(s, b);
    if 0 <= p < s.len() {
        seq![s.take(p)] + split(s.skip(p + 1), b)
    } else {
        seq![s]
    }
}

/// The views of a sequence of slices.
pub open spec fn spans(v: Seq<&[u8]>) -> Seq<Seq<u8>> {
    Seq::new(v.len(), |i: int| v[i]@)
}

/// `position` is the least index that holds `b`.
pub proof fn lemma_position(s: Seq<u8>, b: u8)
    ensures
        0 <= position(s, b) <= s.len(),
        position(s, b) < s.len() ==> s[position(s, b)] == b,
        forall|j: int| 0 <= j < position(s, b) ==> #[trigger] s[j] != b,
    decreases s.len(),
{
    if s.len() == 0 || s[0] == b {
    } else {
        lemma_position(s.skip(1), b);
        let p = position(s.skip(1), b);
        assert forall|j: int| 0 <= j < 1 + p implies #[trigger] s[j] != b by {
            if j > 0 {
                assert(s.skip(1)[j - 1] == s[j]);
            }
        }
    }
}

/// An index that holds `b` with no `b` before it is the position of `b`.
pub proof fn lemma_position_is(s: Seq<u8>, b: u8, p: int)
    requires
        0 <= p <= s.len(),
        p < s.len() ==> s[p] == b,
        forall|j: int| 0 <= j < p ==> #[trigger] s[j] != b,
    ensures
        position(s, b) == p,
{
    lemma_position(s, b);
    let q = position(s, b);
    if q < p {
        assert(s[q] != b);
    } else if p < q {
        assert(s[p] == b);
    }
}

/// Cutting well-formed UTF-8 at a byte below `0x80` leaves well-formed UTF-8 on
/// both sides of that byte.
pub proof fn lemma_utf8_cut(s: Seq<u8>, p: int)
    requires
        valid_utf8(s),
        0 <= p < s.len(),
        s[p] < 0x80,
    ensures
        valid_utf8(s.take(p)),
        valid_utf8(s.skip(p + 1)),
{
    is_char_boundary_iff_not_is_continuation_byte(s, p);
    valid_utf8_split(s, p);
    let tail = s.subrange(p, s.len() as int);
    assert(tail[0] == s[p]);
    assert(valid_first_scalar(tail));
    assert(pop_first_scalar(tail) =~= s.skip(p + 1));
    assert(s.take(p) =~= s.subrange(0, p));
}

/// Every piece of well-formed UTF-8 split on a byte below `0x80` is
/// well-formed UTF-8.
pub proof fn lemma_utf8_split(s: Seq<u8>, b: u8)
    requires
        valid_utf8(s),
        b < 0x80,
    ensures
        forall|i: int| 0 <= i < split(s, b).len() ==> valid_utf8(#[trigger] split(s, b)[i]),
    decreases s.len(),
{
    lemma_position(s, b);
    let p = position(s, b);
    if p < s.len() {
        lemma_utf8_cut(s, p);
        lemma_utf8_split(s.skip(p + 1), b);
        let rest = split(s.skip(p + 1), b);
        assert forall|i: int| 0 <= i < split(s, b).len() implies valid_utf8(
            #[trigger] split(s, b)[i],
        ) by {
            if i > 0 {
                assert(split(s, b)[i] == rest[i - 1]);
            }
        }
    }
}

/// Finds the first occurrence of `b`; returns the length where there is none.
pub fn find_byte(s: &[u8], b: u8) -> (p: usize)
    ensures
        p == position(s@, b),
        p <= s@.len(),
        p < s@.len() ==> s@[p as int] == b,
        forall|j: int| 0 <= j < p ==> #[trigger] s@[j] != b,
{
    let mut i: usize = 0;
    while i < s.len() && s[i] != b
        invariant
            i <= s.len(),
            forall|j: int| 0 <= j < i ==> #[trigger] s@[j] != b,
        decreases s.len() - i,
    {
        i = i + 1;
    }
    proof {
        lemma_position_is(s@, b, i as int);
    }
    i
}

/// Splits a slice on every occurrence of `b`.
pub fn split_bytes<'a>(s: &'a [u8], b: u8) -> (pieces: Vec<&'a [u8]>)
    ensures
        spans(pieces@) == split(s@, b),
        pieces@.len() >= 1,
{
    let mut pieces: Vec<&'a [u8]> = Vec::new();
    let mut rest: &'a [u8] = s;
    loop
        invariant_except_break
            split(s@, b) == spans(pieces@) + split(rest@, b),
        ensures
            spans(pieces@) == split(s@, b),
            pieces@.len() >= 1,
        decreases rest@.len(),
    {
        let p = find_byte(rest, b);
        let ghost before = pieces@;
        if p < rest.len() {
            let piece = slice_subrange(rest, 0, p);
            let after = slice_subrange(rest, p + 1, rest.len());
            pieces.push(piece);
            proof {
                assert(piece@ =~= rest@.take(p as int));
                assert(after@ =~= rest@.skip(p + 1));
                assert(spans(pieces@) =~= spans(before) + seq![piece@]);
                assert(spans(before) + (seq![piece@] + split(after@, b)) =~= (spans(before)
                    + seq![piece@]) + split(after@, b));
            }
            rest = after;
        } else {
            pieces.push(rest);
            proof {
                assert(spans(pieces@) =~= spans(before) + seq![rest@]);
            }
            break ;
        }
    }
    pieces
}

} // verus!
