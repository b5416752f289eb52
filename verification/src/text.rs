//! Text inside byte spans: UTF-8 decoding and decimal literals.

use crate::error::{Error, ErrorKind, IntErrorKind, KindView};
use vstd::prelude::*;
use vstd::slice::slice_subrange;
use vstd::string::*;
use vstd::utf8::*;

verus! {

/// What a fallible decode returned, as mathematical values: the deep view of
/// the value, or the chain of kinds of the error.
pub open spec fn outcome<T: DeepView>(r: Result<T, Error>) -> Result<T::V, Seq<KindView>> {
    match r {
        Ok(v) => Ok(v.deep_view()),
        Err(e) => Err(e@),
    }
}

/// Calls `std::str::from_utf8`. The bytes are accepted exactly when they are
/// well-formed UTF-8, and the text returned is then the one they encode.
#[verifier::external_body]
pub(crate) fn utf8_str(bytes: &[u8]) -> (r: Option<&str>)
    ensures
        r is Some <==> valid_utf8(bytes@),
        r matches Some(s) ==> s@ == decode_utf8(bytes@) && s.spec_bytes() == bytes@,
{
    std::str::from_utf8(bytes).ok()
}

/// The text that a byte span holds.
pub open spec fn string_of(bytes: Seq<u8>) -> Result<Seq<char>, Seq<KindView>> {
    if valid_utf8(bytes) {
        Ok(decode_utf8(bytes))
    } else {
        Err(seq![KindView::UtfError])
    }
}

/// Decodes a byte span as UTF-8 text.
pub fn parse_to_string(bytes: &[u8]) -> (r: Result<String, Error>)
    ensures
        outcome(r) == string_of(bytes@),
{
    match utf8_str(bytes) {
        Some(s) => Ok(s.to_owned()),
        None => Err(Error::new(ErrorKind::UtfError)),
    }
}

/// True for the bytes `0` to `9`.
pub open spec fn is_digit(b: u8) -> bool {
    0x30 <= b <= 0x39
}

/// True when every byte is a decimal digit.
pub open spec fn all_digits(s: Seq<u8>) -> bool {
    forall|i: int| 0 <= i < s.len() ==> is_digit(#[trigger] s[i])
}

/// The number that a run of decimal digits denotes, most significant first.
pub open spec fn digits_value(s: Seq<u8>) -> nat
    decreases s.len(),
{
    if s.len() == 0 {
        0
    } else {
        digits_value(s.drop_last()) * 10 + (s.last() - 0x30) as nat
    }
}

/// A decimal literal without its sign: a leading `+` is dropped, and a leading
/// `-` where `minus` allows it.
pub open spec fn magnitude(s: Seq<u8>, minus: bool) -> Seq<u8> {
    if s.len() > 0 && (s[0] == 0x2b || (minus && s[0] == 0x2d)) {
        s.skip(1)
    } else {
        s
    }
}

/// The value of an unsigned decimal literal: an optional `+`, then digits.
pub open spec fn unsigned_of(s: Seq<u8>) -> Result<usize, IntErrorKind> {
    let d = magnitude(s, false);
    if s.len() == 0 {
        Err(IntErrorKind::Empty)
    } else if d.len() == 0 || !all_digits(d) {
        Err(IntErrorKind::InvalidDigit)
    } else if digits_value(d) > usize::MAX {
        Err(IntErrorKind::PosOverflow)
    } else {
        Ok(digits_value(d) as usize)
    }
}

/// The value of a signed decimal literal: an optional `+` or `-`, then digits.
pub open spec fn signed_of(s: Seq<u8>) -> Result<i64, IntErrorKind> {
    let d = magnitude(s, true);
    if s.len() == 0 {
        Err(IntErrorKind::Empty)
    } else if d.len() == 0 || !all_digits(d) {
        Err(IntErrorKind::InvalidDigit)
    } else if s[0] == 0x2d {
        if digits_value(d) > 0x8000_0000_0000_0000 {
            Err(IntErrorKind::NegOverflow)
        } else {
            Ok((-(digits_value(d) as int)) as i64)
        }
    } else {
        if digits_value(d) > i64::MAX {
            Err(IntErrorKind::PosOverflow)
        } else {
            Ok(digits_value(d) as i64)
        }
    }
}

/// A longer run of digits denotes no smaller number than its prefixes.
pub proof fn lemma_digits_value_prefix(s: Seq<u8>, k: int)
    requires
        0 <= k <= s.len(),
    ensures
        digits_value(s.take(k)) <= digits_value(s),
    decreases s.len(),
{
    if k == s.len() {
        assert(s.take(k) =~= s);
    } else {
        assert(s.drop_last().take(k) =~= s.take(k));
        lemma_digits_value_prefix(s.drop_last(), k);
    }
}

/// Ten to the power of `n`.
pub open spec fn pow10(n: nat) -> nat
    decreases n,
{
    if n == 0 {
        1
    } else {
        10 * pow10((n - 1) as nat)
    }
}

/// A run of `n` digits denotes a number below ten to the power of `n`.
pub proof fn lemma_digits_value_bound(s: Seq<u8>)
    requires
        all_digits(s),
    ensures
        digits_value(s) < pow10(s.len()),
    decreases s.len(),
{
    if s.len() > 0 {
        lemma_digits_value_bound(s.drop_last());
        assert(is_digit(s[s.len() - 1]));
    }
}

/// An unsigned literal of at most five bytes denotes a number below 100000.
pub proof fn lemma_unsigned_short(s: Seq<u8>)
    requires
        s.len() <= 5,
        unsigned_of(s) is Ok,
    ensures
        unsigned_of(s)->Ok_0 < 100_000,
        usize_of(s) is Ok ==> usize_of(s)->Ok_0 < 100_000,
{
    let d = magnitude(s, false);
    lemma_digits_value_bound(d);
    reveal_with_fuel(pow10, 6);
    assert(pow10(5) == 100_000);
    assert(pow10(4) == 10_000);
    assert(pow10(3) == 1_000);
    assert(pow10(2) == 100);
    assert(pow10(1) == 10);
}

/// An unsigned literal of one byte denotes a number below ten.
pub proof fn lemma_unsigned_digit(s: Seq<u8>)
    requires
        s.len() == 1,
        unsigned_of(s) is Ok,
    ensures
        unsigned_of(s)->Ok_0 <= 9,
        usize_of(s) is Ok ==> usize_of(s)->Ok_0 <= 9,
{
    let d = magnitude(s, false);
    lemma_digits_value_bound(d);
    reveal_with_fuel(pow10, 3);
}

/// True when every byte of the slice is a decimal digit.
pub fn is_digits(s: &[u8]) -> (b: bool)
    ensures
        b == all_digits(s@),
{
    let mut i: usize = 0;
    while i < s.len()
        invariant
            i <= s.len(),
            forall|j: int| 0 <= j < i ==> is_digit(#[trigger] s@[j]),
        decreases s.len() - i,
    {
        if s[i] < 0x30 || s[i] > 0x39 {
            return false;
        }
        i = i + 1;
    }
    true
}

/// The number denoted by a run of digits, or `None` when it exceeds `limit`.
pub fn digits_to_u64(s: &[u8], limit: u64) -> (r: Option<u64>)
    requires
        all_digits(s@),
    ensures
        r matches Some(v) ==> v == digits_value(s@) && v <= limit,
        r is None ==> digits_value(s@) > limit,
{
    let mut acc: u64 = 0;
    let mut i: usize = 0;
    while i < s.len()
        invariant
            i <= s.len(),
            all_digits(s@),
            acc == digits_value(s@.take(i as int)),
            acc <= limit,
        decreases s.len() - i,
    {
        let d: u64 = (s[i] - 0x30) as u64;
        proof {
            assert(s@.take(i + 1).drop_last() =~= s@.take(i as int));
            assert(s@.take(i + 1).last() == s@[i as int]);
            lemma_digits_value_prefix(s@, i + 1);
        }
        if d > limit || acc > (limit - d) / 10 {
            return None;
        }
        acc = acc * 10 + d;
        i = i + 1;
    }
    proof {
        assert(s@.take(s.len() as int) =~= s@);
    }
    Some(acc)
}

/// Converts an unsigned decimal literal.
pub fn parse_unsigned(s: &[u8]) -> (r: Result<usize, IntErrorKind>)
    ensures
        r == unsigned_of(s@),
{
    if s.len() == 0 {
        return Err(IntErrorKind::Empty);
    }
    let start: usize = if s[0] == 0x2b { 1 } else { 0 };
    let d = slice_subrange(s, start, s.len());
    assert(d@ =~= magnitude(s@, false));
    if d.len() == 0 || !is_digits(d) {
        return Err(IntErrorKind::InvalidDigit);
    }
    match digits_to_u64(d, usize::MAX as u64) {
        Some(v) => Ok(v as usize),
        None => Err(IntErrorKind::PosOverflow),
    }
}

/// Converts a signed decimal literal.
pub fn parse_signed(s: &[u8]) -> (r: Result<i64, IntErrorKind>)
    ensures
        r == signed_of(s@),
{
    if s.len() == 0 {
        return Err(IntErrorKind::Empty);
    }
    let negative = s[0] == 0x2d;
    let start: usize = if s[0] == 0x2b || negative { 1 } else { 0 };
    let d = slice_subrange(s, start, s.len());
    assert(d@ =~= magnitude(s@, true));
    if d.len() == 0 || !is_digits(d) {
        return Err(IntErrorKind::InvalidDigit);
    }
    if negative {
        match digits_to_u64(d, 0x8000_0000_0000_0000) {
            Some(v) => if v == 0x8000_0000_0000_0000 {
                Ok(i64::MIN)
            } else {
                Ok(-(v as i64))
            },
            None => Err(IntErrorKind::NegOverflow),
        }
    } else {
        match digits_to_u64(d, 0x7fff_ffff_ffff_ffff) {
            Some(v) => Ok(v as i64),
            None => Err(IntErrorKind::PosOverflow),
        }
    }
}

/// The unsigned integer that a byte span holds as decimal text.
pub open spec fn usize_of(bytes: Seq<u8>) -> Result<usize, Seq<KindView>> {
    if !valid_utf8(bytes) {
        Err(seq![KindView::UtfError])
    } else {
        match unsigned_of(bytes) {
            Ok(n) => Ok(n),
            Err(k) => Err(seq![KindView::ParseIntError(k, decode_utf8(bytes))]),
        }
    }
}

/// Decodes a byte span as UTF-8 text and converts it as an unsigned decimal.
pub fn parse_to_usize(bytes: &[u8]) -> (r: Result<usize, Error>)
    ensures
        outcome(r) == usize_of(bytes@),
{
    match parse_to_string(bytes) {
        Err(e) => Err(e),
        Ok(text) => match parse_unsigned(bytes) {
            Ok(n) => Ok(n),
            Err(k) => Err(Error::new(ErrorKind::ParseIntError(k, text))),
        },
    }
}

} // verus!
