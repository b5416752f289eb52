//! Subfield descriptors: the format-control token that declares one, and the
//! reading of one subfield value from a byte cursor.

use crate::catalog::UNIT_SEPARATOR;
use crate::cursor::{delimited_span, exact_span, premature_end, ByteCursor};
use crate::span::lemma_position;
use crate::error::{Error, ErrorKind, KindView};
use crate::text::{
    all_digits, digits_to_u64, digits_value, is_digit, outcome, parse_signed, parse_to_string,
    signed_of,
};
use vstd::prelude::*;
use vstd::slice::slice_subrange;
use vstd::string::*;
use vstd::utf8::*;

verus! {

/// The type that the text of a subfield is converted to.
#[derive(Debug, PartialEq, Eq, Clone, Copy, Structural)]
pub enum ParseType {
    Integer,
    String,
    Float,
}

/// How one subfield is laid out: a fixed number of bytes, or bytes up to the
/// next unit separator.
#[derive(Debug, PartialEq, Eq, Clone, Copy, Structural)]
pub enum ParseData {
    Fixed(ParseType, usize),
    Variable(ParseType),
}

impl DeepView for ParseData {
    type V = ParseData;

    open spec fn deep_view(&self) -> ParseData {
        *self
    }
}

/// The value of one subfield. A numeric subfield with empty text holds no
/// value. A real number is kept as its literal, which is known to be one.
#[derive(Debug, PartialEq, Clone)]
pub enum Data {
    Integer(Option<i64>),
    String(String),
    Float(Option<String>),
}

/// The mathematical value of a [`Data`].
pub enum DataView {
    Integer(Option<i64>),
    String(Seq<char>),
    Float(Option<Seq<char>>),
}

impl View for Data {
    type V = DataView;

    open spec fn view(&self) -> DataView {
        match *self {
            Data::Integer(v) => DataView::Integer(v),
            Data::String(s) => DataView::String(s@),
            Data::Float(None) => DataView::Float(None),
            Data::Float(Some(s)) => DataView::Float(Some(s@)),
        }
    }
}

impl DeepView for Data {
    type V = DataView;

    open spec fn deep_view(&self) -> DataView {
        self@
    }
}

/// The number of consecutive decimal digits of `s` that start at index `from`.
pub open spec fn digit_run(s: Seq<u8>, from: int) -> int
    decreases s.len() - from,
{
    if 0 <= from < s.len() && is_digit(s[from]) {
        1 + digit_run(s, from + 1)
    } else {
        0
    }
}

/// The subfield type that a type letter of a format control stands for.
pub open spec fn letter_type(b: u8) -> Option<ParseType> {
    if b == 0x41 {
        Some(ParseType::String)
    } else if b == 0x49 {
        Some(ParseType::Integer)
    } else if b == 0x52 {
        Some(ParseType::Float)
    } else {
        None
    }
}

/// What one format-control token declares: how often the descriptor repeats,
/// and the descriptor. A token is an optional decimal count, a type letter
/// `A`, `I` or `R`, and an optional decimal width in parentheses; what follows
/// is not looked at. `None` when the token does not start like that, when the
/// parentheses hold no digit, or when a number does not fit.
pub open spec fn token_of(s: Seq<u8>) -> Option<(usize, ParseData)> {
    let n = digit_run(s, 0);
    let open = n + 1;
    let m = digit_run(s, open + 1);
    let close = open + 1 + m;
    let count = digits_value(s.subrange(0, n));
    let width = digits_value(s.subrange(open + 1, close));
    let has_width = open < s.len() && s[open] == 0x28 && close < s.len() && s[close] == 0x29;
    if n >= s.len() || letter_type(s[n]) is None {
        None
    } else if n > 0 && count > usize::MAX {
        None
    } else if has_width && (m == 0 || width > usize::MAX) {
        None
    } else {
        let typ = letter_type(s[n])->0;
        Some(
            (
                if n == 0 {
                    1usize
                } else {
                    count as usize
                },
                if has_width {
                    ParseData::Fixed(typ, width as usize)
                } else {
                    ParseData::Variable(typ)
                },
            ),
        )
    }
}

/// What a format-control token decodes to, or the error that names it.
pub open spec fn token_result(s: Seq<u8>) -> Result<(usize, ParseData), Seq<KindView>> {
    match token_of(s) {
        Some(t) => Ok(t),
        None => Err(seq![KindView::UnParsableFormatControl(decode_utf8(s))]),
    }
}

/// A run of digits holds digits only, and stays inside the sequence.
pub proof fn lemma_digit_run(s: Seq<u8>, from: int)
    requires
        0 <= from <= s.len(),
    ensures
        0 <= digit_run(s, from) <= s.len() - from,
        all_digits(s.subrange(from, from + digit_run(s, from))),
        from + digit_run(s, from) < s.len() ==> !is_digit(s[from + digit_run(s, from)]),
    decreases s.len() - from,
{
    if from < s.len() && is_digit(s[from]) {
        lemma_digit_run(s, from + 1);
        let n = digit_run(s, from);
        let run = s.subrange(from, from + n);
        assert forall|i: int| 0 <= i < run.len() implies is_digit(#[trigger] run[i]) by {
            if i > 0 {
                assert(run[i] == s.subrange(from + 1, from + n)[i - 1]);
            }
        }
    }
}

/// Counts the decimal digits that start at index `from`.
fn count_digits(s: &[u8], from: usize) -> (n: usize)
    requires
        from <= s@.len(),
    ensures
        n == digit_run(s@, from as int),
        from + n <= s@.len(),
        all_digits(s@.subrange(from as int, from + n)),
{
    let mut i: usize = from;
    while i < s.len() && 0x30 <= s[i] && s[i] <= 0x39
        invariant
            from <= i <= s.len(),
            digit_run(s@, from as int) == (i - from) + digit_run(s@, i as int),
        decreases s.len() - i,
    {
        i = i + 1;
    }
    proof {
        lemma_digit_run(s@, from as int);
    }
    i - from
}

/// Decodes one format-control token given as bytes.
pub fn parse_token(s: &[u8]) -> (r: Option<(usize, ParseData)>)
    ensures
        r == token_of(s@),
{
    let n = count_digits(s, 0);
    if n >= s.len() {
        return None;
    }
    let typ = if s[n] == 0x41 {
        ParseType::String
    } else if s[n] == 0x49 {
        ParseType::Integer
    } else if s[n] == 0x52 {
        ParseType::Float
    } else {
        return None;
    };
    let count: usize = if n == 0 {
        1
    } else {
        match digits_to_u64(slice_subrange(s, 0, n), usize::MAX as u64) {
            Some(v) => v as usize,
            None => {
                return None;
            },
        }
    };
    let open = n + 1;
    if open < s.len() && s[open] == 0x28 {
        let m = count_digits(s, open + 1);
        let close = open + 1 + m;
        if close < s.len() && s[close] == 0x29 {
            if m == 0 {
                return None;
            }
            return match digits_to_u64(slice_subrange(s, open + 1, close), usize::MAX as u64) {
                Some(w) => Some((count, ParseData::Fixed(typ, w as usize))),
                None => None,
            };
        }
    }
    Some((count, ParseData::Variable(typ)))
}

/// What a field holds of type `t` when its bytes are `bytes`: the text as it
/// is, or the number it denotes. Empty numeric text is no value and no error.
pub open spec fn value_of(t: ParseType, bytes: Seq<u8>) -> Result<DataView, Seq<KindView>> {
    if !valid_utf8(bytes) {
        Err(seq![KindView::UtfError])
    } else {
        match t {
            ParseType::String => Ok(DataView::String(decode_utf8(bytes))),
            ParseType::Integer => if bytes.len() == 0 {
                Ok(DataView::Integer(None))
            } else {
                match signed_of(bytes) {
                    Ok(v) => Ok(DataView::Integer(Some(v))),
                    Err(k) => Err(seq![KindView::ParseIntError(k, decode_utf8(bytes))]),
                }
            },
            ParseType::Float => if bytes.len() == 0 {
                Ok(DataView::Float(None))
            } else if is_real_literal(bytes) {
                Ok(DataView::Float(Some(decode_utf8(bytes))))
            } else {
                Err(seq![KindView::ParseFloatError(decode_utf8(bytes))])
            },
        }
    }
}

/// An ASCII letter in lower case; any other byte unchanged.
pub open spec fn lower(b: u8) -> u8 {
    if 0x41 <= b <= 0x5a {
        (b + 0x20) as u8
    } else {
        b
    }
}

/// True when `s` from index `from` on is the lower-case word `w`, in any case.
pub open spec fn is_word(s: Seq<u8>, from: int, w: Seq<u8>) -> bool {
    &&& s.len() - from == w.len()
    &&& forall|i: int| 0 <= i < w.len() ==> lower(#[trigger] s[from + i]) == w[i]
}

/// 1 when a sign stands at index `at`, else 0.
pub open spec fn sign_len(s: Seq<u8>, at: int) -> int {
    if 0 <= at < s.len() && (s[at] == 0x2b || s[at] == 0x2d) {
        1
    } else {
        0
    }
}

/// True when `s` is the literal of a real number: an optional sign, then
/// `inf`, `infinity` or `nan` in any case, or a decimal number. A decimal
/// number is digits with at most one point among them, at least one digit in
/// all, and an optional exponent: `e` or `E`, an optional sign, digits.
pub open spec fn is_real_literal(s: Seq<u8>) -> bool {
    let a = sign_len(s, 0);
    let i = digit_run(s, a);
    let point = a + i < s.len() && s[a + i] == 0x2e;
    let f = if point {
        digit_run(s, a + i + 1)
    } else {
        0
    };
    let m = a + i + if point {
        1 + f
    } else {
        0
    };
    let es = sign_len(s, m + 1);
    let ed = digit_run(s, m + 1 + es);
    ||| is_word(s, a, seq![0x69u8, 0x6e, 0x66])
    ||| is_word(s, a, seq![0x69u8, 0x6e, 0x66, 0x69, 0x6e, 0x69, 0x74, 0x79])
    ||| is_word(s, a, seq![0x6eu8, 0x61, 0x6e])
    ||| (i + f > 0 && (m == s.len() || (lower(s[m]) == 0x65 && ed > 0 && m + 1 + es + ed
        == s.len())))
}

/// Compares the rest of a slice with a lower-case word, ignoring case.
fn matches_word(s: &[u8], from: usize, w: &[u8]) -> (b: bool)
    requires
        from <= s@.len(),
    ensures
        b == is_word(s@, from as int, w@),
{
    if s.len() - from != w.len() {
        return false;
    }
    let mut i: usize = 0;
    while i < w.len()
        invariant
            i <= w.len(),
            from + w.len() == s.len(),
            forall|j: int| 0 <= j < i ==> lower(#[trigger] s@[from + j]) == w@[j],
        decreases w.len() - i,
    {
        let c = s[from + i];
        let l = if 0x41 <= c && c <= 0x5a {
            c + 0x20
        } else {
            c
        };
        if l != w[i] {
            assert(lower(s@[from + i]) != w@[i as int]);
            return false;
        }
        i = i + 1;
    }
    true
}

/// Tells whether a byte span is the literal of a real number.
pub fn is_real(s: &[u8]) -> (b: bool)
    ensures
        b == is_real_literal(s@),
{
    let a: usize = if s.len() > 0 && (s[0] == 0x2b || s[0] == 0x2d) {
        1
    } else {
        0
    };
    let inf = vec![0x69u8, 0x6e, 0x66];
    let infinity = vec![0x69u8, 0x6e, 0x66, 0x69, 0x6e, 0x69, 0x74, 0x79];
    let nan = vec![0x6eu8, 0x61, 0x6e];
    if matches_word(s, a, inf.as_slice()) || matches_word(s, a, infinity.as_slice())
        || matches_word(s, a, nan.as_slice()) {
        return true;
    }
    let i = count_digits(s, a);
    let point = a + i < s.len() && s[a + i] == 0x2e;
    let f: usize = if point {
        count_digits(s, a + i + 1)
    } else {
        0
    };
    let m: usize = if point {
        a + i + 1 + f
    } else {
        a + i
    };
    if i + f == 0 {
        return false;
    }
    if m == s.len() {
        return true;
    }
    if s[m] != 0x65 && s[m] != 0x45 {
        return false;
    }
    let es: usize = if m + 1 < s.len() && (s[m + 1] == 0x2b || s[m + 1] == 0x2d) {
        1
    } else {
        0
    };
    let ed = count_digits(s, m + 1 + es);
    ed > 0 && m + 1 + es + ed == s.len()
}

/// Converts the bytes of one subfield to a value of type `t`.
pub fn convert(t: ParseType, bytes: &[u8]) -> (r: Result<Data, Error>)
    ensures
        outcome(r) == value_of(t, bytes@),
{
    let text = match parse_to_string(bytes) {
        Ok(text) => text,
        Err(e) => {
            return Err(e);
        },
    };
    match t {
        ParseType::String => Ok(Data::String(text)),
        ParseType::Integer => {
            if bytes.len() == 0 {
                Ok(Data::Integer(None))
            } else {
                match parse_signed(bytes) {
                    Ok(v) => Ok(Data::Integer(Some(v))),
                    Err(k) => Err(Error::new(ErrorKind::ParseIntError(k, text))),
                }
            }
        },
        ParseType::Float => {
            if bytes.len() == 0 {
                Ok(Data::Float(None))
            } else if is_real(bytes) {
                Ok(Data::Float(Some(text)))
            } else {
                Err(Error::new(ErrorKind::ParseFloatError(text)))
            }
        },
    }
}

/// The bytes that make up the next subfield of `input` under descriptor `d`,
/// and the bytes after it. A fixed subfield is its width in bytes. A variable
/// one ends before the first unit separator, and that separator is dropped.
pub open spec fn subfield_span(d: ParseData, input: Seq<u8>) -> Option<(Seq<u8>, Seq<u8>)> {
    match d {
        ParseData::Fixed(_, width) => exact_span(input, width as int),
        ParseData::Variable(_) => delimited_span(input, UNIT_SEPARATOR),
    }
}

impl ParseData {
    /// The type of the subfield.
    pub open spec fn spec_kind(self) -> ParseType {
        match self {
            ParseData::Fixed(t, _) => t,
            ParseData::Variable(t) => t,
        }
    }

    /// The type of the subfield.
    #[verifier::when_used_as_spec(spec_kind)]
    pub fn kind(self) -> (t: ParseType)
        ensures
            t == self.spec_kind(),
    {
        match self {
            ParseData::Fixed(t, _) => t,
            ParseData::Variable(t) => t,
        }
    }

    /// Decodes one format-control token: the repeat count and the descriptor.
    pub fn from_str(s: &str) -> (r: Result<(usize, ParseData), Error>)
        ensures
            outcome(r) == token_result(s.spec_bytes()),
            r is Err ==> r->Err_0@ == seq![KindView::UnParsableFormatControl(s@)],
    {
        broadcast use encode_utf8_decode_utf8;

        match parse_token(s.as_bytes()) {
            Some(t) => Ok(t),
            None => Err(Error::new(ErrorKind::UnParsableFormatControl(s.to_owned()))),
        }
    }

    /// Reads one subfield from the cursor and converts it. When the cursor
    /// holds no complete subfield, the read fails and the cursor is emptied.
    pub fn parse(&self, rdr: &mut ByteCursor) -> (r: Result<Data, Error>)
        ensures
            match subfield_span(*self, old(rdr)@) {
                Some((item, left)) => outcome(r) == value_of(self.kind(), item) && final(rdr)@
                    == left,
                None => outcome(r) == Err::<DataView, Seq<KindView>>(premature_end())
                    && final(rdr)@ == Seq::<u8>::empty(),
            },
    {
        let read = match self {
            ParseData::Fixed(_, size) => rdr.read_exact(*size),
            ParseData::Variable(_) => rdr.read_until(UNIT_SEPARATOR),
        };
        match read {
            Ok(item) => convert(self.kind(), item),
            Err(e) => Err(e),
        }
    }
}

/// A numeric subfield with empty text holds no value: it is neither zero
/// nor an error.
pub proof fn lemma_empty_number()
    ensures
        value_of(ParseType::Integer, Seq::empty()) == Ok::<DataView, Seq<KindView>>(
            DataView::Integer(None),
        ),
        value_of(ParseType::Float, Seq::empty()) == Ok::<DataView, Seq<KindView>>(
            DataView::Float(None),
        ),
{
    assert(valid_utf8(Seq::<u8>::empty()));
}

/// An integer subfield whose text is not empty and is no integer fails, and
/// the error holds the text as it was read.
pub proof fn lemma_bad_integer(bytes: Seq<u8>)
    requires
        valid_utf8(bytes),
        bytes.len() > 0,
        signed_of(bytes) is Err,
    ensures
        value_of(ParseType::Integer, bytes) == Err::<DataView, Seq<KindView>>(
            seq![KindView::ParseIntError(signed_of(bytes)->Err_0, decode_utf8(bytes))],
        ),
{
}

/// A real subfield whose text is not empty and is no real number fails, and
/// the error holds the text as it was read.
pub proof fn lemma_bad_real(bytes: Seq<u8>)
    requires
        valid_utf8(bytes),
        bytes.len() > 0,
        !is_real_literal(bytes),
    ensures
        value_of(ParseType::Float, bytes) == Err::<DataView, Seq<KindView>>(
            seq![KindView::ParseFloatError(decode_utf8(bytes))],
        ),
{
}

/// A variable-width subfield is the bytes before the first unit separator:
/// it holds no separator, and exactly that one separator is dropped between
/// it and what is left.
pub proof fn lemma_variable_span(t: ParseType, input: Seq<u8>)
    requires
        subfield_span(ParseData::Variable(t), input) is Some,
    ensures
        ({
            let span = subfield_span(ParseData::Variable(t), input)->0;
            &&& input == span.0 + seq![UNIT_SEPARATOR] + span.1
            &&& input.len() == span.0.len() + 1 + span.1.len()
            &&& forall|j: int| 0 <= j < span.0.len() ==> #[trigger] span.0[j] != UNIT_SEPARATOR
        }),
{
    lemma_position(input, UNIT_SEPARATOR);
    let span = subfield_span(ParseData::Variable(t), input)->0;
    assert(input =~= span.0 + seq![UNIT_SEPARATOR] + span.1);
}

/// A fixed-width subfield is exactly its width in bytes, and nothing is
/// dropped after it.
pub proof fn lemma_fixed_span(t: ParseType, width: usize, input: Seq<u8>)
    requires
        subfield_span(ParseData::Fixed(t, width), input) is Some,
    ensures
        ({
            let span = subfield_span(ParseData::Fixed(t, width), input)->0;
            &&& span.0.len() == width
            &&& input == span.0 + span.1
        }),
{
    let span = subfield_span(ParseData::Fixed(t, width), input)->0;
    assert(input =~= span.0 + span.1);
}

} // verus!
