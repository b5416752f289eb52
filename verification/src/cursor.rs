//! A sequential, forward-only source of bytes held in memory.

use crate::error::{Error, ErrorKind, IoErrorKind, KindView};
use crate::span::{find_byte, position};
use vstd::prelude::*;
use vstd::slice::slice_subrange;

verus! {

/// A cursor over a byte buffer. Its value is the bytes not yet read.
pub struct ByteCursor<'a> {
    rest: &'a [u8],
}

impl<'a> View for ByteCursor<'a> {
    type V = Seq<u8>;

    closed spec fn view(&self) -> Seq<u8> {
        self.rest@
    }
}

/// What a read returned, as mathematical values.
pub open spec fn read_outcome(r: Result<&[u8], Error>) -> Result<Seq<u8>, Seq<KindView>> {
    match r {
        Ok(b) => Ok(b@),
        Err(e) => Err(e@),
    }
}

/// The chain of the error that a read past the end gives.
pub open spec fn premature_end() -> Seq<KindView> {
    seq![KindView::IOError(IoErrorKind::UnexpectedEof)]
}

/// The bytes that `read_exact` hands out of `input`, and what it leaves.
pub open spec fn exact_span(input: Seq<u8>, n: int) -> Option<(Seq<u8>, Seq<u8>)> {
    if 0 <= n <= input.len() {
        Some((input.take(n), input.skip(n)))
    } else {
        None
    }
}

/// The bytes that `read_until` hands out of `input`, and what it leaves: the
/// bytes before the first delimiter, and the bytes after it.
pub open spec fn delimited_span(input: Seq<u8>, delim: u8) -> Option<(Seq<u8>, Seq<u8>)> {
    let p = position(input, delim);
    if 0 <= p < input.len() {
        Some((input.take(p), input.skip(p + 1)))
    } else {
        None
    }
}

impl<'a> ByteCursor<'a> {
    /// A cursor at the start of `data`.
    pub fn new(data: &'a [u8]) -> (c: ByteCursor<'a>)
        ensures
            c@ == data@,
    {
        ByteCursor { rest: data }
    }

    /// The number of bytes not yet read.
    pub fn remaining(&self) -> (n: usize)
        ensures
            n == self@.len(),
    {
        self.rest.len()
    }

    /// True when every byte has been read.
    pub fn is_empty(&self) -> (b: bool)
        ensures
            b == (self@.len() == 0),
    {
        self.rest.len() == 0
    }

    /// Reads exactly `n` bytes. When fewer are left, the read fails and the
    /// cursor is left at the end of its buffer.
    pub fn read_exact(&mut self, n: usize) -> (r: Result<&'a [u8], Error>)
        ensures
            match exact_span(old(self)@, n as int) {
                Some((taken, left)) => read_outcome(r) == Ok::<Seq<u8>, Seq<KindView>>(taken)
                    && final(self)@ == left,
                None => read_outcome(r) == Err::<Seq<u8>, Seq<KindView>>(premature_end())
                    && final(self)@ == Seq::<u8>::empty(),
            },
    {
        let all = self.rest;
        if n <= all.len() {
            self.rest = slice_subrange(all, n, all.len());
            Ok(slice_subrange(all, 0, n))
        } else {
            self.rest = slice_subrange(all, all.len(), all.len());
            Err(Error::new(ErrorKind::IOError(IoErrorKind::UnexpectedEof)))
        }
    }

    /// Reads the bytes before the next `delim` and skips that delimiter. When
    /// no delimiter is left, the read fails and the cursor is left at the end
    /// of its buffer.
    pub fn read_until(&mut self, delim: u8) -> (r: Result<&'a [u8], Error>)
        ensures
            match delimited_span(old(self)@, delim) {
                Some((taken, left)) => read_outcome(r) == Ok::<Seq<u8>, Seq<KindView>>(taken)
                    && final(self)@ == left,
                None => read_outcome(r) == Err::<Seq<u8>, Seq<KindView>>(premature_end())
                    && final(self)@ == Seq::<u8>::empty(),
            },
    {
        let all = self.rest;
        let p = find_byte(all, delim);
        if p < all.len() {
            self.rest = slice_subrange(all, p + 1, all.len());
            Ok(slice_subrange(all, 0, p))
        } else {
            self.rest = slice_subrange(all, all.len(), all.len());
            Err(Error::new(ErrorKind::IOError(IoErrorKind::UnexpectedEof)))
        }
    }
}

} // verus!
