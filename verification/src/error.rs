//! Errors of the decoder: a structural kind, and the chain of causes below it.

use vstd::prelude::*;

verus! {

/// Why a decimal literal could not be converted to an integer.
#[derive(Debug, Clone, Copy, PartialEq, Eq, Structural)]
pub enum IntErrorKind {
    /// The literal holds no character.
    Empty,
    /// The literal holds no digit, or a character that is none.
    InvalidDigit,
    /// The number is too large for the integer type.
    PosOverflow,
    /// The number is too small for the integer type.
    NegOverflow,
}

/// Why the byte source could not deliver what was asked of it.
#[derive(Debug, Clone, Copy, PartialEq, Eq, Structural)]
pub enum IoErrorKind {
    /// The source ended before the requested bytes were read.
    UnexpectedEof,
    /// Any other failure of the underlying source.
    Other,
}

/// Where in the framing a decode failed, or which low-level conversion failed.
#[derive(Debug, Clone, PartialEq)]
pub enum ErrorKind {
    BadDataStructureCode(String),
    BadDataTypeCode(String),
    BadDirectoryData,
    BadTruncEscSeq(String),
    BadFieldControl,
    CouldNotParseCatalog,
    CouldNotParseName,
    EmptyFormatControls,
    InvalidDDR,
    InvalidDR,
    InvalidLeader,
    InvalidDDF(String),
    InvalidDDFS,
    InvalidHeader,
    EOF,
    IOError(IoErrorKind),
    ParseIntError(IntErrorKind, String),
    ParseFloatError(String),
    UnParsableFormatControl(String),
    UtfError,
}

/// The mathematical value of an [`ErrorKind`]: texts are character sequences.
pub enum KindView {
    BadDataStructureCode(Seq<char>),
    BadDataTypeCode(Seq<char>),
    BadDirectoryData,
    BadTruncEscSeq(Seq<char>),
    BadFieldControl,
    CouldNotParseCatalog,
    CouldNotParseName,
    EmptyFormatControls,
    InvalidDDR,
    InvalidDR,
    InvalidLeader,
    InvalidDDF(Seq<char>),
    InvalidDDFS,
    InvalidHeader,
    EOF,
    IOError(IoErrorKind),
    ParseIntError(IntErrorKind, Seq<char>),
    ParseFloatError(Seq<char>),
    UnParsableFormatControl(Seq<char>),
    UtfError,
}

impl View for ErrorKind {
    type V = KindView;

    open spec fn view(&self) -> KindView {
        match *self {
            ErrorKind::BadDataStructureCode(s) => KindView::BadDataStructureCode(s@),
            ErrorKind::BadDataTypeCode(s) => KindView::BadDataTypeCode(s@),
            ErrorKind::BadDirectoryData => KindView::BadDirectoryData,
            ErrorKind::BadTruncEscSeq(s) => KindView::BadTruncEscSeq(s@),
            ErrorKind::BadFieldControl => KindView::BadFieldControl,
            ErrorKind::CouldNotParseCatalog => KindView::CouldNotParseCatalog,
            ErrorKind::CouldNotParseName => KindView::CouldNotParseName,
            ErrorKind::EmptyFormatControls => KindView::EmptyFormatControls,
            ErrorKind::InvalidDDR => KindView::InvalidDDR,
            ErrorKind::InvalidDR => KindView::InvalidDR,
            ErrorKind::InvalidLeader => KindView::InvalidLeader,
            ErrorKind::InvalidDDF(s) => KindView::InvalidDDF(s@),
            ErrorKind::InvalidDDFS => KindView::InvalidDDFS,
            ErrorKind::InvalidHeader => KindView::InvalidHeader,
            ErrorKind::EOF => KindView::EOF,
            ErrorKind::IOError(k) => KindView::IOError(k),
            ErrorKind::ParseIntError(k, s) => KindView::ParseIntError(k, s@),
            ErrorKind::ParseFloatError(s) => KindView::ParseFloatError(s@),
            ErrorKind::UnParsableFormatControl(s) => KindView::UnParsableFormatControl(s@),
            ErrorKind::UtfError => KindView::UtfError,
        }
    }
}

/// A failure of the decoder: the kind that names where it happened, and below
/// it the failure that caused it, if the kind was added as context.
#[derive(Debug, PartialEq)]
pub struct Error {
    pub kind: ErrorKind,
    pub cause: Option<Box<Error>>,
}

/// The kinds of an error and of its causes, outermost first.
pub open spec fn chain_of(e: Error) -> Seq<KindView>
    decreases e,
{
    match e.cause {
        None => seq![e.kind@],
        Some(c) => seq![e.kind@] + chain_of(*c),
    }
}

impl View for Error {
    type V = Seq<KindView>;

    open spec fn view(&self) -> Seq<KindView> {
        chain_of(*self)
    }
}

impl Error {
    /// An error of the given kind with no cause below it.
    pub fn new(kind: ErrorKind) -> (e: Error)
        ensures
            e@ == seq![kind@],
            e.kind == kind,
            e.cause is None,
    {
        Error { kind, cause: None }
    }

    /// The outermost kind of this error.
    pub fn kind(&self) -> (k: &ErrorKind)
        ensures
            *k == self.kind,
            k@ == self@[0],
    {
        proof {
            lemma_chain_head(*self);
        }
        &self.kind
    }

    /// The failure directly below this one, if there is one.
    pub fn cause(&self) -> (c: Option<&Error>)
        ensures
            c is None <==> self@.len() == 1,
            c matches Some(inner) ==> inner@ == self@.skip(1),
    {
        proof {
            lemma_chain_head(*self);
        }
        match &self.cause {
            None => None,
            Some(b) => {
                proof {
                    lemma_chain_head(**b);
                    assert((seq![self.kind@] + chain_of(**b)).skip(1) =~= chain_of(**b));
                }
                Some(&**b)
            },
        }
    }

    /// Puts `kind` on top of this error, which becomes its cause.
    pub fn context(self, kind: ErrorKind) -> (e: Error)
        ensures
            e@ == seq![kind@] + self@,
    {
        Error { kind, cause: Some(Box::new(self)) }
    }
}

/// The chain of an error starts with its own kind.
pub proof fn lemma_chain_head(e: Error)
    ensures
        e@.len() >= 1,
        e@[0] == e.kind@,
        e.cause is None <==> e@.len() == 1,
    decreases e,
{
    match e.cause {
        None => {},
        Some(c) => {
            lemma_chain_head(*c);
        },
    }
}

impl From<ErrorKind> for Error {
    fn from(kind: ErrorKind) -> (e: Error) {
        Error { kind, cause: None }
    }
}

impl vstd::std_specs::convert::FromSpecImpl<ErrorKind> for Error {
    open spec fn obeys_from_spec() -> bool {
        true
    }

    open spec fn from_spec(kind: ErrorKind) -> Error {
        Error { kind, cause: None }
    }
}

} // verus!
