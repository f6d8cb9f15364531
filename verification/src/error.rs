//! The errors that decoding reports, and where in the input they arose.

use vstd::prelude::*;

verus! {

/// What was wrong with the input.
#[derive(Debug, Clone, Copy, PartialEq, Eq, Structural)]
pub enum ParseErrorKind {
    /// The input does not begin with the 8-byte archive signature.
    MalformedSignature,
    /// Fewer than 60 bytes remain where a header is expected, or fewer bytes
    /// than a header field is wide where that field is expected.
    TruncatedHeader,
    /// A numeric field, once its trailing whitespace is removed, is empty,
    /// holds a byte that is no digit of its radix, or exceeds 64 bits.
    InvalidNumericField,
    /// The two bytes that close a header are not a backquote and a newline.
    MissingTerminator,
    /// Fewer bytes remain than the header declares for the payload.
    TruncatedPayload,
    /// After the last complete entry and its padding some bytes are left,
    /// too few to hold another header.
    TrailingGarbage,
}

/// The mathematical form of a [`ParseError`].
pub struct Failure {
    pub kind: ParseErrorKind,
    pub offset: nat,
}

/// A decoding error: its kind, and the index in the decoder's input of the
/// first byte of the field or component that was rejected.
#[derive(Debug, Clone, Copy, PartialEq, Eq)]
pub struct ParseError {
    pub kind: ParseErrorKind,
    pub offset: usize,
}

impl View for ParseError {
    type V = Failure;

    open spec fn view(&self) -> Failure {
        Failure { kind: self.kind, offset: self.offset as nat }
    }
}

/// The failure of the given kind at the given offset.
pub open spec fn failure(kind: ParseErrorKind, offset: nat) -> Failure {
    Failure { kind, offset }
}

impl Failure {
    /// The same failure, seen from an input that starts `base` bytes earlier.
    pub open spec fn shifted(self, base: nat) -> Failure {
        Failure { kind: self.kind, offset: self.offset + base }
    }
}

impl ParseError {
    /// An error of the given kind at the start of the input.
    pub fn at_start(kind: ParseErrorKind) -> (e: ParseError)
        ensures
            e@ == failure(kind, 0),
    {
        ParseError { kind, offset: 0 }
    }

    /// The same error, seen from an input that starts `base` bytes earlier.
    pub fn shifted(self, base: usize) -> (e: ParseError)
        requires
            self.offset + base <= usize::MAX,
        ensures
            e@ == self@.shifted(base as nat),
    {
        ParseError { kind: self.kind, offset: self.offset + base }
    }
}

} // verus!
