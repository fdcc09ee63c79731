//! Why an object cannot be had.

use vstd::prelude::*;

use crate::store::inflate::Stream;

verus! {

/// What is wrong with the body of an object of a known kind.
#[derive(Clone, Copy, Debug, PartialEq, Eq, Structural)]
pub enum ParseErrorKind {
    /// A header that the kind must have is absent.
    MissingHeader,
    /// An object id is not 20 bytes, or not the hex form of 20 bytes.
    BadObjectId,
    /// A tree entry's mode is not an octal number that fits 32 bits.
    BadMode,
    /// The body ends before the blank line that closes its headers.
    Truncated,
}

/// Why `get` returned no object.
#[derive(Clone, Copy, Debug, PartialEq, Eq, Structural)]
pub enum GetError {
    /// No object of the store has the id.
    NotFound,
    /// A zlib stream is cut short or invalid.
    CorruptCompression,
    /// A loose header, a pack header, a packed object's header or a pack
    /// index does not have the form it must have.
    MalformedHeader,
    /// The body does not have the shape of its kind.
    ParseError(ParseErrorKind),
    /// A pack index of a version other than 1 and 2, or a delta against a
    /// base named by id.
    UnsupportedFormat,
    /// A delta does not fit its base, or does not give the size it declares.
    DeltaMismatch,
    /// The store does not hold yet what this stream inflates to. It is no
    /// fault of the object: the caller inflates the stream, adds what came
    /// out to the store, and asks again.
    NotInflated(Stream),
}

} // verus!
