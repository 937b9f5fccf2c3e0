//! Typed errors for the decode pipeline.
//!
//! Every way a decode can fail is a recoverable value of these types;
//! no malformed input ever aborts the calling process.

use vstd::prelude::*;

verus! {

/// Failures specific to the fixed 256-byte header.
#[derive(Clone, Copy, Debug, PartialEq, Eq, Structural)]
pub enum HeaderError {
    /// The version field is not ASCII `'0'` followed by seven spaces.
    Version,
    /// A date, time or numeric header field is malformed or out of range.
    Field,
}

/// The kinds of failure a decode can surface.
#[derive(Clone, Copy, Debug, PartialEq, Eq, Structural)]
pub enum ErrorKind {
    /// The byte source ran out before a required read completed.
    Io,
    /// Bytes were not valid ASCII text where text was required.
    Encoding,
    /// A failure in the fixed header.
    Header(HeaderError),
    /// Non-numeric content in a signal-metadata numeric field.
    ParseError,
    /// A value the format permits but this decoder does not support:
    /// a fractional record duration with a nonzero mantissa, an unknown
    /// record count where a concrete count is required, a zero signal
    /// count, or equal digital extremes (which would force a division
    /// by zero during scaling).
    UnsupportedValue,
}

/// A decode failure, carrying its kind.
#[derive(Clone, Copy, Debug, PartialEq, Eq, Structural)]
pub struct Error {
    pub kind: ErrorKind,
}

impl Error {
    pub fn new(kind: ErrorKind) -> (r: Error)
        ensures
            r.kind == kind,
    {
        Error { kind }
    }
}

} // verus!
