//! Error carriers: small tag-only values classifying parse and narrowing-cast
//! failures.
use vstd::prelude::*;

verus! {

/// The reason a string or byte-sequence parse failed.
#[derive(Clone, Copy, Debug, PartialEq, Eq, Structural)]
pub enum IntErrorKind {
    /// The input held no digits at all.
    Empty,
    /// A byte mapped outside the digit alphabet of the requested radix.
    InvalidDigit,
    /// The parsed value does not fit the fixed width.
    PosOverflow,
}

/// A recoverable parse failure: a kind tag and nothing else.
#[derive(Clone, Copy, Debug, PartialEq, Eq, Structural)]
pub struct ParseIntError {
    pub kind: IntErrorKind,
}

impl ParseIntError {
    /// The kind of failure.
    pub fn kind(&self) -> (k: IntErrorKind)
        ensures
            k == self.kind,
    {
        self.kind
    }
}

/// A narrowing conversion failed: the value did not fit the target width.
/// A tag-only value with no payload.
#[derive(Clone, Copy, Debug, PartialEq, Eq, Structural)]
pub struct TryFromIntError;

} // verus!
