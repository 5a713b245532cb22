//! Errors reported by the codec.
use vstd::prelude::*;

verus! {

/// Why a polyline could not be encoded or decoded.
#[derive(Debug, Clone, Copy, PartialEq, Eq, Structural)]
pub enum CodecError {
    /// The coordinate at this one-based position lies outside the valid
    /// latitude or longitude range.
    InvalidCoordinate(usize),
    /// A latitude column and a longitude column differ in length.
    MismatchedLengths,
    /// The text ends inside a group: its last character promises another.
    TruncatedPolyline,
}

} // verus!
