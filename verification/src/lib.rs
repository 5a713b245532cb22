//! Google Encoded Polyline codec over fixed-point coordinates.
//!
//! A polyline is an ordered path of geographic coordinates written as a
//! compact string of printable ASCII characters. Each coordinate is held as
//! a pair of signed integers: degrees multiplied by a power of ten chosen by
//! the precision factor. The text stores the difference between consecutive
//! coordinates, folded to a non-negative number and cut into five-bit groups.
pub mod codec;
pub mod error;
pub mod laws;
pub mod scale;
pub mod varint;

pub use crate::codec::{decode_polyline, encode_polyline, zip_columns};
pub use crate::error::CodecError;
pub use crate::scale::{limits, scale_of, validate, Coordinate, MAX_FACTOR};
pub use crate::varint::is_polyline;
