//! Fixed-point scaling and the valid range of a coordinate.
//!
//! A coordinate holds degrees multiplied by ten to the power of the
//! precision factor. It is valid when its latitude lies within ninety
//! degrees of zero and its longitude within one hundred and eighty.
use vstd::prelude::*;
use crate::error::CodecError;

verus! {

/// Largest precision factor for which every valid coordinate fits in `i64`.
pub const MAX_FACTOR: u32 = 16;

/// A geographic position in fixed point: degrees times ten to the power of
/// the precision factor, rounded to an integer.
#[derive(Debug, Clone, Copy, PartialEq, Eq, Structural)]
pub struct Coordinate {
    pub lat: i64,
    pub lon: i64,
}

/// Ten to the power `n`.
pub open spec fn pow10(n: nat) -> nat
    decreases n,
{
    if n == 0 {
        1
    } else {
        10 * pow10((n - 1) as nat)
    }
}

/// Largest magnitude of a fixed-point latitude: ninety degrees.
pub open spec fn lat_limit(factor: nat) -> int {
    90 * (pow10(factor) as int)
}

/// Largest magnitude of a fixed-point longitude: one hundred and eighty degrees.
pub open spec fn lon_limit(factor: nat) -> int {
    180 * (pow10(factor) as int)
}

/// Whether a latitude and a longitude lie within ninety and one hundred and
/// eighty degrees of zero at the given precision factor.
pub open spec fn in_range(lat: int, lon: int, factor: nat) -> bool {
    &&& -lat_limit(factor) <= lat <= lat_limit(factor)
    &&& -lon_limit(factor) <= lon <= lon_limit(factor)
}

impl Coordinate {
    /// Whether this coordinate lies on the globe at the given precision factor.
    pub open spec fn valid(self, factor: nat) -> bool {
        in_range(self.lat as int, self.lon as int, factor)
    }
}

/// The powers of ten grow with the exponent.
pub proof fn lemma_pow10_monotonic(a: nat, b: nat)
    requires
        a <= b,
    ensures
        pow10(a) <= pow10(b),
    decreases b,
{
    if a < b {
        lemma_pow10_monotonic(a, (b - 1) as nat);
    }
}

/// `MAX_FACTOR` is the largest factor whose longitude limit fits in `i64`.
pub proof fn lemma_max_factor()
    ensures
        pow10(MAX_FACTOR as nat) == 10_000_000_000_000_000,
        lon_limit(MAX_FACTOR as nat) <= i64::MAX,
        lon_limit((MAX_FACTOR + 1) as nat) > i64::MAX,
{
    reveal_with_fuel(pow10, 18);
}

/// Ten to the power of the precision factor, or `None` when the factor is
/// above `MAX_FACTOR`.
pub fn scale_of(factor: u32) -> (r: Option<i64>)
    ensures
        r == if factor <= MAX_FACTOR {
            Some(pow10(factor as nat) as i64)
        } else {
            None
        },
        factor <= MAX_FACTOR ==> 1 <= pow10(factor as nat) <= 10_000_000_000_000_000,
{
    if factor > MAX_FACTOR {
        return None;
    }
    proof {
        lemma_max_factor();
    }
    let mut scale: i64 = 1;
    let mut i: u32 = 0;
    while i < factor
        invariant
            i <= factor <= MAX_FACTOR,
            scale == pow10(i as nat),
            pow10(MAX_FACTOR as nat) == 10_000_000_000_000_000,
        decreases factor - i,
    {
        proof {
            lemma_pow10_monotonic((i + 1) as nat, MAX_FACTOR as nat);
        }
        scale = scale * 10;
        i = i + 1;
    }
    proof {
        lemma_pow10_monotonic(0, factor as nat);
        lemma_pow10_monotonic(factor as nat, MAX_FACTOR as nat);
    }
    Some(scale)
}

/// The largest fixed-point latitude and longitude at a precision factor.
pub fn limits(factor: u32) -> (r: (i64, i64))
    requires
        factor <= MAX_FACTOR,
    ensures
        r.0 == lat_limit(factor as nat),
        r.1 == lon_limit(factor as nat),
        0 < r.0 < r.1 <= 1_800_000_000_000_000_000,
{
    match scale_of(factor) {
        Some(scale) => (90 * scale, 180 * scale),
        None => (0, 0),
    }
}

/// Whether a coordinate lies within the given limits.
pub(crate) fn within(coord: Coordinate, lat_max: i64, lon_max: i64) -> (ok: bool)
    requires
        0 <= lat_max,
        0 <= lon_max,
    ensures
        ok == (-lat_max <= coord.lat <= lat_max && -lon_max <= coord.lon <= lon_max),
{
    -lat_max <= coord.lat && coord.lat <= lat_max && -lon_max <= coord.lon && coord.lon <= lon_max
}

/// Checks that the coordinate at one-based position `index` lies on the
/// globe: latitude within ninety degrees of zero, longitude within one
/// hundred and eighty. A coordinate off the globe is reported with its
/// position.
pub fn validate(coord: Coordinate, index: usize, factor: u32) -> (r: Result<(), CodecError>)
    requires
        factor <= MAX_FACTOR,
    ensures
        r == if coord.valid(factor as nat) {
            Ok::<(), CodecError>(())
        } else {
            Err(CodecError::InvalidCoordinate(index))
        },
{
    let (lat_max, lon_max) = limits(factor);
    if within(coord, lat_max, lon_max) {
        Ok(())
    } else {
        Err(CodecError::InvalidCoordinate(index))
    }
}

} // verus!
