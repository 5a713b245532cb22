//! Encoding a path of coordinates to polyline text, and decoding it again.
//!
//! The text holds, for each coordinate in order, the packed difference of
//! its latitude from the latitude before it, then the same for its
//! longitude. The first coordinate is measured from the origin.
use vstd::prelude::*;
use vstd::string::{is_ascii, is_ascii_spec_bytes};
use crate::error::CodecError;
use crate::laws::{lemma_decoded_on_globe, lemma_text_in_alphabet};
use crate::scale::{in_range, lat_limit, limits, lon_limit, within, Coordinate, MAX_FACTOR};
use crate::varint::{
    decode, encode, is_polyline_text, lemma_unpacked_advances, packed, unpacked, unzigzag, zigzag,
};

verus! {

/// The point from which the first coordinate of a path is measured.
pub open spec fn origin() -> Coordinate {
    Coordinate { lat: 0, lon: 0 }
}

/// The coordinate that position `i` of a path is measured from.
pub open spec fn previous(points: Seq<Coordinate>, i: int) -> Coordinate {
    if i <= 0 {
        origin()
    } else {
        points[i - 1]
    }
}

/// Whether every coordinate of a path is valid at the given precision factor.
pub open spec fn all_valid(points: Seq<Coordinate>, factor: nat) -> bool {
    forall|i: int| 0 <= i < points.len() ==> (#[trigger] points[i]).valid(factor)
}

/// The characters of one step: the latitude difference, then the longitude
/// difference.
pub open spec fn step_text(from: Coordinate, to: Coordinate) -> Seq<char> {
    packed(zigzag(to.lat - from.lat)) + packed(zigzag(to.lon - from.lon))
}

/// The text of the coordinates from position `i` to the end of the path.
pub open spec fn polyline_from(points: Seq<Coordinate>, i: int) -> Seq<char>
    decreases points.len() - i,
{
    if i < 0 || i >= points.len() {
        Seq::empty()
    } else {
        step_text(previous(points, i), points[i]) + polyline_from(points, i + 1)
    }
}

/// The text of a whole path.
pub open spec fn polyline_text(points: Seq<Coordinate>) -> Seq<char> {
    polyline_from(points, 0)
}

/// What the text from position `at` decodes to, when the coordinate before
/// it is `prev` and `count` coordinates have been read so far: the rest of
/// the path, or the first error met.
pub open spec fn decoded_from(
    s: Seq<char>,
    at: int,
    prev: Coordinate,
    count: nat,
    factor: nat,
) -> Result<Seq<Coordinate>, CodecError>
    decreases s.len() - at,
{
    if at < 0 || at >= s.len() {
        Ok(Seq::empty())
    } else {
        match unpacked(s, at) {
            None => Err(CodecError::TruncatedPolyline),
            Some((lat_folded, mid)) => match unpacked(s, mid) {
                None => Err(CodecError::TruncatedPolyline),
                Some((lon_folded, next)) => {
                    let lat = prev.lat + unzigzag(lat_folded);
                    let lon = prev.lon + unzigzag(lon_folded);
                    if !in_range(lat, lon, factor) {
                        Err(CodecError::InvalidCoordinate((count + 1) as usize))
                    } else {
                        let point = Coordinate { lat: lat as i64, lon: lon as i64 };
                        proof {
                            lemma_unpacked_advances(s, at);
                            lemma_unpacked_advances(s, mid);
                        }
                        match decoded_from(s, next, point, count + 1, factor) {
                            Ok(rest) => Ok(seq![point] + rest),
                            Err(e) => Err(e),
                        }
                    }
                },
            },
        }
    }
}

/// What a whole text decodes to.
pub open spec fn decoded(s: Seq<char>, factor: nat) -> Result<Seq<Coordinate>, CodecError> {
    decoded_from(s, 0, origin(), 0, factor)
}

/// Encodes a path of coordinates as polyline text.
///
/// Fails at the first coordinate that is not valid, with its one-based
/// position; nothing is returned of the coordinates before it. An empty
/// path gives the empty text.
pub fn encode_polyline(coords: &[Coordinate], factor: u32) -> (r: Result<String, CodecError>)
    requires
        factor <= MAX_FACTOR,
    ensures
        match r {
            Ok(text) => all_valid(coords@, factor as nat) && text@ == polyline_text(coords@)
                && is_polyline_text(text@),
            Err(e) => e matches CodecError::InvalidCoordinate(n) && 1 <= n <= coords.len()
                && !coords[n - 1].valid(factor as nat) && all_valid(
                coords@.take(n - 1),
                factor as nat,
            ),
        },
{
    let (lat_max, lon_max) = limits(factor);
    let mut text = String::new();
    let mut prev = Coordinate { lat: 0, lon: 0 };
    let mut i: usize = 0;
    while i < coords.len()
        invariant
            i <= coords.len(),
            lat_max == lat_limit(factor as nat),
            lon_max == lon_limit(factor as nat),
            0 < lat_max < lon_max <= 1_800_000_000_000_000_000,
            prev == previous(coords@, i as int),
            prev.valid(factor as nat),
            all_valid(coords@.take(i as int), factor as nat),
            polyline_text(coords@) == text@ + polyline_from(coords@, i as int),
        decreases coords.len() - i,
    {
        let coord = coords[i];
        if !within(coord, lat_max, lon_max) {
            return Err(CodecError::InvalidCoordinate(i + 1));
        }
        let ghost before = text@;
        encode(coord.lat - prev.lat, &mut text);
        encode(coord.lon - prev.lon, &mut text);
        proof {
            let step = step_text(prev, coord);
            assert(text@ == before + step);
            assert((before + step) + polyline_from(coords@, i as int + 1) == before + (step
                + polyline_from(coords@, i as int + 1)));
            assert forall|j: int| 0 <= j < i + 1 implies (#[trigger] coords@.take(
                i as int + 1,
            )[j]).valid(factor as nat) by {
                if j < i {
                    assert(coords@.take(i as int)[j].valid(factor as nat));
                }
            }
        }
        prev = coord;
        i = i + 1;
    }
    assert(coords@.take(i as int) == coords@);
    assert(polyline_text(coords@) == text@);
    proof {
        lemma_text_in_alphabet(coords@);
    }
    Ok(text)
}

/// A decoding result with the coordinates read before it put in front.
spec fn after(
    head: Seq<Coordinate>,
    tail: Result<Seq<Coordinate>, CodecError>,
) -> Result<Seq<Coordinate>, CodecError> {
    match tail {
        Ok(rest) => Ok(head + rest),
        Err(e) => Err(e),
    }
}

/// Decodes polyline text to the path of coordinates it stands for.
///
/// Fails with `TruncatedPolyline` when the text ends inside a group or
/// after a latitude without its longitude, and with `InvalidCoordinate`
/// and the one-based position of the first coordinate that leaves the
/// globe. The empty text gives the empty path.
pub fn decode_polyline(enc_polyline: &str, factor: u32) -> (r: Result<
    Vec<Coordinate>,
    CodecError,
>)
    requires
        factor <= MAX_FACTOR,
        is_polyline_text(enc_polyline@),
    ensures
        match r {
            Ok(points) => decoded(enc_polyline@, factor as nat) == Ok::<
                Seq<Coordinate>,
                CodecError,
            >(points@) && all_valid(points@, factor as nat),
            Err(e) => decoded(enc_polyline@, factor as nat) == Err::<Seq<Coordinate>, CodecError>(
                e,
            ),
        },
{
    broadcast use is_ascii_spec_bytes;

    let (lat_max, lon_max) = limits(factor);
    assert(is_ascii(enc_polyline));
    let len = enc_polyline.as_bytes().len();
    let mut points: Vec<Coordinate> = Vec::new();
    let mut prev = Coordinate { lat: 0, lon: 0 };
    let mut i: usize = 0;
    while i < len
        invariant
            is_polyline_text(enc_polyline@),
            len == enc_polyline@.len(),
            i <= len,
            points.len() <= i,
            lat_max == lat_limit(factor as nat),
            lon_max == lon_limit(factor as nat),
            0 < lat_max < lon_max <= 1_800_000_000_000_000_000,
            prev.valid(factor as nat),
            decoded(enc_polyline@, factor as nat) == after(
                points@,
                decoded_from(enc_polyline@, i as int, prev, points.len() as nat, factor as nat),
            ),
        decreases len - i,
    {
        proof {
            lemma_unpacked_advances(enc_polyline@, i as int);
        }
        let (lat_step, mid) = match decode(enc_polyline, i) {
            Ok(read) => read,
            Err(e) => {
                return Err(e);
            },
        };
        proof {
            lemma_unpacked_advances(enc_polyline@, mid as int);
        }
        let (lon_step, next) = match decode(enc_polyline, mid) {
            Ok(read) => read,
            Err(e) => {
                return Err(e);
            },
        };
        let lat: i128 = prev.lat as i128 + lat_step as i128;
        let lon: i128 = prev.lon as i128 + lon_step as i128;
        if lat < -(lat_max as i128) || lat > lat_max as i128 || lon < -(lon_max as i128) || lon
            > lon_max as i128 {
            return Err(CodecError::InvalidCoordinate(points.len() + 1));
        }
        let ghost before = points@;
        prev = Coordinate { lat: lat as i64, lon: lon as i64 };
        points.push(prev);
        proof {
            let rest = decoded_from(
                enc_polyline@,
                next as int,
                prev,
                points.len() as nat,
                factor as nat,
            );
            match rest {
                Ok(tail) => {
                    assert(before + (seq![prev] + tail) == points@ + tail);
                },
                Err(_) => {},
            }
        }
        i = next;
    }
    assert(points@ + Seq::<Coordinate>::empty() == points@);
    proof {
        lemma_decoded_on_globe(enc_polyline@, factor as nat);
    }
    Ok(points)
}

/// Pairs a column of latitudes with a column of longitudes, position by
/// position. Fails when the columns differ in length.
pub fn zip_columns<T: Copy>(lats: &[T], lons: &[T]) -> (r: Result<Vec<(T, T)>, CodecError>)
    ensures
        match r {
            Ok(pairs) => lats.len() == lons.len() && pairs.len() == lats.len() && forall|i: int|
                0 <= i < pairs.len() ==> #[trigger] pairs[i] == (lats[i], lons[i]),
            Err(e) => e == CodecError::MismatchedLengths && lats.len() != lons.len(),
        },
{
    if lats.len() != lons.len() {
        return Err(CodecError::MismatchedLengths);
    }
    let mut pairs: Vec<(T, T)> = Vec::new();
    let mut i: usize = 0;
    while i < lats.len()
        invariant
            lats.len() == lons.len(),
            i <= lats.len(),
            pairs.len() == i,
            forall|j: int| 0 <= j < i ==> #[trigger] pairs[j] == (lats[j], lons[j]),
        decreases lats.len() - i,
    {
        pairs.push((lats[i], lons[i]));
        i = i + 1;
    }
    Ok(pairs)
}

} // verus!
