//! What holds of encoding and decoding taken together.
use vstd::prelude::*;
use crate::codec::{
    all_valid, decoded, decoded_from, origin, polyline_from, polyline_text, previous,
};
use crate::error::CodecError;
use crate::scale::{in_range, lemma_max_factor, lemma_pow10_monotonic, Coordinate, MAX_FACTOR};
use crate::varint::{
    chunk_of, is_polyline_text, lemma_packed_in_alphabet, lemma_unpacked_advances,
    lemma_unpacked_packed, lemma_unzigzag_zigzag, packed, unpacked, unzigzag, zigzag,
};

verus! {

/// Folding is the shift and complement of two's complement arithmetic, as
/// long as the doubled difference fits in `i64`.
pub proof fn lemma_zigzag_bitwise(d: i64)
    requires
        -0x4000_0000_0000_0000 <= d < 0x4000_0000_0000_0000,
    ensures
        zigzag(d as int) == (if d < 0 {
            !(d << 1u32)
        } else {
            d << 1u32
        }),
{
    assert(d < 0 ==> !(d << 1u32) == -2 * d - 1) by (bit_vector)
        requires
            -0x4000_0000_0000_0000 <= d < 0x4000_0000_0000_0000,
    ;
    assert(d >= 0 ==> (d << 1u32) == 2 * d) by (bit_vector)
        requires
            -0x4000_0000_0000_0000 <= d < 0x4000_0000_0000_0000,
    ;
}

/// The groups of a folded number are its bits, five at a time: the lowest
/// group is the low five bits, the bit 32 marks a group that another
/// follows, and what is left is the number shifted right by five.
pub proof fn lemma_groups_bitwise(v: u64)
    ensures
        v % 32 == v & 0x1f,
        32 + v % 32 == 0x20 | (v & 0x1f),
        v / 32 == v >> 5u32,
{
    assert(v % 32 == v & 0x1f) by (bit_vector);
    assert(32 + v % 32 == 0x20 | (v & 0x1f)) by (bit_vector);
    assert(v / 32 == v >> 5u32) by (bit_vector);
}

/// The empty path is written as the empty text, and the empty text is read
/// as the empty path, at every precision factor.
pub proof fn lemma_empty_path(factor: nat)
    ensures
        polyline_text(Seq::<Coordinate>::empty()) == Seq::<char>::empty(),
        decoded(Seq::<char>::empty(), factor) == Ok::<Seq<Coordinate>, CodecError>(
            Seq::<Coordinate>::empty(),
        ),
{
}

/// The text of a path, from any position on, lies in the alphabet.
proof fn lemma_suffix_in_alphabet(points: Seq<Coordinate>, i: int)
    ensures
        is_polyline_text(polyline_from(points, i)),
    decreases points.len() - i,
{
    if 0 <= i < points.len() {
        let from = previous(points, i);
        let to = points[i];
        lemma_packed_in_alphabet(zigzag(to.lat - from.lat));
        lemma_packed_in_alphabet(zigzag(to.lon - from.lon));
        lemma_suffix_in_alphabet(points, i + 1);
    }
}

/// The text of a path is written in the polyline alphabet alone.
pub proof fn lemma_text_in_alphabet(points: Seq<Coordinate>)
    ensures
        is_polyline_text(polyline_text(points)),
{
    lemma_suffix_in_alphabet(points, 0);
}

/// Where the text from `at` on is the text of a valid path from its
/// position `i` on, decoding from `at` gives those coordinates back.
proof fn lemma_decode_suffix(s: Seq<char>, at: int, points: Seq<Coordinate>, i: int, factor: nat)
    requires
        0 <= i <= points.len(),
        0 <= at <= s.len(),
        s.subrange(at, s.len() as int) == polyline_from(points, i),
        all_valid(points, factor),
    ensures
        decoded_from(s, at, previous(points, i), i as nat, factor) == Ok::<
            Seq<Coordinate>,
            CodecError,
        >(points.subrange(i, points.len() as int)),
    decreases points.len() - i,
{
    let tail = s.subrange(at, s.len() as int);
    if i == points.len() {
        assert(tail.len() == 0);
        assert(points.subrange(i, points.len() as int) == Seq::<Coordinate>::empty());
    } else {
        let from = previous(points, i);
        let to = points[i];
        let lat_folded = zigzag(to.lat - from.lat);
        let lon_folded = zigzag(to.lon - from.lon);
        let a = packed(lat_folded);
        let b = packed(lon_folded);
        let rest = polyline_from(points, i + 1);
        let mid = at + a.len();
        let next = mid + b.len();
        assert(tail == (a + b) + rest);
        assert(tail.len() == a.len() + b.len() + rest.len());
        assert(s.subrange(at, mid) == a) by {
            assert(s.subrange(at, mid) == tail.subrange(0, a.len() as int));
        }
        assert(s.subrange(mid, next) == b) by {
            assert(s.subrange(mid, next) == tail.subrange(
                a.len() as int,
                (a.len() + b.len()) as int,
            ));
        }
        assert(s.subrange(next, s.len() as int) == rest) by {
            assert(s.subrange(next, s.len() as int) == tail.subrange(
                (a.len() + b.len()) as int,
                tail.len() as int,
            ));
        }
        lemma_packed_in_alphabet(lat_folded);
        lemma_unpacked_packed(s, at, lat_folded);
        lemma_unpacked_packed(s, mid, lon_folded);
        lemma_unzigzag_zigzag(to.lat - from.lat);
        lemma_unzigzag_zigzag(to.lon - from.lon);
        assert(to.valid(factor));
        lemma_decode_suffix(s, next, points, i + 1, factor);
        assert(seq![to] + points.subrange(i + 1, points.len() as int) == points.subrange(
            i,
            points.len() as int,
        ));
    }
}

/// Decoding the text of a valid path gives the path back, coordinate for
/// coordinate, at every precision factor.
pub proof fn lemma_round_trip(points: Seq<Coordinate>, factor: nat)
    requires
        all_valid(points, factor),
    ensures
        decoded(polyline_text(points), factor) == Ok::<Seq<Coordinate>, CodecError>(points),
{
    let s = polyline_text(points);
    assert(s.subrange(0, s.len() as int) == s);
    lemma_decode_suffix(s, 0, points, 0, factor);
    assert(points.subrange(0, points.len() as int) == points);
}

/// Encoding, decoding and encoding again gives the text of the first
/// encoding: the text of a valid path decodes to a valid path with the
/// same text.
pub proof fn lemma_reencode(points: Seq<Coordinate>, factor: nat)
    requires
        all_valid(points, factor),
    ensures
        decoded(polyline_text(points), factor) matches Ok(back) && all_valid(back, factor)
            && polyline_text(back) == polyline_text(points),
{
    lemma_round_trip(points, factor);
}

/// Every coordinate that decoding hands out from `at` on is valid.
proof fn lemma_decoded_from_on_globe(
    s: Seq<char>,
    at: int,
    prev: Coordinate,
    count: nat,
    factor: nat,
)
    requires
        factor <= MAX_FACTOR,
    ensures
        decoded_from(s, at, prev, count, factor) matches Ok(points) ==> all_valid(points, factor),
    decreases s.len() - at,
{
    if 0 <= at < s.len() {
        if let Some((lat_folded, mid)) = unpacked(s, at) {
            if let Some((lon_folded, next)) = unpacked(s, mid) {
                lemma_unpacked_advances(s, at);
                lemma_unpacked_advances(s, mid);
                lemma_pow10_monotonic(factor, MAX_FACTOR as nat);
                lemma_max_factor();
                let lat = prev.lat + unzigzag(lat_folded);
                let lon = prev.lon + unzigzag(lon_folded);
                if in_range(lat, lon, factor) {
                    let point = Coordinate { lat: lat as i64, lon: lon as i64 };
                    lemma_decoded_from_on_globe(s, next, point, count + 1, factor);
                }
            }
        }
    }
}

/// Every coordinate of a decoded path is valid: decoding never hands out a
/// position off the globe.
pub proof fn lemma_decoded_on_globe(s: Seq<char>, factor: nat)
    requires
        factor <= MAX_FACTOR,
    ensures
        decoded(s, factor) matches Ok(points) ==> all_valid(points, factor),
{
    lemma_decoded_from_on_globe(s, 0, origin(), 0, factor);
}

/// The last character of a group does not promise another.
proof fn lemma_group_ends_closed(s: Seq<char>, at: int)
    ensures
        unpacked(s, at) matches Some((v, end)) ==> at < end <= s.len() && chunk_of(s[end - 1])
            < 32,
    decreases s.len() - at,
{
    if 0 <= at < s.len() && chunk_of(s[at]) >= 32 {
        lemma_group_ends_closed(s, at + 1);
    }
}

/// From any position before its end, a text whose last character promises
/// another never decodes to a path.
proof fn lemma_dangling_from(s: Seq<char>, at: int, prev: Coordinate, count: nat, factor: nat)
    requires
        0 <= at < s.len(),
        chunk_of(s.last()) >= 32,
    ensures
        decoded_from(s, at, prev, count, factor) matches Err(e) && (e
            == CodecError::TruncatedPolyline || e is InvalidCoordinate),
    decreases s.len() - at,
{
    lemma_group_ends_closed(s, at);
    if let Some((lat_folded, mid)) = unpacked(s, at) {
        lemma_group_ends_closed(s, mid);
        if let Some((lon_folded, next)) = unpacked(s, mid) {
            let lat = prev.lat + unzigzag(lat_folded);
            let lon = prev.lon + unzigzag(lon_folded);
            if in_range(lat, lon, factor) {
                let point = Coordinate { lat: lat as i64, lon: lon as i64 };
                lemma_dangling_from(s, next, point, count + 1, factor);
            }
        }
    }
}

/// A text whose last character promises another group never decodes to a
/// path: decoding fails with `TruncatedPolyline`, unless a coordinate
/// before the cut already left the globe, which is reported first.
pub proof fn lemma_dangling_group(s: Seq<char>, factor: nat)
    requires
        s.len() > 0,
        chunk_of(s.last()) >= 32,
    ensures
        decoded(s, factor) matches Err(e) && (e == CodecError::TruncatedPolyline || e
            is InvalidCoordinate),
{
    lemma_dangling_from(s, 0, origin(), 0, factor);
}

} // verus!
