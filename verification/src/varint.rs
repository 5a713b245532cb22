//! The variable-length packing of one signed difference.
//!
//! A difference is folded to a non-negative number (negative values become
//! odd, the others even) and written in groups of five bits, lowest group
//! first. Each group is moved into printable ASCII by adding 63; every
//! group but the last also carries the bit 32, which says that another
//! group follows.
use vstd::prelude::*;
use vstd::string::*;
use crate::error::CodecError;

verus! {

/// `String::push` of the standard library appends one character: the
/// contents afterwards are the contents before, followed by `ch`.
pub assume_specification[ String::push ](s: &mut String, ch: char)
    ensures
        final(s)@ == old(s)@.push(ch),
;

/// The character that stands for a group value between 0 and 63.
pub open spec fn glyph(chunk: int) -> char {
    (chunk + 63) as char
}

/// The group value that a character stands for.
pub open spec fn chunk_of(c: char) -> int {
    c as int - 63
}

/// Whether a character belongs to the alphabet, codes 63 to 126.
pub open spec fn in_alphabet(c: char) -> bool {
    63 <= c as int <= 126
}

/// Whether a text is written in the alphabet alone.
pub open spec fn is_polyline_text(s: Seq<char>) -> bool {
    forall|i: int| 0 <= i < s.len() ==> in_alphabet(#[trigger] s[i])
}

/// Folds a signed difference to a non-negative number: twice the value for
/// zero and above, and one less than twice the magnitude below zero.
pub open spec fn zigzag(d: int) -> nat {
    if d < 0 {
        (-2 * d - 1) as nat
    } else {
        (2 * d) as nat
    }
}

/// Unfolds what `zigzag` folded: odd numbers are negative differences.
pub open spec fn unzigzag(v: int) -> int {
    if v % 2 == 1 {
        -(v / 2) - 1
    } else {
        v / 2
    }
}

/// The nearest `i64` to a difference.
pub open spec fn clamped(d: int) -> int {
    if d < i64::MIN {
        i64::MIN as int
    } else if d > i64::MAX {
        i64::MAX as int
    } else {
        d
    }
}

/// The characters that a folded number is written as, lowest group first.
pub open spec fn packed(v: nat) -> Seq<char>
    decreases v,
{
    if v < 32 {
        seq![glyph(v as int)]
    } else {
        seq![glyph(32 + (v % 32) as int)] + packed(v / 32)
    }
}

/// The folded number of the group that starts at `at`, with the position
/// just behind the group; `None` when the text ends before the group does.
pub open spec fn unpacked(s: Seq<char>, at: int) -> Option<(int, int)>
    decreases s.len() - at,
{
    if at < 0 || at >= s.len() {
        None
    } else if chunk_of(s[at]) < 32 {
        Some((chunk_of(s[at]), at + 1))
    } else {
        match unpacked(s, at + 1) {
            Some((rest, end)) => Some((chunk_of(s[at]) % 32 + 32 * rest, end)),
            None => None,
        }
    }
}

/// Thirty-two to the power `n`: the weight of the group at position `n`.
spec fn pow32(n: nat) -> nat
    decreases n,
{
    if n == 0 {
        1
    } else {
        32 * pow32((n - 1) as nat)
    }
}

/// A group read in part, joined with the rest of it: `low` is the worth of
/// the characters already read, and each unit of what follows them is
/// worth `weight`.
spec fn joined(low: int, weight: int, rest: Option<(int, int)>) -> Option<(int, int)> {
    match rest {
        Some((high, end)) => Some((low + high * weight, end)),
        None => None,
    }
}

/// Unfolding after folding gives the difference back.
pub proof fn lemma_unzigzag_zigzag(d: int)
    ensures
        unzigzag(zigzag(d) as int) == d,
{
}

/// A packed number holds at least one character, each of the alphabet.
pub proof fn lemma_packed_in_alphabet(v: nat)
    ensures
        is_polyline_text(packed(v)),
        packed(v).len() >= 1,
    decreases v,
{
    if v >= 32 {
        lemma_packed_in_alphabet(v / 32);
    }
}

/// A group holds at least one character and ends within the text.
pub proof fn lemma_unpacked_advances(s: Seq<char>, at: int)
    ensures
        unpacked(s, at) matches Some((v, end)) ==> at < end <= s.len(),
    decreases s.len() - at,
{
    if 0 <= at < s.len() && chunk_of(s[at]) >= 32 {
        lemma_unpacked_advances(s, at + 1);
    }
}

/// In a text of the alphabet a group is worth a non-negative number.
pub proof fn lemma_unpacked_nonnegative(s: Seq<char>, at: int)
    requires
        is_polyline_text(s),
    ensures
        unpacked(s, at) matches Some((v, end)) ==> v >= 0,
    decreases s.len() - at,
{
    if 0 <= at < s.len() && chunk_of(s[at]) >= 32 {
        lemma_unpacked_nonnegative(s, at + 1);
    }
}

/// Reading a group where a packed number stands gives the number back and
/// stops just behind it, whatever follows.
pub proof fn lemma_unpacked_packed(s: Seq<char>, at: int, v: nat)
    requires
        0 <= at,
        at + packed(v).len() <= s.len(),
        s.subrange(at, at + packed(v).len()) == packed(v),
    ensures
        unpacked(s, at) == Some((v as int, at + packed(v).len())),
    decreases v,
{
    let p = packed(v);
    lemma_packed_in_alphabet(v);
    assert(s[at] == p[0]) by {
        assert(s.subrange(at, at + p.len())[0] == s[at]);
    }
    if v >= 32 {
        let q = packed(v / 32);
        assert(s.subrange(at + 1, at + 1 + q.len()) == q) by {
            assert forall|j: int| 0 <= j < q.len() implies s[at + 1 + j] == q[j] by {
                assert(s.subrange(at, at + p.len())[j + 1] == s[at + 1 + j]);
            }
        }
        lemma_unpacked_packed(s, at + 1, v / 32);
    }
}

/// The weights grow with the position.
proof fn lemma_pow32_monotonic(a: nat, b: nat)
    requires
        a <= b,
    ensures
        pow32(a) <= pow32(b),
    decreases b,
{
    if a < b {
        lemma_pow32_monotonic(a, (b - 1) as nat);
    }
}

/// A multiple of an even number is even.
proof fn lemma_even_multiple(w: int, k: int)
    requires
        w % 2 == 0,
    ensures
        (k * w) % 2 == 0,
{
    let h = w / 2;
    assert(k * w == 2 * (h * k)) by (nonlinear_arith)
        requires
            w == 2 * h,
    ;
}

/// Whether a text is written in the polyline alphabet alone, the
/// characters with codes 63 to 126.
pub fn is_polyline(text: &str) -> (ok: bool)
    ensures
        ok == is_polyline_text(text@),
{
    broadcast use is_ascii_spec_bytes;

    if !text.is_ascii() {
        return false;
    }
    let bytes = text.as_bytes();
    let mut i: usize = 0;
    while i < bytes.len()
        invariant
            is_ascii(text),
            bytes@ == text.spec_bytes(),
            i <= bytes.len(),
            forall|j: int| 0 <= j < i ==> in_alphabet(#[trigger] text@[j]),
        decreases bytes.len() - i,
    {
        let b: u8 = bytes[i];
        assert(b == text@[i as int] as u8);
        if b < 63 || b > 126 {
            return false;
        }
        i = i + 1;
    }
    true
}

/// Appends the characters of one signed difference to `output`. What is
/// appended lies in the alphabet.
pub fn encode(delta: i64, output: &mut String)
    ensures
        final(output)@ == old(output)@ + packed(zigzag(delta as int)),
        is_polyline_text(old(output)@) ==> is_polyline_text(final(output)@),
{
    proof {
        lemma_packed_in_alphabet(zigzag(delta as int));
    }
    let mut value: u64 = if delta < 0 {
        ((-(delta + 1)) as u64) * 2 + 1
    } else {
        (delta as u64) * 2
    };
    while value >= 32
        invariant
            old(output)@ + packed(zigzag(delta as int)) == output@ + packed(value as nat),
        decreases value,
    {
        let chunk: u8 = (32 + value % 32) as u8;
        output.push((chunk + 63) as char);
        value = value / 32;
    }
    let chunk: u8 = value as u8;
    output.push((chunk + 63) as char);
}

/// Reads the group that starts at `start` and unfolds it to the signed
/// difference it stands for, together with the position just behind the
/// group. A difference beyond the range of `i64` comes back as the nearest
/// bound. Fails when the text ends before the group does.
pub fn decode(text: &str, start: usize) -> (r: Result<(i64, usize), CodecError>)
    requires
        is_polyline_text(text@),
    ensures
        match r {
            Ok((delta, next)) => unpacked(text@, start as int) matches Some((v, end)) && end
                == next && delta == clamped(unzigzag(v)),
            Err(e) => e == CodecError::TruncatedPolyline && unpacked(text@, start as int)
                is None,
        },
{
    broadcast use is_ascii_spec_bytes;

    let bytes = text.as_bytes();
    let len = bytes.len();
    assert(is_ascii(text));
    if start >= len {
        return Err(CodecError::TruncatedPolyline);
    }
    // `acc` holds the groups read so far while they fit in 64 bits, `over`
    // says that they no longer do, and `weight` is the worth of the next
    // group as long as that fits too.
    let mut i: usize = start;
    let mut acc: u64 = 0;
    let mut weight: u64 = 1;
    let mut over: bool = false;
    let ghost mut exact: int = 0;
    let ghost mut w: int = 1;
    loop
        invariant
            is_polyline_text(text@),
            bytes@ == text.spec_bytes(),
            is_ascii(text),
            len == text@.len(),
            start <= i < len,
            w == pow32((i - start) as nat),
            i - start <= 12 ==> weight == w,
            0 <= exact,
            !over ==> acc == exact,
            !over && i - start <= 12 ==> acc < w,
            over ==> exact >= 0x1_0000_0000_0000_0000 && i - start > 12,
            i > start ==> w % 2 == 0 && acc % 2 == exact % 2,
            unpacked(text@, start as int) == joined(exact, w, unpacked(text@, i as int)),
        decreases len - i,
    {
        let ghost c = text@[i as int];
        assert(in_alphabet(c));
        assert(bytes@[i as int] == c as u8);
        let chunk: u8 = bytes[i] - 63;
        let low: u64 = (chunk % 32) as u64;
        let groups: usize = i - start;
        let ghost rest = unpacked(text@, i as int + 1);
        let ghost next_exact = exact + low * w;
        proof {
            reveal_with_fuel(pow32, 14);
            if groups >= 13 {
                lemma_pow32_monotonic(13, groups as nat);
            }
            lemma_unpacked_nonnegative(text@, i as int + 1);
            assert(next_exact >= exact && (low > 0 ==> next_exact >= w)) by (nonlinear_arith)
                requires
                    next_exact == exact + low * w,
                    exact >= 0,
                    w >= 1,
                    low >= 0,
            ;
            if i > start {
                lemma_even_multiple(w, low as int);
            }
        }
        if !over {
            if groups < 12 {
                assert(low * weight <= 31 * weight) by (nonlinear_arith)
                    requires
                        low <= 31,
                        weight >= 0,
                ;
                acc = acc + low * weight;
                weight = weight * 32;
            } else if groups == 12 {
                if low < 16 {
                    assert(low * weight <= 15 * weight) by (nonlinear_arith)
                        requires
                            low <= 15,
                            weight >= 0,
                    ;
                    acc = acc + low * weight;
                } else {
                    assert(low * w >= 16 * w) by (nonlinear_arith)
                        requires
                            low >= 16,
                            w >= 0,
                    ;
                    over = true;
                }
            } else if low != 0 {
                over = true;
            } else {
                assert(low * w == 0) by (nonlinear_arith)
                    requires
                        low == 0,
                ;
            }
        }
        proof {
            if chunk >= 32 {
                if let Some((high, end)) = rest {
                    assert(exact + (low + 32 * high) * w == next_exact + high * (32 * w))
                        by (nonlinear_arith)
                        requires
                            next_exact == exact + low * w,
                    ;
                }
                assert(joined(exact, w, unpacked(text@, i as int)) == joined(
                    next_exact,
                    32 * w,
                    rest,
                ));
            } else {
                assert(unpacked(text@, start as int) == Some((next_exact, i as int + 1)));
            }
            exact = next_exact;
            w = 32 * w;
        }
        i = i + 1;
        if chunk < 32 {
            let delta: i64 = if over {
                if acc % 2 == 1 {
                    i64::MIN
                } else {
                    i64::MAX
                }
            } else if acc % 2 == 1 {
                -((acc / 2) as i64) - 1
            } else {
                (acc / 2) as i64
            };
            return Ok((delta, i));
        }
        if i >= len {
            return Err(CodecError::TruncatedPolyline);
        }
    }
}

} // verus!
