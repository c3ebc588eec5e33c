//! The escaped-binary codec: lines holding non-printable bytes are
//! round-tripped through a textual `$HEX[...]` wrapper.

use vstd::prelude::*;
use crate::hex::{
    all_hex_digits, hex_decode_bytes, hex_decode_seq, hex_encode_bytes, hex_encode_seq,
    lemma_hex_encode_valid, lemma_hex_round_trip,
};

verus! {

/// The five bytes of the `$HEX[` prefix.
pub open spec fn hex_prefix() -> Seq<u8> {
    seq![0x24u8, 0x48u8, 0x45u8, 0x58u8, 0x5bu8]
}

/// True iff `s` holds a byte that is not printable ASCII: below the
/// space character or with the high bit set.
pub open spec fn needs_escaping(s: Seq<u8>) -> bool {
    exists|i: int| 0 <= i < s.len() && ((#[trigger] s[i]) < 0x20 || s[i] >= 0x80)
}

/// The `$HEX[...]` wrapper around an already-encoded payload.
pub open spec fn hex_wrapped(payload: Seq<u8>) -> Seq<u8> {
    hex_prefix() + payload + seq![0x5du8]
}

/// What encoding a line produces: the line itself when it is printable,
/// its hex-wrapped form otherwise.
pub open spec fn encode_spec(s: Seq<u8>) -> Seq<u8> {
    if needs_escaping(s) {
        hex_wrapped(hex_encode_seq(s))
    } else {
        s
    }
}

/// True iff `s` starts with `$HEX[` and ends with `]`.
pub open spec fn wrapper_shaped(s: Seq<u8>) -> bool {
    s.len() >= 6 && s.subrange(0, 5) == hex_prefix() && s[s.len() - 1] == 0x5du8
}

/// The bytes between the `$HEX[` prefix and the `]` suffix.
pub open spec fn wrapper_interior(s: Seq<u8>) -> Seq<u8>
    recommends
        wrapper_shaped(s),
{
    s.subrange(5, s.len() - 1)
}

/// True iff `s` is wrapper-shaped and its interior is valid hex, so
/// that decoding replaces the line.
pub open spec fn decodes_cleanly(s: Seq<u8>) -> bool {
    wrapper_shaped(s) && wrapper_interior(s).len() % 2 == 0 && all_hex_digits(wrapper_interior(s))
}

/// What decoding a line produces: the decoded payload of a clean
/// wrapper, the line itself otherwise (including malformed wrappers,
/// which are kept as literal text).
pub open spec fn decode_spec(s: Seq<u8>) -> Seq<u8> {
    if decodes_cleanly(s) {
        hex_decode_seq(wrapper_interior(s))
    } else {
        s
    }
}

/// Reports whether a line holds any non-printable byte and therefore
/// needs the `$HEX[...]` wrapper.
pub fn contains_nonprintable(line: &Vec<u8>) -> (r: bool)
    ensures
        r == needs_escaping(line@),
{
    let mut i: usize = 0;
    while i < line.len()
        invariant
            i <= line@.len(),
            forall|j: int| 0 <= j < i ==> !((#[trigger] line@[j]) < 0x20 || line@[j] >= 0x80),
        decreases line@.len() - i,
    {
        let b = line[i];
        if b < 0x20 || b >= 0x80 {
            return true;
        }
        i += 1;
    }
    false
}

/// Copies a byte vector.
pub fn clone_bytes(v: &Vec<u8>) -> (r: Vec<u8>)
    ensures
        r@ == v@,
{
    let r = v.clone();
    proof {
        assert forall|i: int| 0 <= i < v@.len() implies r@[i] == v@[i] by {
            assert(cloned::<u8>(v@[i], r@[i]));
        }
        assert(r@ =~= v@);
    }
    r
}

/// Copies the byte range `[from, to)` of a vector.
fn subvec(v: &Vec<u8>, from: usize, to: usize) -> (r: Vec<u8>)
    requires
        from <= to <= v@.len(),
    ensures
        r@ == v@.subrange(from as int, to as int),
{
    let mut r: Vec<u8> = Vec::new();
    let mut i: usize = from;
    while i < to
        invariant
            from <= i <= to <= v@.len(),
            r@ == v@.subrange(from as int, i as int),
        decreases to - i,
    {
        r.push(v[i]);
        i += 1;
        proof {
            assert(r@ =~= v@.subrange(from as int, i as int));
        }
    }
    r
}

/// True iff the line starts with `$HEX[` and ends with `]`.
fn is_wrapper_shaped(line: &Vec<u8>) -> (r: bool)
    ensures
        r == wrapper_shaped(line@),
{
    if line.len() < 6 {
        proof {
            assert(!wrapper_shaped(line@));
        }
        return false;
    }
    let shaped = line[0] == 0x24 && line[1] == 0x48 && line[2] == 0x45 && line[3] == 0x58
        && line[4] == 0x5b && line[line.len() - 1] == 0x5d;
    proof {
        if shaped {
            assert(line@.subrange(0, 5) =~= hex_prefix());
        } else {
            if line@.subrange(0, 5) == hex_prefix() {
                assert(line@[0] == 0x24 && line@[1] == 0x48 && line@[2] == 0x45 && line@[3] == 0x58
                    && line@[4] == 0x5b) by {
                    assert(line@.subrange(0, 5)[0] == line@[0]);
                    assert(line@.subrange(0, 5)[1] == line@[1]);
                    assert(line@.subrange(0, 5)[2] == line@[2]);
                    assert(line@.subrange(0, 5)[3] == line@[3]);
                    assert(line@.subrange(0, 5)[4] == line@[4]);
                }
            }
        }
    }
    shaped
}

/// Encodes a line for output: a printable line passes through
/// unchanged, any other line is replaced by `$HEX[` + lowercase hex +
/// `]`.
pub fn encode_hex_if_needed(line: Vec<u8>, out: &mut Vec<u8>)
    requires
        line@.len() * 2 + 6 <= usize::MAX,
        line@.len() * 2 <= isize::MAX,
    ensures
        final(out)@ == encode_spec(line@),
{
    if contains_nonprintable(&line) {
        let hexed = hex_encode_bytes(&line);
        out.clear();
        out.push(0x24);
        out.push(0x48);
        out.push(0x45);
        out.push(0x58);
        out.push(0x5b);
        let mut payload = hexed;
        out.append(&mut payload);
        out.push(0x5d);
        proof {
            assert(out@ =~= hex_wrapped(hex_encode_seq(line@)));
        }
    } else {
        *out = line;
    }
}

/// Decodes a line read from input: a clean `$HEX[...]` wrapper is
/// replaced by its payload; anything else, including a malformed
/// wrapper, is kept as literal text. The second component is the
/// logical length of the line, which always equals the length of the
/// returned bytes.
pub fn decode_hex_if_needed(line: Vec<u8>) -> (r: (Vec<u8>, usize))
    ensures
        r.0@ == decode_spec(line@),
        r.1 == r.0@.len(),
{
    if is_wrapper_shaped(&line) {
        let interior = subvec(&line, 5, line.len() - 1);
        match hex_decode_bytes(&interior) {
            Some(decoded) => {
                let n = decoded.len();
                (decoded, n)
            },
            None => {
                let n = line.len();
                (line, n)
            },
        }
    } else {
        let n = line.len();
        (line, n)
    }
}

/// Decodes one line and appends a newline byte, the per-line work of
/// the unhex stream filter.
pub fn unhex(line: Vec<u8>) -> (r: Vec<u8>)
    ensures
        r@ == decode_spec(line@) + seq![0x0au8],
{
    let (mut decoded, _len) = decode_hex_if_needed(line);
    decoded.push(0x0a);
    decoded
}

/// A line without non-printable bytes is left unchanged by encoding;
/// if it is not itself a cleanly decodable `$HEX[...]` wrapper, it is
/// also left unchanged by decoding. (A printable line that happens to
/// be a valid wrapper, such as `$HEX[0102]`, is necessarily decoded;
/// that ambiguity is inherent in the convention.)
pub proof fn lemma_round_trip_printable(x: Seq<u8>)
    requires
        !needs_escaping(x),
        !decodes_cleanly(x),
    ensures
        encode_spec(x) == x,
        decode_spec(x) == x,
{
}

/// Encoding a line with at least one non-printable byte and decoding
/// the result restores the line exactly, with its original length as
/// the logical length.
pub proof fn lemma_round_trip_escaped(x: Seq<u8>)
    requires
        needs_escaping(x),
    ensures
        decode_spec(encode_spec(x)) == x,
        decode_spec(encode_spec(x)).len() == x.len(),
{
    let payload = hex_encode_seq(x);
    let e = hex_wrapped(payload);
    lemma_hex_encode_valid(x);
    assert(e.len() == payload.len() + 6);
    assert(e.subrange(0, 5) =~= hex_prefix());
    assert(e[e.len() - 1] == 0x5d);
    assert(wrapper_shaped(e));
    assert(wrapper_interior(e) =~= payload);
    assert(decodes_cleanly(e));
    lemma_hex_round_trip(x);
}

} // verus!
