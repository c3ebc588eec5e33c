//! Lowercase hexadecimal transcoding of byte sequences, as used by the
//! `$HEX[...]` escaped-binary convention.

use vstd::prelude::*;

verus! {

/// True iff `b` is an ASCII hex digit of either case.
pub open spec fn is_hex_digit(b: u8) -> bool {
    (0x30 <= b <= 0x39) || (0x61 <= b <= 0x66) || (0x41 <= b <= 0x46)
}

/// Numeric value of an ASCII hex digit.
pub open spec fn hex_val(b: u8) -> u8
    recommends
        is_hex_digit(b),
{
    if 0x30 <= b <= 0x39 {
        (b - 0x30) as u8
    } else if 0x61 <= b <= 0x66 {
        (b - 0x61 + 10) as u8
    } else {
        (b - 0x41 + 10) as u8
    }
}

/// Lowercase ASCII hex digit of a nibble value.
pub open spec fn hex_digit_lower(n: u8) -> u8
    recommends
        n < 16,
{
    if n < 10 {
        (0x30 + n) as u8
    } else {
        (0x61 + n - 10) as u8
    }
}

/// Lowercase hex encoding of a byte sequence: two digits per byte,
/// high nibble first.
pub open spec fn hex_encode_seq(s: Seq<u8>) -> Seq<u8> {
    Seq::new(
        2 * s.len(),
        |i: int|
            if i % 2 == 0 {
                hex_digit_lower(s[i / 2] / 16)
            } else {
                hex_digit_lower(s[i / 2] % 16)
            },
    )
}

/// True iff every byte of `s` is an ASCII hex digit.
pub open spec fn all_hex_digits(s: Seq<u8>) -> bool {
    forall|i: int| 0 <= i < s.len() ==> is_hex_digit(#[trigger] s[i])
}

/// Decoding of an even-length sequence of hex digits: each digit pair
/// becomes one byte, high nibble first.
pub open spec fn hex_decode_seq(s: Seq<u8>) -> Seq<u8>
    recommends
        s.len() % 2 == 0,
        all_hex_digits(s),
{
    Seq::new(s.len() / 2, |i: int| (hex_val(s[2 * i]) * 16 + hex_val(s[2 * i + 1])) as u8)
}

/// Relies on faster_hex::hex_string: encodes every byte of the input
/// as two lowercase hex digits, high nibble first, in input order.
#[verifier::external_body]
pub fn hex_encode_bytes(src: &Vec<u8>) -> (r: Vec<u8>)
    requires
        src@.len() * 2 <= isize::MAX,
    ensures
        r@ == hex_encode_seq(src@),
{
    faster_hex::hex_string(src.as_slice()).into_bytes()
}

/// Relies on faster_hex::hex_decode_vec: succeeds exactly on an even
/// number of hex digits of either case, decoding each digit pair to one
/// byte, high nibble first.
#[verifier::external_body]
pub fn hex_decode_bytes(src: &Vec<u8>) -> (r: Option<Vec<u8>>)
    ensures
        r is Some <==> (src@.len() % 2 == 0 && all_hex_digits(src@)),
        r matches Some(v) ==> v@ == hex_decode_seq(src@),
{
    match faster_hex::hex_decode_vec(src.as_slice()) {
        Ok(v) => Some(v),
        Err(_) => None,
    }
}

/// A lowercase hex encoding has even length and consists of hex digits
/// only, so decoding it succeeds.
pub proof fn lemma_hex_encode_valid(s: Seq<u8>)
    ensures
        hex_encode_seq(s).len() == 2 * s.len(),
        hex_encode_seq(s).len() % 2 == 0,
        all_hex_digits(hex_encode_seq(s)),
{
    assert forall|i: int| 0 <= i < hex_encode_seq(s).len() implies is_hex_digit(
        #[trigger] hex_encode_seq(s)[i],
    ) by {
        let b = s[i / 2];
        assert(b / 16 < 16);
        assert(b % 16 < 16);
    }
}

/// Decoding undoes encoding: the digit pair written for a byte decodes
/// back to that byte.
pub proof fn lemma_hex_round_trip(s: Seq<u8>)
    ensures
        hex_decode_seq(hex_encode_seq(s)) == s,
{
    let e = hex_encode_seq(s);
    assert(e.len() == 2 * s.len());
    assert forall|i: int| 0 <= i < s.len() implies hex_decode_seq(e)[i] == s[i] by {
        let b = s[i];
        assert(e[2 * i] == hex_digit_lower(b / 16));
        assert(e[2 * i + 1] == hex_digit_lower(b % 16));
        assert(hex_val(hex_digit_lower(b / 16)) == b / 16);
        assert(hex_val(hex_digit_lower(b % 16)) == b % 16);
        assert((b / 16) * 16 + b % 16 == b) by {
            vstd::arithmetic::div_mod::lemma_fundamental_div_mod(b as int, 16);
        }
    }
    assert(hex_decode_seq(e) =~= s);
}

} // verus!
