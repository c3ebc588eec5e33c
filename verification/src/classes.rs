//! The three fixed classification tables: every byte value maps to a
//! detailed class code, a charset bitmask, and a case-insensitive
//! (simple) charset bitmask.

use vstd::prelude::*;

verus! {

/// Charset bit for lowercase letters.
pub const BIT_LOWER: u8 = 1;

/// Charset bit for uppercase letters.
pub const BIT_UPPER: u8 = 2;

/// Charset bit for decimal digits.
pub const BIT_DIGIT: u8 = 4;

/// Charset bit for printable special characters.
pub const BIT_SPECIAL: u8 = 8;

/// Charset bit for non-printable (binary) bytes.
pub const BIT_BINARY: u8 = 16;

/// Sentinel simple-mask value for lines with too many class runs.
pub const OTHER_MASK: u8 = 255;

/// Detailed class code `l`: a lowercase letter.
pub const CLASS_LOWER: u8 = 0x6c;

/// Detailed class code `u`: an uppercase letter.
pub const CLASS_UPPER: u8 = 0x75;

/// Detailed class code `d`: a decimal digit.
pub const CLASS_DIGIT: u8 = 0x64;

/// Detailed class code `s`: a printable special character.
pub const CLASS_SPECIAL: u8 = 0x73;

/// Detailed class code `b`: a non-printable (binary) byte.
pub const CLASS_BINARY: u8 = 0x62;

/// Detailed class code of a byte: one of the ASCII letters
/// `l` (lowercase), `u` (uppercase), `d` (digit), `s` (special) or
/// `b` (binary), total over all 256 byte values.
pub open spec fn detailed_class(b: u8) -> u8 {
    if 0x61 <= b <= 0x7a {
        CLASS_LOWER
    } else if 0x41 <= b <= 0x5a {
        CLASS_UPPER
    } else if 0x30 <= b <= 0x39 {
        CLASS_DIGIT
    } else if 0x20 <= b <= 0x7e {
        CLASS_SPECIAL
    } else {
        CLASS_BINARY
    }
}

/// Charset bitmask of a byte: exactly one of the five charset bits,
/// total over all 256 byte values.
pub open spec fn charset_bit(b: u8) -> u8 {
    if 0x61 <= b <= 0x7a {
        BIT_LOWER
    } else if 0x41 <= b <= 0x5a {
        BIT_UPPER
    } else if 0x30 <= b <= 0x39 {
        BIT_DIGIT
    } else if 0x20 <= b <= 0x7e {
        BIT_SPECIAL
    } else {
        BIT_BINARY
    }
}

/// Case-insensitive charset bitmask: like `charset_bit`, but lowercase
/// and uppercase letters collapse to the same value.
pub open spec fn simple_class(b: u8) -> u8 {
    if charset_bit(b) == BIT_UPPER {
        BIT_LOWER
    } else {
        charset_bit(b)
    }
}

/// Looks up the detailed class code of a byte.
pub fn char2mask(b: u8) -> (r: u8)
    ensures
        r == detailed_class(b),
{
    if 0x61 <= b && b <= 0x7a {
        CLASS_LOWER
    } else if 0x41 <= b && b <= 0x5a {
        CLASS_UPPER
    } else if 0x30 <= b && b <= 0x39 {
        CLASS_DIGIT
    } else if 0x20 <= b && b <= 0x7e {
        CLASS_SPECIAL
    } else {
        CLASS_BINARY
    }
}

/// Looks up the charset bitmask of a byte.
pub fn char2bitmap(b: u8) -> (r: u8)
    ensures
        r == charset_bit(b),
{
    if 0x61 <= b && b <= 0x7a {
        BIT_LOWER
    } else if 0x41 <= b && b <= 0x5a {
        BIT_UPPER
    } else if 0x30 <= b && b <= 0x39 {
        BIT_DIGIT
    } else if 0x20 <= b && b <= 0x7e {
        BIT_SPECIAL
    } else {
        BIT_BINARY
    }
}

/// Looks up the case-insensitive charset bitmask of a byte.
pub fn char2smask(b: u8) -> (r: u8)
    ensures
        r == simple_class(b),
{
    let c = char2bitmap(b);
    if c == BIT_UPPER {
        BIT_LOWER
    } else {
        c
    }
}

/// The charset bitmask is always one of the five single bits.
pub proof fn lemma_charset_bit_valid(b: u8)
    ensures
        charset_bit(b) == BIT_LOWER || charset_bit(b) == BIT_UPPER || charset_bit(b) == BIT_DIGIT
            || charset_bit(b) == BIT_SPECIAL || charset_bit(b) == BIT_BINARY,
{
}


/// The name of a charset union, for each of the 32 possible values;
/// index 0 is the reserved "invalid" name.
pub open spec fn charset_name(i: int) -> Seq<char> {
    if i == 0 { "invalid"@ }
    else if i == 1 { "loweralpha"@ }
    else if i == 2 { "upperalpha"@ }
    else if i == 3 { "mixedalpha"@ }
    else if i == 4 { "numeric"@ }
    else if i == 5 { "loweralphanum"@ }
    else if i == 6 { "upperalphanum"@ }
    else if i == 7 { "mixedalphanum"@ }
    else if i == 8 { "special"@ }
    else if i == 9 { "loweralphaspecial"@ }
    else if i == 10 { "upperalphaspecial"@ }
    else if i == 11 { "mixedalphaspecial"@ }
    else if i == 12 { "specialnum"@ }
    else if i == 13 { "loweralphaspecialnum"@ }
    else if i == 14 { "upperalphaspecialnum"@ }
    else if i == 15 { "mixedalphaspecialnum"@ }
    else if i == 16 { "binary"@ }
    else if i == 17 { "loweralphabin"@ }
    else if i == 18 { "upperalphabin"@ }
    else if i == 19 { "mixedalphabin"@ }
    else if i == 20 { "numericbin"@ }
    else if i == 21 { "loweralphanumbin"@ }
    else if i == 22 { "upperalphanumbin"@ }
    else if i == 23 { "mixedalphanumbin"@ }
    else if i == 24 { "specialbin"@ }
    else if i == 25 { "loweralphaspecialbin"@ }
    else if i == 26 { "upperalphaspecialbin"@ }
    else if i == 27 { "mixedalphaspecialbin"@ }
    else if i == 28 { "specialnumbin"@ }
    else if i == 29 { "loweralphaspecialnumbin"@ }
    else if i == 30 { "upperalphaspecialnumbin"@ }
    else { "mixedalphaspecialnumbin"@ }
}

/// The fixed table of charset-union names, indexed by the union value.
pub fn get_bitmap2string() -> (r: Vec<&'static str>)
    ensures
        r@.len() == 32,
        forall|i: int| 0 <= i < 32 ==> (#[trigger] r@[i])@ == charset_name(i),
{
    let mut r: Vec<&'static str> = Vec::new();
    r.push("invalid");
    r.push("loweralpha");
    r.push("upperalpha");
    r.push("mixedalpha");
    r.push("numeric");
    r.push("loweralphanum");
    r.push("upperalphanum");
    r.push("mixedalphanum");
    r.push("special");
    r.push("loweralphaspecial");
    r.push("upperalphaspecial");
    r.push("mixedalphaspecial");
    r.push("specialnum");
    r.push("loweralphaspecialnum");
    r.push("upperalphaspecialnum");
    r.push("mixedalphaspecialnum");
    r.push("binary");
    r.push("loweralphabin");
    r.push("upperalphabin");
    r.push("mixedalphabin");
    r.push("numericbin");
    r.push("loweralphanumbin");
    r.push("upperalphanumbin");
    r.push("mixedalphanumbin");
    r.push("specialbin");
    r.push("loweralphaspecialbin");
    r.push("upperalphaspecialbin");
    r.push("mixedalphaspecialbin");
    r.push("specialnumbin");
    r.push("loweralphaspecialnumbin");
    r.push("upperalphaspecialnumbin");
    r.push("mixedalphaspecialnumbin");
    r
}

} // verus!
