//! Mask derivation for a decoded line: the per-byte detailed mask, the
//! charset union, and the capped run-length simple mask.

use vstd::prelude::*;
use crate::classes::{
    char2bitmap, char2mask, char2smask, charset_bit, detailed_class, simple_class, BIT_DIGIT,
    BIT_LOWER, OTHER_MASK,
};

verus! {

/// Detailed mask of a line: the detailed class code of each byte, in
/// order; always the same length as the line.
pub open spec fn detailed_mask_spec(s: Seq<u8>) -> Seq<u8> {
    s.map_values(|b: u8| detailed_class(b))
}

/// Charset union of a line: the bitwise OR of the charset bitmask of
/// every byte; 0 for the empty line.
pub open spec fn charset_union_spec(s: Seq<u8>) -> u8
    decreases s.len(),
{
    if s.len() == 0 {
        0u8
    } else {
        charset_union_spec(s.drop_last()) | charset_bit(s.last())
    }
}

/// Exact run-length collapse of the simple classes of a line, without
/// any cap: one entry per maximal run of equal-class bytes.
pub open spec fn collapsed_classes(s: Seq<u8>) -> Seq<u8>
    decreases s.len(),
{
    if s.len() == 0 {
        Seq::empty()
    } else {
        let rest = collapsed_classes(s.drop_last());
        let c = simple_class(s.last());
        if rest.len() > 0 && rest.last() == c {
            rest
        } else {
            rest.push(c)
        }
    }
}

/// The simple mask of a line: its collapsed classes while they fit in
/// five entries, the single sentinel entry otherwise.
pub open spec fn simple_mask_spec(s: Seq<u8>) -> Seq<u8> {
    if collapsed_classes(s).len() <= 5 {
        collapsed_classes(s)
    } else {
        seq![OTHER_MASK]
    }
}

/// The collapsed classes are empty only for the empty line, never hold
/// two equal entries in a row, and end with the class of the last
/// byte: they are exactly one entry per maximal run.
pub proof fn lemma_collapsed_classes_form(s: Seq<u8>)
    ensures
        (collapsed_classes(s).len() == 0) <==> (s.len() == 0),
        forall|i: int|
            0 <= i < collapsed_classes(s).len() - 1 ==> (#[trigger] collapsed_classes(s)[i])
                != collapsed_classes(s)[i + 1],
        s.len() > 0 ==> collapsed_classes(s).last() == simple_class(s.last()),
    decreases s.len(),
{
    if s.len() > 0 {
        lemma_collapsed_classes_form(s.drop_last());
        let rest = collapsed_classes(s.drop_last());
        let cc = collapsed_classes(s);
        let c = simple_class(s.last());
        assert forall|i: int| 0 <= i < cc.len() - 1 implies (#[trigger] cc[i]) != cc[i + 1] by {
            if rest.len() > 0 && rest.last() == c {
                assert(cc[i] == rest[i] && cc[i + 1] == rest[i + 1]);
            } else {
                if i + 1 < rest.len() {
                    assert(cc[i] == rest[i] && cc[i + 1] == rest[i + 1]);
                } else {
                    assert(cc[i] == rest[i] && cc[i + 1] == c);
                    assert(rest[rest.len() - 1] != c);
                }
            }
        }
    }
}

/// Computes the detailed mask of a line.
pub fn line_mask(line: &Vec<u8>) -> (r: Vec<u8>)
    ensures
        r@ == detailed_mask_spec(line@),
        r@.len() == line@.len(),
{
    let mut r: Vec<u8> = Vec::new();
    let mut i: usize = 0;
    while i < line.len()
        invariant
            i <= line@.len(),
            r@.len() == i,
            forall|j: int| 0 <= j < i ==> r@[j] == detailed_class(#[trigger] line@[j]),
        decreases line@.len() - i,
    {
        r.push(char2mask(line[i]));
        i += 1;
    }
    proof {
        assert(r@ =~= detailed_mask_spec(line@));
    }
    r
}

/// Computes the charset union of a line.
pub fn line_charset(line: &Vec<u8>) -> (r: u8)
    ensures
        r == charset_union_spec(line@),
{
    let mut acc: u8 = 0;
    let mut i: usize = 0;
    while i < line.len()
        invariant
            i <= line@.len(),
            acc == charset_union_spec(line@.take(i as int)),
        decreases line@.len() - i,
    {
        proof {
            assert(line@.take(i + 1).drop_last() =~= line@.take(i as int));
            assert(line@.take(i + 1).last() == line@[i as int]);
        }
        acc = acc | char2bitmap(line[i]);
        i += 1;
    }
    proof {
        assert(line@.take(line@.len() as int) =~= line@);
    }
    acc
}

/// Computes the simple mask of a line: its run-length collapsed simple
/// classes, replaced by the single sentinel once a sixth run appears.
pub fn line_simple_mask(line: &Vec<u8>) -> (r: Vec<u8>)
    ensures
        r@ == simple_mask_spec(line@),
{
    let mut buf: Vec<u8> = Vec::new();
    let mut over: bool = false;
    let mut i: usize = 0;
    while i < line.len()
        invariant
            i <= line@.len(),
            !over ==> buf@ == collapsed_classes(line@.take(i as int)),
            !over ==> buf@.len() <= 5,
            over ==> collapsed_classes(line@.take(i as int)).len() > 5,
        decreases line@.len() - i,
    {
        let c = char2smask(line[i]);
        proof {
            assert(line@.take(i + 1).drop_last() =~= line@.take(i as int));
            assert(line@.take(i + 1).last() == line@[i as int]);
        }
        if !over {
            if buf.len() == 0 || buf[buf.len() - 1] != c {
                if buf.len() == 5 {
                    over = true;
                } else {
                    buf.push(c);
                }
            }
        }
        i += 1;
    }
    proof {
        assert(line@.take(line@.len() as int) =~= line@);
    }
    if over {
        let mut r: Vec<u8> = Vec::new();
        r.push(OTHER_MASK);
        proof {
            assert(r@ =~= seq![OTHER_MASK]);
        }
        r
    } else {
        buf
    }
}

/// The detailed mask has exactly one entry per byte of the line, and
/// the simple mask has at most five entries unless the collapse
/// overflowed, in which case it is exactly the one-entry sentinel.
pub proof fn lemma_mask_lengths(s: Seq<u8>)
    ensures
        detailed_mask_spec(s).len() == s.len(),
        simple_mask_spec(s).len() <= 5 || simple_mask_spec(s) == seq![OTHER_MASK],
        collapsed_classes(s).len() > 5 ==> simple_mask_spec(s) == seq![OTHER_MASK],
{
}

/// A non-empty line of lowercase letters only has charset union
/// exactly `BIT_LOWER`.
pub proof fn lemma_charset_union_all_lower(s: Seq<u8>)
    requires
        s.len() > 0,
        forall|i: int| 0 <= i < s.len() ==> charset_bit(#[trigger] s[i]) == BIT_LOWER,
    ensures
        charset_union_spec(s) == BIT_LOWER,
    decreases s.len(),
{
    if s.len() == 1 {
        assert(charset_union_spec(s.drop_last()) == 0);
        assert(0u8 | 1u8 == 1u8) by (bit_vector);
    } else {
        lemma_charset_union_all_lower(s.drop_last());
        assert(1u8 | 1u8 == 1u8) by (bit_vector);
    }
}

/// True iff some byte of `s` has charset bitmask `c`.
pub open spec fn has_class(s: Seq<u8>, c: u8) -> bool {
    exists|i: int| 0 <= i < s.len() && charset_bit(#[trigger] s[i]) == c
}

/// Appending a byte extends class membership in the expected way.
proof fn lemma_has_class_step(s: Seq<u8>, c: u8)
    requires
        s.len() > 0,
    ensures
        has_class(s, c) == (has_class(s.drop_last(), c) || charset_bit(s.last()) == c),
{
    if has_class(s, c) {
        let i = choose|i: int| 0 <= i < s.len() && charset_bit(#[trigger] s[i]) == c;
        if i < s.len() - 1 {
            assert(s.drop_last()[i] == s[i]);
            assert(has_class(s.drop_last(), c));
        }
    }
    if has_class(s.drop_last(), c) {
        let i = choose|i: int|
            0 <= i < s.drop_last().len() && charset_bit(#[trigger] s.drop_last()[i]) == c;
        assert(s[i] == s.drop_last()[i]);
        assert(has_class(s, c));
    }
    if charset_bit(s.last()) == c {
        assert(charset_bit(s[s.len() - 1]) == c);
        assert(has_class(s, c));
    }
}

/// A line of lowercase letters and digits only has charset union 0, 1,
/// 4 or 5, according to which of the two classes occur; in particular a
/// line mixing both has union exactly `BIT_LOWER | BIT_DIGIT`, that is
/// 5.
pub proof fn lemma_charset_union_lower_digit(s: Seq<u8>)
    requires
        forall|i: int|
            0 <= i < s.len() ==> (charset_bit(#[trigger] s[i]) == BIT_LOWER || charset_bit(s[i])
                == BIT_DIGIT),
    ensures
        has_class(s, BIT_LOWER) && has_class(s, BIT_DIGIT) ==> charset_union_spec(s) == 5,
        has_class(s, BIT_LOWER) && !has_class(s, BIT_DIGIT) ==> charset_union_spec(s) == BIT_LOWER,
        !has_class(s, BIT_LOWER) && has_class(s, BIT_DIGIT) ==> charset_union_spec(s) == BIT_DIGIT,
        !has_class(s, BIT_LOWER) && !has_class(s, BIT_DIGIT) ==> charset_union_spec(s) == 0,
    decreases s.len(),
{
    if s.len() == 0 {
    } else {
        lemma_charset_union_lower_digit(s.drop_last());
        lemma_has_class_step(s, BIT_LOWER);
        lemma_has_class_step(s, BIT_DIGIT);
        assert(s.last() == s[s.len() - 1]);
        assert(charset_bit(s.last()) == BIT_LOWER || charset_bit(s.last()) == BIT_DIGIT);
        assert(0u8 | 1u8 == 1u8 && 0u8 | 4u8 == 4u8 && 1u8 | 1u8 == 1u8 && 1u8 | 4u8 == 5u8 && 4u8
            | 1u8 == 5u8 && 4u8 | 4u8 == 4u8 && 5u8 | 1u8 == 5u8 && 5u8 | 4u8 == 5u8)
            by (bit_vector);
    }
}

} // verus!
