//! Mask-based line filtering: a textual filter specification maps to a
//! per-position charset-bitmask filter, and decoded lines are matched
//! against it position by position.

use vstd::prelude::*;
use vstd::std_specs::iter::IteratorSpec;
use crate::classes::charset_bit;
use crate::codec::{decode_hex_if_needed, decode_spec};

verus! {

/// The filter positions one specification character contributes:
/// `l`, `u`, `d`, `s`, `a`, `b` map to their charset-bitmask targets,
/// any other character contributes nothing.
pub open spec fn filter_char(c: char) -> Seq<u8> {
    if c == 'l' {
        seq![1u8]
    } else if c == 'u' {
        seq![2u8]
    } else if c == 'd' {
        seq![4u8]
    } else if c == 's' {
        seq![8u8]
    } else if c == 'a' {
        seq![15u8]
    } else if c == 'b' {
        seq![31u8]
    } else {
        Seq::empty()
    }
}

/// The per-position filter a whole specification string parses to.
pub open spec fn filter_of(s: Seq<char>) -> Seq<u8>
    decreases s.len(),
{
    if s.len() == 0 {
        Seq::empty()
    } else {
        filter_char(s.first()) + filter_of(s.drop_first())
    }
}

/// Parses a filter specification into its per-position charset-bitmask
/// targets; unrecognized characters are ignored. The second component
/// is the filter's position count.
pub fn parse_mask(mask: String) -> (r: (Vec<u8>, usize))
    ensures
        r.0@ == filter_of(mask@),
        r.1 == r.0@.len(),
{
    broadcast use vstd::string::axiom_spec_iter, vstd::string::next_postcondition;

    let s = mask.as_str();
    let mut it = s.chars();
    let mut ret: Vec<u8> = Vec::new();
    let ghost all = mask@;
    proof {
        assert(it.remaining() == all);
        assert(filter_of(all) =~= ret@ + filter_of(it.remaining()));
    }
    loop
        invariant_except_break
            ret@ + filter_of(it.remaining()) == filter_of(all),
            IteratorSpec::decrease(&it) is Some,
        ensures
            ret@ == filter_of(all),
        decreases IteratorSpec::decrease(&it)->0,
    {
        let ghost rem0 = it.remaining();
        let nxt = it.next();
        match nxt {
            None => {
                proof {
                    assert(filter_of(it.remaining()) =~= Seq::<u8>::empty());
                    assert(ret@ =~= ret@ + filter_of(it.remaining()));
                }
                break ;
            },
            Some(c) => {
                proof {
                    assert(rem0.len() > 0);
                    assert(c == rem0.first());
                    assert(it.remaining() == rem0.drop_first());
                    assert(filter_of(rem0) == filter_char(c) + filter_of(rem0.drop_first()));
                }
                let ghost ret0 = ret@;
                if c == 'l' {
                    ret.push(1);
                } else if c == 'u' {
                    ret.push(2);
                } else if c == 'd' {
                    ret.push(4);
                } else if c == 's' {
                    ret.push(8);
                } else if c == 'a' {
                    ret.push(15);
                } else if c == 'b' {
                    ret.push(31);
                }
                proof {
                    assert(ret@ =~= ret0 + filter_char(c));
                    assert(ret@ + filter_of(it.remaining()) =~= (ret0 + filter_char(c))
                        + filter_of(rem0.drop_first()));
                    assert((ret0 + filter_char(c)) + filter_of(rem0.drop_first()) =~= ret0 + (
                    filter_char(c) + filter_of(rem0.drop_first())));
                }
            },
        }
    }
    let n = ret.len();
    (ret, n)
}

/// True iff the line is as long as the filter and every byte's charset
/// bitmask shares a bit with its filter position.
pub open spec fn matches_spec(filter: Seq<u8>, line: Seq<u8>) -> bool {
    line.len() == filter.len() && forall|i: int|
        0 <= i < line.len() ==> (filter[i] & charset_bit(#[trigger] line[i])) != 0
}

/// Matches a decoded line against a parsed filter.
pub fn mask_matches(filter: &Vec<u8>, line: &Vec<u8>) -> (r: bool)
    ensures
        r == matches_spec(filter@, line@),
{
    if line.len() != filter.len() {
        return false;
    }
    let mut i: usize = 0;
    while i < line.len()
        invariant
            i <= line@.len(),
            line@.len() == filter@.len(),
            forall|j: int| 0 <= j < i ==> (filter@[j] & charset_bit(#[trigger] line@[j])) != 0,
        decreases line@.len() - i,
    {
        if filter[i] & crate::classes::char2bitmap(line[i]) == 0 {
            return false;
        }
        i += 1;
    }
    true
}

/// What the filter decides for one raw input line.
pub enum FilterOutcome {
    /// The decoded line matches; holds the decoded line with a
    /// trailing newline, ready for output.
    Matched(Vec<u8>),
    /// The decoded line's logical length differs from the filter's
    /// position count.
    LengthMismatch,
    /// The length fits but some position's class does not.
    ClassMismatch,
}

/// Decodes one raw line and matches it against a parsed filter.
pub fn filter_line(filter: &Vec<u8>, line: Vec<u8>) -> (r: FilterOutcome)
    ensures
        r is Matched <==> matches_spec(filter@, decode_spec(line@)),
        r is LengthMismatch <==> decode_spec(line@).len() != filter@.len(),
        r matches FilterOutcome::Matched(v) ==> v@ == decode_spec(line@) + seq![0x0au8],
{
    let (mut decoded, n) = decode_hex_if_needed(line);
    if n != filter.len() {
        return FilterOutcome::LengthMismatch;
    }
    if mask_matches(filter, &decoded) {
        decoded.push(0x0a);
        FilterOutcome::Matched(decoded)
    } else {
        FilterOutcome::ClassMismatch
    }
}

} // verus!
