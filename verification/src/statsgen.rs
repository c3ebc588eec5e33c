//! The streaming statistics accumulator: per accepted line it folds
//! the detailed mask, simple mask, charset union and length into four
//! frequency tables, each entry tracking a count and, where length is
//! tracked, the minimum and maximum logical length observed.

use vstd::prelude::*;
use crate::aggregate::{
    encode_count_min_max, decode_count_min_max, entry_count, lemma_map_sum_insert,
    lemma_packed_entry_roundtrip, lemma_seq_sum_update, map_sum, packed_entry, seq_sum, ByteMap,
    DEFAULT_ENCODED,
};
use crate::classes::charset_bit;
use crate::masks::{
    charset_union_spec, detailed_mask_spec, line_charset, line_mask, line_simple_mask,
    simple_mask_spec,
};

verus! {

/// How many lines of `h` satisfy `p`.
pub open spec fn count_matching(h: Seq<Seq<u8>>, p: spec_fn(Seq<u8>) -> bool) -> nat
    decreases h.len(),
{
    if h.len() == 0 {
        0
    } else {
        count_matching(h.drop_last(), p) + (if p(h.last()) {
            1nat
        } else {
            0nat
        })
    }
}

/// The smallest length of a line of `h` satisfying `p`, with the
/// sentinel 0xffff when none does.
pub open spec fn min_len_matching(h: Seq<Seq<u8>>, p: spec_fn(Seq<u8>) -> bool) -> int
    decreases h.len(),
{
    if h.len() == 0 {
        0xffff
    } else {
        let r = min_len_matching(h.drop_last(), p);
        if p(h.last()) && h.last().len() < r {
            h.last().len() as int
        } else {
            r
        }
    }
}

/// The largest length of a line of `h` satisfying `p`, with the
/// sentinel 0 when none does.
pub open spec fn max_len_matching(h: Seq<Seq<u8>>, p: spec_fn(Seq<u8>) -> bool) -> int
    decreases h.len(),
{
    if h.len() == 0 {
        0
    } else {
        let r = max_len_matching(h.drop_last(), p);
        if p(h.last()) && h.last().len() > r {
            h.last().len() as int
        } else {
            r
        }
    }
}

/// Lines whose detailed mask is `m`.
pub open spec fn mask_pred(m: Seq<u8>) -> spec_fn(Seq<u8>) -> bool {
    |l: Seq<u8>| detailed_mask_spec(l) == m
}

/// Lines whose simple mask is `sm`.
pub open spec fn smask_pred(sm: Seq<u8>) -> spec_fn(Seq<u8>) -> bool {
    |l: Seq<u8>| simple_mask_spec(l) == sm
}

/// Lines whose charset union is `c`.
pub open spec fn charset_pred(c: u8) -> spec_fn(Seq<u8>) -> bool {
    |l: Seq<u8>| charset_union_spec(l) == c
}

/// Lines of logical length `n`.
pub open spec fn len_pred(n: int) -> spec_fn(Seq<u8>) -> bool {
    |l: Seq<u8>| l.len() == n
}

/// Occurrence count of detailed mask `m` in the history.
pub open spec fn occ_mask(h: Seq<Seq<u8>>, m: Seq<u8>) -> nat {
    count_matching(h, mask_pred(m))
}

/// Occurrence count of simple mask `sm` in the history.
pub open spec fn occ_smask(h: Seq<Seq<u8>>, sm: Seq<u8>) -> nat {
    count_matching(h, smask_pred(sm))
}

/// Occurrence count of charset union `c` in the history.
pub open spec fn occ_charset(h: Seq<Seq<u8>>, c: u8) -> nat {
    count_matching(h, charset_pred(c))
}

/// Occurrence count of logical length `n` in the history.
pub open spec fn occ_len(h: Seq<Seq<u8>>, n: int) -> nat {
    count_matching(h, len_pred(n))
}

/// The u64 value stored for a plain count.
pub open spec fn as_int() -> spec_fn(u64) -> int {
    |v: u64| v as int
}

/// The count field of a stored packed entry.
pub open spec fn count_field() -> spec_fn(u64) -> int {
    |v: u64| entry_count(v) as int
}

/// Appending a line adds exactly its own contribution to a match
/// count.
pub proof fn lemma_count_matching_push(h: Seq<Seq<u8>>, p: spec_fn(Seq<u8>) -> bool, l: Seq<u8>)
    ensures
        count_matching(h.push(l), p) == count_matching(h, p) + (if p(l) {
            1int
        } else {
            0int
        }),
{
    assert(h.push(l).drop_last() =~= h);
    assert(h.push(l).last() == l);
}

/// Appending a line lowers a match minimum exactly when the line
/// matches and is shorter.
pub proof fn lemma_min_len_matching_push(h: Seq<Seq<u8>>, p: spec_fn(Seq<u8>) -> bool, l: Seq<u8>)
    ensures
        min_len_matching(h.push(l), p) == (if p(l) && l.len() < min_len_matching(h, p) {
            l.len() as int
        } else {
            min_len_matching(h, p)
        }),
{
    assert(h.push(l).drop_last() =~= h);
    assert(h.push(l).last() == l);
}

/// Appending a line raises a match maximum exactly when the line
/// matches and is longer.
pub proof fn lemma_max_len_matching_push(h: Seq<Seq<u8>>, p: spec_fn(Seq<u8>) -> bool, l: Seq<u8>)
    ensures
        max_len_matching(h.push(l), p) == (if p(l) && l.len() > max_len_matching(h, p) {
            l.len() as int
        } else {
            max_len_matching(h, p)
        }),
{
    assert(h.push(l).drop_last() =~= h);
    assert(h.push(l).last() == l);
}

/// No key can occur more often than there are lines.
pub proof fn lemma_count_matching_le_len(h: Seq<Seq<u8>>, p: spec_fn(Seq<u8>) -> bool)
    ensures
        count_matching(h, p) <= h.len(),
    decreases h.len(),
{
    if h.len() > 0 {
        lemma_count_matching_le_len(h.drop_last(), p);
    }
}

/// When every line of the history is at most 0xffff bytes long, match
/// minima and maxima lie between 0 and 0xffff.
pub proof fn lemma_min_max_matching_bounds(h: Seq<Seq<u8>>, p: spec_fn(Seq<u8>) -> bool)
    requires
        forall|i: int| 0 <= i < h.len() ==> (#[trigger] h[i]).len() <= 0xffff,
    ensures
        0 <= min_len_matching(h, p) <= 0xffff,
        0 <= max_len_matching(h, p) <= 0xffff,
    decreases h.len(),
{
    if h.len() > 0 {
        assert(forall|i: int|
            0 <= i < h.drop_last().len() ==> (#[trigger] h.drop_last()[i]).len() <= 0xffff) by {
            assert(forall|i: int|
                0 <= i < h.drop_last().len() ==> h.drop_last()[i] == (#[trigger] h[i]));
        }
        lemma_min_max_matching_bounds(h.drop_last(), p);
        assert(h.last().len() == h[h.len() - 1].len());
    }
}

/// A key that never occurs keeps its extremes at their sentinels.
pub proof fn lemma_no_match_extremes(h: Seq<Seq<u8>>, p: spec_fn(Seq<u8>) -> bool)
    requires
        count_matching(h, p) == 0,
    ensures
        min_len_matching(h, p) == 0xffff,
        max_len_matching(h, p) == 0,
    decreases h.len(),
{
    if h.len() > 0 {
        lemma_no_match_extremes(h.drop_last(), p);
    }
}

/// The smallest logical length over all of the history, with the
/// sentinel usize::MAX when the history is empty.
pub open spec fn global_min_len(h: Seq<Seq<u8>>) -> int
    decreases h.len(),
{
    if h.len() == 0 {
        usize::MAX as int
    } else {
        let r = global_min_len(h.drop_last());
        if h.last().len() < r {
            h.last().len() as int
        } else {
            r
        }
    }
}

/// The largest logical length over all of the history, with the
/// sentinel 0 when the history is empty.
pub open spec fn global_max_len(h: Seq<Seq<u8>>) -> int
    decreases h.len(),
{
    if h.len() == 0 {
        0
    } else {
        let r = global_max_len(h.drop_last());
        if h.last().len() > r {
            h.last().len() as int
        } else {
            r
        }
    }
}

/// Appending a line updates the global extremes in the expected way.
pub proof fn lemma_global_len_push(h: Seq<Seq<u8>>, l: Seq<u8>)
    ensures
        global_min_len(h.push(l)) == (if l.len() < global_min_len(h) {
            l.len() as int
        } else {
            global_min_len(h)
        }),
        global_max_len(h.push(l)) == (if l.len() > global_max_len(h) {
            l.len() as int
        } else {
            global_max_len(h)
        }),
{
    assert(h.push(l).drop_last() =~= h);
    assert(h.push(l).last() == l);
}

/// The charset union of any line is below 32, so it indexes the
/// 32-entry charset table.
pub proof fn lemma_charset_union_bound(s: Seq<u8>)
    ensures
        charset_union_spec(s) < 32,
    decreases s.len(),
{
    if s.len() == 0 {
    } else {
        lemma_charset_union_bound(s.drop_last());
        let u = charset_union_spec(s.drop_last());
        let b = charset_bit(s.last());
        assert(b == 1 || b == 2 || b == 4 || b == 8 || b == 16) by {
            crate::classes::lemma_charset_bit_valid(s.last());
        }
        assert(u < 32 && (b == 1 || b == 2 || b == 4 || b == 8 || b == 16) ==> (u | b) < 32)
            by (bit_vector);
    }
}



/// Recording one line in the detailed-mask table keeps every entry
/// equal to its occurrence count.
proof fn lemma_mask_table_push(
    m: Map<Seq<u8>, u64>,
    m2: Map<Seq<u8>, u64>,
    h: Seq<Seq<u8>>,
    l: Seq<u8>,
)
    requires
        forall|k: Seq<u8>| #[trigger] m.dom().contains(k) ==> m[k] == occ_mask(h, k),
        forall|k: Seq<u8>| #[trigger] occ_mask(h, k) > 0 ==> m.dom().contains(k),
        occ_mask(h.push(l), detailed_mask_spec(l)) <= 0xffff_ffff,
        m2 == m.insert(detailed_mask_spec(l), occ_mask(h.push(l), detailed_mask_spec(l)) as u64),
    ensures
        forall|k: Seq<u8>| #[trigger] m2.dom().contains(k) ==> m2[k] == occ_mask(h.push(l), k),
        forall|k: Seq<u8>| #[trigger] occ_mask(h.push(l), k) > 0 ==> m2.dom().contains(k),
{
    let h2 = h.push(l);
    let m0 = detailed_mask_spec(l);
    assert forall|k: Seq<u8>| #[trigger] m2.dom().contains(k) implies m2[k] == occ_mask(h2, k) by {
        lemma_count_matching_push(h, mask_pred(k), l);
        if k != m0 {
            assert(m.dom().contains(k));
        }
    }
    assert forall|k: Seq<u8>| #[trigger] occ_mask(h2, k) > 0 implies m2.dom().contains(k) by {
        lemma_count_matching_push(h, mask_pred(k), l);
        if k != m0 {
            assert(occ_mask(h, k) > 0);
        }
    }
}

/// Recording one line in the simple-mask table keeps every entry equal
/// to the packed statistics of its key.
proof fn lemma_smask_table_push(
    m: Map<Seq<u8>, u64>,
    m2: Map<Seq<u8>, u64>,
    h: Seq<Seq<u8>>,
    l: Seq<u8>,
)
    requires
        forall|k: Seq<u8>| #[trigger] m.dom().contains(k) ==> m[k] == packed_entry(
            occ_smask(h, k) as u32,
            min_len_matching(h, smask_pred(k)) as u16,
            max_len_matching(h, smask_pred(k)) as u16,
        ),
        forall|k: Seq<u8>| #[trigger] occ_smask(h, k) > 0 ==> m.dom().contains(k),
        m2 == m.insert(
            simple_mask_spec(l),
            packed_entry(
                occ_smask(h.push(l), simple_mask_spec(l)) as u32,
                min_len_matching(h.push(l), smask_pred(simple_mask_spec(l))) as u16,
                max_len_matching(h.push(l), smask_pred(simple_mask_spec(l))) as u16,
            ),
        ),
    ensures
        forall|k: Seq<u8>| #[trigger] m2.dom().contains(k) ==> m2[k] == packed_entry(
            occ_smask(h.push(l), k) as u32,
            min_len_matching(h.push(l), smask_pred(k)) as u16,
            max_len_matching(h.push(l), smask_pred(k)) as u16,
        ),
        forall|k: Seq<u8>| #[trigger] occ_smask(h.push(l), k) > 0 ==> m2.dom().contains(k),
{
    let h2 = h.push(l);
    let sm0 = simple_mask_spec(l);
    assert forall|k: Seq<u8>| #[trigger] m2.dom().contains(k) implies m2[k] == packed_entry(
        occ_smask(h2, k) as u32,
        min_len_matching(h2, smask_pred(k)) as u16,
        max_len_matching(h2, smask_pred(k)) as u16,
    ) by {
        lemma_count_matching_push(h, smask_pred(k), l);
        lemma_min_len_matching_push(h, smask_pred(k), l);
        lemma_max_len_matching_push(h, smask_pred(k), l);
        if k != sm0 {
            assert(m.dom().contains(k));
        }
    }
    assert forall|k: Seq<u8>| #[trigger] occ_smask(h2, k) > 0 implies m2.dom().contains(k) by {
        lemma_count_matching_push(h, smask_pred(k), l);
        if k != sm0 {
            assert(occ_smask(h, k) > 0);
        }
    }
}

/// Recording one line in the charset table keeps every entry equal to
/// the packed statistics of its union.
proof fn lemma_charset_table_push(cs: Seq<u64>, cs2: Seq<u64>, h: Seq<Seq<u8>>, l: Seq<u8>)
    requires
        cs.len() == 32,
        forall|c: int| 0 <= c < 32 ==> (#[trigger] cs[c]) == packed_entry(
            occ_charset(h, c as u8) as u32,
            min_len_matching(h, charset_pred(c as u8)) as u16,
            max_len_matching(h, charset_pred(c as u8)) as u16,
        ),
        charset_union_spec(l) < 32,
        cs2 == cs.update(
            charset_union_spec(l) as int,
            packed_entry(
                occ_charset(h.push(l), charset_union_spec(l)) as u32,
                min_len_matching(h.push(l), charset_pred(charset_union_spec(l))) as u16,
                max_len_matching(h.push(l), charset_pred(charset_union_spec(l))) as u16,
            ),
        ),
    ensures
        forall|c: int| 0 <= c < 32 ==> (#[trigger] cs2[c]) == packed_entry(
            occ_charset(h.push(l), c as u8) as u32,
            min_len_matching(h.push(l), charset_pred(c as u8)) as u16,
            max_len_matching(h.push(l), charset_pred(c as u8)) as u16,
        ),
{
    let h2 = h.push(l);
    let c0 = charset_union_spec(l);
    assert forall|c: int| 0 <= c < 32 implies (#[trigger] cs2[c]) == packed_entry(
        occ_charset(h2, c as u8) as u32,
        min_len_matching(h2, charset_pred(c as u8)) as u16,
        max_len_matching(h2, charset_pred(c as u8)) as u16,
    ) by {
        lemma_count_matching_push(h, charset_pred(c as u8), l);
        lemma_min_len_matching_push(h, charset_pred(c as u8), l);
        lemma_max_len_matching_push(h, charset_pred(c as u8), l);
        if c != c0 as int {
            assert(cs2[c] == cs[c]);
            assert(charset_union_spec(l) != c as u8);
        }
    }
}

/// Recording one line in the length table keeps every entry equal to
/// the occurrence count of its length.
proof fn lemma_length_table_push(ls: Seq<u64>, ls2: Seq<u64>, h: Seq<Seq<u8>>, l: Seq<u8>)
    requires
        ls.len() == 0x10000,
        forall|n: int| 0 <= n < 0x10000 ==> (#[trigger] ls[n]) == occ_len(h, n) as u64,
        l.len() < 0x10000,
        occ_len(h.push(l), l.len() as int) <= 0xffff_ffff,
        ls2 == ls.update(l.len() as int, occ_len(h.push(l), l.len() as int) as u64),
    ensures
        forall|n: int| 0 <= n < 0x10000 ==> (#[trigger] ls2[n]) == occ_len(h.push(l), n) as u64,
{
    let h2 = h.push(l);
    assert forall|n: int| 0 <= n < 0x10000 implies (#[trigger] ls2[n]) == occ_len(h2, n) as u64 by {
        lemma_count_matching_push(h, len_pred(n), l);
        if n != l.len() as int {
            assert(ls2[n] == ls[n]);
        }
    }
}

/// The streaming statistics accumulator. `history` is the ghost record
/// of the accepted lines, in order; the well-formedness predicate ties
/// every table entry to it.
pub struct StatsAccumulator {
    /// Detailed mask -> occurrence count.
    pub masks: ByteMap,
    /// Simple mask -> packed (count, min length, max length) entry.
    pub simple_masks: ByteMap,
    /// Charset union (0..31) -> packed (count, min length, max length)
    /// entry; never-observed unions hold `DEFAULT_ENCODED`.
    pub charsets: Vec<u64>,
    /// Logical length (0..0xffff) -> occurrence count.
    pub lengths: Vec<u64>,
    /// How many lines were accepted.
    pub processed: u64,
    /// How many lines fell outside the length window.
    pub skipped: u64,
    /// Smallest accepted logical length, inclusive.
    pub min_length: u16,
    /// Largest accepted logical length, inclusive.
    pub max_length: u16,
    /// Smallest logical length seen, usize::MAX before any line.
    pub min_seen: usize,
    /// Largest logical length seen, 0 before any line.
    pub max_seen: usize,
    /// The accepted lines, in order.
    pub history: Ghost<Seq<Seq<u8>>>,
}

impl StatsAccumulator {
    /// Every table entry agrees with the statistics of the recorded
    /// history, and the counts of every table sum to the number of
    /// accepted lines.
    pub open spec fn wf(self) -> bool {
        let h = self.history@;
        &&& self.lengths@.len() == 0x10000
        &&& self.charsets@.len() == 32
        &&& self.masks@.dom().finite()
        &&& self.simple_masks@.dom().finite()
        &&& self.processed == h.len()
        &&& self.processed <= 0xffff_ffffu64
        &&& forall|i: int|
            0 <= i < h.len() ==> self.min_length <= (#[trigger] h[i]).len() <= self.max_length
        &&& forall|m: Seq<u8>|
            #[trigger] self.masks@.dom().contains(m) ==> self.masks@[m] == occ_mask(h, m)
        &&& forall|m: Seq<u8>| #[trigger] occ_mask(h, m) > 0 ==> self.masks@.dom().contains(m)
        &&& forall|sm: Seq<u8>|
            #[trigger] self.simple_masks@.dom().contains(sm) ==> self.simple_masks@[sm]
                == packed_entry(
                occ_smask(h, sm) as u32,
                min_len_matching(h, smask_pred(sm)) as u16,
                max_len_matching(h, smask_pred(sm)) as u16,
            )
        &&& forall|sm: Seq<u8>|
            #[trigger] occ_smask(h, sm) > 0 ==> self.simple_masks@.dom().contains(sm)
        &&& forall|c: int|
            0 <= c < 32 ==> (#[trigger] self.charsets@[c]) == packed_entry(
                occ_charset(h, c as u8) as u32,
                min_len_matching(h, charset_pred(c as u8)) as u16,
                max_len_matching(h, charset_pred(c as u8)) as u16,
            )
        &&& forall|n: int| 0 <= n < 0x10000 ==> (#[trigger] self.lengths@[n]) == occ_len(h, n) as u64
        &&& map_sum(self.masks@, as_int()) == h.len()
        &&& map_sum(self.simple_masks@, count_field()) == h.len()
        &&& seq_sum(self.charsets@, count_field()) == h.len()
        &&& seq_sum(self.lengths@, as_int()) == h.len()
        &&& self.min_seen == global_min_len(h)
        &&& self.max_seen == global_max_len(h)
    }

    /// Creates an empty accumulator for the given inclusive length
    /// window.
    pub fn new(min_length: u16, max_length: u16) -> (r: StatsAccumulator)
        ensures
            r.wf(),
            r.history@ == Seq::<Seq<u8>>::empty(),
            r.processed == 0,
            r.skipped == 0,
            r.min_length == min_length,
            r.max_length == max_length,
    {
        let mut lengths: Vec<u64> = Vec::new();
        let mut i: usize = 0;
        while i < 0x10000
            invariant
                i <= 0x10000,
                lengths@.len() == i,
                forall|j: int| 0 <= j < i ==> (#[trigger] lengths@[j]) == 0u64,
            decreases 0x10000 - i,
        {
            lengths.push(0);
            i += 1;
        }
        let mut charsets: Vec<u64> = Vec::new();
        let mut c: usize = 0;
        while c < 32
            invariant
                c <= 32,
                charsets@.len() == c,
                forall|j: int| 0 <= j < c ==> (#[trigger] charsets@[j]) == DEFAULT_ENCODED,
            decreases 32 - c,
        {
            charsets.push(DEFAULT_ENCODED);
            c += 1;
        }
        let r = StatsAccumulator {
            masks: ByteMap::new(),
            simple_masks: ByteMap::new(),
            charsets,
            lengths,
            processed: 0,
            skipped: 0,
            min_length,
            max_length,
            min_seen: usize::MAX,
            max_seen: 0,
            history: Ghost(Seq::empty()),
        };
        proof {
            let h = r.history@;
            assert(h.len() == 0);
            assert(r.masks@.dom() =~= Set::<Seq<u8>>::empty());
            assert(r.simple_masks@.dom() =~= Set::<Seq<u8>>::empty());
            assert(r.masks@.dom().finite());
            assert(r.masks@.dom().len() == 0);
            assert(map_sum(r.masks@, as_int()) == 0);
            assert(map_sum(r.simple_masks@, count_field()) == 0);
            crate::aggregate::lemma_default_encoded_fields();
            crate::aggregate::lemma_seq_sum_constant(r.charsets@, count_field(), DEFAULT_ENCODED);
            crate::aggregate::lemma_seq_sum_constant(r.lengths@, as_int(), 0u64);
        }
        r
    }

    /// Folds one decoded line into the tables. A line whose logical
    /// length falls outside the window is only counted as skipped; any
    /// other line is recorded in all four tables and in the history.
    #[verifier::rlimit(100)]
    pub fn process_line(&mut self, line: Vec<u8>) -> (accepted: bool)
        requires
            old(self).wf(),
            old(self).processed < 0xffff_ffffu64,
            old(self).skipped < 0xffff_ffff_ffff_ffffu64,
        ensures
            final(self).wf(),
            accepted == ((old(self).min_length as int) <= line@.len() <= (
            old(self).max_length as int)),
            accepted ==> final(self).history@ == old(self).history@.push(line@) && final(self).processed == old(self).processed + 1 && final(self).skipped == old(self).skipped,
            !accepted ==> final(self).history@ == old(self).history@ && final(self).processed
                == old(self).processed && final(self).skipped == old(self).skipped + 1,
            final(self).min_length == old(self).min_length,
            final(self).max_length == old(self).max_length,
    {
        let n = line.len();
        if n < self.min_length as usize || n > self.max_length as usize {
            self.skipped = self.skipped + 1;
            return false;
        }
        let ghost h = self.history@;
        let ghost l = line@;
        let ghost h2 = h.push(l);
        let ghost old_masks = self.masks@;
        let ghost old_smasks = self.simple_masks@;
        let ghost old_charsets = self.charsets@;
        let ghost old_lengths = self.lengths@;

        let mask = line_mask(&line);
        let charset = line_charset(&line);
        let smask = line_simple_mask(&line);
        let ghost m0 = detailed_mask_spec(l);
        let ghost sm0 = simple_mask_spec(l);
        let ghost c0 = charset_union_spec(l);

        proof {
            lemma_charset_union_bound(l);
            lemma_count_matching_le_len(h, mask_pred(m0));
            lemma_count_matching_le_len(h, smask_pred(sm0));
            lemma_count_matching_le_len(h, charset_pred(c0));
            lemma_count_matching_le_len(h, len_pred(n as int));
            assert(forall|i: int| 0 <= i < h.len() ==> (#[trigger] h[i]).len() <= 0xffff);
            lemma_min_max_matching_bounds(h, smask_pred(sm0));
            lemma_min_max_matching_bounds(h, charset_pred(c0));
        }

        // Detailed-mask table: plain count.
        let cur: u64 = match self.masks.get_value(&mask) {
            Some(c) => c,
            None => 0,
        };
        proof {
            assert(occ_mask(h, m0) > 0 ==> old_masks.dom().contains(m0));
            assert(cur == occ_mask(h, m0));
        }
        self.masks.set_value(mask, cur + 1);

        // Length table: plain count.
        let lv = self.lengths[n];
        proof {
            assert(lv == occ_len(h, n as int) as u64);
        }
        self.lengths.set(n, lv + 1);

        // Charset table: packed count/min/max entry.
        let ci = charset as usize;
        let e = self.charsets[ci];
        let (ccnt, cmn, cmx) = decode_count_min_max(e);
        proof {
            lemma_packed_entry_roundtrip(
                occ_charset(h, c0) as u32,
                min_len_matching(h, charset_pred(c0)) as u16,
                max_len_matching(h, charset_pred(c0)) as u16,
            );
            assert(ccnt == occ_charset(h, c0));
            assert(cmn == min_len_matching(h, charset_pred(c0)));
            assert(cmx == max_len_matching(h, charset_pred(c0)));
        }
        let nu16 = n as u16;
        let ncmn = if nu16 < cmn {
            nu16
        } else {
            cmn
        };
        let ncmx = if nu16 > cmx {
            nu16
        } else {
            cmx
        };
        let ne = encode_count_min_max(ccnt + 1, ncmn, ncmx);
        self.charsets.set(ci, ne);

        // Simple-mask table: packed count/min/max entry.
        let se: u64 = match self.simple_masks.get_value(&smask) {
            Some(v) => v,
            None => DEFAULT_ENCODED,
        };
        proof {
            assert(occ_smask(h, sm0) > 0 ==> old_smasks.dom().contains(sm0));
            crate::aggregate::lemma_default_encoded_fields();
            if !old_smasks.dom().contains(sm0) {
                assert(occ_smask(h, sm0) == 0);
                lemma_no_match_extremes(h, smask_pred(sm0));
            }
            lemma_packed_entry_roundtrip(
                occ_smask(h, sm0) as u32,
                min_len_matching(h, smask_pred(sm0)) as u16,
                max_len_matching(h, smask_pred(sm0)) as u16,
            );
            assert(se == packed_entry(
                occ_smask(h, sm0) as u32,
                min_len_matching(h, smask_pred(sm0)) as u16,
                max_len_matching(h, smask_pred(sm0)) as u16,
            ));
        }
        let (scnt, smn, smx) = decode_count_min_max(se);
        let nsmn = if nu16 < smn {
            nu16
        } else {
            smn
        };
        let nsmx = if nu16 > smx {
            nu16
        } else {
            smx
        };
        let nse = encode_count_min_max(scnt + 1, nsmn, nsmx);
        self.simple_masks.set_value(smask, nse);

        // Counters and extremes.
        self.processed = self.processed + 1;
        if n < self.min_seen {
            self.min_seen = n;
        }
        if n > self.max_seen {
            self.max_seen = n;
        }
        self.history = Ghost(h2);

        proof {
            // Push-step facts for the four keys this line touches.
            lemma_count_matching_push(h, mask_pred(m0), l);
            lemma_count_matching_push(h, smask_pred(sm0), l);
            lemma_min_len_matching_push(h, smask_pred(sm0), l);
            lemma_max_len_matching_push(h, smask_pred(sm0), l);
            lemma_count_matching_push(h, charset_pred(c0), l);
            lemma_min_len_matching_push(h, charset_pred(c0), l);
            lemma_max_len_matching_push(h, charset_pred(c0), l);
            lemma_count_matching_push(h, len_pred(n as int), l);

            // The four per-key table clauses.
            assert(self.masks@ == old_masks.insert(m0, occ_mask(h2, m0) as u64));
            lemma_mask_table_push(old_masks, self.masks@, h, l);
            assert(nse == packed_entry(
                occ_smask(h2, sm0) as u32,
                min_len_matching(h2, smask_pred(sm0)) as u16,
                max_len_matching(h2, smask_pred(sm0)) as u16,
            ));
            lemma_smask_table_push(old_smasks, self.simple_masks@, h, l);
            assert(ne == packed_entry(
                occ_charset(h2, c0) as u32,
                min_len_matching(h2, charset_pred(c0)) as u16,
                max_len_matching(h2, charset_pred(c0)) as u16,
            ));
            lemma_charset_table_push(old_charsets, self.charsets@, h, l);
            lemma_length_table_push(old_lengths, self.lengths@, h, l);

            // The four sums each grow by exactly one.
            lemma_map_sum_insert(old_masks, as_int(), m0, (cur + 1) as u64);
            lemma_map_sum_insert(old_smasks, count_field(), sm0, nse);
            assert(count_field()(nse) == occ_smask(h, sm0) + 1) by {
                lemma_packed_entry_roundtrip((scnt + 1) as u32, nsmn, nsmx);
            }
            lemma_seq_sum_update(old_charsets, count_field(), ci as int, ne);
            assert(count_field()(ne) == occ_charset(h, c0) + 1) by {
                lemma_packed_entry_roundtrip((ccnt + 1) as u32, ncmn, ncmx);
            }
            lemma_seq_sum_update(old_lengths, as_int(), n as int, (lv + 1) as u64);

            // Window bound and extremes for the extended history.
            assert forall|i: int| 0 <= i < h2.len() implies self.min_length <= (
            #[trigger] h2[i]).len() <= self.max_length by {
                if i < h.len() {
                    assert(h2[i] == h[i]);
                } else {
                    assert(h2[i] == l);
                }
            }
            lemma_global_len_push(h, l);
        }
        true
    }
}

} // verus!
