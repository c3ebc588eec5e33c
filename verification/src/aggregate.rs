//! Aggregation primitives: the packed count/min/max entry stored per
//! frequency-table key, the byte-string frequency table itself, and
//! summation helpers used to relate bucket counts to the number of
//! processed lines.

use vstd::prelude::*;

verus! {

/// The packed entry of a key never observed yet: count 0, minimum at
/// its sentinel 0xffff, maximum at its sentinel 0.
pub const DEFAULT_ENCODED: u64 = 0x00000000ffff0000;

/// The packed form of a (count, min, max) aggregate: count in the high
/// 32 bits, min in the next 16, max in the low 16.
pub open spec fn packed_entry(count: u32, min: u16, max: u16) -> u64 {
    (count * 0x1_0000_0000 + min * 0x1_0000 + max) as u64
}

/// The count field of a packed entry.
pub open spec fn entry_count(e: u64) -> u32 {
    (e / 0x1_0000_0000) as u32
}

/// The minimum-length field of a packed entry.
pub open spec fn entry_min(e: u64) -> u16 {
    ((e / 0x1_0000) % 0x1_0000) as u16
}

/// The maximum-length field of a packed entry.
pub open spec fn entry_max(e: u64) -> u16 {
    (e % 0x1_0000) as u16
}

/// Unpacking a packed entry restores its three fields.
pub proof fn lemma_packed_entry_roundtrip(count: u32, min: u16, max: u16)
    ensures
        entry_count(packed_entry(count, min, max)) == count,
        entry_min(packed_entry(count, min, max)) == min,
        entry_max(packed_entry(count, min, max)) == max,
{
    let c = count as u64;
    let m = min as u64;
    let x = max as u64;
    assert(c < 0x1_0000_0000 && m < 0x1_0000 && x < 0x1_0000 ==> {
        &&& (c * 0x1_0000_0000 + m * 0x1_0000 + x) / 0x1_0000_0000 == c
        &&& ((c * 0x1_0000_0000 + m * 0x1_0000 + x) / 0x1_0000) % 0x1_0000 == m
        &&& (c * 0x1_0000_0000 + m * 0x1_0000 + x) % 0x1_0000 == x
    }) by (bit_vector);
}

/// Packs a (count, min, max) aggregate into one 64-bit word.
pub fn encode_count_min_max(count: u32, min: u16, max: u16) -> (r: u64)
    ensures
        r == packed_entry(count, min, max),
{
    let r = (count as u64) << 32 | (min as u64) << 16 | (max as u64);
    proof {
        let c = count as u64;
        let m = min as u64;
        let x = max as u64;
        assert(c < 0x1_0000_0000 && m < 0x1_0000 && x < 0x1_0000 ==> (c << 32 | m << 16 | x) == (c
            * 0x1_0000_0000 + m * 0x1_0000 + x)) by (bit_vector);
    }
    r
}

/// Unpacks a 64-bit word into its (count, min, max) fields.
pub fn decode_count_min_max(encoded: u64) -> (r: (u32, u16, u16))
    ensures
        r.0 == entry_count(encoded),
        r.1 == entry_min(encoded),
        r.2 == entry_max(encoded),
{
    let count = (encoded >> 32) as u32;
    let min = ((encoded >> 16) & 0xffff) as u16;
    let max = (encoded & 0xffff) as u16;
    proof {
        let e = encoded;
        assert((e >> 32) as u32 == (e / 0x1_0000_0000) as u32) by (bit_vector);
        assert(((e >> 16) & 0xffff) as u16 == ((e / 0x1_0000) % 0x1_0000) as u16) by (bit_vector);
        assert((e & 0xffff) as u16 == (e % 0x1_0000) as u16) by (bit_vector);
    }
    (count, min, max)
}

/// The never-observed entry unpacks to its sentinels.
pub proof fn lemma_default_encoded_fields()
    ensures
        entry_count(DEFAULT_ENCODED) == 0,
        entry_min(DEFAULT_ENCODED) == 0xffff,
        entry_max(DEFAULT_ENCODED) == 0,
        DEFAULT_ENCODED == packed_entry(0, 0xffff, 0),
{
    lemma_packed_entry_roundtrip(0, 0xffff, 0);
}

/// A frequency table keyed by byte strings, as used for detailed
/// masks, simple masks and c-grams. The storage is a hashbrown hash
/// map held opaquely; [`byte_map_view`] models its contents.
#[verifier::external_body]
pub struct ByteMap {
    map: hashbrown::HashMap<Vec<u8>, u64>,
}

/// The contents of a [`ByteMap`] as a mathematical map from key bytes
/// to stored 64-bit values.
pub uninterp spec fn byte_map_view(m: ByteMap) -> Map<Seq<u8>, u64>;

impl View for ByteMap {
    type V = Map<Seq<u8>, u64>;

    open spec fn view(&self) -> Map<Seq<u8>, u64> {
        byte_map_view(*self)
    }
}

impl ByteMap {
    /// Relies on hashbrown::HashMap::new: a new map holds nothing.
    #[verifier::external_body]
    pub fn new() -> (r: ByteMap)
        ensures
            forall|k: Seq<u8>| !byte_map_view(r).dom().contains(k),
    {
        ByteMap { map: hashbrown::HashMap::new() }
    }

    /// Relies on hashbrown::HashMap::get: returns the value stored
    /// under the key, if any.
    #[verifier::external_body]
    pub fn get_value(&self, k: &Vec<u8>) -> (r: Option<u64>)
        ensures
            r == if byte_map_view(*self).dom().contains(k@) {
                Some(byte_map_view(*self)[k@])
            } else {
                None::<u64>
            },
    {
        self.map.get(k).copied()
    }

    /// Relies on hashbrown::HashMap::insert: stores the value under
    /// the key, replacing any previous value.
    #[verifier::external_body]
    pub fn set_value(&mut self, k: Vec<u8>, v: u64)
        ensures
            byte_map_view(*final(self)) == byte_map_view(*old(self)).insert(k@, v),
    {
        self.map.insert(k, v);
    }

    /// Relies on hashbrown::HashMap::iter: yields each stored entry
    /// exactly once, in no promised order.
    #[verifier::external_body]
    pub fn to_pairs(&self) -> (r: Vec<KeyCount>)
        ensures
            r@.len() == byte_map_view(*self).dom().len(),
            forall|i: int|
                0 <= i < r@.len() ==> byte_map_view(*self).dom().contains((#[trigger] r@[i]).key@)
                    && byte_map_view(*self)[r@[i].key@] == r@[i].value,
            forall|i: int|
                forall|j: int|
                    0 <= i < j < r@.len() ==> (#[trigger] r@[i]).key@ != (#[trigger] r@[j]).key@,
            forall|k: Seq<u8>|
                byte_map_view(*self).dom().contains(k) ==> exists|i: int|
                    0 <= i < r@.len() && (#[trigger] r@[i]).key@ == k,
    {
        self.map.iter().map(|(k, v)| KeyCount { key: k.clone(), value: *v }).collect()
    }
}

/// One materialized entry of a frequency table: a key and the 64-bit
/// value stored under it.
pub struct KeyCount {
    /// The key bytes.
    pub key: Vec<u8>,
    /// The stored value: a plain count, or a packed entry.
    pub value: u64,
}

/// Sum of `f` over all values of a finite map.
pub open spec fn map_sum<V>(m: Map<Seq<u8>, V>, f: spec_fn(V) -> int) -> int
    decreases m.dom().len(),
    when m.dom().finite()
{
    if m.dom().len() == 0 {
        0
    } else {
        let k = m.dom().choose();
        f(m[k]) + map_sum(m.remove(k), f)
    }
}

/// Removing a key takes exactly its contribution out of the sum.
pub proof fn lemma_map_sum_remove<V>(m: Map<Seq<u8>, V>, f: spec_fn(V) -> int, k: Seq<u8>)
    requires
        m.dom().finite(),
        m.dom().contains(k),
    ensures
        map_sum(m, f) == f(m[k]) + map_sum(m.remove(k), f),
    decreases m.dom().len(),
{
    let k0 = m.dom().choose();
    assert(m.dom().contains(k0));
    if k0 == k {
    } else {
        assert(m.dom().len() >= 2) by {
            broadcast use vstd::set::axiom_set_remove_len, vstd::set::axiom_set_contains_len;

            assert(m.dom().remove(k0).contains(k));
        }
        lemma_map_sum_remove(m.remove(k0), f, k);
        lemma_map_sum_remove(m.remove(k), f, k0);
        assert(m.remove(k0).remove(k) =~= m.remove(k).remove(k0));
    }
}

/// Inserting a value changes the sum by the difference between the new
/// contribution and the previous one.
pub proof fn lemma_map_sum_insert<V>(m: Map<Seq<u8>, V>, f: spec_fn(V) -> int, k: Seq<u8>, v: V)
    requires
        m.dom().finite(),
    ensures
        map_sum(m.insert(k, v), f) == map_sum(m, f) + f(v) - if m.dom().contains(k) {
            f(m[k])
        } else {
            0
        },
{
    let m2 = m.insert(k, v);
    assert(m2.dom().finite());
    lemma_map_sum_remove(m2, f, k);
    if m.dom().contains(k) {
        lemma_map_sum_remove(m, f, k);
        assert(m2.remove(k) =~= m.remove(k));
    } else {
        assert(m2.remove(k) =~= m);
    }
}

/// Sum of `f` over the elements of a sequence.
pub open spec fn seq_sum(s: Seq<u64>, f: spec_fn(u64) -> int) -> int
    decreases s.len(),
{
    if s.len() == 0 {
        0
    } else {
        seq_sum(s.drop_last(), f) + f(s.last())
    }
}

/// Updating one element changes a sequence sum by the difference
/// between the new contribution and the old one.
pub proof fn lemma_seq_sum_update(s: Seq<u64>, f: spec_fn(u64) -> int, i: int, v: u64)
    requires
        0 <= i < s.len(),
    ensures
        seq_sum(s.update(i, v), f) == seq_sum(s, f) + f(v) - f(s[i]),
    decreases s.len(),
{
    let t = s.update(i, v);
    assert(t.len() == s.len());
    if i == s.len() - 1 {
        assert(t.drop_last() =~= s.drop_last());
        assert(t.last() == v);
    } else {
        assert(t.drop_last() =~= s.drop_last().update(i, v));
        assert(t.last() == s.last());
        lemma_seq_sum_update(s.drop_last(), f, i, v);
        assert(s.drop_last()[i] == s[i]);
    }
}

/// A sequence of equal elements sums to its length times the common
/// contribution.
pub proof fn lemma_seq_sum_constant(s: Seq<u64>, f: spec_fn(u64) -> int, v: u64)
    requires
        forall|i: int| 0 <= i < s.len() ==> s[i] == v,
    ensures
        seq_sum(s, f) == s.len() * f(v),
    decreases s.len(),
{
    if s.len() == 0 {
    } else {
        lemma_seq_sum_constant(s.drop_last(), f, v);
        assert(s.last() == v);
        assert((s.len() - 1) * f(v) + f(v) == s.len() * f(v)) by (nonlinear_arith);
    }
}


/// A sum of non-negative contributions is non-negative.
pub proof fn lemma_seq_sum_nonneg(s: Seq<u64>, f: spec_fn(u64) -> int)
    requires
        forall|v: u64| #[trigger] f(v) >= 0,
    ensures
        seq_sum(s, f) >= 0,
    decreases s.len(),
{
    if s.len() > 0 {
        lemma_seq_sum_nonneg(s.drop_last(), f);
    }
}

} // verus!
