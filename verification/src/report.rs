//! Ranking and emission: frequency tables are materialized, sorted by
//! descending value, and rendered into report lines.

use vstd::prelude::*;
use vstd::multiset::Multiset;
use crate::aggregate::{map_sum, seq_sum, KeyCount};
use crate::codec::{encode_hex_if_needed, encode_spec};
use crate::statsgen::{as_int, StatsAccumulator};

verus! {

/// The stored values of a materialized pair list, in order.
pub open spec fn values_of(s: Seq<KeyCount>) -> Seq<u64> {
    s.map_values(|kc: KeyCount| kc.value)
}

/// True iff the list is sorted by non-increasing value.
pub open spec fn sorted_desc(s: Seq<KeyCount>) -> bool {
    forall|i: int, j: int| 0 <= i < j < s.len() ==> (#[trigger] s[i]).value >= (#[trigger] s[j]).value
}

/// Sorts a materialized frequency table by descending value. Ties keep
/// no particular order. The result holds exactly the elements of the
/// input.
pub fn rank_pairs(pairs: Vec<KeyCount>) -> (r: Vec<KeyCount>)
    ensures
        r@.len() == pairs@.len(),
        r@.to_multiset() == pairs@.to_multiset(),
        sorted_desc(r@),
        forall|x: KeyCount| r@.contains(x) <==> pairs@.contains(x),
{
    broadcast use vstd::seq_lib::group_to_multiset_ensures;

    let ghost orig = pairs@;
    let mut rest = pairs;
    let mut out: Vec<KeyCount> = Vec::new();
    while rest.len() > 0
        invariant
            out@.to_multiset().add(rest@.to_multiset()) =~= orig.to_multiset(),
            out@.len() + rest@.len() == orig.len(),
            sorted_desc(out@),
            forall|i: int, j: int|
                0 <= i < out@.len() && 0 <= j < rest@.len() ==> (#[trigger] out@[i]).value >= (
                #[trigger] rest@[j]).value,
        decreases rest@.len(),
    {
        let mut mi: usize = 0;
        let mut k: usize = 1;
        while k < rest.len()
            invariant
                mi < k <= rest@.len(),
                rest@.len() > 0,
                forall|j: int| 0 <= j < k ==> (#[trigger] rest@[j]).value <= rest@[mi as int].value,
            decreases rest@.len() - k,
        {
            if rest[k].value > rest[mi].value {
                mi = k;
            }
            k += 1;
        }
        let ghost rest_before = rest@;
        let ghost out_before = out@;
        let x = rest.remove(mi);
        out.push(x);
        proof {
            rest_before.to_multiset_ensures();
            out_before.to_multiset_ensures();
            assert(rest@ == rest_before.remove(mi as int));
            assert(x == rest_before[mi as int]);
            assert(rest_before.remove(mi as int).to_multiset() =~= rest_before.to_multiset().remove(
                x,
            ));
            assert(out@ == out_before.push(x));
            assert(out_before.push(x).to_multiset() =~= out_before.to_multiset().insert(x));
            assert(out@.to_multiset().add(rest@.to_multiset()) =~= orig.to_multiset());
            assert forall|i: int, j: int|
                0 <= i < out@.len() && 0 <= j < rest@.len() implies (#[trigger] out@[i]).value >= (
            #[trigger] rest@[j]).value by {
                if j < mi {
                    assert(rest@[j] == rest_before[j]);
                } else {
                    assert(rest@[j] == rest_before[j + 1]);
                }
            }
        }
    }
    proof {
        rest@.to_multiset_ensures();
        out@.to_multiset_ensures();
        orig.to_multiset_ensures();
        assert(rest@.to_multiset() =~= Multiset::<KeyCount>::empty());
        assert(out@.to_multiset() =~= orig.to_multiset());
        assert forall|x: KeyCount| out@.contains(x) <==> orig.contains(x) by {
            assert(out@.contains(x) <==> out@.to_multiset().count(x) > 0);
            assert(orig.contains(x) <==> orig.to_multiset().count(x) > 0);
        }
    }
    out
}

/// A materialized pair list with distinct keys that covers a finite
/// map sums, over its values, to the map's own sum.
pub proof fn lemma_pairs_sum(
    pairs: Seq<KeyCount>,
    m: Map<Seq<u8>, u64>,
    f: spec_fn(u64) -> int,
)
    requires
        m.dom().finite(),
        pairs.len() == m.dom().len(),
        forall|i: int|
            0 <= i < pairs.len() ==> m.dom().contains((#[trigger] pairs[i]).key@) && m[pairs[i].key@]
                == pairs[i].value,
        forall|i: int, j: int|
            0 <= i < j < pairs.len() ==> (#[trigger] pairs[i]).key@ != (#[trigger] pairs[j]).key@,
        forall|k: Seq<u8>|
            m.dom().contains(k) ==> exists|i: int| 0 <= i < pairs.len() && (#[trigger] pairs[i]).key@
                == k,
    ensures
        seq_sum(values_of(pairs), f) == map_sum(m, f),
    decreases pairs.len(),
{
    if pairs.len() == 0 {
        assert(m.dom() =~= Set::<Seq<u8>>::empty()) by {
            broadcast use vstd::set::axiom_set_contains_len;

            if exists|k: Seq<u8>| m.dom().contains(k) {
                let k = choose|k: Seq<u8>| m.dom().contains(k);
                assert(m.dom().len() > 0);
            }
        }
        assert(values_of(pairs) =~= Seq::<u64>::empty());
    } else {
        let last = pairs.last();
        let k = last.key@;
        let m2 = m.remove(k);
        let rest = pairs.drop_last();
        assert(m.dom().contains(k));
        crate::aggregate::lemma_map_sum_remove(m, f, k);
        assert(m2.dom() =~= m.dom().remove(k));
        assert(m2.dom().len() == m.dom().len() - 1) by {
            broadcast use vstd::set::axiom_set_remove_len;

        }
        assert(forall|i: int|
            0 <= i < rest.len() ==> rest[i] == (#[trigger] pairs[i]));
        assert forall|kk: Seq<u8>| m2.dom().contains(kk) implies exists|i: int|
            0 <= i < rest.len() && (#[trigger] rest[i]).key@ == kk by {
            assert(m.dom().contains(kk) && kk != k);
            let i = choose|i: int| 0 <= i < pairs.len() && (#[trigger] pairs[i]).key@ == kk;
            assert(i != pairs.len() - 1);
            assert(rest[i].key@ == kk);
        }
        lemma_pairs_sum(rest, m2, f);
        assert(values_of(pairs).drop_last() =~= values_of(rest));
        assert(values_of(pairs).last() == last.value);
    }
}


/// The decimal digits of a number, most significant first, as ASCII
/// bytes.
pub open spec fn dec_str(n: nat) -> Seq<u8>
    decreases n,
{
    if n < 10 {
        seq![(0x30 + n) as u8]
    } else {
        dec_str(n / 10).push((0x30 + (n % 10)) as u8)
    }
}

/// Renders a number in decimal.
pub fn u64_to_dec(n: u64) -> (r: Vec<u8>)
    ensures
        r@ == dec_str(n as nat),
{
    let mut rev: Vec<u8> = Vec::new();
    rev.push((n % 10) as u8 + 0x30);
    let mut m: u64 = n / 10;
    proof {
        if m == 0 {
            assert(rev@.reverse() =~= seq![(0x30 + (n as nat) % 10) as u8]);
            assert(dec_str(n as nat) == rev@.reverse());
        } else {
            assert(rev@.reverse() =~= seq![(0x30 + (n as nat) % 10) as u8]);
            assert(dec_str(n as nat) =~= dec_str(m as nat) + rev@.reverse());
        }
    }
    while m > 0
        invariant
            m == 0 ==> dec_str(n as nat) == rev@.reverse(),
            m > 0 ==> dec_str(n as nat) == dec_str(m as nat) + rev@.reverse(),
            rev@.len() >= 1,
        decreases m,
    {
        let ghost rev0 = rev@;
        let ghost m_in = m as nat;
        let d = (m % 10) as u8 + 0x30;
        rev.push(d);
        m = m / 10;
        proof {
            assert(rev@ == rev0.push(d));
            assert(rev0.push(d).reverse() =~= seq![d] + rev0.reverse());
            if m == 0 {
                assert(dec_str(m_in) =~= seq![d]);
                assert(dec_str(n as nat) =~= rev@.reverse());
            } else {
                assert(dec_str(m_in) == dec_str(m as nat).push(d));
                assert(dec_str(m as nat).push(d) =~= dec_str(m as nat) + seq![d]);
                assert(dec_str(m_in) + rev0.reverse() =~= dec_str(m as nat) + (seq![d]
                    + rev0.reverse()));
                assert(dec_str(n as nat) =~= dec_str(m as nat) + rev@.reverse());
            }
        }
    }
    let mut r: Vec<u8> = Vec::new();
    let mut i: usize = rev.len();
    while i > 0
        invariant
            i <= rev@.len(),
            r@.len() == rev@.len() - i,
            forall|j: int| 0 <= j < r@.len() ==> (#[trigger] r@[j]) == rev@[rev@.len() - 1 - j],
        decreases i,
    {
        i -= 1;
        r.push(rev[i]);
    }
    proof {
        assert(r@ =~= rev@.reverse());
    }
    r
}

/// A percentage in units of a ten-thousandth of one percent,
/// truncated: `count * 1000000 / processed`.
pub open spec fn percent_e4_of(count: int, processed: int) -> int {
    count * 1000000 / processed
}

/// Computes the truncated percentage of `count` out of `processed`
/// accepted lines, in ten-thousandths of one percent.
pub fn percent_e4(count: u64, processed: u64) -> (r: u64)
    requires
        0 < processed <= 0xffff_ffffu64,
        count <= processed,
    ensures
        r == percent_e4_of(count as int, processed as int),
        r <= 1000000,
{
    proof {
        assert(count * 1000000 <= 0xffff_ffffu64 * 1000000) by (nonlinear_arith)
            requires
                count <= 0xffff_ffffu64,
        ;
        assert(count * 1000000 <= processed * 1000000) by (nonlinear_arith)
            requires
                count <= processed,
        ;
        assert(processed * 1000000 / (processed as int) == 1000000) by (nonlinear_arith)
            requires
                processed > 0,
        ;
        vstd::arithmetic::div_mod::lemma_div_is_ordered(
            count as int * 1000000,
            processed as int * 1000000,
            processed as int,
        );
    }
    count * 1_000_000 / processed
}

/// Four zero-padded decimal digits, as ASCII bytes.
pub open spec fn pad4(f: int) -> Seq<u8>
    recommends
        0 <= f < 10000,
{
    seq![
        (0x30 + f / 1000 % 10) as u8,
        (0x30 + f / 100 % 10) as u8,
        (0x30 + f / 10 % 10) as u8,
        (0x30 + f % 10) as u8,
    ]
}

/// A percentage in ten-thousandths of one percent, rendered with four
/// decimal places.
pub open spec fn percent_str(p: int) -> Seq<u8>
    recommends
        p >= 0,
{
    dec_str((p / 10000) as nat) + seq![0x2eu8] + pad4(p % 10000)
}

/// Renders a percentage with four decimal places.
pub fn render_percent(p: u64) -> (r: Vec<u8>)
    ensures
        r@ == percent_str(p as int),
{
    let mut r = u64_to_dec(p / 10000);
    r.push(0x2e);
    let f = p % 10000;
    r.push((f / 1000 % 10) as u8 + 0x30);
    r.push((f / 100 % 10) as u8 + 0x30);
    r.push((f / 10 % 10) as u8 + 0x30);
    r.push((f % 10) as u8 + 0x30);
    proof {
        assert(r@ =~= percent_str(p as int));
    }
    r
}

/// The hashcat-style rendering of a detailed mask: a question mark
/// before each class letter.
pub open spec fn mask_render(m: Seq<u8>) -> Seq<u8> {
    Seq::new(
        2 * m.len(),
        |i: int|
            if i % 2 == 0 {
                0x3fu8
            } else {
                m[i / 2]
            },
    )
}

/// Renders a detailed mask in hashcat style.
pub fn render_mask(m: &Vec<u8>) -> (r: Vec<u8>)
    requires
        m@.len() * 2 <= usize::MAX,
    ensures
        r@ == mask_render(m@),
{
    let mut r: Vec<u8> = Vec::new();
    let mut i: usize = 0;
    while i < m.len()
        invariant
            i <= m@.len(),
            r@.len() == 2 * i,
            forall|j: int|
                0 <= j < r@.len() ==> (#[trigger] r@[j]) == (if j % 2 == 0 {
                    0x3fu8
                } else {
                    m@[j / 2]
                }),
        decreases m@.len() - i,
    {
        r.push(0x3f);
        r.push(m[i]);
        i += 1;
    }
    proof {
        assert(r@ =~= mask_render(m@));
    }
    r
}

/// The UTF-8 encoding of one character.
pub open spec fn utf8_of(c: char) -> Seq<u8> {
    let u = c as u32;
    if u < 0x80 {
        seq![u as u8]
    } else if u < 0x800 {
        seq![(0xc0u32 | (u >> 6)) as u8, (0x80u32 | (u & 0x3f)) as u8]
    } else if u < 0x10000 {
        seq![
            (0xe0u32 | (u >> 12)) as u8,
            (0x80u32 | ((u >> 6) & 0x3f)) as u8,
            (0x80u32 | (u & 0x3f)) as u8,
        ]
    } else {
        seq![
            (0xf0u32 | (u >> 18)) as u8,
            (0x80u32 | ((u >> 12) & 0x3f)) as u8,
            (0x80u32 | ((u >> 6) & 0x3f)) as u8,
            (0x80u32 | (u & 0x3f)) as u8,
        ]
    }
}

/// Encodes one character as UTF-8 bytes.
pub fn char_utf8(c: char) -> (r: Vec<u8>)
    ensures
        r@ == utf8_of(c),
{
    let u = c as u32;
    let mut r: Vec<u8> = Vec::new();
    if u < 0x80 {
        r.push(u as u8);
    } else if u < 0x800 {
        r.push((0xc0u32 | (u >> 6)) as u8);
        r.push((0x80u32 | (u & 0x3f)) as u8);
    } else if u < 0x10000 {
        r.push((0xe0u32 | (u >> 12)) as u8);
        r.push((0x80u32 | ((u >> 6) & 0x3f)) as u8);
        r.push((0x80u32 | (u & 0x3f)) as u8);
    } else {
        r.push((0xf0u32 | (u >> 18)) as u8);
        r.push((0x80u32 | ((u >> 12) & 0x3f)) as u8);
        r.push((0x80u32 | ((u >> 6) & 0x3f)) as u8);
        r.push((0x80u32 | (u & 0x3f)) as u8);
    }
    proof {
        assert(r@ =~= utf8_of(c));
    }
    r
}

/// One record of the mask report: the rendered mask, the truncated
/// percentage with four decimals and the count, separated by the
/// configured separator and ended by a newline.
pub open spec fn mask_report_line_spec(m: Seq<u8>, count: int, processed: int, sep: char) -> Seq<
    u8,
> {
    mask_render(m) + utf8_of(sep) + percent_str(percent_e4_of(count, processed)) + utf8_of(sep)
        + dec_str(count as nat) + seq![0x0au8]
}

/// Renders one record of the mask report.
pub fn render_mask_line(m: &Vec<u8>, count: u64, processed: u64, sep: char) -> (r: Vec<u8>)
    requires
        m@.len() * 2 <= usize::MAX,
        0 < processed <= 0xffff_ffffu64,
        count <= processed,
    ensures
        r@ == mask_report_line_spec(m@, count as int, processed as int, sep),
{
    let mut r = render_mask(m);
    let mut sep1 = char_utf8(sep);
    r.append(&mut sep1);
    let p = percent_e4(count, processed);
    let mut ps = render_percent(p);
    r.append(&mut ps);
    let mut sep2 = char_utf8(sep);
    r.append(&mut sep2);
    let mut cs = u64_to_dec(count);
    r.append(&mut cs);
    r.push(0x0a);
    proof {
        assert(r@ =~= mask_report_line_spec(m@, count as int, processed as int, sep));
    }
    r
}

/// Sum of the truncated percentages of a list of bucket counts.
pub open spec fn percent_sum(s: Seq<u64>, processed: int) -> int
    decreases s.len(),
{
    if s.len() == 0 {
        0
    } else {
        percent_sum(s.drop_last(), processed) + percent_e4_of(s.last() as int, processed)
    }
}

/// Dividing a sum is at least as large as summing the divisions, and
/// at most one larger.
proof fn lemma_div_add_bounds(a: int, b: int, p: int)
    requires
        p > 0,
        a >= 0,
        b >= 0,
    ensures
        a / p + b / p <= (a + b) / p <= a / p + b / p + 1,
{
    vstd::arithmetic::div_mod::lemma_fundamental_div_mod(a, p);
    vstd::arithmetic::div_mod::lemma_fundamental_div_mod(b, p);
    vstd::arithmetic::div_mod::lemma_mod_pos_bound(a, p);
    vstd::arithmetic::div_mod::lemma_mod_pos_bound(b, p);
    let x = a / p;
    let y = b / p;
    let q = x + y;
    let r = a % p + b % p;
    assert(a == p * x + a % p);
    assert(b == p * y + b % p);
    assert(a + b == q * p + r) by (nonlinear_arith)
        requires
            a == p * x + a % p,
            b == p * y + b % p,
            q == x + y,
            r == a % p + b % p,
    ;
    if r < p {
        vstd::arithmetic::div_mod::lemma_fundamental_div_mod_converse(a + b, p, q, r);
    } else {
        assert(a + b == (q + 1) * p + (r - p)) by (nonlinear_arith)
            requires
                a + b == q * p + r,
        ;
        vstd::arithmetic::div_mod::lemma_fundamental_div_mod_converse(a + b, p, q + 1, r - p);
    }
}

/// The truncated percentages of a bucket list stay within the list's
/// length of the exact value.
proof fn lemma_percent_sum_bounds(s: Seq<u64>, processed: int)
    requires
        processed > 0,
    ensures
        percent_sum(s, processed) <= seq_sum(s, crate::statsgen::as_int()) * 1000000 / processed,
        percent_sum(s, processed) >= seq_sum(s, crate::statsgen::as_int()) * 1000000 / processed
            - s.len(),
    decreases s.len(),
{
    let f = crate::statsgen::as_int();
    if s.len() == 0 {
    } else {
        lemma_percent_sum_bounds(s.drop_last(), processed);
        crate::aggregate::lemma_seq_sum_nonneg(s.drop_last(), f);
        let a = seq_sum(s.drop_last(), f) * 1000000;
        let b = (s.last() as int) * 1000000;
        lemma_div_add_bounds(a, b, processed);
        assert(seq_sum(s, f) == seq_sum(s.drop_last(), f) + (s.last() as int));
        assert(seq_sum(s, f) * 1000000 == a + b);
        assert(percent_sum(s, processed) == percent_sum(s.drop_last(), processed) + b / processed);
        assert(percent_sum(s.drop_last(), processed) <= a / processed);
        assert(percent_sum(s.drop_last(), processed) >= a / processed - s.drop_last().len());
        assert((a + b) / processed <= a / processed + b / processed + 1);
        assert(a / processed + b / processed <= (a + b) / processed);
        assert(percent_sum(s, processed) >= (a + b) / processed - s.len());
        assert(seq_sum(s, f) * 1000000 / processed == (a + b) / processed);
    }
}

/// Over the buckets of any frequency table whose counts sum to the
/// number of processed lines, the truncated percentages sum to 100%
/// less at most one truncation loss per bucket: the sum lies in
/// [1000000 - buckets, 1000000] ten-thousandths of one percent.
pub proof fn lemma_percent_sum_near_total(s: Seq<u64>, processed: int)
    requires
        processed > 0,
        seq_sum(s, crate::statsgen::as_int()) == processed,
    ensures
        1000000 - s.len() <= percent_sum(s, processed) <= 1000000,
{
    lemma_percent_sum_bounds(s, processed);
    assert(processed * 1000000 / processed == 1000000) by (nonlinear_arith)
        requires
            processed > 0,
    ;
}


/// The fixed label of a simple-mask class code; codes outside the
/// five labelled values contribute nothing.
pub open spec fn smask_label(c: u8) -> Seq<u8> {
    if c == 1 {
        seq![0x73u8, 0x74u8, 0x72u8, 0x69u8, 0x6eu8, 0x67u8]
    } else if c == 4 {
        seq![0x64u8, 0x69u8, 0x67u8, 0x69u8, 0x74u8]
    } else if c == 8 {
        seq![0x73u8, 0x70u8, 0x65u8, 0x63u8, 0x69u8, 0x61u8, 0x6cu8]
    } else if c == 16 {
        seq![0x62u8, 0x69u8, 0x6eu8, 0x61u8, 0x72u8, 0x79u8]
    } else if c == 255 {
        seq![0x6fu8, 0x74u8, 0x68u8, 0x65u8, 0x72u8, 0x6du8, 0x61u8, 0x73u8, 0x6bu8]
    } else {
        Seq::empty()
    }
}

/// The rendering of a whole simple mask: the labels of its class
/// codes, concatenated without separator.
pub open spec fn smask_render(s: Seq<u8>) -> Seq<u8>
    decreases s.len(),
{
    if s.len() == 0 {
        Seq::empty()
    } else {
        smask_render(s.drop_last()) + smask_label(s.last())
    }
}

/// The label bytes of one simple-mask class code.
fn smask_label_bytes(c: u8) -> (r: Vec<u8>)
    ensures
        r@ == smask_label(c),
{
    let mut r: Vec<u8> = Vec::new();
    if c == 1 {
        r.push(0x73);
        r.push(0x74);
        r.push(0x72);
        r.push(0x69);
        r.push(0x6e);
        r.push(0x67);
    } else if c == 4 {
        r.push(0x64);
        r.push(0x69);
        r.push(0x67);
        r.push(0x69);
        r.push(0x74);
    } else if c == 8 {
        r.push(0x73);
        r.push(0x70);
        r.push(0x65);
        r.push(0x63);
        r.push(0x69);
        r.push(0x61);
        r.push(0x6c);
    } else if c == 16 {
        r.push(0x62);
        r.push(0x69);
        r.push(0x6e);
        r.push(0x61);
        r.push(0x72);
        r.push(0x79);
    } else if c == 255 {
        r.push(0x6f);
        r.push(0x74);
        r.push(0x68);
        r.push(0x65);
        r.push(0x72);
        r.push(0x6d);
        r.push(0x61);
        r.push(0x73);
        r.push(0x6b);
    }
    proof {
        assert(r@ =~= smask_label(c));
    }
    r
}

/// Renders a simple mask as the concatenation of its class labels.
pub fn render_simple_mask(sm: &Vec<u8>) -> (r: Vec<u8>)
    ensures
        r@ == smask_render(sm@),
{
    let mut r: Vec<u8> = Vec::new();
    let mut i: usize = 0;
    while i < sm.len()
        invariant
            i <= sm@.len(),
            r@ == smask_render(sm@.take(i as int)),
        decreases sm@.len() - i,
    {
        proof {
            assert(sm@.take(i + 1).drop_last() =~= sm@.take(i as int));
            assert(sm@.take(i + 1).last() == sm@[i as int]);
        }
        let mut label = smask_label_bytes(sm[i]);
        r.append(&mut label);
        i += 1;
    }
    proof {
        assert(sm@.take(sm@.len() as int) =~= sm@);
    }
    r
}

/// One record of the sorted c-gram report: the c-gram, hex-wrapped if
/// it holds non-printable bytes, a tab, its count and a newline.
pub open spec fn cgram_report_line_spec(gram: Seq<u8>, count: int) -> Seq<u8> {
    encode_spec(gram) + seq![0x09u8] + dec_str(count as nat) + seq![0x0au8]
}

/// Renders one record of the sorted c-gram report.
pub fn cgram_report_line(gram: Vec<u8>, count: u64) -> (r: Vec<u8>)
    requires
        gram@.len() <= 0xffff,
    ensures
        r@ == cgram_report_line_spec(gram@, count as int),
{
    let ghost g = gram@;
    let mut r: Vec<u8> = Vec::new();
    encode_hex_if_needed(gram, &mut r);
    r.push(0x09);
    let mut cs = u64_to_dec(count);
    r.append(&mut cs);
    r.push(0x0a);
    proof {
        assert(r@ =~= cgram_report_line_spec(g, count as int));
    }
    r
}

/// The packed entry stored for a simple mask reports exactly the
/// occurrence count of the mask among the accepted lines and the true
/// minimum and maximum of their logical lengths.
pub proof fn lemma_simple_mask_entry_exact(acc: StatsAccumulator, sm: Seq<u8>)
    requires
        acc.wf(),
        acc.simple_masks@.dom().contains(sm),
    ensures
        crate::aggregate::entry_count(acc.simple_masks@[sm]) == crate::statsgen::occ_smask(
            acc.history@,
            sm,
        ),
        crate::aggregate::entry_min(acc.simple_masks@[sm]) == crate::statsgen::min_len_matching(
            acc.history@,
            crate::statsgen::smask_pred(sm),
        ),
        crate::aggregate::entry_max(acc.simple_masks@[sm]) == crate::statsgen::max_len_matching(
            acc.history@,
            crate::statsgen::smask_pred(sm),
        ),
{
    let h = acc.history@;
    let p = crate::statsgen::smask_pred(sm);
    crate::statsgen::lemma_count_matching_le_len(h, p);
    assert(forall|i: int| 0 <= i < h.len() ==> (#[trigger] h[i]).len() <= 0xffff);
    crate::statsgen::lemma_min_max_matching_bounds(h, p);
    crate::aggregate::lemma_packed_entry_roundtrip(
        crate::statsgen::occ_smask(h, sm) as u32,
        crate::statsgen::min_len_matching(h, p) as u16,
        crate::statsgen::max_len_matching(h, p) as u16,
    );
}

/// The packed entry stored for a charset union reports exactly the
/// occurrence count of the union among the accepted lines and the true
/// minimum and maximum of their logical lengths.
pub proof fn lemma_charset_entry_exact(acc: StatsAccumulator, c: int)
    requires
        acc.wf(),
        0 <= c < 32,
    ensures
        crate::aggregate::entry_count(acc.charsets@[c]) == crate::statsgen::occ_charset(
            acc.history@,
            c as u8,
        ),
        crate::aggregate::entry_min(acc.charsets@[c]) == crate::statsgen::min_len_matching(
            acc.history@,
            crate::statsgen::charset_pred(c as u8),
        ),
        crate::aggregate::entry_max(acc.charsets@[c]) == crate::statsgen::max_len_matching(
            acc.history@,
            crate::statsgen::charset_pred(c as u8),
        ),
{
    let h = acc.history@;
    let p = crate::statsgen::charset_pred(c as u8);
    crate::statsgen::lemma_count_matching_le_len(h, p);
    assert(forall|i: int| 0 <= i < h.len() ==> (#[trigger] h[i]).len() <= 0xffff);
    crate::statsgen::lemma_min_max_matching_bounds(h, p);
    crate::aggregate::lemma_packed_entry_roundtrip(
        crate::statsgen::occ_charset(h, c as u8) as u32,
        crate::statsgen::min_len_matching(h, p) as u16,
        crate::statsgen::max_len_matching(h, p) as u16,
    );
}

/// Over a materialization of the detailed-mask table of a well-formed
/// accumulator, the truncated percentages sum to 100% within one
/// truncation loss per bucket.
pub proof fn lemma_mask_percents_near_total(acc: StatsAccumulator, pairs: Seq<KeyCount>)
    requires
        acc.wf(),
        acc.processed > 0,
        pairs.len() == acc.masks@.dom().len(),
        forall|i: int|
            0 <= i < pairs.len() ==> acc.masks@.dom().contains((#[trigger] pairs[i]).key@)
                && acc.masks@[pairs[i].key@] == pairs[i].value,
        forall|i: int, j: int|
            0 <= i < j < pairs.len() ==> (#[trigger] pairs[i]).key@ != (#[trigger] pairs[j]).key@,
        forall|k: Seq<u8>|
            acc.masks@.dom().contains(k) ==> exists|i: int|
                0 <= i < pairs.len() && (#[trigger] pairs[i]).key@ == k,
    ensures
        1000000 - pairs.len() <= percent_sum(values_of(pairs), acc.processed as int) <= 1000000,
{
    lemma_pairs_sum(pairs, acc.masks@, as_int());
    lemma_percent_sum_near_total(values_of(pairs), acc.processed as int);
}

} // verus!
