//! Charset-run segmentation: a line splits into maximal runs of bytes
//! sharing one charset class; runs are either streamed out directly or
//! folded into a frequency table.

use vstd::prelude::*;
use crate::aggregate::ByteMap;
use crate::classes::{char2bitmap, char2smask, charset_bit, simple_class, BIT_BINARY};
use crate::codec::{clone_bytes, hex_wrapped};
use crate::hex::{hex_encode_bytes, hex_encode_seq};
use crate::statsgen::{count_matching, lemma_count_matching_le_len, lemma_count_matching_push};

verus! {

/// The classification a run is built from: the charset bitmask, or the
/// case-insensitive simple class when case is ignored.
pub open spec fn run_class(b: u8, ignore_case: bool) -> u8 {
    if ignore_case {
        simple_class(b)
    } else {
        charset_bit(b)
    }
}

/// The views of a sequence of byte vectors.
pub open spec fn views_of(rs: Seq<Vec<u8>>) -> Seq<Seq<u8>> {
    rs.map_values(|v: Vec<u8>| v@)
}

/// The run segmentation of a line: consecutive bytes of equal class
/// group into one run; a class change closes the run.
pub open spec fn runs_spec(s: Seq<u8>, ignore_case: bool) -> Seq<Seq<u8>>
    decreases s.len(),
{
    if s.len() == 0 {
        Seq::empty()
    } else {
        let rest = runs_spec(s.drop_last(), ignore_case);
        let b = s.last();
        if rest.len() > 0 && run_class(rest.last().last(), ignore_case) == run_class(
            b,
            ignore_case,
        ) {
            rest.update(rest.len() - 1, rest.last().push(b))
        } else {
            rest.push(seq![b])
        }
    }
}

/// Every run is non-empty and no longer than the line itself, and
/// there are no more runs than bytes.
pub proof fn lemma_runs_bounds(s: Seq<u8>, ignore_case: bool)
    ensures
        forall|i: int|
            0 <= i < runs_spec(s, ignore_case).len() ==> 0 < (#[trigger] runs_spec(
                s,
                ignore_case,
            )[i]).len() <= s.len(),
        runs_spec(s, ignore_case).len() <= s.len(),
    decreases s.len(),
{
    if s.len() > 0 {
        lemma_runs_bounds(s.drop_last(), ignore_case);
        let rest = runs_spec(s.drop_last(), ignore_case);
        let rr = runs_spec(s, ignore_case);
        assert forall|i: int| 0 <= i < rr.len() implies 0 < (#[trigger] rr[i]).len() <= s.len() by {
            if rest.len() > 0 && run_class(rest.last().last(), ignore_case) == run_class(
                s.last(),
                ignore_case,
            ) {
                if i < rest.len() - 1 {
                    assert(rr[i] == rest[i]);
                } else {
                    assert(rr[i] == rest.last().push(s.last()));
                    assert(rest[rest.len() - 1].len() <= s.drop_last().len());
                }
            } else {
                if i < rest.len() {
                    assert(rr[i] == rest[i]);
                } else {
                    assert(rr[i] =~= seq![s.last()]);
                }
            }
        }
    }
}

/// The runs of a line are a genuine run segmentation: each run is
/// non-empty and class-constant, adjacent runs have different classes,
/// and the concatenation of all runs restores the line.
pub proof fn lemma_runs_correct(s: Seq<u8>, ignore_case: bool)
    ensures
        runs_spec(s, ignore_case).flatten_alt() == s,
        forall|i: int|
            0 <= i < runs_spec(s, ignore_case).len() ==> (#[trigger] runs_spec(
                s,
                ignore_case,
            )[i]).len() > 0,
        forall|i: int, j: int|
            0 <= i < runs_spec(s, ignore_case).len() && 0 <= j < runs_spec(s, ignore_case)[i].len()
                ==> run_class(#[trigger] runs_spec(s, ignore_case)[i][j], ignore_case) == run_class(
                runs_spec(s, ignore_case)[i][0],
                ignore_case,
            ),
        forall|i: int|
            0 <= i < runs_spec(s, ignore_case).len() - 1 ==> run_class(
                (#[trigger] runs_spec(s, ignore_case)[i])[0],
                ignore_case,
            ) != run_class(runs_spec(s, ignore_case)[i + 1][0], ignore_case),
    decreases s.len(),
{
    let rr = runs_spec(s, ignore_case);
    if s.len() == 0 {
        assert(rr.flatten_alt() =~= s);
    } else {
        lemma_runs_correct(s.drop_last(), ignore_case);
        let rest = runs_spec(s.drop_last(), ignore_case);
        let b = s.last();
        if rest.len() > 0 && run_class(rest.last().last(), ignore_case) == run_class(
            b,
            ignore_case,
        ) {
            let grown = rest.last().push(b);
            assert(rr == rest.update(rest.len() - 1, grown));
            assert(rr.drop_last() =~= rest.drop_last());
            assert(rr.last() == grown);
            assert(rr.flatten_alt() == rr.drop_last().flatten_alt() + rr.last());
            assert(rest.flatten_alt() == rest.drop_last().flatten_alt() + rest.last());
            assert(rr.flatten_alt() =~= s) by {
                assert(rest.drop_last().flatten_alt() + rest.last() == s.drop_last());
                assert(rr.flatten_alt() == rest.drop_last().flatten_alt() + (rest.last() + seq![
                    b,
                ])) by {
                    assert(grown =~= rest.last() + seq![b]);
                }
                assert(rest.drop_last().flatten_alt() + (rest.last() + seq![b]) =~= (
                rest.drop_last().flatten_alt() + rest.last()) + seq![b]);
            }
            assert forall|i: int, j: int|
                0 <= i < rr.len() && 0 <= j < rr[i].len() implies run_class(
                #[trigger] rr[i][j],
                ignore_case,
            ) == run_class(rr[i][0], ignore_case) by {
                if i < rr.len() - 1 {
                    assert(rr[i] == rest[i]);
                } else {
                    assert(rr[i] == grown);
                    assert(grown[0] == rest.last()[0]);
                    if j < grown.len() - 1 {
                        assert(grown[j] == rest.last()[j]);
                        assert(run_class(rest.last()[j], ignore_case) == run_class(
                            rest.last()[0],
                            ignore_case,
                        ));
                    } else {
                        assert(grown[j] == b);
                        assert(run_class(rest.last().last(), ignore_case) == run_class(
                            rest.last()[0],
                            ignore_case,
                        ));
                    }
                }
            }
            assert forall|i: int| 0 <= i < rr.len() - 1 implies run_class(
                (#[trigger] rr[i])[0],
                ignore_case,
            ) != run_class(rr[i + 1][0], ignore_case) by {
                assert(rr[i] == rest[i]);
                if i + 1 < rr.len() - 1 {
                    assert(rr[i + 1] == rest[i + 1]);
                } else {
                    assert(rr[i + 1] == grown);
                    assert(grown[0] == rest[i + 1][0]);
                }
            }
        } else {
            assert(rr == rest.push(seq![b]));
            assert(rr.drop_last() =~= rest);
            assert(rr.flatten_alt() == rest.flatten_alt() + seq![b]);
            assert(rr.flatten_alt() =~= s);
            assert forall|i: int, j: int|
                0 <= i < rr.len() && 0 <= j < rr[i].len() implies run_class(
                #[trigger] rr[i][j],
                ignore_case,
            ) == run_class(rr[i][0], ignore_case) by {
                if i < rr.len() - 1 {
                    assert(rr[i] == rest[i]);
                } else {
                    assert(rr[i] =~= seq![b]);
                }
            }
            assert forall|i: int| 0 <= i < rr.len() - 1 implies run_class(
                (#[trigger] rr[i])[0],
                ignore_case,
            ) != run_class(rr[i + 1][0], ignore_case) by {
                assert(rr[i] == rest[i]);
                if i + 1 < rr.len() - 1 {
                    assert(rr[i + 1] == rest[i + 1]);
                } else {
                    assert(rr[i + 1] =~= seq![b]);
                    assert(rest.len() > 0);
                    assert(i == rest.len() - 1);
                    assert(run_class(rest.last().last(), ignore_case) != run_class(
                        b,
                        ignore_case,
                    ));
                    assert(run_class(rest.last()[0], ignore_case) == run_class(
                        rest.last().last(),
                        ignore_case,
                    ));
                }
            }
        }
    }
}

/// Looks up the classification a run is built from.
pub fn classify(b: u8, ignore_case: bool) -> (r: u8)
    ensures
        r == run_class(b, ignore_case),
{
    if ignore_case {
        char2smask(b)
    } else {
        char2bitmap(b)
    }
}

/// Splits a line into its charset runs, in order.
pub fn split_runs(line: &Vec<u8>, ignore_case: bool) -> (r: Vec<Vec<u8>>)
    ensures
        views_of(r@) == runs_spec(line@, ignore_case),
{
    let mut out: Vec<Vec<u8>> = Vec::new();
    let mut cur: Vec<u8> = Vec::new();
    let mut i: usize = 0;
    while i < line.len()
        invariant
            i <= line@.len(),
            i == 0 ==> out@.len() == 0 && cur@.len() == 0,
            i > 0 ==> cur@.len() > 0 && views_of(out@).push(cur@) == runs_spec(
                line@.take(i as int),
                ignore_case,
            ),
        decreases line@.len() - i,
    {
        let b = line[i];
        proof {
            assert(line@.take(i + 1).drop_last() =~= line@.take(i as int));
            assert(line@.take(i + 1).last() == line@[i as int]);
        }
        if cur.len() == 0 {
            cur.push(b);
            proof {
                assert(i == 0);
                assert(runs_spec(line@.take(i as int), ignore_case) =~= Seq::empty());
                assert(cur@ =~= seq![b]);
                assert(views_of(out@) =~= Seq::empty());
                assert(runs_spec(line@.take(i + 1), ignore_case) =~= Seq::empty().push(seq![b]));
                assert(views_of(out@).push(cur@) =~= Seq::empty().push(seq![b]));
            }
        } else {
            let lastb = cur[cur.len() - 1];
            let ghost rest = runs_spec(line@.take(i as int), ignore_case);
            proof {
                assert(rest.last() == cur@);
                assert(rest.last().last() == lastb);
            }
            if classify(lastb, ignore_case) == classify(b, ignore_case) {
                cur.push(b);
                proof {
                    assert(runs_spec(line@.take(i + 1), ignore_case) == rest.update(
                        rest.len() - 1,
                        rest.last().push(b),
                    ));
                    assert(views_of(out@).push(cur@) =~= rest.update(
                        rest.len() - 1,
                        rest.last().push(b),
                    ));
                }
            } else {
                let finished = cur;
                out.push(finished);
                cur = Vec::new();
                cur.push(b);
                proof {
                    assert(runs_spec(line@.take(i + 1), ignore_case) == rest.push(seq![b]));
                    assert(views_of(out@) =~= rest);
                    assert(cur@ =~= seq![b]);
                    assert(views_of(out@).push(cur@) =~= rest.push(seq![b]));
                }
            }
        }
        i += 1;
    }
    proof {
        assert(line@.take(line@.len() as int) =~= line@);
    }
    if cur.len() > 0 {
        let finished = cur;
        out.push(finished);
        proof {
            assert(views_of(out@) =~= runs_spec(line@, ignore_case));
        }
    } else {
        proof {
            assert(runs_spec(line@, ignore_case) =~= views_of(out@));
        }
    }
    out
}

/// True iff the line holds an uppercase ASCII letter.
pub open spec fn contains_upper(s: Seq<u8>) -> bool {
    exists|i: int| 0 <= i < s.len() && 0x41 <= (#[trigger] s[i]) <= 0x5a
}

/// ASCII lowercasing: uppercase letters gain 0x20, all other bytes are
/// kept.
pub open spec fn ascii_lower_seq(s: Seq<u8>) -> Seq<u8> {
    s.map_values(
        |b: u8|
            if 0x41 <= b <= 0x5a {
                (b + 0x20) as u8
            } else {
                b
            },
    )
}

/// Reports whether the line holds an uppercase ASCII letter.
pub fn contains_uppercase(line: &Vec<u8>) -> (r: bool)
    ensures
        r == contains_upper(line@),
{
    let mut i: usize = 0;
    while i < line.len()
        invariant
            i <= line@.len(),
            forall|j: int| 0 <= j < i ==> !(0x41 <= (#[trigger] line@[j]) <= 0x5a),
        decreases line@.len() - i,
    {
        let b = line[i];
        if 0x41 <= b && b <= 0x5a {
            return true;
        }
        i += 1;
    }
    false
}

/// Lowercases the ASCII letters of a line.
pub fn ascii_lowercase(line: &Vec<u8>) -> (r: Vec<u8>)
    ensures
        r@ == ascii_lower_seq(line@),
{
    let mut r: Vec<u8> = Vec::new();
    let mut i: usize = 0;
    while i < line.len()
        invariant
            i <= line@.len(),
            r@.len() == i,
            forall|j: int|
                0 <= j < i ==> r@[j] == (if 0x41 <= (#[trigger] line@[j]) <= 0x5a {
                    (line@[j] + 0x20) as u8
                } else {
                    line@[j]
                }),
        decreases line@.len() - i,
    {
        let b = line[i];
        if 0x41 <= b && b <= 0x5a {
            r.push(b + 0x20);
        } else {
            r.push(b);
        }
        i += 1;
    }
    proof {
        assert(r@ =~= ascii_lower_seq(line@));
    }
    r
}

/// The output lines one run produces when streaming: a binary run is
/// hex-wrapped; any other run is written as-is, followed, under case
/// normalization, by a lowercased copy when it holds an uppercase
/// letter. Every line ends in a newline byte.
pub open spec fn run_lines_spec(run: Seq<u8>, ignore_case: bool, normalize: bool) -> Seq<Seq<u8>> {
    if run.len() > 0 && run_class(run[0], ignore_case) == BIT_BINARY {
        seq![hex_wrapped(hex_encode_seq(run)) + seq![0x0au8]]
    } else {
        if normalize && contains_upper(run) {
            seq![run + seq![0x0au8], ascii_lower_seq(run) + seq![0x0au8]]
        } else {
            seq![run + seq![0x0au8]]
        }
    }
}

/// The output lines of a whole run list, in order.
pub open spec fn lines_for_runs(rs: Seq<Seq<u8>>, ignore_case: bool, normalize: bool) -> Seq<
    Seq<u8>,
>
    decreases rs.len(),
{
    if rs.len() == 0 {
        Seq::empty()
    } else {
        lines_for_runs(rs.drop_last(), ignore_case, normalize) + run_lines_spec(
            rs.last(),
            ignore_case,
            normalize,
        )
    }
}

/// Renders the streaming c-gram output of one line: each of its runs
/// in order, hex-wrapped when binary, with lowercased copies of
/// uppercase-holding runs when case normalization is on.
pub fn cgram_stream_lines(line: &Vec<u8>, ignore_case: bool, normalize: bool) -> (r: Vec<Vec<u8>>)
    requires
        line@.len() <= 0xffff,
    ensures
        views_of(r@) == lines_for_runs(runs_spec(line@, ignore_case), ignore_case, normalize),
{
    let runs = split_runs(line, ignore_case);
    let ghost rr = runs_spec(line@, ignore_case);
    proof {
        lemma_runs_bounds(line@, ignore_case);
    }
    let mut out: Vec<Vec<u8>> = Vec::new();
    let mut i: usize = 0;
    while i < runs.len()
        invariant
            i <= runs@.len(),
            views_of(runs@) == rr,
            forall|j: int| 0 <= j < rr.len() ==> 0 < (#[trigger] rr[j]).len() <= line@.len(),
            line@.len() <= 0xffff,
            views_of(out@) == lines_for_runs(rr.take(i as int), ignore_case, normalize),
        decreases runs@.len() - i,
    {
        let run = &runs[i];
        proof {
            assert(run@ == rr[i as int]);
            assert(rr.take(i + 1).drop_last() =~= rr.take(i as int));
            assert(rr.take(i + 1).last() == rr[i as int]);
        }
        let ghost prev = views_of(out@);
        let cls = classify(run[0], ignore_case);
        if cls == BIT_BINARY {
            let hexed = hex_encode_bytes(run);
            let mut ln: Vec<u8> = Vec::new();
            ln.push(0x24);
            ln.push(0x48);
            ln.push(0x45);
            ln.push(0x58);
            ln.push(0x5b);
            let mut payload = hexed;
            ln.append(&mut payload);
            ln.push(0x5d);
            ln.push(0x0a);
            proof {
                assert(ln@ =~= hex_wrapped(hex_encode_seq(run@)) + seq![0x0au8]);
            }
            out.push(ln);
            proof {
                assert(views_of(out@) =~= prev.push(
                    hex_wrapped(hex_encode_seq(run@)) + seq![0x0au8],
                ));
                assert(prev.push(hex_wrapped(hex_encode_seq(run@)) + seq![0x0au8]) =~= prev
                    + run_lines_spec(run@, ignore_case, normalize));
            }
        } else {
            let mut ln = clone_bytes(run);
            ln.push(0x0a);
            proof {
                assert(ln@ =~= run@ + seq![0x0au8]);
            }
            out.push(ln);
            if normalize && contains_uppercase(run) {
                let mut low = ascii_lowercase(run);
                low.push(0x0a);
                proof {
                    assert(low@ =~= ascii_lower_seq(run@) + seq![0x0au8]);
                }
                out.push(low);
                proof {
                    assert(views_of(out@) =~= prev + run_lines_spec(
                        run@,
                        ignore_case,
                        normalize,
                    ));
                }
            } else {
                proof {
                    assert(views_of(out@) =~= prev + run_lines_spec(
                        run@,
                        ignore_case,
                        normalize,
                    ));
                }
            }
        }
        i += 1;
    }
    proof {
        assert(rr.take(rr.len() as int) =~= rr);
    }
    out
}

/// Lines equal to `k`.
pub open spec fn eq_pred(k: Seq<u8>) -> spec_fn(Seq<u8>) -> bool {
    |l: Seq<u8>| l == k
}

/// How often `k` was added to a c-gram counter.
pub open spec fn occ_key(a: Seq<Seq<u8>>, k: Seq<u8>) -> nat {
    count_matching(a, eq_pred(k))
}

/// The keys one run contributes when aggregating: the run itself and,
/// under case normalization, a lowercased copy when it holds an
/// uppercase letter.
pub open spec fn run_keys_spec(run: Seq<u8>, normalize: bool) -> Seq<Seq<u8>> {
    if normalize && contains_upper(run) {
        seq![run, ascii_lower_seq(run)]
    } else {
        seq![run]
    }
}

/// The keys a whole run list contributes, in order.
pub open spec fn keys_for_runs(rs: Seq<Seq<u8>>, normalize: bool) -> Seq<Seq<u8>>
    decreases rs.len(),
{
    if rs.len() == 0 {
        Seq::empty()
    } else {
        keys_for_runs(rs.drop_last(), normalize) + run_keys_spec(rs.last(), normalize)
    }
}

/// The c-gram frequency counter used when sorted output is requested.
/// `added` is the ghost record of every key added, in order.
pub struct CgramCounter {
    /// Run bytes -> occurrence count.
    pub counts: ByteMap,
    /// How many keys were added in total.
    pub total: u64,
    /// Every key added, in order.
    pub added: Ghost<Seq<Seq<u8>>>,
}

impl CgramCounter {
    /// Every count equals the number of times its key was added.
    pub open spec fn wf(self) -> bool {
        &&& self.counts@.dom().finite()
        &&& self.total == self.added@.len()
        &&& forall|k: Seq<u8>|
            #[trigger] self.counts@.dom().contains(k) ==> self.counts@[k] == occ_key(
                self.added@,
                k,
            )
        &&& forall|k: Seq<u8>| #[trigger] occ_key(self.added@, k) > 0 ==> self.counts@.dom().contains(k)
    }

    /// Creates an empty counter.
    pub fn new() -> (r: CgramCounter)
        ensures
            r.wf(),
            r.added@ == Seq::<Seq<u8>>::empty(),
            r.total == 0,
    {
        let r = CgramCounter { counts: ByteMap::new(), total: 0, added: Ghost(Seq::empty()) };
        proof {
            assert(r.counts@.dom() =~= Set::<Seq<u8>>::empty());
        }
        r
    }

    /// Adds one key.
    pub fn bump(&mut self, key: Vec<u8>)
        requires
            old(self).wf(),
            old(self).total < 0xffff_ffff_ffff_ffffu64,
        ensures
            final(self).wf(),
            final(self).added@ == old(self).added@.push(key@),
            final(self).total == old(self).total + 1,
    {
        let ghost a = self.added@;
        let ghost k0 = key@;
        let ghost a2 = a.push(k0);
        let ghost old_counts = self.counts@;
        let cur: u64 = match self.counts.get_value(&key) {
            Some(c) => c,
            None => 0,
        };
        proof {
            assert(occ_key(a, k0) > 0 ==> old_counts.dom().contains(k0));
            assert(cur == occ_key(a, k0));
            lemma_count_matching_le_len(a, eq_pred(k0));
        }
        self.counts.set_value(key, cur + 1);
        self.total = self.total + 1;
        self.added = Ghost(a2);
        proof {
            assert forall|k: Seq<u8>| #[trigger] self.counts@.dom().contains(k) implies self
                .counts@[k] == occ_key(a2, k) by {
                lemma_count_matching_push(a, eq_pred(k), k0);
                if k != k0 {
                    assert(old_counts.dom().contains(k));
                }
            }
            assert forall|k: Seq<u8>| #[trigger] occ_key(a2, k) > 0 implies self
                .counts@.dom().contains(k) by {
                lemma_count_matching_push(a, eq_pred(k), k0);
                if k != k0 {
                    assert(occ_key(a, k) > 0);
                }
            }
        }
    }

    /// Adds every run of a line, with lowercased copies of
    /// uppercase-holding runs when case normalization is on.
    pub fn add_line_runs(&mut self, line: &Vec<u8>, ignore_case: bool, normalize: bool)
        requires
            old(self).wf(),
            old(self).total + 2 * line@.len() <= 0xffff_ffff_ffff_ffffu64,
        ensures
            final(self).wf(),
            final(self).added@ == old(self).added@ + keys_for_runs(
                runs_spec(line@, ignore_case),
                normalize,
            ),
    {
        let runs = split_runs(line, ignore_case);
        let ghost rr = runs_spec(line@, ignore_case);
        let ghost a0 = self.added@;
        proof {
            lemma_runs_bounds(line@, ignore_case);
            assert(a0 + keys_for_runs(rr.take(0), normalize) =~= a0);
        }
        let mut i: usize = 0;
        while i < runs.len()
            invariant
                i <= runs@.len(),
                views_of(runs@) == rr,
                rr.len() <= line@.len(),
                self.wf(),
                self.added@ == a0 + keys_for_runs(rr.take(i as int), normalize),
                self.total <= a0.len() + 2 * i,
                a0.len() + 2 * line@.len() <= 0xffff_ffff_ffff_ffffu64,
            decreases runs@.len() - i,
        {
            let ghost before = self.added@;
            proof {
                assert(rr.take(i + 1).drop_last() =~= rr.take(i as int));
                assert(rr.take(i + 1).last() == rr[i as int]);
                assert(runs@[i as int]@ == rr[i as int]);
            }
            let run_key = clone_bytes(&runs[i]);
            self.bump(run_key);
            if normalize && contains_uppercase(&runs[i]) {
                let low = ascii_lowercase(&runs[i]);
                self.bump(low);
                proof {
                    assert(self.added@ =~= before + run_keys_spec(rr[i as int], normalize));
                }
            } else {
                proof {
                    assert(self.added@ =~= before + run_keys_spec(rr[i as int], normalize));
                }
            }
            proof {
                assert(self.added@ =~= a0 + keys_for_runs(rr.take(i + 1), normalize));
            }
            i += 1;
        }
        proof {
            assert(rr.take(rr.len() as int) =~= rr);
        }
    }
}

} // verus!
