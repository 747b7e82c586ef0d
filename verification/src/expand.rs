//! Expansion of alignment-match operations.
//!
//! Expanding a CIGAR string splits each alignment-match operation into
//! sequence-match and sequence-mismatch runs by comparing the reference bytes
//! against the read bytes, and passes every other operation through
//! unchanged.

use vstd::prelude::*;

use crate::error::CigarError;
use crate::{counts_fit, tok_head, tok_rest, CigarElement, CigarIterator, CigarOp};

verus! {

/// Whether an operation advances the read cursor during expansion.
pub open spec fn exp_read_advances(op: CigarOp) -> bool {
    match op {
        CigarOp::Match => true,
        CigarOp::Insertion => true,
        CigarOp::Deletion => false,
        CigarOp::Skip => false,
        CigarOp::SoftClip => true,
        CigarOp::HardClip => false,
        CigarOp::Padding => false,
        CigarOp::Equal => true,
        CigarOp::Diff => true,
    }
}

/// Whether an operation advances the reference cursor during expansion.
pub open spec fn exp_ref_advances(op: CigarOp) -> bool {
    match op {
        CigarOp::Match => true,
        CigarOp::Insertion => false,
        CigarOp::Deletion => true,
        CigarOp::Skip => true,
        CigarOp::SoftClip => false,
        CigarOp::HardClip => false,
        CigarOp::Padding => true,
        CigarOp::Equal => true,
        CigarOp::Diff => true,
    }
}

/// How far a token advances the read cursor during expansion.
pub open spec fn exp_read_adv(t: CigarElement) -> int {
    if exp_read_advances(t.op) {
        t.length as int
    } else {
        0
    }
}

/// How far a token advances the reference cursor during expansion.
pub open spec fn exp_ref_adv(t: CigarElement) -> int {
    if exp_ref_advances(t.op) {
        t.length as int
    } else {
        0
    }
}

/// The per-position comparison of a reference range against a read range:
/// `Equal` where the bytes agree, `Diff` where they differ.
pub open spec fn pos_ops(r: Seq<u8>, q: Seq<u8>, refp: int, readp: int, n: nat) -> Seq<CigarOp> {
    Seq::new(n, |i: int| if r[refp + i] == q[readp + i] {
        CigarOp::Equal
    } else {
        CigarOp::Diff
    })
}

/// The length of the maximal prefix of operations equal to `o`.
pub open spec fn run_of(ops: Seq<CigarOp>, o: CigarOp) -> nat
    decreases ops.len(),
{
    if ops.len() == 0 || ops[0] != o {
        0
    } else {
        1 + run_of(ops.skip(1), o)
    }
}

/// The run-length encoding of a sequence of operations: maximal runs of one
/// operation, each as one element.
pub open spec fn rle(ops: Seq<CigarOp>) -> Seq<CigarElement>
    decreases ops.len(),
    via rle_decreases
{
    if ops.len() == 0 {
        Seq::empty()
    } else {
        let k = run_of(ops, ops[0]);
        seq![CigarElement { length: k as u32, op: ops[0] }] + rle(ops.skip(k as int))
    }
}

#[via_fn]
proof fn rle_decreases(ops: Seq<CigarOp>) {
    if ops.len() > 0 {
        lemma_run_of(ops, ops[0]);
        assert(run_of(ops, ops[0]) >= 1);
    }
}

/// Basic bounds on a run: it lies within the sequence, consists of `o`, is
/// maximal, and is non-empty exactly when the sequence starts with `o`.
proof fn lemma_run_of(ops: Seq<CigarOp>, o: CigarOp)
    ensures
        run_of(ops, o) <= ops.len(),
        forall|i: int| 0 <= i < run_of(ops, o) ==> ops[i] == o,
        run_of(ops, o) < ops.len() ==> ops[run_of(ops, o) as int] != o,
        ops.len() > 0 && ops[0] == o ==> run_of(ops, o) >= 1,
    decreases ops.len(),
{
    if ops.len() == 0 || ops[0] != o {
    } else {
        lemma_run_of(ops.skip(1), o);
        let k = run_of(ops, o);
        assert forall|i: int| 0 <= i < k implies ops[i] == o by {
            if i > 0 {
                assert(ops.skip(1)[i - 1] == ops[i]);
            }
        }
        if k < ops.len() {
            assert(ops.skip(1)[k - 1] == ops[k as int]);
        }
    }
}

/// How the run-length encoding changes when one operation is appended: the
/// last run grows by one if it is a run of the same operation, else a new
/// run of length one appears.
proof fn lemma_rle_snoc(ops: Seq<CigarOp>, o: CigarOp)
    requires
        ops.len() < u32::MAX,
    ensures
        ops.len() > 0 && ops.last() == o ==> {
            &&& rle(ops).len() > 0
            &&& rle(ops).last().op == o
            &&& rle(ops).last().length >= 1
            &&& rle(ops.push(o)) == rle(ops).drop_last().push(
                CigarElement {
                    length: (rle(ops).last().length + 1) as u32,
                    op: o,
                },
            )
        },
        !(ops.len() > 0 && ops.last() == o) ==> rle(ops.push(o)) == rle(ops) + seq![
            CigarElement { length: 1u32, op: o },
        ],
    decreases ops.len(),
{
    lemma_run_of(ops, if ops.len() > 0 {
        ops[0]
    } else {
        o
    });
    assert(rle(Seq::<CigarOp>::empty()) =~= Seq::<CigarElement>::empty());
    assert(run_of(Seq::<CigarOp>::empty(), o) == 0);
    if ops.len() == 0 {
        assert(run_of(ops.push(o), o) == 1) by {
            assert(ops.push(o)[0] == o);
            assert(ops.push(o).skip(1) =~= Seq::<CigarOp>::empty());
        }
        assert(ops.push(o).skip(1) =~= Seq::<CigarOp>::empty());
        assert(rle(ops.push(o)) =~= seq![CigarElement { length: 1u32, op: o }]);
        assert(rle(ops) + seq![CigarElement { length: 1u32, op: o }] =~= seq![
            CigarElement { length: 1u32, op: o },
        ]);
    } else {
        let c = ops[0];
        let k = run_of(ops, c);
        lemma_run_of(ops.push(o), c);
        if k == ops.len() {
            // the whole sequence is one run of c
            assert(ops.last() == c);
            if o == c {
                assert(run_of(ops.push(o), c) == ops.len() + 1) by {
                    lemma_run_all(ops.push(o), c);
                }
                assert(ops.push(o).skip(k as int + 1) =~= Seq::<CigarOp>::empty());
                assert(rle(ops.push(o)) =~= seq![
                    CigarElement { length: (k + 1) as u32, op: c },
                ]);
                assert(ops.skip(k as int) =~= Seq::<CigarOp>::empty());
                assert(rle(ops) =~= seq![CigarElement { length: k as u32, op: c }]);
                assert(rle(ops).drop_last().push(
                    CigarElement { length: (k + 1) as u32, op: c },
                ) =~= seq![CigarElement { length: (k + 1) as u32, op: c }]);
            } else {
                assert(run_of(ops.push(o), c) == k) by {
                    lemma_run_all_but_last(ops.push(o), c, k);
                }
                assert(ops.push(o).skip(k as int) =~= seq![o]);
                assert(rle(seq![o]) =~= seq![CigarElement { length: 1u32, op: o }]) by {
                    assert(run_of(seq![o], o) == 1) by {
                        assert(seq![o].skip(1) =~= Seq::<CigarOp>::empty());
                    }
                    assert(seq![o].skip(1) =~= Seq::<CigarOp>::empty());
                }
                assert(ops.skip(k as int) =~= Seq::<CigarOp>::empty());
                assert(rle(ops) =~= seq![CigarElement { length: k as u32, op: c }]);
                assert(rle(ops.push(o)) =~= rle(ops) + seq![
                    CigarElement { length: 1u32, op: o },
                ]);
            }
        } else {
            // the first run ends before the appended element
            assert(run_of(ops.push(o), c) == k) by {
                lemma_run_stops(ops.push(o), c, k);
            }
            assert(ops.push(o).skip(k as int) =~= ops.skip(k as int).push(o));
            lemma_rle_snoc(ops.skip(k as int), o);
            assert(ops.skip(k as int).len() > 0);
            assert(ops.skip(k as int).last() == ops.last());
            assert(rle(ops.skip(k as int)).len() > 0) by {
                lemma_rle_first(ops.skip(k as int));
            }
            if ops.last() == o {
                assert(rle(ops.push(o)) =~= seq![CigarElement { length: k as u32, op: c }] + rle(
                    ops.skip(k as int).push(o),
                ));
                assert(rle(ops) == seq![CigarElement { length: k as u32, op: c }] + rle(
                    ops.skip(k as int),
                ));
                assert(rle(ops).last() == rle(ops.skip(k as int)).last());
                assert(rle(ops).drop_last() =~= seq![
                    CigarElement { length: k as u32, op: c },
                ] + rle(ops.skip(k as int)).drop_last());
                assert(rle(ops.push(o)) =~= rle(ops).drop_last().push(
                    CigarElement { length: (rle(ops).last().length + 1) as u32, op: o },
                ));
            } else {
                assert(rle(ops.push(o)) =~= rle(ops) + seq![
                    CigarElement { length: 1u32, op: o },
                ]);
            }
        }
    }
}

/// A run over a uniform sequence covers it entirely.
proof fn lemma_run_all(ops: Seq<CigarOp>, o: CigarOp)
    requires
        forall|i: int| 0 <= i < ops.len() ==> ops[i] == o,
    ensures
        run_of(ops, o) == ops.len(),
    decreases ops.len(),
{
    if ops.len() > 0 {
        assert forall|i: int| 0 <= i < ops.skip(1).len() implies ops.skip(1)[i] == o by {
            assert(ops.skip(1)[i] == ops[i + 1]);
        }
        lemma_run_all(ops.skip(1), o);
    }
}

/// A run stops exactly at the first differing element.
proof fn lemma_run_stops(ops: Seq<CigarOp>, o: CigarOp, k: nat)
    requires
        k < ops.len(),
        forall|i: int| 0 <= i < k ==> ops[i] == o,
        ops[k as int] != o,
    ensures
        run_of(ops, o) == k,
    decreases k,
{
    if k == 0 {
    } else {
        assert forall|i: int| 0 <= i < k - 1 implies ops.skip(1)[i] == o by {
            assert(ops.skip(1)[i] == ops[i + 1]);
        }
        assert(ops.skip(1)[k - 1] == ops[k as int]);
        lemma_run_stops(ops.skip(1), o, (k - 1) as nat);
    }
}

/// A run over all but a different last element stops before it.
proof fn lemma_run_all_but_last(ops: Seq<CigarOp>, o: CigarOp, k: nat)
    requires
        k + 1 == ops.len(),
        forall|i: int| 0 <= i < k ==> ops[i] == o,
        ops[k as int] != o,
    ensures
        run_of(ops, o) == k,
{
    lemma_run_stops(ops, o, k);
}

/// The run-length encoding of a non-empty sequence is non-empty and starts
/// with the sequence's first operation.
proof fn lemma_rle_first(ops: Seq<CigarOp>)
    requires
        ops.len() > 0,
    ensures
        rle(ops).len() > 0,
        rle(ops)[0].op == ops[0],
{
}

/// The sum of the lengths of a sequence of elements.
pub open spec fn total_len(es: Seq<CigarElement>) -> int
    decreases es.len(),
{
    if es.len() == 0 {
        0
    } else {
        total_len(es.drop_last()) + es.last().length
    }
}

/// The sum of the lengths of the elements carrying the given operation.
pub open spec fn total_len_of(es: Seq<CigarElement>, o: CigarOp) -> int
    decreases es.len(),
{
    if es.len() == 0 {
        0
    } else {
        total_len_of(es.drop_last(), o) + (if es.last().op == o {
            es.last().length as int
        } else {
            0
        })
    }
}

/// The number of positions holding the given operation.
pub open spec fn count_op(ops: Seq<CigarOp>, o: CigarOp) -> int
    decreases ops.len(),
{
    if ops.len() == 0 {
        0
    } else {
        count_op(ops.drop_last(), o) + (if ops.last() == o {
            1int
        } else {
            0int
        })
    }
}

/// Summed lengths are never negative.
proof fn lemma_total_len_nonneg(es: Seq<CigarElement>)
    ensures
        total_len(es) >= 0,
        forall|o: CigarOp| #[trigger] total_len_of(es, o) >= 0,
    decreases es.len(),
{
    if es.len() > 0 {
        lemma_total_len_nonneg(es.drop_last());
        assert forall|o: CigarOp| #[trigger] total_len_of(es, o) >= 0 by {
            assert(total_len_of(es.drop_last(), o) >= 0);
        }
    }
}

/// The run lengths are positive, sum to the input's length, and the last
/// run carries the input's last operation.
proof fn lemma_rle_core(ops: Seq<CigarOp>)
    requires
        ops.len() <= u32::MAX,
    ensures
        total_len(rle(ops)) == ops.len(),
        forall|j: int| 0 <= j < rle(ops).len() ==> (#[trigger] rle(ops)[j]).length >= 1,
        ops.len() > 0 ==> rle(ops).len() > 0 && rle(ops).last().op == ops.last(),
    decreases ops.len(),
{
    if ops.len() > 0 {
        let front = ops.drop_last();
        let x = ops.last();
        lemma_rle_core(front);
        lemma_rle_snoc(front, x);
        assert(front.push(x) =~= ops);
        let rf = rle(front);
        let rn = rle(ops);
        if front.len() > 0 && front.last() == x {
            lemma_total_len_nonneg(rf.drop_last());
            assert(total_len(rf) == total_len(rf.drop_last()) + rf.last().length);
            assert(rf.last().length <= front.len());
            let grown = CigarElement { length: (rf.last().length + 1) as u32, op: x };
            assert(grown.length == rf.last().length + 1);
            assert(rn == rf.drop_last().push(grown));
            assert(rn.drop_last() =~= rf.drop_last());
            assert(total_len(rn) == total_len(rf.drop_last()) + grown.length);
            assert forall|j: int| 0 <= j < rn.len() implies (#[trigger] rn[j]).length >= 1 by {
                if j < rn.len() - 1 {
                    assert(rn[j] == rf[j]);
                }
            }
        } else {
            let unit = CigarElement { length: 1u32, op: x };
            assert(rn == rf + seq![unit]);
            assert(rn.drop_last() =~= rf);
            assert(rn.last() == unit);
            assert(total_len(rn) == total_len(rf) + 1);
            assert forall|j: int| 0 <= j < rn.len() implies (#[trigger] rn[j]).length >= 1 by {
                if j < rn.len() - 1 {
                    assert(rn[j] == rf[j]);
                }
            }
        }
    }
}

/// For any operation, the lengths of its runs sum to the number of positions
/// holding it.
proof fn lemma_rle_sums(ops: Seq<CigarOp>, o: CigarOp)
    requires
        ops.len() <= u32::MAX,
    ensures
        total_len_of(rle(ops), o) == count_op(ops, o),
    decreases ops.len(),
{
    if ops.len() > 0 {
        let front = ops.drop_last();
        let x = ops.last();
        lemma_rle_sums(front, o);
        lemma_rle_core(front);
        lemma_rle_snoc(front, x);
        assert(front.push(x) =~= ops);
        let rf = rle(front);
        let rn = rle(ops);
        if front.len() > 0 && front.last() == x {
            lemma_total_len_nonneg(rf.drop_last());
            assert(total_len(rf) == total_len(rf.drop_last()) + rf.last().length);
            assert(rf.last().length <= front.len());
            let grown = CigarElement { length: (rf.last().length + 1) as u32, op: x };
            assert(grown.length == rf.last().length + 1);
            assert(rn == rf.drop_last().push(grown));
            assert(rn.drop_last() =~= rf.drop_last());
            assert(total_len_of(rn, o) == total_len_of(rf.drop_last(), o) + (if x == o {
                grown.length as int
            } else {
                0
            }));
            assert(total_len_of(rf, o) == total_len_of(rf.drop_last(), o) + (if rf.last().op == o {
                rf.last().length as int
            } else {
                0
            }));
        } else {
            let unit = CigarElement { length: 1u32, op: x };
            assert(rn == rf + seq![unit]);
            assert(rn.drop_last() =~= rf);
            assert(rn.last() == unit);
        }
    }
}

/// Adjacent runs carry different operations, and every run's operation
/// occurs in the input.
#[verifier::rlimit(100)]
#[verifier::spinoff_prover]
proof fn lemma_rle_alternates(ops: Seq<CigarOp>)
    ensures
        forall|j: int|
            0 <= j && j + 1 < rle(ops).len() ==> (#[trigger] rle(ops)[j]).op != rle(ops)[j
                + 1].op,
        forall|j: int| 0 <= j < rle(ops).len() ==> ops.contains((#[trigger] rle(ops)[j]).op),
    decreases ops.len(),
{
    if ops.len() > 0 {
        let c = ops[0];
        let k = run_of(ops, c) as int;
        lemma_run_of(ops, c);
        let tail = ops.skip(k);
        lemma_rle_alternates(tail);
        let rn = rle(ops);
        let rt = rle(tail);
        assert(rn == seq![CigarElement { length: k as u32, op: c }] + rt);
        if tail.len() > 0 {
            lemma_rle_first(tail);
            assert(rt[0].op == tail[0]);
            assert(tail[0] == ops[k]);
        }
        assert forall|j: int|
            0 <= j && j + 1 < rn.len() implies (#[trigger] rn[j]).op != rn[j + 1].op by {
            if j == 0 {
                assert(rn[1] == rt[0]);
            } else {
                assert(rn[j] == rt[j - 1]);
                assert(rn[j + 1] == rt[j]);
            }
        }
        assert forall|j: int| 0 <= j < rn.len() implies ops.contains((#[trigger] rn[j]).op) by {
            if j == 0 {
                assert(ops[0] == rn[0].op);
            } else {
                assert(rn[j] == rt[j - 1]);
                let w = choose|w: int| 0 <= w < tail.len() && tail[w] == rt[j - 1].op;
                assert(ops[k + w] == tail[w]);
            }
        }
    }
}

/// The run-length encoding partitions its input: runs are non-empty, adjacent
/// runs carry different operations, every run's operation occurs in the
/// input, the run lengths sum to the input's length, and for any operation
/// the lengths of its runs sum to the number of positions holding it.
pub proof fn lemma_rle_partition(ops: Seq<CigarOp>, o: CigarOp)
    requires
        ops.len() <= u32::MAX,
    ensures
        total_len(rle(ops)) == ops.len(),
        total_len_of(rle(ops), o) == count_op(ops, o),
        forall|j: int| 0 <= j < rle(ops).len() ==> (#[trigger] rle(ops)[j]).length >= 1,
        forall|j: int|
            0 <= j && j + 1 < rle(ops).len() ==> (#[trigger] rle(ops)[j]).op != rle(ops)[j
                + 1].op,
        forall|j: int| 0 <= j < rle(ops).len() ==> ops.contains((#[trigger] rle(ops)[j]).op),
        ops.len() > 0 ==> rle(ops).len() > 0 && rle(ops).last().op == ops.last(),
{
    lemma_rle_core(ops);
    lemma_rle_sums(ops, o);
    lemma_rle_alternates(ops);
}

/// For an alignment-match operation expanded against equal-length reference
/// and read ranges, the rewritten runs consist of sequence-match and
/// sequence-mismatch operations only, alternate between the two, have
/// positive lengths summing to the operation's length, and the mismatch
/// runs' lengths sum to the number of mismatching positions.
#[verifier::rlimit(100)]
pub proof fn lemma_match_expansion(r: Seq<u8>, q: Seq<u8>, refp: int, readp: int, n: nat)
    requires
        n <= u32::MAX,
    ensures
        ({
            let ops = pos_ops(r, q, refp, readp, n);
            let es = rle(ops);
            &&& total_len(es) == n
            &&& total_len_of(es, CigarOp::Diff) == count_op(ops, CigarOp::Diff)
            &&& forall|i: int|
                0 <= i < n ==> ((#[trigger] ops[i]) == CigarOp::Diff <==> r[refp + i] != q[readp
                    + i])
            &&& forall|j: int| 0 <= j < es.len() ==> (#[trigger] es[j]).length >= 1
            &&& forall|j: int|
                0 <= j && j + 1 < es.len() ==> (#[trigger] es[j]).op != es[j + 1].op
            &&& forall|j: int|
                0 <= j < es.len() ==> (#[trigger] es[j]).op == CigarOp::Equal || es[j].op
                    == CigarOp::Diff
        }),
{
    let ops = pos_ops(r, q, refp, readp, n);
    let es = rle(ops);
    lemma_rle_partition(ops, CigarOp::Diff);
    assert forall|j: int|
        0 <= j < es.len() implies (#[trigger] es[j]).op == CigarOp::Equal || es[j].op
        == CigarOp::Diff by {
        let w = choose|w: int| 0 <= w < ops.len() && ops[w] == es[j].op;
    }
}

/// Expanding a whole CIGAR string never takes a cursor outside the machine's
/// range or a match operation outside either byte range.  Tokens after the
/// first decode error do not matter: expansion stops there.
pub open spec fn expand_fits(s: Seq<char>, refp: int, readp: int, rlen: int, qlen: int) -> bool
    decreases s.len(),
{
    if s.len() == 0 {
        true
    } else {
        match tok_head::<()>(s) {
            Err(_) => true,
            Ok(t) => {
                &&& (t.op is Match ==> readp + t.length <= qlen && refp + t.length <= rlen)
                &&& readp + exp_read_adv(t) <= usize::MAX
                &&& refp + exp_ref_adv(t) <= usize::MAX
                &&& expand_fits(
                    tok_rest(s),
                    refp + exp_ref_adv(t),
                    readp + exp_read_adv(t),
                    rlen,
                    qlen,
                )
            },
        }
    }
}

/// The expansion of a whole CIGAR string: each alignment-match token is
/// replaced by the runs of its per-position comparison, every other token is
/// passed through, and the first decode error aborts the expansion.
pub open spec fn expand_spec(s: Seq<char>, refp: int, readp: int, r: Seq<u8>, q: Seq<u8>) -> Result<
    Seq<CigarElement>,
    CigarError<()>,
>
    decreases s.len(),
{
    if s.len() == 0 {
        Ok(Seq::empty())
    } else {
        match tok_head::<()>(s) {
            Err(e) => Err(e),
            Ok(t) => {
                let here = if t.op is Match {
                    rle(pos_ops(r, q, refp, readp, t.length as nat))
                } else {
                    seq![t]
                };
                match expand_spec(
                    tok_rest(s),
                    refp + exp_ref_adv(t),
                    readp + exp_read_adv(t),
                    r,
                    q,
                ) {
                    Ok(tail) => Ok(here + tail),
                    Err(e) => Err(e),
                }
            },
        }
    }
}

/// The run finished so far while splitting a match block: a pending
/// sequence-match run, a pending sequence-mismatch run, or nothing.
spec fn pending_run(match_length: u32, mismatch_length: u32) -> Seq<CigarElement> {
    if match_length > 0 {
        seq![CigarElement { length: match_length, op: CigarOp::Equal }]
    } else if mismatch_length > 0 {
        seq![CigarElement { length: mismatch_length, op: CigarOp::Diff }]
    } else {
        Seq::empty()
    }
}

/// Expand a CIGAR string, using the reference and the read sequence to split
/// alignment-match elements into sequence-match and sequence-mismatch
/// elements.  Decoding errors abort the expansion and are returned.
pub fn expand_cigar_operations(
    reference_position: usize,
    cigar: &str,
    reference: &[u8],
    seq: &[u8],
) -> (r: Result<Vec<CigarElement>, CigarError<()>>)
    requires
        counts_fit(cigar@),
        expand_fits(
            cigar@,
            reference_position as int,
            0,
            reference@.len() as int,
            seq@.len() as int,
        ),
    ensures
        match expand_spec(cigar@, reference_position as int, 0, reference@, seq@) {
            Ok(es) => r matches Ok(v) && v@ == es,
            Err(e) => r == Err::<Vec<CigarElement>, CigarError<()>>(e),
        },
{
    let ghost s0 = cigar@;
    let ghost rp0 = reference_position as int;
    let ghost rv = reference@;
    let ghost qv = seq@;
    let rlen = reference.len();
    let qlen = seq.len();
    let mut expanded: Vec<CigarElement> = Vec::new();
    let mut ref_pos: usize = reference_position;
    let mut read_pos: usize = 0;
    let mut iter = CigarIterator::new(cigar);
    loop
        invariant
            iter.wf(),
            s0 == cigar@,
            rp0 == reference_position as int,
            rv == reference@,
            qv == seq@,
            rv.len() == rlen,
            qv.len() == qlen,
            expand_fits(iter@, ref_pos as int, read_pos as int, rv.len() as int, qv.len() as int),
            expand_spec(s0, rp0, 0, rv, qv) == (match expand_spec(
                iter@,
                ref_pos as int,
                read_pos as int,
                rv,
                qv,
            ) {
                Ok(tail) => Ok::<Seq<CigarElement>, CigarError<()>>(expanded@ + tail),
                Err(e) => Err::<Seq<CigarElement>, CigarError<()>>(e),
            }),
        ensures
            iter@.len() == 0,
            expand_spec(s0, rp0, 0, rv, qv) == (match expand_spec(
                iter@,
                ref_pos as int,
                read_pos as int,
                rv,
                qv,
            ) {
                Ok(tail) => Ok::<Seq<CigarElement>, CigarError<()>>(expanded@ + tail),
                Err(e) => Err::<Seq<CigarElement>, CigarError<()>>(e),
            }),
        decreases iter@.len(),
    {
        let ghost rem0 = iter@;
        let ghost rpos0 = ref_pos as int;
        let ghost dpos0 = read_pos as int;
        let elem = match iter.next::<()>() {
            None => {
                break;
            },
            Some(Ok(el)) => el,
            Some(Err(e)) => {
                proof {
                    assert(expand_spec(rem0, rpos0, dpos0, rv, qv) == Err::<
                        Seq<CigarElement>,
                        CigarError<()>,
                    >(e));
                }
                return Err(e);
            },
        };
        proof {
            assert(tok_head::<()>(rem0) == Ok::<CigarElement, CigarError<()>>(elem));
        }
        let ghost expanded0 = expanded@;
        let len_u = elem.length as usize;
        match elem.op {
            CigarOp::Match => {
                let ghost ops = pos_ops(rv, qv, ref_pos as int, read_pos as int, elem.length as nat);
                let ghost base = expanded@;
                let mut match_length: u32 = 0;
                let mut mismatch_length: u32 = 0;
                let mut i: usize = 0;
                loop
                    invariant
                        i <= len_u,
                        len_u == elem.length,
                        rv == reference@,
                        qv == seq@,
                        rv.len() == rlen,
                        qv.len() == qlen,
                        read_pos + len_u <= qv.len(),
                        ref_pos + len_u <= rv.len(),
                        ops == pos_ops(rv, qv, ref_pos as int, read_pos as int, len_u as nat),
                        !(match_length > 0 && mismatch_length > 0),
                        match_length <= i,
                        mismatch_length <= i,
                        (match_length == 0 && mismatch_length == 0) ==> i == 0,
                        base.len() <= expanded@.len(),
                        expanded@.take(base.len() as int) == base,
                        rle(ops.take(i as int)) == expanded@.skip(base.len() as int)
                            + pending_run(match_length, mismatch_length),
                    ensures
                        i == len_u,
                        rv == reference@,
                        qv == seq@,
                        !(match_length > 0 && mismatch_length > 0),
                        base.len() <= expanded@.len(),
                        expanded@.take(base.len() as int) == base,
                        rle(ops.take(i as int)) == expanded@.skip(base.len() as int)
                            + pending_run(match_length, mismatch_length),
                    decreases len_u - i,
                {
                    if i >= len_u {
                        break;
                    }
                    let sb = seq[read_pos + i];
                    let rb = reference[ref_pos + i];
                    let ghost opsi = ops.take(i as int);
                    let ghost oi = ops[i as int];
                    proof {
                        assert(ops.take(i + 1) =~= opsi.push(oi));
                        lemma_rle_snoc(opsi, oi);
                        assert(oi == (if rv[ref_pos + i] == qv[read_pos + i] {
                            CigarOp::Equal
                        } else {
                            CigarOp::Diff
                        }));
                    }
                    let ghost ml0 = match_length;
                    let ghost mml0 = mismatch_length;
                    let ghost ebefore = expanded@;
                    if sb == rb {
                        if mismatch_length > 0 {
                            expanded.push(
                                CigarElement { length: mismatch_length, op: CigarOp::Diff },
                            );
                            mismatch_length = 0;
                        }
                        match_length = match_length + 1;
                    } else {
                        if match_length > 0 {
                            expanded.push(CigarElement { length: match_length, op: CigarOp::Equal });
                            match_length = 0;
                        }
                        mismatch_length = mismatch_length + 1;
                    }
                    proof {
                        let b = base.len() as int;
                        lemma_rle_core(opsi);
                        let pend0 = pending_run(ml0, mml0);
                        assert(rle(opsi) == ebefore.skip(b) + pend0);
                        assert(rle(Seq::<CigarOp>::empty()) == Seq::<CigarElement>::empty());
                        if pend0.len() > 0 {
                            assert(rle(opsi).len() > 0);
                            assert(opsi.len() > 0);
                            assert(rle(opsi).last() == pend0[0]);
                            assert(opsi.last() == rle(opsi).last().op);
                        }
                        assert(expanded@.take(b) =~= base);
                        if sb == rb {
                            if mml0 > 0 {
                                assert(expanded@.skip(b) =~= ebefore.skip(b).push(
                                    CigarElement { length: mml0, op: CigarOp::Diff },
                                ));
                                assert(opsi.last() == CigarOp::Diff);
                                assert(rle(opsi.push(oi)) == rle(opsi) + seq![
                                    CigarElement { length: 1u32, op: CigarOp::Equal },
                                ]);
                                assert(rle(opsi.push(oi)) =~= expanded@.skip(b) + pending_run(
                                    1,
                                    0,
                                ));
                            } else if ml0 > 0 {
                                assert(expanded@.skip(b) =~= ebefore.skip(b));
                                assert(opsi.last() == CigarOp::Equal);
                                assert(rle(opsi).last() == CigarElement {
                                    length: ml0,
                                    op: CigarOp::Equal,
                                });
                                assert(rle(opsi.push(oi)) == rle(opsi).drop_last().push(
                                    CigarElement { length: (ml0 + 1) as u32, op: CigarOp::Equal },
                                ));
                                assert(rle(opsi).drop_last() =~= ebefore.skip(b));
                                assert(rle(opsi.push(oi)) =~= expanded@.skip(b) + pending_run(
                                    (ml0 + 1) as u32,
                                    0,
                                ));
                            } else {
                                assert(opsi.len() == 0);
                                assert(ebefore.skip(b) =~= Seq::<CigarElement>::empty());
                                assert(expanded@.skip(b) =~= Seq::<CigarElement>::empty());
                                assert(rle(opsi.push(oi)) == rle(opsi) + seq![
                                    CigarElement { length: 1u32, op: CigarOp::Equal },
                                ]);
                                assert(rle(opsi.push(oi)) =~= expanded@.skip(b) + pending_run(
                                    1,
                                    0,
                                ));
                            }
                        } else {
                            if ml0 > 0 {
                                assert(expanded@.skip(b) =~= ebefore.skip(b).push(
                                    CigarElement { length: ml0, op: CigarOp::Equal },
                                ));
                                assert(opsi.last() == CigarOp::Equal);
                                assert(rle(opsi.push(oi)) == rle(opsi) + seq![
                                    CigarElement { length: 1u32, op: CigarOp::Diff },
                                ]);
                                assert(rle(opsi.push(oi)) =~= expanded@.skip(b) + pending_run(
                                    0,
                                    1,
                                ));
                            } else if mml0 > 0 {
                                assert(expanded@.skip(b) =~= ebefore.skip(b));
                                assert(opsi.last() == CigarOp::Diff);
                                assert(rle(opsi).last() == CigarElement {
                                    length: mml0,
                                    op: CigarOp::Diff,
                                });
                                assert(rle(opsi.push(oi)) == rle(opsi).drop_last().push(
                                    CigarElement { length: (mml0 + 1) as u32, op: CigarOp::Diff },
                                ));
                                assert(rle(opsi).drop_last() =~= ebefore.skip(b));
                                assert(rle(opsi.push(oi)) =~= expanded@.skip(b) + pending_run(
                                    0,
                                    (mml0 + 1) as u32,
                                ));
                            } else {
                                assert(opsi.len() == 0);
                                assert(ebefore.skip(b) =~= Seq::<CigarElement>::empty());
                                assert(expanded@.skip(b) =~= Seq::<CigarElement>::empty());
                                assert(rle(opsi.push(oi)) == rle(opsi) + seq![
                                    CigarElement { length: 1u32, op: CigarOp::Diff },
                                ]);
                                assert(rle(opsi.push(oi)) =~= expanded@.skip(b) + pending_run(
                                    0,
                                    1,
                                ));
                            }
                        }
                        assert(rle(ops.take(i + 1)) == rle(opsi.push(oi)));
                    }
                    i = i + 1;
                }
                if match_length > 0 {
                    expanded.push(CigarElement { length: match_length, op: CigarOp::Equal });
                }
                if mismatch_length > 0 {
                    expanded.push(CigarElement { length: mismatch_length, op: CigarOp::Diff });
                }
                proof {
                    assert(ops.take(len_u as int) =~= ops);
                    assert(expanded@.take(base.len() as int) =~= base);
                    assert(expanded@.skip(base.len() as int) =~= rle(ops));
                    assert(expanded@ =~= base + rle(ops));
                }
                read_pos = read_pos + len_u;
                ref_pos = ref_pos + len_u;
            },
            CigarOp::Insertion => {
                read_pos = read_pos + len_u;
                expanded.push(elem);
            },
            CigarOp::Deletion => {
                ref_pos = ref_pos + len_u;
                expanded.push(elem);
            },
            CigarOp::Skip => {
                ref_pos = ref_pos + len_u;
                expanded.push(elem);
            },
            CigarOp::SoftClip => {
                read_pos = read_pos + len_u;
                expanded.push(elem);
            },
            CigarOp::HardClip => {
                expanded.push(elem);
            },
            CigarOp::Padding => {
                ref_pos = ref_pos + len_u;
                expanded.push(elem);
            },
            CigarOp::Equal => {
                read_pos = read_pos + len_u;
                ref_pos = ref_pos + len_u;
                expanded.push(elem);
            },
            CigarOp::Diff => {
                read_pos = read_pos + len_u;
                ref_pos = ref_pos + len_u;
                expanded.push(elem);
            },
        }
        proof {
            let here = if elem.op is Match {
                rle(pos_ops(rv, qv, rpos0, dpos0, elem.length as nat))
            } else {
                seq![elem]
            };
            assert(expanded@ =~= expanded0 + here);
            match expand_spec(iter@, ref_pos as int, read_pos as int, rv, qv) {
                Ok(tail) => {
                    assert(expanded0 + (here + tail) =~= expanded@ + tail);
                },
                Err(_) => {},
            }
        }
    }
    proof {
        assert(expand_spec(iter@, ref_pos as int, read_pos as int, rv, qv) == Ok::<
            Seq<CigarElement>,
            CigarError<()>,
        >(Seq::empty()));
        assert(expanded@ + Seq::<CigarElement>::empty() =~= expanded@);
    }
    Ok(expanded)
}

} // verus!
