//! Collated CIGAR operations.
//!
//! This module merges the augmented record streams of many alignments into a
//! single globally position-ordered stream, grouping and counting records
//! that are equal under the grouping key.  The source is a sequence of
//! `(cigar string, chromosome, reference position)` triples, each of which may
//! instead be an error of the caller's own; the collation surfaces every
//! source error and every decode error as one output item, in place, and
//! continues past it.  An item whose cigar string fails to decode contributes
//! no records at all: its errors are surfaced, the item is consumed, and
//! collation continues with the items after it.
//!
//! The ordering guarantee assumes the source's anchors are globally sorted by
//! chromosome, then reference position (see [`src_sorted`]).  Interleaving
//! items of different chromosomes is not supported: the admission rule's
//! one-item lookahead cannot see past a blocking item of another chromosome,
//! so output order is then forfeit, though every record and error is still
//! delivered exactly once.

use vstd::multiset::Multiset;
use vstd::prelude::*;

use crate::augmented_cigar::{
    cp_lt, errs_from, gkey, key_le, same_group, str_read_span, str_ref_span, tok_read_adv,
    tok_ref_adv, AugmentedCigarElement, AugmentedCigarIterator,
};
use crate::error::CigarError;
use crate::{counts_fit, tok_head, tok_rest, CigarIterator};

verus! {

/// The grouping key of a record as a plain tuple: chromosome, reference
/// position, operation rank, length.
pub type GroupKey = (u32, u32, int, u32);

/// An Ok source item can be decoded and augmented without its count
/// accumulator or its cursors leaving `u32`.
pub open spec fn item_fits<E>(item: Result<(String, u32, u32), E>) -> bool {
    match item {
        Ok(t) => counts_fit(t.0@) && str_read_span(t.0@) <= u32::MAX && t.2 + str_ref_span(t.0@)
            <= u32::MAX,
        Err(_) => true,
    }
}

/// The multiset of grouping keys of the records a CIGAR string produces when
/// augmented from the given cursors.
pub open spec fn rec_keys(s: Seq<char>, chrom: u32, read: int, refp: int) -> Multiset<GroupKey>
    decreases s.len(),
{
    if s.len() == 0 {
        Multiset::empty()
    } else {
        match tok_head::<()>(s) {
            Ok(t) => rec_keys(
                tok_rest(s),
                chrom,
                read + tok_read_adv(t),
                refp + tok_ref_adv(t),
            ).insert((chrom, refp as u32, crate::op_rank(t.op), t.length)),
            Err(_) => rec_keys(tok_rest(s), chrom, read, refp),
        }
    }
}

/// The grouping keys one source item contributes.  An item whose decode
/// fails contributes no records at all: only its errors are surfaced.
pub open spec fn item_keys<E>(item: Result<(String, u32, u32), E>) -> Multiset<GroupKey> {
    match item {
        Ok(t) => if errs_from::<E>(t.0@).len() == 0 {
            rec_keys(t.0@, t.1, 0, t.2 as int)
        } else {
            Multiset::empty()
        },
        Err(_) => Multiset::empty(),
    }
}

/// The grouping keys a whole source contributes.
pub open spec fn src_keys<E>(items: Seq<Result<(String, u32, u32), E>>) -> Multiset<GroupKey>
    decreases items.len(),
{
    if items.len() == 0 {
        Multiset::empty()
    } else {
        item_keys(items[0]).add(src_keys(items.drop_first()))
    }
}

/// The errors one source item contributes: the external error itself, or the
/// item's decode errors in order.
pub open spec fn item_errs<E>(item: Result<(String, u32, u32), E>) -> Seq<CigarError<E>> {
    match item {
        Ok(t) => errs_from::<E>(t.0@),
        Err(e) => seq![CigarError::External(e)],
    }
}

/// The errors a whole source contributes, in source order.
pub open spec fn src_errs<E>(items: Seq<Result<(String, u32, u32), E>>) -> Seq<CigarError<E>>
    decreases items.len(),
{
    if items.len() == 0 {
        Seq::empty()
    } else {
        item_errs(items[0]) + src_errs(items.drop_first())
    }
}

/// A grouping key repeated `n` times.
pub open spec fn repeat_key(k: GroupKey, n: nat) -> Multiset<GroupKey>
    decreases n,
{
    if n == 0 {
        Multiset::empty()
    } else {
        repeat_key(k, (n - 1) as nat).insert(k)
    }
}

/// The grouping keys an output history accounts for: each successful output
/// stands for `count` records of its key.
pub open spec fn hist_keys<E>(
    hist: Seq<Result<(AugmentedCigarElement, usize), CigarError<E>>>,
) -> Multiset<GroupKey>
    decreases hist.len(),
{
    if hist.len() == 0 {
        Multiset::empty()
    } else {
        hist_keys(hist.drop_last()).add(
            match hist.last() {
                Ok(t) => repeat_key(gkey(t.0), t.1 as nat),
                Err(_) => Multiset::empty(),
            },
        )
    }
}

/// The errors an output history has surfaced, in output order.
pub open spec fn hist_errs<E>(
    hist: Seq<Result<(AugmentedCigarElement, usize), CigarError<E>>>,
) -> Seq<CigarError<E>>
    decreases hist.len(),
{
    if hist.len() == 0 {
        Seq::empty()
    } else {
        hist_errs(hist.drop_last()) + (match hist.last() {
            Ok(_) => Seq::empty(),
            Err(e) => seq![e],
        })
    }
}

/// The record of the most recent successful output, if any.
pub open spec fn last_ok<E>(
    hist: Seq<Result<(AugmentedCigarElement, usize), CigarError<E>>>,
) -> Option<AugmentedCigarElement>
    decreases hist.len(),
{
    if hist.len() == 0 {
        None
    } else {
        match hist.last() {
            Ok(t) => Some(t.0),
            Err(_) => last_ok(hist.drop_last()),
        }
    }
}

/// Strict order under the grouping key.
pub open spec fn key_lt(a: AugmentedCigarElement, b: AugmentedCigarElement) -> bool {
    key_le(a, b) && !same_group(a, b)
}

/// The successful outputs of a history are strictly increasing in the record
/// total order: within one chromosome the reference position never decreases,
/// and no grouping key appears in two outputs.
pub open spec fn ordered_hist<E>(
    hist: Seq<Result<(AugmentedCigarElement, usize), CigarError<E>>>,
) -> bool {
    forall|i: int, j: int|
        0 <= i < j < hist.len() && hist[i] is Ok && hist[j] is Ok ==> key_lt(
            (#[trigger] hist[i])->Ok_0.0,
            (#[trigger] hist[j])->Ok_0.0,
        )
}

/// The source items' anchors are sorted: by chromosome, then reference
/// position, over the items that are not errors.
pub open spec fn src_sorted<E>(items: Seq<Result<(String, u32, u32), E>>) -> bool {
    forall|i: int, j: int|
        0 <= i < j < items.len() && items[i] is Ok && items[j] is Ok ==> !cp_lt(
            (#[trigger] items[j])->Ok_0.1,
            items[j]->Ok_0.2,
            (#[trigger] items[i])->Ok_0.1,
            items[i]->Ok_0.2,
        )
}

/// A queue sorted in non-increasing record order: the least record is last.
pub open spec fn sorted_desc(q: Seq<AugmentedCigarElement>) -> bool {
    forall|i: int, j: int| 0 <= i < j < q.len() ==> key_le(#[trigger] q[j], #[trigger] q[i])
}

/// The ordering invariant tying the emitted history to the records still
/// queued and the source items still unconsumed.
pub open spec fn ord_inv<E>(
    hist: Seq<Result<(AugmentedCigarElement, usize), CigarError<E>>>,
    queue: Seq<AugmentedCigarElement>,
    items: Seq<Result<(String, u32, u32), E>>,
) -> bool {
    &&& ordered_hist(hist)
    &&& (last_ok(hist) matches Some(m) ==> {
        &&& forall|i: int| 0 <= i < queue.len() ==> key_lt(m, #[trigger] queue[i])
        &&& forall|i: int|
            0 <= i < items.len() && items[i] is Ok ==> cp_lt(
                m.chrom_id,
                m.reference_position,
                (#[trigger] items[i])->Ok_0.1,
                items[i]->Ok_0.2,
            )
    })
}

/// The grouping keys of a sequence of records.
pub open spec fn keys_of(q: Seq<AugmentedCigarElement>) -> Seq<GroupKey> {
    q.map_values(|r: AugmentedCigarElement| gkey(r))
}

/// Inserting into a sequence inserts its key into the key multiset.
proof fn lemma_seq_insert_to_multiset<K>(s: Seq<K>, i: int, v: K)
    requires
        0 <= i <= s.len(),
    ensures
        s.insert(i, v).to_multiset() =~= s.to_multiset().insert(v),
{
    broadcast use vstd::seq_lib::group_to_multiset_ensures;
    broadcast use vstd::multiset::group_multiset_axioms;

    let t = s.insert(i, v);
    assert(t.remove(i) =~= s);
    assert(t[i] == v);
    assert(t.remove(i).to_multiset() =~= t.to_multiset().remove(v));
    assert(t.to_multiset().count(v) > 0) by {
        assert(t.contains(v));
    }
    assert forall|k: K| t.to_multiset().count(k) == s.to_multiset().insert(v).count(k) by {
        if k == v {
            assert(s.to_multiset().count(v) == t.to_multiset().remove(v).count(v));
        } else {
            assert(s.to_multiset().count(k) == t.to_multiset().remove(v).count(k));
        }
    }
}

/// Inserting a record into a queue inserts its grouping key into the queue's
/// key multiset.
proof fn lemma_keys_insert(q: Seq<AugmentedCigarElement>, i: int, e: AugmentedCigarElement)
    requires
        0 <= i <= q.len(),
    ensures
        keys_of(q.insert(i, e)).to_multiset() =~= keys_of(q).to_multiset().insert(gkey(e)),
{
    assert(keys_of(q.insert(i, e)) =~= keys_of(q).insert(i, gkey(e)));
    lemma_seq_insert_to_multiset(keys_of(q), i, gkey(e));
}

/// Dropping the last record removes its grouping key from the queue's key
/// multiset.
proof fn lemma_keys_drop_last(q: Seq<AugmentedCigarElement>)
    requires
        q.len() > 0,
    ensures
        keys_of(q.drop_last()).to_multiset().insert(gkey(q.last())) =~= keys_of(q).to_multiset(),
{
    broadcast use vstd::seq_lib::group_to_multiset_ensures;
    broadcast use vstd::multiset::group_multiset_axioms;

    assert(keys_of(q) =~= keys_of(q.drop_last()).push(gkey(q.last())));
    assert(keys_of(q.drop_last()).push(gkey(q.last())).to_multiset() =~= keys_of(
        q.drop_last(),
    ).to_multiset().insert(gkey(q.last())));
}

/// Extending a history by one output extends its key multiset, its error
/// sequence, and its most recent success accordingly.  Callers tracking the
/// output history across calls of [`CollatedAugmentedCigarIterator::next`]
/// can step their bookkeeping with this.
pub proof fn lemma_hist_snoc<E>(
    h: Seq<Result<(AugmentedCigarElement, usize), CigarError<E>>>,
    x: Result<(AugmentedCigarElement, usize), CigarError<E>>,
)
    ensures
        hist_keys(h.push(x)) == hist_keys(h).add(
            match x {
                Ok(t) => repeat_key(gkey(t.0), t.1 as nat),
                Err(_) => Multiset::empty(),
            },
        ),
        hist_errs(h.push(x)) == hist_errs(h) + (match x {
            Ok(_) => Seq::<CigarError<E>>::empty(),
            Err(e) => seq![e],
        }),
        last_ok(h.push(x)) == (match x {
            Ok(t) => Some(t.0),
            Err(_) => last_ok(h),
        }),
{
    assert(h.push(x).drop_last() =~= h);
    assert(h.push(x).last() == x);
}

/// In an ordered history the most recent success bounds every success.
proof fn lemma_last_ok_max<E>(h: Seq<Result<(AugmentedCigarElement, usize), CigarError<E>>>)
    requires
        ordered_hist(h),
    ensures
        last_ok(h) is None ==> forall|i: int| 0 <= i < h.len() ==> !((#[trigger] h[i]) is Ok),
        last_ok(h) matches Some(m) ==> forall|i: int|
            0 <= i < h.len() && h[i] is Ok ==> ((#[trigger] h[i])->Ok_0.0 == m || key_lt(
                h[i]->Ok_0.0,
                m,
            )),
    decreases h.len(),
{
    if h.len() > 0 {
        match h.last() {
            Ok(t) => {},
            Err(_) => {
                assert(ordered_hist(h.drop_last())) by {
                    assert(forall|i: int|
                        0 <= i < h.len() - 1 ==> h.drop_last()[i] == #[trigger] h[i]);
                }
                lemma_last_ok_max(h.drop_last());
                assert(forall|i: int|
                    0 <= i < h.len() - 1 ==> (#[trigger] h[i]) == h.drop_last()[i]);
            },
        }
    }
}

/// Grouping-key equality is equality of the grouping keys.
proof fn lemma_same_group_gkey(a: AugmentedCigarElement, b: AugmentedCigarElement)
    ensures
        same_group(a, b) <==> gkey(a) == gkey(b),
{
}

/// The strict record order is transitive.
proof fn lemma_key_lt_trans(
    a: AugmentedCigarElement,
    b: AugmentedCigarElement,
    c: AugmentedCigarElement,
)
    requires
        key_lt(a, b),
        key_lt(b, c),
    ensures
        key_lt(a, c),
{
    crate::augmented_cigar::lemma_key_le_trans(a, b, c);
    crate::augmented_cigar::lemma_key_le_antisym(a, b);
    crate::augmented_cigar::lemma_key_le_antisym(b, c);
    crate::augmented_cigar::lemma_key_le_antisym(a, c);
    if same_group(a, c) {
        crate::augmented_cigar::lemma_key_le_trans(b, c, a);
        crate::augmented_cigar::lemma_key_le_trans(c, a, b);
    }
}

/// A record strictly below another in (chromosome, reference position) is
/// strictly below it in the record total order.
proof fn lemma_cp_key(a: AugmentedCigarElement, b: AugmentedCigarElement)
    requires
        cp_lt(a.chrom_id, a.reference_position, b.chrom_id, b.reference_position),
    ensures
        key_lt(a, b),
{
}

/// Surfacing an error leaves the ordering of successes untouched.
proof fn lemma_push_err_ordered<E>(
    h: Seq<Result<(AugmentedCigarElement, usize), CigarError<E>>>,
    e: CigarError<E>,
)
    requires
        ordered_hist(h),
    ensures
        ordered_hist(h.push(Err(e))),
{
    let h2 = h.push(Err(e));
    assert forall|i: int, j: int|
        0 <= i < j < h2.len() && h2[i] is Ok && h2[j] is Ok implies key_lt(
        h2[i]->Ok_0.0,
        h2[j]->Ok_0.0,
    ) by {
        assert(h2[i] == h[i]);
        if j < h.len() {
            assert(h2[j] == h[j]);
        }
    }
}

/// Appending a success above every earlier success keeps the ordering.
proof fn lemma_push_ok_ordered<E>(
    h: Seq<Result<(AugmentedCigarElement, usize), CigarError<E>>>,
    e: AugmentedCigarElement,
    c: usize,
)
    requires
        ordered_hist(h),
        last_ok(h) matches Some(m) ==> key_lt(m, e),
    ensures
        ordered_hist(h.push(Ok::<(AugmentedCigarElement, usize), CigarError<E>>((e, c)))),
{
    lemma_last_ok_max(h);
    let h2 = h.push(Ok::<(AugmentedCigarElement, usize), CigarError<E>>((e, c)));
    assert forall|i: int, j: int|
        0 <= i < j < h2.len() && h2[i] is Ok && h2[j] is Ok implies key_lt(
        h2[i]->Ok_0.0,
        h2[j]->Ok_0.0,
    ) by {
        assert(h2[i] == h[i]);
        if j < h.len() {
            assert(h2[j] == h[j]);
        } else {
            assert(h2[j] == Ok::<(AugmentedCigarElement, usize), CigarError<E>>((e, c)));
            match last_ok(h) {
                Some(m) => {
                    if h[i]->Ok_0.0 == m {
                    } else {
                        lemma_key_lt_trans(h[i]->Ok_0.0, m, e);
                    }
                },
                None => {
                    assert(!(h[i] is Ok));
                },
            }
        }
    }
}

/// Insert a record into a queue sorted in non-increasing record order,
/// keeping it sorted.
fn queue_insert(q: &mut Vec<AugmentedCigarElement>, e: AugmentedCigarElement) -> (i: Ghost<int>)
    requires
        sorted_desc(old(q)@),
    ensures
        sorted_desc(final(q)@),
        0 <= i@ <= old(q)@.len(),
        final(q)@ == old(q)@.insert(i@, e),
        keys_of(final(q)@).to_multiset() =~= keys_of(old(q)@).to_multiset().insert(gkey(e)),
{
    let mut i: usize = 0;
    loop
        invariant
            q == old(q),
            sorted_desc(q@),
            i <= q@.len(),
            forall|j: int| 0 <= j < i ==> !key_le(#[trigger] q@[j], e),
        ensures
            q == old(q),
            i <= q@.len(),
            forall|j: int| 0 <= j < i ==> !key_le(#[trigger] q@[j], e),
            i < q@.len() ==> key_le(q@[i as int], e),
        decreases q@.len() - i,
    {
        if i >= q.len() {
            break;
        }
        if q[i].le(&e) {
            break;
        }
        i = i + 1;
    }
    let ghost qs = q@;
    q.insert(i, e);
    proof {
        qs.insert_ensures(i as int, e);
    }
    assert forall|a: int, b: int| 0 <= a < b < q@.len() implies key_le(
        #[trigger] q@[b],
        #[trigger] q@[a],
    ) by {
        crate::augmented_cigar::lemma_key_le_antisym(qs[a], e);
        if a < i && b > i {
            if b > i + 1 {
                crate::augmented_cigar::lemma_key_le_trans(qs[b - 1], qs[i as int], e);
            }
            crate::augmented_cigar::lemma_key_le_trans(q@[b], e, qs[a]);
        } else if b == i {
            crate::augmented_cigar::lemma_key_le_antisym(qs[a], e);
        } else if a == i {
            if b > i + 1 {
                crate::augmented_cigar::lemma_key_le_trans(qs[b - 1], qs[i as int], e);
            }
        }
    }
    proof {
        lemma_keys_insert(qs, i as int, e);
    }
    Ghost(i as int)
}

/// Every record key a CIGAR string contributes carries the item's chromosome
/// and a reference position at or beyond the anchor.
proof fn lemma_rec_keys_anchor(s: Seq<char>, chrom: u32, read: int, refp: int)
    requires
        0 <= refp,
        refp + str_ref_span(s) <= u32::MAX,
    ensures
        forall|k: GroupKey|
            rec_keys(s, chrom, read, refp).count(k) > 0 ==> k.0 == chrom && k.1 >= refp,
    decreases s.len(),
{
    broadcast use vstd::multiset::group_multiset_axioms;

    if s.len() > 0 {
        crate::augmented_cigar::lemma_spans_nonneg(tok_rest(s));
        match tok_head::<()>(s) {
            Ok(t) => {
                assert(str_ref_span(s) == tok_ref_adv(t) + str_ref_span(tok_rest(s)));
                assert(tok_ref_adv(t) >= 0);
                assert(refp <= u32::MAX);
                lemma_rec_keys_anchor(
                    tok_rest(s),
                    chrom,
                    read + tok_read_adv(t),
                    refp + tok_ref_adv(t),
                );
                assert forall|k: GroupKey|
                    rec_keys(s, chrom, read, refp).count(k) > 0 implies k.0 == chrom && k.1
                    >= refp by {
                    let inserted = (chrom, refp as u32, crate::op_rank(t.op), t.length);
                    assert(inserted.1 as int == refp);
                    if k != inserted {
                        assert(rec_keys(
                            tok_rest(s),
                            chrom,
                            read + tok_read_adv(t),
                            refp + tok_ref_adv(t),
                        ).count(k) > 0);
                    }
                }
            },
            Err(_) => {
                lemma_rec_keys_anchor(tok_rest(s), chrom, read, refp);
                assert(rec_keys(s, chrom, read, refp) == rec_keys(
                    tok_rest(s),
                    chrom,
                    read,
                    refp,
                ));
            },
        }
    } else {
        assert(rec_keys(s, chrom, read, refp) == Multiset::<GroupKey>::empty());
        assert forall|k: GroupKey|
            rec_keys(s, chrom, read, refp).count(k) > 0 implies k.0 == chrom && k.1 >= refp by {
            assert(Multiset::<GroupKey>::empty().count(k) == 0);
        }
    }
}

/// With every anchor at or beyond a bound, every record key a source
/// contributes lies at or beyond that bound too.
proof fn lemma_src_keys_anchor<E>(items: Seq<Result<(String, u32, u32), E>>, c0: u32, p0: u32)
    requires
        forall|i: int| 0 <= i < items.len() ==> item_fits(#[trigger] items[i]),
        forall|i: int|
            0 <= i < items.len() && items[i] is Ok ==> !cp_lt(
                (#[trigger] items[i])->Ok_0.1,
                items[i]->Ok_0.2,
                c0,
                p0,
            ),
    ensures
        forall|k: GroupKey| src_keys(items).count(k) > 0 ==> !cp_lt(k.0, k.1, c0, p0),
    decreases items.len(),
{
    broadcast use vstd::multiset::group_multiset_axioms;

    if items.len() > 0 {
        assert(forall|i: int|
            0 <= i < items.drop_first().len() ==> (#[trigger] items.drop_first()[i]) == items[i
                + 1]);
        lemma_src_keys_anchor(items.drop_first(), c0, p0);
        match items[0] {
            Ok(t) => {
                lemma_rec_keys_anchor(t.0@, t.1, 0, t.2 as int);
                assert forall|k: GroupKey| src_keys(items).count(k) > 0 implies !cp_lt(
                    k.0,
                    k.1,
                    c0,
                    p0,
                ) by {
                    if item_keys(items[0]).count(k) > 0 {
                        assert(k.0 == t.1 && k.1 >= t.2);
                    } else {
                        assert(src_keys(items.drop_first()).count(k) > 0);
                    }
                }
            },
            Err(_) => {
                assert forall|k: GroupKey| src_keys(items).count(k) > 0 implies !cp_lt(
                    k.0,
                    k.1,
                    c0,
                    p0,
                ) by {
                    assert(src_keys(items.drop_first()).count(k) > 0);
                }
            },
        }
    }
}

/// No queued record lies strictly below the anchor of any of the given
/// (already consumed) record-bearing items: consumption never ran past an
/// item whose records could undercut what is queued.
pub open spec fn consumed_anchors_low<E>(
    consumed: Seq<Result<(String, u32, u32), E>>,
    queue: Seq<AugmentedCigarElement>,
) -> bool {
    forall|i: int, j: int|
        0 <= i < consumed.len() && (#[trigger] consumed[i]) is Ok && item_keys(
            consumed[i],
        ).len() > 0 && 0 <= j < queue.len() ==> !cp_lt(
            (#[trigger] queue[j]).chrom_id,
            queue[j].reference_position,
            consumed[i]->Ok_0.1,
            consumed[i]->Ok_0.2,
        )
}

/// A record no earlier in the total order is no earlier in (chromosome,
/// reference position) either.
proof fn lemma_key_le_cp(a: AugmentedCigarElement, b: AugmentedCigarElement)
    requires
        key_le(a, b),
    ensures
        !cp_lt(b.chrom_id, b.reference_position, a.chrom_id, a.reference_position),
{
}

/// An item that contributes records decodes cleanly and starts with a
/// well-formed token.
proof fn lemma_item_with_records_first_ok<E>(t: (String, u32, u32))
    requires
        item_keys::<E>(Ok(t)).len() > 0,
    ensures
        t.0@.len() > 0,
        tok_head::<E>(t.0@) is Ok,
        errs_from::<E>(t.0@).len() == 0,
{
    broadcast use vstd::multiset::group_multiset_axioms;

    if errs_from::<E>(t.0@).len() > 0 {
        assert(item_keys::<E>(Ok(t)) == Multiset::<GroupKey>::empty());
    }
    if t.0@.len() == 0 {
        assert(rec_keys(t.0@, t.1, 0, t.2 as int) == Multiset::<GroupKey>::empty());
    }
    match tok_head::<E>(t.0@) {
        Ok(_) => {},
        Err(e) => {
            assert(errs_from::<E>(t.0@) == seq![e] + errs_from::<E>(tok_rest(t.0@)));
        },
    }
}

/// A collated iterator over augmented CIGAR elements.
///
/// It owns the external source, a priority queue of records admitted but not
/// yet emitted, the decode errors of the last consumed item not yet surfaced,
/// and (as ghost state) the full source and the history of outputs, which the
/// contracts speak about.
pub struct CollatedAugmentedCigarIterator<E> {
    source: Vec<Result<(String, u32, u32), E>>,
    queue: Vec<AugmentedCigarElement>,
    pending: Vec<CigarError<E>>,
    all: Ghost<Seq<Result<(String, u32, u32), E>>>,
    hist: Ghost<Seq<Result<(AugmentedCigarElement, usize), CigarError<E>>>>,
}

impl<E> CollatedAugmentedCigarIterator<E> {
    /// The whole source the collation was created over.
    pub closed spec fn all(&self) -> Seq<Result<(String, u32, u32), E>> {
        self.all@
    }

    /// The outputs produced so far, in order.
    pub closed spec fn hist(&self) -> Seq<Result<(AugmentedCigarElement, usize), CigarError<E>>> {
        self.hist@
    }

    /// The source items not yet consumed.
    pub closed spec fn src(&self) -> Seq<Result<(String, u32, u32), E>> {
        self.source@
    }

    /// The records admitted but not yet emitted, in non-increasing record
    /// order (the least record last).
    pub closed spec fn queued(&self) -> Seq<AugmentedCigarElement> {
        self.queue@
    }

    /// The decode errors of the last consumed item not yet surfaced, in
    /// order.
    pub closed spec fn pending_errs(&self) -> Seq<CigarError<E>> {
        self.pending@
    }

    /// How much work is outstanding: records still in the unconsumed source
    /// or in the queue, and errors still in the unconsumed source or
    /// pending.  Every successful or failing call strictly decreases it, and
    /// it is zero exactly when iteration has ended.
    pub open spec fn outstanding(&self) -> int {
        src_keys(self.src()).len() as int + self.queued().len() as int + src_errs(
            self.src(),
        ).len() as int + self.pending_errs().len() as int
    }

    /// The collation's invariant.  Every output key is accounted for: the
    /// history, the queue and the unconsumed source together hold exactly the
    /// source's record keys; the errors surfaced so far, the errors pending
    /// and the errors still to come are exactly the source's errors in order;
    /// and, for a source whose anchors are sorted, the successful outputs are
    /// strictly increasing and bound everything still outstanding.
    pub closed spec fn wf(&self) -> bool {
        &&& forall|i: int| 0 <= i < self.source@.len() ==> item_fits(#[trigger] self.source@[i])
        &&& sorted_desc(self.queue@)
        &&& hist_keys(self.hist@).add(keys_of(self.queue@).to_multiset()).add(
            src_keys(self.source@),
        ) == src_keys(self.all@)
        &&& hist_errs(self.hist@) + self.pending@ + src_errs(self.source@) == src_errs(self.all@)
        &&& (src_sorted(self.all@) ==> src_sorted(self.source@) && ord_inv(
            self.hist@,
            self.queue@,
            self.source@,
        ))
    }

    /// Create a new collated augmented CIGAR iterator.
    pub fn new(source: Vec<Result<(String, u32, u32), E>>) -> (r: Self)
        requires
            forall|i: int| 0 <= i < source@.len() ==> item_fits(#[trigger] source@[i]),
        ensures
            r.wf(),
            r.all() == source@,
            r.src() == source@,
            r.hist() == Seq::<Result<(AugmentedCigarElement, usize), CigarError<E>>>::empty(),
            r.queued() == Seq::<AugmentedCigarElement>::empty(),
            r.pending_errs() == Seq::<CigarError<E>>::empty(),
    {
        let ghost a = source@;
        let r = CollatedAugmentedCigarIterator {
            source,
            queue: Vec::new(),
            pending: Vec::new(),
            all: Ghost(a),
            hist: Ghost(Seq::empty()),
        };
        proof {
            broadcast use vstd::seq_lib::group_to_multiset_ensures;
            broadcast use vstd::multiset::group_multiset_axioms;

            assert(keys_of(r.queue@) =~= Seq::<GroupKey>::empty());
            assert forall|k: GroupKey| keys_of(r.queue@).to_multiset().count(k) == 0 by {
                assert(!keys_of(r.queue@).contains(k));
            }
            assert(hist_keys(r.hist@).add(keys_of(r.queue@).to_multiset()).add(src_keys(r.source@))
                =~= src_keys(r.all@));
            assert(hist_errs(r.hist@) + r.pending@ + src_errs(r.source@) =~= src_errs(r.all@));
        }
        r
    }

    /// Produce the next collated output: the least queued record together
    /// with the number of records sharing its grouping key, or an error of
    /// the source or of decoding, surfaced in place, or `None` once the
    /// source is exhausted and every record has been emitted.  An item whose
    /// decode fails is consumed whole: its errors are surfaced one per call
    /// and none of its records is admitted.
    ///
    /// Before trusting the queue's minimum, source items are admitted until
    /// the next item's anchor lies strictly beyond that minimum.
    ///
    /// The contract pins each call down: the unconsumed source becomes a
    /// suffix of what it was; an error output is the source's next error in
    /// order; for a sorted source a success carries the whole remaining
    /// multiplicity of its grouping key; every output strictly shrinks the
    /// outstanding work, `None` comes exactly when nothing is outstanding,
    /// and then the emitted keys and errors equal the source's.
    pub fn next(&mut self) -> (r: Option<Result<(AugmentedCigarElement, usize), CigarError<E>>>)
        requires
            old(self).wf(),
        ensures
            final(self).wf(),
            final(self).all() == old(self).all(),
            r matches Some(x) ==> final(self).hist() == old(self).hist().push(x),
            r matches Some(Ok(t)) ==> t.1 >= 1,
            r is None ==> {
                &&& final(self).hist() == old(self).hist()
                &&& final(self).src().len() == 0
                &&& final(self).queued().len() == 0
                &&& final(self).pending_errs().len() == 0
                &&& final(self).outstanding() == 0
                &&& hist_keys(final(self).hist()) == src_keys(final(self).all())
                &&& hist_errs(final(self).hist()) == src_errs(final(self).all())
            },
            sorted_desc(final(self).queued()),
            hist_keys(final(self).hist()).add(keys_of(final(self).queued()).to_multiset()).add(
                src_keys(final(self).src()),
            ) == src_keys(final(self).all()),
            hist_errs(final(self).hist()) + final(self).pending_errs() + src_errs(
                final(self).src(),
            ) == src_errs(final(self).all()),
            src_sorted(final(self).all()) ==> src_sorted(final(self).src()) && ord_inv(
                final(self).hist(),
                final(self).queued(),
                final(self).src(),
            ),
            exists|n: int|
                0 <= n <= old(self).src().len() && final(self).src() == old(self).src().skip(n),
            r matches Some(Err(e)) ==> hist_errs(old(self).hist()).len() < src_errs(
                old(self).all(),
            ).len() && e == src_errs(old(self).all())[hist_errs(old(self).hist()).len() as int],
            r is Some ==> final(self).outstanding() < old(self).outstanding(),
            (old(self).src().len() == 0 && old(self).queued().len() == 0 && old(
                self,
            ).pending_errs().len() == 0) ==> r is None,
            (old(self).src().len() == 0 && hist_keys(old(self).hist()) == src_keys(
                old(self).all(),
            ) && hist_errs(old(self).hist()) == src_errs(old(self).all())) ==> r is None,
            src_sorted(old(self).all()) ==> (r matches Some(Ok(t)) ==> t.1 as int == src_keys(
                old(self).all(),
            ).count(gkey(t.0)) - hist_keys(old(self).hist()).count(gkey(t.0))),
            old(self).pending_errs().len() > 0 ==> r == Some(
                Err::<(AugmentedCigarElement, usize), CigarError<E>>(old(self).pending_errs()[0]),
            ),
            r matches Some(Ok(t)) ==> src_errs(final(self).src()) == src_errs(old(self).src())
                && final(self).pending_errs() == old(self).pending_errs(),
            r matches Some(Ok(t)) ==> (final(self).src().len() > 0 ==> final(self).src()[0] is Ok
                && cp_lt(
                t.0.chrom_id,
                t.0.reference_position,
                final(self).src()[0]->Ok_0.1,
                final(self).src()[0]->Ok_0.2,
            )),
            src_sorted(old(self).all()) ==> (r matches Some(Ok(t)) ==> forall|i: int|
                0 <= i < old(self).src().len() - final(self).src().len() && (#[trigger] old(
                    self,
                ).src()[i]) is Ok && item_keys(old(self).src()[i]).len() > 0 ==> !cp_lt(
                    t.0.chrom_id,
                    t.0.reference_position,
                    old(self).src()[i]->Ok_0.1,
                    old(self).src()[i]->Ok_0.2,
                )),
    {
        broadcast use vstd::multiset::group_multiset_axioms;
        broadcast use vstd::seq_lib::group_to_multiset_ensures;

        let ghost all0 = self.all@;
        // surface the decode errors of the last consumed item first
        if self.pending.len() > 0 {
            let ghost h0 = self.hist@;
            let ghost p0 = self.pending@;
            let e = self.pending.remove(0);
            let ghost out = Err::<(AugmentedCigarElement, usize), CigarError<E>>(e);
            proof {
                lemma_hist_snoc(h0, out);
                assert(hist_errs(h0.push(out)) + self.pending@ =~= hist_errs(h0) + p0);
                assert(hist_errs(h0.push(out)) + self.pending@ + src_errs(self.source@) =~= (
                hist_errs(h0.push(out)) + self.pending@) + src_errs(self.source@));
                assert((hist_errs(h0) + p0) + src_errs(self.source@) =~= hist_errs(h0) + p0
                    + src_errs(self.source@));
                assert(hist_keys(h0.push(out)) =~= hist_keys(h0));
                if src_sorted(all0) {
                    lemma_push_err_ordered(h0, e);
                }
            }
            self.hist = Ghost(h0.push(out));
            proof {
                assert(exists|n: int|
                    0 <= n <= old(self).src().len() && self.source@ == old(self).src().skip(
                        n,
                    )) by {
                    assert(self.source@ =~= old(self).src().skip(0));
                }
                assert(src_errs(all0) == hist_errs(h0) + p0 + src_errs(self.source@));
                assert((hist_errs(h0) + p0 + src_errs(self.source@))[hist_errs(h0).len() as int]
                    == p0[0]);
                assert(src_errs(all0).len() == hist_errs(h0).len() + p0.len() + src_errs(
                    self.source@,
                ).len());
            }
            return Some(Err(e));
        }
        let ghost h0 = self.hist@;
        let ghost m0 = src_keys(self.source@).len() as int + self.queue@.len() as int + src_errs(
            self.source@,
        ).len() as int + self.pending@.len() as int;
        let ghost mut ncons: int = 0;
        proof {
            assert(m0 == old(self).outstanding());
            assert(self.source@ =~= old(self).source@.skip(0));
            assert(old(self).source@.take(0) =~= Seq::<Result<(String, u32, u32), E>>::empty());
        }
        // admission: consume source items until the next one starts beyond
        // the least queued record
        loop
            invariant
                all0 == old(self).all@,
                h0 == old(self).hist@,
                self.all@ == all0,
                self.hist@ == h0,
                self.pending@.len() == 0,
                old(self).pending@.len() == 0,
                0 <= ncons <= old(self).source@.len(),
                self.source@ == old(self).source@.skip(ncons),
                m0 == old(self).outstanding(),
                src_keys(self.source@).len() as int + self.queue@.len() as int + src_errs(
                    self.source@,
                ).len() as int + self.pending@.len() as int == m0,
                forall|i: int|
                    0 <= i < self.source@.len() ==> item_fits(#[trigger] self.source@[i]),
                sorted_desc(self.queue@),
                hist_keys(h0).add(keys_of(self.queue@).to_multiset()).add(src_keys(self.source@))
                    == src_keys(all0),
                hist_errs(h0) + self.pending@ + src_errs(self.source@) == src_errs(all0),
                src_sorted(all0) ==> src_sorted(self.source@) && src_sorted(
                    old(self).source@,
                ) && ord_inv(h0, self.queue@, self.source@) && consumed_anchors_low(
                    old(self).source@.take(ncons),
                    self.queue@,
                ),
            ensures
                self.all@ == all0,
                self.hist@ == h0,
                self.pending@.len() == 0,
                old(self).pending@.len() == 0,
                0 <= ncons <= old(self).source@.len(),
                self.source@ == old(self).source@.skip(ncons),
                m0 == old(self).outstanding(),
                src_keys(self.source@).len() as int + self.queue@.len() as int + src_errs(
                    self.source@,
                ).len() as int + self.pending@.len() as int == m0,
                forall|i: int|
                    0 <= i < self.source@.len() ==> item_fits(#[trigger] self.source@[i]),
                sorted_desc(self.queue@),
                hist_keys(h0).add(keys_of(self.queue@).to_multiset()).add(src_keys(self.source@))
                    == src_keys(all0),
                hist_errs(h0) + self.pending@ + src_errs(self.source@) == src_errs(all0),
                src_sorted(all0) ==> src_sorted(self.source@) && src_sorted(
                    old(self).source@,
                ) && ord_inv(h0, self.queue@, self.source@) && consumed_anchors_low(
                    old(self).source@.take(ncons),
                    self.queue@,
                ),
                self.source@.len() == 0 || (self.queue@.len() > 0 && self.source@[0] is Ok
                    && cp_lt(
                    self.queue@.last().chrom_id,
                    self.queue@.last().reference_position,
                    self.source@[0]->Ok_0.1,
                    self.source@[0]->Ok_0.2,
                )),
            decreases self.source@.len(),
        {
            if self.source.len() == 0 {
                break;
            }
            let ghost src0 = self.source@;
            let item = self.source.remove(0);
            proof {
                assert(self.source@ =~= src0.drop_first());
            }
            match item {
                Err(e) => {
                    // a source error: report it and continue past the item
                    let ghost out = Err::<(AugmentedCigarElement, usize), CigarError<E>>(
                        CigarError::External(e),
                    );
                    proof {
                        lemma_hist_snoc(h0, out);
                        assert(src_keys(src0) == item_keys(src0[0]).add(src_keys(self.source@)));
                        assert(item_keys(src0[0]) =~= Multiset::<GroupKey>::empty());
                        assert(hist_keys(h0.push(out)) == hist_keys(h0));
                        assert(hist_keys(h0.push(out)).add(keys_of(self.queue@).to_multiset()).add(
                            src_keys(self.source@),
                        ) =~= src_keys(all0));
                        assert(src_errs(src0) == item_errs(src0[0]) + src_errs(self.source@));
                        assert(item_errs(src0[0]) =~= seq![
                            CigarError::External(src0[0]->Err_0),
                        ]);
                        assert(hist_errs(h0.push(out)) + self.pending@ + src_errs(self.source@)
                            =~= hist_errs(h0) + self.pending@ + src_errs(src0));
                        if src_sorted(all0) {
                            lemma_push_err_ordered(h0, CigarError::External(src0[0]->Err_0));
                            assert(last_ok(h0.push(out)) == last_ok(h0));
                        }
                    }
                    self.hist = Ghost(h0.push(out));
                    proof {
                        ncons = ncons + 1;
                        assert(self.source@ =~= old(self).source@.skip(ncons));
                        assert(exists|n: int|
                            0 <= n <= old(self).src().len() && self.source@ == old(
                                self,
                            ).src().skip(n)) by {
                            assert(self.source@ == old(self).src().skip(ncons));
                        }
                        // the surfaced error is the source's next error
                        assert(src_errs(all0) == hist_errs(h0) + src_errs(src0));
                        assert(src_errs(src0) == seq![CigarError::External(src0[0]->Err_0)]
                            + src_errs(self.source@));
                        assert(src_errs(all0)[hist_errs(h0).len() as int] == CigarError::External(
                            src0[0]->Err_0,
                        ));
                        assert(src_errs(all0).len() >= hist_errs(h0).len() + 1);
                        // an error item holds no records, so only the error
                        // count drops
                        assert(src_keys(src0).len() == item_keys(src0[0]).len() + src_keys(
                            self.source@,
                        ).len());
                        assert(item_keys(src0[0]).len() == 0);
                        assert(src_errs(src0).len() == 1 + src_errs(self.source@).len());
                        assert(self.outstanding() == m0 - 1);
                        assert(old(self).source@.len() > 0);
                    }
                    return Some(Err(CigarError::External(e)));
                },
                Ok(t) => {
                    let (s, chrom, pos) = t;
                    let ghost sv = s@;
                    proof {
                        assert(src0[0] == Ok::<(String, u32, u32), E>((s, chrom, pos)));
                        assert(item_fits(src0[0]));
                    }
                    // admission rule: peek the item's first record; if the
                    // queue already holds a strictly smaller record, stop
                    let mut stop = false;
                    let mut probe = CigarIterator::new(s.as_str());
                    let first = probe.next::<E>();
                    let first_ok = match first {
                        Some(Ok(_)) => true,
                        _ => false,
                    };
                    if first_ok && self.queue.len() > 0 {
                        let qlen = self.queue.len();
                        let minc = self.queue[qlen - 1].chrom_id;
                        let minp = self.queue[qlen - 1].reference_position;
                        if chrom > minc || (chrom == minc && pos > minp) {
                            stop = true;
                        }
                    }
                    if stop {
                        self.source.insert(0, Ok((s, chrom, pos)));
                        proof {
                            assert(self.source@ =~= src0);
                        }
                        break;
                    }
                    proof {
                        ncons = ncons + 1;
                        assert(self.source@ =~= old(self).source@.skip(ncons));
                        assert(old(self).source@[ncons - 1] == src0[0]);
                        if src_sorted(all0) {
                            if item_keys(src0[0]).len() > 0 {
                                lemma_item_with_records_first_ok::<E>(src0[0]->Ok_0);
                                assert(first_ok);
                            }
                            assert forall|i: int, j: int|
                                0 <= i < ncons && (#[trigger] old(self).source@.take(
                                    ncons,
                                )[i]) is Ok && item_keys(old(self).source@.take(ncons)[i]).len()
                                    > 0 && 0 <= j < self.queue@.len() implies !cp_lt(
                                (#[trigger] self.queue@[j]).chrom_id,
                                self.queue@[j].reference_position,
                                old(self).source@.take(ncons)[i]->Ok_0.1,
                                old(self).source@.take(ncons)[i]->Ok_0.2,
                            ) by {
                                assert(old(self).source@.take(ncons)[i] == old(self).source@[i]);
                                if i < ncons - 1 {
                                    assert(old(self).source@.take(ncons - 1)[i] == old(
                                        self,
                                    ).source@[i]);
                                } else {
                                    assert(first_ok && self.queue@.len() > 0);
                                    let mn = self.queue@.last();
                                    assert(!cp_lt(mn.chrom_id, mn.reference_position, chrom, pos));
                                    if j < self.queue@.len() - 1 {
                                        assert(key_le(mn, self.queue@[j]));
                                    }
                                    lemma_key_le_cp(mn, self.queue@[j]);
                                }
                            }
                            assert(consumed_anchors_low(
                                old(self).source@.take(ncons),
                                self.queue@,
                            ));
                        }
                    }
                    // decode the whole item first, buffering its records:
                    // they are admitted only when every token decodes
                    let ghost rest = self.source@;
                    let ghost q_in = self.queue@;
                    let mut aug = AugmentedCigarIterator::new(s.as_str(), chrom, pos);
                    let mut buf: Vec<AugmentedCigarElement> = Vec::new();
                    proof {
                        assert(src_keys(src0) == item_keys(src0[0]).add(src_keys(rest)));
                        assert(src_errs(src0) == item_errs(src0[0]) + src_errs(rest));
                        assert(item_errs(src0[0]) == errs_from::<E>(sv));
                        assert(keys_of(buf@) =~= Seq::<GroupKey>::empty());
                        keys_of(buf@).to_multiset_ensures();
                        assert forall|k: GroupKey| keys_of(buf@).to_multiset().count(k) == 0 by {
                            assert(!keys_of(buf@).contains(k));
                        }
                        assert(keys_of(buf@).to_multiset().add(
                            rec_keys(sv, chrom, 0, pos as int),
                        ) =~= rec_keys(sv, chrom, 0, pos as int));
                    }
                    loop
                        invariant
                            all0 == old(self).all@,
                            h0 == old(self).hist@,
                            aug.wf(),
                            aug.chrom() == chrom,
                            aug.ref_pos() >= pos,
                            self.all@ == all0,
                            self.hist@ == h0,
                            self.source@ == rest,
                            self.queue@ == q_in,
                            keys_of(buf@).to_multiset().add(
                                rec_keys(
                                    aug.remaining(),
                                    chrom,
                                    aug.read_pos() as int,
                                    aug.ref_pos() as int,
                                ),
                            ) == rec_keys(sv, chrom, 0, pos as int),
                            self.pending@ + errs_from::<E>(aug.remaining()) == errs_from::<E>(sv),
                            forall|j: int|
                                0 <= j < buf@.len() ==> (#[trigger] buf@[j]).chrom_id == chrom
                                    && buf@[j].reference_position >= pos,
                            1 <= ncons <= old(self).source@.len(),
                            src_sorted(all0) ==> src_sorted(old(self).source@)
                                && consumed_anchors_low(
                                old(self).source@.take(ncons),
                                self.queue@,
                            ),
                        ensures
                            aug.remaining().len() == 0,
                            self.all@ == all0,
                            self.hist@ == h0,
                            self.source@ == rest,
                            self.queue@ == q_in,
                            keys_of(buf@).to_multiset().add(
                                rec_keys(
                                    aug.remaining(),
                                    chrom,
                                    aug.read_pos() as int,
                                    aug.ref_pos() as int,
                                ),
                            ) == rec_keys(sv, chrom, 0, pos as int),
                            self.pending@ + errs_from::<E>(aug.remaining()) == errs_from::<E>(sv),
                            forall|j: int|
                                0 <= j < buf@.len() ==> (#[trigger] buf@[j]).chrom_id == chrom
                                    && buf@[j].reference_position >= pos,
                            1 <= ncons <= old(self).source@.len(),
                            src_sorted(all0) ==> src_sorted(old(self).source@)
                                && consumed_anchors_low(
                                old(self).source@.take(ncons),
                                self.queue@,
                            ),
                        decreases aug.remaining().len(),
                    {
                        let ghost rem0 = aug.remaining();
                        let ghost rp0 = aug.read_pos();
                        let ghost fp0 = aug.ref_pos();
                        proof {
                            crate::augmented_cigar::lemma_tok_head_erases::<E>(rem0);
                        }
                        match aug.next::<E>() {
                            None => {
                                break;
                            },
                            Some(Ok(rec)) => {
                                let ghost b0 = buf@;
                                buf.push(rec);
                                proof {
                                    assert(tok_head::<()>(rem0) is Ok);
                                    let tk = tok_head::<()>(rem0)->Ok_0;
                                    assert(rec == AugmentedCigarElement {
                                        length: tk.length,
                                        op: tk.op,
                                        read_position: rp0,
                                        reference_position: fp0,
                                        chrom_id: chrom,
                                    });
                                    assert(rec_keys(rem0, chrom, rp0 as int, fp0 as int)
                                        == rec_keys(
                                        aug.remaining(),
                                        chrom,
                                        aug.read_pos() as int,
                                        aug.ref_pos() as int,
                                    ).insert(gkey(rec)));
                                    assert(keys_of(buf@) =~= keys_of(b0).push(gkey(rec)));
                                    keys_of(b0).to_multiset_ensures();
                                    assert(keys_of(buf@).to_multiset() =~= keys_of(
                                        b0,
                                    ).to_multiset().insert(gkey(rec)));
                                    assert(keys_of(buf@).to_multiset().add(
                                        rec_keys(
                                            aug.remaining(),
                                            chrom,
                                            aug.read_pos() as int,
                                            aug.ref_pos() as int,
                                        ),
                                    ) =~= keys_of(b0).to_multiset().add(
                                        rec_keys(rem0, chrom, rp0 as int, fp0 as int),
                                    ));
                                }
                            },
                            Some(Err(e)) => {
                                let ghost p_before = self.pending@;
                                self.pending.push(e);
                                proof {
                                    assert(errs_from::<E>(rem0) == seq![e] + errs_from::<E>(
                                        aug.remaining(),
                                    ));
                                    assert(self.pending@ + errs_from::<E>(aug.remaining())
                                        =~= p_before + errs_from::<E>(rem0));
                                }
                            },
                        }
                    }
                    proof {
                        assert(rec_keys(aug.remaining(), chrom, aug.read_pos() as int,
                        aug.ref_pos() as int) =~= Multiset::<GroupKey>::empty());
                        assert(errs_from::<E>(aug.remaining()) =~= Seq::<CigarError<E>>::empty());
                        assert(keys_of(buf@).to_multiset() =~= rec_keys(sv, chrom, 0, pos as int));
                        assert(self.pending@ =~= errs_from::<E>(sv));
                    }
                    if self.pending.len() > 0 {
                        // the item's decode failed: none of its records is
                        // admitted; its errors are surfaced, the first now
                        proof {
                            assert(errs_from::<E>(sv).len() > 0);
                            assert(item_keys(src0[0]) =~= Multiset::<GroupKey>::empty());
                            assert(src_keys(src0) =~= src_keys(rest));
                            assert(hist_keys(h0).add(keys_of(self.queue@).to_multiset()).add(
                                src_keys(rest),
                            ) =~= src_keys(all0));
                            assert(hist_errs(h0) + self.pending@ + src_errs(rest) =~= hist_errs(
                                h0,
                            ) + src_errs(src0));
                        }
                        let ghost p0 = self.pending@;
                        let e = self.pending.remove(0);
                        let ghost out = Err::<(AugmentedCigarElement, usize), CigarError<E>>(e);
                        proof {
                            lemma_hist_snoc(h0, out);
                            assert(hist_errs(h0.push(out)) + self.pending@ + src_errs(self.source@)
                                =~= hist_errs(h0) + p0 + src_errs(self.source@));
                            assert(hist_keys(h0.push(out)).add(
                                keys_of(self.queue@).to_multiset(),
                            ).add(src_keys(self.source@)) =~= src_keys(all0));
                            if src_sorted(all0) {
                                lemma_push_err_ordered(h0, e);
                                assert(last_ok(h0.push(out)) == last_ok(h0));
                            }
                        }
                        self.hist = Ghost(h0.push(out));
                        proof {
                            assert(exists|n: int|
                                0 <= n <= old(self).src().len() && self.source@ == old(
                                    self,
                                ).src().skip(n)) by {
                                assert(self.source@ == old(self).src().skip(ncons));
                            }
                            // the surfaced decode error is the source's next
                            // error in order
                            assert(src_errs(all0) == hist_errs(h0) + src_errs(src0));
                            assert(src_errs(src0) == errs_from::<E>(sv) + src_errs(rest));
                            assert(p0 == errs_from::<E>(sv));
                            assert(p0.len() > 0);
                            assert(src_errs(all0)[hist_errs(h0).len() as int] == p0[0]);
                            assert(src_errs(all0).len() >= hist_errs(h0).len() + 1);
                            // no record was admitted: one error leaves the
                            // outstanding work
                            assert(src_keys(src0).len() == item_keys(src0[0]).len() + src_keys(
                                rest,
                            ).len());
                            assert(item_keys(src0[0]).len() == 0);
                            assert(src_errs(src0).len() == errs_from::<E>(sv).len() + src_errs(
                                rest,
                            ).len());
                            assert(self.pending@.len() + 1 == errs_from::<E>(sv).len());
                            assert(self.outstanding() == m0 - 1);
                            assert(old(self).source@.len() > 0);
                        }
                        return Some(Err(e));
                    }
                    // the item decodes cleanly: admit its records
                    proof {
                        assert(errs_from::<E>(sv).len() == 0);
                        assert(item_keys(src0[0]) == rec_keys(sv, chrom, 0, pos as int));
                    }
                    let ghost bufv = buf@;
                    let mut bi: usize = 0;
                    proof {
                        assert(bufv.take(0) =~= Seq::<AugmentedCigarElement>::empty());
                        assert(keys_of(bufv.take(0)) =~= Seq::<GroupKey>::empty());
                        keys_of(bufv.take(0)).to_multiset_ensures();
                        assert forall|k: GroupKey|
                            keys_of(bufv.take(0)).to_multiset().count(k) == 0 by {
                            assert(!keys_of(bufv.take(0)).contains(k));
                        }
                        assert(keys_of(self.queue@).to_multiset() =~= keys_of(
                            q_in,
                        ).to_multiset().add(keys_of(bufv.take(0)).to_multiset()));
                    }
                    loop
                        invariant
                            all0 == old(self).all@,
                            h0 == old(self).hist@,
                            bi <= bufv.len(),
                            buf@ == bufv,
                            self.all@ == all0,
                            self.hist@ == h0,
                            self.source@ == rest,
                            self.pending@.len() == 0,
                            1 <= ncons <= old(self).source@.len(),
                            old(self).source@[ncons - 1] is Ok,
                            old(self).source@[ncons - 1]->Ok_0.1 == chrom,
                            old(self).source@[ncons - 1]->Ok_0.2 == pos,
                            forall|j: int|
                                0 <= j < bufv.len() ==> (#[trigger] bufv[j]).chrom_id == chrom
                                    && bufv[j].reference_position >= pos,
                            sorted_desc(self.queue@),
                            keys_of(self.queue@).to_multiset() == keys_of(q_in).to_multiset().add(
                                keys_of(bufv.take(bi as int)).to_multiset(),
                            ),
                            src_sorted(all0) ==> src_sorted(rest) && src_sorted(
                                old(self).source@,
                            ) && ord_inv(h0, self.queue@, rest) && consumed_anchors_low(
                                old(self).source@.take(ncons),
                                self.queue@,
                            ) && (last_ok(h0) matches Some(m) ==> cp_lt(
                                m.chrom_id,
                                m.reference_position,
                                chrom,
                                pos,
                            )),
                        ensures
                            bi == bufv.len(),
                            self.all@ == all0,
                            self.hist@ == h0,
                            self.source@ == rest,
                            self.pending@.len() == 0,
                            sorted_desc(self.queue@),
                            keys_of(self.queue@).to_multiset() == keys_of(q_in).to_multiset().add(
                                keys_of(bufv.take(bi as int)).to_multiset(),
                            ),
                            src_sorted(all0) ==> src_sorted(rest) && ord_inv(
                                h0,
                                self.queue@,
                                rest,
                            ) && consumed_anchors_low(
                                old(self).source@.take(ncons),
                                self.queue@,
                            ),
                        decreases bufv.len() - bi,
                    {
                        if bi >= buf.len() {
                            break;
                        }
                        let rec = buf[bi];
                        let ghost q_before = self.queue@;
                        let _gi = queue_insert(&mut self.queue, rec);
                        proof {
                            assert(bufv.take(bi + 1) =~= bufv.take(bi as int).push(rec));
                            assert(keys_of(bufv.take(bi + 1)) =~= keys_of(
                                bufv.take(bi as int),
                            ).push(gkey(rec)));
                            keys_of(bufv.take(bi as int)).to_multiset_ensures();
                            assert(keys_of(bufv.take(bi + 1)).to_multiset() =~= keys_of(
                                bufv.take(bi as int),
                            ).to_multiset().insert(gkey(rec)));
                            assert(keys_of(self.queue@).to_multiset() =~= keys_of(
                                q_in,
                            ).to_multiset().add(keys_of(bufv.take(bi + 1)).to_multiset()));
                            if src_sorted(all0) {
                                match last_ok(h0) {
                                    Some(m) => {
                                        lemma_cp_key(m, rec);
                                        assert forall|i: int|
                                            0 <= i < self.queue@.len() implies key_lt(
                                            m,
                                            #[trigger] self.queue@[i],
                                        ) by {
                                            q_before.insert_ensures(_gi@, rec);
                                            if i != _gi@ {
                                                if i < _gi@ {
                                                    assert(self.queue@[i] == q_before[i]);
                                                } else {
                                                    assert(self.queue@[i] == q_before[i - 1]);
                                                }
                                            }
                                        }
                                    },
                                    None => {},
                                }
                                // the inserted record does not undercut any
                                // consumed item's anchor
                                assert forall|i2: int, j2: int|
                                    0 <= i2 < ncons && (#[trigger] old(self).source@.take(
                                        ncons,
                                    )[i2]) is Ok && item_keys(
                                        old(self).source@.take(ncons)[i2],
                                    ).len() > 0 && 0 <= j2 < self.queue@.len() implies !cp_lt(
                                    (#[trigger] self.queue@[j2]).chrom_id,
                                    self.queue@[j2].reference_position,
                                    old(self).source@.take(ncons)[i2]->Ok_0.1,
                                    old(self).source@.take(ncons)[i2]->Ok_0.2,
                                ) by {
                                    assert(old(self).source@.take(ncons)[i2] == old(
                                        self,
                                    ).source@[i2]);
                                    q_before.insert_ensures(_gi@, rec);
                                    if j2 == _gi@ {
                                        assert(self.queue@[j2] == rec);
                                        assert(rec.chrom_id == chrom && rec.reference_position
                                            >= pos);
                                    } else if j2 < _gi@ {
                                        assert(self.queue@[j2] == q_before[j2]);
                                    } else {
                                        assert(self.queue@[j2] == q_before[j2 - 1]);
                                    }
                                }
                            }
                        }
                        bi = bi + 1;
                    }
                    // re-establish the admission invariant over the
                    // shortened source
                    proof {
                        assert(bufv.take(bufv.len() as int) =~= bufv);
                        assert(keys_of(self.queue@).to_multiset() =~= keys_of(
                            q_in,
                        ).to_multiset().add(rec_keys(sv, chrom, 0, pos as int)));
                        assert(hist_keys(h0).add(keys_of(self.queue@).to_multiset()).add(
                            src_keys(rest),
                        ) =~= hist_keys(h0).add(keys_of(q_in).to_multiset()).add(src_keys(src0)));
                        assert(hist_errs(h0) + self.pending@ + src_errs(rest) =~= hist_errs(h0)
                            + src_errs(src0));
                        // measure: the item's records moved into the queue
                        keys_of(self.queue@).to_multiset_ensures();
                        keys_of(q_in).to_multiset_ensures();
                        assert(keys_of(self.queue@).to_multiset().len() == keys_of(
                            q_in,
                        ).to_multiset().len() + rec_keys(sv, chrom, 0, pos as int).len());
                        assert(keys_of(self.queue@).to_multiset().len() == keys_of(
                            self.queue@,
                        ).len());
                        assert(keys_of(q_in).to_multiset().len() == keys_of(q_in).len());
                        assert(self.queue@.len() == q_in.len() + rec_keys(
                            sv,
                            chrom,
                            0,
                            pos as int,
                        ).len());
                        assert(src_keys(src0).len() == rec_keys(sv, chrom, 0, pos as int).len()
                            + src_keys(rest).len());
                        assert(src_errs(src0).len() == errs_from::<E>(sv).len() + src_errs(
                            rest,
                        ).len());
                        assert(src_keys(self.source@).len() as int + self.queue@.len() as int
                            + src_errs(self.source@).len() as int + self.pending@.len() as int
                            == m0);
                    }
                },
            }
        }
        // drain: pop the least record and group every record equal to it
        if self.queue.len() == 0 {
            proof {
                assert(self.source@.len() == 0);
                assert(keys_of(self.queue@) =~= Seq::<GroupKey>::empty());
                assert forall|k: GroupKey| keys_of(self.queue@).to_multiset().count(k) == 0 by {
                    assert(!keys_of(self.queue@).contains(k));
                }
                assert(hist_keys(h0) =~= src_keys(all0));
                assert(src_errs(self.source@) =~= Seq::<CigarError<E>>::empty());
                assert(hist_errs(h0) =~= src_errs(all0));
                assert(src_keys(self.source@) == Multiset::<GroupKey>::empty());
                assert(self.outstanding() == 0);
                assert(exists|n: int|
                    0 <= n <= old(self).src().len() && self.source@ == old(self).src().skip(
                        n,
                    )) by {
                    assert(self.source@ == old(self).src().skip(ncons));
                }
            }
            return None;
        }
        let ghost srcF = self.source@;
        let ghost pendF = self.pending@;
        let ghost q0 = self.queue@;
        let qlen = self.queue.len();
        let elem = self.queue.remove(qlen - 1);
        let mut count: usize = 1;
        proof {
            assert(elem == q0.last());
            assert(self.queue@ =~= q0.drop_last());
            assert(self.queue@ =~= q0.take(q0.len() - 1));
            lemma_keys_drop_last(q0);
            assert(repeat_key(gkey(elem), 0) =~= Multiset::empty());
            assert(repeat_key(gkey(elem), 1) =~= Multiset::empty().insert(gkey(elem)));
            assert(keys_of(self.queue@).to_multiset().add(repeat_key(gkey(elem), 1)) =~= keys_of(
                q0,
            ).to_multiset());
        }
        loop
            invariant
                q0.len() > 0,
                q0.len() <= usize::MAX,
                sorted_desc(q0),
                elem == q0.last(),
                self.all@ == all0,
                self.hist@ == h0,
                self.source@ == srcF,
                self.pending@ == pendF,
                1 <= count <= q0.len(),
                count == q0.len() - self.queue@.len(),
                self.queue@ == q0.take(q0.len() - count),
                keys_of(self.queue@).to_multiset().add(repeat_key(gkey(elem), count as nat))
                    == keys_of(q0).to_multiset(),
            ensures
                self.all@ == all0,
                self.hist@ == h0,
                self.source@ == srcF,
                self.pending@ == pendF,
                1 <= count <= q0.len(),
                count == q0.len() - self.queue@.len(),
                self.queue@ == q0.take(q0.len() - count),
                keys_of(self.queue@).to_multiset().add(repeat_key(gkey(elem), count as nat))
                    == keys_of(q0).to_multiset(),
                self.queue@.len() > 0 ==> !same_group(self.queue@.last(), elem),
            decreases self.queue@.len(),
        {
            if self.queue.len() == 0 {
                break;
            }
            let l = self.queue.len();
            let eq = self.queue[l - 1].in_same_group(&elem);
            if !eq {
                break;
            }
            let ghost qq = self.queue@;
            let _dropped = self.queue.remove(l - 1);
            count = count + 1;
            proof {
                assert(self.queue@ =~= qq.drop_last());
                assert(self.queue@ =~= q0.take(q0.len() - count));
                lemma_keys_drop_last(qq);
                lemma_same_group_gkey(qq.last(), elem);
                assert(keys_of(self.queue@).to_multiset().add(
                    repeat_key(gkey(elem), count as nat),
                ) =~= keys_of(qq).to_multiset().add(repeat_key(gkey(elem), (count - 1) as nat)));
            }
        }
        let ghost out = Ok::<(AugmentedCigarElement, usize), CigarError<E>>((elem, count));
        proof {
            assert forall|a: int, b: int| 0 <= a < b < self.queue@.len() implies key_le(
                #[trigger] self.queue@[b],
                #[trigger] self.queue@[a],
            ) by {
                assert(self.queue@[a] == q0[a]);
                assert(self.queue@[b] == q0[b]);
            }
            lemma_hist_snoc(h0, out);
            // conservation: the emitted group's keys move from the queue to
            // the history
            assert(hist_keys(h0.push(out)).add(keys_of(self.queue@).to_multiset()).add(
                src_keys(self.source@),
            ) =~= hist_keys(h0).add(keys_of(q0).to_multiset()).add(src_keys(self.source@)));
            assert(hist_errs(h0.push(out)) =~= hist_errs(h0));
            assert(hist_errs(h0.push(out)) + self.pending@ + src_errs(self.source@) =~= hist_errs(
                h0,
            ) + self.pending@ + src_errs(self.source@));
            // the remaining queue lies strictly beyond the emitted group
            assert forall|i: int| 0 <= i < self.queue@.len() implies key_lt(
                elem,
                #[trigger] self.queue@[i],
            ) by {
                let j = q0.len() - count;
                assert(self.queue@[i] == q0[i]);
                assert(key_le(q0.last(), q0[i]));
                if same_group(q0[i], elem) {
                    crate::augmented_cigar::lemma_key_le_antisym(q0[i], elem);
                    crate::augmented_cigar::lemma_key_le_antisym(q0[j - 1], elem);
                    assert(key_le(q0[j - 1], q0[i]));
                    crate::augmented_cigar::lemma_key_le_trans(q0[j - 1], q0[i], elem);
                    crate::augmented_cigar::lemma_key_le_trans(elem, q0[j - 1], q0[i]);
                    assert(same_group(q0[j - 1], elem));
                    assert(self.queue@.last() == q0[j - 1]);
                } else {
                    crate::augmented_cigar::lemma_key_le_antisym(q0[i], elem);
                }
            }
            // on a success no error was consumed: the unconsumed source
            // keeps its errors and nothing joins the pending buffer
            assert(src_errs(srcF) =~= src_errs(old(self).source@)) by {
                let a = hist_errs(h0);
                assert(a + pendF + src_errs(srcF) == src_errs(all0));
                assert(a + old(self).pending@ + src_errs(old(self).source@) == src_errs(all0));
                assert((a + pendF + src_errs(srcF)).len() == a.len() + pendF.len() + src_errs(
                    srcF,
                ).len());
                assert((a + old(self).pending@ + src_errs(old(self).source@)).len() == a.len()
                    + old(self).pending@.len() + src_errs(old(self).source@).len());
                assert(src_errs(srcF).len() == src_errs(old(self).source@).len());
                assert forall|i: int|
                    0 <= i < src_errs(srcF).len() implies src_errs(srcF)[i] == src_errs(
                    old(self).source@,
                )[i] by {
                    assert(src_errs(all0)[a.len() + i] == (a + pendF + src_errs(srcF))[a.len()
                        + i]);
                    assert(src_errs(all0)[a.len() + i] == (a + old(self).pending@ + src_errs(
                        old(self).source@,
                    ))[a.len() + i]);
                }
            }
            assert(self.pending@ =~= old(self).pending@);
            // what the call accomplished, for the public clauses: one group
            // left the queue
            assert(self.queue@.len() == q0.len() - count);
            assert(self.outstanding() == m0 - count);
            assert(exists|n: int|
                0 <= n <= old(self).src().len() && self.source@ == old(self).src().skip(n)) by {
                assert(self.source@ == old(self).src().skip(ncons));
            }
            if old(self).source@.len() == 0 && hist_keys(old(self).hist@) == src_keys(all0)
                && hist_errs(old(self).hist@) == src_errs(all0) {
                // a completed collation holds nothing to pop: contradiction
                assert(srcF =~= old(self).source@);
                assert(src_keys(srcF) == Multiset::<GroupKey>::empty());
                assert(hist_keys(h0).add(keys_of(q0).to_multiset()).add(src_keys(srcF))
                    == src_keys(all0));
                assert(hist_keys(h0).add(keys_of(q0).to_multiset()).add(src_keys(srcF)).len()
                    == hist_keys(h0).len() + keys_of(q0).to_multiset().len() + src_keys(
                    srcF,
                ).len());
                keys_of(q0).to_multiset_ensures();
                assert(keys_of(q0).to_multiset().len() == 0);
                assert(keys_of(q0).len() == 0);
                assert(false);
            }
            if old(self).source@.len() == 0 && old(self).queue@.len() == 0 && old(
                self,
            ).pending@.len() == 0 {
                assert(keys_of(old(self).queue@) =~= Seq::<GroupKey>::empty());
                assert forall|k2: GroupKey|
                    keys_of(old(self).queue@).to_multiset().count(k2) == 0 by {
                    assert(!keys_of(old(self).queue@).contains(k2));
                }
                assert(hist_keys(h0) =~= src_keys(all0));
                assert(srcF =~= old(self).source@);
                assert(src_keys(srcF) == Multiset::<GroupKey>::empty());
                assert(hist_keys(h0).add(keys_of(q0).to_multiset()).add(src_keys(srcF))
                    == src_keys(all0));
                assert(hist_keys(h0).add(keys_of(q0).to_multiset()).add(src_keys(srcF)).len()
                    == hist_keys(h0).len() + keys_of(q0).to_multiset().len() + src_keys(
                    srcF,
                ).len());
                keys_of(q0).to_multiset_ensures();
                assert(keys_of(q0).to_multiset().len() == 0);
                assert(keys_of(q0).len() == 0);
                assert(false);
            }
            if src_sorted(all0) {
                // the emitted record extends the ordered history
                match last_ok(h0) {
                    Some(m) => {
                        assert(key_lt(m, elem)) by {
                            assert(q0.last() == q0[q0.len() - 1]);
                        }
                    },
                    None => {},
                }
                lemma_push_ok_ordered(h0, elem, count);
                assert(last_ok(h0.push(out)) == Some(elem));
                // the emitted count is the whole remaining multiplicity of
                // the group's key
                let k = gkey(elem);
                lemma_repeat_key_count(k, count as nat, k);
                assert(keys_of(self.queue@).to_multiset().count(k) == 0) by {
                    assert forall|i: int|
                        0 <= i < keys_of(self.queue@).len() implies keys_of(self.queue@)[i]
                        != k by {
                        lemma_same_group_gkey(self.queue@[i], elem);
                    }
                    assert(!keys_of(self.queue@).contains(k));
                }
                assert(keys_of(q0).to_multiset().count(k) == count as int);
                if self.source@.len() > 0 {
                    let t0 = self.source@[0]->Ok_0;
                    assert(cp_lt(elem.chrom_id, elem.reference_position, t0.1, t0.2));
                    assert forall|i: int|
                        0 <= i < self.source@.len() && self.source@[i] is Ok implies !cp_lt(
                        (#[trigger] self.source@[i])->Ok_0.1,
                        self.source@[i]->Ok_0.2,
                        t0.1,
                        t0.2,
                    ) by {
                        assert(self.source@[0] is Ok);
                    }
                    lemma_src_keys_anchor(self.source@, t0.1, t0.2);
                    assert(src_keys(self.source@).count(k) == 0) by {
                        if src_keys(self.source@).count(k) > 0 {
                            assert(!cp_lt(k.0, k.1, t0.1, t0.2));
                        }
                    }
                } else {
                    assert(src_keys(self.source@) == Multiset::<GroupKey>::empty());
                }
                assert(count as int == src_keys(all0).count(k) - hist_keys(h0).count(k));
                // nothing consumed by this call lies beyond the emitted
                // record
                assert(old(self).src().len() - self.source@.len() == ncons);
                assert forall|i: int|
                    0 <= i < old(self).src().len() - self.source@.len() && (#[trigger] old(
                        self,
                    ).src()[i]) is Ok && item_keys(old(self).src()[i]).len() > 0 implies !cp_lt(
                    elem.chrom_id,
                    elem.reference_position,
                    old(self).src()[i]->Ok_0.1,
                    old(self).src()[i]->Ok_0.2,
                ) by {
                    assert(old(self).source@.take(ncons)[i] == old(self).source@[i]);
                    assert(q0[q0.len() - 1] == elem);
                }
                // every unconsumed item starts strictly beyond the emitted
                // record
                assert forall|i: int|
                    0 <= i < self.source@.len() && self.source@[i] is Ok implies cp_lt(
                    elem.chrom_id,
                    elem.reference_position,
                    (#[trigger] self.source@[i])->Ok_0.1,
                    self.source@[i]->Ok_0.2,
                ) by {
                    assert(self.source@[0] is Ok);
                    assert(cp_lt(
                        elem.chrom_id,
                        elem.reference_position,
                        self.source@[0]->Ok_0.1,
                        self.source@[0]->Ok_0.2,
                    ));
                }
            }
        }
        self.hist = Ghost(h0.push(out));
        Some(Ok((elem, count)))
    }
}

/// The sum of the `count` fields over the successful outputs whose record has
/// the given grouping key.
pub open spec fn emitted_total<E>(
    hist: Seq<Result<(AugmentedCigarElement, usize), CigarError<E>>>,
    k: GroupKey,
) -> int
    decreases hist.len(),
{
    if hist.len() == 0 {
        0
    } else {
        emitted_total(hist.drop_last(), k) + (match hist.last() {
            Ok(t) => if gkey(t.0) == k {
                t.1 as int
            } else {
                0
            },
            Err(_) => 0,
        })
    }
}

/// Repeating a key `n` times yields `n` of that key and nothing else.
proof fn lemma_repeat_key_count(k: GroupKey, n: nat, k2: GroupKey)
    ensures
        repeat_key(k, n).count(k2) == if k == k2 {
            n as int
        } else {
            0
        },
    decreases n,
{
    broadcast use vstd::multiset::group_multiset_axioms;

    if n > 0 {
        lemma_repeat_key_count(k, (n - 1) as nat, k2);
    }
}

/// The summed counts for a key equal that key's multiplicity in the history's
/// key multiset.
proof fn lemma_emitted_total_is_count<E>(
    hist: Seq<Result<(AugmentedCigarElement, usize), CigarError<E>>>,
    k: GroupKey,
)
    ensures
        emitted_total(hist, k) == hist_keys(hist).count(k),
    decreases hist.len(),
{
    broadcast use vstd::multiset::group_multiset_axioms;

    if hist.len() > 0 {
        lemma_emitted_total_is_count(hist.drop_last(), k);
        match hist.last() {
            Ok(t) => {
                lemma_repeat_key_count(gkey(t.0), t.1 as nat, k);
            },
            Err(_) => {},
        }
    }
}

/// For a source whose anchors are sorted by chromosome then reference
/// position, the successful outputs of a collation are strictly increasing in
/// the record total order; in particular, within each chromosome the emitted
/// reference positions never decrease, and no grouping key is emitted twice.
pub proof fn lemma_collation_ordered<E>(it: &CollatedAugmentedCigarIterator<E>)
    requires
        it.wf(),
        src_sorted(it.all()),
    ensures
        ordered_hist(it.hist()),
        forall|i: int, j: int|
            0 <= i < j < it.hist().len() && it.hist()[i] is Ok && it.hist()[j] is Ok
                && (#[trigger] it.hist()[i])->Ok_0.0.chrom_id == (#[trigger] it.hist()[j])->Ok_0.0.chrom_id
                ==> it.hist()[i]->Ok_0.0.reference_position
                <= it.hist()[j]->Ok_0.0.reference_position,
{
}

/// Once a collation has finished — `next` has returned `None`, so the history
/// accounts for the whole source — the sum of `count` over the outputs with
/// any given grouping key equals the number of records with that key among
/// the source's cleanly decoding items (a failing item contributes none).
pub proof fn lemma_collation_conserves_counts<E>(
    hist: Seq<Result<(AugmentedCigarElement, usize), CigarError<E>>>,
    all: Seq<Result<(String, u32, u32), E>>,
    k: GroupKey,
)
    requires
        hist_keys(hist) == src_keys(all),
    ensures
        emitted_total(hist, k) == src_keys(all).count(k),
{
    lemma_emitted_total_is_count(hist, k);
}

} // verus!
