//! Augmented CIGAR operations.
//!
//! Augmented CIGAR operations provide additional context to the standard CIGAR
//! operations by including the read and reference positions at which each
//! operation starts, and the reference sequence (chromosome) the alignment
//! targets.  This module also provides an iterator producing them from an
//! alignment anchor and a CIGAR string.

use vstd::prelude::*;

use crate::error::CigarError;
use crate::{
    counts_fit, op_rank, tok_head, tok_rest, CigarElement, CigarIterator, CigarOp,
};

verus! {

/// An augmented CIGAR operation element.
#[derive(Debug, Clone, Copy, PartialEq, Eq, Structural)]
pub struct AugmentedCigarElement {
    /// The length of the CIGAR operation.
    pub length: u32,
    /// The type of the CIGAR operation.
    pub op: CigarOp,
    /// The zero-based read offset at which the operation starts.
    pub read_position: u32,
    /// The zero-based reference offset at which the operation starts.
    pub reference_position: u32,
    /// The reference sequence the alignment targets.
    pub chrom_id: u32,
}

/// Whether an operation consumes read bases (advances the read cursor).
pub open spec fn read_advances(op: CigarOp) -> bool {
    match op {
        CigarOp::Match => true,
        CigarOp::Insertion => true,
        CigarOp::Deletion => false,
        CigarOp::Skip => false,
        CigarOp::SoftClip => true,
        CigarOp::HardClip => true,
        CigarOp::Padding => true,
        CigarOp::Equal => true,
        CigarOp::Diff => true,
    }
}

/// Whether an operation consumes reference bases (advances the reference
/// cursor).
pub open spec fn ref_advances(op: CigarOp) -> bool {
    match op {
        CigarOp::Match => true,
        CigarOp::Insertion => false,
        CigarOp::Deletion => true,
        CigarOp::Skip => true,
        CigarOp::SoftClip => false,
        CigarOp::HardClip => false,
        CigarOp::Padding => false,
        CigarOp::Equal => true,
        CigarOp::Diff => true,
    }
}

/// How far a successfully decoded token advances the read cursor.
pub open spec fn tok_read_adv(t: CigarElement) -> int {
    if read_advances(t.op) {
        t.length as int
    } else {
        0
    }
}

/// How far a successfully decoded token advances the reference cursor.
pub open spec fn tok_ref_adv(t: CigarElement) -> int {
    if ref_advances(t.op) {
        t.length as int
    } else {
        0
    }
}

/// The total read-cursor advance over all successfully decoded tokens of a
/// CIGAR string.
pub open spec fn str_read_span(s: Seq<char>) -> int
    decreases s.len(),
{
    if s.len() == 0 {
        0
    } else {
        (match tok_head::<()>(s) {
            Ok(t) => tok_read_adv(t),
            Err(_) => 0,
        }) + str_read_span(tok_rest(s))
    }
}

/// The total reference-cursor advance over all successfully decoded tokens of
/// a CIGAR string.
pub open spec fn str_ref_span(s: Seq<char>) -> int
    decreases s.len(),
{
    if s.len() == 0 {
        0
    } else {
        (match tok_head::<()>(s) {
            Ok(t) => tok_ref_adv(t),
            Err(_) => 0,
        }) + str_ref_span(tok_rest(s))
    }
}

/// The augmented records produced from a CIGAR string, given the alignment's
/// chromosome and the cursor positions at which decoding starts.  A malformed
/// token produces no record and advances no cursor.
pub open spec fn recs_from(s: Seq<char>, chrom: u32, read: int, refp: int) -> Seq<
    AugmentedCigarElement,
>
    decreases s.len(),
{
    if s.len() == 0 {
        Seq::empty()
    } else {
        match tok_head::<()>(s) {
            Ok(t) => seq![
                AugmentedCigarElement {
                    length: t.length,
                    op: t.op,
                    read_position: read as u32,
                    reference_position: refp as u32,
                    chrom_id: chrom,
                },
            ] + recs_from(tok_rest(s), chrom, read + tok_read_adv(t), refp + tok_ref_adv(t)),
            Err(_) => recs_from(tok_rest(s), chrom, read, refp),
        }
    }
}

/// The decode errors produced from a CIGAR string, in order.
pub open spec fn errs_from<E>(s: Seq<char>) -> Seq<CigarError<E>>
    decreases s.len(),
{
    if s.len() == 0 {
        Seq::empty()
    } else {
        match tok_head::<E>(s) {
            Ok(_) => errs_from::<E>(tok_rest(s)),
            Err(e) => seq![e] + errs_from::<E>(tok_rest(s)),
        }
    }
}

/// The head token of a string does not depend on the external error type.
pub proof fn lemma_tok_head_erases<E>(s: Seq<char>)
    ensures
        tok_head::<E>(s) is Ok <==> tok_head::<()>(s) is Ok,
        tok_head::<E>(s) is Ok ==> tok_head::<E>(s)->Ok_0 == tok_head::<()>(s)->Ok_0,
{
}

/// Cursor spans are sums of non-negative advances.
pub proof fn lemma_spans_nonneg(s: Seq<char>)
    ensures
        0 <= str_read_span(s),
        0 <= str_ref_span(s),
    decreases s.len(),
{
    if s.len() > 0 {
        lemma_spans_nonneg(tok_rest(s));
    }
}

/// The cursor position reached after consuming a whole CIGAR string, applying
/// each token's read-cursor advance in turn.
pub open spec fn end_read(s: Seq<char>, read: int) -> int
    decreases s.len(),
{
    if s.len() == 0 {
        read
    } else {
        match tok_head::<()>(s) {
            Ok(t) => end_read(tok_rest(s), read + tok_read_adv(t)),
            Err(_) => end_read(tok_rest(s), read),
        }
    }
}

/// The cursor position reached after consuming a whole CIGAR string, applying
/// each token's reference-cursor advance in turn.
pub open spec fn end_ref(s: Seq<char>, refp: int) -> int
    decreases s.len(),
{
    if s.len() == 0 {
        refp
    } else {
        match tok_head::<()>(s) {
            Ok(t) => end_ref(tok_rest(s), refp + tok_ref_adv(t)),
            Err(_) => end_ref(tok_rest(s), refp),
        }
    }
}

/// The final cursor positions equal the starting positions plus the sum of the
/// per-token advances: stepping the cursors token by token and summing the
/// advances agree.
pub proof fn lemma_position_totals(s: Seq<char>, read: int, refp: int)
    ensures
        end_read(s, read) == read + str_read_span(s),
        end_ref(s, refp) == refp + str_ref_span(s),
    decreases s.len(),
{
    if s.len() > 0 {
        match tok_head::<()>(s) {
            Ok(t) => {
                lemma_position_totals(tok_rest(s), read + tok_read_adv(t), refp + tok_ref_adv(t));
            },
            Err(_) => {
                lemma_position_totals(tok_rest(s), read, refp);
            },
        }
    }
}

/// The total order on augmented records: by chromosome, then reference
/// position, then the operation's declaration order, then length.  The read
/// position takes no part: records equal under this order form one group.
pub open spec fn key_le(a: AugmentedCigarElement, b: AugmentedCigarElement) -> bool {
    if a.chrom_id != b.chrom_id {
        a.chrom_id < b.chrom_id
    } else if a.reference_position != b.reference_position {
        a.reference_position < b.reference_position
    } else if op_rank(a.op) != op_rank(b.op) {
        op_rank(a.op) < op_rank(b.op)
    } else {
        a.length <= b.length
    }
}

/// Equality under the grouping key: same chromosome, reference position,
/// operation and length (the read position is not part of the key).
pub open spec fn same_group(a: AugmentedCigarElement, b: AugmentedCigarElement) -> bool {
    a.chrom_id == b.chrom_id && a.reference_position == b.reference_position && a.op == b.op
        && a.length == b.length
}

/// The grouping key of a record, as a tuple ordered like [`key_le`].
pub open spec fn gkey(a: AugmentedCigarElement) -> (u32, u32, int, u32) {
    (a.chrom_id, a.reference_position, op_rank(a.op), a.length)
}

/// Strict order on (chromosome, reference position) pairs, the admission
/// order of the collation.
pub open spec fn cp_lt(c1: u32, p1: u32, c2: u32, p2: u32) -> bool {
    c1 < c2 || (c1 == c2 && p1 < p2)
}

impl AugmentedCigarElement {
    /// Whether `self` comes no later than `other` in the record total order.
    pub fn le(&self, other: &Self) -> (r: bool)
        ensures
            r == key_le(*self, *other),
    {
        if self.chrom_id != other.chrom_id {
            self.chrom_id < other.chrom_id
        } else if self.reference_position != other.reference_position {
            self.reference_position < other.reference_position
        } else if self.op.as_u8() != other.op.as_u8() {
            self.op.as_u8() < other.op.as_u8()
        } else {
            self.length <= other.length
        }
    }

    /// Whether `self` and `other` are equal under the grouping key.
    pub fn in_same_group(&self, other: &Self) -> (r: bool)
        ensures
            r == same_group(*self, *other),
    {
        self.chrom_id == other.chrom_id && self.reference_position == other.reference_position
            && self.op == other.op && self.length == other.length
    }
}

/// Records equal under the grouping key are exactly those equal under the
/// total order in both directions.
pub proof fn lemma_key_le_antisym(a: AugmentedCigarElement, b: AugmentedCigarElement)
    ensures
        same_group(a, b) <==> (key_le(a, b) && key_le(b, a)),
        key_le(a, b) || key_le(b, a),
{
}

/// The record total order is transitive.
pub proof fn lemma_key_le_trans(
    a: AugmentedCigarElement,
    b: AugmentedCigarElement,
    c: AugmentedCigarElement,
)
    requires
        key_le(a, b),
        key_le(b, c),
    ensures
        key_le(a, c),
{
}

/// An iterator over augmented CIGAR elements.
pub struct AugmentedCigarIterator {
    inner: CigarIterator,
    read_position: u32,
    reference_position: u32,
    chrom_id: u32,
}

impl AugmentedCigarIterator {
    /// The characters of the CIGAR string not yet consumed.
    pub closed spec fn remaining(&self) -> Seq<char> {
        self.inner@
    }

    /// The current read-cursor position.
    pub closed spec fn read_pos(&self) -> u32 {
        self.read_position
    }

    /// The current reference-cursor position.
    pub closed spec fn ref_pos(&self) -> u32 {
        self.reference_position
    }

    /// The chromosome of the alignment.
    pub closed spec fn chrom(&self) -> u32 {
        self.chrom_id
    }

    /// The cursors stay within `u32` over the whole remaining string.
    pub closed spec fn wf(&self) -> bool {
        &&& self.inner.wf()
        &&& counts_fit(self.inner@)
        &&& self.read_position + str_read_span(self.inner@) <= u32::MAX
        &&& self.reference_position + str_ref_span(self.inner@) <= u32::MAX
    }

    /// Create an augmented iterator over a CIGAR string anchored at the given
    /// chromosome and reference position, with the read cursor at zero.
    pub fn new(cigar: &str, chrom_id: u32, reference_position: u32) -> (r: Self)
        requires
            counts_fit(cigar@),
            str_read_span(cigar@) <= u32::MAX,
            reference_position + str_ref_span(cigar@) <= u32::MAX,
        ensures
            r.wf(),
            r.remaining() == cigar@,
            r.read_pos() == 0,
            r.ref_pos() == reference_position,
            r.chrom() == chrom_id,
    {
        let inner = CigarIterator::new(cigar);
        AugmentedCigarIterator { inner, read_position: 0, reference_position, chrom_id }
    }

    /// Create an augmented iterator over an already-constructed CIGAR
    /// iterator, anchored at the given chromosome and reference position.
    pub fn from_parts(inner: CigarIterator, chrom_id: u32, reference_position: u32) -> (r: Self)
        requires
            inner.wf(),
            str_read_span(inner@) <= u32::MAX,
            reference_position + str_ref_span(inner@) <= u32::MAX,
        ensures
            r.wf(),
            r.remaining() == inner@,
            r.read_pos() == 0,
            r.ref_pos() == reference_position,
            r.chrom() == chrom_id,
    {
        proof {
            crate::lemma_wf_counts_fit(&inner);
        }
        AugmentedCigarIterator { inner, read_position: 0, reference_position, chrom_id }
    }

    /// Produce the next augmented record: the next decoded token annotated
    /// with the cursor positions before its consumption, after which the
    /// cursors advance by the operation's consumption rule.  A decode error is
    /// passed through and advances no cursor.
    pub fn next<E>(&mut self) -> (r: Option<
        Result<AugmentedCigarElement, CigarError<E>>,
    >)
        requires
            old(self).wf(),
        ensures
            final(self).wf(),
            final(self).chrom() == old(self).chrom(),
            old(self).remaining().len() == 0 ==> {
                &&& r is None
                &&& final(self).remaining() == old(self).remaining()
                &&& final(self).read_pos() == old(self).read_pos()
                &&& final(self).ref_pos() == old(self).ref_pos()
            },
            old(self).remaining().len() > 0 ==> {
                &&& final(self).remaining() == tok_rest(old(self).remaining())
                &&& (tok_head::<()>(old(self).remaining()) matches Ok(t) ==> {
                    &&& r == Some(
                        Ok::<AugmentedCigarElement, CigarError<E>>(
                            AugmentedCigarElement {
                                length: t.length,
                                op: t.op,
                                read_position: old(self).read_pos(),
                                reference_position: old(self).ref_pos(),
                                chrom_id: old(self).chrom(),
                            },
                        ),
                    )
                    &&& final(self).read_pos() == old(self).read_pos() + tok_read_adv(t)
                    &&& final(self).ref_pos() == old(self).ref_pos() + tok_ref_adv(t)
                })
                &&& (tok_head::<E>(old(self).remaining()) matches Err(e) ==> {
                    &&& r == Some(Err::<AugmentedCigarElement, CigarError<E>>(e))
                    &&& final(self).read_pos() == old(self).read_pos()
                    &&& final(self).ref_pos() == old(self).ref_pos()
                })
            },
    {
        let ghost s = self.inner@;
        proof {
            lemma_tok_head_erases::<E>(s);
            if s.len() > 0 {
                lemma_spans_nonneg(tok_rest(s));
            }
        }
        let inner_elem = match self.inner.next::<E>() {
            None => {
                return None;
            },
            Some(x) => x,
        };
        match inner_elem {
            Ok(el) => {
                let elem = AugmentedCigarElement {
                    length: el.length,
                    op: el.op,
                    read_position: self.read_position,
                    reference_position: self.reference_position,
                    chrom_id: self.chrom_id,
                };
                match el.op {
                    CigarOp::Match => {
                        self.read_position = self.read_position + el.length;
                        self.reference_position = self.reference_position + el.length;
                    },
                    CigarOp::Insertion => {
                        self.read_position = self.read_position + el.length;
                    },
                    CigarOp::Deletion => {
                        self.reference_position = self.reference_position + el.length;
                    },
                    CigarOp::Skip => {
                        self.reference_position = self.reference_position + el.length;
                    },
                    CigarOp::SoftClip => {
                        self.read_position = self.read_position + el.length;
                    },
                    CigarOp::HardClip => {
                        self.read_position = self.read_position + el.length;
                    },
                    CigarOp::Padding => {
                        self.read_position = self.read_position + el.length;
                    },
                    CigarOp::Equal => {
                        self.read_position = self.read_position + el.length;
                        self.reference_position = self.reference_position + el.length;
                    },
                    CigarOp::Diff => {
                        self.read_position = self.read_position + el.length;
                        self.reference_position = self.reference_position + el.length;
                    },
                }
                Some(Ok(elem))
            },
            Err(e) => Some(Err(e)),
        }
    }
}

} // verus!
