//! Parsing and collating of CIGAR strings.
//!
//! A CIGAR string is a compact encoding of how a sequence aligns against a
//! reference: a concatenation of `<count><operation-code>` tokens.  This crate
//! decodes such strings into structured operation records, annotates each
//! record with its read and reference coordinates, and merges many per-alignment
//! record streams into one globally position-ordered, duplicate-grouped stream.

use vstd::prelude::*;
use vstd::string::StringExecFns;

pub mod augmented_cigar;
pub mod collated;
pub mod error;
pub mod expand;

use crate::error::CigarError;

verus! {

/// CIGAR operation types.
///
/// The declaration order is load-bearing: it is the tie-break key used when
/// ordering augmented records (see [`op_rank`]).
#[derive(Debug, Clone, Copy, PartialEq, Eq, Structural)]
pub enum CigarOp {
    /// Alignment match (can be a sequence match or mismatch) (M).
    Match,
    /// Insertion to the reference (I).
    Insertion,
    /// Deletion from the reference (D).
    Deletion,
    /// Skipped region from the reference (N).
    Skip,
    /// Soft clipping (clipped sequences present in SEQ) (S).
    SoftClip,
    /// Hard clipping (clipped sequences NOT present in SEQ) (H).
    HardClip,
    /// Padding (silent deletion from padded reference) (P).
    Padding,
    /// Sequence match (=).
    Equal,
    /// Sequence mismatch (X).
    Diff,
}

/// The position of an operation in the declaration order of [`CigarOp`].
pub open spec fn op_rank(op: CigarOp) -> int {
    match op {
        CigarOp::Match => 0,
        CigarOp::Insertion => 1,
        CigarOp::Deletion => 2,
        CigarOp::Skip => 3,
        CigarOp::SoftClip => 4,
        CigarOp::HardClip => 5,
        CigarOp::Padding => 6,
        CigarOp::Equal => 7,
        CigarOp::Diff => 8,
    }
}

/// The canonical single-character code of an operation.
pub open spec fn op_code(op: CigarOp) -> char {
    match op {
        CigarOp::Match => 'M',
        CigarOp::Insertion => 'I',
        CigarOp::Deletion => 'D',
        CigarOp::Skip => 'N',
        CigarOp::SoftClip => 'S',
        CigarOp::HardClip => 'H',
        CigarOp::Padding => 'P',
        CigarOp::Equal => '=',
        CigarOp::Diff => 'X',
    }
}

/// The operation encoded by a character, if any.
pub open spec fn char_op(c: char) -> Option<CigarOp> {
    if c == 'M' {
        Some(CigarOp::Match)
    } else if c == 'I' {
        Some(CigarOp::Insertion)
    } else if c == 'D' {
        Some(CigarOp::Deletion)
    } else if c == 'N' {
        Some(CigarOp::Skip)
    } else if c == 'S' {
        Some(CigarOp::SoftClip)
    } else if c == 'H' {
        Some(CigarOp::HardClip)
    } else if c == 'P' {
        Some(CigarOp::Padding)
    } else if c == '=' {
        Some(CigarOp::Equal)
    } else if c == 'X' {
        Some(CigarOp::Diff)
    } else {
        None
    }
}

impl CigarOp {
    /// The operation's position in declaration order, as a `u8`.
    pub fn as_u8(self) -> (r: u8)
        ensures
            r as int == op_rank(self),
    {
        match self {
            CigarOp::Match => 0,
            CigarOp::Insertion => 1,
            CigarOp::Deletion => 2,
            CigarOp::Skip => 3,
            CigarOp::SoftClip => 4,
            CigarOp::HardClip => 5,
            CigarOp::Padding => 6,
            CigarOp::Equal => 7,
            CigarOp::Diff => 8,
        }
    }

    /// The operation at a position in declaration order, or the value back
    /// when it names no operation.
    pub fn from_u8(value: u8) -> (r: Result<CigarOp, u8>)
        ensures
            value <= 8 ==> r is Ok && op_rank(r->Ok_0) == value as int,
            value > 8 ==> r == Err::<CigarOp, u8>(value),
    {
        match value {
            0u8 => Ok(CigarOp::Match),
            1u8 => Ok(CigarOp::Insertion),
            2u8 => Ok(CigarOp::Deletion),
            3u8 => Ok(CigarOp::Skip),
            4u8 => Ok(CigarOp::SoftClip),
            5u8 => Ok(CigarOp::HardClip),
            6u8 => Ok(CigarOp::Padding),
            7u8 => Ok(CigarOp::Equal),
            8u8 => Ok(CigarOp::Diff),
            _ => Err(value),
        }
    }

    /// The canonical single-character code of the operation.
    pub fn code(self) -> (c: char)
        ensures
            c == op_code(self),
    {
        match self {
            CigarOp::Match => 'M',
            CigarOp::Insertion => 'I',
            CigarOp::Deletion => 'D',
            CigarOp::Skip => 'N',
            CigarOp::SoftClip => 'S',
            CigarOp::HardClip => 'H',
            CigarOp::Padding => 'P',
            CigarOp::Equal => '=',
            CigarOp::Diff => 'X',
        }
    }
}

/// A single CIGAR operation element.
#[derive(Debug, Clone, Copy, PartialEq, Eq, Structural)]
pub struct CigarElement {
    /// The length of the CIGAR operation.
    pub length: u32,
    /// The type of the CIGAR operation.
    pub op: CigarOp,
}

impl CigarElement {
    /// Create a new CIGAR element.
    pub fn new(length: u32, op: CigarOp) -> (r: Self)
        ensures
            r.length == length,
            r.op == op,
    {
        CigarElement { length, op }
    }
}

/// Whether a character is a decimal digit.
pub open spec fn is_digit_char(c: char) -> bool {
    48 <= c as u32 && c as u32 <= 57
}

/// The numeric value of a decimal digit character.
pub open spec fn digit_val(c: char) -> int {
    c as u32 - 48
}

/// The numeric value of a sequence of decimal digit characters.
pub open spec fn digits_val(ds: Seq<char>) -> int
    decreases ds.len(),
{
    if ds.len() == 0 {
        0
    } else {
        digits_val(ds.drop_last()) * 10 + digit_val(ds.last())
    }
}

/// The length of the maximal prefix of decimal digits.
pub open spec fn digit_prefix_len(s: Seq<char>) -> nat
    decreases s.len(),
{
    if s.len() == 0 || !is_digit_char(s[0]) {
        0
    } else {
        1 + digit_prefix_len(s.skip(1))
    }
}

/// Whether a character read where a count is expected means a missing count:
/// a letter, or the `=` operation code.  Any other character there is simply
/// invalid.
pub open spec fn is_letterlike(c: char) -> bool {
    (65 <= c as u32 && c as u32 <= 90) || (97 <= c as u32 && c as u32 <= 122) || c == '='
}

/// The first decoded token of a non-empty CIGAR string: either an element or
/// the error reported for the leading malformed fragment.
pub open spec fn tok_head<E>(s: Seq<char>) -> Result<CigarElement, CigarError<E>> {
    let k = digit_prefix_len(s) as int;
    if k == s.len() {
        Err(CigarError::MissingOperation(digits_val(s) as u32))
    } else if k == 0 {
        if is_letterlike(s[0]) {
            Err(CigarError::MissingCount(s[0]))
        } else {
            Err(CigarError::InvalidCharacter(s[0]))
        }
    } else {
        match char_op(s[k]) {
            Some(op) => Ok(CigarElement { length: digits_val(s.take(k)) as u32, op }),
            None => Err(CigarError::InvalidCharacter(s[k])),
        }
    }
}

/// What remains of a CIGAR string after its first token (or malformed
/// fragment) has been consumed.
pub open spec fn tok_rest(s: Seq<char>) -> Seq<char> {
    let k = digit_prefix_len(s) as int;
    if k >= s.len() {
        Seq::empty()
    } else {
        s.skip(k + 1)
    }
}

/// The full decode of a CIGAR string: one item per token, a malformed token
/// yielding one error item, with scanning resuming from the next character.
pub open spec fn decode<E>(s: Seq<char>) -> Seq<Result<CigarElement, CigarError<E>>>
    decreases s.len(),
{
    if s.len() == 0 {
        Seq::empty()
    } else {
        seq![tok_head::<E>(s)] + decode::<E>(tok_rest(s))
    }
}

/// Every count in the string fits in a `u32`.  This is the machine limit under
/// which the decoder's accumulated count cannot overflow.
pub open spec fn counts_fit(s: Seq<char>) -> bool
    decreases s.len(),
{
    if s.len() == 0 {
        true
    } else {
        digits_val(s.take(digit_prefix_len(s) as int)) <= u32::MAX && counts_fit(tok_rest(s))
    }
}

/// Basic bounds on the digit prefix: it lies within the string, consists of
/// digits, and is maximal.
pub proof fn lemma_digit_prefix_len(s: Seq<char>)
    ensures
        digit_prefix_len(s) <= s.len(),
        forall|i: int| 0 <= i < digit_prefix_len(s) ==> is_digit_char(#[trigger] s[i]),
        digit_prefix_len(s) < s.len() ==> !is_digit_char(s[digit_prefix_len(s) as int]),
    decreases s.len(),
{
    if s.len() == 0 || !is_digit_char(s[0]) {
    } else {
        lemma_digit_prefix_len(s.skip(1));
        assert forall|i: int| 0 <= i < digit_prefix_len(s) implies is_digit_char(#[trigger] s[i]) by {
            if i > 0 {
                assert(s.skip(1)[i - 1] == s[i]);
            }
        }
        if digit_prefix_len(s) < s.len() {
            assert(s.skip(1)[digit_prefix_len(s) as int - 1] == s[digit_prefix_len(s) as int]);
        }
    }
}

/// The value of a digit string is non-negative and grows (weakly) as digits
/// are appended.
pub proof fn lemma_digits_val_mono(s: Seq<char>, i: int, j: int)
    requires
        0 <= i <= j <= s.len(),
        forall|t: int| 0 <= t < j ==> is_digit_char(#[trigger] s[t]),
    ensures
        0 <= digits_val(s.take(i)),
        digits_val(s.take(i)) <= digits_val(s.take(j)),
    decreases j - i,
{
    if i == j {
        lemma_digits_val_nonneg(s.take(i));
    } else {
        lemma_digits_val_mono(s, i, j - 1);
        assert(s.take(j).drop_last() =~= s.take(j - 1));
        assert(s.take(j).last() == s[j - 1]);
        lemma_digits_val_nonneg(s.take(j - 1));
    }
}

/// The value of a sequence of digit characters is non-negative.
pub proof fn lemma_digits_val_nonneg(ds: Seq<char>)
    requires
        forall|t: int| 0 <= t < ds.len() ==> is_digit_char(#[trigger] ds[t]),
    ensures
        digits_val(ds) >= 0,
    decreases ds.len(),
{
    if ds.len() > 0 {
        lemma_digits_val_nonneg(ds.drop_last());
    }
}

/// An iterator over CIGAR elements decoded from a string.
pub struct CigarIterator {
    chars: Vec<char>,
    pos: usize,
}

impl View for CigarIterator {
    type V = Seq<char>;

    /// The characters not yet consumed.
    closed spec fn view(&self) -> Seq<char> {
        self.chars@.skip(self.pos as int)
    }
}

impl CigarIterator {
    /// The iterator's cursor lies within the string and every remaining count
    /// fits in a `u32`.
    pub closed spec fn wf(&self) -> bool {
        self.pos <= self.chars.len() && counts_fit(self@)
    }

    /// Create a new CIGAR iterator over a string.
    pub fn new(cigar: &str) -> (r: Self)
        requires
            counts_fit(cigar@),
        ensures
            r.wf(),
            r@ == cigar@,
    {
        let n = cigar.unicode_len();
        let mut v: Vec<char> = Vec::new();
        let mut i: usize = 0;
        while i < n
            invariant
                n == cigar@.len(),
                i <= n,
                v@ =~= cigar@.take(i as int),
            decreases n - i,
        {
            v.push(cigar.get_char(i));
            i = i + 1;
        }
        assert(v@ =~= cigar@);
        CigarIterator { chars: v, pos: 0 }
    }

    /// Decode the next token: the element it encodes, the error reported for a
    /// malformed fragment, or `None` at the end of the string.
    pub fn next<E>(&mut self) -> (r: Option<Result<CigarElement, CigarError<E>>>)
        requires
            old(self).wf(),
        ensures
            final(self).wf(),
            old(self)@.len() == 0 ==> r is None && final(self)@ == old(self)@,
            old(self)@.len() > 0 ==> r == Some(tok_head::<E>(old(self)@)) && final(self)@
                == tok_rest(old(self)@),
    {
        let ghost s = self@;
        proof {
            lemma_digit_prefix_len(s);
        }
        let len = self.chars.len();
        if self.pos >= len {
            return None;
        }
        let ghost pos0 = self.pos as int;
        let ghost k = digit_prefix_len(s) as int;
        let mut length: u32 = 0;
        let mut ndigits: usize = 0;
        loop
            invariant
                self.chars@.len() == len,
                self.chars == old(self).chars,
                0 <= pos0,
                pos0 + ndigits == self.pos,
                pos0 <= self.pos <= len,
                s == self.chars@.skip(pos0),
                s.len() == len - pos0,
                ndigits <= k,
                k == digit_prefix_len(s),
                k <= s.len(),
                counts_fit(s),
                forall|i: int| 0 <= i < k ==> is_digit_char(#[trigger] s[i]),
                k < s.len() ==> !is_digit_char(s[k]),
                digits_val(s.take(k)) <= u32::MAX,
                length == digits_val(s.take(ndigits as int)),
            ensures
                self.chars == old(self).chars,
                self.pos == pos0 + k,
                ndigits == k,
                length == digits_val(s.take(k)),
            decreases len - self.pos,
        {
            if self.pos >= len {
                // every remaining character was a digit
                assert(ndigits == s.len());
                assert(ndigits == k) by {
                    if k < s.len() {
                        assert(is_digit_char(s[k]));
                    }
                }
                break;
            }
            let c = self.chars[self.pos];
            assert(c == s[ndigits as int]);
            let d = c as u32;
            if !(48 <= d && d <= 57) {
                assert(!is_digit_char(s[ndigits as int]));
                assert(ndigits == k) by {
                    if ndigits < k {
                        assert(is_digit_char(s[ndigits as int]));
                    }
                }
                break;
            }
            assert(is_digit_char(s[ndigits as int]));
            assert(ndigits < k) by {
                if ndigits == k {
                    assert(k < s.len() && is_digit_char(s[k]));
                }
            }
            proof {
                lemma_digits_val_mono(s, ndigits + 1, k);
                assert(s.take(ndigits + 1).drop_last() =~= s.take(ndigits as int));
                assert(s.take(ndigits + 1).last() == s[ndigits as int]);
                lemma_digits_val_mono(s, ndigits as int, k);
            }
            length = length * 10 + (d - 48);
            self.pos = self.pos + 1;
            ndigits = ndigits + 1;
        }
        if self.pos >= len {
            // digits ran to the end of the string with no operation letter
            assert(k == s.len());
            assert(s.take(k) =~= s);
            return Some(Err(CigarError::MissingOperation(length)));
        }
        let c = self.chars[self.pos];
        assert(c == s[k]);
        self.pos = self.pos + 1;
        assert(self@ =~= tok_rest(s));
        if ndigits == 0 {
            let d = c as u32;
            if (65 <= d && d <= 90) || (97 <= d && d <= 122) || d == 61 {
                proof {
                    if d == 61 {
                        vstd::utf8::char_u32_cast(c, d);
                        vstd::utf8::char_u32_cast('=', 61);
                    }
                    assert(is_letterlike(c));
                }
                return Some(Err(CigarError::MissingCount(c)));
            }
            proof {
                assert(!is_letterlike(c)) by {
                    if c == '=' {
                        assert(c as u32 == 61);
                    }
                }
            }
            return Some(Err(CigarError::InvalidCharacter(c)));
        }
        proof {
            lemma_counts_fit_rest(s);
        }
        match c {
            'M' => Some(Ok(CigarElement::new(length, CigarOp::Match))),
            'I' => Some(Ok(CigarElement::new(length, CigarOp::Insertion))),
            'D' => Some(Ok(CigarElement::new(length, CigarOp::Deletion))),
            'N' => Some(Ok(CigarElement::new(length, CigarOp::Skip))),
            'S' => Some(Ok(CigarElement::new(length, CigarOp::SoftClip))),
            'H' => Some(Ok(CigarElement::new(length, CigarOp::HardClip))),
            'P' => Some(Ok(CigarElement::new(length, CigarOp::Padding))),
            '=' => Some(Ok(CigarElement::new(length, CigarOp::Equal))),
            'X' => Some(Ok(CigarElement::new(length, CigarOp::Diff))),
            _ => Some(Err(CigarError::InvalidCharacter(c))),
        }
    }
}

/// The canonical character of a decimal digit value.
pub open spec fn digit_char(d: int) -> char {
    if d == 0 {
        '0'
    } else if d == 1 {
        '1'
    } else if d == 2 {
        '2'
    } else if d == 3 {
        '3'
    } else if d == 4 {
        '4'
    } else if d == 5 {
        '5'
    } else if d == 6 {
        '6'
    } else if d == 7 {
        '7'
    } else if d == 8 {
        '8'
    } else {
        '9'
    }
}

/// The canonical decimal digits of a number, most significant first, with no
/// leading zeroes (a single zero digit for zero).
pub open spec fn dec_digits(n: int) -> Seq<char>
    decreases n,
{
    if n < 10 {
        seq![digit_char(n)]
    } else {
        dec_digits(n / 10).push(digit_char(n % 10))
    }
}

/// The canonical string form of one element: its length in decimal, then its
/// operation code.
pub open spec fn render_elem(t: CigarElement) -> Seq<char> {
    dec_digits(t.length as int).push(op_code(t.op))
}

/// The canonical string form of a sequence of elements, concatenated in
/// order.
pub open spec fn render_spec(ts: Seq<CigarElement>) -> Seq<char>
    decreases ts.len(),
{
    if ts.len() == 0 {
        Seq::empty()
    } else {
        render_elem(ts[0]) + render_spec(ts.drop_first())
    }
}

/// One digit as a string slice.
fn digit_str(d: u32) -> (s: &'static str)
    requires
        d < 10,
    ensures
        s@ == seq![digit_char(d as int)],
{
    match d {
        0u32 => {
            proof {
                reveal_strlit("0");
                assert("0"@ =~= seq![digit_char(0)]);
            }
            "0"
        },
        1u32 => {
            proof {
                reveal_strlit("1");
                assert("1"@ =~= seq![digit_char(1)]);
            }
            "1"
        },
        2u32 => {
            proof {
                reveal_strlit("2");
                assert("2"@ =~= seq![digit_char(2)]);
            }
            "2"
        },
        3u32 => {
            proof {
                reveal_strlit("3");
                assert("3"@ =~= seq![digit_char(3)]);
            }
            "3"
        },
        4u32 => {
            proof {
                reveal_strlit("4");
                assert("4"@ =~= seq![digit_char(4)]);
            }
            "4"
        },
        5u32 => {
            proof {
                reveal_strlit("5");
                assert("5"@ =~= seq![digit_char(5)]);
            }
            "5"
        },
        6u32 => {
            proof {
                reveal_strlit("6");
                assert("6"@ =~= seq![digit_char(6)]);
            }
            "6"
        },
        7u32 => {
            proof {
                reveal_strlit("7");
                assert("7"@ =~= seq![digit_char(7)]);
            }
            "7"
        },
        8u32 => {
            proof {
                reveal_strlit("8");
                assert("8"@ =~= seq![digit_char(8)]);
            }
            "8"
        },
        _ => {
            proof {
                reveal_strlit("9");
                assert("9"@ =~= seq![digit_char(9)]);
            }
            "9"
        },
    }
}

/// One operation code as a string slice.
fn code_str(op: CigarOp) -> (s: &'static str)
    ensures
        s@ == seq![op_code(op)],
{
    match op {
        CigarOp::Match => {
            proof {
                reveal_strlit("M");
                assert("M"@ =~= seq!['M']);
            }
            "M"
        },
        CigarOp::Insertion => {
            proof {
                reveal_strlit("I");
                assert("I"@ =~= seq!['I']);
            }
            "I"
        },
        CigarOp::Deletion => {
            proof {
                reveal_strlit("D");
                assert("D"@ =~= seq!['D']);
            }
            "D"
        },
        CigarOp::Skip => {
            proof {
                reveal_strlit("N");
                assert("N"@ =~= seq!['N']);
            }
            "N"
        },
        CigarOp::SoftClip => {
            proof {
                reveal_strlit("S");
                assert("S"@ =~= seq!['S']);
            }
            "S"
        },
        CigarOp::HardClip => {
            proof {
                reveal_strlit("H");
                assert("H"@ =~= seq!['H']);
            }
            "H"
        },
        CigarOp::Padding => {
            proof {
                reveal_strlit("P");
                assert("P"@ =~= seq!['P']);
            }
            "P"
        },
        CigarOp::Equal => {
            proof {
                reveal_strlit("=");
                assert("="@ =~= seq!['=']);
            }
            "="
        },
        CigarOp::Diff => {
            proof {
                reveal_strlit("X");
                assert("X"@ =~= seq!['X']);
            }
            "X"
        },
    }
}

/// Append the canonical decimal form of a number to a string.
fn push_decimal(out: &mut String, n: u32)
    ensures
        final(out)@ == old(out)@ + dec_digits(n as int),
    decreases n,
{
    if n >= 10 {
        push_decimal(out, n / 10);
        let s = digit_str(n % 10);
        out.append(s);
        proof {
            assert(out@ =~= old(out)@ + dec_digits(n as int));
        }
    } else {
        let s = digit_str(n);
        out.append(s);
        proof {
            assert(out@ =~= old(out)@ + dec_digits(n as int));
        }
    }
}

/// Rendering one more element appends its canonical form.
proof fn lemma_render_snoc(ts: Seq<CigarElement>, t: CigarElement)
    ensures
        render_spec(ts.push(t)) == render_spec(ts) + render_elem(t),
    decreases ts.len(),
{
    if ts.len() == 0 {
        assert(ts.push(t)[0] == t);
        assert(ts.push(t).drop_first() =~= Seq::<CigarElement>::empty());
        assert(render_spec(Seq::<CigarElement>::empty()) == Seq::<char>::empty());
        assert(render_spec(ts.push(t)) =~= render_spec(ts) + render_elem(t));
    } else {
        assert(ts.push(t).drop_first() =~= ts.drop_first().push(t));
        assert(ts.push(t)[0] == ts[0]);
        lemma_render_snoc(ts.drop_first(), t);
        assert(render_elem(ts[0]) + (render_spec(ts.drop_first()) + render_elem(t))
            =~= render_spec(ts) + render_elem(t));
    }
}

impl CigarElement {
    /// Convert a sequence of CIGAR elements into a CIGAR string.
    pub fn cigar_string(elements: Vec<CigarElement>) -> (s: String)
        ensures
            s@ == render_spec(elements@),
    {
        let mut out = String::new();
        let mut i: usize = 0;
        let n = elements.len();
        loop
            invariant
                i <= n,
                n == elements@.len(),
                out@ == render_spec(elements@.take(i as int)),
            ensures
                i == n,
                out@ == render_spec(elements@.take(i as int)),
            decreases n - i,
        {
            if i >= n {
                break;
            }
            let e = elements[i];
            push_decimal(&mut out, e.length);
            let c = code_str(e.op);
            out.append(c);
            proof {
                lemma_render_snoc(elements@.take(i as int), e);
                assert(elements@.take(i + 1) =~= elements@.take(i as int).push(e));
                assert(out@ =~= render_spec(elements@.take(i as int)) + render_elem(e));
            }
            i = i + 1;
        }
        proof {
            assert(elements@.take(n as int) =~= elements@);
        }
        out
    }
}

/// The canonical digit characters are digits with the right values, and no
/// digit is an operation code.
proof fn lemma_digit_char(d: int)
    requires
        0 <= d <= 9,
    ensures
        is_digit_char(digit_char(d)),
        digit_val(digit_char(d)) == d,
        char_op(digit_char(d)) is None,
{
}

/// The canonical decimal form of a number is non-empty, consists of digits,
/// and parses back to the number.
proof fn lemma_dec_digits(n: int)
    requires
        0 <= n,
    ensures
        dec_digits(n).len() >= 1,
        forall|i: int| 0 <= i < dec_digits(n).len() ==> is_digit_char(#[trigger] dec_digits(n)[i]),
        digits_val(dec_digits(n)) == n,
    decreases n,
{
    if n < 10 {
        lemma_digit_char(n);
        assert(dec_digits(n) =~= seq![digit_char(n)]);
        assert(dec_digits(n).drop_last() =~= Seq::<char>::empty());
        assert(digits_val(Seq::<char>::empty()) == 0);
    } else {
        lemma_dec_digits(n / 10);
        lemma_digit_char(n % 10);
        let ds = dec_digits(n);
        assert(ds == dec_digits(n / 10).push(digit_char(n % 10)));
        assert(ds.drop_last() =~= dec_digits(n / 10));
        assert(ds.last() == digit_char(n % 10));
        assert forall|i: int| 0 <= i < ds.len() implies is_digit_char(#[trigger] ds[i]) by {
            if i < ds.len() - 1 {
                assert(ds[i] == dec_digits(n / 10)[i]);
            }
        }
        assert(digits_val(ds) == (n / 10) * 10 + (n % 10));
        vstd::arithmetic::div_mod::lemma_fundamental_div_mod(n, 10);
    }
}

/// The digit prefix stops exactly at the first non-digit character.
proof fn lemma_dpl_stops(s: Seq<char>, k: int)
    requires
        0 <= k < s.len(),
        forall|i: int| 0 <= i < k ==> is_digit_char(#[trigger] s[i]),
        !is_digit_char(s[k]),
    ensures
        digit_prefix_len(s) == k,
    decreases k,
{
    if k == 0 {
    } else {
        assert forall|i: int| 0 <= i < k - 1 implies is_digit_char(#[trigger] s.skip(1)[i]) by {
            assert(s.skip(1)[i] == s[i + 1]);
        }
        assert(s.skip(1)[k - 1] == s[k]);
        lemma_dpl_stops(s.skip(1), k - 1);
    }
}

/// The operation encoded by an operation's code is the operation itself, and
/// no code is a digit.
proof fn lemma_op_code(op: CigarOp)
    ensures
        char_op(op_code(op)) == Some(op),
        !is_digit_char(op_code(op)),
{
}

/// Decoding a canonically rendered token sequence yields exactly those
/// tokens, each as a success, and the rendered string's counts are
/// well-limited.
pub proof fn lemma_decode_render<E>(ts: Seq<CigarElement>)
    ensures
        counts_fit(render_spec(ts)),
        decode::<E>(render_spec(ts)) == ts.map_values(
            |t: CigarElement| Ok::<CigarElement, CigarError<E>>(t),
        ),
    decreases ts.len(),
{
    let s = render_spec(ts);
    if ts.len() == 0 {
        assert(s.len() == 0);
        assert(decode::<E>(s) =~= ts.map_values(
            |t: CigarElement| Ok::<CigarElement, CigarError<E>>(t),
        ));
    } else {
        let t = ts[0];
        let rest = render_spec(ts.drop_first());
        let ds = dec_digits(t.length as int);
        let k = ds.len() as int;
        lemma_dec_digits(t.length as int);
        lemma_op_code(t.op);
        assert(s == (ds.push(op_code(t.op))) + rest);
        assert(s.len() == k + 1 + rest.len());
        assert forall|i: int| 0 <= i < k implies is_digit_char(#[trigger] s[i]) by {
            assert(s[i] == ds[i]);
        }
        assert(s[k] == op_code(t.op));
        lemma_dpl_stops(s, k);
        assert(s.take(k) =~= ds);
        assert(digits_val(s.take(k)) == t.length);
        assert(tok_head::<E>(s) == Ok::<CigarElement, CigarError<E>>(t));
        assert(tok_rest(s) =~= rest);
        lemma_decode_render::<E>(ts.drop_first());
        assert(decode::<E>(s) == seq![Ok::<CigarElement, CigarError<E>>(t)] + decode::<E>(rest));
        assert(decode::<E>(s) =~= ts.map_values(
            |t2: CigarElement| Ok::<CigarElement, CigarError<E>>(t2),
        ));
    }
}

/// The successfully decoded elements of a decode output, in order.
pub open spec fn decoded_elems<E>(items: Seq<Result<CigarElement, CigarError<E>>>) -> Seq<
    CigarElement,
>
    decreases items.len(),
{
    if items.len() == 0 {
        Seq::empty()
    } else {
        match items[0] {
            Ok(t) => seq![t] + decoded_elems(items.drop_first()),
            Err(_) => decoded_elems(items.drop_first()),
        }
    }
}

/// Round trip: a canonically rendered token string decodes without error, and
/// re-rendering the decoded elements yields the original string.
pub proof fn lemma_render_round_trip<E>(ts: Seq<CigarElement>)
    ensures
        decoded_elems(decode::<E>(render_spec(ts))) == ts,
        render_spec(decoded_elems(decode::<E>(render_spec(ts)))) == render_spec(ts),
{
    lemma_decode_render::<E>(ts);
    lemma_decoded_elems_of_oks::<E>(ts);
}

/// Projecting successes out of an all-success decode gives the tokens back.
proof fn lemma_decoded_elems_of_oks<E>(ts: Seq<CigarElement>)
    ensures
        decoded_elems(ts.map_values(|t: CigarElement| Ok::<CigarElement, CigarError<E>>(t)))
            == ts,
    decreases ts.len(),
{
    let m = ts.map_values(|t: CigarElement| Ok::<CigarElement, CigarError<E>>(t));
    if ts.len() == 0 {
        assert(decoded_elems(m) =~= ts);
    } else {
        lemma_decoded_elems_of_oks::<E>(ts.drop_first());
        assert(m.drop_first() =~= ts.drop_first().map_values(
            |t: CigarElement| Ok::<CigarElement, CigarError<E>>(t),
        ));
        assert(m[0] == Ok::<CigarElement, CigarError<E>>(ts[0]));
        assert(decoded_elems(m) =~= ts);
    }
}

/// A well-formed CIGAR iterator's remaining string has well-limited counts.
pub proof fn lemma_wf_counts_fit(it: &CigarIterator)
    requires
        it.wf(),
    ensures
        counts_fit(it@),
{
}

/// After one token of a well-limited string is consumed, the remainder is
/// well-limited too.
pub proof fn lemma_counts_fit_rest(s: Seq<char>)
    requires
        counts_fit(s),
        s.len() > 0,
    ensures
        counts_fit(tok_rest(s)),
{
}

} // verus!
