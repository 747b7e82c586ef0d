//! Errors produced while decoding CIGAR strings and collating alignments.

use vstd::prelude::*;

verus! {

/// Errors that can occur while parsing CIGAR strings or while collating
/// augmented operations from an external source.
///
/// The parameter `E` is the error type of the external source feeding a
/// collation; decoding itself never produces an `External` value.
#[derive(Debug)]
pub enum CigarError<E> {
    /// An invalid character was found in the CIGAR string.
    InvalidCharacter(char),
    /// An operation letter was found before any count digit.
    MissingCount(char),
    /// The string ended with count digits but no operation letter.
    MissingOperation(u32),
    /// An error produced by the external source of a collation.
    External(E),
}

} // verus!
