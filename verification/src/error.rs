//! The codec's error taxonomy.

use vstd::prelude::*;

verus! {

/// Why a conversion was rejected.
///
/// Every error is returned synchronously to the caller; a single invalid
/// word or out-of-range coordinate aborts the whole operation.
#[derive(Debug, Clone, PartialEq, Eq)]
pub enum Error {
    /// The word is not in the vocabulary table, or its table index is not a
    /// legal cell address for the grid level it was supplied at.
    InvalidWord(String),
    /// More than `LEVEL_COUNT` words were supplied for decoding; carries the
    /// number of words supplied.
    TooManyWords(usize),
    /// A latitude outside [-90, 90] or a longitude outside [-180, 180]
    /// degrees was supplied for encoding.
    CoordinatesOutOfRange,
}

} // verus!
