//! Everything that can go wrong when encoding or decoding.
use vstd::prelude::*;

verus! {

#[derive(Debug, Clone, Copy, PartialEq, Eq, Structural)]
pub enum Error {
    /// The sequence to encode holds a value twice.
    ValidationDuplicateNumber,
    /// The sequence to encode holds a value not below its length.
    ValidationOutOfRange,
    /// The sequence is longer than this library handles.
    SequenceToLong { element_count: usize },
    /// An output buffer is too small for the code of `element_count` elements.
    OutVectorSize { byte_size: usize, element_count: u32 },
    /// The code is not the code of any permutation of the requested length.
    Decode,
}

} // verus!
