use vstd::prelude::*;

verus! {

/// What can go wrong while reading the COPC hierarchy.
#[derive(Clone, Copy, Debug, PartialEq, Eq, Structural)]
pub enum CopcError {
    /// The metadata record is shorter than 160 bytes or has a non-zero reserved word.
    MalformedMetadata,
    /// A hierarchy page size that is not a multiple of 32.
    InvalidPageSize,
    /// Fewer bytes are available than a record requires.
    TruncatedRecord,
    /// Conflicting definitions of one key, or an entry with an invalid point count.
    CorruptHierarchy,
    /// The key is absent from the whole reachable hierarchy.
    KeyNotFound,
    /// The point decoder failed on a chunk.
    DecodeError,
}

} // verus!
