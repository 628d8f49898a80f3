use vstd::prelude::*;

use crate::hash::Digest;

verus! {

/// Every way in which generating or verifying a chunk can fail.
#[derive(Debug, Clone, Copy)]
pub enum ChunkError {
    /// `Parent` or `Child` found fewer than two entries on the stack, tried to
    /// attach where a child already stands, or the stack did not end with
    /// exactly one entry.
    MalformedProof,
    /// A node of a kind that is not allowed at its position.
    UnexpectedNodeKind,
    /// A child that must be present above the trunk's frontier is missing.
    IncompleteTrunk,
    /// A leaf chunk hashed to something other than what was expected.
    HashMismatch { expected: Digest, actual: Digest },
}

} // verus!
