//! Chunked proofs over an authenticated, ordered key-value tree.
//!
//! A tree is split into a depth-bounded *trunk* and self-contained *leaf*
//! chunks. Each chunk is a sequence of stack-machine operations that a peer can
//! execute and check on its own, without trusting whoever produced it.
pub mod chunk;
pub mod error;
pub mod hash;
pub mod leaf;
pub mod leaf_roundtrip;
pub mod ops;
pub mod rejection;
pub mod roundtrip;
pub mod tree;
