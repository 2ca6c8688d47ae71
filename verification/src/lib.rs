//! Chunked Merkle-tree file comparison.
//!
//! Splits a byte source into fixed-size blocks, digests each block into a
//! leaf hash, folds the leaves bottom-up into a binary Merkle tree held in a
//! flat arena, and walks two structurally identical trees in lockstep over a
//! challenge/response transport to find exactly which blocks differ.  A
//! refinement pass re-applies the same algorithm at a finer block size inside
//! a mismatched block to pin down exact byte offsets.

pub mod builder;
pub mod chunk;
pub mod diff;
pub mod hashing;
pub mod node;
pub mod refine;
