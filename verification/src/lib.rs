//! A sparse, verifiable view of a Merkle tree.
//!
//! The crate keeps only the 32-byte chunks needed to prove or mutate chosen
//! fields of a large structurally-serialized object: a `Partial` combines a
//! sparse chunk cache with a structural overlay that maps field paths to
//! positions in an implicit complete binary tree (root at 0, children of `i`
//! at `2i + 1` and `2i + 2`).

use vstd::prelude::*;

pub mod cache;
pub mod error;
pub mod field;
pub mod merkle_tree_overlay;
pub mod overlays;
pub mod partial;
pub mod path;
pub mod tree_arithmetic;

verus! {

/// Position of a node in the implicit complete binary tree, zero-indexed,
/// with the root at position 0.
pub type NodeIndex = u64;

/// Number of bytes in every tree chunk.
pub const BYTES_PER_CHUNK: usize = 32;

/// Wire format of a partial proof: positions paired one-to-one, by rank,
/// with 32-byte slices of a flat buffer; the `i`-th position's chunk
/// occupies bytes `[32 * i, 32 * i + 32)`.
#[derive(Debug, PartialEq, Eq)]
pub struct SerializedPartial {
    /// Tree positions covered by this message.
    pub indices: Vec<NodeIndex>,
    /// Flat buffer of the covered chunks, 32 bytes each.
    pub chunks: Vec<u8>,
}

impl SerializedPartial {
    /// The buffer holds exactly one 32-byte chunk per listed position.
    pub open spec fn wf(&self) -> bool {
        self.chunks@.len() == 32 * self.indices@.len()
    }
}

} // verus!
