//! The typed errors of the library.

use vstd::prelude::*;

verus! {

/// Everything that can go wrong when building a tree or generating a proof.
#[derive(Debug, Clone, Copy, PartialEq, Eq, Structural)]
pub enum MerkleError {
    /// Construction was asked for a leaf count that is zero or not a power
    /// of two.
    InvalidLeafCount,
    /// A proof was requested for an index at or beyond the leaf range.
    IndexIsNotALeaf,
    /// A proof was requested for a block whose hash matches no leaf.
    CantFindDataInMerkleTree,
}

} // verus!
