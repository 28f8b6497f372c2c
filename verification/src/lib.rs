//! A binary Merkle hash tree over opaque byte blocks.
//!
//! The tree is built bottom-up from a power-of-two number of data blocks:
//! every block is hashed into a leaf, adjacent hashes are combined pairwise
//! level by level, and all levels are stored flattened in one node array,
//! leaves first and root last.  From a built tree one can read the root
//! hash, generate an inclusion proof for a leaf (by index or by block
//! content), and check such a proof against a root hash without the tree.

use vstd::prelude::*;

pub mod error;
pub mod hashing;
pub mod proofs;
pub mod records;
pub mod tree;

verus! {

/// A data block: an opaque byte sequence supplied by the caller.
pub type Data = Vec<u8>;

/// A hash: the fixed 32-byte output of the digest primitive.
pub type Hash = Vec<u8>;

} // verus!

pub use error::MerkleError;
pub use hashing::hash_to_str;
pub use proofs::verify_merkle_proof;
pub use proofs::HashDirection;
pub use proofs::Proof;
pub use records::Inputs;
pub use records::Outputs;
pub use records::Transaction;
pub use tree::is_power_of_two;
pub use tree::MerkleRoot;
pub use tree::MerkleTree;
