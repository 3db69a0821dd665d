//! Hash-based commitment structures: a dense binary Merkle tree over an
//! ordered list of items and a sparse Merkle tree over a fixed-depth address
//! space, both with inclusion proofs that can be checked against a root.
//!
//! Every function carries a contract over a mathematical model of the
//! structure (sequences of digests, maps from slot to digest) and is proved
//! against it. The hash primitives themselves are assumed, not proved: each
//! one is a named function from bytes to bytes.

pub mod error;
pub mod hasher;
pub mod layers;
pub mod merkle_proof;
pub mod merkle_tree;
pub mod sparse;
pub mod text;

pub use error::MerkleError;
pub use hasher::{Blake3Hasher, Hasher, Sha256Hasher, Sha3Hasher};
pub use merkle_proof::{MerkleProof, ProofDirection};
pub use merkle_tree::MerkleTree;
pub use sparse::SparseMerkleTree;
