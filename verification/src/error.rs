use vstd::prelude::*;

verus! {

/// What can go wrong when building or querying a tree.
#[derive(Debug, Clone, PartialEq)]
pub enum MerkleError {
    /// A tree was asked for over no items at all.
    EmptyData,
    /// A leaf or slot index lies outside the tree.
    InvalidIndex { index: usize, size: usize },
    /// A proof is structurally malformed.
    InvalidProof { reason: String },
    /// The hash capability reported a failure.
    HashError { message: String },
    /// A persisted form could not be written or read.
    SerializationError { message: String },
    /// The tree could not be constructed.
    TreeConstructionError { reason: String },
}

} // verus!
