//! An authenticated key-value store over a sparse Merkle tree of fixed depth,
//! with membership proofs that a verifier checks against the root digest alone.

pub mod digest;
pub mod hashing;
pub mod node;
pub mod tree;
