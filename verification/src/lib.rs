//! A Merkle hash tree: commits to an ordered collection of elements with a
//! single root digest, produces membership proofs for single elements, checks
//! such proofs against the root, and supports incremental insertion of one
//! element at a time.

pub mod hashing;
pub mod merkle;
pub mod padding;

pub use hashing::concatenate_elements;
pub use hashing::hash_element;
pub use merkle::MerkleTree;
pub use padding::extend_elements;
