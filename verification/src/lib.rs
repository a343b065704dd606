//! A Verkle tree: an authenticated key-value map over 32-byte keys in which
//! every node is summarized by a vector commitment over a fixed evaluation
//! domain of 256 points, so that a lookup can be certified by a chain of
//! openings whose size grows with the depth of the tree, not with its arity.
//!
//! The tree itself (path compression through extension nodes, splitting,
//! commitment bookkeeping, proof generation and proof checking) is verified.
//! The polynomial commitment backend (KZG over BLS12-381) and the
//! byte-string-to-field-element digest are outside collaborators reached
//! through a small set of trusted wrappers; every fact the proofs rely on
//! about them is stated explicitly on those wrappers.

pub mod kzg;
pub mod node;
pub mod tree;
pub mod utils;
pub mod vc;

pub use crate::kzg::KzgVc;
pub use crate::node::Value;
pub use crate::tree::VerkleTree;
