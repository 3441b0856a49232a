//! A fixed-depth sparse Merkle tree over a 64-bit leaf space.
//!
//! The tree materializes only the nodes that updates have touched; every
//! other node takes the precomputed default value of its level. Each leaf
//! update returns a [`Proof`]: one record per level of the root-to-leaf
//! path, which a remote party can replay with [`Proof::verify`] without any
//! access to the tree itself.

pub mod protocol;
pub mod sparse_merkle_tree;

pub use sparse_merkle_tree::{hash, Data, Proof, Tree};
