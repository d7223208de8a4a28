//! Symmetric primitives: pseudorandom functions, message hashing, tweakable
//! hashing, hash chains and Merkle trees.

pub mod message_hash;
pub mod prf;
pub mod tweak_hash;
pub mod tweak_hash_tree;
