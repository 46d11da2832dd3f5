//! A binary sparse Merkle trie: a content-addressed authenticated dictionary.
//!
//! Keys are 256-bit strings; each key maps to an opaque payload carried by a
//! leaf. Every node is stored in a [`store::NodeStore`] under its own SHA-256
//! digest, so mutation is copy-on-write: each insert yields a fresh root hash
//! that commits to the whole mapping. Compact inclusion proofs can be
//! extracted and verified against that root hash alone.

pub mod bytes;
pub mod encode;
pub mod errors;
pub mod hashing;
pub mod laws;
pub mod merkle;
pub mod model;
pub mod node;
pub mod shape;
pub mod store;
pub mod trie;
pub mod wire;

pub use errors::TrieError;
pub use node::{Branch, Key, Leaf, Node, NodeHash, Root, RootHash};
pub use store::NodeStore;
pub use trie::{check_leaf, find_key_idx_not_eq, insert_leaf, update_leaf};
