use vstd::prelude::*;

verus! {

/// Every failure the trie engine can surface.
///
/// No error is recovered internally: each one aborts the current operation
/// and leaves the previously returned root (and the store) intact.
#[derive(Clone, Copy, Debug, PartialEq, Eq, Structural)]
pub enum TrieError {
    /// A key whose length is not 256, or whose elements are not all 0 or 1.
    InvalidKeyLen,
    /// An insert found a leaf that already carries the given key.
    DuplicateKey,
    /// An update walked to a place where the given key is not present.
    NotFound,
    /// Structurally corrupt data: a root below the top, a branch position
    /// outside the key, a walk that does not terminate, or a proof whose
    /// shape is not leaf-up-to-root.
    Malformed,
    /// A child hash that does not resolve in the node store.
    StoreMissing,
    /// A proof that reconstructs to a root hash other than the expected one.
    InvalidProof,
}

} // verus!
