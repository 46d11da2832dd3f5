use vstd::prelude::*;

use crate::bytes::{clone_bytes, clone_opt_bytes, opt_view};
use crate::encode::{data_wf, key_wf};
use crate::errors::TrieError;
use crate::hashing::{branch_digest, branch_hash_bytes, leaf_digest, root_digest, root_hash_bytes};
use crate::model::put_m;
use crate::store::NodeStore;

verus! {

/// A 256-bit key: one element per bit, each 0 or 1.
pub type Key = Vec<u8>;

/// The 32-byte SHA-256 digest of a node's canonical encoding.
pub type NodeHash = Vec<u8>;

/// The digest that identifies a whole trie: the digest of its root.
pub type RootHash = Vec<u8>;

/// The mathematical value of a node: its structure, with the memoised
/// digest stripped. Contracts and the store model speak of this type.
#[verifier::ext_equal]
pub enum NodeV {
    Root { left: Option<Seq<u8>>, right: Option<Seq<u8>> },
    Branch { pos: u16, left: Seq<u8>, right: Seq<u8> },
    Leaf { key: Seq<u8>, data: Seq<u8> },
}

/// A terminal node holding a key and its payload.
///
/// `hash` memoises the digest of the canonical encoding; [`Leaf::hash`]
/// (re)computes it, so a stale value is never trusted by the engine.
#[derive(Clone, Debug)]
pub struct Leaf {
    pub key: Key,
    pub data: Vec<u8>,
    pub hash: Option<NodeHash>,
}

/// An internal node discriminating on a single bit position.
///
/// A branch always has exactly two children; a branch with a missing child
/// cannot be represented.
#[derive(Clone, Debug)]
pub struct Branch {
    pub pos: u16,
    pub left: NodeHash,
    pub right: NodeHash,
    pub hash: Option<NodeHash>,
}

/// The distinguished top node: up to two child hashes, one per first bit.
#[derive(Clone, Debug)]
pub struct Root {
    pub left: Option<NodeHash>,
    pub right: Option<NodeHash>,
    pub hash: Option<RootHash>,
}

/// The closed union of node variants.
#[derive(Clone, Debug)]
pub enum Node {
    Root(Root),
    Branch(Branch),
    Leaf(Leaf),
}

impl View for Leaf {
    type V = NodeV;

    open spec fn view(&self) -> NodeV {
        NodeV::Leaf { key: self.key@, data: self.data@ }
    }
}

impl View for Branch {
    type V = NodeV;

    open spec fn view(&self) -> NodeV {
        NodeV::Branch { pos: self.pos, left: self.left@, right: self.right@ }
    }
}

impl View for Root {
    type V = NodeV;

    open spec fn view(&self) -> NodeV {
        NodeV::Root { left: opt_view(self.left), right: opt_view(self.right) }
    }
}

impl View for Node {
    type V = NodeV;

    open spec fn view(&self) -> NodeV {
        match self {
            Node::Root(r) => r@,
            Node::Branch(b) => b@,
            Node::Leaf(l) => l@,
        }
    }
}

impl Leaf {
    /// A leaf carrying the given key and payload, digest not yet computed.
    pub fn new(key: Key, data: Vec<u8>) -> (l: Leaf)
        ensures
            l.key@ == key@,
            l.data@ == data@,
            l.hash is None,
    {
        Leaf { key, data, hash: None }
    }

    /// A leaf carrying the given key and an empty payload.
    pub fn empty(key: Key) -> (l: Leaf)
        ensures
            l.key@ == key@,
            l.data@ == Seq::<u8>::empty(),
            l.hash is None,
    {
        let data: Vec<u8> = Vec::new();
        proof {
            assert(data@ =~= Seq::<u8>::empty());
        }
        Leaf { key, data, hash: None }
    }

    /// Computes and memoises the digest of the canonical leaf encoding.
    /// Idempotent: the digest is a pure function of `(key, data)`.
    pub fn hash(&mut self)
        requires
            key_wf(old(self).key@),
            data_wf(old(self).data@),
        ensures
            final(self).key@ == old(self).key@,
            final(self).data@ == old(self).data@,
            final(self).hash matches Some(h) && h@ == leaf_digest(old(self).key@, old(self).data@),
    {
        let h = crate::hashing::leaf_hash_bytes(&self.key, &self.data);
        self.hash = Some(h);
    }

    /// Computes and memoises the digest, then stores the leaf under it.
    /// Idempotent: a digest already bound keeps its existing node.
    pub fn hash_and_store(&mut self, store: &mut NodeStore)
        requires
            key_wf(old(self).key@),
            data_wf(old(self).data@),
        ensures
            final(self).key@ == old(self).key@,
            final(self).data@ == old(self).data@,
            final(self).hash matches Some(h) && h@ == leaf_digest(old(self).key@, old(self).data@),
            final(store)@ == put_m(
                old(store)@,
                leaf_digest(old(self).key@, old(self).data@),
                final(self)@,
            ),
    {
        let h = crate::hashing::leaf_hash_bytes(&self.key, &self.data);
        self.hash = Some(clone_bytes(&h));
        let copy = Leaf {
            key: clone_bytes(&self.key),
            data: clone_bytes(&self.data),
            hash: Some(clone_bytes(&h)),
        };
        store.put(&h, Node::Leaf(copy));
    }
}

impl Branch {
    /// A branch discriminating at `pos`, with both children present.
    pub fn new(pos: u16, left: NodeHash, right: NodeHash) -> (b: Branch)
        ensures
            b.pos == pos,
            b.left@ == left@,
            b.right@ == right@,
            b.hash is None,
    {
        Branch { pos, left, right, hash: None }
    }

    /// Computes and memoises the digest of the canonical branch encoding.
    pub fn hash(&mut self)
        ensures
            final(self).pos == old(self).pos,
            final(self).left@ == old(self).left@,
            final(self).right@ == old(self).right@,
            final(self).hash matches Some(h) && h@ == crate::hashing::branch_digest(
                old(self).pos,
                old(self).left@,
                old(self).right@,
            ),
    {
        let h = branch_hash_bytes(self.pos, &self.left, &self.right);
        self.hash = Some(h);
    }

    /// Computes and memoises the digest, then stores the branch under it.
    /// Idempotent: a digest already bound keeps its existing node.
    pub fn hash_and_store(&mut self, store: &mut NodeStore)
        ensures
            final(self).pos == old(self).pos,
            final(self).left@ == old(self).left@,
            final(self).right@ == old(self).right@,
            final(self).hash matches Some(h) && h@ == branch_digest(
                old(self).pos,
                old(self).left@,
                old(self).right@,
            ),
            final(store)@ == put_m(
                old(store)@,
                branch_digest(old(self).pos, old(self).left@, old(self).right@),
                final(self)@,
            ),
    {
        let h = branch_hash_bytes(self.pos, &self.left, &self.right);
        self.hash = Some(clone_bytes(&h));
        let copy = Branch {
            pos: self.pos,
            left: clone_bytes(&self.left),
            right: clone_bytes(&self.right),
            hash: Some(clone_bytes(&h)),
        };
        store.put(&h, Node::Branch(copy));
    }
}

impl Root {
    /// The root of an empty trie: both children absent, digest not computed.
    pub fn empty() -> (r: Root)
        ensures
            r.left is None,
            r.right is None,
            r.hash is None,
    {
        Root { left: None, right: None, hash: None }
    }

    /// Computes and memoises the digest of the canonical root encoding.
    pub fn hash(&mut self)
        ensures
            opt_view(final(self).left) == opt_view(old(self).left),
            opt_view(final(self).right) == opt_view(old(self).right),
            final(self).hash matches Some(h) && h@ == root_digest(
                opt_view(old(self).left),
                opt_view(old(self).right),
            ),
    {
        let h = root_hash_bytes(&self.left, &self.right);
        self.hash = Some(h);
    }
}

/// A fresh node with the same structure (and the same memoised digest).
pub fn clone_node(n: &Node) -> (r: Node)
    ensures
        r@ == n@,
{
    match n {
        Node::Root(rt) => Node::Root(
            Root {
                left: clone_opt_bytes(&rt.left),
                right: clone_opt_bytes(&rt.right),
                hash: clone_opt_bytes(&rt.hash),
            },
        ),
        Node::Branch(b) => Node::Branch(
            Branch {
                pos: b.pos,
                left: clone_bytes(&b.left),
                right: clone_bytes(&b.right),
                hash: clone_opt_bytes(&b.hash),
            },
        ),
        Node::Leaf(l) => Node::Leaf(
            Leaf {
                key: clone_bytes(&l.key),
                data: clone_bytes(&l.data),
                hash: clone_opt_bytes(&l.hash),
            },
        ),
    }
}

impl Node {
    /// The leaf inside, or `Malformed` for any other variant.
    pub fn unwrap_as_leaf(self) -> (r: Result<Leaf, TrieError>)
        ensures
            match self {
                Node::Leaf(l) => r matches Ok(x) && x == l,
                _ => r == Err::<Leaf, TrieError>(TrieError::Malformed),
            },
    {
        match self {
            Node::Leaf(l) => Ok(l),
            _ => Err(TrieError::Malformed),
        }
    }
}

} // verus!
