use vstd::prelude::*;

use crate::bytes::{bytes_eq, clone_bytes, clone_opt_bytes, opt_view};
use crate::encode::{data_wf, is_valid_key, key_wf};
use crate::errors::TrieError;
use crate::hashing::{branch_hash_bytes, leaf_digest, leaf_hash_bytes, root_digest, root_hash_bytes};
use crate::model::{
    first_neq, first_neq_from, insert_at_spec, lemma_first_neq_exists, node_contains_key,
    root_insert_spec, store_wf, walk_fuel,
};
use crate::node::{Branch, Leaf, Node, NodeV, Root};
use crate::store::NodeStore;

verus! {

/// What an insert or update leaves behind, stated over the model.
///
/// An ill-formed key is rejected outright. Otherwise the leaf's digest is
/// memoised, and the store and the returned root are exactly what
/// [`root_insert_spec`] yields; on any error the store is untouched.
pub open spec fn upsert_post(
    m0: Map<Seq<u8>, NodeV>,
    leaf0: Leaf,
    root0: Node,
    m1: Map<Seq<u8>, NodeV>,
    leaf1: Leaf,
    r: Result<Root, TrieError>,
    is_update: bool,
) -> bool {
    if !key_wf(leaf0.key@) {
        &&& r == Err::<Root, TrieError>(TrieError::InvalidKeyLen)
        &&& m1 == m0
        &&& leaf1 == leaf0
    } else {
        &&& leaf1.key@ == leaf0.key@
        &&& leaf1.data@ == leaf0.data@
        &&& leaf1.hash matches Some(lh) && lh@ == leaf_digest(leaf0.key@, leaf0.data@)
        &&& match root0@ {
            NodeV::Root { left, right } => match root_insert_spec(
                m0,
                left,
                right,
                leaf0.key@,
                leaf0.data@,
                is_update,
            ) {
                Ok((m2, nl, nr)) => {
                    &&& m1 == m2
                    &&& r matches Ok(rt) && opt_view(rt.left) == nl && opt_view(rt.right) == nr
                        && (rt.hash matches Some(rh) && rh@ == root_digest(nl, nr))
                },
                Err(e) => r == Err::<Root, TrieError>(e) && m1 == m0,
            },
            _ => r == Err::<Root, TrieError>(TrieError::Malformed) && m1 == m0,
        }
    }
}

/// Inserts a fresh leaf and returns the new root; the previous root stays
/// valid, for no stored node is ever changed. The leaf's digest is
/// (re)computed and memoised on the way. The payload must fit the 32-bit
/// length prefix of the canonical encoding ([`data_wf`]); `is_valid_key`
/// decides key well-formedness at run time, and an ill-formed key is
/// rejected as `InvalidKeyLen`.
pub fn insert_leaf(store: &mut NodeStore, new_leaf: &mut Leaf, root_node: Node) -> (r: Result<
    Root,
    TrieError,
>)
    requires
        data_wf(old(new_leaf).data@),
    ensures
        store_wf(final(store)@),
        upsert_post(
            old(store)@,
            *old(new_leaf),
            root_node,
            final(store)@,
            *final(new_leaf),
            r,
            false,
        ),
{
    upsert(store, new_leaf, root_node, false)
}

/// Replaces the payload of an existing key and returns the new root.
/// A key not present yields `NotFound`.
pub fn update_leaf(store: &mut NodeStore, new_leaf: &mut Leaf, root_node: Node) -> (r: Result<
    Root,
    TrieError,
>)
    requires
        data_wf(old(new_leaf).data@),
    ensures
        store_wf(final(store)@),
        upsert_post(
            old(store)@,
            *old(new_leaf),
            root_node,
            final(store)@,
            *final(new_leaf),
            r,
            true,
        ),
{
    upsert(store, new_leaf, root_node, true)
}

/// The shared walk of insert and update: descend from the root, rebuild the
/// spine bottom-up, and rehash the root.
fn upsert(store: &mut NodeStore, new_leaf: &mut Leaf, root_node: Node, is_update: bool) -> (r:
    Result<Root, TrieError>)
    requires
        data_wf(old(new_leaf).data@),
    ensures
        store_wf(final(store)@),
        upsert_post(
            old(store)@,
            *old(new_leaf),
            root_node,
            final(store)@,
            *final(new_leaf),
            r,
            is_update,
        ),
{
    if !is_valid_key(&new_leaf.key) {
        proof {
            use_type_invariant(&*store);
            store.lemma_wf();
        }
        return Err(TrieError::InvalidKeyLen);
    }
    let lh = leaf_hash_bytes(&new_leaf.key, &new_leaf.data);
    new_leaf.hash = Some(clone_bytes(&lh));
    let rt = match root_node {
        Node::Root(rt) => rt,
        _ => {
            proof {
                use_type_invariant(&*store);
                store.lemma_wf();
            }
            return Err(TrieError::Malformed);
        },
    };
    let side = new_leaf.key[0];
    let slot = if side == 0 {
        &rt.left
    } else {
        &rt.right
    };
    match slot {
        None => {
            if is_update {
                proof {
                    use_type_invariant(&*store);
                    store.lemma_wf();
                }
                return Err(TrieError::NotFound);
            }
            let nl = Leaf {
                key: clone_bytes(&new_leaf.key),
                data: clone_bytes(&new_leaf.data),
                hash: Some(clone_bytes(&lh)),
            };
            store.put(&lh, Node::Leaf(nl));
            let (l2, r2) = if side == 0 {
                (Some(lh), clone_opt_bytes(&rt.right))
            } else {
                (clone_opt_bytes(&rt.left), Some(lh))
            };
            let rh = root_hash_bytes(&l2, &r2);
            Ok(Root { left: l2, right: r2, hash: Some(rh) })
        },
        Some(h0) => {
            let h = clone_bytes(h0);
            match insert_at(store, &h, &new_leaf.key, &new_leaf.data, is_update, 257) {
                Err(e) => Err(e),
                Ok(nh) => {
                    let (l2, r2) = if side == 0 {
                        (Some(nh), clone_opt_bytes(&rt.right))
                    } else {
                        (clone_opt_bytes(&rt.left), Some(nh))
                    };
                    let rh = root_hash_bytes(&l2, &r2);
                    Ok(Root { left: l2, right: r2, hash: Some(rh) })
                },
            }
        },
    }
}

/// The recursive descent: walks one step by `key`, rebuilds the child
/// subtree, then stores a rebound copy of the current branch. Returns the
/// hash of the rebuilt subtree. The store is exactly as [`insert_at_spec`]
/// says; on any error it is untouched.
fn insert_at(
    store: &mut NodeStore,
    h: &Vec<u8>,
    key: &Vec<u8>,
    data: &Vec<u8>,
    is_update: bool,
    fuel: u16,
) -> (r: Result<Vec<u8>, TrieError>)
    requires
        key_wf(key@),
        data_wf(data@),
    ensures
        store_wf(final(store)@),
        match insert_at_spec(old(store)@, h@, key@, data@, is_update, fuel as nat) {
            Ok(p) => r matches Ok(v) && v@ == p.1 && final(store)@ == p.0,
            Err(e) => r == Err::<Vec<u8>, TrieError>(e) && final(store)@ == old(store)@,
        },
    decreases fuel,
{
    if fuel == 0 {
        proof {
            use_type_invariant(&*store);
            store.lemma_wf();
        }
        return Err(TrieError::Malformed);
    }
    let node = match store.get(h) {
        None => {
            return Err(TrieError::StoreMissing);
        },
        Some(n) => n,
    };
    match node {
        Node::Root(_) => Err(TrieError::Malformed),
        Node::Leaf(lf) => {
            if bytes_eq(&lf.key, key) {
                if is_update {
                    let nlh = leaf_hash_bytes(key, data);
                    let nl = Leaf {
                        key: clone_bytes(key),
                        data: clone_bytes(data),
                        hash: Some(clone_bytes(&nlh)),
                    };
                    store.put(&nlh, Node::Leaf(nl));
                    Ok(nlh)
                } else {
                    Err(TrieError::DuplicateKey)
                }
            } else if is_update {
                Err(TrieError::NotFound)
            } else {
                proof {
                    lemma_first_neq_exists(key@, lf.key@);
                }
                let d = match find_key_idx_not_eq(key, &lf.key) {
                    Some(d) => d,
                    None => {
                        proof {
                            assert(false);
                        }
                        return Err(TrieError::Malformed);
                    },
                };
                let nlh = leaf_hash_bytes(key, data);
                let nl = Leaf {
                    key: clone_bytes(key),
                    data: clone_bytes(data),
                    hash: Some(clone_bytes(&nlh)),
                };
                store.put(&nlh, Node::Leaf(nl));
                let side = key[d];
                let (bl, br) = if side == 0 {
                    (clone_bytes(&nlh), clone_bytes(h))
                } else {
                    (clone_bytes(h), clone_bytes(&nlh))
                };
                let bh = branch_hash_bytes(d as u16, &bl, &br);
                let bnode = Branch { pos: d as u16, left: bl, right: br, hash: Some(
                    clone_bytes(&bh),
                ) };
                store.put(&bh, Node::Branch(bnode));
                Ok(bh)
            }
        },
        Node::Branch(b) => {
            if b.pos >= 256 {
                return Err(TrieError::Malformed);
            }
            let side = key[b.pos as usize];
            let ch = if side == 0 {
                &b.left
            } else {
                &b.right
            };
            match insert_at(store, ch, key, data, is_update, fuel - 1) {
                Err(e) => Err(e),
                Ok(nh) => {
                    let (bl2, br2) = if side == 0 {
                        (nh, clone_bytes(&b.right))
                    } else {
                        (clone_bytes(&b.left), nh)
                    };
                    let bh2 = branch_hash_bytes(b.pos, &bl2, &br2);
                    let bnode = Branch { pos: b.pos, left: bl2, right: br2, hash: Some(
                        clone_bytes(&bh2),
                    ) };
                    store.put(&bh2, Node::Branch(bnode));
                    Ok(bh2)
                },
            }
        },
    }
}

/// The least index at which the two keys differ, scanning the first whole.
pub fn find_key_idx_not_eq(k1: &Vec<u8>, k2: &Vec<u8>) -> (r: Option<usize>)
    requires
        k1@.len() <= k2@.len(),
    ensures
        match r {
            Some(d) => first_neq(k1@, k2@) == Some(d as nat) && d < k1@.len() && k1@[d as int]
                != k2@[d as int],
            None => first_neq(k1@, k2@) is None,
        },
{
    let mut i: usize = 0;
    while i < k1.len()
        invariant
            i <= k1@.len(),
            k1@.len() <= k2@.len(),
            first_neq(k1@, k2@) == first_neq_from(k1@, k2@, i as nat),
        decreases k1@.len() - i,
    {
        if k1[i] != k2[i] {
            return Some(i);
        }
        i += 1;
    }
    None
}

/// Whether the walk for the expected leaf's key, starting at the given
/// node, ends at a leaf carrying exactly that key.
pub fn check_leaf(store: &NodeStore, leaf_expected: Leaf, current_node: Node) -> (r: bool)
    ensures
        r == node_contains_key(store@, current_node@, leaf_expected.key@),
{
    match current_node {
        Node::Leaf(lf) => bytes_eq(&lf.key, &leaf_expected.key),
        Node::Root(rt) => {
            if leaf_expected.key.len() != 256 {
                return false;
            }
            let side = leaf_expected.key[0];
            let slot = if side == 0 {
                &rt.left
            } else {
                &rt.right
            };
            match slot {
                None => false,
                Some(h) => contains_from(store, h, &leaf_expected.key, 257),
            }
        },
        Node::Branch(b) => {
            if leaf_expected.key.len() != 256 {
                return false;
            }
            if b.pos >= 256 {
                return false;
            }
            let side = leaf_expected.key[b.pos as usize];
            let ch = if side == 0 {
                &b.left
            } else {
                &b.right
            };
            contains_from(store, ch, &leaf_expected.key, 257)
        },
    }
}

/// The read-only walk behind [`check_leaf`].
fn contains_from(store: &NodeStore, h: &Vec<u8>, key: &Vec<u8>, fuel: u16) -> (r: bool)
    requires
        key@.len() == 256,
    ensures
        r == crate::model::contains_key_from(store@, h@, key@, fuel as nat),
    decreases fuel,
{
    if fuel == 0 {
        return false;
    }
    let node = match store.get(h) {
        None => {
            return false;
        },
        Some(n) => n,
    };
    match node {
        Node::Leaf(lf) => bytes_eq(&lf.key, key),
        Node::Root(_) => false,
        Node::Branch(b) => {
            if b.pos >= 256 {
                return false;
            }
            let side = key[b.pos as usize];
            let ch = if side == 0 {
                &b.left
            } else {
                &b.right
            };
            contains_from(store, ch, key, fuel - 1)
        },
    }
}

} // verus!
