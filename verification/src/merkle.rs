use vstd::prelude::*;

use crate::bytes::{bytes_eq, clone_bytes, clone_opt_bytes, opt_view};
use crate::encode::is_valid_key;
use crate::errors::TrieError;
use crate::hashing::{branch_hash_bytes, leaf_hash_bytes, root_hash_bytes};
use crate::model::{prove_spec, reconstruct, store_wf, up_digest, walk_from};
use crate::node::{Node, NodeV, Root};
use crate::store::NodeStore;

verus! {

/// An ordered Merkle path: the root first, then every node down to the
/// leaf, each with the side it occupies in its parent.
#[derive(Clone, Debug)]
pub struct MerkleProof {
    pub nodes: Vec<(bool, Node)>,
}

/// The mathematical value of a proof: sides and node values, in path order.
pub open spec fn proof_view(s: Seq<(bool, Node)>) -> Seq<(bool, NodeV)> {
    s.map(|i: int, t: (bool, Node)| (t.0, t.1@))
}

impl View for MerkleProof {
    type V = Seq<(bool, NodeV)>;

    open spec fn view(&self) -> Seq<(bool, NodeV)> {
        proof_view(self.nodes@)
    }
}

/// Extracts the Merkle path for `key` at the given root: a read-only walk
/// collecting `(side, node)` pairs, exactly as [`prove_spec`] lays it out.
pub fn merkle_proof(store: &NodeStore, key: Vec<u8>, trie_root: Node) -> (r: Result<
    MerkleProof,
    TrieError,
>)
    ensures
        store_wf(store@),
        if key@.len() != 256 {
            r == Err::<MerkleProof, TrieError>(TrieError::InvalidKeyLen)
        } else {
            match trie_root@ {
                NodeV::Root { left, right } => match prove_spec(store@, left, right, key@) {
                    Ok(s) => r matches Ok(p) && p@ == s,
                    Err(e) => r == Err::<MerkleProof, TrieError>(e),
                },
                _ => r == Err::<MerkleProof, TrieError>(TrieError::Malformed),
            }
        },
{
    proof {
        use_type_invariant(&*store);
        store.lemma_wf();
    }
    if key.len() != 256 {
        return Err(TrieError::InvalidKeyLen);
    }
    let rt = match trie_root {
        Node::Root(rt) => rt,
        _ => {
            return Err(TrieError::Malformed);
        },
    };
    let side = key[0] != 0;
    let slot = if side {
        &rt.right
    } else {
        &rt.left
    };
    let h = match slot {
        None => {
            return Err(TrieError::NotFound);
        },
        Some(h) => clone_bytes(h),
    };
    let root_copy = Node::Root(
        Root {
            left: clone_opt_bytes(&rt.left),
            right: clone_opt_bytes(&rt.right),
            hash: clone_opt_bytes(&rt.hash),
        },
    );
    match walk_collect(store, &h, side, &key, 257) {
        Err(e) => Err(e),
        Ok(rest) => {
            let mut nodes: Vec<(bool, Node)> = Vec::new();
            nodes.push((false, root_copy));
            let mut rest = rest;
            nodes.append(&mut rest);
            proof {
                let s = walk_from(store@, h@, side, key@, 257).unwrap();
                assert(proof_view(nodes@) =~= seq![
                    (false, NodeV::Root { left: opt_view(rt.left), right: opt_view(rt.right) }),
                ] + s);
            }
            Ok(MerkleProof { nodes })
        },
    }
}

/// The walk below the root: returns `(side, node)` for every visited node,
/// ending at a leaf, exactly as [`walk_from`] lays it out.
fn walk_collect(store: &NodeStore, h: &Vec<u8>, side: bool, key: &Vec<u8>, fuel: u16) -> (r:
    Result<Vec<(bool, Node)>, TrieError>)
    requires
        key@.len() == 256,
    ensures
        match walk_from(store@, h@, side, key@, fuel as nat) {
            Ok(s) => r matches Ok(v) && proof_view(v@) == s,
            Err(e) => r == Err::<Vec<(bool, Node)>, TrieError>(e),
        },
    decreases fuel,
{
    if fuel == 0 {
        return Err(TrieError::Malformed);
    }
    let node = match store.get(h) {
        None => {
            return Err(TrieError::StoreMissing);
        },
        Some(n) => n,
    };
    match &node {
        Node::Root(_) => Err(TrieError::Malformed),
        Node::Leaf(_) => {
            let mut v: Vec<(bool, Node)> = Vec::new();
            v.push((side, node));
            proof {
                assert(proof_view(v@) =~= seq![(side, store@[h@])]);
            }
            Ok(v)
        },
        Node::Branch(b) => {
            if b.pos >= 256 {
                return Err(TrieError::Malformed);
            }
            let s2 = key[b.pos as usize] != 0;
            let ch = if s2 {
                clone_bytes(&b.right)
            } else {
                clone_bytes(&b.left)
            };
            match walk_collect(store, &ch, s2, key, fuel - 1) {
                Err(e) => Err(e),
                Ok(rest) => {
                    let ghost rest_view = proof_view(rest@);
                    let mut v: Vec<(bool, Node)> = Vec::new();
                    v.push((side, node));
                    let mut rest = rest;
                    v.append(&mut rest);
                    proof {
                        assert(proof_view(v@) =~= seq![(side, store@[h@])] + rest_view);
                    }
                    Ok(v)
                },
            }
        },
    }
}

/// Verifies a Merkle path against an expected root hash. The path is
/// climbed from its leaf; every digest is recomputed from node contents, so
/// a memoised hash carried inside the proof is never trusted. A path that
/// is not root, branches, leaf is `Malformed`; a recomputed root hash other
/// than the expected one is `InvalidProof`.
pub fn verify_merkle_proof(inner_proof: Vec<(bool, Node)>, state_root_hash: Vec<u8>) -> (r: Result<
    (),
    TrieError,
>)
    ensures
        match reconstruct(proof_view(inner_proof@)) {
            None => r == Err::<(), TrieError>(TrieError::Malformed),
            Some(hh) => if hh == state_root_hash@ {
                r == Ok::<(), TrieError>(())
            } else {
                r == Err::<(), TrieError>(TrieError::InvalidProof)
            },
        },
{
    let n = inner_proof.len();
    if n < 2 {
        return Err(TrieError::Malformed);
    }
    let first = &inner_proof[0];
    let rt = match &first.1 {
        Node::Root(rt) => rt,
        _ => {
            return Err(TrieError::Malformed);
        },
    };
    proof {
        assert(proof_view(inner_proof@).drop_first() =~= proof_view(inner_proof@).subrange(
            1,
            inner_proof@.len() as int,
        ));
    }
    match climb_from(&inner_proof, 1) {
        None => Err(TrieError::Malformed),
        Some((cs, ch)) => {
            let (l2, r2) = if cs {
                (clone_opt_bytes(&rt.left), Some(ch))
            } else {
                (Some(ch), clone_opt_bytes(&rt.right))
            };
            let rh = root_hash_bytes(&l2, &r2);
            if bytes_eq(&rh, &state_root_hash) {
                Ok(())
            } else {
                Err(TrieError::InvalidProof)
            }
        },
    }
}

/// Climbs the path fragment that starts at index `i`: recomputes the digest
/// of its first node from everything below, as [`up_digest`] lays it out.
fn climb_from(proof: &Vec<(bool, Node)>, i: usize) -> (r: Option<(bool, Vec<u8>)>)
    requires
        1 <= i < proof@.len(),
    ensures
        match up_digest(proof_view(proof@).subrange(i as int, proof@.len() as int)) {
            Some(p) => r matches Some(q) && q.0 == p.0 && q.1@ == p.1,
            None => r is None,
        },
    decreases proof@.len() - i,
{
    let n = proof.len();
    let entry = &proof[i];
    if i == n - 1 {
        match &entry.1 {
            Node::Leaf(lf) => {
                if !is_valid_key(&lf.key) {
                    return None;
                }
                if lf.data.len() as u64 > 0xFFFF_FFFFu64 {
                    return None;
                }
                let hd = leaf_hash_bytes(&lf.key, &lf.data);
                Some((entry.0, hd))
            },
            _ => None,
        }
    } else {
        proof {
            assert(proof_view(proof@).subrange(i as int, proof@.len() as int).drop_first()
                =~= proof_view(proof@).subrange((i + 1) as int, proof@.len() as int));
        }
        match &entry.1 {
            Node::Branch(b) => {
                match climb_from(proof, i + 1) {
                    None => None,
                    Some((cs, ch)) => {
                        let (l2, r2) = if cs {
                            (clone_bytes(&b.left), ch)
                        } else {
                            (ch, clone_bytes(&b.right))
                        };
                        let bh = branch_hash_bytes(b.pos, &l2, &r2);
                        Some((entry.0, bh))
                    },
                }
            },
            _ => None,
        }
    }
}

} // verus!
