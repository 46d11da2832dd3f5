use vstd::prelude::*;

use crate::encode::{data_wf, key_wf};
use crate::errors::TrieError;
use crate::hashing::{branch_digest, leaf_digest, node_digest, root_digest};
use crate::node::NodeV;

verus! {

/// One more step than the deepest possible walk: 256 branch positions and a
/// leaf. A walk that runs longer can only be chasing corrupt data.
pub open spec fn walk_fuel() -> nat {
    257
}

/// What may live in the content-addressed store: branches, and leaves whose
/// key and payload can be canonically encoded. The root is returned to the
/// caller, never stored under its hash.
pub open spec fn storable(n: NodeV) -> bool {
    match n {
        NodeV::Root { .. } => false,
        NodeV::Branch { .. } => true,
        NodeV::Leaf { key, data } => key_wf(key) && data_wf(data),
    }
}

/// Content addressing: every stored node sits under its own digest, and only
/// storable nodes sit there.
pub open spec fn store_wf(m: Map<Seq<u8>, NodeV>) -> bool {
    forall|h: Seq<u8>| #[trigger]
        m.dom().contains(h) ==> node_digest(m[h]) == h && storable(m[h])
}

/// The store after an idempotent put: an existing binding is never replaced.
pub open spec fn put_m(m: Map<Seq<u8>, NodeV>, h: Seq<u8>, n: NodeV) -> Map<Seq<u8>, NodeV> {
    if m.dom().contains(h) {
        m
    } else {
        m.insert(h, n)
    }
}

/// The least index at or after `i` where the two strings differ.
pub open spec fn first_neq_from(a: Seq<u8>, b: Seq<u8>, i: nat) -> Option<nat>
    decreases a.len() - i,
{
    if i >= a.len() {
        None
    } else if a[i as int] != b[i as int] {
        Some(i)
    } else {
        first_neq_from(a, b, (i + 1) as nat)
    }
}

/// The least index where the two strings differ, scanning the first whole.
pub open spec fn first_neq(a: Seq<u8>, b: Seq<u8>) -> Option<nat> {
    first_neq_from(a, b, 0)
}

/// The read-only walk from the node stored under `h`, steered by `key`,
/// collecting each visited node with the side it occupies in its parent.
/// Ends at a leaf; anything else is an error.
pub open spec fn walk_from(
    m: Map<Seq<u8>, NodeV>,
    h: Seq<u8>,
    side: bool,
    key: Seq<u8>,
    fuel: nat,
) -> Result<Seq<(bool, NodeV)>, TrieError>
    decreases fuel,
{
    if fuel == 0 {
        Err(TrieError::Malformed)
    } else if !m.dom().contains(h) {
        Err(TrieError::StoreMissing)
    } else {
        match m[h] {
            NodeV::Root { .. } => Err(TrieError::Malformed),
            NodeV::Leaf { .. } => Ok(seq![(side, m[h])]),
            NodeV::Branch { pos, left, right } => {
                if pos >= 256 {
                    Err(TrieError::Malformed)
                } else {
                    let s = key[pos as int] != 0;
                    let ch = if s {
                        right
                    } else {
                        left
                    };
                    match walk_from(m, ch, s, key, (fuel - 1) as nat) {
                        Ok(rest) => Ok(seq![(side, m[h])] + rest),
                        Err(e) => Err(e),
                    }
                }
            },
        }
    }
}

/// The Merkle path for `key` below a root with the given child slots:
/// the root first, then every node down to the leaf.
pub open spec fn prove_spec(
    m: Map<Seq<u8>, NodeV>,
    left: Option<Seq<u8>>,
    right: Option<Seq<u8>>,
    key: Seq<u8>,
) -> Result<Seq<(bool, NodeV)>, TrieError> {
    let side = key[0] != 0;
    let slot = if side {
        right
    } else {
        left
    };
    match slot {
        None => Err(TrieError::NotFound),
        Some(h) => match walk_from(m, h, side, key, walk_fuel()) {
            Ok(rest) => Ok(seq![(false, NodeV::Root { left, right })] + rest),
            Err(e) => Err(e),
        },
    }
}

/// Whether the walk for `key` from the node stored under `h` ends at a leaf
/// carrying exactly `key`.
pub open spec fn contains_key_from(
    m: Map<Seq<u8>, NodeV>,
    h: Seq<u8>,
    key: Seq<u8>,
    fuel: nat,
) -> bool
    decreases fuel,
{
    &&& fuel > 0
    &&& m.dom().contains(h)
    &&& match m[h] {
        NodeV::Leaf { key: lk, .. } => lk == key,
        NodeV::Branch { pos, left, right } => pos < 256 && contains_key_from(
            m,
            if key[pos as int] != 0 {
                right
            } else {
                left
            },
            key,
            (fuel - 1) as nat,
        ),
        NodeV::Root { .. } => false,
    }
}

/// Whether `key` is present in the trie below a root with the given slots.
pub open spec fn trie_contains_key(
    m: Map<Seq<u8>, NodeV>,
    left: Option<Seq<u8>>,
    right: Option<Seq<u8>>,
    key: Seq<u8>,
) -> bool {
    let slot = if key[0] != 0 {
        right
    } else {
        left
    };
    &&& key.len() == 256
    &&& match slot {
        Some(h) => contains_key_from(m, h, key, walk_fuel()),
        None => false,
    }
}

/// Whether `key` is present below an arbitrary starting node.
pub open spec fn node_contains_key(m: Map<Seq<u8>, NodeV>, n: NodeV, key: Seq<u8>) -> bool {
    match n {
        NodeV::Root { left, right } => trie_contains_key(m, left, right, key),
        NodeV::Leaf { key: lk, .. } => lk == key,
        NodeV::Branch { pos, left, right } => pos < 256 && key.len() == 256
            && contains_key_from(
            m,
            if key[pos as int] != 0 {
                right
            } else {
                left
            },
            key,
            walk_fuel(),
        ),
    }
}

/// Where no index at or after `i` separates the strings, they agree there.
pub proof fn lemma_first_neq_none(a: Seq<u8>, b: Seq<u8>, i: nat)
    requires
        i <= a.len(),
        a.len() == b.len(),
        first_neq_from(a, b, i) is None,
    ensures
        forall|j: int| i <= j < a.len() ==> a[j] == b[j],
    decreases a.len() - i,
{
    if i < a.len() {
        lemma_first_neq_none(a, b, (i + 1) as nat);
    }
}

/// Where a first differing index exists, the strings differ there, inside
/// both.
pub proof fn lemma_first_neq_some(a: Seq<u8>, b: Seq<u8>, i: nat, d: nat)
    requires
        i <= a.len(),
        a.len() == b.len(),
        first_neq_from(a, b, i) == Some(d),
    ensures
        i <= d < a.len(),
        a[d as int] != b[d as int],
    decreases a.len() - i,
{
    if i < a.len() && a[i as int] == b[i as int] {
        lemma_first_neq_some(a, b, (i + 1) as nat, d);
    }
}

/// An idempotent put only ever extends the store.
pub proof fn lemma_put_m_extends(m: Map<Seq<u8>, NodeV>, h: Seq<u8>, n: NodeV)
    ensures
        m.submap_of(put_m(m, h, n)),
        put_m(m, h, n).dom().contains(h),
{
}

/// Two distinct strings of one length have a first differing index.
pub proof fn lemma_first_neq_exists(a: Seq<u8>, b: Seq<u8>)
    requires
        a.len() == b.len(),
        a != b,
    ensures
        first_neq(a, b) is Some,
{
    if first_neq(a, b) is None {
        lemma_first_neq_none(a, b, 0);
        assert(a =~= b);
    }
}

/// The copy-on-write insert (or update) below the node stored under `h`.
/// On success: the extended store, and the hash of the rebuilt subtree.
/// The walk steers by `key`; a leaf splits at the first differing bit
/// (insert) or is replaced (update). No existing binding is ever changed.
pub open spec fn insert_at_spec(
    m: Map<Seq<u8>, NodeV>,
    h: Seq<u8>,
    key: Seq<u8>,
    data: Seq<u8>,
    is_update: bool,
    fuel: nat,
) -> Result<(Map<Seq<u8>, NodeV>, Seq<u8>), TrieError>
    decreases fuel,
{
    if fuel == 0 {
        Err(TrieError::Malformed)
    } else if !m.dom().contains(h) {
        Err(TrieError::StoreMissing)
    } else {
        match m[h] {
            NodeV::Root { .. } => Err(TrieError::Malformed),
            NodeV::Leaf { key: lk, .. } => {
                if lk == key {
                    if is_update {
                        let nh = leaf_digest(key, data);
                        Ok((put_m(m, nh, NodeV::Leaf { key, data }), nh))
                    } else {
                        Err(TrieError::DuplicateKey)
                    }
                } else if is_update {
                    Err(TrieError::NotFound)
                } else {
                    match first_neq(key, lk) {
                        None => Err(TrieError::Malformed),
                        Some(d) => {
                            let nlh = leaf_digest(key, data);
                            let bnode = if key[d as int] == 0 {
                                NodeV::Branch { pos: d as u16, left: nlh, right: h }
                            } else {
                                NodeV::Branch { pos: d as u16, left: h, right: nlh }
                            };
                            let bh = node_digest(bnode);
                            Ok(
                                (
                                    put_m(
                                        put_m(m, nlh, NodeV::Leaf { key, data }),
                                        bh,
                                        bnode,
                                    ),
                                    bh,
                                ),
                            )
                        },
                    }
                }
            },
            NodeV::Branch { pos, left, right } => {
                if pos >= 256 {
                    Err(TrieError::Malformed)
                } else {
                    let s = key[pos as int] != 0;
                    let ch = if s {
                        right
                    } else {
                        left
                    };
                    match insert_at_spec(m, ch, key, data, is_update, (fuel - 1) as nat) {
                        Err(e) => Err(e),
                        Ok((m2, nh)) => {
                            let b2 = NodeV::Branch {
                                pos,
                                left: if s {
                                    left
                                } else {
                                    nh
                                },
                                right: if s {
                                    nh
                                } else {
                                    right
                                },
                            };
                            let bh2 = node_digest(b2);
                            Ok((put_m(m2, bh2, b2), bh2))
                        },
                    }
                }
            },
        }
    }
}

/// The copy-on-write insert (or update) of `(key, data)` below a root with
/// the given child slots. On success: the extended store and the new slots;
/// the new root hash is the digest of those slots.
pub open spec fn root_insert_spec(
    m: Map<Seq<u8>, NodeV>,
    left: Option<Seq<u8>>,
    right: Option<Seq<u8>>,
    key: Seq<u8>,
    data: Seq<u8>,
    is_update: bool,
) -> Result<(Map<Seq<u8>, NodeV>, Option<Seq<u8>>, Option<Seq<u8>>), TrieError> {
    let side = key[0] != 0;
    let slot = if side {
        right
    } else {
        left
    };
    match slot {
        None => {
            if is_update {
                Err(TrieError::NotFound)
            } else {
                let nlh = leaf_digest(key, data);
                let m2 = put_m(m, nlh, NodeV::Leaf { key, data });
                if side {
                    Ok((m2, left, Some(nlh)))
                } else {
                    Ok((m2, Some(nlh), right))
                }
            }
        },
        Some(h) => match insert_at_spec(m, h, key, data, is_update, walk_fuel()) {
            Ok((m2, nh)) => if side {
                Ok((m2, left, Some(nh)))
            } else {
                Ok((m2, Some(nh), right))
            },
            Err(e) => Err(e),
        },
    }
}

/// Climbs a leaf-terminated path fragment: recomputes the digest of its
/// first node purely from the nodes below it, never trusting a memoised
/// hash. Returns that digest with the side the first node claims in its
/// parent, or nothing where the fragment is not branches down to one leaf.
pub open spec fn up_digest(s: Seq<(bool, NodeV)>) -> Option<(bool, Seq<u8>)>
    decreases s.len(),
{
    if s.len() == 0 {
        None
    } else if s.len() == 1 {
        match s[0].1 {
            NodeV::Leaf { key, data } => if key_wf(key) && data_wf(data) {
                Some((s[0].0, leaf_digest(key, data)))
            } else {
                None
            },
            _ => None,
        }
    } else {
        match s[0].1 {
            NodeV::Branch { pos, left, right } => {
                match up_digest(s.drop_first()) {
                    Some((cs, ch)) => Some(
                        (
                            s[0].0,
                            branch_digest(
                                pos,
                                if cs {
                                    left
                                } else {
                                    ch
                                },
                                if cs {
                                    ch
                                } else {
                                    right
                                },
                            ),
                        ),
                    ),
                    None => None,
                }
            },
            _ => None,
        }
    }
}

/// The root hash a proof commits to: the path is climbed from its leaf,
/// every digest recomputed, and the carried hash rebound into the root's
/// proper slot. Nothing where the proof is not root, branches, leaf.
pub open spec fn reconstruct(s: Seq<(bool, NodeV)>) -> Option<Seq<u8>> {
    if s.len() < 2 {
        None
    } else {
        match s[0].1 {
            NodeV::Root { left, right } => {
                match up_digest(s.drop_first()) {
                    Some((cs, ch)) => Some(
                        root_digest(
                            if cs {
                                left
                            } else {
                                Some(ch)
                            },
                            if cs {
                                Some(ch)
                            } else {
                                right
                            },
                        ),
                    ),
                    None => None,
                }
            },
            _ => None,
        }
    }
}

} // verus!
