use vstd::prelude::*;

use crate::encode::{data_wf, key_wf};
use crate::hashing::{leaf_digest, node_digest, root_digest};
use crate::model::{
    first_neq, first_neq_from, insert_at_spec, lemma_first_neq_exists, lemma_first_neq_some,
    lemma_put_m_extends,
    prove_spec, put_m, reconstruct, root_insert_spec, store_wf, up_digest, walk_from, walk_fuel,
};
use crate::node::NodeV;

verus! {

/// Content-addressing: every node stored under a hash is the node whose
/// canonical encoding digests to exactly that hash. This holds of every
/// [`crate::store::NodeStore`] value, whose methods all ensure `store_wf`.
pub proof fn lemma_content_addressing(m: Map<Seq<u8>, NodeV>, h: Seq<u8>)
    requires
        store_wf(m),
        m.dom().contains(h),
    ensures
        node_digest(m[h]) == h,
{
}

/// A successful insert or update below a node only ever extends the store,
/// and the subtree hash it returns resolves in the extended store.
pub proof fn lemma_insert_at_extends(
    m: Map<Seq<u8>, NodeV>,
    h: Seq<u8>,
    key: Seq<u8>,
    data: Seq<u8>,
    is_update: bool,
    fuel: nat,
)
    requires
        insert_at_spec(m, h, key, data, is_update, fuel) is Ok,
    ensures
        ({
            let (m2, nh) = insert_at_spec(m, h, key, data, is_update, fuel).unwrap();
            m.submap_of(m2) && m2.dom().contains(nh)
        }),
    decreases fuel,
{
    let (m2, nh) = insert_at_spec(m, h, key, data, is_update, fuel).unwrap();
    match m[h] {
        NodeV::Leaf { key: lk, data: ld } => {
            if lk == key {
                lemma_put_m_extends(m, nh, NodeV::Leaf { key, data });
            } else {
                let d = crate::model::first_neq(key, lk).unwrap();
                let nlh = crate::hashing::leaf_digest(key, data);
                let m1 = put_m(m, nlh, NodeV::Leaf { key, data });
                lemma_put_m_extends(m, nlh, NodeV::Leaf { key, data });
                let bnode = if key[d as int] == 0 {
                    NodeV::Branch { pos: d as u16, left: nlh, right: h }
                } else {
                    NodeV::Branch { pos: d as u16, left: h, right: nlh }
                };
                lemma_put_m_extends(m1, nh, bnode);
                assert(m.submap_of(put_m(m1, nh, bnode)));
            }
        },
        NodeV::Branch { pos, left, right } => {
            let s = key[pos as int] != 0;
            let ch = if s {
                right
            } else {
                left
            };
            lemma_insert_at_extends(m, ch, key, data, is_update, (fuel - 1) as nat);
            let (mc, nhc) = insert_at_spec(m, ch, key, data, is_update, (fuel - 1) as nat).unwrap();
            let b2 = NodeV::Branch {
                pos,
                left: if s {
                    left
                } else {
                    nhc
                },
                right: if s {
                    nhc
                } else {
                    right
                },
            };
            lemma_put_m_extends(mc, nh, b2);
            assert(m.submap_of(put_m(mc, nh, b2)));
        },
        NodeV::Root { .. } => {},
    }
}

/// A successful insert or update at the root only ever extends the store,
/// and the new child slots resolve in the extended store.
pub proof fn lemma_insert_extends(
    m: Map<Seq<u8>, NodeV>,
    left: Option<Seq<u8>>,
    right: Option<Seq<u8>>,
    key: Seq<u8>,
    data: Seq<u8>,
    is_update: bool,
)
    requires
        root_insert_spec(m, left, right, key, data, is_update) is Ok,
    ensures
        ({
            let (m2, nl, nr) = root_insert_spec(m, left, right, key, data, is_update).unwrap();
            m.submap_of(m2)
        }),
{
    let side = key[0] != 0;
    let slot = if side {
        right
    } else {
        left
    };
    match slot {
        None => {
            let nlh = crate::hashing::leaf_digest(key, data);
            lemma_put_m_extends(m, nlh, NodeV::Leaf { key, data });
        },
        Some(h) => {
            lemma_insert_at_extends(m, h, key, data, is_update, walk_fuel());
        },
    }
}

/// Immutability of walks: a proof extracted from a store stays word-for-word
/// the same after the store has grown, for no binding is ever replaced.
pub proof fn lemma_walk_monotone(
    m1: Map<Seq<u8>, NodeV>,
    m2: Map<Seq<u8>, NodeV>,
    h: Seq<u8>,
    side: bool,
    key: Seq<u8>,
    fuel: nat,
)
    requires
        m1.submap_of(m2),
        walk_from(m1, h, side, key, fuel) is Ok,
    ensures
        walk_from(m2, h, side, key, fuel) == walk_from(m1, h, side, key, fuel),
    decreases fuel,
{
    match m1[h] {
        NodeV::Branch { pos, left, right } => {
            let s = key[pos as int] != 0;
            let ch = if s {
                right
            } else {
                left
            };
            lemma_walk_monotone(m1, m2, ch, s, key, (fuel - 1) as nat);
        },
        _ => {},
    }
}

/// Immutability of proofs: after any growth of the store — in particular
/// after further inserts, which only extend it — the previous root still
/// yields exactly the proofs it yielded before.
pub proof fn lemma_proof_immutable(
    m1: Map<Seq<u8>, NodeV>,
    m2: Map<Seq<u8>, NodeV>,
    left: Option<Seq<u8>>,
    right: Option<Seq<u8>>,
    key: Seq<u8>,
)
    requires
        m1.submap_of(m2),
        prove_spec(m1, left, right, key) is Ok,
    ensures
        prove_spec(m2, left, right, key) == prove_spec(m1, left, right, key),
{
    let side = key[0] != 0;
    let slot = if side {
        right
    } else {
        left
    };
    match slot {
        Some(h) => {
            lemma_walk_monotone(m1, m2, h, side, key, walk_fuel());
        },
        None => {},
    }
}

/// Climbing a walked path recomputes, node by node, exactly the hash the
/// walk started from: in a content-addressed store, rebinding a child slot
/// with the child's own recomputed digest changes nothing.
proof fn lemma_walk_up_digest(
    m: Map<Seq<u8>, NodeV>,
    h: Seq<u8>,
    side: bool,
    key: Seq<u8>,
    fuel: nat,
)
    requires
        store_wf(m),
        walk_from(m, h, side, key, fuel) is Ok,
    ensures
        ({
            let s = walk_from(m, h, side, key, fuel).unwrap();
            s.len() >= 1 && up_digest(s) == Some((side, h))
        }),
    decreases fuel,
{
    let s = walk_from(m, h, side, key, fuel).unwrap();
    match m[h] {
        NodeV::Leaf { .. } => {},
        NodeV::Branch { pos, left, right } => {
            let cs = key[pos as int] != 0;
            let ch = if cs {
                right
            } else {
                left
            };
            lemma_walk_up_digest(m, ch, cs, key, (fuel - 1) as nat);
            let rest = walk_from(m, ch, cs, key, (fuel - 1) as nat).unwrap();
            assert(s.drop_first() =~= rest);
        },
        NodeV::Root { .. } => {},
    }
}

/// Proof soundness: every proof extracted from a content-addressed store
/// reconstructs to the digest of the very root it was extracted at, so
/// verifying it against that root hash accepts.
pub proof fn lemma_proof_soundness(
    m: Map<Seq<u8>, NodeV>,
    left: Option<Seq<u8>>,
    right: Option<Seq<u8>>,
    key: Seq<u8>,
)
    requires
        store_wf(m),
        prove_spec(m, left, right, key) is Ok,
    ensures
        reconstruct(prove_spec(m, left, right, key).unwrap()) == Some(
            crate::hashing::root_digest(left, right),
        ),
{
    let side = key[0] != 0;
    let slot = if side {
        right
    } else {
        left
    };
    let h = slot.unwrap();
    lemma_walk_up_digest(m, h, side, key, walk_fuel());
    let rest = walk_from(m, h, side, key, walk_fuel()).unwrap();
    let p = prove_spec(m, left, right, key).unwrap();
    assert(p.drop_first() =~= rest);
}

/// A key that the trie contains always has a Merkle path: the containment
/// walk and the proof walk take the same steps.
proof fn lemma_contains_walk(
    m: Map<Seq<u8>, NodeV>,
    h: Seq<u8>,
    side: bool,
    key: Seq<u8>,
    fuel: nat,
)
    requires
        crate::model::contains_key_from(m, h, key, fuel),
    ensures
        walk_from(m, h, side, key, fuel) is Ok,
    decreases fuel,
{
    match m[h] {
        NodeV::Branch { pos, left, right } => {
            let s = key[pos as int] != 0;
            let ch = if s {
                right
            } else {
                left
            };
            lemma_contains_walk(m, ch, s, key, (fuel - 1) as nat);
        },
        _ => {},
    }
}

/// Proof soundness for every contained key: whatever the trie contains can
/// be proved, and the proof reconstructs to the root's own digest, so
/// verification against that root hash accepts.
pub proof fn lemma_contained_key_proves(
    m: Map<Seq<u8>, NodeV>,
    left: Option<Seq<u8>>,
    right: Option<Seq<u8>>,
    key: Seq<u8>,
)
    requires
        store_wf(m),
        crate::model::trie_contains_key(m, left, right, key),
    ensures
        prove_spec(m, left, right, key) is Ok,
        reconstruct(prove_spec(m, left, right, key).unwrap()) == Some(root_digest(left, right)),
{
    let side = key[0] != 0;
    let slot = if side {
        right
    } else {
        left
    };
    lemma_contains_walk(m, slot.unwrap(), side, key, walk_fuel());
    lemma_proof_soundness(m, left, right, key);
}

/// Update round-trip, single-key case: inserting `(key, d1)` into an empty
/// trie and then updating the key to `d2` commits to the same root hash as
/// inserting `(key, d2)` into an empty trie directly.
pub proof fn lemma_update_round_trip(key: Seq<u8>, d1: Seq<u8>, d2: Seq<u8>)
    requires
        key_wf(key),
        data_wf(d1),
        data_wf(d2),
    ensures
        ({
            let m0 = Map::<Seq<u8>, NodeV>::empty();
            &&& root_insert_spec(m0, None, None, key, d1, false) is Ok
            &&& root_insert_spec(m0, None, None, key, d2, false) is Ok
            &&& {
                let (m1, l1, r1) = root_insert_spec(m0, None, None, key, d1, false).unwrap();
                &&& root_insert_spec(m1, l1, r1, key, d2, true) is Ok
                &&& {
                    let (m2, l2, r2) = root_insert_spec(m1, l1, r1, key, d2, true).unwrap();
                    let (m3, l3, r3) = root_insert_spec(m0, None, None, key, d2, false).unwrap();
                    l2 == l3 && r2 == r3 && root_digest(l2, r2) == root_digest(l3, r3)
                }
            }
        }),
{
    let m0 = Map::<Seq<u8>, NodeV>::empty();
    let lh1 = leaf_digest(key, d1);
    let m1 = put_m(m0, lh1, NodeV::Leaf { key, data: d1 });
    assert(m1 == m0.insert(lh1, NodeV::Leaf { key, data: d1 }));
    assert(m1[lh1] == NodeV::Leaf { key, data: d1 });
    assert(insert_at_spec(m1, lh1, key, d2, true, walk_fuel()) == Ok::<
        (Map<Seq<u8>, NodeV>, Seq<u8>),
        crate::errors::TrieError,
    >((put_m(m1, leaf_digest(key, d2), NodeV::Leaf { key, data: d2 }), leaf_digest(key, d2))));
}

/// The first differing index does not depend on the order of the two keys.
proof fn lemma_first_neq_sym(a: Seq<u8>, b: Seq<u8>, i: nat)
    requires
        a.len() == b.len(),
    ensures
        first_neq_from(a, b, i) == first_neq_from(b, a, i),
    decreases a.len() - i,
{
    if i < a.len() {
        lemma_first_neq_sym(a, b, (i + 1) as nat);
    }
}

/// Determinism across insertion order, two-key case: inserting two distinct
/// keys into an empty trie commits to the same root hash either way round.
/// (With three or more keys the shape of this trie — and so its root hash —
/// can depend on the order, since a leaf splits at the first differing bit
/// of the arriving key, wherever the walk found the leaf.)
pub proof fn lemma_insert_pair_commutes(k1: Seq<u8>, d1: Seq<u8>, k2: Seq<u8>, d2: Seq<u8>)
    requires
        key_wf(k1),
        key_wf(k2),
        data_wf(d1),
        data_wf(d2),
        k1 != k2,
    ensures
        ({
            let m0 = Map::<Seq<u8>, NodeV>::empty();
            &&& root_insert_spec(m0, None, None, k1, d1, false) is Ok
            &&& root_insert_spec(m0, None, None, k2, d2, false) is Ok
            &&& {
                let (ma, la, ra) = root_insert_spec(m0, None, None, k1, d1, false).unwrap();
                let (mb, lb, rb) = root_insert_spec(m0, None, None, k2, d2, false).unwrap();
                &&& root_insert_spec(ma, la, ra, k2, d2, false) is Ok
                &&& root_insert_spec(mb, lb, rb, k1, d1, false) is Ok
                &&& {
                    let (mab, lab, rab) = root_insert_spec(ma, la, ra, k2, d2, false).unwrap();
                    let (mba, lba, rba) = root_insert_spec(mb, lb, rb, k1, d1, false).unwrap();
                    lab == lba && rab == rba && root_digest(lab, rab) == root_digest(lba, rba)
                }
            }
        }),
{
    let m0 = Map::<Seq<u8>, NodeV>::empty();
    let lh1 = leaf_digest(k1, d1);
    let lh2 = leaf_digest(k2, d2);
    let leaf1 = NodeV::Leaf { key: k1, data: d1 };
    let leaf2 = NodeV::Leaf { key: k2, data: d2 };
    let ma = put_m(m0, lh1, leaf1);
    let mb = put_m(m0, lh2, leaf2);
    assert(ma[lh1] == leaf1);
    assert(mb[lh2] == leaf2);
    let s1 = k1[0] != 0;
    let s2 = k2[0] != 0;
    if s1 == s2 {
        lemma_first_neq_exists(k2, k1);
        lemma_first_neq_sym(k1, k2, 0);
        let d = first_neq(k2, k1).unwrap();
        lemma_first_neq_some(k2, k1, 0, d);
        let b12 = if k2[d as int] == 0 {
            NodeV::Branch { pos: d as u16, left: lh2, right: lh1 }
        } else {
            NodeV::Branch { pos: d as u16, left: lh1, right: lh2 }
        };
        let b21 = if k1[d as int] == 0 {
            NodeV::Branch { pos: d as u16, left: lh1, right: lh2 }
        } else {
            NodeV::Branch { pos: d as u16, left: lh2, right: lh1 }
        };
        assert(b12 == b21);
        assert(insert_at_spec(ma, lh1, k2, d2, false, walk_fuel()) matches Ok(p) && p.1
            == node_digest(b12));
        assert(insert_at_spec(mb, lh2, k1, d1, false, walk_fuel()) matches Ok(p) && p.1
            == node_digest(b21));
    }
}

/// Every stored branch's children resolve in the store.
pub open spec fn branches_closed(m: Map<Seq<u8>, NodeV>) -> bool {
    forall|h: Seq<u8>| #[trigger]
        m.dom().contains(h) ==> match m[h] {
            NodeV::Branch { left, right, .. } => m.dom().contains(left) && m.dom().contains(
                right,
            ),
            _ => true,
        }
}

/// A root child slot either is absent or resolves in the store.
pub open spec fn slot_resolves(m: Map<Seq<u8>, NodeV>, slot: Option<Seq<u8>>) -> bool {
    match slot {
        Some(h) => m.dom().contains(h),
        None => true,
    }
}

/// Putting a node whose children already resolve keeps the store closed.
proof fn lemma_put_m_closed(m: Map<Seq<u8>, NodeV>, h: Seq<u8>, n: NodeV)
    requires
        branches_closed(m),
        match n {
            NodeV::Branch { left, right, .. } => put_m(m, h, n).dom().contains(left) && put_m(
                m,
                h,
                n,
            ).dom().contains(right),
            _ => true,
        },
    ensures
        branches_closed(put_m(m, h, n)),
{
}

/// A successful insert or update below a node keeps every stored branch's
/// children resolving, and the returned subtree hash resolves as well.
pub proof fn lemma_insert_at_closed(
    m: Map<Seq<u8>, NodeV>,
    h: Seq<u8>,
    key: Seq<u8>,
    data: Seq<u8>,
    is_update: bool,
    fuel: nat,
)
    requires
        branches_closed(m),
        insert_at_spec(m, h, key, data, is_update, fuel) is Ok,
    ensures
        branches_closed(insert_at_spec(m, h, key, data, is_update, fuel).unwrap().0),
    decreases fuel,
{
    let (m2, nh) = insert_at_spec(m, h, key, data, is_update, fuel).unwrap();
    match m[h] {
        NodeV::Leaf { key: lk, data: ld } => {
            if lk == key {
                lemma_put_m_closed(m, nh, NodeV::Leaf { key, data });
            } else {
                let d = first_neq(key, lk).unwrap();
                let nlh = leaf_digest(key, data);
                let m1 = put_m(m, nlh, NodeV::Leaf { key, data });
                lemma_put_m_extends(m, nlh, NodeV::Leaf { key, data });
                lemma_put_m_closed(m, nlh, NodeV::Leaf { key, data });
                let bnode = if key[d as int] == 0 {
                    NodeV::Branch { pos: d as u16, left: nlh, right: h }
                } else {
                    NodeV::Branch { pos: d as u16, left: h, right: nlh }
                };
                lemma_put_m_extends(m1, nh, bnode);
                lemma_put_m_closed(m1, nh, bnode);
            }
        },
        NodeV::Branch { pos, left, right } => {
            let s = key[pos as int] != 0;
            let ch = if s {
                right
            } else {
                left
            };
            lemma_insert_at_closed(m, ch, key, data, is_update, (fuel - 1) as nat);
            lemma_insert_at_extends(m, ch, key, data, is_update, (fuel - 1) as nat);
            let (mc, nhc) = insert_at_spec(m, ch, key, data, is_update, (fuel - 1) as nat).unwrap();
            let b2 = NodeV::Branch {
                pos,
                left: if s {
                    left
                } else {
                    nhc
                },
                right: if s {
                    nhc
                } else {
                    right
                },
            };
            lemma_put_m_extends(mc, nh, b2);
            lemma_put_m_closed(mc, nh, b2);
        },
        NodeV::Root { .. } => {},
    }
}

/// Branch well-formedness: after a successful insert or update at the root
/// of a closed store, every stored branch's children still resolve, and the
/// new root's child slots resolve. Every reachable branch is a stored one,
/// so every reachable branch has both children present.
pub proof fn lemma_insert_preserves_closure(
    m: Map<Seq<u8>, NodeV>,
    left: Option<Seq<u8>>,
    right: Option<Seq<u8>>,
    key: Seq<u8>,
    data: Seq<u8>,
    is_update: bool,
)
    requires
        branches_closed(m),
        slot_resolves(m, left),
        slot_resolves(m, right),
        root_insert_spec(m, left, right, key, data, is_update) is Ok,
    ensures
        ({
            let (m2, nl, nr) = root_insert_spec(m, left, right, key, data, is_update).unwrap();
            branches_closed(m2) && slot_resolves(m2, nl) && slot_resolves(m2, nr)
        }),
{
    let side = key[0] != 0;
    let slot = if side {
        right
    } else {
        left
    };
    match slot {
        None => {
            let nlh = leaf_digest(key, data);
            lemma_put_m_extends(m, nlh, NodeV::Leaf { key, data });
            lemma_put_m_closed(m, nlh, NodeV::Leaf { key, data });
        },
        Some(h) => {
            lemma_insert_at_closed(m, h, key, data, is_update, walk_fuel());
            lemma_insert_at_extends(m, h, key, data, is_update, walk_fuel());
        },
    }
}

} // verus!
