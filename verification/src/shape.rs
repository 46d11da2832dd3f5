use vstd::prelude::*;

use crate::encode::{data_wf, key_wf};
use crate::hashing::{leaf_digest, node_digest};
use crate::model::{
    first_neq, insert_at_spec, put_m, root_insert_spec, storable, store_wf, walk_fuel,
};
use crate::node::NodeV;

verus! {

/// The hashes reachable from `h`, descending through branches.
pub open spec fn reach(m: Map<Seq<u8>, NodeV>, h: Seq<u8>, fuel: nat) -> Set<Seq<u8>>
    decreases fuel,
{
    if fuel == 0 || !m.dom().contains(h) {
        Set::empty()
    } else {
        match m[h] {
            NodeV::Branch { pos, left, right } => set![h].union(
                reach(m, left, (fuel - 1) as nat),
            ).union(reach(m, right, (fuel - 1) as nat)),
            _ => set![h],
        }
    }
}

/// Every reachable leaf's key carries bit `b` at position `p`.
pub open spec fn leaves_agree(
    m: Map<Seq<u8>, NodeV>,
    h: Seq<u8>,
    fuel: nat,
    p: int,
    b: u8,
) -> bool {
    forall|hl: Seq<u8>| #[trigger]
        reach(m, h, fuel).contains(hl) ==> match m[hl] {
            NodeV::Leaf { key, .. } => key[p] == b,
            _ => true,
        }
}

/// The shape invariant of a subtree: it bottoms out at leaves within the
/// fuel, every branch position indexes the key, and the keys below each
/// branch child agree with the bit that child's side stands for.
pub open spec fn trie_shape_ok(m: Map<Seq<u8>, NodeV>, h: Seq<u8>, fuel: nat) -> bool
    decreases fuel,
{
    &&& fuel > 0
    &&& m.dom().contains(h)
    &&& match m[h] {
        NodeV::Leaf { .. } => true,
        NodeV::Branch { pos, left, right } => {
            &&& pos < 256
            &&& trie_shape_ok(m, left, (fuel - 1) as nat)
            &&& trie_shape_ok(m, right, (fuel - 1) as nat)
            &&& leaves_agree(m, left, (fuel - 1) as nat, pos as int, 0)
            &&& leaves_agree(m, right, (fuel - 1) as nat, pos as int, 1)
        },
        NodeV::Root { .. } => false,
    }
}

/// Some reachable leaf carries exactly this key.
pub open spec fn is_leaf_key(m: Map<Seq<u8>, NodeV>, h: Seq<u8>, fuel: nat, k: Seq<u8>) -> bool {
    exists|hl: Seq<u8>| #[trigger]
        reach(m, h, fuel).contains(hl) && (m[hl] matches NodeV::Leaf { key, .. } && key == k)
}

/// The whole trie's shape invariant: each root child slot is a well-shaped
/// subtree whose leaf keys all start with that slot's bit.
pub open spec fn trie_ok(
    m: Map<Seq<u8>, NodeV>,
    left: Option<Seq<u8>>,
    right: Option<Seq<u8>>,
    fuel: nat,
) -> bool {
    &&& (left matches Some(h) ==> trie_shape_ok(m, h, fuel) && leaves_agree(m, h, fuel, 0, 0))
    &&& (right matches Some(h) ==> trie_shape_ok(m, h, fuel) && leaves_agree(m, h, fuel, 0, 1))
}

/// The binding `h -> n` can be added without displacing anything: the hash
/// is absent, or already bound to this very node. Content addressing makes
/// this a statement that the digests the insert writes do not collide.
pub open spec fn fresh_for(m: Map<Seq<u8>, NodeV>, h: Seq<u8>, n: NodeV) -> bool {
    !m.dom().contains(h) || m[h] == n
}

/// Every binding an insert (or update) below `h` writes lands fresh: each
/// new node's digest is unused, or already bound to an identical node.
pub open spec fn insert_puts_fresh(
    m: Map<Seq<u8>, NodeV>,
    h: Seq<u8>,
    key: Seq<u8>,
    data: Seq<u8>,
    is_update: bool,
    fuel: nat,
) -> bool
    decreases fuel,
{
    if fuel == 0 || !m.dom().contains(h) {
        true
    } else {
        match m[h] {
            NodeV::Root { .. } => true,
            NodeV::Leaf { key: lk, .. } => {
                if lk == key {
                    fresh_for(m, leaf_digest(key, data), NodeV::Leaf { key, data })
                } else if is_update {
                    true
                } else {
                    match first_neq(key, lk) {
                        None => true,
                        Some(d) => {
                            let nlh = leaf_digest(key, data);
                            let nleaf = NodeV::Leaf { key, data };
                            let m1 = put_m(m, nlh, nleaf);
                            let bnode = if key[d as int] == 0 {
                                NodeV::Branch { pos: d as u16, left: nlh, right: h }
                            } else {
                                NodeV::Branch { pos: d as u16, left: h, right: nlh }
                            };
                            fresh_for(m, nlh, nleaf) && fresh_for(m1, node_digest(bnode), bnode)
                        },
                    }
                }
            },
            NodeV::Branch { pos, left, right } => {
                if pos >= 256 {
                    true
                } else {
                    let s = key[pos as int] != 0;
                    let ch = if s {
                        right
                    } else {
                        left
                    };
                    &&& insert_puts_fresh(m, ch, key, data, is_update, (fuel - 1) as nat)
                    &&& match insert_at_spec(m, ch, key, data, is_update, (fuel - 1) as nat) {
                        Ok((mc, nhc)) => {
                            let b2 = NodeV::Branch {
                                pos,
                                left: if s {
                                    left
                                } else {
                                    nhc
                                },
                                right: if s {
                                    nhc
                                } else {
                                    right
                                },
                            };
                            fresh_for(mc, node_digest(b2), b2)
                        },
                        Err(_) => true,
                    }
                }
            },
        }
    }
}

/// A grown store keeps every old binding.
proof fn lemma_binding_stable(m: Map<Seq<u8>, NodeV>, m2: Map<Seq<u8>, NodeV>, hl: Seq<u8>)
    requires
        m.submap_of(m2),
        m.dom().contains(hl),
    ensures
        m2.dom().contains(hl),
        m[hl] == m2[hl],
{
    // Mentioning the grown domain's membership lets the submap fact fire.
    let held = m2.dom().contains(hl);
}

/// Whatever is reachable is stored.
proof fn lemma_reach_in_dom(m: Map<Seq<u8>, NodeV>, h: Seq<u8>, fuel: nat)
    ensures
        forall|hl: Seq<u8>| #[trigger]
            reach(m, h, fuel).contains(hl) ==> m.dom().contains(hl),
    decreases fuel,
{
    if fuel > 0 && m.dom().contains(h) {
        match m[h] {
            NodeV::Branch { pos, left, right } => {
                lemma_reach_in_dom(m, left, (fuel - 1) as nat);
                lemma_reach_in_dom(m, right, (fuel - 1) as nat);
                assert forall|hl: Seq<u8>| #[trigger]
                    reach(m, h, fuel).contains(hl) implies m.dom().contains(hl) by {
                    if hl != h {
                        if reach(m, left, (fuel - 1) as nat).contains(hl) {
                        } else {
                            assert(reach(m, right, (fuel - 1) as nat).contains(hl));
                        }
                    }
                }
            },
            _ => {},
        }
    }
}

/// Below a well-shaped subtree, more fuel changes nothing: the shape holds
/// and the reachable set is the same.
proof fn lemma_shape_fuel(m: Map<Seq<u8>, NodeV>, h: Seq<u8>, f1: nat, f2: nat)
    requires
        trie_shape_ok(m, h, f1),
        f1 <= f2,
    ensures
        trie_shape_ok(m, h, f2),
        reach(m, h, f2) == reach(m, h, f1),
    decreases f1,
{
    match m[h] {
        NodeV::Branch { pos, left, right } => {
            lemma_shape_fuel(m, left, (f1 - 1) as nat, (f2 - 1) as nat);
            lemma_shape_fuel(m, right, (f1 - 1) as nat, (f2 - 1) as nat);
            assert(reach(m, h, f2) =~= reach(m, h, f1));
            assert forall|hl: Seq<u8>| #[trigger]
                reach(m, left, (f2 - 1) as nat).contains(hl) implies reach(
                m,
                left,
                (f1 - 1) as nat,
            ).contains(hl) by {}
        },
        _ => {
            assert(reach(m, h, f2) =~= reach(m, h, f1));
        },
    }
}

/// Growing the store does not change what a well-shaped subtree reaches,
/// nor its shape: every node along it keeps its binding.
proof fn lemma_shape_stable(
    m: Map<Seq<u8>, NodeV>,
    m2: Map<Seq<u8>, NodeV>,
    h: Seq<u8>,
    fuel: nat,
)
    requires
        m.submap_of(m2),
        trie_shape_ok(m, h, fuel),
    ensures
        trie_shape_ok(m2, h, fuel),
        reach(m2, h, fuel) == reach(m, h, fuel),
    decreases fuel,
{
    lemma_reach_in_dom(m, h, fuel);
    match m[h] {
        NodeV::Branch { pos, left, right } => {
            lemma_shape_stable(m, m2, left, (fuel - 1) as nat);
            lemma_shape_stable(m, m2, right, (fuel - 1) as nat);
            assert(reach(m2, h, fuel) =~= reach(m, h, fuel));
            let fl = (fuel - 1) as nat;
            lemma_reach_in_dom(m, left, fl);
            lemma_reach_in_dom(m, right, fl);
            assert forall|hl: Seq<u8>| #[trigger]
                reach(m2, left, fl).contains(hl) implies (match m2[hl] {
                NodeV::Leaf { key, .. } => key[pos as int] == 0,
                _ => true,
            }) by {
                assert(reach(m, left, fl).contains(hl));
                assert(m.dom().contains(hl));
                lemma_binding_stable(m, m2, hl);
            }
            assert forall|hl: Seq<u8>| #[trigger]
                reach(m2, right, fl).contains(hl) implies (match m2[hl] {
                NodeV::Leaf { key, .. } => key[pos as int] == 1,
                _ => true,
            }) by {
                assert(reach(m, right, fl).contains(hl));
                assert(m.dom().contains(hl));
                lemma_binding_stable(m, m2, hl);
            }
        },
        _ => {
            assert(reach(m2, h, fuel) =~= reach(m, h, fuel));
        },
    }
}

/// In a well-shaped subtree, two reachable leaves carrying one key are one
/// leaf: every branch position separates their walks the same way.
proof fn lemma_shape_unique(
    m: Map<Seq<u8>, NodeV>,
    h: Seq<u8>,
    fuel: nat,
    h1: Seq<u8>,
    h2: Seq<u8>,
    k: Seq<u8>,
)
    requires
        trie_shape_ok(m, h, fuel),
        reach(m, h, fuel).contains(h1),
        reach(m, h, fuel).contains(h2),
        m[h1] matches NodeV::Leaf { key, .. } && key == k,
        m[h2] matches NodeV::Leaf { key, .. } && key == k,
    ensures
        h1 == h2,
    decreases fuel,
{
    match m[h] {
        NodeV::Leaf { .. } => {},
        NodeV::Branch { pos, left, right } => {
            let fl = (fuel - 1) as nat;
            if reach(m, left, fl).contains(h1) && reach(m, right, fl).contains(h1) {
                // The one key cannot carry both bits at `pos`.
            } else if reach(m, left, fl).contains(h1) {
                assert(reach(m, left, fl).contains(h2));
                lemma_shape_unique(m, left, fl, h1, h2, k);
            } else {
                assert(reach(m, right, fl).contains(h1));
                assert(reach(m, right, fl).contains(h2));
                lemma_shape_unique(m, right, fl, h1, h2, k);
            }
        },
        NodeV::Root { .. } => {},
    }
}

/// A well-shaped branch cannot be its own child.
proof fn lemma_no_self_loop(m: Map<Seq<u8>, NodeV>, h: Seq<u8>, fuel: nat)
    requires
        trie_shape_ok(m, h, fuel),
    ensures
        m[h] matches NodeV::Branch { left, right, .. } ==> left != h && right != h,
    decreases fuel,
{
    match m[h] {
        NodeV::Branch { pos, left, right } => {
            if left == h || right == h {
                lemma_no_self_loop(m, h, (fuel - 1) as nat);
            }
        },
        _ => {},
    }
}

/// Putting a digest-correct storable node keeps the store content-addressed.
proof fn lemma_put_m_wf(m: Map<Seq<u8>, NodeV>, h: Seq<u8>, n: NodeV)
    requires
        store_wf(m),
        node_digest(n) == h,
        storable(n),
    ensures
        store_wf(put_m(m, h, n)),
{
}

/// Growing the store keeps an agreement fact over a well-shaped subtree.
proof fn lemma_agree_stable(
    m: Map<Seq<u8>, NodeV>,
    m2: Map<Seq<u8>, NodeV>,
    h: Seq<u8>,
    fuel: nat,
    p: int,
    b: u8,
)
    requires
        m.submap_of(m2),
        trie_shape_ok(m, h, fuel),
        leaves_agree(m, h, fuel, p, b),
    ensures
        leaves_agree(m2, h, fuel, p, b),
{
    lemma_shape_stable(m, m2, h, fuel);
    lemma_reach_in_dom(m, h, fuel);
    assert forall|hl: Seq<u8>| #[trigger]
        reach(m2, h, fuel).contains(hl) implies (match m2[hl] {
        NodeV::Leaf { key, .. } => key[p] == b,
        _ => true,
    }) by {
        assert(reach(m, h, fuel).contains(hl));
        assert(m.dom().contains(hl));
        lemma_binding_stable(m, m2, hl);
    }
}

/// Leaf uniqueness: from the root of a well-shaped trie, at most one leaf
/// carrying any given key is reachable.
pub proof fn lemma_leaf_uniqueness(
    m: Map<Seq<u8>, NodeV>,
    left: Option<Seq<u8>>,
    right: Option<Seq<u8>>,
    fuel: nat,
    h1: Seq<u8>,
    h2: Seq<u8>,
    k: Seq<u8>,
)
    requires
        trie_ok(m, left, right, fuel),
        exists|hr: Seq<u8>|
            (left == Some(hr) || right == Some(hr)) && #[trigger] reach(m, hr, fuel).contains(h1),
        exists|hr: Seq<u8>|
            (left == Some(hr) || right == Some(hr)) && #[trigger] reach(m, hr, fuel).contains(h2),
        m[h1] matches NodeV::Leaf { key, .. } && key == k,
        m[h2] matches NodeV::Leaf { key, .. } && key == k,
    ensures
        h1 == h2,
{
    let hr1 = choose|hr: Seq<u8>|
        (left == Some(hr) || right == Some(hr)) && #[trigger] reach(m, hr, fuel).contains(h1);
    let hr2 = choose|hr: Seq<u8>|
        (left == Some(hr) || right == Some(hr)) && #[trigger] reach(m, hr, fuel).contains(h2);
    if hr1 == hr2 {
        lemma_shape_unique(m, hr1, fuel, h1, h2, k);
    } else {
        // The two slots separate on the first key bit, and both leaves
        // carry `k`: the same bit cannot be 0 and 1 at once.
        assert(k[0] == 0 && k[0] == 1);
    }
}

/// A successful insert or update below a well-shaped subtree, whose writes
/// land fresh, yields a well-shaped subtree one level deeper, whose leaf
/// keys are the old ones plus possibly the inserted key.
#[verifier::rlimit(100)]
pub proof fn lemma_insert_at_shape(
    m: Map<Seq<u8>, NodeV>,
    h: Seq<u8>,
    key: Seq<u8>,
    data: Seq<u8>,
    is_update: bool,
    fuel: nat,
    sf: nat,
)
    requires
        store_wf(m),
        key_wf(key),
        crate::encode::data_wf(data),
        trie_shape_ok(m, h, sf),
        insert_at_spec(m, h, key, data, is_update, fuel) is Ok,
        insert_puts_fresh(m, h, key, data, is_update, fuel),
    ensures
        ({
            let (m2, nh) = insert_at_spec(m, h, key, data, is_update, fuel).unwrap();
            &&& store_wf(m2)
            &&& trie_shape_ok(m2, nh, (sf + 1) as nat)
            &&& forall|k: Seq<u8>|
                is_leaf_key(m2, nh, (sf + 1) as nat, k) ==> is_leaf_key(m, h, sf, k) || k == key
        }),
    decreases fuel,
{
    let (m2, nh) = insert_at_spec(m, h, key, data, is_update, fuel).unwrap();
    match m[h] {
        NodeV::Root { .. } => {},
        NodeV::Leaf { key: lk, data: ld } => {
            let nleaf = NodeV::Leaf { key, data };
            if lk == key {
                // Update: the subtree becomes the one fresh leaf.
                lemma_put_m_wf(m, nh, nleaf);
                assert(m2[nh] == nleaf);
                assert(reach(m2, nh, (sf + 1) as nat) =~= set![nh]);
                assert(reach(m, h, sf) =~= set![h]);
            } else {
                let d = first_neq(key, lk).unwrap();
                crate::model::lemma_first_neq_some(key, lk, 0, d);
                let nlh = leaf_digest(key, data);
                let m1 = put_m(m, nlh, nleaf);
                let bnode = if key[d as int] == 0 {
                    NodeV::Branch { pos: d as u16, left: nlh, right: h }
                } else {
                    NodeV::Branch { pos: d as u16, left: h, right: nlh }
                };
                assert(nh == node_digest(bnode));
                assert(m1[nlh] == nleaf);
                if nlh == h {
                    assert(m[h] == nleaf);
                }
                assert(m2[nh] == bnode);
                if nh == nlh {
                    assert(m1[nh] == nleaf);
                }
                assert(m1[h] == m[h]);
                if nh == h {
                    assert(m1[h] == bnode);
                }
                assert(m2[nlh] == nleaf);
                assert(m2[h] == m[h]);
                lemma_put_m_wf(m, nlh, nleaf);
                lemma_put_m_wf(m1, nh, bnode);
                // The new branch over the fresh leaf and the old one.
                assert(reach(m2, nlh, sf) =~= set![nlh]);
                assert(reach(m2, h, sf) =~= set![h]);
                assert(reach(m2, nh, (sf + 1) as nat) =~= set![nh].union(set![nlh]).union(
                    set![h],
                ) || reach(m2, nh, (sf + 1) as nat) =~= set![nh].union(set![h]).union(
                    set![nlh],
                ));
                assert(trie_shape_ok(m2, nlh, sf));
                assert(trie_shape_ok(m2, h, sf));
                // Both leaves sit on the side their own bit at `d` names.
                assert(key_wf(lk));
                assert(reach(m, h, sf) =~= set![h]);
            }
        },
        NodeV::Branch { pos, left, right } => {
            let s = key[pos as int] != 0;
            let ch = if s {
                right
            } else {
                left
            };
            let sib = if s {
                left
            } else {
                right
            };
            let fl = (sf - 1) as nat;
            assert(trie_shape_ok(m, ch, fl));
            assert(trie_shape_ok(m, sib, fl));
            lemma_insert_at_shape(m, ch, key, data, is_update, (fuel - 1) as nat, fl);
            crate::laws::lemma_insert_at_extends(m, ch, key, data, is_update, (fuel - 1) as nat);
            let (mc, nhc) = insert_at_spec(m, ch, key, data, is_update, (fuel - 1) as nat).unwrap();
            let b2 = NodeV::Branch {
                pos,
                left: if s {
                    left
                } else {
                    nhc
                },
                right: if s {
                    nhc
                } else {
                    right
                },
            };
            assert(nh == node_digest(b2));
            assert(m2 == put_m(mc, nh, b2));
            crate::model::lemma_put_m_extends(mc, nh, b2);
            assert(m2[nh] == b2);
            lemma_put_m_wf(mc, nh, b2);
            vstd::map_lib::lemma_submap_of_trans(m, mc, m2);
            assert(m.submap_of(m2));
            // The rebuilt child and the untouched sibling keep their shape.
            lemma_shape_stable(m, mc, sib, fl);
            if nh == nhc {
                assert(mc[nhc] == b2);
                lemma_no_self_loop(mc, nhc, fl + 1);
            }
            if nh == sib {
                assert(m.dom().contains(sib));
                lemma_binding_stable(m, mc, sib);
                assert(mc[sib] == b2);
                lemma_no_self_loop(mc, sib, fl);
            }
            lemma_shape_stable(mc, m2, nhc, fl + 1);
            lemma_shape_stable(m, m2, sib, fl);
            lemma_shape_fuel(m2, sib, fl, fl + 1);
            lemma_reach_in_dom(mc, nhc, fl + 1);
            lemma_reach_in_dom(m, sib, fl);
            // The keys below the rebuilt child: the old ones, plus the key.
            assert forall|k: Seq<u8>| #[trigger]
                is_leaf_key(m2, nhc, fl + 1, k) implies is_leaf_key(
                mc,
                nhc,
                fl + 1,
                k,
            ) by {
                let hl = choose|hl: Seq<u8>| #[trigger]
                    reach(m2, nhc, fl + 1).contains(hl) && (m2[hl] matches NodeV::Leaf {
                        key: k2,
                        ..
                    } && k2 == k);
                assert(reach(mc, nhc, fl + 1).contains(hl));
                assert(mc.dom().contains(hl));
                lemma_binding_stable(mc, m2, hl);
            }
            // The keys below the untouched sibling are the old ones.
            assert forall|k: Seq<u8>| #[trigger]
                is_leaf_key(m2, sib, fl + 1, k) implies is_leaf_key(m, sib, fl, k) by {
                let hl = choose|hl: Seq<u8>| #[trigger]
                    reach(m2, sib, fl + 1).contains(hl) && (m2[hl] matches NodeV::Leaf {
                        key: k2,
                        ..
                    } && k2 == k);
                assert(reach(m2, sib, fl + 1) == reach(m, sib, fl));
                assert(m.dom().contains(hl));
                lemma_binding_stable(m, m2, hl);
            }
            // Agreement at this branch's own position.
            assert(leaves_agree(m2, nhc, fl + 1, pos as int, if s {
                1
            } else {
                0
            })) by {
                assert forall|hl: Seq<u8>| #[trigger]
                    reach(m2, nhc, fl + 1).contains(hl) implies (match m2[hl] {
                    NodeV::Leaf { key: k2, .. } => k2[pos as int] == (if s {
                        1u8
                    } else {
                        0u8
                    }),
                    _ => true,
                }) by {
                    match m2[hl] {
                        NodeV::Leaf { key: k2, .. } => {
                            assert(is_leaf_key(m2, nhc, fl + 1, k2));
                            assert(is_leaf_key(mc, nhc, fl + 1, k2));
                            if k2 == key {
                            } else {
                                assert(is_leaf_key(m, ch, fl, k2));
                                let hlo = choose|hlo: Seq<u8>| #[trigger]
                                    reach(m, ch, fl).contains(hlo) && (m[hlo]
                                        matches NodeV::Leaf { key: k3, .. } && k3 == k2);
                            }
                        },
                        _ => {},
                    }
                }
            }
            assert(leaves_agree(m2, sib, fl + 1, pos as int, if s {
                0
            } else {
                1
            })) by {
                assert forall|hl: Seq<u8>| #[trigger]
                    reach(m2, sib, fl + 1).contains(hl) implies (match m2[hl] {
                    NodeV::Leaf { key: k2, .. } => k2[pos as int] == (if s {
                        0u8
                    } else {
                        1u8
                    }),
                    _ => true,
                }) by {
                    assert(reach(m2, sib, fl + 1) == reach(m, sib, fl));
                    assert(m.dom().contains(hl));
                    lemma_binding_stable(m, m2, hl);
                }
            }
            assert(trie_shape_ok(m2, nh, (sf + 1) as nat));
            // The key bound at this level.
            assert forall|k: Seq<u8>|
                is_leaf_key(m2, nh, (sf + 1) as nat, k) implies is_leaf_key(m, h, sf, k) || k
                == key by {
                let hl = choose|hl: Seq<u8>| #[trigger]
                    reach(m2, nh, (sf + 1) as nat).contains(hl) && (m2[hl]
                        matches NodeV::Leaf { key: k2, .. } && k2 == k);
                if hl == nh {
                } else if reach(m2, nhc, fl + 1).contains(hl) {
                    assert(is_leaf_key(m2, nhc, fl + 1, k));
                    assert(is_leaf_key(mc, nhc, fl + 1, k));
                    if k != key {
                        assert(is_leaf_key(m, ch, fl, k));
                        let hlo = choose|hlo: Seq<u8>| #[trigger]
                            reach(m, ch, fl).contains(hlo) && (m[hlo] matches NodeV::Leaf {
                                key: k3,
                                ..
                            } && k3 == k);
                        assert(reach(m, h, sf).contains(hlo));
                        assert(is_leaf_key(m, h, sf, k));
                    }
                } else {
                    assert(reach(m2, sib, fl + 1).contains(hl));
                    assert(is_leaf_key(m2, sib, fl + 1, k));
                    assert(is_leaf_key(m, sib, fl, k));
                    let hlo = choose|hlo: Seq<u8>| #[trigger]
                        reach(m, sib, fl).contains(hlo) && (m[hlo] matches NodeV::Leaf {
                            key: k3,
                            ..
                        } && k3 == k);
                    assert(reach(m, h, sf).contains(hlo));
                    assert(is_leaf_key(m, h, sf, k));
                }
            }
        },
    }
}

/// The freshness of the bindings a root-level insert writes.
pub open spec fn root_insert_puts_fresh(
    m: Map<Seq<u8>, NodeV>,
    left: Option<Seq<u8>>,
    right: Option<Seq<u8>>,
    key: Seq<u8>,
    data: Seq<u8>,
    is_update: bool,
) -> bool {
    let side = key[0] != 0;
    let slot = if side {
        right
    } else {
        left
    };
    match slot {
        None => fresh_for(m, leaf_digest(key, data), NodeV::Leaf { key, data }),
        Some(h) => insert_puts_fresh(m, h, key, data, is_update, walk_fuel()),
    }
}

/// Leaf uniqueness is preserved: a successful insert or update at the root
/// of a well-shaped trie, whose writes land fresh, yields a well-shaped
/// trie again (one level deeper), so by [`lemma_leaf_uniqueness`] at most
/// one leaf per key stays reachable from the new root. The empty trie
/// (both slots absent) is well-shaped outright, so the invariant carries
/// from the first insert on.
pub proof fn lemma_insert_preserves_shape(
    m: Map<Seq<u8>, NodeV>,
    left: Option<Seq<u8>>,
    right: Option<Seq<u8>>,
    key: Seq<u8>,
    data: Seq<u8>,
    is_update: bool,
    fuel: nat,
)
    requires
        store_wf(m),
        key_wf(key),
        data_wf(data),
        trie_ok(m, left, right, fuel),
        root_insert_spec(m, left, right, key, data, is_update) is Ok,
        root_insert_puts_fresh(m, left, right, key, data, is_update),
    ensures
        ({
            let (m2, nl, nr) = root_insert_spec(m, left, right, key, data, is_update).unwrap();
            store_wf(m2) && trie_ok(m2, nl, nr, (fuel + 1) as nat)
        }),
{
    let side = key[0] != 0;
    let bit: u8 = if side {
        1
    } else {
        0
    };
    let slot = if side {
        right
    } else {
        left
    };
    let other = if side {
        left
    } else {
        right
    };
    let (m2, nl, nr) = root_insert_spec(m, left, right, key, data, is_update).unwrap();
    let nslot = if side {
        nr
    } else {
        nl
    };
    match slot {
        None => {
            let nlh = leaf_digest(key, data);
            let nleaf = NodeV::Leaf { key, data };
            lemma_put_m_wf(m, nlh, nleaf);
            crate::model::lemma_put_m_extends(m, nlh, nleaf);
            assert(m2[nlh] == nleaf);
            assert(trie_shape_ok(m2, nlh, (fuel + 1) as nat));
            assert(reach(m2, nlh, (fuel + 1) as nat) =~= set![nlh]);
            assert(leaves_agree(m2, nlh, (fuel + 1) as nat, 0, bit));
        },
        Some(h) => {
            lemma_insert_at_shape(m, h, key, data, is_update, walk_fuel(), fuel);
            crate::laws::lemma_insert_at_extends(m, h, key, data, is_update, walk_fuel());
            let (mi, nh) = insert_at_spec(m, h, key, data, is_update, walk_fuel()).unwrap();
            assert(m2 == mi);
            assert(nslot == Some(nh));
            // The rebuilt slot's leaf keys: the old ones, plus the key; all
            // carry the slot's first bit.
            assert(leaves_agree(m2, nh, (fuel + 1) as nat, 0, bit)) by {
                assert forall|hl: Seq<u8>| #[trigger]
                    reach(m2, nh, (fuel + 1) as nat).contains(hl) implies (match m2[hl] {
                    NodeV::Leaf { key: k2, .. } => k2[0] == bit,
                    _ => true,
                }) by {
                    match m2[hl] {
                        NodeV::Leaf { key: k2, .. } => {
                            assert(is_leaf_key(m2, nh, (fuel + 1) as nat, k2));
                            if k2 != key {
                                assert(is_leaf_key(m, h, fuel, k2));
                                let hlo = choose|hlo: Seq<u8>| #[trigger]
                                    reach(m, h, fuel).contains(hlo) && (m[hlo]
                                        matches NodeV::Leaf { key: k3, .. } && k3 == k2);
                            }
                        },
                        _ => {},
                    }
                }
            }
        },
    }
    // The untouched slot keeps its shape and its agreement.
    match other {
        Some(ho) => {
            assert(m.submap_of(m2));
            lemma_shape_stable(m, m2, ho, fuel);
            lemma_agree_stable(m, m2, ho, fuel, 0, (1 - bit) as u8);
            lemma_shape_fuel(m2, ho, fuel, (fuel + 1) as nat);
        },
        None => {},
    }
}

/// Growing the store keeps a containment fact: the walked bindings stay.
proof fn lemma_contains_stable(
    m: Map<Seq<u8>, NodeV>,
    m2: Map<Seq<u8>, NodeV>,
    h: Seq<u8>,
    key: Seq<u8>,
    fuel: nat,
)
    requires
        m.submap_of(m2),
        crate::model::contains_key_from(m, h, key, fuel),
    ensures
        crate::model::contains_key_from(m2, h, key, fuel),
    decreases fuel,
{
    assert(m.dom().contains(h));
    lemma_binding_stable(m, m2, h);
    match m[h] {
        NodeV::Branch { pos, left, right } => {
            let ch = if key[pos as int] != 0 {
                right
            } else {
                left
            };
            lemma_contains_stable(m, m2, ch, key, (fuel - 1) as nat);
        },
        _ => {},
    }
}

/// A successful insert or update, whose writes land fresh, makes the key
/// reachable below the rebuilt subtree: the walk steered by the key finds
/// the new leaf.
pub proof fn lemma_insert_at_membership(
    m: Map<Seq<u8>, NodeV>,
    h: Seq<u8>,
    key: Seq<u8>,
    data: Seq<u8>,
    is_update: bool,
    fuel: nat,
)
    requires
        store_wf(m),
        key_wf(key),
        insert_at_spec(m, h, key, data, is_update, fuel) is Ok,
        insert_puts_fresh(m, h, key, data, is_update, fuel),
    ensures
        ({
            let (m2, nh) = insert_at_spec(m, h, key, data, is_update, fuel).unwrap();
            crate::model::contains_key_from(m2, nh, key, (fuel + 1) as nat)
        }),
    decreases fuel,
{
    let (m2, nh) = insert_at_spec(m, h, key, data, is_update, fuel).unwrap();
    match m[h] {
        NodeV::Root { .. } => {},
        NodeV::Leaf { key: lk, .. } => {
            let nleaf = NodeV::Leaf { key, data };
            if lk == key {
                assert(m2[nh] == nleaf);
                assert(m2.dom().contains(nh));
            } else {
                assert(key_wf(lk));
                let d = first_neq(key, lk).unwrap();
                crate::model::lemma_first_neq_some(key, lk, 0, d);
                let nlh = leaf_digest(key, data);
                let m1 = put_m(m, nlh, nleaf);
                let bnode = if key[d as int] == 0 {
                    NodeV::Branch { pos: d as u16, left: nlh, right: h }
                } else {
                    NodeV::Branch { pos: d as u16, left: h, right: nlh }
                };
                assert(m1[nlh] == nleaf);
                assert(m1.dom().contains(nlh));
                assert(m2[nh] == bnode);
                assert(m2.dom().contains(nh));
                if nh == nlh {
                    assert(m1[nh] == nleaf);
                }
                assert(m2[nlh] == nleaf);
                assert(m2.dom().contains(nlh));
                assert(crate::model::contains_key_from(m2, nlh, key, fuel));
            }
        },
        NodeV::Branch { pos, left, right } => {
            let s = key[pos as int] != 0;
            let ch = if s {
                right
            } else {
                left
            };
            lemma_insert_at_membership(m, ch, key, data, is_update, (fuel - 1) as nat);
            crate::laws::lemma_insert_at_extends(m, ch, key, data, is_update, (fuel - 1) as nat);
            let (mc, nhc) = insert_at_spec(m, ch, key, data, is_update, (fuel - 1) as nat).unwrap();
            let b2 = NodeV::Branch {
                pos,
                left: if s {
                    left
                } else {
                    nhc
                },
                right: if s {
                    nhc
                } else {
                    right
                },
            };
            crate::model::lemma_put_m_extends(mc, nh, b2);
            assert(m2[nh] == b2);
            assert(m2.dom().contains(nh));
            lemma_contains_stable(mc, m2, nhc, key, fuel);
            assert(crate::model::contains_key_from(m2, nhc, key, fuel));
        },
    }
}

/// Insert really inserts: after a successful insert or update at the root,
/// whose writes land fresh, the key is reachable from the new root.
pub proof fn lemma_insert_gives_membership(
    m: Map<Seq<u8>, NodeV>,
    left: Option<Seq<u8>>,
    right: Option<Seq<u8>>,
    key: Seq<u8>,
    data: Seq<u8>,
    is_update: bool,
)
    requires
        store_wf(m),
        key_wf(key),
        root_insert_spec(m, left, right, key, data, is_update) is Ok,
        root_insert_puts_fresh(m, left, right, key, data, is_update),
    ensures
        ({
            let (m2, nl, nr) = root_insert_spec(m, left, right, key, data, is_update).unwrap();
            let nslot = if key[0] != 0 {
                nr
            } else {
                nl
            };
            nslot matches Some(nh) && crate::model::contains_key_from(
                m2,
                nh,
                key,
                (walk_fuel() + 1) as nat,
            )
        }),
{
    let side = key[0] != 0;
    let slot = if side {
        right
    } else {
        left
    };
    let (m2, nl, nr) = root_insert_spec(m, left, right, key, data, is_update).unwrap();
    match slot {
        None => {
            let nlh = leaf_digest(key, data);
            assert(m2[nlh] == NodeV::Leaf { key, data });
        },
        Some(h) => {
            lemma_insert_at_membership(m, h, key, data, is_update, walk_fuel());
        },
    }
}

/// A walk that found its key still finds it with more fuel.
proof fn lemma_contains_fuel(
    m: Map<Seq<u8>, NodeV>,
    h: Seq<u8>,
    key: Seq<u8>,
    f1: nat,
    f2: nat,
)
    requires
        crate::model::contains_key_from(m, h, key, f1),
        f1 <= f2,
    ensures
        crate::model::contains_key_from(m, h, key, f2),
    decreases f1,
{
    match m[h] {
        NodeV::Branch { pos, left, right } => {
            let ch = if key[pos as int] != 0 {
                right
            } else {
                left
            };
            lemma_contains_fuel(m, ch, key, (f1 - 1) as nat, (f2 - 1) as nat);
        },
        _ => {},
    }
}

/// No contained key is lost: a successful insert or update below `h`,
/// whose writes land fresh, keeps every key that was reachable by its own
/// walk reachable below the rebuilt subtree.
pub proof fn lemma_insert_at_preserves_contains(
    m: Map<Seq<u8>, NodeV>,
    h: Seq<u8>,
    key: Seq<u8>,
    data: Seq<u8>,
    is_update: bool,
    fuel: nat,
    k2: Seq<u8>,
)
    requires
        store_wf(m),
        key_wf(key),
        insert_at_spec(m, h, key, data, is_update, fuel) is Ok,
        insert_puts_fresh(m, h, key, data, is_update, fuel),
        crate::model::contains_key_from(m, h, k2, fuel),
    ensures
        ({
            let (m2, nh) = insert_at_spec(m, h, key, data, is_update, fuel).unwrap();
            crate::model::contains_key_from(m2, nh, k2, (fuel + 1) as nat)
        }),
    decreases fuel,
{
    let (m2, nh) = insert_at_spec(m, h, key, data, is_update, fuel).unwrap();
    match m[h] {
        NodeV::Root { .. } => {},
        NodeV::Leaf { key: lk, .. } => {
            // The walk for `k2` ended at this leaf, so `k2 == lk`.
            let nleaf = NodeV::Leaf { key, data };
            if lk == key {
                assert(m2[nh] == nleaf);
                assert(m2.dom().contains(nh));
            } else {
                assert(key_wf(lk));
                let d = first_neq(key, lk).unwrap();
                crate::model::lemma_first_neq_some(key, lk, 0, d);
                let nlh = leaf_digest(key, data);
                let m1 = put_m(m, nlh, nleaf);
                let bnode = if key[d as int] == 0 {
                    NodeV::Branch { pos: d as u16, left: nlh, right: h }
                } else {
                    NodeV::Branch { pos: d as u16, left: h, right: nlh }
                };
                assert(m1[nlh] == nleaf);
                if nlh == h {
                    assert(m[h] == nleaf);
                }
                assert(m2[nh] == bnode);
                assert(m2.dom().contains(nh));
                if nh == nlh {
                    assert(m1[nh] == nleaf);
                }
                if nh == h {
                    assert(m1[h] == m[h]);
                    assert(m1[h] == bnode);
                }
                assert(m2[h] == m[h]);
                assert(m2.dom().contains(h));
                // The old leaf sits on the side its own bit at `d` names,
                // which is where the walk for `k2 == lk` goes.
                assert(crate::model::contains_key_from(m2, h, k2, fuel));
            }
        },
        NodeV::Branch { pos, left, right } => {
            let s = key[pos as int] != 0;
            let ch = if s {
                right
            } else {
                left
            };
            let sib = if s {
                left
            } else {
                right
            };
            crate::laws::lemma_insert_at_extends(m, ch, key, data, is_update, (fuel - 1) as nat);
            let (mc, nhc) = insert_at_spec(m, ch, key, data, is_update, (fuel - 1) as nat).unwrap();
            let b2 = NodeV::Branch {
                pos,
                left: if s {
                    left
                } else {
                    nhc
                },
                right: if s {
                    nhc
                } else {
                    right
                },
            };
            crate::model::lemma_put_m_extends(mc, nh, b2);
            assert(m2[nh] == b2);
            assert(m2.dom().contains(nh));
            let s2 = k2[pos as int] != 0;
            if s2 == s {
                // `k2` walks through the rebuilt child.
                lemma_insert_at_preserves_contains(m, ch, key, data, is_update, (fuel - 1) as nat, k2);
                lemma_contains_stable(mc, m2, nhc, k2, fuel);
            } else {
                // `k2` walks into the untouched sibling.
                assert(crate::model::contains_key_from(m, sib, k2, (fuel - 1) as nat));
                vstd::map_lib::lemma_submap_of_trans(m, mc, m2);
                lemma_contains_stable(m, m2, sib, k2, (fuel - 1) as nat);
                lemma_contains_fuel(m2, sib, k2, (fuel - 1) as nat, fuel);
            }
        },
    }
}

/// No contained key is lost at the root: after a successful insert or
/// update whose writes land fresh, every previously contained key is still
/// reachable from the new root by its own walk.
pub proof fn lemma_insert_preserves_contains(
    m: Map<Seq<u8>, NodeV>,
    left: Option<Seq<u8>>,
    right: Option<Seq<u8>>,
    key: Seq<u8>,
    data: Seq<u8>,
    is_update: bool,
    k2: Seq<u8>,
)
    requires
        store_wf(m),
        key_wf(key),
        root_insert_spec(m, left, right, key, data, is_update) is Ok,
        root_insert_puts_fresh(m, left, right, key, data, is_update),
        crate::model::trie_contains_key(m, left, right, k2),
    ensures
        ({
            let (m2, nl, nr) = root_insert_spec(m, left, right, key, data, is_update).unwrap();
            let nslot = if k2[0] != 0 {
                nr
            } else {
                nl
            };
            nslot matches Some(nh2) && crate::model::contains_key_from(
                m2,
                nh2,
                k2,
                (walk_fuel() + 1) as nat,
            )
        }),
{
    let side = key[0] != 0;
    let slot = if side {
        right
    } else {
        left
    };
    let side2 = k2[0] != 0;
    let slot2 = if side2 {
        right
    } else {
        left
    };
    let (m2, nl, nr) = root_insert_spec(m, left, right, key, data, is_update).unwrap();
    let h2 = slot2.unwrap();
    if side2 == side {
        // `k2` lives in the slot the insert rebuilds; the slot was
        // occupied, so the insert descended into it.
        lemma_insert_at_preserves_contains(m, h2, key, data, is_update, walk_fuel(), k2);
    } else {
        // `k2` lives in the untouched slot.
        match slot {
            None => {
                let nlh = leaf_digest(key, data);
                crate::model::lemma_put_m_extends(m, nlh, NodeV::Leaf { key, data });
                lemma_contains_stable(m, m2, h2, k2, walk_fuel());
                lemma_contains_fuel(m2, h2, k2, walk_fuel(), (walk_fuel() + 1) as nat);
            },
            Some(h) => {
                crate::laws::lemma_insert_at_extends(m, h, key, data, is_update, walk_fuel());
                lemma_contains_stable(m, m2, h2, k2, walk_fuel());
                lemma_contains_fuel(m2, h2, k2, walk_fuel(), (walk_fuel() + 1) as nat);
            },
        }
    }
}

} // verus!
