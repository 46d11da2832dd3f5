use vstd::prelude::*;

use crate::bytes::{bytes_eq, clone_bytes};
use crate::hashing::node_digest;
use crate::model::{put_m, storable, store_wf};
use crate::node::{clone_node, Node, NodeV};

verus! {

/// The contents of an entry list: digest maps to node value, later entries
/// winning (the invariant keeps the digests distinct, so order is moot).
spec fn entries_map(s: Seq<(Vec<u8>, Node)>) -> Map<Seq<u8>, NodeV>
    decreases s.len(),
{
    if s.len() == 0 {
        Map::empty()
    } else {
        entries_map(s.drop_last()).insert(s.last().0@, s.last().1@)
    }
}

/// The content-addressed node store: every node sits under the SHA-256
/// digest of its own canonical encoding, and no binding is ever replaced.
pub struct NodeStore {
    entries: Vec<(Vec<u8>, Node)>,
}

impl View for NodeStore {
    type V = Map<Seq<u8>, NodeV>;

    closed spec fn view(&self) -> Map<Seq<u8>, NodeV> {
        entries_map(self.entries@)
    }
}

impl NodeStore {
    #[verifier::type_invariant]
    pub closed spec fn inv(self) -> bool {
        &&& forall|i: int, j: int|
            0 <= i < j < self.entries@.len() ==> (#[trigger] self.entries@[i]).0@ != (
            #[trigger] self.entries@[j]).0@
        &&& forall|i: int|
            0 <= i < self.entries@.len() ==> node_digest((#[trigger] self.entries@[i]).1@)
                == self.entries@[i].0@ && storable(self.entries@[i].1@)
    }

    /// Content addressing follows from the store's invariant, which holds
    /// of every store value; see `use_type_invariant`.
    pub proof fn lemma_wf(self)
        requires
            self.inv(),
        ensures
            store_wf(self@),
    {
        lemma_inv_wf(self.entries@);
    }

    /// An empty store.
    pub fn new() -> (s: NodeStore)
        ensures
            s@ == Map::<Seq<u8>, NodeV>::empty(),
            store_wf(s@),
    {
        let entries: Vec<(Vec<u8>, Node)> = Vec::new();
        proof {
            assert(entries@.len() == 0);
        }
        NodeStore { entries }
    }

    /// Whether a node is stored under the given digest.
    pub fn contains(&self, h: &Vec<u8>) -> (r: bool)
        ensures
            r == self@.dom().contains(h@),
            store_wf(self@),
    {
        proof {
            use_type_invariant(&*self);
            lemma_inv_wf(self.entries@);
        }
        let ghost s = self.entries@;
        let mut i: usize = 0;
        while i < self.entries.len()
            invariant
                i <= s.len(),
                s == self.entries@,
                forall|j: int| 0 <= j < i ==> (#[trigger] s[j]).0@ != h@,
            decreases s.len() - i,
        {
            if bytes_eq(&self.entries[i].0, h) {
                proof {
                    use_type_invariant(&*self);
                    lemma_inv_wf(self.entries@);
                    lemma_map_domain(s, h@);
                }
                return true;
            }
            i += 1;
        }
        proof {
            lemma_map_domain(s, h@);
        }
        false
    }

    /// The node stored under the given digest, if any. Content addressing
    /// guarantees the returned node's digest is the digest asked for.
    pub fn get(&self, h: &Vec<u8>) -> (r: Option<Node>)
        ensures
            match r {
                Some(n) => self@.dom().contains(h@) && n@ == self@[h@] && node_digest(n@) == h@
                    && storable(n@),
                None => !self@.dom().contains(h@),
            },
            store_wf(self@),
    {
        proof {
            use_type_invariant(&*self);
            lemma_inv_wf(self.entries@);
        }
        let ghost s = self.entries@;
        let mut i: usize = 0;
        while i < self.entries.len()
            invariant
                i <= s.len(),
                s == self.entries@,
                forall|j: int| 0 <= j < i ==> (#[trigger] s[j]).0@ != h@,
            decreases s.len() - i,
        {
            if bytes_eq(&self.entries[i].0, h) {
                proof {
                    use_type_invariant(&*self);
                    lemma_inv_wf(self.entries@);
                    lemma_map_domain(s, h@);
                    lemma_map_value(s, i as int);
                }
                return Some(clone_node(&self.entries[i].1));
            }
            i += 1;
        }
        proof {
            lemma_map_domain(s, h@);
        }
        None
    }

    /// Stores a node under its digest. Idempotent: a digest already bound
    /// keeps its existing node, so no binding is ever overwritten.
    pub fn put(&mut self, h: &Vec<u8>, node: Node)
        requires
            h@ == node_digest(node@),
            storable(node@),
        ensures
            final(self)@ == put_m(old(self)@, h@, node@),
            store_wf(final(self)@),
    {
        proof {
            use_type_invariant(&*self);
        }
        if self.contains(h) {
            proof {
                lemma_inv_wf(self.entries@);
            }
            return;
        }
        let ghost s0 = self.entries@;
        proof {
            lemma_map_domain(s0, h@);
        }
        let hh = clone_bytes(h);
        let mut entries: Vec<(Vec<u8>, Node)> = Vec::new();
        std::mem::swap(&mut entries, &mut self.entries);
        entries.push((hh, node));
        proof {
            assert(entries@.drop_last() =~= s0);
            assert(forall|j: int| 0 <= j < s0.len() ==> (#[trigger] s0[j]).0@ != h@);
        }
        self.entries = entries;
        proof {
            lemma_inv_wf(self.entries@);
        }
    }
}

/// A digest is in the contents exactly where some entry carries it.
proof fn lemma_map_domain(s: Seq<(Vec<u8>, Node)>, h: Seq<u8>)
    ensures
        entries_map(s).dom().contains(h) <==> exists|i: int|
            0 <= i < s.len() && (#[trigger] s[i]).0@ == h,
    decreases s.len(),
{
    if s.len() > 0 {
        let s0 = s.drop_last();
        lemma_map_domain(s0, h);
        if s.last().0@ == h {
            assert(s[s.len() - 1].0@ == h);
        } else {
            if entries_map(s).dom().contains(h) {
                let i = choose|i: int| 0 <= i < s0.len() && (#[trigger] s0[i]).0@ == h;
                assert(s[i].0@ == h);
            }
            if exists|i: int| 0 <= i < s.len() && (#[trigger] s[i]).0@ == h {
                let i = choose|i: int| 0 <= i < s.len() && (#[trigger] s[i]).0@ == h;
                assert(s0[i].0@ == h);
            }
        }
    }
}

/// With distinct digests, the contents at an entry's digest is its node.
proof fn lemma_map_value(s: Seq<(Vec<u8>, Node)>, i: int)
    requires
        0 <= i < s.len(),
        forall|a: int, b: int|
            0 <= a < b < s.len() ==> (#[trigger] s[a]).0@ != (#[trigger] s[b]).0@,
    ensures
        entries_map(s).dom().contains(s[i].0@),
        entries_map(s)[s[i].0@] == s[i].1@,
    decreases s.len(),
{
    if i == s.len() - 1 {
    } else {
        let s0 = s.drop_last();
        lemma_map_value(s0, i);
        assert(s.last().0@ != s[i].0@);
    }
}

/// The invariant of the entry list yields content addressing of the map.
proof fn lemma_inv_wf(s: Seq<(Vec<u8>, Node)>)
    requires
        forall|a: int, b: int|
            0 <= a < b < s.len() ==> (#[trigger] s[a]).0@ != (#[trigger] s[b]).0@,
        forall|i: int|
            0 <= i < s.len() ==> node_digest((#[trigger] s[i]).1@) == s[i].0@ && storable(
                s[i].1@,
            ),
    ensures
        store_wf(entries_map(s)),
{
    assert forall|h: Seq<u8>| #[trigger]
        entries_map(s).dom().contains(h) implies node_digest(entries_map(s)[h]) == h && storable(
        entries_map(s)[h],
    ) by {
        lemma_map_domain(s, h);
        let i = choose|i: int| 0 <= i < s.len() && (#[trigger] s[i]).0@ == h;
        lemma_map_value(s, i);
    }
}

} // verus!
