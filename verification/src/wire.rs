use vstd::prelude::*;

use crate::bytes::push_bytes;
use crate::encode::{
    be16, be32, branch_enc, data_wf, encode_branch, encode_leaf, encode_root, key_wf, leaf_enc,
    opt_or_zero, pack_bits, root_enc, zero32,
};
use crate::errors::TrieError;
use crate::merkle::{proof_view, MerkleProof};
use crate::node::{Branch, Leaf, Node, NodeV, Root};

verus! {

/// A node the wire format can carry faithfully: a leaf with a well-formed
/// key and an encodable payload, a branch whose child hashes are 32 bytes,
/// or a root whose present slots are 32 bytes and not all zero (all-zero
/// is the encoding of an absent slot).
pub open spec fn node_encodable(n: NodeV) -> bool {
    match n {
        NodeV::Leaf { key, data } => key_wf(key) && data_wf(data),
        NodeV::Branch { pos, left, right } => left.len() == 32 && right.len() == 32,
        NodeV::Root { left, right } => {
            &&& (left matches Some(h) ==> h.len() == 32 && h != zero32())
            &&& (right matches Some(h) ==> h.len() == 32 && h != zero32())
        },
    }
}

/// A proof the wire format can carry: every node encodable, and the entry
/// count within the 32-bit length prefix.
pub open spec fn proof_encodable(s: Seq<(bool, NodeV)>) -> bool {
    &&& s.len() <= 0xFFFF_FFFF
    &&& forall|i: int| 0 <= i < s.len() ==> node_encodable((#[trigger] s[i]).1)
}

/// The canonical encoding of one node; its leading byte is the variant tag.
pub open spec fn node_enc(n: NodeV) -> Seq<u8> {
    match n {
        NodeV::Leaf { key, data } => leaf_enc(key, data),
        NodeV::Branch { pos, left, right } => branch_enc(pos, left, right),
        NodeV::Root { left, right } => root_enc(left, right),
    }
}

/// One proof entry on the wire: the side byte, then the node's encoding.
pub open spec fn entry_wire(side: bool, n: NodeV) -> Seq<u8> {
    seq![
        if side {
            1u8
        } else {
            0u8
        },
    ] + node_enc(n)
}

/// The entries of a proof on the wire, in path order (the root first, the
/// leaf last).
pub open spec fn entries_wire(s: Seq<(bool, NodeV)>) -> Seq<u8>
    decreases s.len(),
{
    if s.len() == 0 {
        Seq::empty()
    } else {
        entry_wire(s[0].0, s[0].1) + entries_wire(s.drop_first())
    }
}

/// The whole proof on the wire: a 32-bit big-endian entry count, then the
/// entries in path order.
pub open spec fn proof_wire(s: Seq<(bool, NodeV)>) -> Seq<u8> {
    be32(s.len() as int) + entries_wire(s)
}

/// Splitting one entry off the front of the wire.
proof fn lemma_entries_wire_snoc(s: Seq<(bool, NodeV)>, i: int)
    requires
        0 <= i < s.len(),
    ensures
        entries_wire(s.take(i + 1)) == entries_wire(s.take(i)) + entry_wire(s[i].0, s[i].1),
    decreases i,
{
    if i == 0 {
        assert(s.take(1).drop_first() =~= s.take(0));
        assert(s.take(1).len() == 1 && s.take(1)[0] == s[0]);
        assert(s.take(0).len() == 0);
        assert(entries_wire(s.take(0)) == Seq::<u8>::empty());
        assert(entries_wire(s.take(1)) == entry_wire(s.take(1)[0].0, s.take(1)[0].1)
            + entries_wire(s.take(1).drop_first()));
        assert(entries_wire(s.take(1)) =~= entry_wire(s[0].0, s[0].1));
        assert(entries_wire(s.take(0)) + entry_wire(s[0].0, s[0].1) =~= entry_wire(
            s[0].0,
            s[0].1,
        ));
    } else {
        lemma_entries_wire_snoc(s.drop_first(), i - 1);
        assert(s.take(i + 1).drop_first() =~= s.drop_first().take(i));
        assert(s.take(i).drop_first() =~= s.drop_first().take(i - 1));
        assert(s.take(i + 1)[0] == s[0]);
        assert(s.take(i)[0] == s[0]);
        assert(s.drop_first()[i - 1] == s[i]);
        assert(entries_wire(s.take(i + 1)) == entry_wire(s[0].0, s[0].1) + entries_wire(
            s.drop_first().take(i),
        ));
        assert(entry_wire(s[0].0, s[0].1) + (entries_wire(s.drop_first().take(i - 1))
            + entry_wire(s[i].0, s[i].1)) =~= (entry_wire(s[0].0, s[0].1) + entries_wire(
            s.drop_first().take(i - 1),
        )) + entry_wire(s[i].0, s[i].1));
    }
}

/// The 32-bit big-endian value whose four bytes start at `i`.
pub open spec fn be32_at(bytes: Seq<u8>, i: int) -> int {
    (bytes[i] as int) * 0x100_0000 + (bytes[i + 1] as int) * 0x1_0000 + (bytes[i + 2] as int)
        * 0x100 + (bytes[i + 3] as int)
}

/// The 256 bits of a 32-byte MSB-first packing.
pub open spec fn unpack_bits(packed: Seq<u8>) -> Seq<u8> {
    Seq::new(256, |j: int| (packed[j / 8] >> ((7 - j % 8) as u8)) & 1)
}

/// An optional child hash read back: 32 zero bytes mean absent.
pub open spec fn unzero(b: Seq<u8>) -> Option<Seq<u8>> {
    if b == zero32() {
        None
    } else {
        Some(b)
    }
}

/// Parses one canonically encoded node at offset `i`: the node, and the
/// offset just past it. Nothing where the bytes are not an encoding.
pub open spec fn parse_node(bytes: Seq<u8>, i: int) -> Option<(NodeV, int)> {
    if 0 <= i < bytes.len() {
        let tag = bytes[i];
        if tag == 0 {
            if i + 37 <= bytes.len() {
                let n = be32_at(bytes, i + 33);
                if i + 37 + n <= bytes.len() {
                    Some(
                        (
                            NodeV::Leaf {
                                key: unpack_bits(bytes.subrange(i + 1, i + 33)),
                                data: bytes.subrange(i + 37, i + 37 + n),
                            },
                            i + 37 + n,
                        ),
                    )
                } else {
                    None
                }
            } else {
                None
            }
        } else if tag == 1 {
            if i + 67 <= bytes.len() {
                Some(
                    (
                        NodeV::Branch {
                            pos: ((bytes[i + 1] as int) * 256 + (bytes[i + 2] as int)) as u16,
                            left: bytes.subrange(i + 3, i + 35),
                            right: bytes.subrange(i + 35, i + 67),
                        },
                        i + 67,
                    ),
                )
            } else {
                None
            }
        } else if tag == 2 {
            if i + 65 <= bytes.len() {
                Some(
                    (
                        NodeV::Root {
                            left: unzero(bytes.subrange(i + 1, i + 33)),
                            right: unzero(bytes.subrange(i + 33, i + 65)),
                        },
                        i + 65,
                    ),
                )
            } else {
                None
            }
        } else {
            None
        }
    } else {
        None
    }
}

/// Parses `count` wire entries from offset `i` to the very end of the
/// bytes: trailing bytes are refused, so a parse is canonical.
pub open spec fn parse_entries(bytes: Seq<u8>, i: int, count: nat) -> Option<
    Seq<(bool, NodeV)>,
>
    decreases count,
{
    if count == 0 {
        if i == bytes.len() {
            Some(Seq::empty())
        } else {
            None
        }
    } else if 0 <= i < bytes.len() && (bytes[i] == 0 || bytes[i] == 1) {
        let side = bytes[i] == 1;
        match parse_node(bytes, i + 1) {
            Some(nj) => match parse_entries(bytes, nj.1, (count - 1) as nat) {
                Some(rest) => Some(seq![(side, nj.0)] + rest),
                None => None,
            },
            None => None,
        }
    } else {
        None
    }
}

/// Parses a whole proof: the entry count, then exactly that many entries.
pub open spec fn parse_proof(bytes: Seq<u8>) -> Option<Seq<(bool, NodeV)>> {
    if bytes.len() >= 4 {
        parse_entries(bytes, 4, be32_at(bytes, 0) as nat)
    } else {
        None
    }
}

/// Reading the bits back out of a packed byte.
proof fn lemma_bits_of_byte(b0: u8, b1: u8, b2: u8, b3: u8, b4: u8, b5: u8, b6: u8, b7: u8, bb: u8)
    requires
        b0 <= 1,
        b1 <= 1,
        b2 <= 1,
        b3 <= 1,
        b4 <= 1,
        b5 <= 1,
        b6 <= 1,
        b7 <= 1,
        bb == (b0 as int) * 128 + (b1 as int) * 64 + (b2 as int) * 32 + (b3 as int) * 16 + (
        b4 as int) * 8 + (b5 as int) * 4 + (b6 as int) * 2 + (b7 as int),
    ensures
        (bb >> 7u8) & 1 == b0,
        (bb >> 6u8) & 1 == b1,
        (bb >> 5u8) & 1 == b2,
        (bb >> 4u8) & 1 == b3,
        (bb >> 3u8) & 1 == b4,
        (bb >> 2u8) & 1 == b5,
        (bb >> 1u8) & 1 == b6,
        (bb >> 0u8) & 1 == b7,
{
    assert((bb >> 7u8) & 1 == b0 && (bb >> 6u8) & 1 == b1 && (bb >> 5u8) & 1 == b2 && (bb
        >> 4u8) & 1 == b3 && (bb >> 3u8) & 1 == b4 && (bb >> 2u8) & 1 == b5 && (bb >> 1u8) & 1
        == b6 && (bb >> 0u8) & 1 == b7) by (bit_vector)
        requires
            b0 <= 1 && b1 <= 1 && b2 <= 1 && b3 <= 1 && b4 <= 1 && b5 <= 1 && b6 <= 1 && b7 <= 1
                && bb == b0 * 128 + b1 * 64 + b2 * 32 + b3 * 16 + b4 * 8 + b5 * 4 + b6 * 2 + b7,
    ;
}

/// Unpacking is the inverse of packing, for well-formed keys.
proof fn lemma_unpack_pack(k: Seq<u8>)
    requires
        key_wf(k),
    ensures
        unpack_bits(pack_bits(k)) == k,
{
    let p = pack_bits(k);
    assert forall|j: int| 0 <= j < 256 implies unpack_bits(p)[j] == k[j] by {
        let i = j / 8;
        let t = j % 8;
        assert(0 <= i < 32);
        assert(0 <= t < 8);
        assert(8 * i + t == j);
        lemma_bits_of_byte(
            k[8 * i],
            k[8 * i + 1],
            k[8 * i + 2],
            k[8 * i + 3],
            k[8 * i + 4],
            k[8 * i + 5],
            k[8 * i + 6],
            k[8 * i + 7],
            crate::encode::bit_byte(k, i),
        );
        assert(p[i] == crate::encode::bit_byte(k, i));
        if t == 0 {
            assert((p[j / 8] >> ((7 - j % 8) as u8)) & 1 == k[j]);
        } else if t == 1 {
            assert((p[j / 8] >> ((7 - j % 8) as u8)) & 1 == k[j]);
        } else if t == 2 {
            assert((p[j / 8] >> ((7 - j % 8) as u8)) & 1 == k[j]);
        } else if t == 3 {
            assert((p[j / 8] >> ((7 - j % 8) as u8)) & 1 == k[j]);
        } else if t == 4 {
            assert((p[j / 8] >> ((7 - j % 8) as u8)) & 1 == k[j]);
        } else if t == 5 {
            assert((p[j / 8] >> ((7 - j % 8) as u8)) & 1 == k[j]);
        } else if t == 6 {
            assert((p[j / 8] >> ((7 - j % 8) as u8)) & 1 == k[j]);
        } else {
            assert((p[j / 8] >> ((7 - j % 8) as u8)) & 1 == k[j]);
        }
    }
    assert(unpack_bits(p) =~= k);
}

/// The four big-endian bytes of a 32-bit value read back to the value.
proof fn lemma_be32_val(x: int)
    requires
        0 <= x < 0x1_0000_0000,
    ensures
        (x / 0x100_0000 % 256) * 0x100_0000 + (x / 0x1_0000 % 256) * 0x1_0000 + (x / 0x100 % 256)
            * 0x100 + (x % 256) == x,
{
    let y = x as u32;
    assert(y / 0x100_0000 % 256 * 0x100_0000 + y / 0x1_0000 % 256 * 0x1_0000 + y / 0x100 % 256
        * 0x100 + y % 256 == y) by (bit_vector);
}

/// Parsing reads a canonical node encoding back to the very node.
proof fn lemma_parse_node_of_enc(bytes: Seq<u8>, i: int, n: NodeV)
    requires
        node_encodable(n),
        0 <= i,
        i + node_enc(n).len() <= bytes.len(),
        bytes.subrange(i, i + node_enc(n).len()) == node_enc(n),
    ensures
        parse_node(bytes, i) == Some((n, i + node_enc(n).len())),
{
    let e = node_enc(n);
    let ll = e.len() as int;
    assert forall|t: int| 0 <= t < ll implies bytes[i + t] == e[t] by {
        assert(bytes.subrange(i, i + ll)[t] == bytes[i + t]);
    }
    match n {
        NodeV::Leaf { key, data } => {
            let dlen = data.len() as int;
            assert(pack_bits(key).len() == 32);
            assert(e == seq![0u8] + pack_bits(key) + be32(dlen) + data);
            assert(ll == 37 + dlen);
            assert(e[0] == 0u8);
            assert(bytes[i] == 0u8);
            assert forall|u: int| 0 <= u < 32 implies e[1 + u] == pack_bits(key)[u] by {}
            assert forall|u: int| 0 <= u < 4 implies e[33 + u] == be32(dlen)[u] by {}
            assert forall|u: int| 0 <= u < dlen implies e[37 + u] == data[u] by {}
            assert(bytes.subrange(i + 1, i + 33) =~= pack_bits(key));
            lemma_unpack_pack(key);
            assert(be32(dlen)[0] == (dlen / 0x100_0000 % 256) as u8);
            assert(be32(dlen)[1] == (dlen / 0x1_0000 % 256) as u8);
            assert(be32(dlen)[2] == (dlen / 0x100 % 256) as u8);
            assert(be32(dlen)[3] == (dlen % 256) as u8);
            assert(be32_at(bytes, i + 33) == (dlen / 0x100_0000 % 256) * 0x100_0000 + (dlen
                / 0x1_0000 % 256) * 0x1_0000 + (dlen / 0x100 % 256) * 0x100 + (dlen % 256));
            lemma_be32_val(dlen);
            assert(be32_at(bytes, i + 33) == dlen);
            assert(bytes.subrange(i + 37, i + 37 + dlen) =~= data);
        },
        NodeV::Branch { pos, left, right } => {
            assert(e == seq![1u8] + be16(pos) + left + right);
            assert(ll == 67);
            assert(e[0] == 1u8);
            assert(bytes[i] == 1u8);
            assert(e[1] == (pos / 256) as u8);
            assert(e[2] == (pos % 256) as u8);
            assert((bytes[i + 1] as int) * 256 + (bytes[i + 2] as int) == (pos / 256) * 256 + (
            pos % 256));
            assert((pos / 256) * 256 + (pos % 256) == pos as int);
            assert forall|u: int| 0 <= u < 32 implies e[3 + u] == left[u] by {}
            assert forall|u: int| 0 <= u < 32 implies e[35 + u] == right[u] by {}
            assert(bytes.subrange(i + 3, i + 35) =~= left);
            assert(bytes.subrange(i + 35, i + 67) =~= right);
        },
        NodeV::Root { left, right } => {
            assert(opt_or_zero(left).len() == 32);
            assert(opt_or_zero(right).len() == 32);
            assert(e == seq![2u8] + opt_or_zero(left) + opt_or_zero(right));
            assert(ll == 65);
            assert(e[0] == 2u8);
            assert(bytes[i] == 2u8);
            assert forall|u: int| 0 <= u < 32 implies e[1 + u] == opt_or_zero(left)[u] by {}
            assert forall|u: int| 0 <= u < 32 implies e[33 + u] == opt_or_zero(right)[u] by {}
            assert(bytes.subrange(i + 1, i + 33) =~= opt_or_zero(left));
            assert(bytes.subrange(i + 33, i + 65) =~= opt_or_zero(right));
            match left {
                Some(h) => {
                    assert(unzero(opt_or_zero(left)) == Some(h));
                },
                None => {
                    assert(unzero(opt_or_zero(left)) == None::<Seq<u8>>);
                },
            }
            match right {
                Some(h) => {
                    assert(unzero(opt_or_zero(right)) == Some(h));
                },
                None => {
                    assert(unzero(opt_or_zero(right)) == None::<Seq<u8>>);
                },
            }
        },
    }
}

/// Parsing reads the wire entries of a proof back to the very entries.
proof fn lemma_parse_entries_of_wire(bytes: Seq<u8>, i: int, s: Seq<(bool, NodeV)>)
    requires
        forall|t: int| 0 <= t < s.len() ==> node_encodable((#[trigger] s[t]).1),
        0 <= i,
        i + entries_wire(s).len() == bytes.len(),
        bytes.subrange(i, bytes.len() as int) == entries_wire(s),
    ensures
        parse_entries(bytes, i, s.len()) == Some(s),
    decreases s.len(),
{
    let w = entries_wire(s);
    if s.len() == 0 {
        assert(i == bytes.len());
    } else {
        let side = s[0].0;
        let n = s[0].1;
        let e = node_enc(n);
        let head = entry_wire(side, n);
        let rest_w = entries_wire(s.drop_first());
        assert(w == head + rest_w);
        assert forall|t: int| 0 <= t < w.len() implies bytes[i + t] == w[t] by {
            assert(bytes.subrange(i, bytes.len() as int)[t] == bytes[i + t]);
        }
        assert(head.len() == 1 + e.len());
        assert(w[0] == head[0]);
        assert(bytes[i] == (if side {
            1u8
        } else {
            0u8
        }));
        assert forall|u: int| 0 <= u < e.len() implies bytes[i + 1 + u] == e[u] by {
            assert(w[1 + u] == head[1 + u]);
            assert(head[1 + u] == e[u]);
        }
        assert(bytes.subrange(i + 1, i + 1 + e.len()) =~= e);
        lemma_parse_node_of_enc(bytes, i + 1, n);
        let j = i + 1 + e.len();
        assert forall|u: int| 0 <= u < rest_w.len() implies bytes[j + u] == rest_w[u] by {
            assert(w[head.len() + u] == rest_w[u]);
        }
        assert(bytes.subrange(j, bytes.len() as int) =~= rest_w);
        lemma_parse_entries_of_wire(bytes, j, s.drop_first());
        assert(seq![(side, n)] + s.drop_first() =~= s);
    }
}

/// The wire round trip: parsing the serialised form of an encodable proof
/// yields exactly the proof.
pub proof fn lemma_wire_round_trip(s: Seq<(bool, NodeV)>)
    requires
        proof_encodable(s),
    ensures
        parse_proof(proof_wire(s)) == Some(s),
{
    let bytes = proof_wire(s);
    let head = be32(s.len() as int);
    let w = entries_wire(s);
    assert(bytes == head + w);
    assert(bytes.len() >= 4);
    assert forall|t: int| 0 <= t < w.len() implies bytes[4 + t] == w[t] by {}
    assert(bytes.subrange(4, bytes.len() as int) =~= w);
    assert(bytes[0] == (s.len() as int / 0x100_0000 % 256) as u8);
    assert(bytes[1] == (s.len() as int / 0x1_0000 % 256) as u8);
    assert(bytes[2] == (s.len() as int / 0x100 % 256) as u8);
    assert(bytes[3] == (s.len() as int % 256) as u8);
    lemma_be32_val(s.len() as int);
    assert(be32_at(bytes, 0) == s.len() as int);
    lemma_parse_entries_of_wire(bytes, 4, s);
}

/// Serialises one node canonically.
fn encode_node(node: &Node) -> (r: Vec<u8>)
    requires
        node_encodable(node@),
    ensures
        r@ == node_enc(node@),
{
    match node {
        Node::Leaf(l) => encode_leaf(&l.key, &l.data),
        Node::Branch(b) => encode_branch(b.pos, &b.left, &b.right),
        Node::Root(rt) => encode_root(&rt.left, &rt.right),
    }
}

/// Serialises a proof: a 32-bit big-endian entry count, then, per entry,
/// one side byte and the node's canonical encoding, in path order.
pub fn encode_merkle_proof(proof: &MerkleProof) -> (r: Vec<u8>)
    requires
        proof_encodable(proof@),
    ensures
        r@ == proof_wire(proof@),
{
    let ghost s = proof@;
    let n: u32 = proof.nodes.len() as u32;
    let mut out: Vec<u8> = Vec::new();
    out.push((n / 0x100_0000 % 256) as u8);
    out.push((n / 0x1_0000 % 256) as u8);
    out.push((n / 0x100 % 256) as u8);
    out.push((n % 256) as u8);
    proof {
        assert(out@ =~= be32(s.len() as int));
        assert(s.take(0) =~= Seq::<(bool, NodeV)>::empty());
    }
    let mut i: usize = 0;
    while i < proof.nodes.len()
        invariant
            i <= proof.nodes.len(),
            s == proof@,
            proof_encodable(s),
            out@ == be32(s.len() as int) + entries_wire(s.take(i as int)),
        decreases proof.nodes.len() - i,
    {
        let entry = &proof.nodes[i];
        proof {
            assert(s[i as int] == (proof.nodes@[i as int].0, proof.nodes@[i as int].1@));
            assert(node_encodable(entry.1@));
        }
        out.push(if entry.0 {
            1u8
        } else {
            0u8
        });
        let encoded = encode_node(&entry.1);
        push_bytes(&mut out, &encoded);
        proof {
            lemma_entries_wire_snoc(s, i as int);
            assert(out@ =~= be32(s.len() as int) + entries_wire(s.take((i + 1) as int)));
        }
        i += 1;
    }
    proof {
        assert(s.take(s.len() as int) =~= s);
    }
    out
}

/// Copies a byte range out of the wire.
fn copy_range(bytes: &Vec<u8>, start: usize, end: usize) -> (r: Vec<u8>)
    requires
        start <= end,
        end <= bytes@.len(),
    ensures
        r@ == bytes@.subrange(start as int, end as int),
{
    let mut out: Vec<u8> = Vec::new();
    let mut i: usize = start;
    while i < end
        invariant
            start <= i <= end,
            end <= bytes@.len(),
            out@ == bytes@.subrange(start as int, i as int),
        decreases end - i,
    {
        out.push(bytes[i]);
        proof {
            assert(bytes@.subrange(start as int, (i + 1) as int) =~= bytes@.subrange(
                start as int,
                i as int,
            ).push(bytes@[i as int]));
        }
        i += 1;
    }
    out
}

/// Whether 32 bytes of the wire are all zero.
fn is_zero_range(bytes: &Vec<u8>, start: usize) -> (r: bool)
    requires
        start + 32 <= bytes@.len(),
    ensures
        r == (bytes@.subrange(start as int, start as int + 32) == zero32()),
{
    let blen = bytes.len();
    let mut i: usize = 0;
    while i < 32
        invariant
            i <= 32,
            start + 32 <= bytes@.len(),
            bytes@.len() <= usize::MAX,
            forall|u: int| 0 <= u < i ==> #[trigger] bytes@[start + u] == 0,
        decreases 32 - i,
    {
        if bytes[start + i] != 0 {
            proof {
                assert(bytes@.subrange(start as int, start as int + 32)[i as int] != zero32()[
                    i as int]);
            }
            return false;
        }
        i += 1;
    }
    proof {
        assert forall|u: int| 0 <= u < 32 implies bytes@.subrange(
            start as int,
            start as int + 32,
        )[u] == zero32()[u] by {
            assert(bytes@.subrange(start as int, start as int + 32)[u] == bytes@[start + u]);
            assert(bytes@[start + u] == 0);
        }
        assert(bytes@.subrange(start as int, start as int + 32) =~= zero32());
    }
    true
}

/// Unpacks a 32-byte MSB-first key from the wire into its 256 bits.
fn unpack_key(bytes: &Vec<u8>, start: usize) -> (r: Vec<u8>)
    requires
        start + 32 <= bytes@.len(),
    ensures
        r@ == unpack_bits(bytes@.subrange(start as int, start as int + 32)),
{
    let ghost packed = bytes@.subrange(start as int, start as int + 32);
    let blen = bytes.len();
    let mut out: Vec<u8> = Vec::new();
    let mut j: usize = 0;
    while j < 256
        invariant
            j <= 256,
            start + 32 <= bytes@.len(),
            bytes@.len() <= usize::MAX,
            packed == bytes@.subrange(start as int, start as int + 32),
            out@ == unpack_bits(packed).take(j as int),
        decreases 256 - j,
    {
        let b = bytes[start + j / 8];
        let sh: u8 = 7 - (j % 8) as u8;
        let bit = (b >> sh) & 1;
        proof {
            assert(packed[j as int / 8] == bytes@[start + j as int / 8]);
            assert(bit == unpack_bits(packed)[j as int]);
            assert(unpack_bits(packed).take((j + 1) as int) =~= unpack_bits(packed).take(
                j as int,
            ).push(unpack_bits(packed)[j as int]));
        }
        out.push(bit);
        j += 1;
    }
    proof {
        assert(unpack_bits(packed).take(256) =~= unpack_bits(packed));
    }
    out
}

/// Reads a 32-bit big-endian value off the wire.
fn read_be32(bytes: &Vec<u8>, i: usize) -> (r: u32)
    requires
        i + 4 <= bytes@.len(),
    ensures
        r as int == be32_at(bytes@, i as int),
{
    let blen = bytes.len();
    (bytes[i] as u32) * 0x100_0000 + (bytes[i + 1] as u32) * 0x1_0000 + (bytes[i + 2] as u32)
        * 0x100 + (bytes[i + 3] as u32)
}

/// Parses one node off the wire, exactly as [`parse_node`] reads it.
fn parse_node_exec(bytes: &Vec<u8>, i: usize) -> (r: Option<(Node, usize)>)
    ensures
        match parse_node(bytes@, i as int) {
            Some(p) => r matches Some(q) && q.0@ == p.0 && q.1 as int == p.1,
            None => r is None,
        },
{
    let len = bytes.len();
    if i >= len {
        return None;
    }
    let tag = bytes[i];
    if tag == 0 {
        if len - i < 37 {
            return None;
        }
        let dlen32 = read_be32(bytes, i + 33);
        if ((len - (i + 37)) as u64) < (dlen32 as u64) {
            return None;
        }
        let dlen = dlen32 as usize;
        let key = unpack_key(bytes, i + 1);
        let data = copy_range(bytes, i + 37, i + 37 + dlen);
        Some((Node::Leaf(Leaf { key, data, hash: None }), i + 37 + dlen))
    } else if tag == 1 {
        if len - i < 67 {
            return None;
        }
        let pos16 = (bytes[i + 1] as u16) * 256 + (bytes[i + 2] as u16);
        let left = copy_range(bytes, i + 3, i + 35);
        let right = copy_range(bytes, i + 35, i + 67);
        Some((Node::Branch(Branch { pos: pos16, left, right, hash: None }), i + 67))
    } else if tag == 2 {
        if len - i < 65 {
            return None;
        }
        let left = if is_zero_range(bytes, i + 1) {
            None
        } else {
            Some(copy_range(bytes, i + 1, i + 33))
        };
        let right = if is_zero_range(bytes, i + 33) {
            None
        } else {
            Some(copy_range(bytes, i + 33, i + 65))
        };
        Some((Node::Root(Root { left, right, hash: None }), i + 65))
    } else {
        None
    }
}

/// Deserialises a proof, exactly as [`parse_proof`] reads it: anything that
/// is not the canonical serialisation of some proof is `Malformed`, and the
/// parse of a serialised proof is the proof itself (`lemma_wire_round_trip`).
pub fn decode_merkle_proof(bytes: &Vec<u8>) -> (r: Result<MerkleProof, TrieError>)
    ensures
        match parse_proof(bytes@) {
            Some(s) => r matches Ok(p) && p@ == s,
            None => r == Err::<MerkleProof, TrieError>(TrieError::Malformed),
        },
{
    if bytes.len() < 4 {
        return Err(TrieError::Malformed);
    }
    let count = read_be32(bytes, 0);
    let mut nodes: Vec<(bool, Node)> = Vec::new();
    let mut i: usize = 4;
    let mut k: u32 = 0;
    while k < count
        invariant
            k <= count,
            4 <= bytes@.len(),
            i <= bytes@.len(),
            count as int == be32_at(bytes@, 0),
            match parse_entries(bytes@, i as int, (count - k) as nat) {
                Some(rest) => parse_entries(bytes@, 4, count as nat) == Some(
                    proof_view(nodes@) + rest,
                ),
                None => parse_entries(bytes@, 4, count as nat) is None,
            },
        decreases count - k,
    {
        if i >= bytes.len() {
            return Err(TrieError::Malformed);
        }
        let side_b = bytes[i];
        if side_b != 0 && side_b != 1 {
            return Err(TrieError::Malformed);
        }
        let side = side_b == 1;
        let (node, j) = match parse_node_exec(bytes, i + 1) {
            None => {
                return Err(TrieError::Malformed);
            },
            Some(p) => p,
        };
        proof {
            let rem = (count - k) as nat;
            let nj = parse_node(bytes@, i as int + 1).unwrap();
            assert(parse_entries(bytes@, i as int, rem) == (
            match parse_entries(bytes@, nj.1, (rem - 1) as nat) {
                Some(rest2) => Some(seq![(side, nj.0)] + rest2),
                None => None,
            }));
            assert(proof_view(nodes@.push((side, node))) =~= proof_view(nodes@) + seq![
                (side, node@),
            ]);
            match parse_entries(bytes@, j as int, (rem - 1) as nat) {
                Some(rest2) => {
                    assert((proof_view(nodes@) + seq![(side, node@)]) + rest2 =~= proof_view(
                        nodes@,
                    ) + (seq![(side, node@)] + rest2));
                },
                None => {},
            }
        }
        nodes.push((side, node));
        i = j;
        k += 1;
    }
    if i != bytes.len() {
        return Err(TrieError::Malformed);
    }
    proof {
        assert(proof_view(nodes@) + Seq::<(bool, NodeV)>::empty() =~= proof_view(nodes@));
    }
    Ok(MerkleProof { nodes })
}

} // verus!
