use vstd::prelude::*;

use crate::bytes::{opt_view, push_bytes};

verus! {

/// A well-formed key: 256 elements, each the value 0 or 1.
pub open spec fn key_wf(k: Seq<u8>) -> bool {
    &&& k.len() == 256
    &&& key_bits_wf(k)
}

/// Every element of the string is the value 0 or 1.
pub open spec fn key_bits_wf(k: Seq<u8>) -> bool {
    forall|i: int| 0 <= i < k.len() ==> k[i] == 0 || k[i] == 1
}

/// A payload whose length fits the 32-bit length prefix of the leaf encoding.
pub open spec fn data_wf(d: Seq<u8>) -> bool {
    d.len() <= 0xFFFF_FFFF
}

/// Big-endian bytes of a 16-bit value.
pub open spec fn be16(x: u16) -> Seq<u8> {
    seq![(x / 256) as u8, (x % 256) as u8]
}

/// Big-endian bytes of a 32-bit value.
pub open spec fn be32(x: int) -> Seq<u8> {
    seq![
        (x / 0x100_0000 % 256) as u8,
        (x / 0x1_0000 % 256) as u8,
        (x / 0x100 % 256) as u8,
        (x % 256) as u8,
    ]
}

/// Byte `i` of the MSB-first packing of a 256-bit key into 32 bytes.
pub open spec fn bit_byte(k: Seq<u8>, i: int) -> u8 {
    ((k[8 * i] as int) * 128 + (k[8 * i + 1] as int) * 64 + (k[8 * i + 2] as int) * 32 + (k[8 * i
        + 3] as int) * 16 + (k[8 * i + 4] as int) * 8 + (k[8 * i + 5] as int) * 4 + (k[8 * i
        + 6] as int) * 2 + (k[8 * i + 7] as int)) as u8
}

/// The 256-bit key packed MSB-first into 32 bytes.
pub open spec fn pack_bits(k: Seq<u8>) -> Seq<u8> {
    Seq::new(32, |i: int| bit_byte(k, i))
}

/// 32 zero bytes: the encoding of an absent root child.
pub open spec fn zero32() -> Seq<u8> {
    Seq::new(32, |i: int| 0u8)
}

/// An optional child hash, with absence encoded as 32 zero bytes.
pub open spec fn opt_or_zero(o: Option<Seq<u8>>) -> Seq<u8> {
    match o {
        Some(h) => h,
        None => zero32(),
    }
}

/// Canonical leaf encoding: tag 0, packed key, payload length, payload.
pub open spec fn leaf_enc(key: Seq<u8>, data: Seq<u8>) -> Seq<u8> {
    seq![0u8] + pack_bits(key) + be32(data.len() as int) + data
}

/// Canonical branch encoding: tag 1, bit position, left hash, right hash.
pub open spec fn branch_enc(pos: u16, left: Seq<u8>, right: Seq<u8>) -> Seq<u8> {
    seq![1u8] + be16(pos) + left + right
}

/// Canonical root encoding: tag 2, then each child hash or 32 zero bytes.
pub open spec fn root_enc(left: Option<Seq<u8>>, right: Option<Seq<u8>>) -> Seq<u8> {
    seq![2u8] + opt_or_zero(left) + opt_or_zero(right)
}

/// True iff the vector is a well-formed key; decided at run time.
pub fn is_valid_key(key: &Vec<u8>) -> (r: bool)
    ensures
        r == key_wf(key@),
{
    if key.len() != 256 {
        return false;
    }
    let mut i: usize = 0;
    while i < key.len()
        invariant
            i <= key@.len(),
            key@.len() == 256,
            forall|j: int| 0 <= j < i ==> key@[j] == 0 || key@[j] == 1,
        decreases key@.len() - i,
    {
        let d = key[i];
        if d != 0 && d != 1 {
            return false;
        }
        i += 1;
    }
    true
}

/// The canonical leaf encoding, built byte by byte.
pub fn encode_leaf(key: &Vec<u8>, data: &Vec<u8>) -> (r: Vec<u8>)
    requires
        key_wf(key@),
        data_wf(data@),
    ensures
        r@ == leaf_enc(key@, data@),
{
    let mut out: Vec<u8> = Vec::new();
    out.push(0u8);
    let mut i: usize = 0;
    while i < 32
        invariant
            i <= 32,
            key_wf(key@),
            out@ == seq![0u8] + pack_bits(key@).take(i as int),
        decreases 32 - i,
    {
        let b: u8 = ((key[8 * i] as u16) * 128 + (key[8 * i + 1] as u16) * 64 + (key[8 * i
            + 2] as u16) * 32 + (key[8 * i + 3] as u16) * 16 + (key[8 * i + 4] as u16) * 8 + (key[8
            * i + 5] as u16) * 4 + (key[8 * i + 6] as u16) * 2 + (key[8 * i + 7] as u16)) as u8;
        proof {
            assert(b == bit_byte(key@, i as int));
            assert(pack_bits(key@).take((i + 1) as int) =~= pack_bits(key@).take(i as int).push(
                bit_byte(key@, i as int),
            ));
        }
        out.push(b);
        i += 1;
    }
    proof {
        assert(pack_bits(key@).take(32) =~= pack_bits(key@));
    }
    let n: u32 = data.len() as u32;
    out.push((n / 0x100_0000 % 256) as u8);
    out.push((n / 0x1_0000 % 256) as u8);
    out.push((n / 0x100 % 256) as u8);
    out.push((n % 256) as u8);
    proof {
        assert(out@ =~= seq![0u8] + pack_bits(key@) + be32(data@.len() as int));
    }
    push_bytes(&mut out, data);
    proof {
        assert(out@ =~= leaf_enc(key@, data@));
    }
    out
}

/// The canonical branch encoding.
pub fn encode_branch(pos: u16, left: &Vec<u8>, right: &Vec<u8>) -> (r: Vec<u8>)
    ensures
        r@ == branch_enc(pos, left@, right@),
{
    let mut out: Vec<u8> = Vec::new();
    out.push(1u8);
    out.push((pos / 256) as u8);
    out.push((pos % 256) as u8);
    push_bytes(&mut out, left);
    push_bytes(&mut out, right);
    proof {
        assert(out@ =~= branch_enc(pos, left@, right@));
    }
    out
}

/// The canonical root encoding.
pub fn encode_root(left: &Option<Vec<u8>>, right: &Option<Vec<u8>>) -> (r: Vec<u8>)
    ensures
        r@ == root_enc(opt_view(*left), opt_view(*right)),
{
    let mut out: Vec<u8> = Vec::new();
    out.push(2u8);
    push_slot(&mut out, left);
    push_slot(&mut out, right);
    proof {
        assert(out@ =~= root_enc(opt_view(*left), opt_view(*right)));
    }
    out
}

/// Appends a child hash, or 32 zero bytes where the child is absent.
fn push_slot(out: &mut Vec<u8>, slot: &Option<Vec<u8>>)
    ensures
        final(out)@ == old(out)@ + opt_or_zero(opt_view(*slot)),
{
    match slot {
        Some(h) => {
            push_bytes(out, h);
        },
        None => {
            let mut i: usize = 0;
            while i < 32
                invariant
                    i <= 32,
                    out@ == old(out)@ + zero32().take(i as int),
                decreases 32 - i,
            {
                out.push(0u8);
                proof {
                    assert(old(out)@ + zero32().take((i + 1) as int) =~= (old(out)@
                        + zero32().take(i as int)).push(0u8));
                }
                i += 1;
            }
            proof {
                assert(zero32().take(32) =~= zero32());
            }
        },
    }
}

} // verus!
