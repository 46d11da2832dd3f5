use vstd::prelude::*;

use crate::bytes::opt_view;
use crate::encode::{
    branch_enc, data_wf, encode_branch, encode_leaf, encode_root, key_wf, leaf_enc, root_enc,
};
use crate::node::NodeV;

verus! {

/// The SHA-256 digest of a byte string, named but not defined: the engine
/// relies on the outside implementation and never restates the algorithm.
pub uninterp spec fn sha256_of(bytes: Seq<u8>) -> Seq<u8>;

/// Relies on sha2::Sha256 through `Digest::digest`: the digest is a pure
/// function of the input bytes alone, and is exactly 32 bytes long.
#[verifier::external_body]
pub(crate) fn sha256(bytes: &Vec<u8>) -> (r: Vec<u8>)
    ensures
        r@ == sha256_of(bytes@),
        r@.len() == 32,
{
    let d = <sha2::Sha256 as sha2::Digest>::digest(bytes.as_slice());
    d.to_vec()
}

/// The digest of a leaf's canonical encoding.
pub open spec fn leaf_digest(key: Seq<u8>, data: Seq<u8>) -> Seq<u8> {
    sha256_of(leaf_enc(key, data))
}

/// The digest of a branch's canonical encoding.
pub open spec fn branch_digest(pos: u16, left: Seq<u8>, right: Seq<u8>) -> Seq<u8> {
    sha256_of(branch_enc(pos, left, right))
}

/// The digest of a root's canonical encoding.
pub open spec fn root_digest(left: Option<Seq<u8>>, right: Option<Seq<u8>>) -> Seq<u8> {
    sha256_of(root_enc(left, right))
}

/// The digest of any node value.
pub open spec fn node_digest(n: NodeV) -> Seq<u8> {
    match n {
        NodeV::Root { left, right } => root_digest(left, right),
        NodeV::Branch { pos, left, right } => branch_digest(pos, left, right),
        NodeV::Leaf { key, data } => leaf_digest(key, data),
    }
}

/// Computes a leaf digest: encode canonically, then hash.
pub fn leaf_hash_bytes(key: &Vec<u8>, data: &Vec<u8>) -> (r: Vec<u8>)
    requires
        key_wf(key@),
        data_wf(data@),
    ensures
        r@ == leaf_digest(key@, data@),
        r@.len() == 32,
{
    let encoded = encode_leaf(key, data);
    sha256(&encoded)
}

/// Computes a branch digest: encode canonically, then hash.
pub fn branch_hash_bytes(pos: u16, left: &Vec<u8>, right: &Vec<u8>) -> (r: Vec<u8>)
    ensures
        r@ == branch_digest(pos, left@, right@),
        r@.len() == 32,
{
    let encoded = encode_branch(pos, left, right);
    sha256(&encoded)
}

/// Computes a root digest: encode canonically, then hash.
pub fn root_hash_bytes(left: &Option<Vec<u8>>, right: &Option<Vec<u8>>) -> (r: Vec<u8>)
    ensures
        r@ == root_digest(opt_view(*left), opt_view(*right)),
        r@.len() == 32,
{
    let encoded = encode_root(left, right);
    sha256(&encoded)
}

} // verus!
