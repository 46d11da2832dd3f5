use merkle_trie::merkle::{merkle_proof, verify_merkle_proof};
use merkle_trie::wire::{decode_merkle_proof, encode_merkle_proof};
use merkle_trie::{insert_leaf, Leaf, Node, NodeStore, Root, TrieError};

fn two_leaf_proof() -> (Vec<(bool, Node)>, Vec<u8>) {
    let mut db = NodeStore::new();
    let mut leaf_1 = Leaf::empty(vec![0u8; 256]);
    let mut leaf_2_key = vec![0u8; 253];
    leaf_2_key.extend_from_slice(&[1, 1, 1]);
    let mut leaf_2 = Leaf::new(leaf_2_key, vec![0xDE, 0xAD]);
    leaf_1.hash();
    leaf_2.hash();
    let root = insert_leaf(&mut db, &mut leaf_1, Node::Root(Root::empty())).unwrap();
    let root = insert_leaf(&mut db, &mut leaf_2, Node::Root(root)).unwrap();
    let proof = merkle_proof(&db, leaf_2.key.clone(), Node::Root(root.clone())).unwrap();
    (proof.nodes, root.hash.unwrap())
}

#[test]
fn wire_round_trip_preserves_the_proof() {
    let (nodes, root_hash) = two_leaf_proof();
    let proof = merkle_trie::merkle::MerkleProof { nodes };
    let encoded = encode_merkle_proof(&proof);
    let decoded = decode_merkle_proof(&encoded).unwrap();
    // The decoded path carries the same structure: it still verifies, and
    // serialising it again yields the same bytes.
    verify_merkle_proof(decoded.nodes.clone(), root_hash).unwrap();
    let re_encoded = encode_merkle_proof(&decoded);
    assert_eq!(re_encoded, encoded);
    assert_eq!(decoded.nodes.len(), proof.nodes.len());
}

#[test]
fn wire_layout_is_the_documented_one() {
    let (nodes, _) = two_leaf_proof();
    let proof = merkle_trie::merkle::MerkleProof { nodes };
    let encoded = encode_merkle_proof(&proof);
    // Entry count, big-endian.
    assert_eq!(&encoded[0..4], &[0, 0, 0, 3]);
    // First entry: side 0, then the root encoding under tag 2.
    assert_eq!(encoded[4], 0);
    assert_eq!(encoded[5], 2);
    // The root's right slot is absent: 32 zero bytes.
    let right_slot: &[u8] = &encoded[5 + 1 + 32..5 + 1 + 64];
    assert!(right_slot.iter().all(|b| *b == 0));
    // Second entry: side 0, then the branch encoding under tag 1 with the
    // discriminating position 253 big-endian.
    assert_eq!(encoded[70], 0);
    assert_eq!(&encoded[71..74], &[1, 0, 253]);
    // Third entry: side 1, then the leaf encoding under tag 0, its packed
    // key ending in the three set bits, and its two payload bytes last.
    assert_eq!(encoded[138], 1);
    assert_eq!(encoded[139], 0);
    assert_eq!(encoded[139 + 32], 0b0000_0111);
    assert_eq!(&encoded[139 + 33..139 + 37], &[0, 0, 0, 2]);
    assert_eq!(&encoded[encoded.len() - 2..], &[0xDE, 0xAD]);
    assert_eq!(encoded.len(), 139 + 37 + 2);
}

#[test]
fn wire_rejects_damaged_bytes() {
    let (nodes, _) = two_leaf_proof();
    let proof = merkle_trie::merkle::MerkleProof { nodes };
    let encoded = encode_merkle_proof(&proof);

    // Truncated.
    let truncated: Vec<u8> = encoded[..encoded.len() - 1].to_vec();
    assert_eq!(decode_merkle_proof(&truncated).err(), Some(TrieError::Malformed));
    let short: Vec<u8> = encoded[..3].to_vec();
    assert_eq!(decode_merkle_proof(&short).err(), Some(TrieError::Malformed));

    // A trailing byte.
    let mut padded = encoded.clone();
    padded.push(0);
    assert_eq!(decode_merkle_proof(&padded).err(), Some(TrieError::Malformed));

    // A side byte that is neither 0 nor 1.
    let mut bad_side = encoded.clone();
    bad_side[4] = 7;
    assert_eq!(decode_merkle_proof(&bad_side).err(), Some(TrieError::Malformed));

    // An unknown variant tag.
    let mut bad_tag = encoded;
    bad_tag[5] = 9;
    assert_eq!(decode_merkle_proof(&bad_tag).err(), Some(TrieError::Malformed));
}
