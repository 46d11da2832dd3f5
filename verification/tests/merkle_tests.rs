use merkle_trie::merkle::{merkle_proof, verify_merkle_proof, MerkleProof};
use merkle_trie::{insert_leaf, Key, Leaf, Node, NodeHash, NodeStore, Root, TrieError};
use sha2::{Digest, Sha256};

fn lcg(state: &mut u64) -> u64 {
    *state = state
        .wrapping_mul(6364136223846793005)
        .wrapping_add(1442695040888963407);
    *state
}

fn generate_random_key(state: &mut u64) -> Key {
    (0..256).map(|_| ((lcg(state) >> 33) & 1) as u8).collect()
}

fn generate_random_data(state: &mut u64) -> Vec<u8> {
    (0..256).map(|_| ((lcg(state) >> 33) % 255) as u8).collect()
}

#[test]
fn test_merkle_proof() {
    let mut db = NodeStore::new();
    let mut leaf_1: Leaf = Leaf::empty(vec![0u8; 256]);
    leaf_1.hash();

    let mut leaf_2_key = vec![0, 0];
    for _i in 0..254 {
        leaf_2_key.push(1);
    }
    let mut leaf_2: Leaf = Leaf::empty(leaf_2_key);
    leaf_2.hash();
    let root: Root = Root::empty();
    let root_node: Node = Node::Root(root);
    let new_root: Root = insert_leaf(&mut db, &mut leaf_1, root_node).unwrap();
    let new_root: Root = insert_leaf(&mut db, &mut leaf_2, Node::Root(new_root)).unwrap();
    let proof = merkle_proof(&db, leaf_2.key.clone(), Node::Root(new_root.clone()));
    let inner_proof = proof.unwrap().nodes;
    assert_eq!(
        inner_proof
            .last()
            .unwrap()
            .clone()
            .1
            .unwrap_as_leaf()
            .unwrap()
            .hash,
        leaf_2.hash
    );
    verify_merkle_proof(inner_proof, new_root.hash.clone().unwrap()).unwrap();

    let proof = merkle_proof(&db, leaf_1.key.clone(), Node::Root(new_root.clone()));
    let inner_proof = proof.unwrap().nodes;
    verify_merkle_proof(inner_proof, new_root.hash.clone().unwrap()).unwrap();
}

#[test]
fn simulate_insert_flow() {
    let mut db = NodeStore::new();
    let root: Root = Root::empty();
    let root_node: Node = Node::Root(root);
    let mut current_root = root_node.clone();
    let message_count: u32 = 1000;
    let mut state: u64 = 2024;
    let mut leafs: Vec<Leaf> = Vec::new();
    for _ in 0..message_count {
        let leaf_key: Key = generate_random_key(&mut state);
        let mut leaf: Leaf = Leaf::empty(leaf_key.clone());
        leaf.data = generate_random_data(&mut state);
        leafs.push(leaf);
    }
    let mut leaf_keys: Vec<NodeHash> = Vec::new();
    for mut leaf in leafs {
        leaf.hash();
        let new_root: Root = insert_leaf(&mut db, &mut leaf.clone(), current_root.clone()).unwrap();
        let proof = merkle_proof(&db, leaf.key.clone(), Node::Root(new_root.clone()));
        let inner_proof = proof.unwrap().nodes;
        verify_merkle_proof(inner_proof, new_root.hash.clone().unwrap()).unwrap();
        // Depth never exceeds the key length: root, at most 256 branches, leaf.
        let proof = merkle_proof(&db, leaf.key.clone(), Node::Root(new_root.clone()));
        assert!(proof.unwrap().nodes.len() <= 258);
        leaf_keys.push(leaf.key.clone());
        current_root = Node::Root(new_root.clone());
    }
    // A fresh proof for every key verifies against the final root.
    let final_root = match &current_root {
        Node::Root(r) => r.clone(),
        _ => unreachable!(),
    };
    for key in leaf_keys {
        let proof = merkle_proof(&db, key, current_root.clone()).unwrap();
        verify_merkle_proof(proof.nodes, final_root.hash.clone().unwrap()).unwrap();
    }
}

/// The two-leaf trie of the regression scenario: keys 0^256 and 0^253 1^3,
/// both with empty payloads.
fn two_leaf_fixture() -> (NodeStore, Leaf, Leaf, Root) {
    let mut db = NodeStore::new();
    let mut leaf_1 = Leaf::empty(vec![0u8; 256]);
    let mut leaf_2_key = vec![0u8; 253];
    leaf_2_key.extend_from_slice(&[1, 1, 1]);
    let mut leaf_2 = Leaf::empty(leaf_2_key);
    leaf_1.hash();
    leaf_2.hash();
    let root = insert_leaf(&mut db, &mut leaf_1, Node::Root(Root::empty())).unwrap();
    let root = insert_leaf(&mut db, &mut leaf_2, Node::Root(root)).unwrap();
    (db, leaf_1, leaf_2, root)
}

#[test]
fn proof_tamper_with_leaf_data_fails() {
    let (db, _leaf_1, leaf_2, root) = two_leaf_fixture();
    let proof: MerkleProof = merkle_proof(&db, leaf_2.key.clone(), Node::Root(root.clone())).unwrap();
    let mut nodes = proof.nodes;
    let last: usize = nodes.len() - 1;
    match &mut nodes[last].1 {
        Node::Leaf(lf) => lf.data = vec![0x42],
        _ => panic!("proof must end at a leaf"),
    }
    let r = verify_merkle_proof(nodes, root.hash.clone().unwrap());
    assert_eq!(r, Err(TrieError::InvalidProof));
}

#[test]
fn proof_tamper_with_any_byte_fails() {
    let (db, _leaf_1, leaf_2, root) = two_leaf_fixture();
    let proof = merkle_proof(&db, leaf_2.key.clone(), Node::Root(root.clone())).unwrap();
    let baseline = verify_merkle_proof(proof.nodes.clone(), root.hash.clone().unwrap());
    assert_eq!(baseline, Ok(()));

    // Flip one bit of the branch position.
    let mut nodes = proof.nodes.clone();
    match &mut nodes[1].1 {
        Node::Branch(b) => b.pos ^= 1,
        _ => panic!("expected a branch below the root"),
    }
    assert_eq!(
        verify_merkle_proof(nodes, root.hash.clone().unwrap()),
        Err(TrieError::InvalidProof)
    );

    // Flip one bit of the branch's untouched child hash.
    let mut nodes = proof.nodes.clone();
    match &mut nodes[1].1 {
        Node::Branch(b) => b.left[0] ^= 0x80,
        _ => panic!("expected a branch below the root"),
    }
    assert_eq!(
        verify_merkle_proof(nodes, root.hash.clone().unwrap()),
        Err(TrieError::InvalidProof)
    );

    // Flip one bit of the leaf's key (stays a valid bit string).
    let mut nodes = proof.nodes.clone();
    let last: usize = nodes.len() - 1;
    match &mut nodes[last].1 {
        Node::Leaf(lf) => lf.key[0] ^= 1,
        _ => panic!("proof must end at a leaf"),
    }
    assert_eq!(
        verify_merkle_proof(nodes, root.hash.clone().unwrap()),
        Err(TrieError::InvalidProof)
    );

    // Flip the side bit of the leaf.
    let mut nodes = proof.nodes.clone();
    let last: usize = nodes.len() - 1;
    nodes[last].0 = !nodes[last].0;
    assert_eq!(
        verify_merkle_proof(nodes, root.hash.clone().unwrap()),
        Err(TrieError::InvalidProof)
    );

    // Flip the side bit of the branch below the root.
    let mut nodes = proof.nodes;
    nodes[1].0 = !nodes[1].0;
    assert_eq!(
        verify_merkle_proof(nodes, root.hash.clone().unwrap()),
        Err(TrieError::InvalidProof)
    );
}

#[test]
fn malformed_proofs_are_rejected() {
    let (db, leaf_1, leaf_2, root) = two_leaf_fixture();
    let expected = root.hash.clone().unwrap();

    // Too short.
    assert_eq!(
        verify_merkle_proof(Vec::new(), expected.clone()),
        Err(TrieError::Malformed)
    );
    let proof = merkle_proof(&db, leaf_2.key.clone(), Node::Root(root.clone())).unwrap();
    assert_eq!(
        verify_merkle_proof(vec![proof.nodes[0].clone()], expected.clone()),
        Err(TrieError::Malformed)
    );

    // Root not first.
    let mut nodes = proof.nodes.clone();
    nodes.swap(0, 1);
    assert_eq!(
        verify_merkle_proof(nodes, expected.clone()),
        Err(TrieError::Malformed)
    );

    // A leaf in the middle.
    let mut nodes = proof.nodes.clone();
    let leaf_node = nodes.last().unwrap().clone();
    nodes.insert(1, leaf_node);
    assert_eq!(
        verify_merkle_proof(nodes, expected.clone()),
        Err(TrieError::Malformed)
    );

    // The terminal leaf replaced by a branch.
    let mut nodes = proof.nodes.clone();
    let branch_node = nodes[1].clone();
    let last: usize = nodes.len() - 1;
    nodes[last] = branch_node;
    assert_eq!(
        verify_merkle_proof(nodes, expected.clone()),
        Err(TrieError::Malformed)
    );

    // A leaf whose key is not a bit string.
    let mut nodes = proof.nodes.clone();
    let last: usize = nodes.len() - 1;
    match &mut nodes[last].1 {
        Node::Leaf(lf) => lf.key[0] = 9,
        _ => panic!("proof must end at a leaf"),
    }
    assert_eq!(
        verify_merkle_proof(nodes, expected.clone()),
        Err(TrieError::Malformed)
    );
    let _ = leaf_1;
}

#[test]
fn proving_an_absent_key_fails() {
    let (db, _leaf_1, _leaf_2, root) = two_leaf_fixture();
    // No subtree on the right of the root at all.
    let r = merkle_proof(&db, vec![1u8; 256], Node::Root(root.clone()));
    assert_eq!(r.err(), Some(TrieError::NotFound));
    // A short key is rejected outright.
    let r = merkle_proof(&db, vec![0u8; 4], Node::Root(root));
    assert_eq!(r.err(), Some(TrieError::InvalidKeyLen));
}

#[test]
fn old_root_still_serves_old_proofs() {
    let mut db = NodeStore::new();
    let mut state: u64 = 5;
    let k1 = generate_random_key(&mut state);
    let mut l1 = Leaf::new(k1.clone(), vec![1]);
    l1.hash();
    let root_1 = insert_leaf(&mut db, &mut l1, Node::Root(Root::empty())).unwrap();
    let proof_before = merkle_proof(&db, k1.clone(), Node::Root(root_1.clone())).unwrap();

    let k2 = generate_random_key(&mut state);
    let mut l2 = Leaf::new(k2, vec![2]);
    l2.hash();
    let _root_2 = insert_leaf(&mut db, &mut l2, Node::Root(root_1.clone())).unwrap();

    // The old root, against the grown store, yields the very same proof,
    // and it still verifies against the old root hash.
    let proof_after = merkle_proof(&db, k1, Node::Root(root_1.clone())).unwrap();
    assert_eq!(proof_before.nodes.len(), proof_after.nodes.len());
    verify_merkle_proof(proof_before.nodes, root_1.hash.clone().unwrap()).unwrap();
    verify_merkle_proof(proof_after.nodes, root_1.hash.unwrap()).unwrap();
}

#[test]
fn wrong_expected_root_hash_is_invalid_proof() {
    let (db, _leaf_1, leaf_2, root) = two_leaf_fixture();
    let proof = merkle_proof(&db, leaf_2.key.clone(), Node::Root(root.clone())).unwrap();
    let mut expected = root.hash.unwrap();
    expected[31] ^= 1;
    assert_eq!(
        verify_merkle_proof(proof.nodes, expected),
        Err(TrieError::InvalidProof)
    );
}

#[test]
fn verification_recomputes_memoised_hashes() {
    // A tampered leaf that still carries its old memoised digest must not
    // slip through: verification recomputes from the contents.
    let (db, _leaf_1, leaf_2, root) = two_leaf_fixture();
    let proof = merkle_proof(&db, leaf_2.key.clone(), Node::Root(root.clone())).unwrap();
    let mut nodes = proof.nodes;
    let last: usize = nodes.len() - 1;
    match &mut nodes[last].1 {
        Node::Leaf(lf) => {
            assert!(lf.hash.is_some());
            lf.data = vec![0xEE, 0xFF];
            // The stale memoised digest stays in place on purpose.
        }
        _ => panic!("proof must end at a leaf"),
    }
    assert_eq!(
        verify_merkle_proof(nodes, root.hash.unwrap()),
        Err(TrieError::InvalidProof)
    );
}

#[test]
fn root_hash_matches_direct_sha256() {
    // One insert; the root hash equals SHA-256 over the canonical root
    // encoding computed here independently.
    let mut db = NodeStore::new();
    let mut leaf = Leaf::empty(vec![0u8; 256]);
    leaf.hash();
    let root = insert_leaf(&mut db, &mut leaf, Node::Root(Root::empty())).unwrap();
    let mut input = vec![2u8];
    input.extend_from_slice(&leaf.hash.clone().unwrap());
    input.extend_from_slice(&[0u8; 32]);
    let expected: Vec<u8> = Sha256::digest(&input).to_vec();
    assert_eq!(root.hash.unwrap(), expected);
}
