use merkle_trie::merkle::{merkle_proof, verify_merkle_proof};
use merkle_trie::{check_leaf, find_key_idx_not_eq, insert_leaf, update_leaf};
use merkle_trie::{Leaf, Node, NodeStore, Root, TrieError};

fn lcg(state: &mut u64) -> u64 {
    *state = state
        .wrapping_mul(6364136223846793005)
        .wrapping_add(1442695040888963407);
    *state
}

fn generate_random_key(state: &mut u64) -> Vec<u8> {
    (0..256).map(|_| ((lcg(state) >> 33) & 1) as u8).collect()
}

fn generate_random_data(state: &mut u64) -> Vec<u8> {
    (0..256).map(|_| ((lcg(state) >> 33) % 255) as u8).collect()
}

#[test]
fn test_find_key_neq() {
    let x = vec![0, 1, 1, 0, 0, 0, 1, 0, 0, 1, 0, 1, 1];
    let y = vec![0, 1, 1, 0, 0, 0, 1, 0, 0, 0, 0, 1, 1];
    assert_eq!(find_key_idx_not_eq(&x, &y).unwrap(), 9);
}

#[test]
fn test_insert_leaf() {
    let mut db = NodeStore::new();
    let mut leaf_1: Leaf = Leaf::empty(vec![0u8; 256]);
    let mut leaf_2_key: Vec<u8> = vec![0; 253];
    for _i in 0..3 {
        leaf_2_key.push(1);
    }
    let mut leaf_2: Leaf = Leaf::empty(leaf_2_key);

    let mut leaf_3_key: Vec<u8> = vec![0; 253];
    for _i in 0..3 {
        leaf_3_key.push(0);
    }
    let mut leaf_3 = Leaf::empty(leaf_3_key);
    leaf_1.hash();
    leaf_2.hash();
    leaf_3.hash();
    let root: Root = Root::empty();
    let root_node = Node::Root(root);
    let new_root = insert_leaf(&mut db, &mut leaf_1, root_node.clone()).unwrap();
    let _ = insert_leaf(&mut db, &mut leaf_2, Node::Root(new_root)).unwrap();
}

#[test]
fn test_many_leafs() {
    let transaction_count: u32 = 1000;
    let mut state: u64 = 42;
    let mut transactions: Vec<Leaf> = Vec::new();
    for _ in 0..transaction_count {
        let leaf_key = generate_random_key(&mut state);
        let leaf: Leaf = Leaf::new(leaf_key, generate_random_data(&mut state));
        transactions.push(leaf);
    }
    let mut db = NodeStore::new();
    let root: Root = Root::empty();
    let mut root_node = Node::Root(root);
    for mut leaf in transactions {
        leaf.hash();
        let new_root = insert_leaf(&mut db, &mut leaf, root_node.clone()).unwrap();
        assert!(check_leaf(&db, leaf.clone(), Node::Root(new_root.clone())));
        root_node = Node::Root(new_root.clone());
    }
}

#[test]
fn test_sql_db() {
    let mut db = NodeStore::new();
    let mut leaf_1: Leaf = Leaf::empty(vec![0u8; 256]);
    let mut leaf_2_key: Vec<u8> = vec![0; 253];
    for _i in 0..3 {
        leaf_2_key.push(1);
    }
    let mut leaf_2: Leaf = Leaf::empty(leaf_2_key);

    let mut leaf_3_key: Vec<u8> = vec![0; 253];
    for _i in 0..3 {
        leaf_3_key.push(0);
    }
    let mut leaf_3 = Leaf::empty(leaf_3_key);
    leaf_1.hash();
    leaf_2.hash();
    leaf_3.hash();
    let root: Root = Root::empty();
    let root_node = Node::Root(root);
    let new_root = insert_leaf(&mut db, &mut leaf_1, root_node).unwrap();
    let new_root = insert_leaf(&mut db, &mut leaf_2, Node::Root(new_root)).unwrap();
    assert_eq!(
        new_root.hash.clone().unwrap(),
        vec![
            199, 151, 124, 67, 38, 28, 52, 99, 124, 76, 161, 96, 115, 78, 91, 3, 158, 121, 39,
            254, 131, 93, 211, 13, 73, 71, 92, 105, 100, 171, 168, 126
        ]
    );
    assert_eq!(
        new_root.left.clone().unwrap(),
        vec![
            186, 67, 211, 147, 98, 73, 67, 218, 235, 216, 239, 254, 45, 130, 213, 218, 185, 38,
            30, 101, 22, 54, 170, 175, 156, 255, 40, 73, 207, 114, 108, 231
        ]
    );
    assert_eq!(new_root.right, None);
    let mut leaf_1: Leaf = Leaf::empty(vec![1u8; 256]);
    leaf_1.hash();
    let root: Root = new_root;
    let root_node: Node = Node::Root(root);
    let new_root: Root = insert_leaf(&mut db, &mut leaf_1, root_node).unwrap();
    let proof = merkle_proof(&db, leaf_1.key.clone(), Node::Root(new_root.clone()));
    let inner_proof = proof.unwrap().nodes;
    verify_merkle_proof(inner_proof, new_root.hash.clone().unwrap()).unwrap();
}

#[test]
fn duplicate_key_is_rejected() {
    let mut db = NodeStore::new();
    let mut state: u64 = 7;
    let key = generate_random_key(&mut state);
    let mut leaf_a = Leaf::new(key.clone(), vec![1, 2, 3]);
    leaf_a.hash();
    let root = insert_leaf(&mut db, &mut leaf_a, Node::Root(Root::empty())).unwrap();
    let mut leaf_b = Leaf::new(key, vec![4, 5, 6]);
    leaf_b.hash();
    let r = insert_leaf(&mut db, &mut leaf_b, Node::Root(root));
    assert_eq!(r.err(), Some(TrieError::DuplicateKey));
}

#[test]
fn update_missing_key_is_not_found() {
    let mut db = NodeStore::new();
    let mut leaf = Leaf::new(vec![0u8; 256], vec![9]);
    leaf.hash();
    // Empty trie: the root slot for the key is absent.
    let r = update_leaf(&mut db, &mut leaf, Node::Root(Root::empty()));
    assert_eq!(r.err(), Some(TrieError::NotFound));

    // A different key occupies the walked slot.
    let mut other = Leaf::new(vec![1u8; 256], vec![8]);
    other.hash();
    let mut stored = Leaf::empty(vec![0u8; 256]);
    stored.hash();
    let root = insert_leaf(&mut db, &mut stored, Node::Root(Root::empty())).unwrap();
    let mut key_0_then_1 = vec![0u8; 255];
    key_0_then_1.push(1);
    let mut missing = Leaf::new(key_0_then_1, vec![7]);
    missing.hash();
    let r = update_leaf(&mut db, &mut missing, Node::Root(root));
    assert_eq!(r.err(), Some(TrieError::NotFound));
    let r = update_leaf(&mut db, &mut other, Node::Root(Root::empty()));
    assert_eq!(r.err(), Some(TrieError::NotFound));
}

#[test]
fn invalid_key_is_rejected() {
    let mut db = NodeStore::new();
    let mut short = Leaf::new(vec![0u8; 5], vec![]);
    let r = insert_leaf(&mut db, &mut short, Node::Root(Root::empty()));
    assert_eq!(r.err(), Some(TrieError::InvalidKeyLen));

    let mut bad_digit_key = vec![0u8; 256];
    bad_digit_key[17] = 7;
    let mut bad = Leaf::new(bad_digit_key, vec![]);
    let r = insert_leaf(&mut db, &mut bad, Node::Root(Root::empty()));
    assert_eq!(r.err(), Some(TrieError::InvalidKeyLen));

    let r = update_leaf(&mut db, &mut short, Node::Root(Root::empty()));
    assert_eq!(r.err(), Some(TrieError::InvalidKeyLen));
}

#[test]
fn insert_below_non_root_is_malformed() {
    let mut db = NodeStore::new();
    let mut leaf = Leaf::empty(vec![0u8; 256]);
    leaf.hash();
    let as_start = Node::Leaf(leaf.clone());
    let r = insert_leaf(&mut db, &mut leaf, as_start);
    assert_eq!(r.err(), Some(TrieError::Malformed));
}

#[test]
fn dangling_root_slot_is_store_missing() {
    let mut db = NodeStore::new();
    let dangling = Root {
        left: Some(vec![0xAB; 32]),
        right: None,
        hash: None,
    };
    let mut leaf = Leaf::empty(vec![0u8; 256]);
    leaf.hash();
    let r = insert_leaf(&mut db, &mut leaf, Node::Root(dangling));
    assert_eq!(r.err(), Some(TrieError::StoreMissing));
}

#[test]
fn update_round_trip_single_key() {
    // insert(k, v1) then update(k, v2) commits to the same root hash as
    // insert(k, v2) on an empty trie.
    let key = vec![0u8; 256];
    let mut db_a = NodeStore::new();
    let mut leaf_v1 = Leaf::new(key.clone(), vec![1, 1, 1]);
    leaf_v1.hash();
    let root_a = insert_leaf(&mut db_a, &mut leaf_v1, Node::Root(Root::empty())).unwrap();
    let mut leaf_v2 = Leaf::new(key.clone(), vec![2, 2]);
    leaf_v2.hash();
    let root_a = update_leaf(&mut db_a, &mut leaf_v2, Node::Root(root_a)).unwrap();

    let mut db_b = NodeStore::new();
    let mut leaf_direct = Leaf::new(key, vec![2, 2]);
    leaf_direct.hash();
    let root_b = insert_leaf(&mut db_b, &mut leaf_direct, Node::Root(Root::empty())).unwrap();
    assert_eq!(root_a.hash, root_b.hash);
}

#[test]
fn update_preserves_other_keys_proofs() {
    let mut db = NodeStore::new();
    let mut state: u64 = 99;
    let keys: Vec<Vec<u8>> = (0..8).map(|_| generate_random_key(&mut state)).collect();
    let mut root = Root::empty();
    for key in &keys {
        let mut leaf = Leaf::new(key.clone(), generate_random_data(&mut state));
        leaf.hash();
        root = insert_leaf(&mut db, &mut leaf, Node::Root(root)).unwrap();
    }
    let mut updated = Leaf::new(keys[3].clone(), vec![0xFF; 10]);
    updated.hash();
    let root = update_leaf(&mut db, &mut updated, Node::Root(root)).unwrap();
    for key in &keys {
        let proof = merkle_proof(&db, key.clone(), Node::Root(root.clone())).unwrap();
        verify_merkle_proof(proof.nodes, root.hash.clone().unwrap()).unwrap();
    }
}

#[test]
fn insertion_order_of_two_keys_does_not_matter() {
    // Same-side pair: both keys start with bit 0.
    let k1 = vec![0u8; 256];
    let mut k2 = vec![0u8; 253];
    k2.extend_from_slice(&[1, 1, 1]);
    // Opposite-side pair.
    let k3 = vec![1u8; 256];
    for (a, b) in [(k1.clone(), k2.clone()), (k1.clone(), k3.clone())] {
        let mut db_ab = NodeStore::new();
        let mut la = Leaf::new(a.clone(), vec![0xA]);
        la.hash();
        let mut lb = Leaf::new(b.clone(), vec![0xB]);
        lb.hash();
        let r = insert_leaf(&mut db_ab, &mut la, Node::Root(Root::empty())).unwrap();
        let r_ab = insert_leaf(&mut db_ab, &mut lb, Node::Root(r)).unwrap();

        let mut db_ba = NodeStore::new();
        let mut la2 = Leaf::new(a, vec![0xA]);
        la2.hash();
        let mut lb2 = Leaf::new(b, vec![0xB]);
        lb2.hash();
        let r = insert_leaf(&mut db_ba, &mut lb2, Node::Root(Root::empty())).unwrap();
        let r_ba = insert_leaf(&mut db_ba, &mut la2, Node::Root(r)).unwrap();
        assert_eq!(r_ab.hash, r_ba.hash);
    }
}

#[test]
fn check_leaf_answers_membership() {
    let mut db = NodeStore::new();
    let mut leaf = Leaf::new(vec![0u8; 256], vec![5]);
    leaf.hash();
    let root = insert_leaf(&mut db, &mut leaf, Node::Root(Root::empty())).unwrap();
    assert!(check_leaf(&db, leaf.clone(), Node::Root(root.clone())));
    let absent = Leaf::new(vec![1u8; 256], vec![]);
    assert!(!check_leaf(&db, absent, Node::Root(root)));
}
