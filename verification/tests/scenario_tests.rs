use merkle_trie::{insert_leaf, Branch, Leaf, Node, NodeStore, Root};
use sha2::{Digest, Sha256};

/// The root hash of the empty trie is a fixed constant: the SHA-256 digest
/// of the tag byte 2 followed by 64 zero bytes.
#[test]
fn empty_root_hash_is_the_published_constant() {
    let mut root = Root::empty();
    root.hash();
    let expected = vec![
        151, 124, 109, 36, 255, 43, 133, 23, 119, 175, 77, 206, 6, 21, 229, 71, 17, 44, 108, 1,
        40, 163, 115, 56, 179, 161, 219, 157, 5, 95, 255, 9,
    ];
    assert_eq!(root.hash.clone().unwrap(), expected);
    let mut input = vec![2u8];
    input.extend_from_slice(&[0u8; 64]);
    assert_eq!(root.hash.unwrap(), Sha256::digest(&input).to_vec());
}

/// A single all-zero key with empty payload: the left slot is the leaf's
/// hash, the right slot is absent, and the root hash commits to both.
#[test]
fn single_leaf_all_zero_key() {
    let mut db = NodeStore::new();
    let mut leaf = Leaf::empty(vec![0u8; 256]);
    leaf.hash();
    let root = insert_leaf(&mut db, &mut leaf, Node::Root(Root::empty())).unwrap();
    assert_eq!(root.left, leaf.hash);
    assert_eq!(root.right, None);
    let expected_leaf_hash = vec![
        171, 36, 169, 95, 68, 206, 202, 93, 42, 237, 75, 109, 5, 106, 221, 221, 133, 57, 244, 76,
        108, 214, 202, 80, 101, 52, 232, 48, 200, 46, 168, 168,
    ];
    assert_eq!(leaf.hash.unwrap(), expected_leaf_hash);
    let expected_root_hash = vec![
        7, 40, 66, 249, 172, 112, 64, 206, 42, 191, 152, 186, 187, 181, 80, 88, 117, 4, 103, 110,
        61, 216, 210, 253, 167, 160, 47, 35, 3, 3, 27, 53,
    ];
    assert_eq!(root.hash.unwrap(), expected_root_hash);
}

/// Two keys sharing their first 253 bits: the left slot holds a branch at
/// position 253 over the two leaves; the recorded byte vectors are the
/// regression anchor for the canonical encoding.
#[test]
fn two_leaves_on_the_same_initial_bit() {
    let mut db = NodeStore::new();
    let mut leaf_1 = Leaf::empty(vec![0u8; 256]);
    let mut key_2 = vec![0u8; 253];
    key_2.extend_from_slice(&[1, 1, 1]);
    let mut leaf_2 = Leaf::empty(key_2);
    leaf_1.hash();
    leaf_2.hash();
    let root = insert_leaf(&mut db, &mut leaf_1, Node::Root(Root::empty())).unwrap();
    let root = insert_leaf(&mut db, &mut leaf_2, Node::Root(root)).unwrap();

    // The branch hash, recomputed here independently of the library:
    // tag 1, position 253 big-endian, left leaf hash, right leaf hash.
    let mut branch_input = vec![1u8, 0, 253];
    branch_input.extend_from_slice(&leaf_1.hash.clone().unwrap());
    branch_input.extend_from_slice(&leaf_2.hash.clone().unwrap());
    let branch_hash: Vec<u8> = Sha256::digest(&branch_input).to_vec();
    assert_eq!(root.left.clone().unwrap(), branch_hash);
    assert_eq!(root.right, None);

    // The same digest through the library's own branch hasher.
    let mut branch = Branch::new(
        253,
        leaf_1.hash.clone().unwrap(),
        leaf_2.hash.clone().unwrap(),
    );
    branch.hash();
    assert_eq!(branch.hash.unwrap(), branch_hash);
    assert_eq!(
        branch_hash,
        vec![
            186, 67, 211, 147, 98, 73, 67, 218, 235, 216, 239, 254, 45, 130, 213, 218, 185, 38,
            30, 101, 22, 54, 170, 175, 156, 255, 40, 73, 207, 114, 108, 231
        ]
    );
    assert_eq!(
        root.hash.unwrap(),
        vec![
            199, 151, 124, 67, 38, 28, 52, 99, 124, 76, 161, 96, 115, 78, 91, 3, 158, 121, 39,
            254, 131, 93, 211, 13, 73, 71, 92, 105, 100, 171, 168, 126
        ]
    );
}

/// Keys on opposite sides of the root: both slots point directly at the
/// leaves, with no branch in between.
#[test]
fn keys_on_opposite_sides() {
    let mut db = NodeStore::new();
    let mut leaf_1 = Leaf::empty(vec![0u8; 256]);
    let mut leaf_2 = Leaf::empty(vec![1u8; 256]);
    leaf_1.hash();
    leaf_2.hash();
    let root = insert_leaf(&mut db, &mut leaf_1, Node::Root(Root::empty())).unwrap();
    let root = insert_leaf(&mut db, &mut leaf_2, Node::Root(root)).unwrap();
    assert_eq!(root.left, leaf_1.hash);
    assert_eq!(root.right, leaf_2.hash);
}

/// `hash_and_store` memoises the digest and binds the node under it; a
/// second call changes nothing, and the stored node can be read back.
#[test]
fn hash_and_store_is_idempotent() {
    let mut db = NodeStore::new();
    let mut leaf = Leaf::new(vec![0u8; 256], vec![1, 2, 3]);
    leaf.hash_and_store(&mut db);
    let first = leaf.hash.clone().unwrap();
    leaf.hash_and_store(&mut db);
    assert_eq!(leaf.hash.clone().unwrap(), first);
    match db.get(&first) {
        Some(Node::Leaf(read_back)) => {
            assert_eq!(read_back.key, leaf.key);
            assert_eq!(read_back.data, leaf.data);
        }
        _ => panic!("the stored leaf must read back"),
    }
    assert!(db.contains(&first));

    let mut branch = Branch::new(7, vec![0xAA; 32], vec![0xBB; 32]);
    branch.hash_and_store(&mut db);
    let bh = branch.hash.clone().unwrap();
    branch.hash_and_store(&mut db);
    assert_eq!(branch.hash.clone().unwrap(), bh);
    assert!(db.contains(&bh));
}

/// The leaf encoding packs the key MSB-first and length-prefixes the
/// payload: checked against a digest computed here independently.
#[test]
fn leaf_hash_matches_direct_sha256() {
    let mut key = vec![0u8; 253];
    key.extend_from_slice(&[1, 1, 1]);
    let mut leaf = Leaf::new(key, vec![0xAB, 0xCD]);
    leaf.hash();
    let mut input = vec![0u8];
    let mut packed = [0u8; 32];
    packed[31] = 0b0000_0111;
    input.extend_from_slice(&packed);
    input.extend_from_slice(&[0, 0, 0, 2]);
    input.extend_from_slice(&[0xAB, 0xCD]);
    assert_eq!(leaf.hash.unwrap(), Sha256::digest(&input).to_vec());
}
