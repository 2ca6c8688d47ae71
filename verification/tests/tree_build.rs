use merklederp::builder::merkle_tree;
use merklederp::node::MerkleError;

#[test]
fn empty_input_is_an_error() {
    let data: Vec<u8> = vec![];
    let r = merkle_tree(&data, 4);
    assert!(r.is_err());
    assert_eq!(r.err().unwrap(), MerkleError::EmptyInput);
}

#[test]
fn two_leaves_make_three_nodes() {
    let data: Vec<u8> = vec![7, 9];
    let tree = merkle_tree(&data, 1).unwrap();
    assert_eq!(tree.node_count(), 3);
}

#[test]
fn five_leaves_make_eleven_nodes() {
    // levels of 5, 3, 2 and 1 nodes
    let data: Vec<u8> = vec![1, 2, 3, 4, 5];
    let tree = merkle_tree(&data, 1).unwrap();
    assert_eq!(tree.node_count(), 11);
}

#[test]
fn one_leaf_still_gets_a_root_above_it() {
    let data: Vec<u8> = vec![1, 2, 3];
    let tree = merkle_tree(&data, 4).unwrap();
    assert_eq!(tree.node_count(), 2);
    let arena = tree.arena();
    assert!(arena[0].is_leaf());
    assert!(!arena[1].is_leaf());
    assert_eq!(arena[1].children, vec![0]);
}

#[test]
fn leaf_hashes_are_sha256_of_their_blocks() {
    // SHA-256 of "abc"
    let expected: [u8; 32] = [
        0xba, 0x78, 0x16, 0xbf, 0x8f, 0x01, 0xcf, 0xea, 0x41, 0x41, 0x40, 0xde, 0x5d, 0xae,
        0x22, 0x23, 0xb0, 0x03, 0x61, 0xa3, 0x96, 0x17, 0x7a, 0x9c, 0xb4, 0x10, 0xff, 0x61,
        0xf2, 0x00, 0x15, 0xad,
    ];
    let data: Vec<u8> = b"abc".to_vec();
    let tree = merkle_tree(&data, 4).unwrap();
    assert_eq!(tree.arena()[0].hash, expected);
}

#[test]
fn leaves_sit_first_with_their_offsets() {
    let data: Vec<u8> = (0u8..10).collect();
    let tree = merkle_tree(&data, 4).unwrap();
    let arena = tree.arena();
    // 3 leaves (4 + 4 + 2 bytes), then 2 parents, then the root
    assert_eq!(tree.node_count(), 6);
    assert_eq!(arena[0].offset, 0);
    assert_eq!(arena[1].offset, 4);
    assert_eq!(arena[2].offset, 8);
    for k in 0..3 {
        assert!(arena[k].is_leaf());
    }
    for k in 3..6 {
        assert!(!arena[k].is_leaf());
    }
    // pairing is by position, left to right
    assert_eq!(arena[3].children, vec![0, 1]);
    assert_eq!(arena[4].children, vec![2]);
    assert_eq!(arena[5].children, vec![3, 4]);
}

#[test]
fn rebuilding_gives_an_identical_tree() {
    let data: Vec<u8> = (0u8..=255).cycle().take(1000).collect();
    let t1 = merkle_tree(&data, 64).unwrap();
    let t2 = merkle_tree(&data, 64).unwrap();
    assert_eq!(t1.node_count(), t2.node_count());
    let a1 = t1.arena();
    let a2 = t2.arena();
    for k in 0..t1.node_count() {
        assert_eq!(a1[k].hash, a2[k].hash);
        assert_eq!(a1[k].children, a2[k].children);
        assert_eq!(a1[k].offset, a2[k].offset);
    }
}

#[test]
fn sibling_hashes_feed_the_parent_in_order() {
    // two one-byte leaves with different contents give different leaf
    // hashes, and the parent differs from both
    let data: Vec<u8> = vec![0, 1];
    let tree = merkle_tree(&data, 1).unwrap();
    let arena = tree.arena();
    assert_ne!(arena[0].hash, arena[1].hash);
    assert_ne!(arena[2].hash, arena[0].hash);
    assert_ne!(arena[2].hash, arena[1].hash);
    assert_eq!(arena[2].children, vec![0, 1]);
}
