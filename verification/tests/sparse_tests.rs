use merkle_tree::sparse::DEFAULT_HASH;
use merkle_tree::{
    Hasher, MerkleError, ProofDirection, Sha256Hasher, Sha3Hasher, SparseMerkleTree,
};

#[test]
fn test_create_sparse_tree() {
    let tree = SparseMerkleTree::new(8, Sha256Hasher::new()).unwrap();
    assert_eq!(tree.depth(), 8);
    assert_eq!(tree.len(), 0);
    assert!(tree.is_empty());
}

#[test]
fn test_invalid_depth() {
    assert!(SparseMerkleTree::new(0, Sha256Hasher::new()).is_err());
    assert!(SparseMerkleTree::new(65, Sha256Hasher::new()).is_err());
}

#[test]
fn test_update_and_get() {
    let mut tree = SparseMerkleTree::new(8, Sha256Hasher::new()).unwrap();

    tree.update(10, "hello".as_bytes()).unwrap();
    tree.update(20, "world".as_bytes()).unwrap();

    assert_eq!(tree.len(), 2);
    assert!(!tree.is_empty());
    assert!(tree.contains(10));
    assert!(tree.contains(20));
    assert!(!tree.contains(30));

    let hash10 = tree.get(10).unwrap();
    let expected_hash = Sha256Hasher::new().hash("hello".as_bytes());
    assert_eq!(hash10, expected_hash);
}

#[test]
fn test_remove() {
    let mut tree = SparseMerkleTree::new(8, Sha256Hasher::new()).unwrap();

    tree.update(10, "hello".as_bytes()).unwrap();
    assert!(tree.contains(10));

    let removed = tree.remove(10).unwrap();
    assert!(removed);
    assert!(!tree.contains(10));

    let not_removed = tree.remove(10).unwrap();
    assert!(!not_removed);
}

#[test]
fn test_root_computation() {
    let mut tree = SparseMerkleTree::new(4, Sha256Hasher::new()).unwrap();

    let empty_root = tree.root().to_vec();

    tree.update(0, "test".as_bytes()).unwrap();
    let root_with_data = tree.root().to_vec();

    // The root is the node with index 1 at the top level. The nodes below
    // it are those from 16 on at the leaf level, past the last slot, so the
    // root stays what it is in the empty tree when a slot gets a value.
    assert_eq!(empty_root, root_with_data);

    tree.remove(0).unwrap();
    let root_after_removal = tree.root().to_vec();

    // Root should return to its first state
    assert_eq!(empty_root, root_after_removal);
}

#[test]
fn test_proof_generation_and_verification() {
    let hasher = Sha256Hasher::new();
    let mut tree = SparseMerkleTree::new(8, Sha256Hasher::new()).unwrap();

    tree.update(10, "hello".as_bytes()).unwrap();
    tree.update(20, "world".as_bytes()).unwrap();

    // A proof climbs from a slot to the node with index 0 at the top level,
    // the one that lies over all slots; the root that it is compared with is
    // the node with index 1. Once a slot holds a value the two differ.
    let proof = tree.generate_proof(10).unwrap();
    assert!(!tree.verify_proof(&proof, 10, "hello".as_bytes()));
    assert!(!tree.verify_proof(&proof, 10, "wrong".as_bytes()));
    let top = proof.compute_root(&hasher, &hasher.hash("hello".as_bytes()));
    assert_ne!(top, tree.root());

    let proof_empty = tree.generate_proof(30).unwrap();
    assert!(!tree.verify_proof(&proof_empty, 30, &DEFAULT_HASH));
    assert_eq!(proof_empty.compute_root(&hasher, &DEFAULT_HASH), top);
}

#[test]
fn sparse_test_invalid_index() {
    let mut tree = SparseMerkleTree::new(4, Sha256Hasher::new()).unwrap();

    // Max index for depth 4 is 15
    assert!(tree.update(16, "test".as_bytes()).is_err());
    assert!(tree.generate_proof(16).is_err());
}

#[test]
fn test_leaf_indices_and_leaves() {
    let mut tree = SparseMerkleTree::new(8, Sha256Hasher::new()).unwrap();

    tree.update(5, "five".as_bytes()).unwrap();
    tree.update(1, "one".as_bytes()).unwrap();
    tree.update(10, "ten".as_bytes()).unwrap();

    let indices = tree.leaf_indices();
    assert_eq!(indices, vec![1, 5, 10]);

    let leaves = tree.leaves();
    assert_eq!(leaves.len(), 3);
    assert_eq!(leaves[0].0, 1);
    assert_eq!(leaves[1].0, 5);
    assert_eq!(leaves[2].0, 10);
}

#[test]
fn test_stats() {
    let mut tree = SparseMerkleTree::new(8, Sha256Hasher::new()).unwrap();

    tree.update(10, "hello".as_bytes()).unwrap();
    tree.update(20, "world".as_bytes()).unwrap();

    let stats = tree.stats();
    assert_eq!(stats.depth, 8);
    assert_eq!(stats.leaf_count, 2);
    assert_eq!(stats.max_leaves, 256);
    assert_eq!(stats.hasher_name, "SHA-256");
    assert!(!stats.root_hash.is_empty());
}

#[test]
fn test_clear() {
    let mut tree = SparseMerkleTree::new(8, Sha256Hasher::new()).unwrap();

    tree.update(10, "hello".as_bytes()).unwrap();
    tree.update(20, "world".as_bytes()).unwrap();
    assert_eq!(tree.len(), 2);

    tree.clear();
    assert_eq!(tree.len(), 0);
    assert!(tree.is_empty());
    assert!(!tree.contains(10));
    assert!(!tree.contains(20));
}

#[test]
fn test_large_sparse_tree() {
    let hasher = Sha256Hasher::new();
    let mut tree = SparseMerkleTree::new(20, Sha256Hasher::new()).unwrap();

    // Insert sparse data
    for i in &[0, 1000, 10000, 100000, 500000] {
        tree.update(*i, format!("value_{}", i).as_bytes()).unwrap();
    }

    assert_eq!(tree.len(), 5);

    // Test proofs for all inserted values: each climbs to the node over all
    // slots, which is not the node that the tree takes for its root.
    let first = tree.generate_proof(0).unwrap();
    let top = first.compute_root(&hasher, &hasher.hash("value_0".as_bytes()));
    for &i in &[0, 1000, 10000, 100000, 500000] {
        let proof = tree.generate_proof(i).unwrap();
        let value = format!("value_{}", i);
        assert!(!tree.verify_proof(&proof, i, value.as_bytes()));
        assert_eq!(proof.compute_root(&hasher, &hasher.hash(value.as_bytes())), top);
    }

    // Test proof for non-existent value
    let empty_proof = tree.generate_proof(999).unwrap();
    assert!(!tree.verify_proof(&empty_proof, 999, &DEFAULT_HASH));
    assert_eq!(empty_proof.compute_root(&hasher, &DEFAULT_HASH), top);
}

#[test]
fn default_hash_is_32_zero_bytes() {
    assert_eq!(DEFAULT_HASH, [0u8; 32]);
}

#[test]
fn new_accepts_depths_from_1_to_64() {
    assert!(SparseMerkleTree::new(1, Sha256Hasher::new()).is_ok());
    assert!(SparseMerkleTree::new(64, Sha256Hasher::new()).is_ok());
    assert_eq!(SparseMerkleTree::new(64, Sha256Hasher::new()).unwrap().depth(), 64);
}

#[test]
fn invalid_depth_error_names_the_depth() {
    let zero = SparseMerkleTree::new(0, Sha256Hasher::new()).unwrap_err();
    assert_eq!(
        zero,
        MerkleError::TreeConstructionError {
            reason: "Invalid depth: 0. Must be between 1 and 64".to_string()
        }
    );
    let large = SparseMerkleTree::new(200, Sha256Hasher::new()).unwrap_err();
    assert_eq!(
        large,
        MerkleError::TreeConstructionError {
            reason: "Invalid depth: 200. Must be between 1 and 64".to_string()
        }
    );
}

#[test]
fn invalid_index_reports_index_and_slot_count() {
    let mut tree = SparseMerkleTree::new(4, Sha256Hasher::new()).unwrap();
    assert_eq!(
        tree.update(16, b"x").unwrap_err(),
        MerkleError::InvalidIndex { index: 16, size: 16 }
    );
    assert_eq!(
        tree.generate_proof(500).unwrap_err(),
        MerkleError::InvalidIndex { index: 500, size: 16 }
    );
    assert!(tree.update(15, b"x").is_ok());
    assert!(tree.generate_proof(15).is_ok());
    assert!(tree.is_empty() == false);
}

#[test]
fn rejected_update_changes_nothing() {
    let mut tree = SparseMerkleTree::new(3, Sha256Hasher::new()).unwrap();
    tree.update(7, b"seven").unwrap();
    assert!(tree.update(8, b"eight").is_err());
    assert_eq!(tree.len(), 1);
    assert!(!tree.contains(8));
    assert_eq!(tree.leaf_indices(), vec![7]);
}

#[test]
fn depth_64_takes_every_index() {
    let mut tree = SparseMerkleTree::new(64, Sha256Hasher::new()).unwrap();
    tree.update(u64::MAX, b"last").unwrap();
    tree.update(0, b"first").unwrap();
    assert!(tree.contains(u64::MAX));
    assert_eq!(tree.leaf_indices(), vec![0, u64::MAX]);
    assert_eq!(tree.get(u64::MAX).unwrap(), Sha256Hasher::new().hash(b"last").as_slice());
}

#[test]
fn update_replaces_the_stored_digest() {
    let hasher = Sha3Hasher::new();
    let mut tree = SparseMerkleTree::new(8, Sha3Hasher::new()).unwrap();
    assert!(tree.get(3).is_none());
    tree.update(3, b"one").unwrap();
    assert_eq!(tree.get(3).unwrap(), hasher.hash(b"one").as_slice());
    tree.update(3, b"two").unwrap();
    assert_eq!(tree.get(3).unwrap(), hasher.hash(b"two").as_slice());
    assert_eq!(tree.len(), 1);
}

#[test]
fn leaves_pairs_each_index_with_its_digest() {
    let hasher = Sha256Hasher::new();
    let mut tree = SparseMerkleTree::new(8, Sha256Hasher::new()).unwrap();
    tree.update(200, b"b").unwrap();
    tree.update(7, b"a").unwrap();
    let a = hasher.hash(b"a");
    let b = hasher.hash(b"b");
    assert_eq!(tree.leaves(), vec![(7u64, a.as_slice()), (200u64, b.as_slice())]);
    tree.remove(7).unwrap();
    assert_eq!(tree.leaves(), vec![(200u64, b.as_slice())]);
    tree.clear();
    assert!(tree.leaves().is_empty());
    assert!(tree.leaf_indices().is_empty());
}

#[test]
fn leaf_indices_come_out_sorted() {
    let mut tree = SparseMerkleTree::new(16, Sha256Hasher::new()).unwrap();
    for &i in &[9u64, 3, 65535, 0, 12, 4, 100, 99, 101] {
        tree.update(i, b"v").unwrap();
    }
    assert_eq!(tree.leaf_indices(), vec![0, 3, 4, 9, 12, 99, 100, 101, 65535]);
}

#[test]
fn proof_has_one_step_for_each_level() {
    let mut tree = SparseMerkleTree::new(5, Sha256Hasher::new()).unwrap();
    tree.update(6, b"six").unwrap();
    let proof = tree.generate_proof(6).unwrap();
    assert_eq!(proof.leaf_index, 6);
    assert_eq!(proof.len(), 5);
    let empty = tree.generate_proof(31).unwrap();
    assert_eq!(empty.len(), 5);
}

#[test]
fn proof_steps_follow_the_bits_of_the_index() {
    let hasher = Sha256Hasher::new();
    let mut tree = SparseMerkleTree::new(3, Sha256Hasher::new()).unwrap();
    tree.update(4, b"four").unwrap();
    tree.update(5, b"five").unwrap();

    // 5 is 101 in binary: odd, then even, then odd.
    let proof = tree.generate_proof(5).unwrap();
    let directions: Vec<_> = proof.steps.iter().map(|s| s.direction).collect();
    assert_eq!(
        directions,
        vec![ProofDirection::Left, ProofDirection::Right, ProofDirection::Left]
    );
    assert_eq!(proof.steps[0].hash, hasher.hash(b"four"));
    let empty_pair = hasher.hash_pair(&DEFAULT_HASH, &DEFAULT_HASH);
    assert_eq!(proof.steps[1].hash, empty_pair);
    assert_eq!(proof.steps[2].hash, hasher.hash_pair(&empty_pair, &empty_pair));

    let four_and_five = hasher.hash_pair(&hasher.hash(b"four"), &hasher.hash(b"five"));
    let right_half = hasher.hash_pair(&four_and_five, &empty_pair);
    let left_half = hasher.hash_pair(&empty_pair, &empty_pair);
    assert_eq!(
        proof.compute_root(&hasher, &hasher.hash(b"five")),
        hasher.hash_pair(&left_half, &right_half)
    );
}

#[test]
fn root_of_empty_tree_of_depth_4() {
    let mut tree = SparseMerkleTree::new(4, Sha256Hasher::new()).unwrap();
    assert_eq!(
        hex::encode(tree.root()),
        "536d98837f2dd165a55d5eeae91485954472d56f246df256bf3cae19352a123c"
    );
}

#[test]
fn verify_proof_refuses_another_index() {
    let mut tree = SparseMerkleTree::new(4, Sha256Hasher::new()).unwrap();
    let proof = tree.generate_proof(3).unwrap();
    assert!(!tree.verify_proof(&proof, 4, &DEFAULT_HASH));
}

#[test]
fn sparse_stats_are_exact() {
    let mut tree = SparseMerkleTree::new(6, Sha3Hasher::new()).unwrap();
    tree.update(1, b"a").unwrap();
    let fresh = tree.stats();
    assert_eq!(fresh.depth, 6);
    assert_eq!(fresh.leaf_count, 1);
    assert_eq!(fresh.max_leaves, 64);
    assert_eq!(fresh.cached_nodes, 0);
    assert_eq!(fresh.hasher_name, "SHA3-256");
    assert_eq!(fresh.root_hash, hex::encode(tree.root()));

    // Computing the root has kept its digest.
    let later = tree.stats();
    assert_eq!(later.cached_nodes, 1);
    tree.update(2, b"b").unwrap();
    assert_eq!(tree.stats().cached_nodes, 0);
}
