use clawhdf5_format::digest::HASH_SIZE;
use clawhdf5_format::merkle::{
    compute_depth, constant_time_eq, hash_chunk, HashAlg, MerkleError, MerkleTree,
};

fn make_test_chunks() -> Vec<Vec<u8>> {
    vec![
        b"chunk0".to_vec(),
        b"chunk1".to_vec(),
        b"chunk2".to_vec(),
        b"chunk3".to_vec(),
    ]
}

#[test]
fn test_different_algorithms_produce_different_roots() {
    let chunks = make_test_chunks();
    let refs: Vec<&[u8]> = chunks.iter().map(|c| c.as_slice()).collect();

    let tree_sha = MerkleTree::from_chunks(&refs, HashAlg::Sha256);
    let tree_blake = MerkleTree::from_chunks(&refs, HashAlg::Blake3);
    let tree_k12 = MerkleTree::from_chunks(&refs, HashAlg::K12);

    assert_ne!(tree_sha.root(), tree_blake.root());
    assert_ne!(tree_blake.root(), tree_k12.root());
    assert_ne!(tree_sha.root(), tree_k12.root());
}

#[test]
fn test_proof_generation_and_verification() {
    let chunks = make_test_chunks();
    let refs: Vec<&[u8]> = chunks.iter().map(|c| c.as_slice()).collect();

    let tree = MerkleTree::from_chunks(&refs, HashAlg::Blake3);

    for i in 0..chunks.len() {
        let proof = tree.inclusion_proof(i).expect("proof should exist");
        assert!(tree.verify_proof(i, &chunks[i], &proof));

        // Verify standalone (only root needed)
        assert!(MerkleTree::verify_proof_standalone(
            tree.root(),
            i,
            &chunks[i],
            &proof
        ));
    }
}

#[test]
fn test_invalid_proof_fails() {
    let chunks = make_test_chunks();
    let refs: Vec<&[u8]> = chunks.iter().map(|c| c.as_slice()).collect();

    let tree = MerkleTree::from_chunks(&refs, HashAlg::Blake3);
    let proof = tree.inclusion_proof(0).unwrap();

    // Wrong chunk data should fail
    assert!(!tree.verify_proof(0, b"wrong_data", &proof));

    // Wrong index should fail
    assert!(!tree.verify_proof(1, &chunks[0], &proof));
}

#[test]
fn test_non_power_of_two_leaves() {
    // 5 leaves requires padding to 8
    let chunks: Vec<Vec<u8>> = (0..5).map(|i| format!("chunk{}", i).into_bytes()).collect();
    let refs: Vec<&[u8]> = chunks.iter().map(|c| c.as_slice()).collect();

    let tree = MerkleTree::from_chunks(&refs, HashAlg::Blake3);

    assert_eq!(tree.leaf_count(), 5);
    assert_eq!(tree.padded_leaf_count(), 8);
    assert_eq!(tree.depth(), 4); // log2(8) + 1

    // All real leaves should have valid proofs
    for i in 0..5 {
        let proof = tree.inclusion_proof(i).expect("proof should exist");
        assert!(tree.verify_proof(i, &chunks[i], &proof));
    }

    // Padding leaves should return None
    assert!(tree.inclusion_proof(5).is_none());
}

#[test]
fn test_single_chunk() {
    let chunks = vec![b"single".to_vec()];
    let refs: Vec<&[u8]> = chunks.iter().map(|c| c.as_slice()).collect();

    let tree = MerkleTree::from_chunks(&refs, HashAlg::Blake3);

    assert_eq!(tree.leaf_count(), 1);
    assert_eq!(tree.padded_leaf_count(), 1);
    assert_eq!(tree.depth(), 1);

    let proof = tree.inclusion_proof(0).unwrap();
    assert!(tree.verify_proof(0, &chunks[0], &proof));
    assert!(proof.siblings().is_empty()); // No siblings for single leaf
}

#[test]
fn test_empty_tree() {
    let alg = HashAlg::Blake3;
    let tree = MerkleTree::from_chunks(&[], alg);

    assert_eq!(tree.leaf_count(), 0);
    // Empty tree root should be the null sentinel, not zero
    assert_eq!(tree.root(), &alg.null_sentinel());
    assert_eq!(tree.depth(), 1);
}

#[test]
fn test_deterministic() {
    let chunks = make_test_chunks();
    let refs: Vec<&[u8]> = chunks.iter().map(|c| c.as_slice()).collect();

    let tree1 = MerkleTree::from_chunks(&refs, HashAlg::Blake3);
    let tree2 = MerkleTree::from_chunks(&refs, HashAlg::Blake3);

    assert_eq!(tree1.root(), tree2.root());
    assert_eq!(tree1.nodes(), tree2.nodes());
}

#[test]
fn test_chunk_verification() {
    let chunks = make_test_chunks();
    let refs: Vec<&[u8]> = chunks.iter().map(|c| c.as_slice()).collect();

    let tree = MerkleTree::from_chunks(&refs, HashAlg::Blake3);

    // Correct chunks verify
    for i in 0..chunks.len() {
        assert!(tree.verify_chunk(i, &chunks[i]));
    }

    // Wrong chunk fails
    assert!(!tree.verify_chunk(0, b"wrong"));
}

#[test]
fn test_domain_separation() {
    // Verify that leaf and internal hashes use different prefixes
    let alg = HashAlg::Blake3;

    let data = b"test data";
    let leaf_hash = alg.hash_leaf(data);

    // Compute an internal hash (of two zero hashes) for comparison
    // This should differ from the leaf hash due to domain separation
    let internal_hash = alg.hash_pair(&[0u8; HASH_SIZE], &[0u8; HASH_SIZE]);

    // The leaf hash should not equal any internal node construction
    // (This is a basic sanity check, not exhaustive)
    assert_ne!(leaf_hash, internal_hash);
}

#[test]
fn test_constant_time_eq() {
    let a = [1u8; HASH_SIZE];
    let b = [1u8; HASH_SIZE];
    let c = [2u8; HASH_SIZE];

    assert!(constant_time_eq(&a, &b));
    assert!(!constant_time_eq(&a, &c));

    // Differs only in last byte
    let mut d = a;
    d[HASH_SIZE - 1] = 2;
    assert!(!constant_time_eq(&a, &d));
}

#[test]
fn test_proof_length_validation() {
    let chunks = make_test_chunks();
    let refs: Vec<&[u8]> = chunks.iter().map(|c| c.as_slice()).collect();

    let tree = MerkleTree::from_chunks(&refs, HashAlg::Blake3);
    let mut proof = tree.inclusion_proof(0).unwrap();

    // Tamper with proof length
    proof.siblings.push([0u8; HASH_SIZE]);

    // Should fail due to length mismatch
    assert!(!tree.verify_proof(0, &chunks[0], &proof));
}

#[test]
fn test_default_algorithm() {
    assert_eq!(HashAlg::default(), HashAlg::Blake3);
}

#[test]
fn test_null_sentinel_domain_separation() {
    // Verify that null sentinel uses 0x02 prefix, distinct from leaf (0x00)
    // and internal (0x01) prefixes
    let alg = HashAlg::Blake3;

    let leaf_hash = alg.hash_leaf(b"null");
    let null_sentinel = alg.null_sentinel();

    // Leaf hash of "null" should differ from null sentinel H(0x02 || "null")
    assert_ne!(leaf_hash, null_sentinel);

    // Internal hash should also differ
    let internal_hash = alg.hash_pair(&[0u8; HASH_SIZE], &[0u8; HASH_SIZE]);
    assert_ne!(null_sentinel, internal_hash);
}

#[test]
fn test_build_method_success() {
    let alg = HashAlg::Blake3;
    let chunks = make_test_chunks();

    // Pre-hash the leaves
    let leaf_hashes: Vec<[u8; HASH_SIZE]> =
        chunks.iter().map(|c| alg.hash_leaf(c)).collect();

    // Build tree using the new build method
    let tree = MerkleTree::build(&leaf_hashes, alg).expect("build should succeed");

    assert_eq!(tree.leaf_count(), 4);
    assert_eq!(tree.padded_leaf_count(), 4);
    assert_eq!(tree.depth(), 3);

    // Verify proofs work
    for i in 0..chunks.len() {
        let proof = tree.inclusion_proof(i).expect("proof should exist");
        assert!(tree.verify_proof(i, &chunks[i], &proof));
    }
}

#[test]
fn test_build_method_non_power_of_two() {
    let alg = HashAlg::Blake3;
    // 5 leaves requires padding to 8
    let chunks: Vec<Vec<u8>> = (0..5).map(|i| format!("chunk{}", i).into_bytes()).collect();

    let leaf_hashes: Vec<[u8; HASH_SIZE]> =
        chunks.iter().map(|c| alg.hash_leaf(c)).collect();

    let tree = MerkleTree::build(&leaf_hashes, alg).expect("build should succeed");

    assert_eq!(tree.leaf_count(), 5);
    assert_eq!(tree.padded_leaf_count(), 8);
    assert_eq!(tree.depth(), 4);

    // Padding positions should contain null sentinel
    let null_sentinel = alg.null_sentinel();
    let internal_nodes = tree.padded_leaf_count() - 1;

    // Access padding slots directly from nodes
    for i in 5..8 {
        assert_eq!(tree.nodes()[internal_nodes + i], null_sentinel);
    }
}

#[test]
fn test_build_empty() {
    let alg = HashAlg::Blake3;
    let tree = MerkleTree::build(&[], alg).expect("build should succeed");

    assert_eq!(tree.leaf_count(), 0);
    assert_eq!(tree.root(), &alg.null_sentinel());
}

#[test]
fn test_build_and_from_leaf_hashes_equivalent() {
    let alg = HashAlg::Blake3;
    let chunks = make_test_chunks();

    let leaf_hashes: Vec<[u8; HASH_SIZE]> =
        chunks.iter().map(|c| alg.hash_leaf(c)).collect();

    let tree_build = MerkleTree::build(&leaf_hashes, alg).expect("build should succeed");
    let tree_from_leaf = MerkleTree::from_leaf_hashes(&leaf_hashes, alg);

    // Both methods should produce identical trees
    assert_eq!(tree_build.root(), tree_from_leaf.root());
    assert_eq!(tree_build.nodes(), tree_from_leaf.nodes());
}

#[test]
fn test_merkle_error_display() {
    let err = MerkleError::TreeTooDeep {
        requested: 50,
        max: 40,
    };
    let msg = err.message();
    assert!(msg.contains("50"));
    assert!(msg.contains("40"));
}

#[test]
fn test_compute_depth() {
    assert_eq!(compute_depth(1), 1);
    assert_eq!(compute_depth(2), 2);
    assert_eq!(compute_depth(4), 3);
    assert_eq!(compute_depth(8), 4);
    assert_eq!(compute_depth(16), 5);
    assert_eq!(compute_depth(1024), 11);
}

#[test]
fn test_hash_chunk_equivalent_to_hash_leaf() {
    let data = b"test chunk data for hashing";

    // hash_chunk should produce identical results to HashAlg::hash_leaf
    let from_helper = hash_chunk(data, HashAlg::Blake3);
    let from_method = HashAlg::Blake3.hash_leaf(data);

    assert_eq!(from_helper, from_method);
}

#[test]
fn test_hash_chunk_all_algorithms() {
    let data = b"chunk data for all algorithms";

    // Each algorithm should produce different (but consistent) results
    let sha256_hash = hash_chunk(data, HashAlg::Sha256);
    let blake3_hash = hash_chunk(data, HashAlg::Blake3);
    let k12_hash = hash_chunk(data, HashAlg::K12);

    // All should be different from each other
    assert_ne!(sha256_hash, blake3_hash);
    assert_ne!(blake3_hash, k12_hash);
    assert_ne!(sha256_hash, k12_hash);

    // Should be deterministic
    assert_eq!(hash_chunk(data, HashAlg::Sha256), sha256_hash);
    assert_eq!(hash_chunk(data, HashAlg::Blake3), blake3_hash);
    assert_eq!(hash_chunk(data, HashAlg::K12), k12_hash);
}

#[test]
fn test_hash_chunk_domain_separation() {
    let data = b"some data";

    // hash_chunk (leaf hash) should differ from raw hash of same data
    let leaf_hash = hash_chunk(data, HashAlg::Blake3);
    let raw_hash: [u8; HASH_SIZE] = blake3::hash(data).into();

    // The leaf hash includes the 0x00 prefix, so it should differ
    assert_ne!(leaf_hash, raw_hash);
}

#[test]
fn published_digests() {
    // SHA-256 of "abc", and BLAKE3 and KangarooTwelve of nothing.
    assert_eq!(
        HashAlg::Sha256.hash_raw(b"abc")[..4],
        [0xba, 0x78, 0x16, 0xbf]
    );
    assert_eq!(HashAlg::Blake3.hash_raw(b"")[..4], [0xaf, 0x13, 0x49, 0xb9]);
    assert_eq!(HashAlg::K12.hash_raw(b"")[..4], [0x1a, 0xc2, 0xd4, 0x50]);
}

#[test]
fn prefixes_are_part_of_what_is_hashed() {
    for alg in [HashAlg::Sha256, HashAlg::Blake3, HashAlg::K12] {
        assert_eq!(alg.hash_leaf(b"abc"), alg.hash_raw(b"\x00abc"));
        assert_eq!(alg.null_sentinel(), alg.hash_raw(b"\x02null"));
        let mut pair = vec![1u8];
        pair.extend_from_slice(&[7; 32]);
        pair.extend_from_slice(&[9; 32]);
        assert_eq!(alg.hash_pair(&[7; 32], &[9; 32]), alg.hash_raw(&pair));
    }
}

#[test]
fn roots_by_halving() {
    for alg in [HashAlg::Sha256, HashAlg::Blake3, HashAlg::K12] {
        let leaf = |c: &[u8]| alg.hash_leaf(c);
        let one = MerkleTree::from_chunks(&[b"a"], alg);
        assert_eq!(*one.root(), leaf(b"a"));
        let two = MerkleTree::from_chunks(&[b"a", b"b"], alg);
        assert_eq!(*two.root(), alg.hash_pair(&leaf(b"a"), &leaf(b"b")));
        let three = MerkleTree::from_chunks(&[b"a", b"b", b"c"], alg);
        let left = alg.hash_pair(&leaf(b"a"), &leaf(b"b"));
        let right = alg.hash_pair(&leaf(b"c"), &alg.null_sentinel());
        assert_eq!(*three.root(), alg.hash_pair(&left, &right));
    }
}

#[test]
fn owned_and_parallel_trees_are_the_same() {
    let chunks: Vec<Vec<u8>> = (0..100u8).map(|i| vec![i; 9000]).collect();
    let refs: Vec<&[u8]> = chunks.iter().map(|c| c.as_slice()).collect();
    for alg in [HashAlg::Sha256, HashAlg::Blake3, HashAlg::K12] {
        let tree = MerkleTree::from_chunks(&refs, alg);
        assert_eq!(tree.nodes(), MerkleTree::from_chunks_owned(&chunks, alg).nodes());
        assert_eq!(tree.nodes(), MerkleTree::from_chunks_parallel(&refs, alg).nodes());
        assert_eq!(tree.nodes(), tree.clone().nodes());
        assert_eq!(tree.algorithm(), alg);
        assert_eq!(tree.padded_leaf_count(), 128);
    }
}

#[test]
fn proofs_name_their_leaf() {
    let tree = MerkleTree::from_chunks(&[b"a", b"b", b"c"], HashAlg::Sha256);
    let witness = tree.inclusion_proof(2).unwrap();
    assert_eq!(witness.leaf_index(), 2);
    assert_eq!(witness.algorithm(), HashAlg::Sha256);
    assert_eq!(witness.siblings().len(), 2);
    assert_eq!(witness.size_bytes(), 1 + 8 + 2 * 32);
    assert_eq!(witness.compute_root(b"c"), *tree.root());
    assert_eq!(
        witness.compute_root_from_hash(tree.leaf_hash(2).unwrap()),
        *tree.root()
    );
    assert!(tree.leaf_hash(3).is_none());
    assert!(!tree.verify_chunk(3, b""));
}

#[test]
fn other_proofs_are_rejected() {
    let tree = MerkleTree::from_chunks(&[b"a", b"b"], HashAlg::Sha256);
    let other = MerkleTree::from_chunks(&[b"a", b"b"], HashAlg::Blake3);
    let witness = tree.inclusion_proof(0).unwrap();
    assert!(!other.verify_proof(0, b"a", &witness));
    assert!(!MerkleTree::verify_proof_standalone(other.root(), 0, b"a", &witness));
    assert!(!MerkleTree::verify_proof_standalone(tree.root(), 1, b"a", &witness));
    assert!(!MerkleTree::verify_proof_standalone(tree.root(), 0, b"b", &witness));
    let mut short = witness.clone();
    short.siblings.clear();
    assert!(!tree.verify_proof(0, b"a", &short));
    let mut wrong = witness.clone();
    wrong.siblings[0][31] ^= 1;
    assert!(!tree.verify_proof(0, b"a", &wrong));
    assert!(tree.verify_proof(0, b"a", &witness));
}

#[test]
fn depth_error_as_a_sentence() {
    let error = MerkleError::TreeTooDeep { requested: 42, max: 40 };
    assert_eq!(
        error.message(),
        "Merkle tree depth 42 exceeds maximum allowed depth 40"
    );
}

#[test]
fn depth_of_other_counts() {
    assert_eq!(compute_depth(0), 1);
    assert_eq!(compute_depth(3), 2);
    assert_eq!(compute_depth(usize::MAX), 64);
}

#[test]
fn roots_tell_how_many_chunks_there_are() {
    let lists: [&[&[u8]]; 6] = [
        &[],
        &[b""],
        &[b"a"],
        &[b"a", b"a"],
        &[b"a", b"a", b"a"],
        &[b"a", b"a", b"a", b"a"],
    ];
    for (i, a) in lists.iter().enumerate() {
        for (j, b) in lists.iter().enumerate() {
            let same = MerkleTree::from_chunks(a, HashAlg::Blake3).root()
                == MerkleTree::from_chunks(b, HashAlg::Blake3).root();
            assert_eq!(same, i == j);
        }
    }
}

#[test]
fn a_root_alone_places_a_chunk_within_the_padded_leaves() {
    let tree = MerkleTree::from_chunks(&[b"a", b"b", b"c"], HashAlg::Sha256);
    let witness = tree.inclusion_proof(2).unwrap();
    assert!(MerkleTree::verify_proof_standalone(tree.root(), 2, b"c", &witness));
    // Three chunks are padded to four leaves, so index 6 takes the same path.
    let mut around = witness.clone();
    around.leaf_index = 6;
    assert!(MerkleTree::verify_proof_standalone(tree.root(), 6, b"c", &around));
    around.leaf_index = 3;
    assert!(!MerkleTree::verify_proof_standalone(tree.root(), 3, b"c", &around));
    // Neither a shorter nor a longer path leads to the root.
    let mut short = witness.clone();
    short.siblings.pop();
    assert!(!MerkleTree::verify_proof_standalone(tree.root(), 2, b"c", &short));
    let mut long = witness.clone();
    long.siblings.push([0; 32]);
    assert!(!MerkleTree::verify_proof_standalone(tree.root(), 2, b"c", &long));
}

#[test]
fn paths_of_any_leaf_hashes_lead_to_the_root() {
    let leaves: Vec<[u8; 32]> = (0..5u8).map(|i| [i; 32]).collect();
    let tree = MerkleTree::from_leaf_hashes(&leaves, HashAlg::K12);
    for (i, leaf) in leaves.iter().enumerate() {
        let witness = tree.inclusion_proof(i).unwrap();
        assert_eq!(witness.siblings.len(), tree.depth() - 1);
        assert_eq!(&witness.compute_root_from_hash(leaf), tree.root());
    }
}
