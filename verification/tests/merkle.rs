use merkle_store::codec::{decode_proof, encode_proof};
use merkle_store::tree::Tree;
use rand::RngCore;
use sha2::{Digest, Sha256};

fn random_hash() -> [u8; 32] {
    let mut data = [0u8; 32];
    rand::thread_rng().fill_bytes(&mut data[..]);
    data
}

/// Tests merkle paths verification for trees with leaves count from 1 to 100
#[test]
fn test_verify_proof() {
    for leaves_count in 1..100 {
        // Generate random hashes
        let leaves: Vec<[u8; 32]> = (0..leaves_count).map(|_| random_hash()).collect();

        let mt = Tree::build_from_leaves(leaves.clone());
        let root = mt.root_hash().expect("valid root");

        // Verify all proofs
        for (i, _) in leaves.iter().enumerate() {
            let proof = mt.get_proof(i);
            assert!(
                Tree::verify_proof(&leaves[i], &proof, &root),
                "{}",
                format!("Failed for index: {}", i)
            );
        }

        // Test invalid proof
        let random_hash = random_hash();
        assert!(!Tree::verify_proof(&random_hash, &mt.get_proof(0), &root));
    }

    // Test empty tree
    let mt = Tree::build_from_leaves(vec![]);
    assert!(mt.root_hash().is_none());
}

#[test]
fn test_serialize_tree() {
    // Generate random hashes
    let leaves: Vec<[u8; 32]> = (0..100).map(|_| random_hash()).collect();

    let mt = Tree::build_from_leaves(leaves.clone());
    let root = mt.root_hash().expect("valid root");

    let serialized = mt.serialize();
    assert!(!serialized.is_empty());

    let de_tree: Tree = Tree::deserialize(&serialized).expect("valid tree bytes");
    assert_eq!(
        de_tree.root_hash().expect("valid root after deserialize"),
        root
    );
}

fn sha_pair(a: &[u8; 32], b: &[u8; 32]) -> [u8; 32] {
    let mut combined = Vec::new();
    combined.extend_from_slice(a);
    combined.extend_from_slice(b);
    Sha256::digest(&combined).into()
}

#[test]
fn test_empty_tree_has_no_root() {
    let mt = Tree::build_from_leaves(Vec::new());
    assert!(mt.root_hash().is_none());
    assert_eq!(mt.leaves_count(), 0);
    assert!(mt.leaves().is_empty());
}

#[test]
fn test_single_leaf_root_is_leaf() {
    let leaf = random_hash();
    let mt = Tree::build_from_leaves(vec![leaf]);
    assert_eq!(mt.root_hash().expect("valid root"), leaf);
    assert_eq!(mt.leaves_count(), 1);
    // a single-leaf proof is empty
    assert!(mt.get_proof(0).is_empty());
}

#[test]
fn test_two_leaf_root_formula() {
    let a = random_hash();
    let b = random_hash();
    let mt = Tree::build_from_leaves(vec![a, b]);
    assert_eq!(mt.root_hash().expect("valid root"), sha_pair(&a, &b));
}

#[test]
fn test_odd_leaf_count_duplicates_last() {
    // Three distinct leaves: level 1 is [H(h1||h2), H(h3||h3)], the root
    // hashes those two.
    let h1 = [1u8; 32];
    let h2 = [2u8; 32];
    let h3 = [3u8; 32];
    let mt = Tree::build_from_leaves(vec![h1, h2, h3]);
    assert_eq!(mt.leaves_count(), 3);

    let left = sha_pair(&h1, &h2);
    let right = sha_pair(&h3, &h3);
    let expected_root = sha_pair(&left, &right);
    let root = mt.root_hash().expect("valid root");
    assert_eq!(root, expected_root);

    // All three proofs verify; the last pairs the leaf with itself.
    for i in 0..3 {
        let proof = mt.get_proof(i);
        assert_eq!(proof.len(), 2);
        assert!(Tree::verify_proof(&[(i + 1) as u8; 32], &proof, &root));
    }
    let proof2 = mt.get_proof(2);
    assert_eq!(proof2[0], (h3, 0u8));
}

#[test]
fn test_build_deterministic() {
    let leaves: Vec<[u8; 32]> = (0..17).map(|_| random_hash()).collect();
    let a = Tree::build_from_leaves(leaves.clone());
    let b = Tree::build_from_leaves(leaves);
    assert_eq!(a.root_hash(), b.root_hash());
    assert_eq!(a.leaves(), b.leaves());
}

#[test]
fn test_leaves_returns_level_zero_in_order() {
    let leaves: Vec<[u8; 32]> = (0..9).map(|_| random_hash()).collect();
    let mt = Tree::build_from_leaves(leaves.clone());
    assert_eq!(mt.leaves(), leaves);
    assert_eq!(mt.leaves_count(), 9);
}

#[test]
fn test_proof_codec_round_trip() {
    let proof: Vec<([u8; 32], u8)> = vec![
        (random_hash(), 1),
        (random_hash(), 0),
        (random_hash(), 0),
    ];
    let bytes = encode_proof(&proof);
    assert_eq!(bytes.len(), 8 + 33 * proof.len());
    let decoded = decode_proof(&bytes).expect("valid proof bytes");
    assert_eq!(decoded, proof);
}

#[test]
fn test_proof_codec_matches_bincode() {
    // The wire format is the same length-prefixed little-endian layout that
    // bincode uses for a vector of (32-byte array, byte) pairs.
    let proof: Vec<([u8; 32], u8)> = vec![(random_hash(), 1), (random_hash(), 0)];
    let ours = encode_proof(&proof);
    let theirs = bincode::serialize(&proof).expect("serializable");
    assert_eq!(ours, theirs);

    let from_theirs = decode_proof(&theirs).expect("valid proof bytes");
    assert_eq!(from_theirs, proof);
}

#[test]
fn test_tree_codec_matches_bincode() {
    let leaves: Vec<[u8; 32]> = (0..5).map(|_| random_hash()).collect();
    let mt = Tree::build_from_leaves(leaves.clone());
    assert_eq!(mt.serialize(), bincode::serialize(&leaves).expect("serializable"));
}

#[test]
fn test_proof_codec_rejects_bad_lengths() {
    let proof: Vec<([u8; 32], u8)> = vec![(random_hash(), 1)];
    let mut bytes = encode_proof(&proof);

    // trailing garbage
    bytes.push(0);
    assert!(decode_proof(&bytes).is_none());
    bytes.pop();

    // truncated record
    bytes.pop();
    assert!(decode_proof(&bytes).is_none());

    // too short for a count
    assert!(decode_proof(&vec![1, 2, 3]).is_none());

    // count prefix disagrees with the byte count
    let mut wrong = encode_proof(&proof);
    wrong[0] = 2;
    assert!(decode_proof(&wrong).is_none());
}

#[test]
fn test_tree_codec_rejects_bad_lengths() {
    let leaves: Vec<[u8; 32]> = (0..3).map(|_| random_hash()).collect();
    let mt = Tree::build_from_leaves(leaves);
    let mut bytes = mt.serialize();
    bytes.push(0);
    assert!(Tree::deserialize(&bytes).is_none());
    bytes.pop();
    bytes[0] = 9;
    assert!(Tree::deserialize(&bytes).is_none());
}
