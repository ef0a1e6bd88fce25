use chacha20::cipher::{KeyIvInit, StreamCipher};
use chacha20::ChaCha20;
use merkle_store::bucket::{parse_index, ClientBucket};
use merkle_store::client::{ClientApp, ClientError};
use merkle_store::codec::decode_state;
use merkle_store::tree::Tree;
use sha2::{Digest, Sha256};

const KEY: [u8; 32] = [0x24; 32];
const NONCE: [u8; 12] = [0x24; 12];

fn cipher_bytes(data: &[u8]) -> Vec<u8> {
    let mut cipher = ChaCha20::new(&KEY.into(), &NONCE.into());
    let mut buf = data.to_vec();
    cipher.apply_keystream(&mut buf);
    buf
}

fn sha(data: &[u8]) -> [u8; 32] {
    Sha256::digest(data).into()
}

/// Uploads one plaintext into the bucket the way the server handler does:
/// reject duplicates, then record the digest under a path.
fn server_upload(bucket: &mut ClientBucket, ciphertext: &[u8], filename: &str) -> bool {
    let hash = sha(ciphertext);
    if bucket.contains_hash(&hash) {
        return false;
    }
    let path = format!("{}/{}", bucket.get_dir(), filename);
    bucket.insert_file(&hash, path)
}

#[test]
fn test_single_file_round_trip() {
    let plaintext = b"hello".to_vec();

    // Client side: encrypt, hash, commit the one leaf.
    let mut client = ClientApp::new("http://localhost:8000", None);
    let (ciphertext, leaf) = ClientApp::encrypt_and_hash(plaintext.clone());
    assert_eq!(ciphertext, cipher_bytes(b"hello"));
    assert_eq!(leaf, sha(&cipher_bytes(b"hello")));

    client.apply_batch(&vec![leaf]);
    assert_eq!(client.merkle_tree.leaves(), vec![leaf]);

    // The persisted state blob holds exactly this commitment.
    let blob = client.state_blob();
    assert!(!blob.is_empty());
    let (leaves, id) = decode_state(&blob).expect("valid state blob");
    assert_eq!(leaves, vec![leaf]);
    assert_eq!(id, client.bucket_id);

    // Server side: store the ciphertext, close the batch, serve the proof.
    let mut bucket = ClientBucket::new(client.bucket_id());
    assert!(server_upload(&mut bucket, &ciphertext, "a.txt"));
    bucket.calculate_merkle_tree();
    assert_eq!(bucket.tree().root_hash(), client.merkle_tree.root_hash());

    let proof_bytes = bucket.proof_for(0).expect("index in range");

    // Download: verify against the committed root, then decrypt.
    let (plain, name) = client
        .process_download(&ciphertext, &proof_bytes)
        .expect("valid download");
    assert_eq!(plain, plaintext);
    assert_eq!(name, hex::encode(leaf));
}

#[test]
fn test_tamper_detection() {
    let plaintext = b"hello".to_vec();
    let mut client = ClientApp::new("http://localhost:8000", None);
    let (ciphertext, leaf) = ClientApp::encrypt_and_hash(plaintext);
    client.apply_batch(&vec![leaf]);

    let mut bucket = ClientBucket::new(client.bucket_id());
    assert!(server_upload(&mut bucket, &ciphertext, "a.txt"));
    bucket.calculate_merkle_tree();
    let proof_bytes = bucket.proof_for(0).expect("index in range");

    // The server's on-disk ciphertext is tampered with: one byte flipped.
    let mut tampered = ciphertext.clone();
    tampered[0] ^= 1;

    let res = client.process_download(&tampered, &proof_bytes);
    assert_eq!(res, Err(ClientError::InvalidProof));
}

#[test]
fn test_batch_with_duplicate_content() {
    // Two files with identical plaintexts give identical ciphertexts.
    let mut client = ClientApp::new("http://localhost:8000", None);
    let (c1, h1) = ClientApp::encrypt_and_hash(b"same bytes".to_vec());
    let (c2, h2) = ClientApp::encrypt_and_hash(b"same bytes".to_vec());
    assert_eq!(c1, c2);
    assert_eq!(h1, h2);

    let mut bucket = ClientBucket::new(client.bucket_id());
    // The first upload is accepted, the second rejected as a duplicate.
    assert!(server_upload(&mut bucket, &c1, "a.txt"));
    assert!(!server_upload(&mut bucket, &c2, "b.txt"));
    bucket.calculate_merkle_tree();

    // The client commits only the accepted upload: one new leaf.
    client.apply_batch(&vec![h1]);
    assert_eq!(client.merkle_tree.leaves_count(), 1);
    assert_eq!(client.merkle_tree.root_hash(), bucket.tree().root_hash());
}

#[test]
fn test_restart_persistence() {
    let mut client = ClientApp::new("http://localhost:8000", None);
    let files: Vec<Vec<u8>> = vec![b"one".to_vec(), b"two".to_vec(), b"three".to_vec()];
    let mut bucket = ClientBucket::new(client.bucket_id());
    let mut uploaded = Vec::new();
    let mut ciphertexts = Vec::new();
    for (i, data) in files.iter().enumerate() {
        let (ciphertext, hash) = ClientApp::encrypt_and_hash(data.clone());
        assert!(server_upload(&mut bucket, &ciphertext, &format!("f{}", i)));
        uploaded.push(hash);
        ciphertexts.push(ciphertext);
    }
    bucket.calculate_merkle_tree();
    client.apply_batch(&uploaded);

    // The server restarts: the durable record keeps only the ordered map,
    // and the tree is rebuilt from it.
    let entries = bucket.entries();
    let mut restarted = ClientBucket::new(client.bucket_id());
    for (hash, path) in entries {
        assert!(restarted.insert_file(&hash, path));
    }
    restarted.calculate_merkle_tree();
    assert_eq!(restarted.tree().root_hash(), bucket.tree().root_hash());

    // download(1) against the restarted server succeeds: the digest at
    // index 1 names which ciphertext the server returns.
    assert!(restarted.get_filepath(1).is_some());
    let keys: Vec<[u8; 32]> = restarted.tree().leaves();
    let served = ciphertexts
        .iter()
        .find(|c| sha(c) == keys[1])
        .expect("stored file");
    let proof_bytes = restarted.proof_for(1).expect("index in range");
    let (plain, _) = client
        .process_download(served, &proof_bytes)
        .expect("valid download");
    let original = files
        .iter()
        .find(|f| sha(&cipher_bytes(f)) == keys[1])
        .expect("original plaintext");
    assert_eq!(&plain, original);
}

#[test]
fn test_wrong_bucket_isolation() {
    // Two clients with different bucket ids upload an identical file; the
    // server accepts both into their own buckets and serves the same bytes.
    let client_a = ClientApp::new("http://localhost:8000", None);
    let client_b = ClientApp::new("http://localhost:8000", None);
    assert_ne!(client_a.bucket_id, client_b.bucket_id);

    let (ciphertext, shared) = ClientApp::encrypt_and_hash(b"shared".to_vec());
    let mut bucket_a = ClientBucket::new(client_a.bucket_id());
    let mut bucket_b = ClientBucket::new(client_b.bucket_id());
    assert!(server_upload(&mut bucket_a, &ciphertext, "a.txt"));
    assert!(server_upload(&mut bucket_b, &ciphertext, "a.txt"));

    // Bucket A also holds an earlier, different file.
    let (other_cipher, other) = ClientApp::encrypt_and_hash(b"only in a".to_vec());
    assert!(server_upload(&mut bucket_a, &other_cipher, "b.txt"));

    bucket_a.calculate_merkle_tree();
    bucket_b.calculate_merkle_tree();

    // Same bytes come back from both buckets for the shared digest.
    let keys_a = bucket_a.tree().leaves();
    let idx_a = keys_a.iter().position(|k| *k == shared).expect("shared in a");
    assert_eq!(bucket_b.tree().leaves()[0], shared);

    // The trees differ, so a proof from one bucket does not verify against
    // the other's root.
    let root_a = bucket_a.tree().root_hash().expect("valid root");
    let root_b = bucket_b.tree().root_hash().expect("valid root");
    assert_ne!(root_a, root_b);

    let proof_a = bucket_a.tree().get_proof(idx_a);
    assert!(Tree::verify_proof(&shared, &proof_a, &root_a));
    assert!(!Tree::verify_proof(&shared, &proof_a, &root_b));
    let _ = other;
}

#[test]
fn test_client_state_restart() {
    // A client restarted from its state blob recovers the same commitment.
    let mut client = ClientApp::new("http://localhost:8000", None);
    let (_, h1) = ClientApp::encrypt_and_hash(b"first".to_vec());
    let (_, h2) = ClientApp::encrypt_and_hash(b"second".to_vec());
    client.apply_batch(&vec![h1, h2]);

    let blob = client.state_blob();
    let state = decode_state(&blob).expect("valid state blob");
    let restarted = ClientApp::new("http://localhost:8000", Some(state));
    assert_eq!(restarted.bucket_id, client.bucket_id);
    assert_eq!(restarted.merkle_tree.root_hash(), client.merkle_tree.root_hash());
}

#[test]
fn test_missing_root() {
    // No commitment yet: a download cannot be verified.
    let client = ClientApp::new("http://localhost:8000", None);
    let (ciphertext, leaf) = ClientApp::encrypt_and_hash(b"data".to_vec());

    let mut bucket = ClientBucket::new(client.bucket_id());
    assert!(server_upload(&mut bucket, &ciphertext, "a.txt"));
    bucket.calculate_merkle_tree();
    let proof_bytes = bucket.proof_for(0).expect("index in range");

    let res = client.process_download(&ciphertext, &proof_bytes);
    assert_eq!(res, Err(ClientError::MissingRoot));
    let _ = leaf;
}

#[test]
fn test_codec_error_on_bad_proof_bytes() {
    let mut client = ClientApp::new("http://localhost:8000", None);
    let (ciphertext, leaf) = ClientApp::encrypt_and_hash(b"data".to_vec());
    client.apply_batch(&vec![leaf]);

    let res = client.process_download(&ciphertext, &vec![1, 2, 3]);
    assert_eq!(res, Err(ClientError::Codec));
}

#[test]
fn test_transport_error_values() {
    // The variants reported by the unverified transport carry their context.
    let e = ClientError::DownloadFailed {
        resource: "file".to_string(),
        index: "3".to_string(),
        status: 404,
    };
    assert!(matches!(e, ClientError::DownloadFailed { status: 404, .. }));
    let e = ClientError::UploadFailed { filename: "a.txt".to_string() };
    assert!(matches!(e, ClientError::UploadFailed { .. }));
    assert_ne!(ClientError::Io, ClientError::Codec);
}

#[test]
fn test_canonical_ordering_shared_by_client_and_server() {
    // The client sorts its accumulated leaves; the server's map iterates in
    // ascending key order.  Whatever order uploads arrive in, the roots
    // agree.
    let mut client = ClientApp::new("http://localhost:8000", None);
    let mut bucket = ClientBucket::new(client.bucket_id());

    let data: Vec<Vec<u8>> = vec![
        b"charlie".to_vec(),
        b"alpha".to_vec(),
        b"delta".to_vec(),
        b"bravo".to_vec(),
    ];
    // Arrival order differs between the two sides.
    let mut hashes = Vec::new();
    for (i, d) in data.iter().enumerate() {
        let (c, h) = ClientApp::encrypt_and_hash(d.clone());
        assert!(server_upload(&mut bucket, &c, &format!("f{}", i)));
        hashes.push(h);
    }
    hashes.reverse();
    client.apply_batch(&hashes);
    bucket.calculate_merkle_tree();
    assert_eq!(client.merkle_tree.root_hash(), bucket.tree().root_hash());

    // The server's map iterates in ascending digest order.
    let keys = bucket.tree().leaves();
    for w in keys.windows(2) {
        assert!(w[0] < w[1]);
    }
    assert_eq!(client.merkle_tree.leaves(), keys);
}

#[test]
fn test_bucket_id_hex_and_dir() {
    let client = ClientApp::new("http://localhost:8000", None);
    assert_eq!(client.bucket_id(), hex::encode(client.bucket_id));

    let bucket = ClientBucket::new("cafe".to_string());
    assert_eq!(bucket.get_dir(), "./buckets/cafe");
    assert_eq!(bucket.bucket_id().as_str(), "cafe");
}

#[test]
fn test_parse_index_accepts_decimal_and_rejects_junk() {
    assert_eq!(parse_index(b"0"), Some(0));
    assert_eq!(parse_index(b"17"), Some(17));
    assert_eq!(parse_index(b"007"), Some(7));
    assert_eq!(parse_index(b""), None);
    assert_eq!(parse_index(b"a"), None);
    assert_eq!(parse_index(b"1x"), None);
    assert_eq!(parse_index(b"-1"), None);
    assert_eq!(parse_index(b"99999999999999999999999999"), None);
}

#[test]
fn test_get_filepath_indexing() {
    let mut bucket = ClientBucket::new("b".to_string());
    assert!(bucket.insert_file(&[9u8; 32], "path-nine".to_string()));
    assert!(bucket.insert_file(&[1u8; 32], "path-one".to_string()));
    assert!(bucket.insert_file(&[5u8; 32], "path-five".to_string()));
    // iteration order is ascending digest order, whatever the insert order
    assert_eq!(bucket.get_filepath(0), Some(&"path-one".to_string()));
    assert_eq!(bucket.get_filepath(1), Some(&"path-five".to_string()));
    assert_eq!(bucket.get_filepath(2), Some(&"path-nine".to_string()));
    assert_eq!(bucket.get_filepath(3), None);
    assert_eq!(bucket.file_count(), 3);
}
