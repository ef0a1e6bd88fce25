//! The client's commitment bookkeeping: encrypting a file into its upload
//! leaf, folding a batch of uploaded leaves into the committed tree in
//! canonical order, checking a downloaded file against the committed root,
//! and encoding the persisted client state.
//!
//! Transport and disk stay outside: callers hand in file bytes, proof bytes
//! and state bytes, and take plain values back.

use chacha20::cipher::{KeyIvInit, StreamCipher};
use chacha20::ChaCha20;
use rand::RngCore;
use vstd::prelude::*;
use vstd::relations::{sorted_by, total_ordering};
use vstd::seq_lib::{lemma_multiset_commutative, lemma_sorted_unique};

use crate::codec::{
    decode_proof, encode_state, lemma_state_codec_round_trip, spec_decode_proof,
    spec_decode_state, state_wire_bytes,
};
use crate::hashing::{
    bytes_le, bytes_lt, hash_lt, hex_encode, hex_of, lemma_bytes_lt_transitive,
    lemma_bytes_lt_trichotomy, sha256, sha256_of, Hash32,
};
use crate::tree::{chain_root, root_of, Tree};

verus! {

broadcast use
    crate::hashing::lemma_hash32_deep_view,
    crate::hashing::lemma_bytes_deep_view,
    vstd::seq_lib::group_to_multiset_ensures,
;

/// What can go wrong on the client.  Transport errors are reported by the
/// unverified caller through `DownloadFailed`, `UploadFailed` and `Io`; the
/// verified core itself produces only the proof and codec failures.
#[derive(Debug, PartialEq, Eq)]
pub enum ClientError {
    /// The server's inclusion proof does not match the committed root.
    InvalidProof,
    /// The client holds no commitment yet, so nothing can be verified.
    MissingRoot,
    /// A download request failed: which resource, at which index, and the
    /// HTTP status that came back.
    DownloadFailed { resource: String, index: String, status: u16 },
    /// An upload request failed for the named file.
    UploadFailed { filename: String },
    /// Reading or writing local files failed.
    Io,
    /// Wire bytes could not be decoded.
    Codec,
}

/// The fixed 32-byte cipher key.
pub open spec fn cipher_key_spec() -> Seq<u8> {
    Seq::new(32, |i: int| 0x24u8)
}

/// The fixed 12-byte cipher nonce.
pub open spec fn cipher_nonce_spec() -> Seq<u8> {
    Seq::new(12, |i: int| 0x24u8)
}

fn cipher_key() -> (k: [u8; 32])
    ensures
        k@ == cipher_key_spec(),
{
    let k = [0x24u8; 32];
    proof {
        assert(k@ =~= cipher_key_spec());
    }
    k
}

fn cipher_nonce() -> (n: [u8; 12])
    ensures
        n@ == cipher_nonce_spec(),
{
    let n = [0x24u8; 12];
    proof {
        assert(n@ =~= cipher_nonce_spec());
    }
    n
}

/// The ChaCha20 keystream for (key, nonce) XORed into a byte sequence.  The
/// keystream itself is left unspecified; what the crate relies on is that
/// the operation keeps the length and undoes itself.
pub uninterp spec fn chacha20_xor(key: Seq<u8>, nonce: Seq<u8>, data: Seq<u8>) -> Seq<u8>;

/// Relies on `chacha20::ChaCha20` through `cipher::StreamCipher`: the
/// keystream derived from key and nonce alone is XORed into the buffer in
/// place, so the length is kept and a second application restores the
/// input.  The 32-bit block counter caps one keystream at 2^32 - 1 blocks
/// of 64 bytes, and the call panics past the end of the keystream, hence
/// the length bound.
#[verifier::external_body]
fn chacha20_apply(key: &[u8; 32], nonce: &[u8; 12], data: &mut Vec<u8>)
    requires
        old(data)@.len() <= 0x3F_FFFF_FFC0,
    ensures
        final(data)@ == chacha20_xor(key@, nonce@, old(data)@),
        chacha20_xor(key@, nonce@, final(data)@) == old(data)@,
        final(data)@.len() == old(data)@.len(),
{
    let mut cipher = ChaCha20::new(key.into(), nonce.into());
    cipher.apply_keystream(data.as_mut_slice());
}

/// Relies on `rand::rngs::ThreadRng::fill_bytes` to draw the 32 bytes of a
/// fresh bucket identifier; nothing is assumed about the values drawn.
#[verifier::external_body]
fn random_bucket_id() -> (id: Hash32) {
    let mut id = [0u8; 32];
    rand::thread_rng().fill_bytes(&mut id);
    id
}

/// Non-strict lexicographic order, pairwise over a sequence of digests.
pub open spec fn sorted_hashes(s: Seq<Seq<u8>>) -> bool {
    forall|i: int, j: int| 0 <= i < j < s.len() ==> bytes_le(s[i], s[j])
}

/// `bytes_le` is a total order.
pub proof fn lemma_bytes_le_total_ordering()
    ensures
        total_ordering(|a: Seq<u8>, b: Seq<u8>| bytes_le(a, b)),
{
    let leq = |a: Seq<u8>, b: Seq<u8>| bytes_le(a, b);
    assert forall|a: Seq<u8>, b: Seq<u8>| #[trigger] leq(a, b) && #[trigger] leq(b, a) implies a
        == b by {
        lemma_bytes_lt_trichotomy(a, b);
    }
    assert forall|a: Seq<u8>, b: Seq<u8>, c: Seq<u8>|
        #[trigger] leq(a, b) && #[trigger] leq(b, c) implies leq(a, c) by {
        if bytes_lt(a, b) && bytes_lt(b, c) {
            lemma_bytes_lt_transitive(a, b, c);
        }
    }
    assert forall|a: Seq<u8>, b: Seq<u8>| #[trigger] leq(a, b) || #[trigger] leq(b, a) by {
        lemma_bytes_lt_trichotomy(a, b);
    }
}

/// Ordering law: the committed root depends only on which hashes were
/// uploaded, never on their arrival order.  Two sorted leaf sequences with
/// the same multiset of hashes are equal, and so are their roots.
pub proof fn lemma_root_ignores_arrival_order(a: Seq<Seq<u8>>, b: Seq<Seq<u8>>)
    requires
        sorted_hashes(a),
        sorted_hashes(b),
        a.to_multiset() == b.to_multiset(),
    ensures
        a == b,
        root_of(a) == root_of(b),
{
    let leq = |x: Seq<u8>, y: Seq<u8>| bytes_le(x, y);
    lemma_bytes_le_total_ordering();
    assert(sorted_by(a, leq));
    assert(sorted_by(b, leq));
    lemma_sorted_unique(a, b, leq);
}

/// Inserting into a sequence inserts into its multiset.
proof fn lemma_insert_to_multiset(s: Seq<Seq<u8>>, k: int, x: Seq<u8>)
    requires
        0 <= k <= s.len(),
    ensures
        s.insert(k, x).to_multiset() == s.to_multiset().insert(x),
{
    broadcast use vstd::multiset::group_multiset_axioms;

    let head = s.subrange(0, k);
    let tail = s.subrange(k, s.len() as int);
    assert(s.insert(k, x) == head.push(x) + tail);
    lemma_multiset_commutative(head.push(x), tail);
    lemma_multiset_commutative(head, tail);
    assert(head + tail =~= s);
    assert(head.push(x).to_multiset() == head.to_multiset().insert(x));
    assert(s.insert(k, x).to_multiset() =~= s.to_multiset().insert(x));
}

/// Sorts digests into ascending lexicographic byte order, keeping the
/// multiset of entries.
fn sort_hashes(input: Vec<Hash32>) -> (r: Vec<Hash32>)
    ensures
        r.deep_view().to_multiset() == input.deep_view().to_multiset(),
        sorted_hashes(r.deep_view()),
        r.len() == input.len(),
{
    let ghost iv = input.deep_view();
    let mut out: Vec<Hash32> = Vec::new();
    let mut i: usize = 0;
    proof {
        assert(out.deep_view() =~= iv.take(0));
    }
    while i < input.len()
        invariant
            iv == input.deep_view(),
            i <= input.len(),
            out.len() == i,
            sorted_hashes(out.deep_view()),
            out.deep_view().to_multiset() == iv.take(i as int).to_multiset(),
        decreases input.len() - i,
    {
        let x = input[i];
        let mut k: usize = 0;
        while k < out.len() && !hash_lt(&x, &out[k])
            invariant
                k <= out.len(),
                forall|j: int| 0 <= j < k ==> !bytes_lt(x@, out.deep_view()[j]),
            decreases out.len() - k,
        {
            k = k + 1;
        }
        let ghost out_deep = out.deep_view();
        let ghost out_exec = out@;
        out.insert(k, x);
        proof {
            let ki = k as int;
            out_exec.insert_ensures(ki, x);
            out_deep.insert_ensures(ki, x@);
            assert forall|j: int| 0 <= j < out.deep_view().len() implies out.deep_view()[j]
                == out_deep.insert(ki, x@)[j] by {
                if j < ki {
                    assert(out@[j] == out_exec[j]);
                } else if j == ki {
                    assert(out@[j] == x);
                } else {
                    assert(out@[j] == out_exec[j - 1]);
                }
            }
            assert(out.deep_view() =~= out_deep.insert(ki, x@));
            // sortedness of the inserted sequence
            assert forall|m: int, n: int|
                0 <= m < n < out.deep_view().len() implies bytes_le(
                out.deep_view()[m],
                out.deep_view()[n],
            ) by {
                let s = out_deep.insert(ki, x@);
                if m < ki && n < ki {
                } else if m < ki && n == ki {
                    lemma_bytes_lt_trichotomy(x@, out_deep[m]);
                } else if m == ki && n > ki {
                    if ki < out_deep.len() {
                        assert(bytes_lt(x@, out_deep[ki]));
                        if n - 1 > ki {
                            assert(bytes_le(out_deep[ki], out_deep[n - 1]));
                            if bytes_lt(out_deep[ki], out_deep[n - 1]) {
                                lemma_bytes_lt_transitive(x@, out_deep[ki], out_deep[n - 1]);
                            }
                        }
                    }
                } else if m < ki && n > ki {
                    lemma_bytes_lt_trichotomy(x@, out_deep[m]);
                    if bytes_lt(out_deep[m], x@) && n - 1 > m && bytes_lt(
                        out_deep[m],
                        out_deep[n - 1],
                    ) {
                    }
                }
            }
            // multiset bookkeeping
            lemma_insert_to_multiset(out_deep, ki, x@);
            assert(iv.take(i + 1) =~= iv.take(i as int).push(x@));
            assert(iv.take(i + 1).to_multiset() == iv.take(i as int).to_multiset().insert(x@));
        }
        i = i + 1;
    }
    proof {
        assert(iv.take(input.len() as int) =~= iv);
    }
    out
}

/// The client application state: the server it talks to, its bucket
/// identity, and the Merkle tree over everything it has committed.
pub struct ClientApp {
    pub server_url: String,
    pub bucket_id: Hash32,
    pub merkle_tree: Tree,
}

impl ClientApp {
    /// Assembles the client from a decoded state blob, or starts fresh with
    /// a random bucket identity and an empty tree when none exists.
    pub fn new(server_url: &str, state: Option<(Vec<Hash32>, Hash32)>) -> (app: ClientApp)
        requires
            state matches Some(st) ==> st.0.len() < usize::MAX,
        ensures
            app.server_url@ == server_url@,
            match state {
                Some(st) => app.merkle_tree.spec_leaves() == st.0.deep_view() && app.bucket_id
                    == st.1,
                None => app.merkle_tree.spec_leaves() == Seq::<Seq<u8>>::empty(),
            },
            app.merkle_tree.spec_root() == root_of(app.merkle_tree.spec_leaves()),
    {
        match state {
            Some((leaves, id)) => {
                let tree = Tree::build_from_leaves(leaves);
                ClientApp { server_url: server_url.to_owned(), bucket_id: id, merkle_tree: tree }
            },
            None => {
                let id = random_bucket_id();
                ClientApp {
                    server_url: server_url.to_owned(),
                    bucket_id: id,
                    merkle_tree: Tree::new(),
                }
            },
        }
    }

    /// The bucket identity as lowercase hex, as it appears in request paths.
    pub fn bucket_id(&self) -> (s: String)
        ensures
            s@ == hex_of(self.bucket_id@),
    {
        hex_encode(self.bucket_id.as_slice())
    }

    /// The persisted client state blob: the committed leaves, then the
    /// bucket identity.  The caller writes it to disk atomically; decoding
    /// the blob restores exactly this commitment.
    pub fn state_blob(&self) -> (r: Vec<u8>)
        ensures
            r@ == state_wire_bytes(self.merkle_tree.spec_leaves(), self.bucket_id@),
            spec_decode_state(r@) == Some((self.merkle_tree.spec_leaves(), self.bucket_id@)),
    {
        let leaves = self.merkle_tree.leaves();
        let n = leaves.len();
        proof {
            assert(n <= u64::MAX);
            let lv = leaves.deep_view();
            assert forall|j: int| 0 <= j < lv.len() implies (#[trigger] lv[j]).len() == 32 by {
                assert(lv[j] == leaves@[j].deep_view());
            }
            lemma_state_codec_round_trip(lv, self.bucket_id@);
        }
        encode_state(&leaves, &self.bucket_id)
    }

    /// Folds a batch of uploaded leaves into the commitment: the new tree is
    /// built over all previously committed leaves plus the new ones, sorted
    /// into ascending hash order — the same canonical order the server uses.
    pub fn apply_batch(&mut self, new_leaves: &Vec<Hash32>)
        requires
            old(self).merkle_tree.spec_leaves().len() + new_leaves.len() < usize::MAX,
        ensures
            final(self).server_url == old(self).server_url,
            final(self).bucket_id == old(self).bucket_id,
            final(self).merkle_tree.spec_leaves().to_multiset() == (old(
                self,
            ).merkle_tree.spec_leaves() + new_leaves.deep_view()).to_multiset(),
            sorted_hashes(final(self).merkle_tree.spec_leaves()),
            final(self).merkle_tree.spec_root() == root_of(final(self).merkle_tree.spec_leaves()),
    {
        let ghost old_leaves = self.merkle_tree.spec_leaves();
        let mut combined = self.merkle_tree.leaves();
        let mut i: usize = 0;
        while i < new_leaves.len()
            invariant
                i <= new_leaves.len(),
                combined.len() == old_leaves.len() + i,
                forall|j: int| 0 <= j < old_leaves.len() ==> combined.deep_view()[j] == old_leaves[j],
                forall|j: int|
                    0 <= j < i ==> combined.deep_view()[old_leaves.len() + j]
                        == new_leaves.deep_view()[j],
            decreases new_leaves.len() - i,
        {
            combined.push(new_leaves[i]);
            i = i + 1;
        }
        proof {
            assert(combined.deep_view() =~= old_leaves + new_leaves.deep_view());
        }
        let sorted = sort_hashes(combined);
        self.merkle_tree = Tree::build_from_leaves(sorted);
    }

    /// Checks a server-supplied proof for a downloaded file's digest against
    /// the committed root.  `Ok` exactly when a root is present and the
    /// proof folds back to it.
    pub fn verify(&self, proof: &Vec<(Hash32, u8)>, hash: &Hash32) -> (r: Result<(), ClientError>)
        ensures
            match r {
                Ok(_) => self.merkle_tree.spec_root() == Some(
                    chain_root(hash@, proof.deep_view()),
                ),
                Err(ClientError::MissingRoot) => self.merkle_tree.spec_root() is None,
                Err(ClientError::InvalidProof) => self.merkle_tree.spec_root() is Some
                    && self.merkle_tree.spec_root() != Some(
                    chain_root(hash@, proof.deep_view()),
                ),
                Err(_) => false,
            },
    {
        match self.merkle_tree.root_hash() {
            None => Err(ClientError::MissingRoot),
            Some(root) => {
                if Tree::verify_proof(hash, proof, &root) {
                    Ok(())
                } else {
                    Err(ClientError::InvalidProof)
                }
            },
        }
    }

    /// The verified part of a download: hash the ciphertext, decode the
    /// proof bytes, check the proof against the committed root, and only
    /// then decrypt.  Returns the plaintext and the hex digest the file is
    /// saved under; nothing is handed back on a failed check.
    pub fn process_download(&self, file_data: &Vec<u8>, proof_bytes: &Vec<u8>) -> (r: Result<
        (Vec<u8>, String),
        ClientError,
    >)
        requires
            file_data@.len() <= 0x3F_FFFF_FFC0,
        ensures
            match r {
                Ok(p) => (spec_decode_proof(proof_bytes@) matches Some(pf)
                    && self.merkle_tree.spec_root() == Some(chain_root(sha256_of(file_data@), pf)))
                    && p.0@ == chacha20_xor(cipher_key_spec(), cipher_nonce_spec(), file_data@)
                    && chacha20_xor(cipher_key_spec(), cipher_nonce_spec(), p.0@) == file_data@
                    && p.0@.len() == file_data@.len()
                    && p.1@ == hex_of(sha256_of(file_data@)),
                Err(ClientError::Codec) => spec_decode_proof(proof_bytes@) is None,
                Err(ClientError::MissingRoot) => spec_decode_proof(proof_bytes@) is Some
                    && self.merkle_tree.spec_root() is None,
                Err(ClientError::InvalidProof) => (spec_decode_proof(proof_bytes@) matches Some(pf)
                    && self.merkle_tree.spec_root() is Some && self.merkle_tree.spec_root()
                    != Some(chain_root(sha256_of(file_data@), pf))),
                Err(_) => false,
            },
    {
        let hash = sha256(file_data.as_slice());
        let proof = match decode_proof(proof_bytes) {
            None => {
                return Err(ClientError::Codec);
            },
            Some(p) => p,
        };
        match self.verify(&proof, &hash) {
            Err(e) => Err(e),
            Ok(_) => {
                let mut plain = clone_bytes(file_data);
                let key = cipher_key();
                let nonce = cipher_nonce();
                chacha20_apply(&key, &nonce, &mut plain);
                let name = hex_encode(hash.as_slice());
                Ok((plain, name))
            },
        }
    }

    /// Encrypts plaintext with the fixed key and nonce and returns the
    /// ciphertext together with its Sha-256 digest — the leaf that joins
    /// the commitment once the server accepts the upload.
    pub fn encrypt_and_hash(data: Vec<u8>) -> (r: (Vec<u8>, Hash32))
        requires
            data@.len() <= 0x3F_FFFF_FFC0,
        ensures
            r.0@ == chacha20_xor(cipher_key_spec(), cipher_nonce_spec(), data@),
            chacha20_xor(cipher_key_spec(), cipher_nonce_spec(), r.0@) == data@,
            r.0@.len() == data@.len(),
            r.1@ == sha256_of(r.0@),
    {
        let mut buf = data;
        let key = cipher_key();
        let nonce = cipher_nonce();
        chacha20_apply(&key, &nonce, &mut buf);
        let h = sha256(buf.as_slice());
        (buf, h)
    }
}

/// Copies a byte vector.
fn clone_bytes(v: &Vec<u8>) -> (r: Vec<u8>)
    ensures
        r@ == v@,
{
    let mut r: Vec<u8> = Vec::new();
    let mut i: usize = 0;
    while i < v.len()
        invariant
            i <= v.len(),
            r@ =~= v@.take(i as int),
        decreases v.len() - i,
    {
        r.push(v[i]);
        i = i + 1;
    }
    proof {
        assert(v@.take(v.len() as int) =~= v@);
    }
    r
}

} // verus!
