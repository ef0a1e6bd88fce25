//! The server's per-bucket store: a content-addressed, hash-ordered map from
//! ciphertext digest to on-disk path, with the Merkle tree mirrored over the
//! digests in that canonical ascending order.
//!
//! Duplicate digests are rejected, so the keys form a strictly sorted
//! sequence; the tree is rebuilt on the upload-completion barrier and after
//! a restart.  Disk and transport stay outside: callers hand in digests and
//! paths and take plain values back.

use vstd::prelude::*;
use vstd::string::StringExecFns;

use crate::client::sorted_hashes;
use crate::codec::{encode_proof, proof_wire_bytes};
use crate::hashing::{bytes_lt, hash_eq, hash_lt, lemma_bytes_lt_transitive,
    lemma_bytes_lt_trichotomy, Hash32};
use crate::tree::{proof_of, root_of, Tree};

verus! {

broadcast use crate::hashing::lemma_hash32_deep_view, crate::hashing::lemma_bytes_deep_view;

/// Strictly ascending lexicographic keys: every pair is ordered, so keys
/// are also unique.
pub open spec fn strictly_sorted_keys(files: Seq<(Seq<u8>, Seq<char>)>) -> bool {
    forall|i: int, j: int| 0 <= i < j < files.len() ==> bytes_lt(files[i].0, files[j].0)
}

/// The key of each entry, in entry order.
pub open spec fn keys_of(files: Seq<(Seq<u8>, Seq<char>)>) -> Seq<Seq<u8>> {
    Seq::new(files.len(), |i: int| files[i].0)
}

/// Canonical-ordering law, server side: the digests of a strictly sorted
/// map are sorted in the same non-strict order the client sorts into, so a
/// client holding the same multiset of digests commits to the same root.
pub proof fn lemma_bucket_keys_canonical(files: Seq<(Seq<u8>, Seq<char>)>)
    requires
        strictly_sorted_keys(files),
    ensures
        sorted_hashes(keys_of(files)),
{
}

/// How many keys of `files` order strictly below `h`; in a sorted sequence
/// this is where `h` is inserted.
pub open spec fn num_keys_below(files: Seq<(Seq<u8>, Seq<char>)>, h: Seq<u8>) -> int
    decreases files.len(),
{
    if files.len() == 0 {
        0
    } else {
        (if bytes_lt(files[0].0, h) {
            1int
        } else {
            0int
        }) + num_keys_below(files.drop_first(), h)
    }
}

/// In a strictly sorted sequence, the first position whose key is not below
/// `h` equals the number of keys below `h`.
proof fn lemma_num_keys_below_position(files: Seq<(Seq<u8>, Seq<char>)>, h: Seq<u8>, k: int)
    requires
        strictly_sorted_keys(files),
        0 <= k <= files.len(),
        forall|j: int| 0 <= j < k ==> bytes_lt(#[trigger] files[j].0, h),
        k < files.len() ==> !bytes_lt(files[k].0, h),
    ensures
        num_keys_below(files, h) == k,
    decreases files.len(),
{
    if files.len() > 0 {
        let rest = files.drop_first();
        assert(strictly_sorted_keys(rest));
        if k == 0 {
            assert forall|j: int| 0 <= j < rest.len() implies !bytes_lt(
                #[trigger] rest[j].0,
                h,
            ) by {
                assert(rest[j] == files[j + 1]);
                if bytes_lt(files[j + 1].0, h) {
                    assert(bytes_lt(files[0].0, files[j + 1].0));
                    lemma_bytes_lt_trichotomy(files[0].0, h);
                    if bytes_lt(h, files[0].0) {
                        lemma_bytes_lt_transitive(files[j + 1].0, h, files[0].0);
                        lemma_bytes_lt_trichotomy(files[0].0, files[j + 1].0);
                    } else {
                        assert(files[0].0 == h);
                        lemma_bytes_lt_trichotomy(files[0].0, files[j + 1].0);
                    }
                }
            }
            lemma_num_keys_below_position(rest, h, 0);
        } else {
            assert(bytes_lt(files[0].0, h));
            assert forall|j: int| 0 <= j < k - 1 implies bytes_lt(#[trigger] rest[j].0, h) by {
                assert(rest[j] == files[j + 1]);
            }
            if k - 1 < rest.len() {
                assert(rest[k - 1] == files[k]);
            }
            lemma_num_keys_below_position(rest, h, k - 1);
        }
    }
}

/// One client's bucket: its identity, the ordered digest-to-path map, and
/// the Merkle tree over the digests.
pub struct ClientBucket {
    bucket_id: String,
    files: Vec<(Hash32, String)>,
    merkle_tree: Tree,
}

impl ClientBucket {
    /// The bucket identity as it appears in request paths.
    pub closed spec fn spec_bucket_id(self) -> Seq<char> {
        self.bucket_id@
    }

    /// The map entries, in ascending key order.
    pub closed spec fn spec_files(self) -> Seq<(Seq<u8>, Seq<char>)> {
        self.files.deep_view()
    }

    /// The digests alone, in ascending order.
    pub open spec fn spec_keys(self) -> Seq<Seq<u8>> {
        keys_of(self.spec_files())
    }

    /// Whether some entry carries the digest `h`.
    pub open spec fn spec_has_key(self, h: Seq<u8>) -> bool {
        exists|i: int| 0 <= i < self.spec_files().len() && (#[trigger] self.spec_files()[i]).0 == h
    }

    /// The bucket's Merkle tree.
    pub closed spec fn spec_tree(self) -> Tree {
        self.merkle_tree
    }

    #[verifier::type_invariant]
    spec fn well_formed(self) -> bool {
        strictly_sorted_keys(self.spec_files())
    }

    /// An empty bucket for a fresh identity.
    pub fn new(bucket_id: String) -> (b: ClientBucket)
        ensures
            b.spec_bucket_id() == bucket_id@,
            b.spec_files() == Seq::<(Seq<u8>, Seq<char>)>::empty(),
            b.spec_tree().spec_root() is None,
    {
        let files: Vec<(Hash32, String)> = Vec::new();
        proof {
            assert(files.deep_view() =~= Seq::<(Seq<u8>, Seq<char>)>::empty());
        }
        ClientBucket { bucket_id, files, merkle_tree: Tree::new() }
    }

    /// The number of files in the bucket.
    pub fn file_count(&self) -> (n: usize)
        ensures
            n == self.spec_files().len(),
    {
        self.files.len()
    }

    /// The bucket identity.
    pub fn bucket_id(&self) -> (r: &String)
        ensures
            r@ == self.spec_bucket_id(),
    {
        &self.bucket_id
    }

    /// The bucket's Merkle tree.
    pub fn tree(&self) -> (r: &Tree)
        ensures
            *r == self.spec_tree(),
    {
        &self.merkle_tree
    }

    /// Whether the digest is already present in the bucket.
    pub fn contains_hash(&self, h: &Hash32) -> (r: bool)
        ensures
            r == self.spec_has_key(h@),
    {
        let mut i: usize = 0;
        while i < self.files.len()
            invariant
                i <= self.files.len(),
                forall|j: int| 0 <= j < i ==> (#[trigger] self.spec_files()[j]).0 != h@,
            decreases self.files.len() - i,
        {
            if hash_eq(&self.files[i].0, h) {
                proof {
                    assert(self.spec_files()[i as int].0 == h@);
                }
                return true;
            }
            i = i + 1;
        }
        false
    }

    /// Inserts a digest-to-path entry at its place in the ascending key
    /// order.  Returns false and leaves the bucket unchanged when the digest
    /// is already present: duplicate uploads are rejected.
    pub fn insert_file(&mut self, hash: &Hash32, path: String) -> (ok: bool)
        ensures
            old(self).spec_has_key(hash@) ==> !ok && *final(self) == *old(self),
            !old(self).spec_has_key(hash@) ==> ok && final(self).spec_files() == old(
                self,
            ).spec_files().insert(num_keys_below(old(self).spec_files(), hash@), (hash@, path@)),
            final(self).spec_bucket_id() == old(self).spec_bucket_id(),
            final(self).spec_tree() == old(self).spec_tree(),
            strictly_sorted_keys(final(self).spec_files()),
    {
        proof {
            use_type_invariant(&*self);
        }
        if self.contains_hash(hash) {
            return false;
        }
        let ghost fv = self.spec_files();
        let mut k: usize = 0;
        while k < self.files.len() && hash_lt(&self.files[k].0, hash)
            invariant
                fv == self.spec_files(),
                k <= self.files.len(),
                forall|j: int| 0 <= j < k ==> bytes_lt(#[trigger] fv[j].0, hash@),
            decreases self.files.len() - k,
        {
            k = k + 1;
        }
        proof {
            use_type_invariant(&*self);
            if k < self.files.len() {
                lemma_bytes_lt_trichotomy(fv[k as int].0, hash@);
                assert(fv[k as int].0 != hash@);
            }
            lemma_num_keys_below_position(fv, hash@, k as int);
        }
        let mut files: Vec<(Hash32, String)> = Vec::new();
        std::mem::swap(&mut files, &mut self.files);
        let ghost ev = files@;
        files.insert(k, (*hash, path));
        proof {
            let ki = k as int;
            ev.insert_ensures(ki, (*hash, path));
            fv.insert_ensures(ki, (hash@, path@));
            assert forall|j: int| 0 <= j < files.deep_view().len() implies files.deep_view()[j]
                == fv.insert(ki, (hash@, path@))[j] by {
                if j < ki {
                    assert(files@[j] == ev[j]);
                } else if j == ki {
                    assert(files@[j] == (*hash, path));
                } else {
                    assert(files@[j] == ev[j - 1]);
                }
            }
            assert(files.deep_view() =~= fv.insert(ki, (hash@, path@)));
            let s = fv.insert(ki, (hash@, path@));
            assert forall|m: int, n: int| 0 <= m < n < s.len() implies bytes_lt(
                s[m].0,
                s[n].0,
            ) by {
                if m < ki && n == ki {
                } else if m == ki && n > ki {
                    if ki < fv.len() {
                        lemma_bytes_lt_trichotomy(fv[ki].0, hash@);
                        if n - 1 > ki {
                            lemma_bytes_lt_transitive(hash@, fv[ki].0, fv[n - 1].0);
                        }
                    }
                } else if m < ki && n > ki {
                }
            }
        }
        self.files = files;
        true
    }

    /// Rebuilds the Merkle tree over the bucket's digests in ascending key
    /// order — the canonical order shared with the client.
    pub fn calculate_merkle_tree(&mut self)
        requires
            old(self).spec_files().len() < usize::MAX,
        ensures
            final(self).spec_files() == old(self).spec_files(),
            final(self).spec_bucket_id() == old(self).spec_bucket_id(),
            final(self).spec_tree().spec_leaves() == old(self).spec_keys(),
            final(self).spec_tree().spec_root() == root_of(old(self).spec_keys()),
            strictly_sorted_keys(final(self).spec_files()),
    {
        proof {
            use_type_invariant(&*self);
        }
        let mut leaves: Vec<Hash32> = Vec::new();
        let mut i: usize = 0;
        while i < self.files.len()
            invariant
                i <= self.files.len(),
                leaves.len() == i,
                forall|j: int| 0 <= j < i ==> leaves.deep_view()[j] == self.spec_keys()[j],
            decreases self.files.len() - i,
        {
            let ghost prev = leaves.deep_view();
            leaves.push(self.files[i].0);
            proof {
                assert(leaves.deep_view() =~= prev.push(self.files@[i as int].0.deep_view()));
                assert(self.spec_files()[i as int] == self.files@[i as int].deep_view());
            }
            i = i + 1;
        }
        proof {
            assert(leaves.deep_view() =~= self.spec_keys());
        }
        let tree = Tree::build_from_leaves(leaves);
        self.merkle_tree = tree;
    }

    /// The on-disk path recorded for the `index`-th digest in ascending
    /// order, or `None` past the end.
    pub fn get_filepath(&self, index: usize) -> (r: Option<&String>)
        ensures
            match r {
                Some(p) => index < self.spec_files().len() && p@ == self.spec_files()[
                    index as int
                ].1,
                None => index >= self.spec_files().len(),
            },
    {
        if index < self.files.len() {
            Some(&self.files[index].1)
        } else {
            None
        }
    }

    /// A copy of the map entries in ascending key order, for the caller's
    /// durable record of the bucket.
    pub fn entries(&self) -> (r: Vec<(Hash32, String)>)
        ensures
            r.deep_view() == self.spec_files(),
    {
        let mut r: Vec<(Hash32, String)> = Vec::new();
        let mut i: usize = 0;
        while i < self.files.len()
            invariant
                i <= self.files.len(),
                r.len() == i,
                forall|j: int| 0 <= j < i ==> r.deep_view()[j] == self.spec_files()[j],
            decreases self.files.len() - i,
        {
            let path = self.files[i].1.clone();
            let h = self.files[i].0;
            r.push((h, path));
            i = i + 1;
        }
        proof {
            assert(r.deep_view() =~= self.spec_files());
        }
        r
    }

    /// The encoded inclusion proof for the `index`-th digest, or `None` past
    /// the end.  This is the body of a successful proof request.
    pub fn proof_for(&self, index: usize) -> (r: Option<Vec<u8>>)
        ensures
            match r {
                Some(b) => index < self.spec_tree().spec_leaves().len() && b@ == proof_wire_bytes(
                    proof_of(self.spec_tree().spec_leaves(), index as int),
                ),
                None => index >= self.spec_tree().spec_leaves().len(),
            },
    {
        if index < self.merkle_tree.leaves_count() {
            let p = self.merkle_tree.get_proof(index);
            Some(encode_proof(&p))
        } else {
            None
        }
    }

    /// The directory this bucket's ciphertexts are stored under.
    pub fn get_dir(&self) -> (r: String)
        ensures
            r@ == "./buckets/"@ + self.spec_bucket_id(),
    {
        let mut dir: String = "./buckets/".to_owned();
        dir.append(self.bucket_id.as_str());
        dir
    }
}

/// Whether a byte is an ASCII decimal digit.
pub open spec fn is_ascii_digit(c: u8) -> bool {
    48 <= c <= 57
}

/// Whether every byte is an ASCII decimal digit.
pub open spec fn all_ascii_digits(s: Seq<u8>) -> bool {
    forall|i: int| 0 <= i < s.len() ==> is_ascii_digit(#[trigger] s[i])
}

/// The value of a string of decimal digits, most significant first.
pub open spec fn decimal_val(s: Seq<u8>) -> int
    decreases s.len(),
{
    if s.len() == 0 {
        0
    } else {
        decimal_val(s.drop_last()) * 10 + (s.last() - 48)
    }
}

/// A longer digit string never has a smaller value.
proof fn lemma_decimal_val_prefix(s: Seq<u8>, i: int)
    requires
        all_ascii_digits(s),
        0 <= i <= s.len(),
    ensures
        decimal_val(s.take(i)) <= decimal_val(s),
        decimal_val(s) >= 0,
    decreases s.len() - i,
{
    if i == s.len() {
        assert(s.take(i) =~= s);
        lemma_decimal_val_nonneg(s);
    } else {
        lemma_decimal_val_prefix(s, i + 1);
        assert(s.take(i + 1).drop_last() =~= s.take(i));
        lemma_decimal_val_nonneg(s.take(i));
        assert(decimal_val(s.take(i + 1)) == decimal_val(s.take(i)) * 10 + (s.take(i + 1).last()
            - 48));
    }
}

/// Digit strings have non-negative values.
proof fn lemma_decimal_val_nonneg(s: Seq<u8>)
    requires
        all_ascii_digits(s),
    ensures
        decimal_val(s) >= 0,
    decreases s.len(),
{
    if s.len() > 0 {
        assert(all_ascii_digits(s.drop_last()));
        lemma_decimal_val_nonneg(s.drop_last());
    }
}

/// Parses a request path segment as a file index: one or more ASCII decimal
/// digits whose value fits a `usize`.  Returns `None` on an empty string, a
/// non-digit, or overflow — the request is then answered 404.
pub fn parse_index(digits: &[u8]) -> (r: Option<usize>)
    ensures
        match r {
            Some(n) => digits@.len() > 0 && all_ascii_digits(digits@) && n == decimal_val(digits@),
            None => digits@.len() == 0 || !all_ascii_digits(digits@) || decimal_val(digits@)
                > usize::MAX,
        },
{
    if digits.len() == 0 {
        return None;
    }
    let mut n: usize = 0;
    let mut i: usize = 0;
    proof {
        assert(digits@.take(0) =~= Seq::<u8>::empty());
    }
    while i < digits.len()
        invariant
            i <= digits.len(),
            digits@.len() > 0,
            all_ascii_digits(digits@.take(i as int)),
            n == decimal_val(digits@.take(i as int)),
        decreases digits.len() - i,
    {
        let c = digits[i];
        if c < 48 || c > 57 {
            return None;
        }
        let d = (c - 48) as usize;
        proof {
            assert(digits@.take(i + 1).drop_last() =~= digits@.take(i as int));
            assert(all_ascii_digits(digits@.take(i + 1)));
            assert(decimal_val(digits@.take(i + 1)) == decimal_val(digits@.take(i as int)) * 10
                + d);
        }
        let wide: u128 = (n as u128) * 10 + (d as u128);
        if wide > usize::MAX as u128 {
            proof {
                if all_ascii_digits(digits@) {
                    lemma_decimal_val_prefix(digits@, i + 1);
                }
            }
            return None;
        }
        n = wide as usize;
        i = i + 1;
    }
    proof {
        assert(digits@.take(digits.len() as int) =~= digits@);
    }
    Some(n)
}

} // verus!
