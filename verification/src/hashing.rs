//! Hashes and their byte-level helpers: the 32-byte digest type, the trusted
//! Sha-256 wrapper, lexicographic ordering of digests, and hex encoding.

use sha2::Digest;
use vstd::prelude::*;

verus! {

/// A 32-byte Sha-256 digest.  Leaves, internal nodes and roots of the Merkle
/// tree all share this type.
pub type Hash32 = [u8; 32];

/// The Sha-256 digest of a byte sequence.  The digest itself is left
/// unspecified; everything the crate proves about hashing is relative to
/// this symbol.
pub uninterp spec fn sha256_of(data: Seq<u8>) -> Seq<u8>;

/// Relies on `sha2::Sha256::digest`: the 32-byte digest is a function of the
/// input bytes alone.
#[verifier::external_body]
pub(crate) fn sha256(data: &[u8]) -> (h: Hash32)
    ensures
        h@ == sha256_of(data@),
{
    let digest = sha2::Sha256::digest(data);
    digest.into()
}

/// The deep view of a digest is its plain view.
pub broadcast proof fn lemma_hash32_deep_view(h: Hash32)
    ensures
        #[trigger] h.deep_view() == h@,
{
    assert(h.deep_view() =~= h@);
}

/// The deep view of a byte vector is its plain view.
pub broadcast proof fn lemma_bytes_deep_view(v: Vec<u8>)
    ensures
        #[trigger] v.deep_view() == v@,
{
    assert(v.deep_view() =~= v@);
}

/// Strict lexicographic order on byte sequences: `a` comes before `b`.
pub open spec fn bytes_lt(a: Seq<u8>, b: Seq<u8>) -> bool
    decreases a.len(),
{
    if b.len() == 0 {
        false
    } else if a.len() == 0 {
        true
    } else if a[0] != b[0] {
        a[0] < b[0]
    } else {
        bytes_lt(a.drop_first(), b.drop_first())
    }
}

/// Non-strict companion of `bytes_lt`.
pub open spec fn bytes_le(a: Seq<u8>, b: Seq<u8>) -> bool {
    bytes_lt(a, b) || a == b
}

/// Compares two digests in lexicographic byte order.
pub fn hash_lt(a: &Hash32, b: &Hash32) -> (r: bool)
    ensures
        r == bytes_lt(a@, b@),
{
    proof {
        assert(a@.skip(0) =~= a@);
        assert(b@.skip(0) =~= b@);
    }
    let mut i: usize = 0;
    while i < 32
        invariant
            i <= 32,
            a@.len() == 32,
            b@.len() == 32,
            forall|j: int| 0 <= j < i ==> a@[j] == b@[j],
            bytes_lt(a@, b@) == bytes_lt(a@.skip(i as int), b@.skip(i as int)),
        decreases 32 - i,
    {
        if a[i] < b[i] {
            proof {
                lemma_bytes_lt_first(a@.skip(i as int), b@.skip(i as int));
            }
            return true;
        }
        if a[i] > b[i] {
            proof {
                lemma_bytes_lt_first(a@.skip(i as int), b@.skip(i as int));
            }
            return false;
        }
        proof {
            lemma_bytes_lt_first(a@.skip(i as int), b@.skip(i as int));
            assert(a@.skip(i as int).drop_first() =~= a@.skip(i + 1));
            assert(b@.skip(i as int).drop_first() =~= b@.skip(i + 1));
        }
        i = i + 1;
    }
    proof {
        assert(a@.skip(32) =~= b@.skip(32));
        assert(a@ =~= b@);
    }
    false
}

/// Unfolds `bytes_lt` one step for equal-length sequences.
proof fn lemma_bytes_lt_first(a: Seq<u8>, b: Seq<u8>)
    requires
        a.len() == b.len(),
        a.len() > 0,
    ensures
        a[0] < b[0] ==> bytes_lt(a, b),
        a[0] > b[0] ==> !bytes_lt(a, b),
        a[0] == b[0] ==> bytes_lt(a, b) == bytes_lt(a.drop_first(), b.drop_first()),
{
}

/// `bytes_lt` is a strict total order: exactly one of `a < b`, `a == b`,
/// `b < a` holds.
pub proof fn lemma_bytes_lt_trichotomy(a: Seq<u8>, b: Seq<u8>)
    ensures
        bytes_lt(a, b) || bytes_lt(b, a) || a == b,
        bytes_lt(a, b) ==> !bytes_lt(b, a) && a != b,
        bytes_lt(b, a) ==> !bytes_lt(a, b) && a != b,
    decreases a.len() + b.len(),
{
    if a.len() > 0 && b.len() > 0 {
        lemma_bytes_lt_trichotomy(a.drop_first(), b.drop_first());
        if a[0] == b[0] && a.drop_first() == b.drop_first() {
            assert forall|i: int| 0 <= i < a.len() implies a[i] == b[i] by {
                if i > 0 {
                    assert(a[i] == a.drop_first()[i - 1]);
                    assert(b[i] == b.drop_first()[i - 1]);
                }
            }
            assert(a =~= b);
        }
    } else if a.len() == 0 && b.len() == 0 {
        assert(a =~= b);
    }
}

/// `bytes_lt` is transitive.
pub proof fn lemma_bytes_lt_transitive(a: Seq<u8>, b: Seq<u8>, c: Seq<u8>)
    requires
        bytes_lt(a, b),
        bytes_lt(b, c),
    ensures
        bytes_lt(a, c),
    decreases a.len() + b.len() + c.len(),
{
    if a.len() > 0 {
        if a[0] == b[0] && b[0] == c[0] {
            lemma_bytes_lt_transitive(a.drop_first(), b.drop_first(), c.drop_first());
        }
    }
}

/// Appends the 32 bytes of a digest to a byte vector.
pub(crate) fn push_hash_bytes(dst: &mut Vec<u8>, src: &Hash32)
    ensures
        final(dst)@ == old(dst)@ + src@,
{
    let ghost before = dst@;
    let mut j: usize = 0;
    while j < 32
        invariant
            j <= 32,
            src@.len() == 32,
            dst@ =~= before + src@.take(j as int),
        decreases 32 - j,
    {
        dst.push(src[j]);
        j = j + 1;
    }
    proof {
        assert(before + src@.take(32) =~= before + src@);
    }
}

/// Compares two digests for byte equality.
pub fn hash_eq(a: &Hash32, b: &Hash32) -> (r: bool)
    ensures
        r == (a@ == b@),
{
    let mut i: usize = 0;
    while i < 32
        invariant
            i <= 32,
            a@.len() == 32,
            b@.len() == 32,
            forall|j: int| 0 <= j < i ==> a@[j] == b@[j],
        decreases 32 - i,
    {
        if a[i] != b[i] {
            return false;
        }
        i = i + 1;
    }
    proof {
        assert(a@ =~= b@);
    }
    true
}

/// The lowercase hex digit for a nibble.
pub open spec fn hex_digit(n: u8) -> char
    recommends
        n < 16,
{
    if n < 10 {
        (('0' as u8) + n) as char
    } else {
        (('a' as u8) + (n - 10)) as char
    }
}

/// Lowercase hex encoding: two digits per byte, high nibble first.
pub open spec fn hex_of(data: Seq<u8>) -> Seq<char> {
    Seq::new(
        data.len() * 2,
        |i: int| if i % 2 == 0 {
            hex_digit(data[i / 2] / 16)
        } else {
            hex_digit(data[i / 2] % 16)
        },
    )
}

/// Relies on `hex::encode`: lowercase hex, two digits per byte, high nibble
/// first.
#[verifier::external_body]
pub(crate) fn hex_encode(data: &[u8]) -> (s: String)
    ensures
        s@ == hex_of(data@),
{
    hex::encode(data)
}

} // verus!
