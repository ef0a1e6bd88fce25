//! The wire codec shared by client and server: little-endian length-prefixed
//! records.
//!
//! A proof travels as an 8-byte little-endian record count followed by
//! 33-byte records, each a 32-byte sibling digest and a one-byte side flag.
//! A tree's portable form is its leaf sequence alone, an 8-byte count
//! followed by 32-byte leaves; the levels are recomputed on decode.  The
//! client state blob is that leaf encoding followed by the 32-byte bucket
//! identifier.

use vstd::prelude::*;

use crate::hashing::{Hash32, push_hash_bytes};
use crate::tree::{Tree, root_of};

verus! {

broadcast use crate::hashing::lemma_hash32_deep_view, crate::hashing::lemma_bytes_deep_view;

/// The eight bytes of `n`, least significant first.
pub open spec fn u64_le_bytes(n: u64) -> Seq<u8> {
    seq![
        (n % 256) as u8,
        ((n / 256) % 256) as u8,
        ((n / 0x10000) % 256) as u8,
        ((n / 0x100_0000) % 256) as u8,
        ((n / 0x1_0000_0000) % 256) as u8,
        ((n / 0x100_0000_0000) % 256) as u8,
        ((n / 0x1_0000_0000_0000) % 256) as u8,
        ((n / 0x100_0000_0000_0000) % 256) as u8,
    ]
}

/// The value of eight little-endian bytes.
pub open spec fn le_u64_val(s: Seq<u8>) -> int
    recommends
        s.len() == 8,
{
    s[0] + 256 * s[1] + 0x10000 * s[2] + 0x100_0000 * s[3] + 0x1_0000_0000 * s[4]
        + 0x100_0000_0000 * s[5] + 0x1_0000_0000_0000 * s[6] + 0x100_0000_0000_0000 * s[7]
}

/// Reading back the eight bytes of `n` gives `n`.
pub proof fn lemma_u64_le_round_trip(n: u64)
    ensures
        le_u64_val(u64_le_bytes(n)) == n,
{
    assert(n == (n % 256) + 256 * ((n / 256) % 256) + 0x10000 * ((n / 0x10000) % 256)
        + 0x100_0000 * ((n / 0x100_0000) % 256) + 0x1_0000_0000 * ((n / 0x1_0000_0000) % 256)
        + 0x100_0000_0000 * ((n / 0x100_0000_0000) % 256) + 0x1_0000_0000_0000 * ((n
        / 0x1_0000_0000_0000) % 256) + 0x100_0000_0000_0000 * ((n / 0x100_0000_0000_0000) % 256))
        by (bit_vector);
}

/// Writes `n` as eight little-endian bytes.
pub fn encode_u64_le(n: u64) -> (r: Vec<u8>)
    ensures
        r@ == u64_le_bytes(n),
        r@.len() == 8,
{
    let mut r: Vec<u8> = Vec::new();
    r.push((n % 256) as u8);
    r.push(((n / 256) % 256) as u8);
    r.push(((n / 0x10000) % 256) as u8);
    r.push(((n / 0x100_0000) % 256) as u8);
    r.push(((n / 0x1_0000_0000) % 256) as u8);
    r.push(((n / 0x100_0000_0000) % 256) as u8);
    r.push(((n / 0x1_0000_0000_0000) % 256) as u8);
    r.push(((n / 0x100_0000_0000_0000) % 256) as u8);
    proof {
        assert(r@ =~= u64_le_bytes(n));
    }
    r
}

/// Reads the eight little-endian bytes at `off`.
pub fn read_u64_le(bytes: &Vec<u8>, off: usize) -> (r: u64)
    requires
        off + 8 <= bytes.len(),
    ensures
        r as int == le_u64_val(bytes@.subrange(off as int, off + 8)),
{
    let r: u64 = bytes[off] as u64 + 256 * (bytes[off + 1] as u64) + 0x10000 * (bytes[off
        + 2] as u64) + 0x100_0000 * (bytes[off + 3] as u64) + 0x1_0000_0000 * (bytes[off
        + 4] as u64) + 0x100_0000_0000 * (bytes[off + 5] as u64) + 0x1_0000_0000_0000 * (bytes[off
        + 6] as u64) + 0x100_0000_0000_0000 * (bytes[off + 7] as u64);
    proof {
        let s = bytes@.subrange(off as int, off + 8);
        assert(s[0] == bytes@[off as int]);
        assert(s[1] == bytes@[off + 1]);
        assert(s[2] == bytes@[off + 2]);
        assert(s[3] == bytes@[off + 3]);
        assert(s[4] == bytes@[off + 4]);
        assert(s[5] == bytes@[off + 5]);
        assert(s[6] == bytes@[off + 6]);
        assert(s[7] == bytes@[off + 7]);
    }
    r
}

/// The concatenation of the 33-byte records of a proof.
pub open spec fn proof_records_bytes(p: Seq<(Seq<u8>, u8)>) -> Seq<u8>
    decreases p.len(),
{
    if p.len() == 0 {
        Seq::empty()
    } else {
        p[0].0 + seq![p[0].1] + proof_records_bytes(p.drop_first())
    }
}

/// The wire form of a proof: record count, then the records.
pub open spec fn proof_wire_bytes(p: Seq<(Seq<u8>, u8)>) -> Seq<u8> {
    u64_le_bytes(p.len() as u64) + proof_records_bytes(p)
}

/// Whether every sibling digest in a proof is 32 bytes.
pub open spec fn proof_entries_sized(p: Seq<(Seq<u8>, u8)>) -> bool {
    forall|i: int| 0 <= i < p.len() ==> (#[trigger] p[i]).0.len() == 32
}

/// The proof recovered from wire bytes, when count and length agree.
pub open spec fn spec_decode_proof(b: Seq<u8>) -> Option<Seq<(Seq<u8>, u8)>> {
    if b.len() >= 8 && b.len() == 8 + 33 * le_u64_val(b.subrange(0, 8)) {
        let cnt = le_u64_val(b.subrange(0, 8));
        Some(
            Seq::new(
                cnt as nat,
                |i: int| (b.subrange(8 + 33 * i, 8 + 33 * i + 32), b[8 + 33 * i + 32]),
            ),
        )
    } else {
        None
    }
}

/// Record concatenation is 33 bytes per record.
proof fn lemma_proof_records_len(p: Seq<(Seq<u8>, u8)>)
    requires
        proof_entries_sized(p),
    ensures
        proof_records_bytes(p).len() == 33 * p.len(),
    decreases p.len(),
{
    if p.len() > 0 {
        assert(proof_entries_sized(p.drop_first()));
        lemma_proof_records_len(p.drop_first());
    }
}

/// The record at index `i` sits at offset `33 * i` of the concatenation.
proof fn lemma_proof_records_index(p: Seq<(Seq<u8>, u8)>, i: int)
    requires
        proof_entries_sized(p),
        0 <= i < p.len(),
    ensures
        proof_records_bytes(p).subrange(33 * i, 33 * i + 32) == p[i].0,
        proof_records_bytes(p)[33 * i + 32] == p[i].1,
    decreases i,
{
    lemma_proof_records_len(p);
    let rb = proof_records_bytes(p);
    let head = p[0].0 + seq![p[0].1];
    let tail = proof_records_bytes(p.drop_first());
    assert(rb == head + tail);
    if i == 0 {
        assert(rb.subrange(0, 32) =~= p[0].0);
        assert(rb[32] == p[0].1);
    } else {
        assert(proof_entries_sized(p.drop_first()));
        lemma_proof_records_index(p.drop_first(), i - 1);
        assert(p.drop_first()[i - 1] == p[i]);
        let prev = 33 * (i - 1);
        assert(tail.subrange(prev, prev + 32) == p[i].0);
        assert(rb.subrange(33 * i, 33 * i + 32) =~= tail.subrange(prev, prev + 32));
        assert(rb[33 * i + 32] == tail[prev + 32]);
    }
}

/// Codec round trip for proofs: decoding an encoded proof gives it back.
pub proof fn lemma_proof_codec_round_trip(p: Seq<(Seq<u8>, u8)>)
    requires
        proof_entries_sized(p),
        p.len() <= u64::MAX,
    ensures
        spec_decode_proof(proof_wire_bytes(p)) == Some(p),
{
    let b = proof_wire_bytes(p);
    lemma_u64_le_round_trip(p.len() as u64);
    lemma_proof_records_len(p);
    assert(b.subrange(0, 8) =~= u64_le_bytes(p.len() as u64));
    assert(le_u64_val(b.subrange(0, 8)) == p.len());
    assert(b.len() == 8 + 33 * p.len());
    let q = spec_decode_proof(b).unwrap();
    assert forall|i: int| 0 <= i < p.len() implies q[i] == p[i] by {
        lemma_proof_records_index(p, i);
        let rb = proof_records_bytes(p);
        assert(b.subrange(8 + 33 * i, 8 + 33 * i + 32) =~= rb.subrange(33 * i, 33 * i + 32));
        assert(b[8 + 33 * i + 32] == rb[33 * i + 32]);
    }
    assert(q =~~= p);
}

/// Encodes a proof for the wire: an 8-byte little-endian record count, then
/// 33 bytes per record, sibling digest first, side flag last.
pub fn encode_proof(p: &Vec<(Hash32, u8)>) -> (r: Vec<u8>)
    ensures
        r@ == proof_wire_bytes(p.deep_view()),
        spec_decode_proof(r@) == Some(p.deep_view()),
{
    let ghost pv = p.deep_view();
    let mut r = encode_u64_le(p.len() as u64);
    let mut i: usize = 0;
    proof {
        assert(pv.skip(0) =~= pv);
        assert(proof_wire_bytes(pv) == u64_le_bytes(p.len() as u64) + proof_records_bytes(pv));
    }
    while i < p.len()
        invariant
            pv == p.deep_view(),
            i <= p.len(),
            r@ + proof_records_bytes(pv.skip(i as int)) == proof_wire_bytes(pv),
        decreases p.len() - i,
    {
        let (sib, flag) = p[i];
        let ghost r_before = r@;
        push_hash_bytes(&mut r, &sib);
        r.push(flag);
        proof {
            let ii = i as int;
            assert(pv.skip(ii)[0] == pv[ii]);
            assert(pv[ii] == (sib@, flag));
            assert(pv.skip(ii).drop_first() =~= pv.skip(ii + 1));
            assert(proof_records_bytes(pv.skip(ii)) == pv[ii].0 + seq![pv[ii].1]
                + proof_records_bytes(pv.skip(ii + 1)));
            assert(r@ =~= r_before + sib@ + seq![flag]);
            assert(r@ + proof_records_bytes(pv.skip(ii + 1)) =~= r_before + proof_records_bytes(
                pv.skip(ii),
            ));
        }
        i = i + 1;
    }
    proof {
        assert(pv.skip(p.len() as int) =~= Seq::<(Seq<u8>, u8)>::empty());
        assert(r@ + Seq::<u8>::empty() =~= r@);
        assert forall|j: int| 0 <= j < pv.len() implies (#[trigger] pv[j]).0.len() == 32 by {
            assert(pv[j] == p@[j].deep_view());
        }
        lemma_proof_codec_round_trip(pv);
    }
    r
}

/// The concatenation of a sequence of digests.
pub open spec fn concat_hashes(s: Seq<Seq<u8>>) -> Seq<u8>
    decreases s.len(),
{
    if s.len() == 0 {
        Seq::empty()
    } else {
        s[0] + concat_hashes(s.drop_first())
    }
}

/// Whether every digest in a sequence is 32 bytes.
pub open spec fn hashes_sized(s: Seq<Seq<u8>>) -> bool {
    forall|i: int| 0 <= i < s.len() ==> (#[trigger] s[i]).len() == 32
}

/// The portable form of a leaf sequence: count, then the 32-byte leaves.
pub open spec fn leaves_wire_bytes(leaves: Seq<Seq<u8>>) -> Seq<u8> {
    u64_le_bytes(leaves.len() as u64) + concat_hashes(leaves)
}

/// The leaf sequence recovered from wire bytes, when count and length agree.
pub open spec fn spec_decode_leaves(b: Seq<u8>) -> Option<Seq<Seq<u8>>> {
    if b.len() >= 8 && b.len() == 8 + 32 * le_u64_val(b.subrange(0, 8)) {
        let cnt = le_u64_val(b.subrange(0, 8));
        Some(Seq::new(cnt as nat, |i: int| b.subrange(8 + 32 * i, 8 + 32 * i + 32)))
    } else {
        None
    }
}

/// Digest concatenation is 32 bytes per digest.
proof fn lemma_concat_hashes_len(s: Seq<Seq<u8>>)
    requires
        hashes_sized(s),
    ensures
        concat_hashes(s).len() == 32 * s.len(),
    decreases s.len(),
{
    if s.len() > 0 {
        assert(hashes_sized(s.drop_first()));
        lemma_concat_hashes_len(s.drop_first());
    }
}

/// The digest at index `i` sits at offset `32 * i` of the concatenation.
proof fn lemma_concat_hashes_index(s: Seq<Seq<u8>>, i: int)
    requires
        hashes_sized(s),
        0 <= i < s.len(),
    ensures
        concat_hashes(s).subrange(32 * i, 32 * i + 32) == s[i],
    decreases i,
{
    lemma_concat_hashes_len(s);
    let cb = concat_hashes(s);
    let tail = concat_hashes(s.drop_first());
    assert(cb == s[0] + tail);
    if i == 0 {
        assert(cb.subrange(0, 32) =~= s[0]);
    } else {
        assert(hashes_sized(s.drop_first()));
        lemma_concat_hashes_index(s.drop_first(), i - 1);
        let prev = 32 * (i - 1);
        assert(tail.subrange(prev, prev + 32) == s[i]);
        assert(cb.subrange(32 * i, 32 * i + 32) =~= tail.subrange(prev, prev + 32));
    }
}

/// Codec round-trip law for trees: decoding an encoded leaf sequence gives
/// it back, so a tree rebuilt from its portable form has the same root.
pub proof fn lemma_leaves_codec_round_trip(leaves: Seq<Seq<u8>>)
    requires
        hashes_sized(leaves),
        leaves.len() <= u64::MAX,
    ensures
        spec_decode_leaves(leaves_wire_bytes(leaves)) == Some(leaves),
        root_of(spec_decode_leaves(leaves_wire_bytes(leaves)).unwrap()) == root_of(leaves),
{
    let b = leaves_wire_bytes(leaves);
    lemma_u64_le_round_trip(leaves.len() as u64);
    lemma_concat_hashes_len(leaves);
    assert(b.subrange(0, 8) =~= u64_le_bytes(leaves.len() as u64));
    assert(le_u64_val(b.subrange(0, 8)) == leaves.len());
    assert(b.len() == 8 + 32 * leaves.len());
    let q = spec_decode_leaves(b).unwrap();
    assert forall|i: int| 0 <= i < leaves.len() implies q[i] == leaves[i] by {
        lemma_concat_hashes_index(leaves, i);
        let cb = concat_hashes(leaves);
        assert(b.subrange(8 + 32 * i, 8 + 32 * i + 32) =~= cb.subrange(32 * i, 32 * i + 32));
    }
    assert(q =~~= leaves);
}

/// Encodes a leaf sequence: an 8-byte little-endian count, then the leaves.
pub fn encode_leaves(leaves: &Vec<Hash32>) -> (r: Vec<u8>)
    ensures
        r@ == leaves_wire_bytes(leaves.deep_view()),
{
    let ghost lv = leaves.deep_view();
    let mut r = encode_u64_le(leaves.len() as u64);
    let mut i: usize = 0;
    proof {
        assert(lv.skip(0) =~= lv);
    }
    while i < leaves.len()
        invariant
            lv == leaves.deep_view(),
            i <= leaves.len(),
            r@ + concat_hashes(lv.skip(i as int)) == leaves_wire_bytes(lv),
        decreases leaves.len() - i,
    {
        let h = leaves[i];
        let ghost r_before = r@;
        push_hash_bytes(&mut r, &h);
        proof {
            let ii = i as int;
            assert(lv.skip(ii)[0] == lv[ii]);
            assert(lv[ii] == h@);
            assert(lv.skip(ii).drop_first() =~= lv.skip(ii + 1));
            assert(concat_hashes(lv.skip(ii)) == lv[ii] + concat_hashes(lv.skip(ii + 1)));
            assert(r@ + concat_hashes(lv.skip(ii + 1)) =~= r_before + concat_hashes(lv.skip(ii)));
        }
        i = i + 1;
    }
    proof {
        assert(lv.skip(leaves.len() as int) =~= Seq::<Seq<u8>>::empty());
        assert(r@ + Seq::<u8>::empty() =~= r@);
    }
    r
}

/// Decodes a leaf sequence from wire bytes.  Returns `None` exactly when the
/// length prefix and the byte count disagree.
pub fn decode_leaves(bytes: &Vec<u8>) -> (r: Option<Vec<Hash32>>)
    ensures
        r is Some <==> spec_decode_leaves(bytes@) is Some,
        r matches Some(p) ==> Some(p.deep_view()) == spec_decode_leaves(bytes@),
        r matches Some(p) ==> 8 + 32 * p.len() == bytes@.len(),
{
    let n = bytes.len();
    if n < 8 {
        return None;
    }
    let cnt64 = read_u64_le(bytes, 0);
    let rem = n - 8;
    if rem % 32 != 0 {
        proof {
            assert(8 + 32 * le_u64_val(bytes@.subrange(0, 8)) != n as int);
        }
        return None;
    }
    let cnt = rem / 32;
    if cnt64 != cnt as u64 {
        proof {
            assert(32 * cnt == rem);
            assert(8 + 32 * le_u64_val(bytes@.subrange(0, 8)) != n as int);
        }
        return None;
    }
    proof {
        assert(32 * cnt == rem);
        assert(n as int == 8 + 32 * le_u64_val(bytes@.subrange(0, 8)));
    }
    let ghost dec = spec_decode_leaves(bytes@).unwrap();
    let mut out: Vec<Hash32> = Vec::new();
    let mut i: usize = 0;
    while i < cnt
        invariant
            n == bytes.len(),
            n as int == 8 + 32 * (cnt as int),
            dec == spec_decode_leaves(bytes@).unwrap(),
            spec_decode_leaves(bytes@) is Some,
            dec.len() == cnt,
            i <= cnt,
            out.len() == i,
            forall|j: int| 0 <= j < i ==> out.deep_view()[j] == dec[j],
        decreases cnt - i,
    {
        proof {
            assert(32 * (i as int) < 32 * (cnt as int));
        }
        let off = 8 + 32 * i;
        let h = read_hash_at(bytes, off);
        out.push(h);
        proof {
            assert(out.deep_view()[i as int] == h@);
            assert(dec[i as int] == bytes@.subrange(
                8 + 32 * (i as int),
                8 + 32 * (i as int) + 32,
            ));
        }
        i = i + 1;
    }
    proof {
        assert(out.deep_view() =~~= dec);
    }
    Some(out)
}

/// The client state blob: the portable tree, then the 32-byte bucket id.
pub open spec fn state_wire_bytes(leaves: Seq<Seq<u8>>, bucket_id: Seq<u8>) -> Seq<u8> {
    u64_le_bytes(leaves.len() as u64) + concat_hashes(leaves) + bucket_id
}

/// The state recovered from a blob, when count and length agree.
pub open spec fn spec_decode_state(b: Seq<u8>) -> Option<(Seq<Seq<u8>>, Seq<u8>)> {
    if b.len() >= 40 && b.len() == 40 + 32 * le_u64_val(b.subrange(0, 8)) {
        let cnt = le_u64_val(b.subrange(0, 8));
        Some(
            (
                Seq::new(cnt as nat, |i: int| b.subrange(8 + 32 * i, 8 + 32 * i + 32)),
                b.subrange(b.len() - 32, b.len() as int),
            ),
        )
    } else {
        None
    }
}

/// Codec round-trip law for the client state blob.
pub proof fn lemma_state_codec_round_trip(leaves: Seq<Seq<u8>>, bucket_id: Seq<u8>)
    requires
        hashes_sized(leaves),
        leaves.len() <= u64::MAX,
        bucket_id.len() == 32,
    ensures
        spec_decode_state(state_wire_bytes(leaves, bucket_id)) == Some((leaves, bucket_id)),
{
    let b = state_wire_bytes(leaves, bucket_id);
    lemma_u64_le_round_trip(leaves.len() as u64);
    lemma_concat_hashes_len(leaves);
    assert(b.subrange(0, 8) =~= u64_le_bytes(leaves.len() as u64));
    assert(le_u64_val(b.subrange(0, 8)) == leaves.len());
    assert(b.len() == 40 + 32 * leaves.len());
    let q = spec_decode_state(b).unwrap();
    assert(q.1 =~= bucket_id);
    assert forall|i: int| 0 <= i < leaves.len() implies q.0[i] == leaves[i] by {
        lemma_concat_hashes_index(leaves, i);
        let cb = concat_hashes(leaves);
        assert(b.subrange(8 + 32 * i, 8 + 32 * i + 32) =~= cb.subrange(32 * i, 32 * i + 32));
    }
    assert(q.0 =~~= leaves);
}

/// Encodes the client state blob: leaves, then the bucket id.
pub fn encode_state(leaves: &Vec<Hash32>, bucket_id: &Hash32) -> (r: Vec<u8>)
    ensures
        r@ == state_wire_bytes(leaves.deep_view(), bucket_id@),
{
    let mut r = encode_leaves(leaves);
    push_hash_bytes(&mut r, bucket_id);
    proof {
        assert(r@ =~= state_wire_bytes(leaves.deep_view(), bucket_id@));
    }
    r
}

/// Decodes the client state blob.  Returns `None` exactly when the length
/// prefix and the byte count disagree.
pub fn decode_state(bytes: &Vec<u8>) -> (r: Option<(Vec<Hash32>, Hash32)>)
    ensures
        r is Some <==> spec_decode_state(bytes@) is Some,
        r matches Some(p) ==> Some((p.0.deep_view(), p.1@)) == spec_decode_state(bytes@),
        r matches Some(p) ==> 40 + 32 * p.0.len() == bytes@.len(),
{
    let n = bytes.len();
    if n < 40 {
        return None;
    }
    let cnt64 = read_u64_le(bytes, 0);
    let rem = n - 40;
    if rem % 32 != 0 {
        proof {
            assert(40 + 32 * le_u64_val(bytes@.subrange(0, 8)) != n as int);
        }
        return None;
    }
    let cnt = rem / 32;
    if cnt64 != cnt as u64 {
        proof {
            assert(32 * cnt == rem);
            assert(40 + 32 * le_u64_val(bytes@.subrange(0, 8)) != n as int);
        }
        return None;
    }
    proof {
        assert(32 * cnt == rem);
        assert(n as int == 40 + 32 * le_u64_val(bytes@.subrange(0, 8)));
    }
    let ghost dec = spec_decode_state(bytes@).unwrap();
    let mut out: Vec<Hash32> = Vec::new();
    let mut i: usize = 0;
    while i < cnt
        invariant
            n == bytes.len(),
            n as int == 40 + 32 * (cnt as int),
            dec == spec_decode_state(bytes@).unwrap(),
            spec_decode_state(bytes@) is Some,
            dec.0.len() == cnt,
            i <= cnt,
            out.len() == i,
            forall|j: int| 0 <= j < i ==> out.deep_view()[j] == dec.0[j],
        decreases cnt - i,
    {
        proof {
            assert(32 * (i as int) < 32 * (cnt as int));
        }
        let off = 8 + 32 * i;
        let h = read_hash_at(bytes, off);
        out.push(h);
        proof {
            assert(out.deep_view()[i as int] == h@);
            assert(dec.0[i as int] == bytes@.subrange(
                8 + 32 * (i as int),
                8 + 32 * (i as int) + 32,
            ));
        }
        i = i + 1;
    }
    let id = read_hash_at(bytes, n - 32);
    proof {
        assert(out.deep_view() =~~= dec.0);
        assert(id@ =~= dec.1);
    }
    Some((out, id))
}

impl Tree {
    /// The portable form of the tree: its leaf sequence, length-prefixed.
    /// The levels are recomputed on decode, and decoding gives the same
    /// leaves — and therefore the same root — back.
    pub fn serialize(&self) -> (r: Vec<u8>)
        ensures
            r@ == leaves_wire_bytes(self.spec_leaves()),
            spec_decode_leaves(r@) == Some(self.spec_leaves()),
    {
        let leaves = self.leaves();
        let n = leaves.len();
        proof {
            assert(n <= u64::MAX);
            let lv = leaves.deep_view();
            assert forall|j: int| 0 <= j < lv.len() implies (#[trigger] lv[j]).len() == 32 by {
                assert(lv[j] == leaves@[j].deep_view());
            }
            lemma_leaves_codec_round_trip(lv);
        }
        encode_leaves(&leaves)
    }

    /// Restores a tree from its portable form by rebuilding all levels over
    /// the decoded leaves.
    pub fn deserialize(bytes: &Vec<u8>) -> (r: Option<Tree>)
        ensures
            r is Some <==> spec_decode_leaves(bytes@) is Some,
            r matches Some(t) ==> t.spec_leaves() == spec_decode_leaves(bytes@).unwrap(),
            r matches Some(t) ==> t.spec_root() == root_of(spec_decode_leaves(bytes@).unwrap()),
    {
        let n = bytes.len();
        match decode_leaves(bytes) {
            None => None,
            Some(leaves) => {
                proof {
                    assert(8 + 32 * leaves.len() == n);
                }
                Some(Tree::build_from_leaves(leaves))
            },
        }
    }
}

/// Reads the 32 bytes at `off` into a digest.
fn read_hash_at(bytes: &Vec<u8>, off: usize) -> (h: Hash32)
    requires
        off + 32 <= bytes.len(),
    ensures
        h@ == bytes@.subrange(off as int, off + 32),
{
    let mut h: Hash32 = [0u8; 32];
    let mut j: usize = 0;
    while j < 32
        invariant
            j <= 32,
            off + 32 <= bytes.len(),
            h@.len() == 32,
            forall|t: int| 0 <= t < j ==> h@[t] == bytes@[off + t],
        decreases 32 - j,
    {
        h[j] = bytes[off + j];
        j = j + 1;
    }
    proof {
        assert(h@ =~= bytes@.subrange(off as int, off + 32));
    }
    h
}

/// Decodes a proof from wire bytes.  Returns `None` exactly when the length
/// prefix and the byte count disagree; any flag byte is accepted, with
/// non-zero meaning the proved node is on the left.
pub fn decode_proof(bytes: &Vec<u8>) -> (r: Option<Vec<(Hash32, u8)>>)
    ensures
        r is Some <==> spec_decode_proof(bytes@) is Some,
        r matches Some(p) ==> Some(p.deep_view()) == spec_decode_proof(bytes@),
{
    let n = bytes.len();
    if n < 8 {
        return None;
    }
    let cnt64 = read_u64_le(bytes, 0);
    let rem = n - 8;
    if rem % 33 != 0 {
        proof {
            assert(8 + 33 * le_u64_val(bytes@.subrange(0, 8)) != n as int);
        }
        return None;
    }
    let cnt = rem / 33;
    if cnt64 != cnt as u64 {
        proof {
            assert(33 * cnt == rem);
            assert(8 + 33 * le_u64_val(bytes@.subrange(0, 8)) != n as int);
        }
        return None;
    }
    proof {
        assert(33 * cnt == rem);
        assert(n as int == 8 + 33 * le_u64_val(bytes@.subrange(0, 8)));
    }
    let ghost dec = spec_decode_proof(bytes@).unwrap();
    let mut out: Vec<(Hash32, u8)> = Vec::new();
    let mut i: usize = 0;
    while i < cnt
        invariant
            n == bytes.len(),
            n as int == 8 + 33 * (cnt as int),
            dec == spec_decode_proof(bytes@).unwrap(),
            spec_decode_proof(bytes@) is Some,
            dec.len() == cnt,
            i <= cnt,
            out.len() == i,
            forall|j: int| 0 <= j < i ==> out.deep_view()[j] == dec[j],
        decreases cnt - i,
    {
        proof {
            assert(33 * (i as int) < 33 * (cnt as int));
        }
        let off = 8 + 33 * i;
        let h = read_hash_at(bytes, off);
        let flag = bytes[off + 32];
        out.push((h, flag));
        proof {
            assert(out.deep_view()[i as int] == (h@, flag));
            assert(dec[i as int] == (
                bytes@.subrange(8 + 33 * (i as int), 8 + 33 * (i as int) + 32),
                bytes@[8 + 33 * (i as int) + 32],
            ));
        }
        i = i + 1;
    }
    proof {
        assert(out.deep_view() =~~= dec);
    }
    Some(out)
}

} // verus!
