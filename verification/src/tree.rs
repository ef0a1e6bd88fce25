//! The Merkle commitment engine: builds a binary Sha-256 tree over 32-byte
//! leaves, produces inclusion proofs at a leaf index, and verifies them
//! against a root.
//!
//! Level 0 is the leaf sequence in order.  Each further level pairs adjacent
//! nodes, duplicating the last node of an odd-length level; a node is the
//! Sha-256 digest of its two children concatenated.  The top level has a
//! single node, the root.  An empty tree has no levels and no root.

use vstd::prelude::*;

use crate::hashing::{Hash32, hash_eq, push_hash_bytes, sha256, sha256_of};

verus! {

broadcast use crate::hashing::lemma_hash32_deep_view, crate::hashing::lemma_bytes_deep_view;

/// The parent digest of a pair of nodes.
pub open spec fn hash_pair(a: Seq<u8>, b: Seq<u8>) -> Seq<u8> {
    sha256_of(a + b)
}

/// The right partner of pair `i` in a level: the next node, or the node
/// itself when it is the last one on an odd-length level.
pub open spec fn pair_partner(level: Seq<Seq<u8>>, i: int) -> Seq<u8> {
    if 2 * i + 1 < level.len() {
        level[2 * i + 1]
    } else {
        level[2 * i]
    }
}

/// The level derived from `level` by hashing adjacent pairs.
pub open spec fn next_level(level: Seq<Seq<u8>>) -> Seq<Seq<u8>> {
    Seq::new(((level.len() + 1) / 2) as nat, |i: int| hash_pair(level[2 * i], pair_partner(level, i)))
}

/// All levels of the tree grown from a non-empty `level`, bottom first.
pub open spec fn levels_from(level: Seq<Seq<u8>>) -> Seq<Seq<Seq<u8>>>
    decreases level.len(),
{
    if level.len() <= 1 {
        seq![level]
    } else {
        seq![level] + levels_from(next_level(level))
    }
}

/// The levels of the tree built over `leaves`; empty for no leaves.
pub open spec fn levels_of(leaves: Seq<Seq<u8>>) -> Seq<Seq<Seq<u8>>> {
    if leaves.len() == 0 {
        Seq::empty()
    } else {
        levels_from(leaves)
    }
}

/// The root of the tree built over `leaves`: `None` iff there are no leaves.
pub open spec fn root_of(leaves: Seq<Seq<u8>>) -> Option<Seq<u8>> {
    if leaves.len() == 0 {
        None
    } else {
        Some(levels_of(leaves).last()[0])
    }
}

/// One proof entry for the node at `idx` of a level: the sibling digest and a
/// flag, 1 when the proved node is on the left, 0 when it is on the right.
/// The last node of an odd-length level is paired with itself under flag 0.
pub open spec fn proof_entry(level: Seq<Seq<u8>>, idx: int) -> (Seq<u8>, u8) {
    if idx % 2 == 0 {
        if idx + 1 < level.len() {
            (level[idx + 1], 1u8)
        } else {
            (level[idx], 0u8)
        }
    } else {
        (level[idx - 1], 0u8)
    }
}

/// The proof entries gathered from level `k` upward for a node at `idx`.
pub open spec fn proof_from(levels: Seq<Seq<Seq<u8>>>, k: int, idx: int) -> Seq<(Seq<u8>, u8)>
    decreases levels.len() - k,
{
    if 0 <= k < levels.len() - 1 {
        seq![proof_entry(levels[k], idx)] + proof_from(levels, k + 1, idx / 2)
    } else {
        Seq::empty()
    }
}

/// The inclusion proof for leaf `idx` of the tree over `leaves`.
pub open spec fn proof_of(leaves: Seq<Seq<u8>>, idx: int) -> Seq<(Seq<u8>, u8)> {
    proof_from(levels_of(leaves), 0, idx)
}

/// One verification step: hash the current digest with the sibling, on the
/// side the flag names.
pub open spec fn chain_step(h: Seq<u8>, entry: (Seq<u8>, u8)) -> Seq<u8> {
    if entry.1 > 0 {
        sha256_of(h + entry.0)
    } else {
        sha256_of(entry.0 + h)
    }
}

/// The root recomputed by folding the proof entries over a leaf digest.
pub open spec fn chain_root(h: Seq<u8>, proof: Seq<(Seq<u8>, u8)>) -> Seq<u8>
    decreases proof.len(),
{
    if proof.len() == 0 {
        h
    } else {
        chain_root(chain_step(h, proof[0]), proof.drop_first())
    }
}

/// Structural facts about `levels_from`: the bottom level is the input, each
/// level is derived from the one below, every level below the top has at
/// least two nodes, and the top has exactly one.
pub proof fn lemma_levels_from_props(l: Seq<Seq<u8>>)
    requires
        l.len() >= 1,
    ensures
        levels_from(l).len() >= 1,
        levels_from(l)[0] == l,
        levels_from(l).last().len() == 1,
        forall|k: int| 0 <= k < levels_from(l).len() ==> #[trigger] levels_from(l)[k].len() >= 1,
        forall|k: int|
            0 <= k < levels_from(l).len() - 1 ==> #[trigger] levels_from(l)[k].len() >= 2,
        forall|k: int|
            0 <= k < levels_from(l).len() - 1 ==> levels_from(l)[k + 1] == next_level(
                #[trigger] levels_from(l)[k],
            ),
    decreases l.len(),
{
    if l.len() > 1 {
        let nl = next_level(l);
        lemma_levels_from_props(nl);
        let lv = levels_from(l);
        let rest = levels_from(nl);
        assert(lv == seq![l] + rest);
        assert(lv.last() == rest.last());
        assert forall|k: int| 0 <= k < lv.len() implies #[trigger] lv[k].len() >= 1 by {
            if k > 0 {
                assert(lv[k] == rest[k - 1]);
            }
        }
        assert forall|k: int| 0 <= k < lv.len() - 1 implies #[trigger] lv[k].len() >= 2 by {
            if k > 0 {
                assert(lv[k] == rest[k - 1]);
            }
        }
        assert forall|k: int|
            0 <= k < lv.len() - 1 implies lv[k + 1] == next_level(#[trigger] lv[k]) by {
            if k > 0 {
                assert(lv[k] == rest[k - 1]);
                assert(lv[k + 1] == rest[k]);
            } else {
                assert(lv[1] == rest[0]);
                assert(rest[0] == nl);
            }
        }
    }
}

/// A binary Sha-256 Merkle tree, stored as all of its levels so that proof
/// generation needs no recomputation.
pub struct Tree {
    root: Option<Hash32>,
    levels: Vec<Vec<Hash32>>,
}

impl Tree {
    /// The levels as mathematical sequences of digests.
    pub closed spec fn spec_levels(self) -> Seq<Seq<Seq<u8>>> {
        self.levels.deep_view()
    }

    /// The leaf sequence the tree was built over.
    pub closed spec fn spec_leaves(self) -> Seq<Seq<u8>> {
        if self.levels.len() == 0 {
            Seq::empty()
        } else {
            self.spec_levels()[0]
        }
    }

    /// The root digest, absent iff the leaf sequence is empty.
    pub closed spec fn spec_root(self) -> Option<Seq<u8>> {
        match self.root {
            Some(h) => Some(h@),
            None => None,
        }
    }

    #[verifier::type_invariant]
    spec fn well_formed(self) -> bool {
        &&& self.spec_levels() == levels_of(self.spec_leaves())
        &&& self.spec_root() == root_of(self.spec_leaves())
    }

    /// The empty tree: no levels, no root.
    pub fn new() -> (t: Tree)
        ensures
            t.spec_leaves() == Seq::<Seq<u8>>::empty(),
            t.spec_root() is None,
    {
        let levels: Vec<Vec<Hash32>> = Vec::new();
        proof {
            assert(levels.deep_view() =~= Seq::<Seq<Seq<u8>>>::empty());
        }
        Tree { root: None, levels }
    }

    /// Builds the tree over `leaves` in order; the result is a function of
    /// the leaf sequence alone.
    pub fn build_from_leaves(leaves: Vec<Hash32>) -> (t: Tree)
        requires
            leaves.len() < usize::MAX,
        ensures
            t.spec_leaves() == leaves.deep_view(),
            t.spec_levels() == levels_of(leaves.deep_view()),
            t.spec_root() == root_of(leaves.deep_view()),
            t.spec_root() is None <==> leaves.len() == 0,
    {
        let ghost l0 = leaves.deep_view();
        if leaves.len() == 0 {
            let empty_levels: Vec<Vec<Hash32>> = Vec::new();
            proof {
                assert(l0 =~= Seq::<Seq<u8>>::empty());
                assert(empty_levels.deep_view() =~= Seq::<Seq<Seq<u8>>>::empty());
            }
            return Tree { root: None, levels: empty_levels };
        }
        let mut levels: Vec<Vec<Hash32>> = Vec::new();
        levels.push(leaves);
        proof {
            assert(levels.deep_view() =~= seq![l0]);
            assert(levels.deep_view().drop_last() =~= Seq::<Seq<Seq<u8>>>::empty());
            assert(Seq::<Seq<Seq<u8>>>::empty() + levels_from(l0) =~= levels_from(l0));
        }
        while levels[levels.len() - 1].len() > 1
            invariant
                levels.len() >= 1,
                levels.deep_view()[0] == l0,
                l0.len() >= 1,
                l0.len() < usize::MAX,
                levels.deep_view().last().len() >= 1,
                levels.deep_view().last().len() <= l0.len(),
                levels_from(l0) == levels.deep_view().drop_last() + levels_from(
                    levels.deep_view().last(),
                ),
            decreases levels.deep_view().last().len(),
        {
            let n = levels.len();
            let next = build_next_level(&levels[n - 1]);
            proof {
                let last = levels.deep_view().last();
                assert(last.len() > 1);
                assert(levels_from(last) == seq![last] + levels_from(next_level(last)));
                assert(next.deep_view().len() >= 1);
            }
            let ghost before = levels.deep_view();
            levels.push(next);
            proof {
                assert(levels.deep_view().drop_last() =~= before);
                assert(levels.deep_view().last() == next.deep_view());
                assert(before.drop_last() + (seq![before.last()] + levels_from(
                    levels.deep_view().last(),
                )) =~= before + levels_from(levels.deep_view().last()));
            }
        }
        let n = levels.len();
        let root = levels[n - 1][0];
        proof {
            let lv = levels.deep_view();
            assert(lv.last().len() == 1);
            assert(levels_from(lv.last()) == seq![lv.last()]);
            assert(lv.drop_last() + seq![lv.last()] =~= lv);
            assert(levels_from(l0) == lv);
            assert(root@ == lv.last()[0]);
            assert(lv[0] == l0);
        }
        Tree { root: Some(root), levels }
    }

    /// The root digest, `None` iff the tree was built from no leaves.
    pub fn root_hash(&self) -> (r: Option<Hash32>)
        ensures
            match r {
                Some(h) => self.spec_root() == Some(h@),
                None => self.spec_root() is None,
            },
            self.spec_root() == root_of(self.spec_leaves()),
            self.spec_root() is None <==> self.spec_leaves().len() == 0,
    {
        proof {
            use_type_invariant(&*self);
        }
        self.root
    }

    /// The number of leaves in the tree.
    pub fn leaves_count(&self) -> (n: usize)
        ensures
            n == self.spec_leaves().len(),
    {
        proof {
            use_type_invariant(&*self);
        }
        if self.levels.len() == 0 {
            0
        } else {
            self.levels[0].len()
        }
    }

    /// The inclusion proof for the leaf at `index`: one (sibling, side)
    /// entry per level below the top, leaf level first.
    pub fn get_proof(&self, index: usize) -> (p: Vec<(Hash32, u8)>)
        requires
            index < self.spec_leaves().len(),
        ensures
            p.deep_view() == proof_of(self.spec_leaves(), index as int),
    {
        proof {
            use_type_invariant(&*self);
            lemma_levels_from_props(self.spec_leaves());
        }
        let ghost lv = self.spec_levels();
        let n = self.levels.len();
        let mut p: Vec<(Hash32, u8)> = Vec::new();
        let mut idx = index;
        let mut k: usize = 0;
        proof {
            assert(lv[0] == self.spec_leaves());
            assert(p.deep_view() =~= Seq::<(Seq<u8>, u8)>::empty());
            assert(p.deep_view() + proof_from(lv, 0, index as int) =~= proof_from(
                lv,
                0,
                index as int,
            ));
        }
        while k < n - 1
            invariant
                lv == self.spec_levels(),
                n == self.levels.len(),
                n == lv.len(),
                n >= 1,
                k <= n - 1,
                forall|j: int| 0 <= j < lv.len() ==> #[trigger] lv[j].len() >= 1,
                forall|j: int| 0 <= j < lv.len() - 1 ==> lv[j + 1] == next_level(#[trigger] lv[j]),
                idx < lv[k as int].len(),
                proof_of(self.spec_leaves(), index as int) == p.deep_view() + proof_from(
                    lv,
                    k as int,
                    idx as int,
                ),
            decreases n - k,
        {
            let level = &self.levels[k];
            let is_left = idx % 2 == 0;
            let entry: (Hash32, u8) = if is_left {
                if idx + 1 < level.len() {
                    (level[idx + 1], 1)
                } else {
                    (level[idx], 0)
                }
            } else {
                (level[idx - 1], 0)
            };
            let ghost p_before = p.deep_view();
            p.push(entry);
            proof {
                let ki = k as int;
                let ix = idx as int;
                assert(level.deep_view() == lv[ki]);
                assert(entry.deep_view() == proof_entry(lv[ki], ix));
                assert(p.deep_view() =~= p_before.push(entry.deep_view()));
                assert(proof_from(lv, ki, ix) == seq![proof_entry(lv[ki], ix)] + proof_from(
                    lv,
                    ki + 1,
                    ix / 2,
                ));
                assert(p_before + proof_from(lv, ki, ix) =~= p.deep_view() + proof_from(
                    lv,
                    ki + 1,
                    ix / 2,
                ));
                assert(lv[ki + 1] == next_level(lv[ki]));
                assert(lv[ki + 1].len() == (lv[ki].len() + 1) / 2);
                assert(ix / 2 < lv[ki + 1].len());
            }
            idx = idx / 2;
            k = k + 1;
        }
        proof {
            assert(proof_from(lv, n - 1 as int, idx as int) =~= Seq::<(Seq<u8>, u8)>::empty());
            assert(p.deep_view() + Seq::<(Seq<u8>, u8)>::empty() =~= p.deep_view());
        }
        p
    }

    /// Recomputes a root from `leaf` by folding the proof entries and
    /// compares it with `root`; true iff they agree.
    pub fn verify_proof(leaf: &Hash32, proof: &Vec<(Hash32, u8)>, root: &Hash32) -> (r: bool)
        ensures
            r == (chain_root(leaf@, proof.deep_view()) == root@),
    {
        let ghost pv = proof.deep_view();
        let mut hash: Hash32 = *leaf;
        let mut k: usize = 0;
        proof {
            assert(pv.skip(0) =~= pv);
        }
        while k < proof.len()
            invariant
                pv == proof.deep_view(),
                k <= proof.len(),
                chain_root(leaf@, pv) == chain_root(hash@, pv.skip(k as int)),
            decreases proof.len() - k,
        {
            let (sib, flag) = proof[k];
            let mut combined: Vec<u8> = Vec::new();
            if flag > 0 {
                push_hash_bytes(&mut combined, &hash);
                push_hash_bytes(&mut combined, &sib);
            } else {
                push_hash_bytes(&mut combined, &sib);
                push_hash_bytes(&mut combined, &hash);
            }
            let d = sha256(combined.as_slice());
            proof {
                let ki = k as int;
                assert(pv[ki] == (sib@, flag));
                assert(pv.skip(ki)[0] == pv[ki]);
                assert(d@ == chain_step(hash@, pv[ki]));
                assert(pv.skip(ki).drop_first() =~= pv.skip(ki + 1));
            }
            hash = d;
            k = k + 1;
        }
        proof {
            assert(pv.skip(proof.len() as int) =~= Seq::<(Seq<u8>, u8)>::empty());
        }
        hash_eq(&hash, root)
    }

    /// A copy of the leaves in the tree, in order.
    pub fn leaves(&self) -> (r: Vec<Hash32>)
        ensures
            r.deep_view() == self.spec_leaves(),
    {
        proof {
            use_type_invariant(&*self);
        }
        if self.levels.len() == 0 {
            let r = Vec::new();
            proof {
                assert(r.deep_view() =~= self.spec_leaves());
            }
            r
        } else {
            let mut r: Vec<Hash32> = Vec::new();
            let level = &self.levels[0];
            let mut i: usize = 0;
            while i < level.len()
                invariant
                    i <= level.len(),
                    r.len() == i,
                    forall|j: int| 0 <= j < i ==> r.deep_view()[j] == level.deep_view()[j],
                decreases level.len() - i,
            {
                r.push(level[i]);
                i = i + 1;
            }
            proof {
                assert(r.deep_view() =~= level.deep_view());
                assert(level.deep_view() == self.spec_leaves());
            }
            r
        }
    }
}

impl Default for Tree {
    /// The empty tree.
    fn default() -> (t: Tree)
        ensures
            t.spec_leaves() == Seq::<Seq<u8>>::empty(),
            t.spec_root() is None,
    {
        Tree::new()
    }
}

/// The structural facts that `lemma_levels_from_props` yields, gathered into
/// one predicate for the inductive climb below.
spec fn wf_levels(lv: Seq<Seq<Seq<u8>>>) -> bool {
    &&& lv.len() >= 1
    &&& lv.last().len() == 1
    &&& forall|k: int| 0 <= k < lv.len() ==> #[trigger] lv[k].len() >= 1
    &&& forall|k: int| 0 <= k < lv.len() - 1 ==> lv[k + 1] == next_level(#[trigger] lv[k])
}

/// Climbing one level at a time, folding the proof entries over the node at
/// `idx` of level `k` reaches the single node at the top.
proof fn lemma_chain_from(lv: Seq<Seq<Seq<u8>>>, k: int, idx: int)
    requires
        wf_levels(lv),
        0 <= k < lv.len(),
        0 <= idx < lv[k].len(),
    ensures
        chain_root(lv[k][idx], proof_from(lv, k, idx)) == lv.last()[0],
    decreases lv.len() - k,
{
    if k == lv.len() - 1 {
        assert(idx == 0);
        assert(proof_from(lv, k, idx) =~= Seq::<(Seq<u8>, u8)>::empty());
    } else {
        let e = proof_entry(lv[k], idx);
        let rest = proof_from(lv, k + 1, idx / 2);
        assert(proof_from(lv, k, idx) == seq![e] + rest);
        assert(lv[k + 1] == next_level(lv[k]));
        assert(lv[k + 1].len() == (lv[k].len() + 1) / 2);
        assert(0 <= idx / 2 < lv[k + 1].len());
        if idx % 2 == 0 {
            assert(2 * (idx / 2) == idx);
            if idx + 1 < lv[k].len() {
                assert(chain_step(lv[k][idx], e) == hash_pair(lv[k][idx], lv[k][idx + 1]));
            } else {
                assert(chain_step(lv[k][idx], e) == hash_pair(lv[k][idx], lv[k][idx]));
            }
        } else {
            assert(2 * (idx / 2) == idx - 1);
            assert(chain_step(lv[k][idx], e) == hash_pair(lv[k][idx - 1], lv[k][idx]));
        }
        assert(chain_step(lv[k][idx], e) == lv[k + 1][idx / 2]);
        assert((seq![e] + rest)[0] == e);
        assert((seq![e] + rest).drop_first() =~= rest);
        lemma_chain_from(lv, k + 1, idx / 2);
        assert(chain_root(lv[k][idx], seq![e] + rest) == chain_root(lv[k + 1][idx / 2], rest));
    }
}

/// Round-trip law: over any non-empty leaf sequence, the proof produced for
/// any leaf index folds back to exactly the root.
pub proof fn lemma_proof_round_trip(leaves: Seq<Seq<u8>>, i: int)
    requires
        0 <= i < leaves.len(),
    ensures
        root_of(leaves) == Some(chain_root(leaves[i], proof_of(leaves, i))),
{
    lemma_levels_from_props(leaves);
    let lv = levels_of(leaves);
    assert(wf_levels(lv));
    lemma_chain_from(lv, 0, i);
}

/// Determinism law: the levels and the root are functions of the leaf
/// sequence alone, so two builds over equal leaves agree byte for byte.
pub proof fn lemma_root_deterministic(a: Seq<Seq<u8>>, b: Seq<Seq<u8>>)
    requires
        a == b,
    ensures
        levels_of(a) == levels_of(b),
        root_of(a) == root_of(b),
{
}

/// Hashes adjacent pairs of `hashes` into the next level up, pairing the last
/// node with itself when the count is odd.
fn build_next_level(hashes: &Vec<Hash32>) -> (r: Vec<Hash32>)
    requires
        hashes.len() >= 1,
        hashes.len() < usize::MAX,
    ensures
        r.deep_view() == next_level(hashes.deep_view()),
        r.len() >= 1,
{
    let ghost hv = hashes.deep_view();
    let mut out: Vec<Hash32> = Vec::new();
    let mut i: usize = 0;
    while i < hashes.len()
        invariant
            1 <= hashes.len() < usize::MAX,
            hv == hashes.deep_view(),
            i % 2 == 0,
            i <= hashes.len() + 1,
            out.len() == i / 2,
            forall|j: int| 0 <= j < out.len() ==> out.deep_view()[j] == next_level(hv)[j],
        decreases hashes.len() + 1 - i,
    {
        let h1 = hashes[i];
        let h2 = if i + 1 < hashes.len() {
            hashes[i + 1]
        } else {
            h1
        };
        let mut combined: Vec<u8> = Vec::new();
        push_hash_bytes(&mut combined, &h1);
        push_hash_bytes(&mut combined, &h2);
        proof {
            assert(combined@ =~= h1@ + h2@);
        }
        let d = sha256(combined.as_slice());
        let ghost out_before = out.deep_view();
        out.push(d);
        proof {
            assert(h1@ == hv[i as int]);
            if i + 1 < hashes.len() {
                assert(h2@ == hv[i + 1]);
            }
            assert(d@ == hash_pair(hv[2 * ((i as int) / 2)], pair_partner(hv, (i as int) / 2)));
            assert(out.deep_view() =~= out_before.push(d@));
            assert(out.deep_view()[out.len() - 1] == next_level(hv)[(i as int) / 2]);
        }
        i = i + 2;
    }
    proof {
        assert(out.len() == next_level(hv).len());
        assert(out.deep_view() =~= next_level(hv));
    }
    out
}

} // verus!
