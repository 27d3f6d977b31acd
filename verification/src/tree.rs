//! Merkle trees over leaf hashes, and single-leaf inclusion proofs.
//!
//! A tree's nodes are kept in level order: the root at 0, the children of `i`
//! at `2i + 1` and `2i + 2`, the leaves last. The leaf level is padded to a
//! power of two with a sentinel hash.

use crate::digest::{
    collision, constant_time_eq, digest_of, hash_chunk, leaf_digest, leaf_preimage, null_digest,
    pair_digest, pair_preimage, HashAlg,
};
use crate::error::{MerkleError, MAX_LEAVES};
use rayon::iter::{IntoParallelRefIterator, ParallelIterator};
use vstd::prelude::*;

verus! {

// ---------------------------------------------------------------------------
// Powers of two
// ---------------------------------------------------------------------------

/// The smallest power of two that is at least `n`.
pub open spec fn next_pow2(n: nat) -> nat
    decreases n,
{
    if n <= 1 {
        1
    } else {
        2 * next_pow2((n + 1) / 2)
    }
}

/// Whether `n` is a power of two.
pub open spec fn is_pow2(n: nat) -> bool
    decreases n,
{
    if n <= 1 {
        n == 1
    } else {
        n % 2 == 0 && is_pow2(n / 2)
    }
}

/// How often `n` can be halved before it reaches one.
pub open spec fn log2(n: nat) -> nat
    decreases n,
{
    if n <= 1 {
        0
    } else {
        1 + log2(n / 2)
    }
}

pub proof fn lemma_next_pow2(n: nat)
    ensures
        is_pow2(next_pow2(n)),
        n <= next_pow2(n),
        next_pow2(n) >= 1,
        n >= 1 ==> next_pow2(n) < 2 * n,
    decreases n,
{
    if n > 1 {
        lemma_next_pow2((n + 1) / 2);
    }
}

/// A power of two is its own padding.
pub proof fn lemma_next_pow2_fixed(n: nat)
    requires
        is_pow2(n),
    ensures
        next_pow2(n) == n,
    decreases n,
{
    if n > 1 {
        lemma_next_pow2_fixed(n / 2);
    }
}

pub proof fn lemma_next_pow2_monotonic(a: nat, b: nat)
    requires
        a <= b,
    ensures
        next_pow2(a) <= next_pow2(b),
    decreases b,
{
    if b > 1 {
        lemma_next_pow2_monotonic((a + 1) / 2, (b + 1) / 2);
        lemma_next_pow2((b + 1) / 2);
    }
}

/// The smallest power of two that is at least `n`.
pub fn next_power_of_two(n: usize) -> (p: usize)
    requires
        next_pow2(n as nat) <= usize::MAX,
    ensures
        p == next_pow2(n as nat),
    decreases n,
{
    if n <= 1 {
        1
    } else {
        let half: usize = n / 2 + n % 2;
        assert(half == (n + 1) / 2);
        2 * next_power_of_two(half)
    }
}

/// Whether `n` is a power of two.
pub fn is_power_of_two(n: usize) -> (r: bool)
    ensures
        r == is_pow2(n as nat),
    decreases n,
{
    if n <= 1 {
        n == 1
    } else {
        n % 2 == 0 && is_power_of_two(n / 2)
    }
}

fn floor_log2(n: usize) -> (k: usize)
    ensures
        k == log2(n as nat),
        k <= n,
    decreases n,
{
    if n <= 1 {
        0
    } else {
        1 + floor_log2(n / 2)
    }
}

/// Levels of a tree with `padded` leaves.
pub open spec fn depth_of(padded: nat) -> nat {
    log2(padded) + 1
}

/// Levels of a tree with `padded_count` leaves.
pub fn compute_depth(padded_count: usize) -> (d: usize)
    requires
        padded_count < usize::MAX,
    ensures
        d == depth_of(padded_count as nat),
{
    if padded_count <= 1 {
        1
    } else {
        floor_log2(padded_count) + 1
    }
}

// ---------------------------------------------------------------------------
// What a tree is
// ---------------------------------------------------------------------------

/// The leaf hashes of `chunks`, in order.
pub open spec fn leaf_digests(alg: HashAlg, chunks: Seq<Seq<u8>>) -> Seq<[u8; 32]> {
    Seq::new(chunks.len(), |i: int| leaf_digest(alg, chunks[i]))
}

/// The bytes behind a sequence of slices.
pub open spec fn slice_views(chunks: Seq<&[u8]>) -> Seq<Seq<u8>> {
    Seq::new(chunks.len(), |i: int| chunks[i]@)
}

/// The bytes behind a sequence of vectors.
pub open spec fn vec_views(chunks: Seq<Vec<u8>>) -> Seq<Seq<u8>> {
    Seq::new(chunks.len(), |i: int| chunks[i]@)
}

/// `leaves`, followed by sentinels up to the next power of two.
pub open spec fn padded_leaves(alg: HashAlg, leaves: Seq<[u8; 32]>) -> Seq<[u8; 32]> {
    leaves + Seq::new(
        (next_pow2(leaves.len()) - leaves.len()) as nat,
        |i: int| null_digest(alg),
    )
}

/// The hash at level-order position `i` of the tree whose leaf level is `leaves`.
pub open spec fn node_hash(alg: HashAlg, leaves: Seq<[u8; 32]>, i: int) -> [u8; 32]
    decreases 2 * leaves.len() - i,
{
    if i < 0 || i >= leaves.len() - 1 {
        leaves[i - (leaves.len() - 1)]
    } else {
        pair_digest(alg, node_hash(alg, leaves, 2 * i + 1), node_hash(alg, leaves, 2 * i + 2))
    }
}

/// All nodes, in level order, of the tree whose (padded) leaf level is `leaves`.
pub open spec fn full_tree(alg: HashAlg, leaves: Seq<[u8; 32]>) -> Seq<[u8; 32]> {
    Seq::new((2 * leaves.len() - 1) as nat, |i: int| node_hash(alg, leaves, i))
}

/// All nodes, in level order, of the tree over `leaves`, padding included.
pub open spec fn tree_nodes(alg: HashAlg, leaves: Seq<[u8; 32]>) -> Seq<[u8; 32]> {
    full_tree(alg, padded_leaves(alg, leaves))
}

/// Whether each internal node of `nodes` is the hash of its two children.
pub open spec fn nodes_consistent(alg: HashAlg, nodes: Seq<[u8; 32]>, padded: int) -> bool {
    forall|i: int|
        0 <= i < padded - 1 ==> #[trigger] nodes[i] == pair_digest(
            alg,
            nodes[2 * i + 1],
            nodes[2 * i + 2],
        )
}

/// The other child of `i`'s parent.
pub open spec fn sibling_of(i: int) -> int {
    if i % 2 == 1 {
        i + 1
    } else {
        i - 1
    }
}

/// The siblings met on the way from position `i` up to the root.
pub open spec fn path_siblings(nodes: Seq<[u8; 32]>, i: int) -> Seq<[u8; 32]>
    decreases i,
{
    if i <= 0 {
        Seq::empty()
    } else {
        seq![nodes[sibling_of(i)]] + path_siblings(nodes, (i - 1) / 2)
    }
}

/// The root reached from `h` at leaf position `idx` through `siblings`.
pub open spec fn fold_path(
    alg: HashAlg,
    h: [u8; 32],
    idx: nat,
    siblings: Seq<[u8; 32]>,
) -> [u8; 32]
    decreases siblings.len(),
{
    if siblings.len() == 0 {
        h
    } else {
        let up = if idx % 2 == 0 {
            pair_digest(alg, h, siblings[0])
        } else {
            pair_digest(alg, siblings[0], h)
        };
        fold_path(alg, up, idx / 2, siblings.skip(1))
    }
}

/// `nodes` after every ancestor of `i` has been recomputed from its children,
/// bottom up.
pub open spec fn rehash_path(alg: HashAlg, nodes: Seq<[u8; 32]>, i: int) -> Seq<[u8; 32]>
    decreases i,
{
    if i <= 0 {
        nodes
    } else {
        let p = (i - 1) / 2;
        rehash_path(
            alg,
            nodes.update(p, pair_digest(alg, nodes[2 * p + 1], nodes[2 * p + 2])),
            p,
        )
    }
}

/// A Merkle tree.
#[derive(Debug, Clone)]
pub struct MerkleTree {
    nodes: Vec<[u8; 32]>,
    leaf_count: usize,
    padded_count: usize,
    alg: HashAlg,
}

impl MerkleTree {
    /// The nodes, in level order.
    pub closed spec fn spec_nodes(&self) -> Seq<[u8; 32]> {
        self.nodes@
    }

    /// The number of leaves, padding left out.
    pub closed spec fn spec_leaf_count(&self) -> nat {
        self.leaf_count as nat
    }

    /// The number of leaves, padding included.
    pub closed spec fn spec_padded(&self) -> nat {
        self.padded_count as nat
    }

    /// The algorithm.
    pub closed spec fn spec_alg(&self) -> HashAlg {
        self.alg
    }

    /// The shape every tree has; what its hashes are is not part of it.
    pub open spec fn wf(&self) -> bool {
        &&& is_pow2(self.spec_padded())
        &&& self.spec_padded() < usize::MAX
        &&& self.spec_leaf_count() <= self.spec_padded()
        &&& self.spec_nodes().len() == 2 * self.spec_padded() - 1
    }

    /// Whether this is the tree over `leaves`.
    pub open spec fn is_tree_of(&self, alg: HashAlg, leaves: Seq<[u8; 32]>) -> bool {
        &&& self.wf()
        &&& self.spec_alg() == alg
        &&& self.spec_leaf_count() == leaves.len()
        &&& self.spec_padded() == next_pow2(leaves.len())
        &&& self.spec_nodes() == tree_nodes(alg, leaves)
    }

    /// The hash stored for leaf `i`.
    pub open spec fn spec_leaf(&self, i: int) -> [u8; 32] {
        self.spec_nodes()[self.spec_padded() - 1 + i]
    }

    /// Assembles a tree out of nodes that come from storage.
    pub(crate) fn from_parts(
        nodes: Vec<[u8; 32]>,
        leaf_count: usize,
        padded_count: usize,
        alg: HashAlg,
    ) -> (t: MerkleTree)
        requires
            is_pow2(padded_count as nat),
            leaf_count <= padded_count,
            nodes@.len() == 2 * padded_count - 1,
            padded_count < usize::MAX,
        ensures
            t.wf(),
            t.spec_nodes() == nodes@,
            t.spec_leaf_count() == leaf_count,
            t.spec_padded() == padded_count,
            t.spec_alg() == alg,
    {
        MerkleTree { nodes, leaf_count, padded_count, alg }
    }

    /// Builds the tree over `leaves`, refusing more than `MAX_LEAVES` of them.
    pub fn build(leaves: &[[u8; 32]], alg: HashAlg) -> (r: Result<Self, MerkleError>)
        requires
            next_pow2(leaves@.len()) <= usize::MAX,
        ensures
            ({
                let depth = depth_of(next_pow2(leaves@.len()));
                if leaves@.len() <= MAX_LEAVES {
                    r is Ok && r->Ok_0.is_tree_of(alg, leaves@)
                } else {
                    r == Err::<MerkleTree, MerkleError>(
                        MerkleError::TreeTooDeep { depth: depth as usize },
                    )
                }
            }),
    {
        let padded_count: usize = next_power_of_two(leaves.len());
        proof {
            lemma_next_pow2(leaves@.len());
            lemma_pow2_below_max(padded_count);
        }
        if leaves.len() as u64 > MAX_LEAVES {
            let depth: usize = compute_depth(padded_count);
            return Err(MerkleError::TreeTooDeep { depth });
        }
        Ok(Self::from_leaf_hashes(leaves, alg))
    }

    /// Builds the tree over `leaf_hashes`.
    pub fn from_leaf_hashes(leaf_hashes: &[[u8; 32]], alg: HashAlg) -> (t: Self)
        requires
            next_pow2(leaf_hashes@.len()) <= usize::MAX,
        ensures
            t.is_tree_of(alg, leaf_hashes@),
    {
        let leaf_count: usize = leaf_hashes.len();
        let padded_count: usize = next_power_of_two(leaf_count);
        proof {
            lemma_next_pow2(leaf_hashes@.len());
            lemma_pow2_below_max(padded_count);
        }
        let internal_nodes: usize = padded_count - 1;
        let total_nodes: usize = padded_count + internal_nodes;
        let null_sentinel: [u8; 32] = alg.null_sentinel();
        let ghost leaves = padded_leaves(alg, leaf_hashes@);

        // Internal positions first hold the sentinel; each is overwritten below.
        let mut nodes: Vec<[u8; 32]> = Vec::with_capacity(total_nodes);
        let mut i: usize = 0;
        while i < total_nodes
            invariant
                i <= total_nodes,
                total_nodes == padded_count + internal_nodes,
                internal_nodes == padded_count - 1,
                padded_count == next_pow2(leaf_count as nat),
                leaf_count == leaf_hashes@.len(),
                leaf_count <= padded_count,
                nodes@.len() == i,
                null_sentinel == null_digest(alg),
                leaves == padded_leaves(alg, leaf_hashes@),
                forall|j: int|
                    internal_nodes <= j < i ==> nodes@[j] == leaves[j - internal_nodes],
            decreases total_nodes - i,
        {
            if i >= internal_nodes && i - internal_nodes < leaf_count {
                nodes.push(leaf_hashes[i - internal_nodes]);
            } else {
                nodes.push(null_sentinel);
            }
            i = i + 1;
        }
        assert(leaves.len() == padded_count);
        assert forall|j: int| internal_nodes <= j < total_nodes implies nodes@[j] == node_hash(
            alg,
            leaves,
            j,
        ) by {}
        let mut k: usize = internal_nodes;
        while k > 0
            invariant
                k <= internal_nodes,
                total_nodes == padded_count + internal_nodes,
                internal_nodes == padded_count - 1,
                leaves.len() == padded_count,
                nodes@.len() == total_nodes,
                forall|j: int| k <= j < total_nodes ==> nodes@[j] == node_hash(alg, leaves, j),
            decreases k,
        {
            k = k - 1;
            let parent: [u8; 32] = alg.hash_pair(&nodes[2 * k + 1], &nodes[2 * k + 2]);
            nodes.set(k, parent);
        }
        assert(nodes@ =~= tree_nodes(alg, leaf_hashes@));
        MerkleTree { nodes, leaf_count, padded_count, alg }
    }

    /// Builds the tree whose leaves are the hashes of `chunks`.
    pub fn from_chunks(chunks: &[&[u8]], alg: HashAlg) -> (t: Self)
        requires
            next_pow2(chunks@.len()) <= usize::MAX,
        ensures
            t.is_tree_of(alg, leaf_digests(alg, slice_views(chunks@))),
    {
        let mut hashes: Vec<[u8; 32]> = Vec::with_capacity(chunks.len());
        let mut i: usize = 0;
        while i < chunks.len()
            invariant
                i <= chunks@.len(),
                hashes@.len() == i,
                forall|j: int| 0 <= j < i ==> hashes@[j] == leaf_digest(alg, chunks@[j]@),
            decreases chunks@.len() - i,
        {
            hashes.push(hash_chunk(chunks[i], alg));
            i = i + 1;
        }
        assert(hashes@ =~= leaf_digests(alg, slice_views(chunks@)));
        Self::from_leaf_hashes(hashes.as_slice(), alg)
    }

    /// Builds the tree whose leaves are the hashes of `chunks`.
    pub fn from_chunks_owned(chunks: &[Vec<u8>], alg: HashAlg) -> (t: Self)
        requires
            next_pow2(chunks@.len()) <= usize::MAX,
        ensures
            t.is_tree_of(alg, leaf_digests(alg, vec_views(chunks@))),
    {
        let mut hashes: Vec<[u8; 32]> = Vec::with_capacity(chunks.len());
        let mut i: usize = 0;
        while i < chunks.len()
            invariant
                i <= chunks@.len(),
                hashes@.len() == i,
                forall|j: int| 0 <= j < i ==> hashes@[j] == leaf_digest(alg, chunks@[j]@),
            decreases chunks@.len() - i,
        {
            hashes.push(hash_chunk(chunks[i].as_slice(), alg));
            i = i + 1;
        }
        assert(hashes@ =~= leaf_digests(alg, vec_views(chunks@)));
        Self::from_leaf_hashes(hashes.as_slice(), alg)
    }

    /// As `from_chunks`, with the chunks hashed on several threads.
    pub fn from_chunks_parallel(chunks: &[&[u8]], alg: HashAlg) -> (t: Self)
        requires
            next_pow2(chunks@.len()) <= usize::MAX,
        ensures
            t.is_tree_of(alg, leaf_digests(alg, slice_views(chunks@))),
    {
        let hashes: Vec<[u8; 32]> = hash_chunks_parallel(chunks, alg);
        Self::from_leaf_hashes(hashes.as_slice(), alg)
    }

    /// The root hash.
    pub fn root(&self) -> (r: &[u8; 32])
        requires
            self.wf(),
        ensures
            *r == self.spec_nodes()[0],
    {
        proof {
            lemma_pow2_pos(self.padded_count as nat);
        }
        &self.nodes[0]
    }

    /// The algorithm the tree was built with.
    pub fn algorithm(&self) -> (r: HashAlg)
        ensures
            r == self.spec_alg(),
    {
        self.alg
    }

    /// The number of leaves, padding left out.
    pub fn leaf_count(&self) -> (r: usize)
        ensures
            r == self.spec_leaf_count(),
    {
        self.leaf_count
    }

    /// The number of leaves, padding included.
    pub fn padded_leaf_count(&self) -> (r: usize)
        ensures
            r == self.spec_padded(),
    {
        self.padded_count
    }

    /// The hash of leaf `index`, `None` past the last leaf.
    pub fn leaf_hash(&self, index: usize) -> (r: Option<&[u8; 32]>)
        requires
            self.wf(),
        ensures
            match r {
                Some(h) => index < self.spec_leaf_count() && *h == self.spec_leaf(index as int),
                None => index >= self.spec_leaf_count(),
            },
    {
        if index >= self.leaf_count {
            return None;
        }
        let len: usize = self.nodes.len();
        let internal_nodes: usize = self.padded_count - 1;
        assert(internal_nodes + index < len);
        Some(&self.nodes[internal_nodes + index])
    }

    /// The number of levels.
    pub fn depth(&self) -> (d: usize)
        requires
            self.wf(),
        ensures
            d == depth_of(self.spec_padded()),
    {
        compute_depth(self.padded_count)
    }

    /// The inclusion proof of leaf `leaf_index`, `None` past the last leaf.
    pub fn inclusion_proof(&self, leaf_index: usize) -> (r: Option<MerkleProof>)
        requires
            self.wf(),
        ensures
            match r {
                Some(p) => {
                    &&& leaf_index < self.spec_leaf_count()
                    &&& p.spec_leaf_index() == leaf_index
                    &&& p.spec_alg() == self.spec_alg()
                    &&& p.spec_siblings() == path_siblings(
                        self.spec_nodes(),
                        self.spec_padded() - 1 + leaf_index,
                    )
                },
                None => leaf_index >= self.spec_leaf_count(),
            },
    {
        if leaf_index >= self.leaf_count {
            return None;
        }
        let len: usize = self.nodes.len();
        let internal_nodes: usize = self.padded_count - 1;
        let ghost start = internal_nodes + leaf_index;
        assert(start < len);
        let mut node_idx: usize = internal_nodes + leaf_index;
        let mut siblings: Vec<[u8; 32]> = Vec::new();
        assert(siblings@ + path_siblings(self.nodes@, node_idx as int) =~= path_siblings(
            self.nodes@,
            start,
        ));
        while node_idx > 0
            invariant
                node_idx < len == self.nodes@.len(),
                len % 2 == 1,
                siblings@ + path_siblings(self.nodes@, node_idx as int) == path_siblings(
                    self.nodes@,
                    start,
                ),
            decreases node_idx,
        {
            let sibling_idx: usize = if node_idx % 2 == 1 {
                node_idx + 1
            } else {
                node_idx - 1
            };
            let ghost before = siblings@;
            siblings.push(self.nodes[sibling_idx]);
            proof {
                let rest = path_siblings(self.nodes@, (node_idx - 1) / 2);
                assert(before + (seq![self.nodes@[sibling_idx as int]] + rest) =~= siblings@
                    + rest);
            }
            node_idx = (node_idx - 1) / 2;
        }
        assert(siblings@ =~= path_siblings(self.nodes@, start));
        Some(MerkleProof { leaf_index, siblings, alg: self.alg })
    }

    /// Whether `chunk_data` hashes to the stored leaf.
    pub fn verify_chunk(&self, leaf_index: usize, chunk_data: &[u8]) -> (r: bool)
        requires
            self.wf(),
        ensures
            r == (leaf_index < self.spec_leaf_count() && leaf_digest(
                self.spec_alg(),
                chunk_data@,
            ) == self.spec_leaf(leaf_index as int)),
    {
        let chunk_hash: [u8; 32] = self.alg.hash_leaf(chunk_data);
        match self.leaf_hash(leaf_index) {
            Some(expected) => constant_time_eq(&chunk_hash, expected),
            None => false,
        }
    }

    /// Whether `proof` leads from `chunk_data` at `leaf_index` to this tree's root.
    pub fn verify_proof(&self, leaf_index: usize, chunk_data: &[u8], proof: &MerkleProof) -> (r:
        bool)
        requires
            self.wf(),
        ensures
            r == {
                &&& leaf_index == proof.spec_leaf_index()
                &&& self.spec_alg() == proof.spec_alg()
                &&& proof.spec_siblings().len() == log2(self.spec_padded())
                &&& proof.leads_to(chunk_data@, self.spec_nodes()[0])
            },
    {
        if leaf_index != proof.leaf_index || self.alg != proof.alg {
            return false;
        }
        if proof.siblings.len() != self.depth() - 1 {
            return false;
        }
        let computed_root: [u8; 32] = proof.compute_root(chunk_data);
        constant_time_eq(&computed_root, self.root())
    }

    /// Whether `proof` leads from `chunk_data` at `leaf_index` to `root`.
    pub fn verify_proof_standalone(
        root: &[u8; 32],
        leaf_index: usize,
        chunk_data: &[u8],
        proof: &MerkleProof,
    ) -> (r: bool)
        ensures
            r == (leaf_index == proof.spec_leaf_index() && proof.leads_to(chunk_data@, *root)),
    {
        if leaf_index != proof.leaf_index {
            return false;
        }
        let computed_root: [u8; 32] = proof.compute_root(chunk_data);
        constant_time_eq(&computed_root, root)
    }

    /// All nodes, in level order.
    pub fn nodes(&self) -> (r: &[[u8; 32]])
        ensures
            r@ == self.spec_nodes(),
    {
        self.nodes.as_slice()
    }

    /// Replaces a leaf hash (a padding position may be given too) and
    /// recomputes its ancestors.
    pub fn update_leaf(&mut self, leaf_idx: usize, new_hash: [u8; 32]) -> (r: Result<
        (),
        MerkleError,
    >)
        requires
            old(self).wf(),
        ensures
            final(self).wf(),
            final(self).spec_alg() == old(self).spec_alg(),
            final(self).spec_leaf_count() == old(self).spec_leaf_count(),
            final(self).spec_padded() == old(self).spec_padded(),
            if leaf_idx < old(self).spec_padded() {
                let pos = old(self).spec_padded() - 1 + leaf_idx;
                &&& r is Ok
                &&& final(self).spec_nodes() == rehash_path(
                    old(self).spec_alg(),
                    old(self).spec_nodes().update(pos, new_hash),
                    pos,
                )
            } else {
                &&& r == Err::<(), MerkleError>(MerkleError::HyperslabOutOfBounds { idx: leaf_idx })
                &&& final(self).spec_nodes() == old(self).spec_nodes()
            },
    {
        if leaf_idx >= self.padded_count {
            return Err(MerkleError::HyperslabOutOfBounds { idx: leaf_idx });
        }
        let len: usize = self.nodes.len();
        let internal_nodes: usize = self.padded_count - 1;
        assert(internal_nodes + leaf_idx < len);
        let mut node_idx: usize = internal_nodes + leaf_idx;
        self.nodes.set(node_idx, new_hash);
        let ghost target = rehash_path(self.alg, self.nodes@, node_idx as int);
        while node_idx > 0
            invariant
                node_idx < len == self.nodes@.len(),
                len % 2 == 1,
                self.alg == old(self).alg,
                self.leaf_count == old(self).leaf_count,
                self.padded_count == old(self).padded_count,
                rehash_path(self.alg, self.nodes@, node_idx as int) == target,
            decreases node_idx,
        {
            let parent: usize = (node_idx - 1) / 2;
            let h: [u8; 32] = self.alg.hash_pair(
                &self.nodes[2 * parent + 1],
                &self.nodes[2 * parent + 2],
            );
            self.nodes.set(parent, h);
            node_idx = parent;
        }
        Ok(())
    }
}

/// The leaf hashes of `chunks`, computed by `rayon`'s `par_iter().map(..)
/// .collect()`: one result per chunk, in the order of the chunks.
#[verifier::external_body]
pub(crate) fn hash_chunks_parallel(chunks: &[&[u8]], alg: HashAlg) -> (r: Vec<[u8; 32]>)
    ensures
        r@ == leaf_digests(alg, slice_views(chunks@)),
{
    chunks.par_iter().map(|chunk| hash_chunk(chunk, alg)).collect()
}

/// An inclusion proof for one leaf: the siblings on its way to the root.
#[derive(Debug, Clone, PartialEq, Eq)]
pub struct MerkleProof {
    leaf_index: usize,
    pub siblings: Vec<[u8; 32]>,
    alg: HashAlg,
}

impl MerkleProof {
    /// The position of the leaf.
    pub closed spec fn spec_leaf_index(&self) -> nat {
        self.leaf_index as nat
    }

    /// The siblings, from the leaf's up.
    pub closed spec fn spec_siblings(&self) -> Seq<[u8; 32]> {
        self.siblings@
    }

    /// The algorithm.
    pub closed spec fn spec_alg(&self) -> HashAlg {
        self.alg
    }

    /// Whether the proof leads from a leaf holding `data` to `root`.
    pub open spec fn leads_to(&self, data: Seq<u8>, root: [u8; 32]) -> bool {
        fold_path(
            self.spec_alg(),
            leaf_digest(self.spec_alg(), data),
            self.spec_leaf_index(),
            self.spec_siblings(),
        ) == root
    }

    /// The position of the leaf.
    pub fn leaf_index(&self) -> (r: usize)
        ensures
            r == self.spec_leaf_index(),
    {
        self.leaf_index
    }

    /// The siblings, from the leaf's up.
    pub fn siblings(&self) -> (r: &[[u8; 32]])
        ensures
            r@ == self.spec_siblings(),
    {
        self.siblings.as_slice()
    }

    /// The algorithm the proof was made with.
    pub fn algorithm(&self) -> (r: HashAlg)
        ensures
            r == self.spec_alg(),
    {
        self.alg
    }

    /// The root that `chunk_data` leads to.
    pub fn compute_root(&self, chunk_data: &[u8]) -> (r: [u8; 32])
        ensures
            r == fold_path(
                self.spec_alg(),
                leaf_digest(self.spec_alg(), chunk_data@),
                self.spec_leaf_index(),
                self.spec_siblings(),
            ),
    {
        let leaf_hash: [u8; 32] = self.alg.hash_leaf(chunk_data);
        self.compute_root_from_hash(&leaf_hash)
    }

    /// The root that `leaf_hash` leads to.
    pub fn compute_root_from_hash(&self, leaf_hash: &[u8; 32]) -> (r: [u8; 32])
        ensures
            r == fold_path(
                self.spec_alg(),
                *leaf_hash,
                self.spec_leaf_index(),
                self.spec_siblings(),
            ),
    {
        let mut current: [u8; 32] = *leaf_hash;
        let mut idx: usize = self.leaf_index;
        let mut i: usize = 0;
        let ghost goal = fold_path(self.alg, current, idx as nat, self.siblings@);
        assert(self.siblings@.skip(0) =~= self.siblings@);
        while i < self.siblings.len()
            invariant
                i <= self.siblings@.len(),
                fold_path(self.alg, current, idx as nat, self.siblings@.skip(i as int)) == goal,
            decreases self.siblings@.len() - i,
        {
            let ghost rest = self.siblings@.skip(i as int);
            assert(rest.skip(1) =~= self.siblings@.skip(i + 1));
            assert(rest[0] == self.siblings@[i as int]);
            current = if idx % 2 == 0 {
                self.alg.hash_pair(&current, &self.siblings[i])
            } else {
                self.alg.hash_pair(&self.siblings[i], &current)
            };
            idx = idx / 2;
            i = i + 1;
        }
        current
    }

    /// The proof's size when written out: algorithm, leaf index, siblings.
    pub fn size_bytes(&self) -> (n: usize)
        requires
            9 + 32 * self.spec_siblings().len() <= usize::MAX,
        ensures
            n == 9 + 32 * self.spec_siblings().len(),
    {
        9 + self.siblings.len() * 32
    }
}

// ---------------------------------------------------------------------------
// Lemmas
// ---------------------------------------------------------------------------

pub proof fn lemma_pow2_pos(n: nat)
    requires
        is_pow2(n),
    ensures
        n >= 1,
        n > 1 ==> n % 2 == 0,
{
}

proof fn lemma_pow2_half(n: nat, k: nat)
    requires
        is_pow2(n),
        n < vstd::arithmetic::power2::pow2(k),
    ensures
        2 * n <= vstd::arithmetic::power2::pow2(k),
    decreases n,
{
    if k == 0 {
        vstd::arithmetic::power2::lemma2_to64();
    } else {
        vstd::arithmetic::power2::lemma_pow2_unfold(k);
        if n > 1 {
            lemma_pow2_half(n / 2, (k - 1) as nat);
        } else {
            vstd::arithmetic::power2::lemma_pow2_pos((k - 1) as nat);
        }
    }
}

/// A tree whose leaf level fits in `usize` has its nodes fit too.
pub proof fn lemma_pow2_below_max(n: usize)
    requires
        is_pow2(n as nat),
    ensures
        n < usize::MAX,
        2 * n - 1 <= usize::MAX,
{
    lemma_pow2_pos(n as nat);
    vstd::arithmetic::power2::lemma2_to64();
    assert(usize::MAX == 0xffff_ffff || usize::MAX == 0xffff_ffff_ffff_ffff);
    if usize::MAX == 0xffff_ffff {
        lemma_pow2_half(n as nat, 32);
    } else {
        lemma_pow2_half(n as nat, 64);
    }
}

/// `full_tree` is consistent, and its leaf level is what it was made from.
pub proof fn lemma_full_tree(alg: HashAlg, leaves: Seq<[u8; 32]>)
    requires
        leaves.len() >= 1,
    ensures
        nodes_consistent(alg, full_tree(alg, leaves), leaves.len() as int),
        forall|i: int|
            0 <= i < leaves.len() ==> #[trigger] leaves[i] == full_tree(alg, leaves)[leaves.len()
                - 1 + i],
{
}

/// Nodes that are consistent are those of the tree over their leaf level.
pub proof fn lemma_consistent_is_full_tree(alg: HashAlg, nodes: Seq<[u8; 32]>, padded: nat)
    requires
        padded >= 1,
        nodes.len() == 2 * padded - 1,
        nodes_consistent(alg, nodes, padded as int),
    ensures
        nodes == full_tree(alg, nodes.skip(padded - 1)),
{
    let leaves = nodes.skip(padded - 1);
    assert forall|i: int| 0 <= i < nodes.len() implies nodes[i] == #[trigger] node_hash(
        alg,
        leaves,
        i,
    ) by {
        lemma_consistent_node(alg, nodes, padded, i);
    }
    assert(nodes =~= full_tree(alg, leaves));
}

proof fn lemma_consistent_node(alg: HashAlg, nodes: Seq<[u8; 32]>, padded: nat, i: int)
    requires
        padded >= 1,
        nodes.len() == 2 * padded - 1,
        nodes_consistent(alg, nodes, padded as int),
        0 <= i < nodes.len(),
    ensures
        nodes[i] == node_hash(alg, nodes.skip(padded - 1), i),
    decreases 2 * padded - i,
{
    if i < padded - 1 {
        lemma_consistent_node(alg, nodes, padded, 2 * i + 1);
        lemma_consistent_node(alg, nodes, padded, 2 * i + 2);
    }
}

/// Climbing from position `m - 1 + j` of a level of `m` nodes ends at the root.
pub(crate) proof fn lemma_climb(alg: HashAlg, nodes: Seq<[u8; 32]>, padded: nat, m: nat, j: nat)
    requires
        is_pow2(m),
        m <= padded,
        j < m,
        nodes.len() == 2 * padded - 1,
        nodes_consistent(alg, nodes, padded as int),
    ensures
        path_siblings(nodes, m - 1 + j).len() == log2(m),
        fold_path(alg, nodes[m - 1 + j], j, path_siblings(nodes, m - 1 + j)) == nodes[0],
    decreases m,
{
    let i = m - 1 + j;
    if m > 1 {
        let p = (i - 1) / 2;
        assert(p == m / 2 - 1 + j / 2);
        lemma_climb(alg, nodes, padded, m / 2, j / 2);
        let siblings = path_siblings(nodes, i);
        assert(siblings.skip(1) =~= path_siblings(nodes, p));
        assert(siblings[0] == nodes[sibling_of(i)]);
        assert(nodes[p] == pair_digest(alg, nodes[2 * p + 1], nodes[2 * p + 2]));
    }
}

/// Re-hashing a path repairs the one inconsistency that changing position `i`
/// can cause, and leaves the leaf level alone.
proof fn lemma_rehash(alg: HashAlg, nodes: Seq<[u8; 32]>, padded: nat, i: int)
    requires
        padded >= 1,
        nodes.len() == 2 * padded - 1,
        0 <= i < nodes.len(),
        forall|j: int|
            0 <= j < padded - 1 && (i == 0 || j != (i - 1) / 2) ==> #[trigger] nodes[j]
                == pair_digest(alg, nodes[2 * j + 1], nodes[2 * j + 2]),
    ensures
        rehash_path(alg, nodes, i).len() == nodes.len(),
        nodes_consistent(alg, rehash_path(alg, nodes, i), padded as int),
        forall|j: int|
            padded - 1 <= j < nodes.len() ==> #[trigger] rehash_path(alg, nodes, i)[j] == nodes[j],
    decreases i,
{
    if i > 0 {
        let p = (i - 1) / 2;
        let next = nodes.update(p, pair_digest(alg, nodes[2 * p + 1], nodes[2 * p + 2]));
        assert forall|j: int|
            0 <= j < padded - 1 && (p == 0 || j != (p - 1) / 2) implies #[trigger] next[j]
            == pair_digest(alg, next[2 * j + 1], next[2 * j + 2]) by {
            assert(2 * j + 1 != p && 2 * j + 2 != p);
            if j != p {
                assert(nodes[j] == pair_digest(alg, nodes[2 * j + 1], nodes[2 * j + 2]));
            }
        }
        lemma_rehash(alg, next, padded, p);
    }
}

proof fn lemma_pair_preimage_injective(a: [u8; 32], b: [u8; 32], c: [u8; 32], d: [u8; 32])
    requires
        pair_preimage(a, b) == pair_preimage(c, d),
    ensures
        a == c,
        b == d,
{
    let x = pair_preimage(a, b);
    let y = pair_preimage(c, d);
    assert forall|i: int| 0 <= i < 32 implies a[i] == c[i] && b[i] == d[i] by {
        assert(x[1 + i] == a@[i]);
        assert(y[1 + i] == c@[i]);
        assert(x[33 + i] == b@[i]);
        assert(y[33 + i] == d@[i]);
    }
    assert(a =~= c);
    assert(b =~= d);
}

pub(crate) proof fn lemma_fold_binds(
    alg: HashAlg,
    h1: [u8; 32],
    s1: Seq<[u8; 32]>,
    h2: [u8; 32],
    s2: Seq<[u8; 32]>,
    idx: nat,
)
    requires
        s1.len() == s2.len(),
        fold_path(alg, h1, idx, s1) == fold_path(alg, h2, idx, s2),
    ensures
        h1 == h2 || collision(alg),
    decreases s1.len(),
{
    if s1.len() > 0 {
        let (l1, r1) = if idx % 2 == 0 {
            (h1, s1[0])
        } else {
            (s1[0], h1)
        };
        let (l2, r2) = if idx % 2 == 0 {
            (h2, s2[0])
        } else {
            (s2[0], h2)
        };
        let up1 = pair_digest(alg, l1, r1);
        let up2 = pair_digest(alg, l2, r2);
        lemma_fold_binds(alg, up1, s1.skip(1), up2, s2.skip(1), idx / 2);
        if up1 == up2 && h1 != h2 {
            if pair_preimage(l1, r1) == pair_preimage(l2, r2) {
                lemma_pair_preimage_injective(l1, r1, l2, r2);
            }
            assert(digest_of(alg, pair_preimage(l1, r1)) == digest_of(
                alg,
                pair_preimage(l2, r2),
            ));
        }
    }
}

/// Data with the same leaf hash is the same, unless the digest has a collision.
pub(crate) proof fn lemma_leaf_binds(alg: HashAlg, d1: Seq<u8>, d2: Seq<u8>)
    ensures
        leaf_digest(alg, d1) == leaf_digest(alg, d2) ==> d1 == d2 || collision(alg),
{
    if leaf_digest(alg, d1) == leaf_digest(alg, d2) && d1 != d2 {
        if leaf_preimage(d1) == leaf_preimage(d2) {
            assert(leaf_preimage(d1).skip(1) =~= d1);
            assert(leaf_preimage(d2).skip(1) =~= d2);
        }
        assert(digest_of(alg, leaf_preimage(d1)) == digest_of(alg, leaf_preimage(d2)));
    }
}

// ---------------------------------------------------------------------------
// Laws
// ---------------------------------------------------------------------------

/// A proof taken from a tree over `leaves` leads from any of its leaves to its
/// root, and has one sibling per level below the root.
pub proof fn law_tree_proof_verifies(tree: MerkleTree, leaves: Seq<[u8; 32]>, idx: nat)
    requires
        tree.is_tree_of(tree.spec_alg(), leaves),
        idx < leaves.len(),
    ensures
        ({
            let siblings = path_siblings(tree.spec_nodes(), tree.spec_padded() - 1 + idx);
            &&& siblings.len() == log2(tree.spec_padded())
            &&& fold_path(tree.spec_alg(), leaves[idx as int], idx, siblings)
                == tree.spec_nodes()[0]
        }),
{
    let alg = tree.spec_alg();
    let padded = padded_leaves(alg, leaves);
    lemma_next_pow2(leaves.len());
    lemma_full_tree(alg, padded);
    assert(padded[idx as int] == leaves[idx as int]);
    lemma_climb(alg, tree.spec_nodes(), tree.spec_padded(), tree.spec_padded(), idx);
}

/// Two proofs of equal length for the same position and the same root prove
/// the same data, unless the digest has a collision.
pub proof fn law_proof_binds_data(
    p1: MerkleProof,
    d1: Seq<u8>,
    p2: MerkleProof,
    d2: Seq<u8>,
    root: [u8; 32],
)
    requires
        p1.spec_alg() == p2.spec_alg(),
        p1.spec_leaf_index() == p2.spec_leaf_index(),
        p1.spec_siblings().len() == p2.spec_siblings().len(),
        p1.leads_to(d1, root),
        p2.leads_to(d2, root),
    ensures
        d1 == d2 || collision(p1.spec_alg()),
{
    let alg = p1.spec_alg();
    lemma_fold_binds(
        alg,
        leaf_digest(alg, d1),
        p1.spec_siblings(),
        leaf_digest(alg, d2),
        p2.spec_siblings(),
        p1.spec_leaf_index(),
    );
    lemma_leaf_binds(alg, d1, d2);
}

/// Replacing leaf `idx` in place gives the tree that a rebuild over the changed
/// leaves gives.
pub proof fn law_update_equals_rebuild(
    alg: HashAlg,
    leaves: Seq<[u8; 32]>,
    idx: nat,
    new_hash: [u8; 32],
)
    requires
        idx < leaves.len(),
    ensures
        ({
            let pos = next_pow2(leaves.len()) - 1 + idx;
            rehash_path(alg, tree_nodes(alg, leaves).update(pos, new_hash), pos) == tree_nodes(
                alg,
                leaves.update(idx as int, new_hash),
            )
        }),
{
    let n = next_pow2(leaves.len());
    let pos = n - 1 + idx;
    let padded = padded_leaves(alg, leaves);
    let nodes = tree_nodes(alg, leaves);
    let changed = nodes.update(pos, new_hash);
    lemma_next_pow2(leaves.len());
    lemma_full_tree(alg, padded);
    assert forall|j: int|
        0 <= j < n - 1 && (pos == 0 || j != (pos - 1) / 2) implies #[trigger] changed[j]
        == pair_digest(alg, changed[2 * j + 1], changed[2 * j + 2]) by {
        assert(2 * j + 1 != pos && 2 * j + 2 != pos);
        assert(nodes[j] == pair_digest(alg, nodes[2 * j + 1], nodes[2 * j + 2]));
    }
    lemma_rehash(alg, changed, n, pos);
    let result = rehash_path(alg, changed, pos);
    lemma_consistent_is_full_tree(alg, result, n);
    let target = padded_leaves(alg, leaves.update(idx as int, new_hash));
    assert forall|j: int| 0 <= j < n implies result[n - 1 + j] == target[j] by {
        assert(result[n - 1 + j] == changed[n - 1 + j]);
        assert(padded[j] == nodes[n - 1 + j]);
    }
    assert(result.skip(n - 1) =~= target);
}

/// A tree has its leaves in order at the end of its nodes, each inner node is the
/// hash of its two children, and what pads the leaves is the hash of padding.
pub proof fn law_tree_is_built_of_pairs(tree: MerkleTree, leaves: Seq<[u8; 32]>, i: int)
    requires
        tree.is_tree_of(tree.spec_alg(), leaves),
        0 <= i < tree.spec_nodes().len(),
    ensures
        tree.spec_leaf_count() == leaves.len(),
        leaves.len() <= tree.spec_padded(),
        tree.spec_nodes().len() == 2 * tree.spec_padded() - 1,
        i < tree.spec_padded() - 1 ==> tree.spec_nodes()[i] == pair_digest(
            tree.spec_alg(),
            tree.spec_nodes()[2 * i + 1],
            tree.spec_nodes()[2 * i + 2],
        ),
        tree.spec_padded() - 1 <= i < tree.spec_padded() - 1 + leaves.len()
            ==> tree.spec_nodes()[i] == leaves[i - tree.spec_padded() + 1],
        i >= tree.spec_padded() - 1 + leaves.len() ==> tree.spec_nodes()[i] == null_digest(
            tree.spec_alg(),
        ),
{
    let alg = tree.spec_alg();
    let level = padded_leaves(alg, leaves);
    lemma_next_pow2(leaves.len());
    lemma_full_tree(alg, level);
    if i >= tree.spec_padded() - 1 {
        let j = i - tree.spec_padded() + 1;
        assert(level[j] == full_tree(alg, level)[level.len() - 1 + j]);
    }
}

/// The leaves of a tree over chunks are the chunks' hashes, in order.
pub proof fn law_leaves_are_chunk_hashes(alg: HashAlg, chunks: Seq<Seq<u8>>, i: int)
    requires
        0 <= i < chunks.len(),
    ensures
        leaf_digests(alg, chunks).len() == chunks.len(),
        leaf_digests(alg, chunks)[i] == leaf_digest(alg, chunks[i]),
{
}

/// A proof has the other child of each node on the way up, and going up hashes each
/// pair with the left one first.
pub proof fn law_path_climbs_by_siblings(
    alg: HashAlg,
    nodes: Seq<[u8; 32]>,
    h: [u8; 32],
    idx: nat,
    i: int,
)
    requires
        i > 0,
    ensures
        path_siblings(nodes, 0).len() == 0,
        path_siblings(nodes, i).len() == 1 + path_siblings(nodes, (i - 1) / 2).len(),
        i % 2 == 1 ==> path_siblings(nodes, i)[0] == nodes[i + 1],
        i % 2 == 0 ==> path_siblings(nodes, i)[0] == nodes[i - 1],
        path_siblings(nodes, i).skip(1) == path_siblings(nodes, (i - 1) / 2),
        idx % 2 == 0 ==> fold_path(alg, h, idx, path_siblings(nodes, i)) == fold_path(
            alg,
            pair_digest(alg, h, path_siblings(nodes, i)[0]),
            idx / 2,
            path_siblings(nodes, (i - 1) / 2),
        ),
        idx % 2 == 1 ==> fold_path(alg, h, idx, path_siblings(nodes, i)) == fold_path(
            alg,
            pair_digest(alg, path_siblings(nodes, i)[0], h),
            idx / 2,
            path_siblings(nodes, (i - 1) / 2),
        ),
{
    assert(path_siblings(nodes, i).skip(1) =~= path_siblings(nodes, (i - 1) / 2));
}

} // verus!
