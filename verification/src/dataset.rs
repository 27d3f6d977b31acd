//! Checking a dataset's chunks against its stored tree, and keeping the tree
//! up to date as chunks are written.

use crate::attr::{
    companion_answer, integrity_digest, CompanionVerifyResult, MerkleAttr, MerkleAttrRef,
};
use crate::bytes::extend;
use crate::digest::{
    collision, compute_sha256, constant_time_eq, digest_at, is_zero, leaf_digest, lemma_digest_ext,
    sha256_digest, HashAlg,
};
use crate::error::{InvalidAttrReason, MerkleError};
use crate::tree::{
    fold_path, is_pow2, is_power_of_two, leaf_digests, lemma_climb, lemma_fold_binds,
    lemma_full_tree, lemma_leaf_binds, lemma_next_pow2, lemma_next_pow2_fixed,
    lemma_next_pow2_monotonic, lemma_pow2_below_max, next_pow2, nodes_consistent, padded_leaves,
    path_siblings, slice_views, tree_nodes, MerkleTree,
};
use std::collections::BTreeSet;
use vstd::arithmetic::power2::{lemma_pow2_pos, pow2};
use vstd::prelude::*;

verus! {

/// Nodes written one after the other.
pub open spec fn flatten(nodes: Seq<[u8; 32]>) -> Seq<u8>
    decreases nodes.len(),
{
    if nodes.len() == 0 {
        Seq::empty()
    } else {
        flatten(nodes.drop_last()) + nodes.last()@
    }
}

/// The nodes that `data` holds, 32 bytes each.
pub open spec fn unflatten(data: Seq<u8>) -> Seq<[u8; 32]> {
    Seq::new(
        data.len() / 32,
        |i: int| choose|h: [u8; 32]| h@ == data.subrange(32 * i, 32 * i + 32),
    )
}

/// Leaves of the tree stored in `len` bytes.
pub open spec fn stored_padded(len: nat) -> nat {
    (len / 32 + 1) / 2
}

/// What is wrong with a stored tree of `len` bytes, `None` if nothing is.
pub open spec fn stored_tree_error(len: nat) -> Option<MerkleError> {
    if len == 0 {
        Some(MerkleError::MissingChunkGridMetadata)
    } else if len % 32 != 0 || (len / 32) % 2 == 0 || !is_pow2(stored_padded(len)) {
        Some(MerkleError::InvalidAttribute { reason: InvalidAttrReason::WrongSize })
    } else {
        None
    }
}

/// The hash stored for leaf `i`.
pub open spec fn stored_leaf(data: Seq<u8>, i: int) -> [u8; 32] {
    unflatten(data)[stored_padded(data.len()) - 1 + i]
}

/// The leaf level of the stored tree.
pub open spec fn stored_leaves(data: Seq<u8>) -> Seq<[u8; 32]> {
    unflatten(data).skip(stored_padded(data.len()) - 1)
}

pub proof fn lemma_flatten_len(nodes: Seq<[u8; 32]>)
    ensures
        flatten(nodes).len() == 32 * nodes.len(),
    decreases nodes.len(),
{
    if nodes.len() > 0 {
        lemma_flatten_len(nodes.drop_last());
    }
}

proof fn lemma_flatten_at(nodes: Seq<[u8; 32]>, i: int)
    requires
        0 <= i < nodes.len(),
    ensures
        flatten(nodes).len() == 32 * nodes.len(),
        flatten(nodes).subrange(32 * i, 32 * i + 32) == nodes[i]@,
    decreases nodes.len(),
{
    lemma_flatten_len(nodes);
    lemma_flatten_len(nodes.drop_last());
    if i < nodes.len() - 1 {
        lemma_flatten_at(nodes.drop_last(), i);
        assert(flatten(nodes).subrange(32 * i, 32 * i + 32) =~= flatten(
            nodes.drop_last(),
        ).subrange(32 * i, 32 * i + 32));
    } else {
        assert(flatten(nodes).subrange(32 * i, 32 * i + 32) =~= nodes[i]@);
    }
}

/// Written nodes take 32 bytes each and stand one behind another.
pub proof fn law_nodes_stand_in_order(nodes: Seq<[u8; 32]>, i: int)
    requires
        0 <= i < nodes.len(),
    ensures
        flatten(nodes).len() == 32 * nodes.len(),
        flatten(nodes).subrange(32 * i, 32 * i + 32) == nodes[i]@,
{
    lemma_flatten_len(nodes);
    lemma_flatten_at(nodes, i);
}

/// Reading back written nodes gives the nodes.
pub proof fn law_flatten_roundtrip(nodes: Seq<[u8; 32]>)
    ensures
        unflatten(flatten(nodes)) == nodes,
{
    let data = flatten(nodes);
    lemma_flatten_len(nodes);
    assert forall|i: int| 0 <= i < nodes.len() implies unflatten(data)[i] == nodes[i] by {
        lemma_flatten_at(nodes, i);
        let h = choose|h: [u8; 32]| h@ == data.subrange(32 * i, 32 * i + 32);
        assert(nodes[i]@ == data.subrange(32 * i, 32 * i + 32));
        lemma_digest_ext(h, nodes[i]);
    }
    assert(unflatten(data) =~= nodes);
}

fn flatten_nodes(nodes: &[[u8; 32]]) -> (r: Vec<u8>)
    ensures
        r@ == flatten(nodes@),
{
    let mut r: Vec<u8> = Vec::new();
    let mut i: usize = 0;
    assert(nodes@.take(0) =~= Seq::empty());
    while i < nodes.len()
        invariant
            i <= nodes@.len(),
            r@ == flatten(nodes@.take(i as int)),
        decreases nodes@.len() - i,
    {
        extend(&mut r, nodes[i].as_slice());
        proof {
            let next = nodes@.take(i + 1);
            assert(next.drop_last() =~= nodes@.take(i as int));
        }
        i = i + 1;
    }
    assert(nodes@.take(i as int) =~= nodes@);
    r
}

/// The nodes of `tree`, written one after the other.
pub(crate) fn flat_nodes(tree: &MerkleTree) -> (r: Vec<u8>)
    ensures
        r@ == flatten(tree.spec_nodes()),
{
    flatten_nodes(tree.nodes())
}

/// A dataset as it is read: its attribute, its stored tree and its chunks.
#[derive(Debug, Clone)]
pub struct Dataset<'a> {
    /// The root attribute.
    pub merkle_attr: MerkleAttr,
    /// The stored nodes, 32 bytes each.
    pub tree_nodes: Vec<u8>,
    /// The chunks, in leaf order.
    pub chunks: Vec<&'a [u8]>,
}

/// The root reached from `chunk` at position `idx` through its stored siblings.
pub open spec fn path_root(alg: HashAlg, data: Seq<u8>, chunk: Seq<u8>, idx: int) -> [u8; 32] {
    fold_path(
        alg,
        leaf_digest(alg, chunk),
        idx as nat,
        path_siblings(unflatten(data), stored_padded(data.len()) - 1 + idx),
    )
}

/// The answer to a check of chunk `idx`: its hash has to be the stored leaf, and
/// has to lead to `root`.
pub open spec fn chunk_answer(
    alg: HashAlg,
    root: [u8; 32],
    data: Seq<u8>,
    chunks: Seq<Seq<u8>>,
    idx: int,
) -> Result<bool, MerkleError> {
    if idx >= chunks.len() {
        Err(MerkleError::HyperslabOutOfBounds { idx: idx as usize })
    } else {
        match stored_tree_error(data.len()) {
            Some(e) => Err(e),
            None => if chunks.len() > stored_padded(data.len()) {
                Err(MerkleError::MissingChunkGridMetadata)
            } else if leaf_digest(alg, chunks[idx]) == stored_leaf(data, idx) && path_root(
                alg,
                data,
                chunks[idx],
                idx,
            ) == root {
                Ok(true)
            } else {
                Err(MerkleError::HashMismatch { chunk_idx: idx as usize })
            },
        }
    }
}

/// The first chunk at or after `from` that does not match its stored leaf.
pub open spec fn first_mismatch(
    alg: HashAlg,
    data: Seq<u8>,
    chunks: Seq<Seq<u8>>,
    from: int,
) -> Option<int>
    decreases chunks.len() - from,
{
    if from >= chunks.len() {
        None
    } else if leaf_digest(alg, chunks[from]) != stored_leaf(data, from) {
        Some(from)
    } else {
        first_mismatch(alg, data, chunks, from + 1)
    }
}

/// The root of the tree over `chunks`.
pub open spec fn rebuilt_root(alg: HashAlg, chunks: Seq<Seq<u8>>) -> [u8; 32] {
    tree_nodes(alg, leaf_digests(alg, chunks))[0]
}

/// The answer to a check of the whole dataset: every chunk has to match its
/// stored leaf, and both the tree rebuilt from the chunks and the stored one have
/// to have the root `root`.
pub open spec fn dataset_answer(
    alg: HashAlg,
    root: [u8; 32],
    data: Seq<u8>,
    chunks: Seq<Seq<u8>>,
) -> Result<bool, MerkleError> {
    if chunks.len() == 0 {
        Err(MerkleError::MissingChunkGridMetadata)
    } else {
        match stored_tree_error(data.len()) {
            Some(e) => Err(e),
            None => if chunks.len() > stored_padded(data.len()) {
                Err(MerkleError::MissingChunkGridMetadata)
            } else {
                match first_mismatch(alg, data, chunks, 0) {
                    Some(i) => Err(MerkleError::HashMismatch { chunk_idx: i as usize }),
                    None => if rebuilt_root(alg, chunks) == root && unflatten(data)[0] == root {
                        Ok(true)
                    } else {
                        Err(MerkleError::CompanionTampered)
                    },
                }
            },
        }
    }
}

/// The answer to a check of the stored tree against the attribute.
pub open spec fn root_answer(attr: MerkleAttr, data: Seq<u8>) -> Result<bool, MerkleError> {
    if is_zero(attr.companion_hash@) {
        if attr.intact() {
            Ok(true)
        } else {
            Err(MerkleError::InvalidAttribute { reason: InvalidAttrReason::IntegrityMismatch })
        }
    } else if companion_answer(attr.companion_hash@, data) == CompanionVerifyResult::Valid {
        Ok(true)
    } else {
        Err(MerkleError::CompanionTampered)
    }
}

/// The leaf level after `h` has been appended at position `idx`.
pub open spec fn extended_leaves(data: Seq<u8>, idx: nat, h: [u8; 32]) -> Seq<[u8; 32]> {
    let leaves = stored_leaves(data);
    if idx <= leaves.len() {
        leaves.take(idx as int).push(h)
    } else {
        leaves.push(h)
    }
}

/// The leaf level after the hash at position `idx` has been replaced.
pub open spec fn updated_leaves(data: Seq<u8>, idx: nat, h: [u8; 32]) -> Seq<[u8; 32]> {
    let leaves = stored_leaves(data);
    if idx < leaves.len() {
        leaves.update(idx as int, h)
    } else {
        leaves
    }
}

/// Whether attribute and stored tree are those of the tree over `leaves`.
pub open spec fn stores_tree(
    attr: MerkleAttr,
    data: Seq<u8>,
    alg: HashAlg,
    leaves: Seq<[u8; 32]>,
) -> bool {
    let nodes = tree_nodes(alg, leaves);
    &&& data == flatten(nodes)
    &&& attr.root == nodes[0]
    &&& attr.algorithm == alg
    &&& attr.intact()
    &&& attr.companion_hash == sha256_digest(flatten(nodes))
    &&& is_zero(attr.grid_hash@)
}

impl<'a> Dataset<'a> {
    /// The bytes of each chunk.
    pub open spec fn chunk_views(&self) -> Seq<Seq<u8>> {
        slice_views(self.chunks@)
    }

    /// A dataset with a copy of `tree_nodes`.
    pub fn new(merkle_attr: MerkleAttr, tree_nodes: &[u8], chunks: Vec<&'a [u8]>) -> (d: Self)
        ensures
            d.merkle_attr == merkle_attr,
            d.tree_nodes@ == tree_nodes@,
            d.chunks@ == chunks@,
    {
        let mut copy: Vec<u8> = Vec::with_capacity(tree_nodes.len());
        extend(&mut copy, tree_nodes);
        assert(copy@ =~= tree_nodes@);
        Dataset { merkle_attr, tree_nodes: copy, chunks }
    }

    /// A dataset that takes `tree_nodes` over.
    pub fn from_owned(merkle_attr: MerkleAttr, tree_nodes: Vec<u8>, chunks: Vec<&'a [u8]>) -> (d:
        Self)
        ensures
            d.merkle_attr == merkle_attr,
            d.tree_nodes@ == tree_nodes@,
            d.chunks@ == chunks@,
    {
        Dataset { merkle_attr, tree_nodes, chunks }
    }

    /// The number of chunks.
    pub fn chunk_count(&self) -> (n: usize)
        ensures
            n == self.chunks@.len(),
    {
        self.chunks.len()
    }

    /// Reads the stored tree. Every leaf position counts as a leaf.
    pub fn reconstruct_tree(&self) -> (r: Result<MerkleTree, MerkleError>)
        ensures
            match stored_tree_error(self.tree_nodes@.len()) {
                Some(e) => r == Err::<MerkleTree, MerkleError>(e),
                None => {
                    &&& r is Ok
                    &&& r->Ok_0.wf()
                    &&& r->Ok_0.spec_nodes() == unflatten(self.tree_nodes@)
                    &&& flatten(r->Ok_0.spec_nodes()) == self.tree_nodes@
                    &&& r->Ok_0.spec_padded() == stored_padded(self.tree_nodes@.len())
                    &&& r->Ok_0.spec_leaf_count() == r->Ok_0.spec_padded()
                    &&& r->Ok_0.spec_alg() == self.merkle_attr.algorithm
                },
            },
    {
        let len: usize = self.tree_nodes.len();
        if len == 0 {
            return Err(MerkleError::MissingChunkGridMetadata);
        }
        if len % 32 != 0 {
            return Err(MerkleError::InvalidAttribute { reason: InvalidAttrReason::WrongSize });
        }
        let node_count: usize = len / 32;
        if node_count % 2 == 0 {
            return Err(MerkleError::InvalidAttribute { reason: InvalidAttrReason::WrongSize });
        }
        let padded_count: usize = (node_count + 1) / 2;
        if !is_power_of_two(padded_count) {
            return Err(MerkleError::InvalidAttribute { reason: InvalidAttrReason::WrongSize });
        }
        let mut nodes: Vec<[u8; 32]> = Vec::with_capacity(node_count);
        let mut i: usize = 0;
        assert(self.tree_nodes@.subrange(0, 0) =~= flatten(Seq::<[u8; 32]>::empty()));
        while i < node_count
            invariant
                i <= node_count,
                len == self.tree_nodes@.len(),
                len == 32 * node_count,
                nodes@.len() == i,
                flatten(nodes@) == self.tree_nodes@.subrange(0, 32 * i),
            decreases node_count - i,
        {
            let h: [u8; 32] = digest_at(self.tree_nodes.as_slice(), 32 * i);
            let ghost before = nodes@;
            nodes.push(h);
            proof {
                assert(nodes@.drop_last() =~= before);
                assert(self.tree_nodes@.subrange(0, 32 * i) + h@ =~= self.tree_nodes@.subrange(
                    0,
                    32 * i + 32,
                ));
            }
            i = i + 1;
        }
        proof {
            assert(self.tree_nodes@.subrange(0, 32 * i) =~= self.tree_nodes@);
            law_flatten_roundtrip(nodes@);
            lemma_pow2_below_max(padded_count);
        }
        Ok(MerkleTree::from_parts(nodes, padded_count, padded_count, self.merkle_attr.algorithm))
    }
}

/// Checks the stored tree: against the companion hash if there is one, else
/// only that the attribute itself is intact.
pub fn verify_root(d: &Dataset<'_>) -> (r: Result<bool, MerkleError>)
    ensures
        r == root_answer(d.merkle_attr, d.tree_nodes@),
{
    if d.merkle_attr.has_companion() {
        match d.merkle_attr.verify_companion(d.tree_nodes.as_slice()) {
            CompanionVerifyResult::Valid => Ok(true),
            CompanionVerifyResult::HashMismatch => Err(MerkleError::CompanionTampered),
            CompanionVerifyResult::NoCompanion => Ok(true),
        }
    } else {
        let packed: [u8; 129] = d.merkle_attr.pack();
        proof {
            let p = d.merkle_attr.packed();
            assert(p.subrange(0, 32) =~= d.merkle_attr.root@);
            assert(p.subrange(33, 65) =~= d.merkle_attr.integrity@);
            assert(p[32] == d.merkle_attr.algorithm.spec_id());
            let expected = integrity_digest(d.merkle_attr.algorithm, d.merkle_attr.root@);
            if expected@ == d.merkle_attr.integrity@ {
                lemma_digest_ext(expected, d.merkle_attr.integrity);
            }
        }
        match MerkleAttrRef::from_slice(packed.as_slice()) {
            Ok(attr_ref) => match attr_ref.verify_integrity() {
                Ok(_) => Ok(true),
                Err(e) => Err(e),
            },
            Err(_) => Err(
                MerkleError::InvalidAttribute { reason: InvalidAttrReason::WrongSize },
            ),
        }
    }
}

/// Checks chunk `idx`: hashes it, compares the hash with its stored leaf, and
/// walks from it along the stored siblings to the root in the attribute.
pub fn verify_chunk(d: &Dataset<'_>, idx: usize) -> (r: Result<bool, MerkleError>)
    ensures
        r == chunk_answer(
            d.merkle_attr.algorithm,
            d.merkle_attr.root,
            d.tree_nodes@,
            d.chunk_views(),
            idx as int,
        ),
{
    if idx >= d.chunk_count() {
        return Err(MerkleError::HyperslabOutOfBounds { idx });
    }
    let tree: MerkleTree = match d.reconstruct_tree() {
        Ok(t) => t,
        Err(e) => {
            return Err(e);
        },
    };
    if d.chunk_count() > tree.leaf_count() {
        return Err(MerkleError::MissingChunkGridMetadata);
    }
    let leads_to_root: bool = match tree.inclusion_proof(idx) {
        Some(path) => MerkleTree::verify_proof_standalone(
            &d.merkle_attr.root,
            idx,
            d.chunks[idx],
            &path,
        ),
        None => false,
    };
    if tree.verify_chunk(idx, d.chunks[idx]) && leads_to_root {
        Ok(true)
    } else {
        Err(MerkleError::HashMismatch { chunk_idx: idx })
    }
}

/// Tells which chunks have an uncommitted write.
pub trait PendingChunks {
    /// Which chunks have uncommitted writes. Nothing is known of it unless an
    /// implementation states it.
    closed spec fn spec_pending(&self, chunk_idx: u64) -> bool {
        arbitrary()
    }

    /// Whether chunk `chunk_idx` has an uncommitted write.
    fn is_pending(&self, chunk_idx: u64) -> (r: bool)
        ensures
            r == self.spec_pending(chunk_idx),
    ;
}

impl PendingChunks for BTreeSet<u64> {
    open spec fn spec_pending(&self, chunk_idx: u64) -> bool {
        self@.contains(chunk_idx)
    }

    fn is_pending(&self, chunk_idx: u64) -> (r: bool) {
        self.contains(&chunk_idx)
    }
}

impl PendingChunks for [u64] {
    open spec fn spec_pending(&self, chunk_idx: u64) -> bool {
        self@.contains(chunk_idx)
    }

    fn is_pending(&self, chunk_idx: u64) -> (r: bool) {
        let mut i: usize = 0;
        while i < self.len()
            invariant
                i <= self@.len(),
                forall|j: int| 0 <= j < i ==> self@[j] != chunk_idx,
            decreases self@.len() - i,
        {
            if self[i] == chunk_idx {
                return true;
            }
            i = i + 1;
        }
        false
    }
}

/// As `verify_chunk`, but a chunk with an uncommitted write is reported as such.
pub fn verify_chunk_with_pending<P: PendingChunks + ?Sized>(
    d: &Dataset<'_>,
    idx: usize,
    pending: &P,
) -> (r: Result<bool, MerkleError>)
    ensures
        r == if pending.spec_pending(idx as u64) {
            Err::<bool, MerkleError>(MerkleError::NoncePending)
        } else {
            chunk_answer(
                d.merkle_attr.algorithm,
                d.merkle_attr.root,
                d.tree_nodes@,
                d.chunk_views(),
                idx as int,
            )
        },
{
    if pending.is_pending(idx as u64) {
        return Err(MerkleError::NoncePending);
    }
    verify_chunk(d, idx)
}

/// Checks every chunk against its stored leaf, then rebuilds the tree from the
/// chunks and compares its root, and the stored one, with the attribute. The
/// first mismatching chunk is reported.
pub fn verify_dataset(d: &Dataset<'_>) -> (r: Result<bool, MerkleError>)
    ensures
        r == dataset_answer(
            d.merkle_attr.algorithm,
            d.merkle_attr.root,
            d.tree_nodes@,
            d.chunk_views(),
        ),
{
    if d.chunks.len() == 0 {
        return Err(MerkleError::MissingChunkGridMetadata);
    }
    let stored_tree: MerkleTree = match d.reconstruct_tree() {
        Ok(t) => t,
        Err(e) => {
            return Err(e);
        },
    };
    if d.chunks.len() > stored_tree.leaf_count() {
        return Err(MerkleError::MissingChunkGridMetadata);
    }
    let ghost alg = d.merkle_attr.algorithm;
    let mut idx: usize = 0;
    while idx < d.chunks.len()
        invariant
            idx <= d.chunks@.len() <= stored_padded(d.tree_nodes@.len()),
            alg == d.merkle_attr.algorithm,
            stored_tree_error(d.tree_nodes@.len()) is None,
            stored_tree.wf(),
            stored_tree.spec_nodes() == unflatten(d.tree_nodes@),
            stored_tree.spec_padded() == stored_padded(d.tree_nodes@.len()),
            stored_tree.spec_leaf_count() == stored_tree.spec_padded(),
            first_mismatch(alg, d.tree_nodes@, d.chunk_views(), 0) == first_mismatch(
                alg,
                d.tree_nodes@,
                d.chunk_views(),
                idx as int,
            ),
        decreases d.chunks@.len() - idx,
    {
        let computed_hash: [u8; 32] = d.merkle_attr.algorithm.hash_leaf(d.chunks[idx]);
        match stored_tree.leaf_hash(idx) {
            Some(stored_hash) => {
                if !constant_time_eq(&computed_hash, stored_hash) {
                    return Err(MerkleError::HashMismatch { chunk_idx: idx });
                }
            },
            None => {
                assert(false);
            },
        }
        idx = idx + 1;
    }
    proof {
        let padded = stored_padded(d.tree_nodes@.len());
        lemma_next_pow2_monotonic(d.chunks@.len(), padded);
        lemma_next_pow2_fixed(padded);
    }
    let rebuilt: MerkleTree = MerkleTree::from_chunks(d.chunks.as_slice(), d.merkle_attr.algorithm);
    if constant_time_eq(rebuilt.root(), &d.merkle_attr.root) && constant_time_eq(
        stored_tree.root(),
        &d.merkle_attr.root,
    ) {
        Ok(true)
    } else {
        Err(MerkleError::CompanionTampered)
    }
}

fn stored_leaf_level(tree: &MerkleTree) -> (r: Vec<[u8; 32]>)
    requires
        tree.wf(),
        tree.spec_leaf_count() == tree.spec_padded(),
    ensures
        r@ == tree.spec_nodes().skip(tree.spec_padded() - 1),
{
    let mut r: Vec<[u8; 32]> = Vec::with_capacity(tree.leaf_count());
    let mut i: usize = 0;
    while i < tree.leaf_count()
        invariant
            i <= tree.spec_leaf_count(),
            tree.wf(),
            tree.spec_leaf_count() == tree.spec_padded(),
            r@.len() == i,
            forall|j: int|
                0 <= j < i ==> #[trigger] r@[j] == tree.spec_nodes()[tree.spec_padded() - 1 + j],
        decreases tree.spec_leaf_count() - i,
    {
        match tree.leaf_hash(i) {
            Some(h) => {
                r.push(*h);
            },
            None => {
                assert(false);
            },
        }
        i = i + 1;
    }
    assert(r@ =~= tree.spec_nodes().skip(tree.spec_padded() - 1));
    r
}

fn store_tree(d: &mut Dataset<'_>, leaves: &[[u8; 32]])
    requires
        next_pow2(leaves@.len()) <= usize::MAX,
    ensures
        final(d).chunks@ == old(d).chunks@,
        stores_tree(
            final(d).merkle_attr,
            final(d).tree_nodes@,
            old(d).merkle_attr.algorithm,
            leaves@,
        ),
{
    let new_tree: MerkleTree = MerkleTree::from_leaf_hashes(leaves, d.merkle_attr.algorithm);
    d.tree_nodes = flat_nodes(&new_tree);
    let companion_hash: [u8; 32] = compute_sha256(d.tree_nodes.as_slice());
    d.merkle_attr = MerkleAttr::from_tree_with_companion(&new_tree, companion_hash);
}

/// Appends the hash of a new chunk at position `idx`, which has to be the
/// number of chunks so far, and rebuilds the tree.
pub fn extend_merkle(d: &mut Dataset<'_>, idx: usize, h: [u8; 32]) -> (r: Result<(), MerkleError>)
    ensures
        final(d).chunks@ == old(d).chunks@,
        if idx != old(d).chunks@.len() {
            &&& r == Err::<(), MerkleError>(MerkleError::HyperslabOutOfBounds { idx })
            &&& *final(d) == *old(d)
        } else {
            match stored_tree_error(old(d).tree_nodes@.len()) {
                Some(e) => r == Err::<(), MerkleError>(e) && *final(d) == *old(d),
                None => {
                    &&& r == Ok::<(), MerkleError>(())
                    &&& stores_tree(
                        final(d).merkle_attr,
                        final(d).tree_nodes@,
                        old(d).merkle_attr.algorithm,
                        extended_leaves(old(d).tree_nodes@, idx as nat, h),
                    )
                },
            }
        },
{
    if idx != d.chunk_count() {
        return Err(MerkleError::HyperslabOutOfBounds { idx });
    }
    let tree: MerkleTree = match d.reconstruct_tree() {
        Ok(t) => t,
        Err(e) => {
            return Err(e);
        },
    };
    let len: usize = d.tree_nodes.len();
    let mut leaves: Vec<[u8; 32]> = stored_leaf_level(&tree);
    let ghost all = leaves@;
    if idx < leaves.len() {
        leaves.truncate(idx);
    }
    assert(idx <= all.len() ==> leaves@ =~= all.take(idx as int));
    leaves.push(h);
    proof {
        lemma_next_pow2(leaves@.len());
        assert(leaves@.len() <= (len / 32 + 1) / 2 + 1);
    }
    store_tree(d, leaves.as_slice());
    Ok(())
}

/// Replaces the hash of chunk `idx` and rebuilds the tree.
pub fn update_merkle(d: &mut Dataset<'_>, idx: usize, h: [u8; 32]) -> (r: Result<(), MerkleError>)
    ensures
        final(d).chunks@ == old(d).chunks@,
        if idx >= old(d).chunks@.len() {
            &&& r == Err::<(), MerkleError>(MerkleError::HyperslabOutOfBounds { idx })
            &&& *final(d) == *old(d)
        } else {
            match stored_tree_error(old(d).tree_nodes@.len()) {
                Some(e) => r == Err::<(), MerkleError>(e) && *final(d) == *old(d),
                None => {
                    &&& r == Ok::<(), MerkleError>(())
                    &&& stores_tree(
                        final(d).merkle_attr,
                        final(d).tree_nodes@,
                        old(d).merkle_attr.algorithm,
                        updated_leaves(old(d).tree_nodes@, idx as nat, h),
                    )
                },
            }
        },
{
    if idx >= d.chunk_count() {
        return Err(MerkleError::HyperslabOutOfBounds { idx });
    }
    let tree: MerkleTree = match d.reconstruct_tree() {
        Ok(t) => t,
        Err(e) => {
            return Err(e);
        },
    };
    let len: usize = d.tree_nodes.len();
    let mut leaves: Vec<[u8; 32]> = stored_leaf_level(&tree);
    if idx < leaves.len() {
        leaves.set(idx, h);
    }
    proof {
        lemma_next_pow2(leaves@.len());
        assert(leaves@.len() <= (len / 32 + 1) / 2);
    }
    store_tree(d, leaves.as_slice());
    Ok(())
}

// ---------------------------------------------------------------------------
// Laws
// ---------------------------------------------------------------------------

proof fn lemma_stored_shape(alg: HashAlg, leaves: Seq<[u8; 32]>)
    ensures
        ({
            let data = flatten(tree_nodes(alg, leaves));
            &&& stored_tree_error(data.len()) is None
            &&& stored_padded(data.len()) == next_pow2(leaves.len())
            &&& unflatten(data) == tree_nodes(alg, leaves)
            &&& stored_leaves(data) == padded_leaves(alg, leaves)
        }),
{
    let nodes = tree_nodes(alg, leaves);
    let n = next_pow2(leaves.len());
    let padded = padded_leaves(alg, leaves);
    let data = flatten(nodes);
    lemma_next_pow2(leaves.len());
    assert(padded.len() == n);
    assert(nodes.len() == 2 * n - 1);
    assert(data.len() == 32 * (2 * n - 1)) by {
        lemma_flatten_len(nodes);
    }
    assert(stored_padded(data.len()) == n);
    assert(stored_tree_error(data.len()) is None);
    law_flatten_roundtrip(nodes);
    assert(stored_leaves(data) == nodes.skip(n - 1));
    assert(nodes.skip(n - 1) =~= padded) by {
        lemma_full_tree(alg, padded);
        assert forall|i: int| 0 <= i < n implies nodes.skip(n - 1)[i] == padded[i] by {
            assert(padded[i] == nodes[n - 1 + i]);
        }
    }
}

proof fn lemma_no_mismatch(alg: HashAlg, data: Seq<u8>, chunks: Seq<Seq<u8>>, from: int)
    requires
        0 <= from,
        forall|i: int|
            from <= i < chunks.len() ==> #[trigger] leaf_digest(alg, chunks[i]) == stored_leaf(
                data,
                i,
            ),
    ensures
        first_mismatch(alg, data, chunks, from) is None,
    decreases chunks.len() - from,
{
    if from < chunks.len() {
        lemma_no_mismatch(alg, data, chunks, from + 1);
    }
}

proof fn lemma_all_match(alg: HashAlg, data: Seq<u8>, chunks: Seq<Seq<u8>>, from: int, i: int)
    requires
        0 <= from <= i < chunks.len(),
        first_mismatch(alg, data, chunks, from) is None,
    ensures
        leaf_digest(alg, chunks[i]) == stored_leaf(data, i),
    decreases chunks.len() - from,
{
    if from < i {
        lemma_all_match(alg, data, chunks, from + 1, i);
    }
}

/// A stored tree reads back as the tree that was stored: same nodes, and its
/// leaf level is the padded leaf level.
pub proof fn law_stored_tree_reads_back(alg: HashAlg, leaves: Seq<[u8; 32]>)
    ensures
        stored_tree_error(flatten(tree_nodes(alg, leaves)).len()) is None,
        unflatten(flatten(tree_nodes(alg, leaves))) == tree_nodes(alg, leaves),
        stored_leaves(flatten(tree_nodes(alg, leaves))) == padded_leaves(alg, leaves),
{
    lemma_stored_shape(alg, leaves);
}

/// Chunks verify against the tree that was built over them.
pub proof fn law_fresh_dataset_verifies(
    attr: MerkleAttr,
    data: Seq<u8>,
    alg: HashAlg,
    chunks: Seq<Seq<u8>>,
)
    requires
        chunks.len() > 0,
        stores_tree(attr, data, alg, leaf_digests(alg, chunks)),
    ensures
        dataset_answer(alg, attr.root, data, chunks) == Ok::<bool, MerkleError>(true),
{
    let leaves = leaf_digests(alg, chunks);
    lemma_stored_shape(alg, leaves);
    lemma_next_pow2(leaves.len());
    lemma_prefix_matches(alg, data, chunks, leaves);
}

/// Each chunk verifies against the tree that was built over all of them.
pub proof fn law_fresh_chunk_verifies(
    attr: MerkleAttr,
    data: Seq<u8>,
    alg: HashAlg,
    chunks: Seq<Seq<u8>>,
    i: int,
)
    requires
        0 <= i < chunks.len(),
        stores_tree(attr, data, alg, leaf_digests(alg, chunks)),
    ensures
        chunk_answer(alg, attr.root, data, chunks, i) == Ok::<bool, MerkleError>(true),
{
    let leaves = leaf_digests(alg, chunks);
    law_fresh_dataset_verifies(attr, data, alg, chunks);
    lemma_stored_shape(alg, leaves);
    lemma_next_pow2(leaves.len());
    lemma_full_tree(alg, padded_leaves(alg, leaves));
    law_verified_dataset_has_verified_chunks(alg, attr.root, data, chunks, i);
}

proof fn lemma_prefix_matches(
    alg: HashAlg,
    data: Seq<u8>,
    chunks: Seq<Seq<u8>>,
    leaves: Seq<[u8; 32]>,
)
    requires
        data == flatten(tree_nodes(alg, leaves)),
        chunks.len() <= leaves.len(),
        forall|i: int| 0 <= i < chunks.len() ==> #[trigger] leaves[i] == leaf_digest(alg, chunks[i]),
    ensures
        first_mismatch(alg, data, chunks, 0) is None,
{
    lemma_stored_shape(alg, leaves);
    lemma_next_pow2(leaves.len());
    let n = next_pow2(leaves.len());
    let padded = padded_leaves(alg, leaves);
    assert forall|i: int| 0 <= i < chunks.len() implies #[trigger] leaf_digest(alg, chunks[i])
        == stored_leaf(data, i) by {
        assert(stored_leaves(data)[i] == padded[i]);
        assert(padded[i] == leaves[i]);
    }
    lemma_no_mismatch(alg, data, chunks, 0);
}

/// After a dataset that verifies has been extended by the hash of a new chunk,
/// it verifies together with that chunk.
pub proof fn law_extended_dataset_verifies(
    alg: HashAlg,
    root: [u8; 32],
    data: Seq<u8>,
    chunks: Seq<Seq<u8>>,
    chunk: Seq<u8>,
    attr: MerkleAttr,
    new_data: Seq<u8>,
)
    requires
        dataset_answer(alg, root, data, chunks) == Ok::<bool, MerkleError>(true),
        stores_tree(
            attr,
            new_data,
            alg,
            extended_leaves(data, chunks.len(), leaf_digest(alg, chunk)),
        ),
    ensures
        dataset_answer(alg, attr.root, new_data, chunks.push(chunk)) == Ok::<bool, MerkleError>(
            true,
        ),
        stores_tree(attr, new_data, alg, leaf_digests(alg, chunks.push(chunk))),
{
    let leaves = extended_leaves(data, chunks.len(), leaf_digest(alg, chunk));
    let all = chunks.push(chunk);
    lemma_stored_shape(alg, leaves);
    lemma_next_pow2(leaves.len());
    lemma_len_facts(data);
    assert forall|i: int| 0 <= i < all.len() implies #[trigger] leaves[i] == leaf_digest(
        alg,
        all[i],
    ) by {
        if i < chunks.len() {
            lemma_all_match(alg, data, chunks, 0, i);
        }
    }
    assert(leaves =~= leaf_digests(alg, all));
    lemma_prefix_matches(alg, new_data, all, leaves);
}

proof fn lemma_len_facts(data: Seq<u8>)
    requires
        stored_tree_error(data.len()) is None,
    ensures
        unflatten(data).len() == 2 * stored_padded(data.len()) - 1,
        stored_leaves(data).len() == stored_padded(data.len()),
{
}

/// After chunk `idx` of a dataset that is stored with the tree over its chunks
/// has been overwritten and its hash replaced, the dataset verifies with the new
/// content, and is again stored with the tree over its chunks.
pub proof fn law_updated_dataset_verifies(
    alg: HashAlg,
    old_attr: MerkleAttr,
    data: Seq<u8>,
    chunks: Seq<Seq<u8>>,
    idx: nat,
    chunk: Seq<u8>,
    attr: MerkleAttr,
    new_data: Seq<u8>,
)
    requires
        stores_tree(old_attr, data, alg, leaf_digests(alg, chunks)),
        idx < chunks.len(),
        stores_tree(attr, new_data, alg, updated_leaves(data, idx, leaf_digest(alg, chunk))),
    ensures
        dataset_answer(alg, attr.root, new_data, chunks.update(idx as int, chunk)) == Ok::<
            bool,
            MerkleError,
        >(true),
        stores_tree(attr, new_data, alg, leaf_digests(alg, chunks.update(idx as int, chunk))),
{
    let before = leaf_digests(alg, chunks);
    let level = updated_leaves(data, idx, leaf_digest(alg, chunk));
    let all = chunks.update(idx as int, chunk);
    let leaves = leaf_digests(alg, all);
    lemma_stored_shape(alg, before);
    lemma_next_pow2(before.len());
    assert(level =~= padded_leaves(alg, leaves));
    lemma_next_pow2_fixed(level.len());
    assert(padded_leaves(alg, level) =~= level);
    law_fresh_dataset_verifies(attr, new_data, alg, all);
}

/// A chunk that was replaced by one of another hash is named, by a check of the
/// whole dataset and by a check of that chunk; the other chunks still pass where
/// the inner nodes of the stored tree are the hashes of their children.
pub proof fn law_tampered_chunk_is_detected(
    alg: HashAlg,
    root: [u8; 32],
    data: Seq<u8>,
    chunks: Seq<Seq<u8>>,
    idx: usize,
    chunk: Seq<u8>,
)
    requires
        dataset_answer(alg, root, data, chunks) == Ok::<bool, MerkleError>(true),
        idx < chunks.len(),
        leaf_digest(alg, chunk) != leaf_digest(alg, chunks[idx as int]),
    ensures
        ({
            let tampered = chunks.update(idx as int, chunk);
            &&& dataset_answer(alg, root, data, tampered) == Err::<bool, MerkleError>(
                MerkleError::HashMismatch { chunk_idx: idx },
            )
            &&& chunk_answer(alg, root, data, tampered, idx as int) == Err::<bool, MerkleError>(
                MerkleError::HashMismatch { chunk_idx: idx },
            )
            &&& consistent_storage(alg, data) ==> forall|i: int|
                0 <= i < chunks.len() && i != idx ==> #[trigger] chunk_answer(
                    alg,
                    root,
                    data,
                    tampered,
                    i,
                ) == Ok::<bool, MerkleError>(true)
        }),
{
    let tampered = chunks.update(idx as int, chunk);
    lemma_all_match(alg, data, chunks, 0, idx as int);
    lemma_mismatch_at(alg, data, chunks, tampered, 0, idx as int);
    if consistent_storage(alg, data) {
        assert forall|i: int| 0 <= i < chunks.len() && i != idx implies #[trigger] chunk_answer(
            alg,
            root,
            data,
            tampered,
            i,
        ) == Ok::<bool, MerkleError>(true) by {
            law_verified_dataset_has_verified_chunks(alg, root, data, chunks, i);
        }
    }
}

proof fn lemma_mismatch_at(
    alg: HashAlg,
    data: Seq<u8>,
    chunks: Seq<Seq<u8>>,
    tampered: Seq<Seq<u8>>,
    from: int,
    idx: int,
)
    requires
        0 <= from <= idx < chunks.len(),
        tampered.len() == chunks.len(),
        first_mismatch(alg, data, chunks, from) is None,
        forall|i: int| from <= i < idx ==> #[trigger] tampered[i] == chunks[i],
        leaf_digest(alg, tampered[idx]) != stored_leaf(data, idx),
    ensures
        first_mismatch(alg, data, tampered, from) == Some(idx),
    decreases idx - from,
{
    if from < idx {
        assert(tampered[from] == chunks[from]);
        lemma_mismatch_at(alg, data, chunks, tampered, from + 1, idx);
    }
}

/// Two lists of chunks that both verify against the same stored tree have the
/// same hashes, as far as both go.
pub proof fn law_stored_tree_binds_chunks(
    alg: HashAlg,
    root: [u8; 32],
    data: Seq<u8>,
    a: Seq<Seq<u8>>,
    b: Seq<Seq<u8>>,
    i: int,
)
    requires
        dataset_answer(alg, root, data, a) == Ok::<bool, MerkleError>(true),
        dataset_answer(alg, root, data, b) == Ok::<bool, MerkleError>(true),
        0 <= i < a.len(),
        i < b.len(),
    ensures
        leaf_digest(alg, a[i]) == leaf_digest(alg, b[i]),
{
    lemma_all_match(alg, data, a, 0, i);
    lemma_all_match(alg, data, b, 0, i);
}

/// Whether each inner node of a stored tree is the hash of its children.
pub open spec fn consistent_storage(alg: HashAlg, data: Seq<u8>) -> bool {
    nodes_consistent(alg, unflatten(data), stored_padded(data.len()) as int)
}

/// A dataset that verifies passes the check of each of its chunks, where the
/// inner nodes of the stored tree are the hashes of their children.
pub proof fn law_verified_dataset_has_verified_chunks(
    alg: HashAlg,
    root: [u8; 32],
    data: Seq<u8>,
    chunks: Seq<Seq<u8>>,
    i: int,
)
    requires
        dataset_answer(alg, root, data, chunks) == Ok::<bool, MerkleError>(true),
        0 <= i < chunks.len(),
        consistent_storage(alg, data),
    ensures
        chunk_answer(alg, root, data, chunks, i) == Ok::<bool, MerkleError>(true),
{
    let padded = stored_padded(data.len());
    lemma_all_match(alg, data, chunks, 0, i);
    lemma_len_facts(data);
    lemma_climb(alg, unflatten(data), padded, padded, i as nat);
}

/// A dataset that verifies has a tree over its chunks with the root in the
/// attribute; another list of as many chunks that verifies under the same root is
/// the same, unless the digest has a collision.
pub proof fn law_root_binds_chunks(
    alg: HashAlg,
    root: [u8; 32],
    data: Seq<u8>,
    other: Seq<u8>,
    a: Seq<Seq<u8>>,
    b: Seq<Seq<u8>>,
    i: int,
)
    requires
        dataset_answer(alg, root, data, a) == Ok::<bool, MerkleError>(true),
        dataset_answer(alg, root, other, b) == Ok::<bool, MerkleError>(true),
        a.len() == b.len(),
        0 <= i < a.len(),
    ensures
        a[i] == b[i] || collision(alg),
{
    let n = next_pow2(a.len());
    let x = leaf_digests(alg, a);
    let y = leaf_digests(alg, b);
    lemma_next_pow2(a.len());
    lemma_full_tree(alg, padded_leaves(alg, x));
    lemma_full_tree(alg, padded_leaves(alg, y));
    lemma_climb(alg, tree_nodes(alg, x), n, n, i as nat);
    lemma_climb(alg, tree_nodes(alg, y), n, n, i as nat);
    assert(padded_leaves(alg, x)[i] == x[i]);
    assert(padded_leaves(alg, y)[i] == y[i]);
    lemma_fold_binds(
        alg,
        x[i],
        path_siblings(tree_nodes(alg, x), n - 1 + i),
        y[i],
        path_siblings(tree_nodes(alg, y), n - 1 + i),
        i as nat,
    );
    lemma_leaf_binds(alg, a[i], b[i]);
}

/// A stored tree whose hash differs from the one in the attribute is refused.
pub proof fn law_tampered_companion_is_detected(attr: MerkleAttr, data: Seq<u8>)
    requires
        !is_zero(attr.companion_hash@),
        sha256_digest(data)@ != attr.companion_hash@,
    ensures
        root_answer(attr, data) == Err::<bool, MerkleError>(MerkleError::CompanionTampered),
{
}

/// A dataset that verifies has a stored tree whose first node is the root, and
/// whose leaf nodes begin with the hashes of its chunks.
pub proof fn law_verified_dataset_matches_storage(
    alg: HashAlg,
    root: [u8; 32],
    data: Seq<u8>,
    chunks: Seq<Seq<u8>>,
    i: int,
)
    requires
        dataset_answer(alg, root, data, chunks) == Ok::<bool, MerkleError>(true),
        0 <= i < chunks.len(),
    ensures
        ({
            let leaves = (data.len() as int / 32 + 1) / 2;
            &&& data.len() == 32 * (2 * leaves - 1)
            &&& chunks.len() <= leaves
            &&& unflatten(data)[0] == root
            &&& unflatten(data)[leaves - 1 + i] == leaf_digest(alg, chunks[i])
            &&& tree_nodes(alg, leaf_digests(alg, chunks))[0] == root
        }),
{
    lemma_all_match(alg, data, chunks, 0, i);
}

/// A chunk that verifies is bound by the root: another chunk that verifies at the
/// same place under the same root, with a stored tree of the same size, is the same,
/// unless the digest has a collision.
pub proof fn law_root_binds_chunk(
    alg: HashAlg,
    root: [u8; 32],
    data: Seq<u8>,
    other: Seq<u8>,
    a: Seq<Seq<u8>>,
    b: Seq<Seq<u8>>,
    i: int,
)
    requires
        chunk_answer(alg, root, data, a, i) == Ok::<bool, MerkleError>(true),
        chunk_answer(alg, root, other, b, i) == Ok::<bool, MerkleError>(true),
        data.len() == other.len(),
        0 <= i < a.len(),
        i < b.len(),
    ensures
        a[i] == b[i] || collision(alg),
{
    let at = stored_padded(data.len()) - 1 + i;
    lemma_same_path_len(unflatten(data), unflatten(other), at);
    lemma_fold_binds(
        alg,
        leaf_digest(alg, a[i]),
        path_siblings(unflatten(data), at),
        leaf_digest(alg, b[i]),
        path_siblings(unflatten(other), at),
        i as nat,
    );
    lemma_leaf_binds(alg, a[i], b[i]);
}

proof fn lemma_same_path_len(a: Seq<[u8; 32]>, b: Seq<[u8; 32]>, i: int)
    ensures
        path_siblings(a, i).len() == path_siblings(b, i).len(),
    decreases i,
{
    if i > 0 {
        lemma_same_path_len(a, b, (i - 1) / 2);
    }
}

/// A chunk that is not the one whose hash is stored is refused, and so is every
/// chunk beyond the last.
pub proof fn law_wrong_chunk_is_refused(
    alg: HashAlg,
    root: [u8; 32],
    data: Seq<u8>,
    chunks: Seq<Seq<u8>>,
    i: usize,
)
    ensures
        i >= chunks.len() ==> chunk_answer(alg, root, data, chunks, i as int) == Err::<
            bool,
            MerkleError,
        >(MerkleError::HyperslabOutOfBounds { idx: i }),
        i < chunks.len() && data.len() == 0 ==> chunk_answer(alg, root, data, chunks, i as int)
            == Err::<bool, MerkleError>(MerkleError::MissingChunkGridMetadata),
        i < chunks.len() && stored_tree_error(data.len()) is None && chunks.len() <= (
        data.len() as int / 32 + 1) / 2 && leaf_digest(alg, chunks[i as int]) != unflatten(data)[(
        data.len() as int / 32 + 1) / 2 - 1 + i] ==> chunk_answer(
            alg,
            root,
            data,
            chunks,
            i as int,
        ) == Err::<bool, MerkleError>(MerkleError::HashMismatch { chunk_idx: i }),
{
}

/// What stands in for a tree has as many nodes as a tree of a power of two of
/// leaves; other sizes are refused.
pub proof fn law_stored_tree_has_tree_size(len: nat, k: nat)
    ensures
        stored_tree_error(0) == Some(MerkleError::MissingChunkGridMetadata),
        len == 32 * (2 * pow2(k) - 1) ==> stored_tree_error(len) is None,
        stored_tree_error(len) is None ==> exists|j: nat| len == 32 * (2 * #[trigger] pow2(j) - 1),
        len > 0 && stored_tree_error(len) is Some ==> stored_tree_error(len) == Some(
            MerkleError::InvalidAttribute { reason: InvalidAttrReason::WrongSize },
        ),
{
    if len == 32 * (2 * pow2(k) - 1) {
        lemma_pow2_pos(k);
        assert(stored_padded(len) == pow2(k));
        crate::grid_laws::law_powers_of_two_are_known(1, k);
    }
    if stored_tree_error(len) is None {
        let leaves = stored_padded(len);
        let j = crate::grid_laws::lemma_exponent(leaves);
        assert(len == 32 * (2 * pow2(j) - 1));
    }
}

/// Without a hash of stored nodes the check of a root goes by the integrity hash;
/// with one, by the nodes.
pub proof fn law_root_check_follows_attribute(attr: MerkleAttr, data: Seq<u8>)
    ensures
        (forall|i: int| 0 <= i < 32 ==> attr.companion_hash@[i] == 0) ==> (root_answer(attr, data)
            == Ok::<bool, MerkleError>(true) <==> attr.integrity == integrity_digest(
            attr.algorithm,
            attr.root@,
        )),
        (exists|i: int| 0 <= i < 32 && attr.companion_hash@[i] != 0) ==> (root_answer(attr, data)
            == Ok::<bool, MerkleError>(true) <==> sha256_digest(data)@ == attr.companion_hash@),
{
}

/// A dataset that is stored with a tree has the tree's nodes, their hash, the root
/// and its algorithm under an integrity hash, so that the check of the root passes
/// by the nodes, unless their hash is all zeros.
pub proof fn law_stored_tree_is_bound(
    attr: MerkleAttr,
    data: Seq<u8>,
    alg: HashAlg,
    leaves: Seq<[u8; 32]>,
)
    requires
        stores_tree(attr, data, alg, leaves),
    ensures
        data == flatten(tree_nodes(alg, leaves)),
        attr.root == tree_nodes(alg, leaves)[0],
        attr.algorithm == alg,
        attr.integrity == integrity_digest(alg, attr.root@),
        attr.companion_hash == sha256_digest(data),
        root_answer(attr, data) == Ok::<bool, MerkleError>(true),
{
}

/// Appending a chunk's hash keeps the hashes before it, and replacing one keeps the
/// others.
pub proof fn law_other_leaves_are_kept(data: Seq<u8>, idx: nat, h: [u8; 32], i: int)
    requires
        stored_tree_error(data.len()) is None,
        idx < (data.len() / 32 + 1) / 2,
        0 <= i < (data.len() as int / 32 + 1) / 2,
    ensures
        extended_leaves(data, idx, h).len() == idx + 1,
        extended_leaves(data, idx, h)[idx as int] == h,
        i < idx ==> extended_leaves(data, idx, h)[i] == unflatten(data)[(data.len() as int / 32 + 1)
            / 2 - 1 + i],
        updated_leaves(data, idx, h).len() == (data.len() / 32 + 1) / 2,
        updated_leaves(data, idx, h)[idx as int] == h,
        i != idx ==> updated_leaves(data, idx, h)[i] == unflatten(data)[(data.len() as int / 32 + 1)
            / 2 - 1 + i],
{
    lemma_len_facts(data);
}

} // verus!
