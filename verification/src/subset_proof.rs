//! Proving that delivered chunks are exactly the chunks a selection needs, and
//! that each is the chunk of the dataset behind a root.

use crate::attr::{chunk_grid_digest, MerkleAttr};
use crate::bytes::{le64_all, lemma_le64_all_len, lemma_le_len, push_le};
use crate::chunk_grid::{
    checked_padded_leaf_count, checked_total, chunk_coords_for_selection, chunk_counts, chunk_hit,
    compute_grid_hash, coord_to_leaf_index, coord_views, grid_error, grid_padded,
    grid_preimage, in_grid,
    leaf_index, lemma_checked_total, lemma_row_major_bound, lemma_touched, touched_chunks,
    validate_grid_shape, ChunkGridParams, LeafOrder,
};
use crate::digest::{
    collision, constant_time_eq, digest_of, leaf_digest, leaf_preimage, pair_digest, HashAlg,
};
use crate::error::MerkleError;
use crate::selection::Selection;
use crate::tree::{
    fold_path, is_pow2, lemma_climb, lemma_fold_binds, lemma_full_tree, lemma_next_pow2,
    lemma_pow2_below_max, lemma_pow2_pos, log2, next_pow2, nodes_consistent, padded_leaves,
    path_siblings, sibling_of, tree_nodes, MerkleTree,
};
use crate::verification_grid::{lemma_ceil_div, suffix_product};
use std::collections::BTreeMap;
use vstd::prelude::*;

verus! {

/// A delivered chunk and the leaf it is said to be.
#[derive(Debug, Clone, Copy)]
pub struct ChunkData<'a> {
    /// The leaf.
    pub index: usize,
    /// The chunk's bytes.
    pub data: &'a [u8],
}

/// A proof that delivered chunks are a complete and correct part of a dataset.
#[derive(Debug, Clone, PartialEq, Eq)]
pub struct SubsetProof {
    /// The leaves that cover the selection, increasing.
    pub chunk_indices: Vec<usize>,
    /// Their hashes, in the same order.
    pub leaf_hashes: Vec<[u8; 32]>,
    /// The siblings on their ways to the root, by level-order position.
    pub proof_nodes: BTreeMap<u64, [u8; 32]>,
    /// The grid the leaves belong to.
    pub grid_params: ChunkGridParams,
    /// Binds the leaves to the grid.
    pub coverage_cert: [u8; 32],
}

// ---------------------------------------------------------------------------
// Expected leaves
// ---------------------------------------------------------------------------

/// Whether `s` strictly increases.
pub open spec fn increasing(s: Seq<usize>) -> bool {
    forall|i: int, j: int| 0 <= i < j < s.len() ==> s[i] < s[j]
}

/// Whether leaf `x` belongs to a chunk of the grid that has a selected element.
pub open spec fn is_needed(
    dims: Seq<u64>,
    chunk_shape: Seq<u64>,
    sel: Selection,
    order: LeafOrder,
    x: usize,
) -> bool {
    let n = chunk_counts(dims, chunk_shape);
    n.len() > 0 && exists|c: Seq<u64>|
        {
            &&& in_grid(c, n)
            &&& #[trigger] chunk_hit(sel, c, chunk_shape)
            &&& leaf_index(c, n, order) == x
        }
}

/// Whether `indices` are the leaves that cover the selection, increasing.
pub open spec fn is_expected(
    dims: Seq<u64>,
    chunk_shape: Seq<u64>,
    sel: Selection,
    order: LeafOrder,
    indices: Seq<usize>,
) -> bool {
    &&& increasing(indices)
    &&& forall|x: usize|
        #[trigger] indices.contains(x) <==> is_needed(dims, chunk_shape, sel, order, x)
}

/// What is wrong with a request, `None` if nothing is: a selection of another
/// rank than the grid's, or a malformed or oversized grid.
pub open spec fn request_error(
    dims: Seq<u64>,
    chunk_shape: Seq<u64>,
    sel: Selection,
) -> Option<MerkleError> {
    match sel.spec_rank() {
        Some(rank) => if rank != dims.len() {
            Some(MerkleError::HyperslabOutOfBounds { idx: rank as usize })
        } else {
            grid_error(dims, chunk_shape)
        },
        None => grid_error(dims, chunk_shape),
    }
}

/// The first axis, from `d` on, along which the selection lists an element beyond
/// the last chunk; `None` if there is none.
pub open spec fn stray_axis(n: Seq<u64>, chunk_shape: Seq<u64>, sel: Selection, d: int) -> Option<
    int,
>
    decreases n.len() - d,
{
    if d < 0 || d >= n.len() {
        None
    } else if sel.reaches(d, n[d] * chunk_shape[d]) {
        Some(d)
    } else {
        stray_axis(n, chunk_shape, sel, d + 1)
    }
}

/// What is wrong with a request for a proof, `None` if nothing is: as for any
/// request, or else a selection that touches a chunk outside the grid. The error
/// names the first chunk outside along the first such axis.
pub open spec fn extraction_error(
    dims: Seq<u64>,
    chunk_shape: Seq<u64>,
    sel: Selection,
) -> Option<MerkleError> {
    match request_error(dims, chunk_shape, sel) {
        Some(e) => Some(e),
        None => {
            let n = chunk_counts(dims, chunk_shape);
            match stray_axis(n, chunk_shape, sel, 0) {
                Some(d) => Some(
                    MerkleError::HyperslabOutOfBounds {
                        idx: if n[d] <= usize::MAX {
                            n[d] as usize
                        } else {
                            usize::MAX
                        },
                    },
                ),
                None => None,
            }
        },
    }
}

/// The number of the first chunk outside the grid along the first axis on which
/// the selection leaves it.
fn find_stray(n: &Vec<u64>, chunk_shape: &Vec<u64>, sel: &Selection) -> (r: Option<u64>)
    requires
        sel.wf(),
        n@.len() == chunk_shape@.len(),
        sel.spec_rank() is Some ==> sel.spec_rank()->0 == n@.len(),
    ensures
        r == match stray_axis(n@, chunk_shape@, *sel, 0) {
            Some(d) => Some(n@[d]),
            None => None,
        },
{
    let mut d: usize = 0;
    while d < n.len()
        invariant
            d <= n@.len(),
            sel.wf(),
            n@.len() == chunk_shape@.len(),
            sel.spec_rank() is Some ==> sel.spec_rank()->0 == n@.len(),
            stray_axis(n@, chunk_shape@, *sel, 0) == stray_axis(n@, chunk_shape@, *sel, d as int),
        decreases n@.len() - d,
    {
        let count: u64 = n[d];
        let extent: u64 = chunk_shape[d];
        assert(0 <= count * extent <= 0xffff_ffff_ffff_ffff * 0xffff_ffff_ffff_ffff)
            by (nonlinear_arith)
            requires
                0 <= count <= 0xffff_ffff_ffff_ffff,
                0 <= extent <= 0xffff_ffff_ffff_ffff,
        ;
        if sel.reaches_past(d, count as u128 * extent as u128) {
            return Some(count);
        }
        d = d + 1;
    }
    None
}

/// Strictly increasing sequences with the same elements are equal.
proof fn lemma_increasing_unique(a: Seq<usize>, b: Seq<usize>)
    requires
        increasing(a),
        increasing(b),
        forall|x: usize| #[trigger] a.contains(x) <==> b.contains(x),
    ensures
        a == b,
    decreases a.len(),
{
    if a.len() == 0 {
        if b.len() > 0 {
            assert(b.contains(b[0]));
            assert(a.contains(b[0]));
        }
        assert(a =~= b);
    } else {
        assert(a.contains(a.last()));
        assert(b.contains(a.last()));
        assert(b.contains(b.last()));
        assert(a.contains(b.last()));
        let i = choose|i: int| 0 <= i < b.len() && b[i] == a.last();
        let j = choose|j: int| 0 <= j < a.len() && a[j] == b.last();
        if i < b.len() - 1 {
            assert(b[i] < b[b.len() - 1]);
        }
        if j < a.len() - 1 {
            assert(a[j] < a[a.len() - 1]);
        }
        assert(a.last() == b.last());
        let a1 = a.drop_last();
        let b1 = b.drop_last();
        assert forall|x: usize| #[trigger] a1.contains(x) <==> b1.contains(x) by {
            if a1.contains(x) {
                let k = choose|k: int| 0 <= k < a1.len() && a1[k] == x;
                assert(a[k] == x && a[k] < a[a.len() - 1]);
                assert(a.contains(x));
                assert(b.contains(x));
                let m = choose|m: int| 0 <= m < b.len() && b[m] == x;
                assert(b1[m] == x);
            }
            if b1.contains(x) {
                let k = choose|k: int| 0 <= k < b1.len() && b1[k] == x;
                assert(b[k] == x && b[k] < b[b.len() - 1]);
                assert(b.contains(x));
                assert(a.contains(x));
                let m = choose|m: int| 0 <= m < a.len() && a[m] == x;
                assert(a1[m] == x);
            }
        }
        lemma_increasing_unique(a1, b1);
        assert(a =~= a1.push(a.last()));
        assert(b =~= b1.push(b.last()));
    }
}

/// The union of two increasing lists.
fn merge(a: &Vec<usize>, b: &Vec<usize>) -> (r: Vec<usize>)
    requires
        increasing(a@),
        increasing(b@),
    ensures
        increasing(r@),
        forall|x: usize| #[trigger] r@.contains(x) <==> a@.contains(x) || b@.contains(x),
{
    let mut r: Vec<usize> = Vec::new();
    let mut i: usize = 0;
    let mut j: usize = 0;
    while i < a.len() || j < b.len()
        invariant
            i <= a@.len(),
            j <= b@.len(),
            increasing(a@),
            increasing(b@),
            increasing(r@),
            forall|k: int, m: int|
                0 <= k < r@.len() && i <= m < a@.len() ==> #[trigger] r@[k] < #[trigger] a@[m],
            forall|k: int, m: int|
                0 <= k < r@.len() && j <= m < b@.len() ==> #[trigger] r@[k] < #[trigger] b@[m],
            forall|k: int| 0 <= k < i ==> r@.contains(#[trigger] a@[k]),
            forall|k: int| 0 <= k < j ==> r@.contains(#[trigger] b@[k]),
            forall|k: int|
                0 <= k < r@.len() ==> a@.contains(#[trigger] r@[k]) || b@.contains(r@[k]),
        decreases (a@.len() - i) + (b@.len() - j),
    {
        let take_a: bool = if i >= a.len() {
            false
        } else if j >= b.len() {
            true
        } else {
            a[i] <= b[j]
        };
        let ghost before = r@;
        if take_a {
            let x: usize = a[i];
            let same: bool = j < b.len() && b[j] == x;
            assert(a@.contains(a@[i as int]));
            r.push(x);
            if same {
                j = j + 1;
            }
            i = i + 1;
        } else {
            let x: usize = b[j];
            assert(b@.contains(b@[j as int]));
            r.push(x);
            j = j + 1;
        }
        proof {
            let x = r@.last();
            assert(r@ =~= before.push(x));
            assert forall|y: usize| before.contains(y) implies #[trigger] r@.contains(y) by {
                let k = choose|k: int| 0 <= k < before.len() && before[k] == y;
                assert(r@[k] == y);
            }
            assert(r@[before.len() as int] == x);
        }
    }
    proof {
        assert forall|x: usize| #[trigger] r@.contains(x) <==> a@.contains(x) || b@.contains(
            x,
        ) by {
            if a@.contains(x) {
                let k = choose|k: int| 0 <= k < a@.len() && a@[k] == x;
                assert(r@.contains(a@[k]));
            }
            if b@.contains(x) {
                let k = choose|k: int| 0 <= k < b@.len() && b@[k] == x;
                assert(r@.contains(b@[k]));
            }
        }
    }
    r
}

/// The elements of `v[from..to]`, sorted, each once.
fn sort_dedup(v: &Vec<usize>, from: usize, to: usize) -> (r: Vec<usize>)
    requires
        from <= to <= v@.len(),
    ensures
        increasing(r@),
        forall|x: usize|
            #[trigger] r@.contains(x) <==> v@.subrange(from as int, to as int).contains(x),
    decreases to - from,
{
    if to - from <= 1 {
        let mut r: Vec<usize> = Vec::new();
        if from < to {
            r.push(v[from]);
        }
        assert(r@ =~= v@.subrange(from as int, to as int));
        return r;
    }
    let mid: usize = from + (to - from) / 2;
    let a: Vec<usize> = sort_dedup(v, from, mid);
    let b: Vec<usize> = sort_dedup(v, mid, to);
    let r: Vec<usize> = merge(&a, &b);
    proof {
        let left = v@.subrange(from as int, mid as int);
        let right = v@.subrange(mid as int, to as int);
        let whole = v@.subrange(from as int, to as int);
        assert(whole =~= left + right);
        assert forall|x: usize| #[trigger] r@.contains(x) <==> whole.contains(x) by {
            assert(r@.contains(x) <==> a@.contains(x) || b@.contains(x));
            if left.contains(x) {
                let k = choose|k: int| 0 <= k < left.len() && left[k] == x;
                assert(whole[k] == x);
            }
            if right.contains(x) {
                let k = choose|k: int| 0 <= k < right.len() && right[k] == x;
                assert(whole[left.len() + k] == x);
            }
            if whole.contains(x) {
                let k = choose|k: int| 0 <= k < whole.len() && whole[k] == x;
                if k < left.len() {
                    assert(left[k] == x);
                } else {
                    assert(right[k - left.len()] == x);
                }
            }
        }
    }
    r
}

proof fn lemma_counts_fit(dims: Seq<u64>, shape: Seq<u64>, d: int)
    requires
        dims.len() == shape.len(),
        0 <= d < dims.len(),
        shape[d] >= 1,
    ensures
        (chunk_counts(dims, shape)[d] - 1) * shape[d] <= u64::MAX,
{
    lemma_ceil_div(dims[d] as int, shape[d] as int);
    let n = chunk_counts(dims, shape)[d];
    if dims[d] == 0 {
        assert(n == 0);
        assert((n - 1) * shape[d] <= 0) by (nonlinear_arith)
            requires
                n == 0,
        ;
    }
}

/// The leaves that cover `sel` under `grid` and `order`, increasing.
pub fn compute_expected_chunk_indices(grid: &ChunkGridParams, sel: &Selection, order: LeafOrder)
    -> (r: Result<Vec<usize>, MerkleError>)
    requires
        sel.wf(),
    ensures
        match request_error(grid.dims@, grid.chunk_shape@, *sel) {
            Some(e) => r == Err::<Vec<usize>, MerkleError>(e),
            None => r is Ok && is_expected(
                grid.dims@,
                grid.chunk_shape@,
                *sel,
                order,
                r->Ok_0@,
            ),
        },
{
    match sel.rank() {
        Some(rank) => {
            if rank != grid.dims.len() {
                return Err(MerkleError::HyperslabOutOfBounds { idx: rank });
            }
        },
        None => {},
    }
    match checked_padded_leaf_count(grid) {
        Ok(_) => {},
        Err(e) => {
            return Err(e);
        },
    }
    let n: Vec<u64> = grid.n_chunks_per_dim();
    let ghost shape = grid.chunk_shape@;
    proof {
        lemma_checked_total(n@);
        assert forall|d: int| 0 <= d < n@.len() implies #[trigger] shape[d] >= 1 by {
            assert(shape.contains(shape[d]));
        }
        assert forall|d: int| 0 <= d < n@.len() implies (#[trigger] n@[d] - 1) * shape[d]
            <= u64::MAX by {
            lemma_counts_fit(grid.dims@, shape, d);
        }
    }
    let coords: Vec<Vec<u64>> = chunk_coords_for_selection(
        sel,
        n.as_slice(),
        grid.chunk_shape.as_slice(),
    );
    let ghost touched = touched_chunks(*sel, n@, shape);
    let mut raw: Vec<usize> = Vec::with_capacity(coords.len());
    let mut i: usize = 0;
    while i < coords.len()
        invariant
            i <= coords@.len(),
            touched == touched_chunks(*sel, n@, shape),
            coord_views(coords@) == touched,
            checked_total(n@) is Some,
            checked_total(n@)->0 == suffix_product(n@, 0),
            checked_total(n@)->0 <= u64::MAX,
            raw@.len() == i,
            forall|k: int| 0 <= k < i ==> raw@[k] == leaf_index(#[trigger] touched[k], n@, order),
        decreases coords@.len() - i,
    {
        proof {
            assert(touched[i as int] == coords@[i as int]@);
            assert(touched.contains(touched[i as int]));
            lemma_touched(*sel, n@, shape, touched[i as int]);
        }
        let position: u64 = coord_to_leaf_index(coords[i].as_slice(), n.as_slice(), order);
        raw.push(position as usize);
        i = i + 1;
    }
    let r: Vec<usize> = sort_dedup(&raw, 0, raw.len());
    proof {
        assert(raw@.subrange(0, raw@.len() as int) =~= raw@);
        assert(touched.len() == raw@.len());
        assert forall|x: usize| #[trigger] r@.contains(x) <==> is_needed(
            grid.dims@,
            shape,
            *sel,
            order,
            x,
        ) by {
            if raw@.contains(x) {
                let k = choose|k: int| 0 <= k < raw@.len() && raw@[k] == x;
                let c = touched[k];
                assert(touched.contains(c));
                lemma_touched(*sel, n@, shape, c);
                assert(chunk_hit(*sel, c, shape));
            }
            if is_needed(grid.dims@, shape, *sel, order, x) {
                let c = choose|c: Seq<u64>|
                    {
                        &&& in_grid(c, n@)
                        &&& #[trigger] chunk_hit(*sel, c, shape)
                        &&& leaf_index(c, n@, order) == x
                    };
                lemma_touched(*sel, n@, shape, c);
                let k = choose|k: int| 0 <= k < touched.len() && touched[k] == c;
                assert(raw@[k] == leaf_index(touched[k], n@, order));
                assert(raw@.contains(x));
            }
        }
    }
    Ok(r)
}

// ---------------------------------------------------------------------------
// Coverage certificate
// ---------------------------------------------------------------------------

/// Leaf numbers as 64-bit numbers.
pub open spec fn widened(indices: Seq<usize>) -> Seq<u64> {
    Seq::new(indices.len(), |i: int| indices[i] as u64)
}

/// The certificate over a set of leaves and a grid hash.
pub open spec fn cert_digest(alg: HashAlg, indices: Seq<usize>, grid_hash: [u8; 32]) -> [u8; 32] {
    leaf_digest(alg, le64_all(widened(indices)) + grid_hash@)
}

fn coverage_cert(indices: &[usize], grid_hash: &[u8; 32], alg: HashAlg) -> (h: [u8; 32])
    ensures
        h == cert_digest(alg, indices@, *grid_hash),
{
    let mut buf: Vec<u8> = Vec::new();
    let mut i: usize = 0;
    let ghost w = widened(indices@);
    assert(w.take(0) =~= Seq::empty());
    assert(buf@ =~= le64_all(w.take(0)));
    while i < indices.len()
        invariant
            i <= indices@.len(),
            w == widened(indices@),
            buf@ == le64_all(w.take(i as int)),
        decreases indices@.len() - i,
    {
        push_le(&mut buf, indices[i] as u64, 8);
        proof {
            assert(w.take(i + 1).drop_last() =~= w.take(i as int));
            assert(w.take(i + 1).last() == indices@[i as int] as u64);
        }
        i = i + 1;
    }
    assert(w.take(i as int) =~= w);
    crate::bytes::extend(&mut buf, grid_hash.as_slice());
    alg.hash_leaf(buf.as_slice())
}

// ---------------------------------------------------------------------------
// Extraction
// ---------------------------------------------------------------------------

/// `found`, with the siblings on the way from position `i` to the root added.
pub open spec fn with_path(
    found: Map<u64, [u8; 32]>,
    nodes: Seq<[u8; 32]>,
    i: int,
) -> Map<u64, [u8; 32]>
    decreases i,
{
    if i <= 0 {
        found
    } else {
        with_path(
            found.insert(sibling_of(i) as u64, nodes[sibling_of(i)]),
            nodes,
            (i - 1) / 2,
        )
    }
}

/// The siblings on the ways of the first `k` of `indices` to the root.
pub open spec fn path_nodes(
    nodes: Seq<[u8; 32]>,
    padded: nat,
    indices: Seq<usize>,
    k: int,
) -> Map<u64, [u8; 32]>
    decreases k,
{
    if k <= 0 {
        Map::empty()
    } else {
        with_path(path_nodes(nodes, padded, indices, k - 1), nodes, padded - 1 + indices[k - 1])
    }
}

/// Whether `p` is the proof for `indices` taken from `tree`.
pub open spec fn is_extraction(
    p: SubsetProof,
    tree: &MerkleTree,
    grid: ChunkGridParams,
    indices: Seq<usize>,
) -> bool {
    &&& p.chunk_indices@ == indices
    &&& p.leaf_hashes@ == Seq::new(indices.len(), |i: int| tree.spec_leaf(indices[i] as int))
    &&& p.proof_nodes@ == path_nodes(
        tree.spec_nodes(),
        tree.spec_padded(),
        indices,
        indices.len() as int,
    )
    &&& p.grid_params.same_as(grid)
    &&& p.coverage_cert == cert_digest(tree.spec_alg(), indices, grid.grid_hash)
}

/// Whether every one of `indices` is a leaf of `tree`.
pub open spec fn all_leaves(tree: &MerkleTree, indices: Seq<usize>) -> bool {
    forall|i: int| 0 <= i < indices.len() ==> #[trigger] indices[i] < tree.spec_leaf_count()
}

/// Extracts the proof for `sel` from `tree`, whose leaves are the chunks of
/// `grid` in `order`. A selection that leaves the grid is refused.
pub fn extract_subset(
    tree: &MerkleTree,
    grid: &ChunkGridParams,
    sel: &Selection,
    order: LeafOrder,
) -> (r: Result<SubsetProof, MerkleError>)
    requires
        tree.wf(),
        sel.wf(),
    ensures
        match extraction_error(grid.dims@, grid.chunk_shape@, *sel) {
            Some(e) => r == Err::<SubsetProof, MerkleError>(e),
            None => match r {
                Ok(p) => {
                    let indices = p.chunk_indices@;
                    &&& is_expected(grid.dims@, grid.chunk_shape@, *sel, order, indices)
                    &&& all_leaves(tree, indices)
                    &&& is_extraction(p, tree, *grid, indices)
                },
                Err(e) => exists|indices: Seq<usize>, i: int|
                    {
                        &&& #[trigger] is_expected(
                            grid.dims@,
                            grid.chunk_shape@,
                            *sel,
                            order,
                            indices,
                        )
                        &&& 0 <= i < indices.len()
                        &&& all_leaves(tree, indices.take(i))
                        &&& indices[i] >= tree.spec_leaf_count()
                        &&& e == (MerkleError::HyperslabOutOfBounds {
                            idx: #[trigger] indices[i],
                        })
                    },
            },
        },
{
    let chunk_indices: Vec<usize> = match compute_expected_chunk_indices(grid, sel, order) {
        Ok(v) => v,
        Err(e) => {
            return Err(e);
        },
    };
    let n: Vec<u64> = grid.n_chunks_per_dim();
    match find_stray(&n, &grid.chunk_shape, sel) {
        Some(first) => {
            let idx: usize = if first <= usize::MAX as u64 {
                first as usize
            } else {
                usize::MAX
            };
            return Err(MerkleError::HyperslabOutOfBounds { idx });
        },
        None => {},
    }
    let ghost indices = chunk_indices@;
    let nodes: &[[u8; 32]] = tree.nodes();
    let padded_count: usize = tree.padded_leaf_count();
    proof {
        lemma_pow2_pos(padded_count as nat);
        lemma_pow2_below_max(padded_count);
    }
    let internal_nodes: usize = padded_count - 1;
    let len: usize = nodes.len();
    let mut proof_nodes: BTreeMap<u64, [u8; 32]> = BTreeMap::new();
    let mut leaf_hashes: Vec<[u8; 32]> = Vec::with_capacity(chunk_indices.len());
    let mut i: usize = 0;
    assert(proof_nodes@ =~= Map::empty());
    while i < chunk_indices.len()
        invariant
            i <= chunk_indices@.len(),
            indices == chunk_indices@,
            extraction_error(grid.dims@, grid.chunk_shape@, *sel) is None,
            is_expected(grid.dims@, grid.chunk_shape@, *sel, order, indices),
            tree.wf(),
            nodes@ == tree.spec_nodes(),
            padded_count == tree.spec_padded(),
            internal_nodes == padded_count - 1,
            len == nodes@.len(),
            len == 2 * padded_count - 1,
            leaf_hashes@.len() == i,
            forall|k: int| 0 <= k < i ==> leaf_hashes@[k] == tree.spec_leaf(
                #[trigger] indices[k] as int,
            ),
            forall|k: int| 0 <= k < i ==> #[trigger] indices[k] < tree.spec_leaf_count(),
            proof_nodes@ == path_nodes(nodes@, padded_count as nat, indices, i as int),
        decreases chunk_indices@.len() - i,
    {
        let leaf_idx: usize = chunk_indices[i];
        match tree.leaf_hash(leaf_idx) {
            Some(h) => {
                leaf_hashes.push(*h);
            },
            None => {
                assert(all_leaves(tree, indices.take(i as int)));
                assert(indices[i as int] == leaf_idx);
                return Err(MerkleError::HyperslabOutOfBounds { idx: leaf_idx });
            },
        }
        let mut node_idx: usize = internal_nodes + leaf_idx;
        let ghost goal = with_path(proof_nodes@, nodes@, node_idx as int);
        while node_idx > 0
            invariant
                node_idx < len == nodes@.len(),
                len % 2 == 1,
                with_path(proof_nodes@, nodes@, node_idx as int) == goal,
            decreases node_idx,
        {
            let sibling_idx: usize = if node_idx % 2 == 1 {
                node_idx + 1
            } else {
                node_idx - 1
            };
            proof_nodes.insert(sibling_idx as u64, nodes[sibling_idx]);
            node_idx = (node_idx - 1) / 2;
        }
        i = i + 1;
    }
    let cert: [u8; 32] = coverage_cert(
        chunk_indices.as_slice(),
        &grid.grid_hash,
        tree.algorithm(),
    );
    assert(leaf_hashes@ =~= Seq::new(indices.len(), |k: int| tree.spec_leaf(indices[k] as int)));
    Ok(
        SubsetProof {
            chunk_indices,
            leaf_hashes,
            proof_nodes,
            grid_params: grid.clone(),
            coverage_cert: cert,
        },
    )
}

// ---------------------------------------------------------------------------
// Verification
// ---------------------------------------------------------------------------

/// The root reached from `h` at level-order position `node`, taking siblings
/// from `found`; `None` if one is missing. `leaf` is the position within the
/// level.
pub open spec fn climb(
    alg: HashAlg,
    found: Map<u64, [u8; 32]>,
    node: int,
    leaf: int,
    h: [u8; 32],
) -> Option<[u8; 32]>
    decreases node,
{
    if node <= 0 {
        Some(h)
    } else if sibling_of(node) > u64::MAX || !found.contains_key(sibling_of(node) as u64) {
        None
    } else {
        let s = found[sibling_of(node) as u64];
        climb(
            alg,
            found,
            (node - 1) / 2,
            leaf / 2,
            if leaf % 2 == 0 {
                pair_digest(alg, h, s)
            } else {
                pair_digest(alg, s, h)
            },
        )
    }
}

/// The bytes and leaf numbers of delivered chunks.
pub open spec fn delivered_views(chunks: Seq<ChunkData<'_>>) -> Seq<(usize, Seq<u8>)> {
    Seq::new(chunks.len(), |i: int| (chunks[i].index, chunks[i].data@))
}

/// What is wrong with delivered chunk `i`, `None` if nothing is.
pub open spec fn chunk_error(
    root: [u8; 32],
    alg: HashAlg,
    padded: nat,
    delivered: Seq<(usize, Seq<u8>)>,
    leaf_hashes: Seq<[u8; 32]>,
    found: Map<u64, [u8; 32]>,
    i: int,
) -> Option<MerkleError> {
    let idx = delivered[i].0;
    let h = leaf_digest(alg, delivered[i].1);
    if h != leaf_hashes[i] {
        Some(MerkleError::HashMismatch { chunk_idx: idx })
    } else {
        match climb(alg, found, padded - 1 + idx, idx as int, h) {
            None => Some(MerkleError::CompanionTampered),
            Some(top) => if top == root {
                None
            } else {
                Some(MerkleError::HashMismatch { chunk_idx: idx })
            },
        }
    }
}

/// The answer to the checks of delivered chunks `i..`: that of the first one
/// with something wrong.
pub open spec fn chunks_answer(
    root: [u8; 32],
    alg: HashAlg,
    padded: nat,
    delivered: Seq<(usize, Seq<u8>)>,
    leaf_hashes: Seq<[u8; 32]>,
    found: Map<u64, [u8; 32]>,
    i: int,
) -> Result<bool, MerkleError>
    decreases delivered.len() - i,
{
    if i >= delivered.len() {
        Ok(true)
    } else {
        match chunk_error(root, alg, padded, delivered, leaf_hashes, found, i) {
            Some(e) => Err(e),
            None => chunks_answer(root, alg, padded, delivered, leaf_hashes, found, i + 1),
        }
    }
}

/// Whether the delivered chunks are, one by one, those the proof lists.
pub open spec fn lists_match(delivered: Seq<(usize, Seq<u8>)>, p: SubsetProof) -> bool {
    &&& delivered.len() == p.chunk_indices@.len()
    &&& delivered.len() == p.leaf_hashes@.len()
    &&& forall|i: int| 0 <= i < delivered.len() ==> (#[trigger] delivered[i]).0
        == p.chunk_indices@[i]
}

/// Whether a grid has extents for another number of axes than it has, or an
/// extent of zero.
pub open spec fn misshapen(grid: ChunkGridParams) -> bool {
    grid.dims@.len() != grid.chunk_shape@.len() || grid.chunk_shape@.contains(0)
}

/// The answer to a subset verification.
pub open spec fn subset_answer(
    root: [u8; 32],
    alg: HashAlg,
    delivered: Seq<(usize, Seq<u8>)>,
    p: SubsetProof,
    grid: ChunkGridParams,
    trusted_grid_hash: [u8; 32],
    sel: Selection,
    order: LeafOrder,
) -> Result<bool, MerkleError> {
    if grid.digest(alg) != trusted_grid_hash {
        Err(MerkleError::GridHashMismatch)
    } else if !lists_match(delivered, p) || misshapen(p.grid_params) {
        Err(MerkleError::CompanionTampered)
    } else {
        match request_error(grid.dims@, grid.chunk_shape@, sel) {
            Some(e) => Err(e),
            None => if !is_expected(
                grid.dims@,
                grid.chunk_shape@,
                sel,
                order,
                p.chunk_indices@,
            ) {
                Err(MerkleError::SelectionMismatch)
            } else if cert_digest(alg, p.chunk_indices@, p.grid_params.grid_hash)
                != p.coverage_cert {
                Err(MerkleError::CompanionTampered)
            } else {
                chunks_answer(
                    root,
                    alg,
                    grid_padded(grid.dims@, grid.chunk_shape@),
                    delivered,
                    p.leaf_hashes@,
                    p.proof_nodes@,
                    0,
                )
            },
        }
    }
}

fn check_chunk(
    root: &[u8; 32],
    alg: HashAlg,
    padded_count: usize,
    chunk: &ChunkData<'_>,
    leaf_hash: &[u8; 32],
    proof_nodes: &BTreeMap<u64, [u8; 32]>,
) -> (r: Result<(), MerkleError>)
    requires
        padded_count >= 1,
    ensures
        r == {
            let h = leaf_digest(alg, chunk.data@);
            if h != *leaf_hash {
                Err::<(), MerkleError>(MerkleError::HashMismatch { chunk_idx: chunk.index })
            } else {
                match climb(
                    alg,
                    proof_nodes@,
                    padded_count - 1 + chunk.index,
                    chunk.index as int,
                    h,
                ) {
                    None => Err(MerkleError::CompanionTampered),
                    Some(top) => if top == *root {
                        Ok(())
                    } else {
                        Err(MerkleError::HashMismatch { chunk_idx: chunk.index })
                    },
                }
            }
        },
{
    let computed: [u8; 32] = alg.hash_leaf(chunk.data);
    if !constant_time_eq(&computed, leaf_hash) {
        return Err(MerkleError::HashMismatch { chunk_idx: chunk.index });
    }
    // Positions are computed in 128 bits: one past 64 bits has no proof node.
    let mut node_idx: u128 = (padded_count - 1) as u128 + chunk.index as u128;
    let mut level_idx: usize = chunk.index;
    let mut current: [u8; 32] = computed;
    let ghost goal = climb(
        alg,
        proof_nodes@,
        padded_count - 1 + chunk.index,
        chunk.index as int,
        computed,
    );
    while node_idx > 0
        invariant
            node_idx <= 2 * usize::MAX,
            climb(alg, proof_nodes@, node_idx as int, level_idx as int, current) == goal,
            computed == leaf_digest(alg, chunk.data@),
            computed == *leaf_hash,
            goal == climb(
                alg,
                proof_nodes@,
                padded_count - 1 + chunk.index,
                chunk.index as int,
                computed,
            ),
        decreases node_idx,
    {
        let sibling_idx: u128 = if node_idx % 2 == 1 {
            node_idx + 1
        } else {
            node_idx - 1
        };
        if sibling_idx > u64::MAX as u128 {
            return Err(MerkleError::CompanionTampered);
        }
        let key: u64 = sibling_idx as u64;
        let sibling: [u8; 32] = match proof_nodes.get(&key) {
            Some(h) => *h,
            None => {
                return Err(MerkleError::CompanionTampered);
            },
        };
        current = if level_idx % 2 == 0 {
            alg.hash_pair(&current, &sibling)
        } else {
            alg.hash_pair(&sibling, &current)
        };
        node_idx = (node_idx - 1) / 2;
        level_idx = level_idx / 2;
    }
    if constant_time_eq(&current, root) {
        Ok(())
    } else {
        Err(MerkleError::HashMismatch { chunk_idx: chunk.index })
    }
}

fn same_indices(a: &Vec<usize>, b: &Vec<usize>) -> (r: bool)
    ensures
        r == (a@ == b@),
{
    if a.len() != b.len() {
        return false;
    }
    let mut i: usize = 0;
    while i < a.len()
        invariant
            i <= a@.len() == b@.len(),
            forall|j: int| 0 <= j < i ==> a@[j] == b@[j],
        decreases a@.len() - i,
    {
        if a[i] != b[i] {
            return false;
        }
        i = i + 1;
    }
    assert(a@ =~= b@);
    true
}

/// Verifies that `chunks` are exactly the chunks that `sel` needs, and that each
/// belongs under `root`.
///
/// The grid is authenticated by `trusted_grid_hash`, which is the hash that
/// `ChunkGridParams` has, not that of `compute_chunk_grid_hash`; `sel` and `order`
/// are the verifier's own; everything in `proof` is checked.
pub fn verify_subset(
    root: &[u8; 32],
    alg: HashAlg,
    chunks: &[ChunkData<'_>],
    proof: &SubsetProof,
    expected_grid: &ChunkGridParams,
    trusted_grid_hash: &[u8; 32],
    sel: &Selection,
    order: LeafOrder,
) -> (r: Result<bool, MerkleError>)
    requires
        sel.wf(),
    ensures
        r == subset_answer(
            *root,
            alg,
            delivered_views(chunks@),
            *proof,
            *expected_grid,
            *trusted_grid_hash,
            *sel,
            order,
        ),
{
    let recomputed: [u8; 32] = compute_grid_hash(
        expected_grid.dims.as_slice(),
        expected_grid.chunk_shape.as_slice(),
        expected_grid.elem_size,
        expected_grid.layout_class,
        alg,
    );
    if !constant_time_eq(&recomputed, trusted_grid_hash) {
        return Err(MerkleError::GridHashMismatch);
    }
    let ghost delivered = delivered_views(chunks@);
    if chunks.len() != proof.chunk_indices.len() || chunks.len() != proof.leaf_hashes.len() {
        return Err(MerkleError::CompanionTampered);
    }
    let mut k: usize = 0;
    while k < chunks.len()
        invariant
            k <= chunks@.len(),
            delivered == delivered_views(chunks@),
            recomputed == expected_grid.digest(alg),
            recomputed == *trusted_grid_hash,
            chunks@.len() == proof.chunk_indices@.len(),
            chunks@.len() == proof.leaf_hashes@.len(),
            forall|j: int| 0 <= j < k ==> (#[trigger] delivered[j]).0 == proof.chunk_indices@[j],
        decreases chunks@.len() - k,
    {
        if chunks[k].index != proof.chunk_indices[k] {
            assert(delivered[k as int].0 != proof.chunk_indices@[k as int]);
            return Err(MerkleError::CompanionTampered);
        }
        k = k + 1;
    }
    assert(lists_match(delivered, *proof));
    match validate_grid_shape(&proof.grid_params) {
        Ok(_) => {},
        Err(e) => {
            return Err(e);
        },
    }
    let expected: Vec<usize> = match compute_expected_chunk_indices(expected_grid, sel, order) {
        Ok(v) => v,
        Err(e) => {
            return Err(e);
        },
    };
    if !same_indices(&proof.chunk_indices, &expected) {
        proof {
            if is_expected(
                expected_grid.dims@,
                expected_grid.chunk_shape@,
                *sel,
                order,
                proof.chunk_indices@,
            ) {
                lemma_increasing_unique(proof.chunk_indices@, expected@);
            }
        }
        return Err(MerkleError::SelectionMismatch);
    }
    // The delivered leaves are the expected ones, which are in order.
    let cert: [u8; 32] = coverage_cert(expected.as_slice(), &proof.grid_params.grid_hash, alg);
    if !constant_time_eq(&cert, &proof.coverage_cert) {
        return Err(MerkleError::CompanionTampered);
    }
    let padded_count: usize = match checked_padded_leaf_count(expected_grid) {
        Ok(p) => p,
        Err(e) => {
            return Err(e);
        },
    };
    proof {
        lemma_next_pow2(
            suffix_product(chunk_counts(expected_grid.dims@, expected_grid.chunk_shape@), 0),
        );
    }
    let ghost padded = padded_count as nat;
    let ghost target = chunks_answer(
        *root,
        alg,
        padded,
        delivered,
        proof.leaf_hashes@,
        proof.proof_nodes@,
        0,
    );
    let mut i: usize = 0;
    while i < chunks.len()
        invariant
            i <= chunks@.len(),
            delivered == delivered_views(chunks@),
            chunks@.len() == proof.leaf_hashes@.len(),
            padded == padded_count,
            padded_count >= 1,
            chunks_answer(
                *root,
                alg,
                padded,
                delivered,
                proof.leaf_hashes@,
                proof.proof_nodes@,
                i as int,
            ) == target,
            subset_answer(
                *root,
                alg,
                delivered,
                *proof,
                *expected_grid,
                *trusted_grid_hash,
                *sel,
                order,
            ) == target,
        decreases chunks@.len() - i,
    {
        assert(delivered[i as int] == (chunks@[i as int].index, chunks@[i as int].data@));
        match check_chunk(
            root,
            alg,
            padded_count,
            &chunks[i],
            &proof.leaf_hashes[i],
            &proof.proof_nodes,
        ) {
            Ok(_) => {},
            Err(e) => {
                return Err(e);
            },
        }
        i = i + 1;
    }
    Ok(true)
}

// ---------------------------------------------------------------------------
// Laws
// ---------------------------------------------------------------------------

/// Whether `found` has, for every position on the way from `i` to the root,
/// the sibling's hash.
spec fn has_path(found: Map<u64, [u8; 32]>, nodes: Seq<[u8; 32]>, i: int) -> bool
    decreases i,
{
    i <= 0 || {
        &&& found.contains_key(sibling_of(i) as u64)
        &&& found[sibling_of(i) as u64] == nodes[sibling_of(i)]
        &&& has_path(found, nodes, (i - 1) / 2)
    }
}

/// Whether every entry of `found` is the hash at its position.
spec fn sound(found: Map<u64, [u8; 32]>, nodes: Seq<[u8; 32]>) -> bool {
    forall|k: u64|
        #[trigger] found.contains_key(k) ==> k < nodes.len() && found[k] == nodes[k as int]
}

proof fn lemma_with_path(found: Map<u64, [u8; 32]>, nodes: Seq<[u8; 32]>, i: int)
    requires
        0 <= i < nodes.len(),
        nodes.len() % 2 == 1,
        nodes.len() <= u64::MAX,
        sound(found, nodes),
    ensures
        sound(with_path(found, nodes, i), nodes),
        found.submap_of(with_path(found, nodes, i)),
        has_path(with_path(found, nodes, i), nodes, i),
    decreases i,
{
    if i > 0 {
        let s = sibling_of(i);
        assert(0 <= s < nodes.len());
        let next = found.insert(s as u64, nodes[s]);
        assert forall|k: u64| #[trigger] next.contains_key(k) implies k < nodes.len() && next[k]
            == nodes[k as int] by {
            if k != s as u64 {
                assert(found.contains_key(k));
            }
        }
        lemma_with_path(next, nodes, (i - 1) / 2);
        let all = with_path(next, nodes, (i - 1) / 2);
        assert(next.contains_key(s as u64));
        assert(all.contains_key(s as u64));
        assert forall|k: u64| #[trigger] found.contains_key(k) implies all.contains_key(k)
            && all[k] == found[k] by {
            assert(next.contains_key(k));
            assert(all.contains_key(k));
        }
    }
}

proof fn lemma_has_path_grows(
    small: Map<u64, [u8; 32]>,
    large: Map<u64, [u8; 32]>,
    nodes: Seq<[u8; 32]>,
    i: int,
)
    requires
        small.submap_of(large),
        has_path(small, nodes, i),
    ensures
        has_path(large, nodes, i),
    decreases i,
{
    if i > 0 {
        lemma_has_path_grows(small, large, nodes, (i - 1) / 2);
        assert(small.contains_key(sibling_of(i) as u64));
    }
}

proof fn lemma_path_nodes(
    nodes: Seq<[u8; 32]>,
    padded: nat,
    indices: Seq<usize>,
    k: int,
)
    requires
        padded >= 1,
        nodes.len() == 2 * padded - 1,
        nodes.len() <= u64::MAX,
        0 <= k <= indices.len(),
        forall|i: int| 0 <= i < indices.len() ==> #[trigger] indices[i] < padded,
    ensures
        sound(path_nodes(nodes, padded, indices, k), nodes),
        forall|i: int|
            0 <= i < k ==> has_path(
                path_nodes(nodes, padded, indices, k),
                nodes,
                padded - 1 + #[trigger] indices[i],
            ),
    decreases k,
{
    if k > 0 {
        lemma_path_nodes(nodes, padded, indices, k - 1);
        let small = path_nodes(nodes, padded, indices, k - 1);
        let large = path_nodes(nodes, padded, indices, k);
        assert(indices[k - 1] < padded);
        lemma_with_path(small, nodes, padded - 1 + indices[k - 1]);
        assert forall|i: int| 0 <= i < k implies has_path(
            large,
            nodes,
            padded - 1 + #[trigger] indices[i],
        ) by {
            if i < k - 1 {
                lemma_has_path_grows(small, large, nodes, padded - 1 + indices[i]);
            }
        }
    }
}

/// With the right siblings at hand, climbing is following the tree's own path.
proof fn lemma_climb_follows(
    alg: HashAlg,
    found: Map<u64, [u8; 32]>,
    nodes: Seq<[u8; 32]>,
    m: nat,
    j: nat,
    h: [u8; 32],
)
    requires
        is_pow2(m),
        j < m,
        2 * m - 1 <= u64::MAX,
        has_path(found, nodes, m - 1 + j),
    ensures
        climb(alg, found, m - 1 + j, j as int, h) == Some(
            fold_path(alg, h, j, path_siblings(nodes, m - 1 + j)),
        ),
    decreases m,
{
    let i = m - 1 + j;
    if m > 1 {
        let p = (i - 1) / 2;
        assert(p == m / 2 - 1 + j / 2);
        let s = found[sibling_of(i) as u64];
        let up = if j % 2 == 0 {
            pair_digest(alg, h, s)
        } else {
            pair_digest(alg, s, h)
        };
        lemma_climb_follows(alg, found, nodes, m / 2, j / 2, up);
        let siblings = path_siblings(nodes, i);
        assert(siblings.skip(1) =~= path_siblings(nodes, p));
        assert(siblings[0] == nodes[sibling_of(i)]);
    } else {
        assert(i == 0);
    }
}

/// A climb that reaches the top has used one sibling per level.
proof fn lemma_climb_is_fold(
    alg: HashAlg,
    found: Map<u64, [u8; 32]>,
    m: nat,
    j: nat,
    h: [u8; 32],
)
    requires
        is_pow2(m),
        j < m,
        climb(alg, found, m - 1 + j, j as int, h) is Some,
    ensures
        exists|siblings: Seq<[u8; 32]>|
            siblings.len() == log2(m) && climb(alg, found, m - 1 + j, j as int, h) == Some(
                #[trigger] fold_path(alg, h, j, siblings),
            ),
    decreases m,
{
    let i = m - 1 + j;
    if m > 1 {
        let p = (i - 1) / 2;
        assert(p == m / 2 - 1 + j / 2);
        let s = found[sibling_of(i) as u64];
        let up = if j % 2 == 0 {
            pair_digest(alg, h, s)
        } else {
            pair_digest(alg, s, h)
        };
        lemma_climb_is_fold(alg, found, m / 2, j / 2, up);
        let rest = choose|siblings: Seq<[u8; 32]>|
            siblings.len() == log2(m / 2) && climb(alg, found, p, j as int / 2, up) == Some(
                #[trigger] fold_path(alg, up, j / 2, siblings),
            );
        let all = seq![s] + rest;
        assert(all.skip(1) =~= rest);
        assert(all[0] == s);
        assert(fold_path(alg, h, j, all) == fold_path(alg, up, j / 2, rest));
    } else {
        assert(i == 0);
        let none = Seq::<[u8; 32]>::empty();
        assert(fold_path(alg, h, j, none) == h);
    }
}

/// A proof extracted from the tree over the dataset's leaves verifies, with the
/// chunks that belong to its leaves, against the tree's root and the grid it
/// was extracted for.
pub proof fn law_extracted_subset_verifies(
    tree: &MerkleTree,
    leaves: Seq<[u8; 32]>,
    grid: ChunkGridParams,
    sel: Selection,
    order: LeafOrder,
    p: SubsetProof,
    delivered: Seq<(usize, Seq<u8>)>,
)
    requires
        tree.is_tree_of(tree.spec_alg(), leaves),
        grid.grid_hash == grid.digest(tree.spec_alg()),
        request_error(grid.dims@, grid.chunk_shape@, sel) is None,
        tree.spec_padded() == grid_padded(grid.dims@, grid.chunk_shape@),
        is_expected(grid.dims@, grid.chunk_shape@, sel, order, p.chunk_indices@),
        all_leaves(tree, p.chunk_indices@),
        is_extraction(p, tree, grid, p.chunk_indices@),
        delivered.len() == p.chunk_indices@.len(),
        forall|i: int|
            0 <= i < delivered.len() ==> {
                &&& (#[trigger] delivered[i]).0 == p.chunk_indices@[i]
                &&& leaf_digest(tree.spec_alg(), delivered[i].1) == leaves[delivered[i].0 as int]
            },
    ensures
        subset_answer(
            tree.spec_nodes()[0],
            tree.spec_alg(),
            delivered,
            p,
            grid,
            grid.grid_hash,
            sel,
            order,
        ) == Ok::<bool, MerkleError>(true),
{
    let alg = tree.spec_alg();
    let nodes = tree.spec_nodes();
    let padded = tree.spec_padded();
    let indices = p.chunk_indices@;
    let full = padded_leaves(alg, leaves);
    lemma_next_pow2(leaves.len());
    lemma_pow2_below_max(padded as usize);
    lemma_full_tree(alg, full);
    assert(forall|i: int| 0 <= i < indices.len() ==> #[trigger] indices[i] < padded);
    lemma_path_nodes(nodes, padded, indices, indices.len() as int);
    assert(forall|i: int|
        0 <= i < leaves.len() ==> nodes[padded - 1 + i] == #[trigger] leaves[i]) by {
        assert forall|i: int| 0 <= i < leaves.len() implies nodes[padded - 1 + i]
            == #[trigger] leaves[i] by {
            assert(full[i] == leaves[i]);
        }
    }
    let leaf_hashes = p.leaf_hashes@;
    let found = p.proof_nodes@;
    assert forall|i: int| 0 <= i < delivered.len() implies (#[trigger] chunk_error(
        nodes[0],
        alg,
        padded,
        delivered,
        leaf_hashes,
        found,
        i,
    )) is None by {
        let idx = delivered[i].0;
        assert(indices[i] == idx);
        assert(leaf_hashes[i] == nodes[padded - 1 + idx]);
        lemma_good_chunk(alg, nodes, padded, found, idx as nat);
    }
    lemma_no_chunk_error(nodes[0], alg, padded, delivered, leaf_hashes, found, 0);
    assert(lists_match(delivered, p));
}

proof fn lemma_good_chunk(
    alg: HashAlg,
    nodes: Seq<[u8; 32]>,
    padded: nat,
    found: Map<u64, [u8; 32]>,
    idx: nat,
)
    requires
        is_pow2(padded),
        2 * padded - 1 <= u64::MAX,
        idx < padded,
        nodes.len() == 2 * padded - 1,
        nodes_consistent(alg, nodes, padded as int),
        has_path(found, nodes, padded - 1 + idx),
    ensures
        climb(alg, found, padded - 1 + idx, idx as int, nodes[padded - 1 + idx]) == Some(nodes[0]),
{
    let h = nodes[padded - 1 + idx];
    lemma_climb_follows(alg, found, nodes, padded, idx, h);
    lemma_climb(alg, nodes, padded, padded, idx);
}

proof fn lemma_no_chunk_error(
    root: [u8; 32],
    alg: HashAlg,
    padded: nat,
    delivered: Seq<(usize, Seq<u8>)>,
    leaf_hashes: Seq<[u8; 32]>,
    found: Map<u64, [u8; 32]>,
    i: int,
)
    requires
        0 <= i,
        forall|k: int|
            i <= k < delivered.len() ==> (#[trigger] chunk_error(
                root,
                alg,
                padded,
                delivered,
                leaf_hashes,
                found,
                k,
            )) is None,
    ensures
        chunks_answer(root, alg, padded, delivered, leaf_hashes, found, i) == Ok::<
            bool,
            MerkleError,
        >(true),
    decreases delivered.len() - i,
{
    if i < delivered.len() {
        lemma_no_chunk_error(root, alg, padded, delivered, leaf_hashes, found, i + 1);
    }
}

proof fn lemma_accepted_chunk(
    root: [u8; 32],
    alg: HashAlg,
    padded: nat,
    delivered: Seq<(usize, Seq<u8>)>,
    leaf_hashes: Seq<[u8; 32]>,
    found: Map<u64, [u8; 32]>,
    from: int,
    i: int,
)
    requires
        0 <= from <= i < delivered.len(),
        chunks_answer(root, alg, padded, delivered, leaf_hashes, found, from) is Ok,
    ensures
        chunk_error(root, alg, padded, delivered, leaf_hashes, found, i) is None,
    decreases i - from,
{
    if from < i {
        lemma_accepted_chunk(root, alg, padded, delivered, leaf_hashes, found, from + 1, i);
    }
}

/// A subset that verifies against the root of the tree over `data` holds the
/// dataset's own bytes in every delivered chunk, unless the digest has a
/// collision.
#[verifier::spinoff_prover]
#[verifier::rlimit(40)]
pub proof fn law_verified_subset_is_genuine(
    alg: HashAlg,
    data: Seq<Seq<u8>>,
    delivered: Seq<(usize, Seq<u8>)>,
    p: SubsetProof,
    grid: ChunkGridParams,
    trusted_grid_hash: [u8; 32],
    sel: Selection,
    order: LeafOrder,
    i: int,
)
    requires
        next_pow2(data.len()) == grid_padded(grid.dims@, grid.chunk_shape@),
        subset_answer(
            tree_nodes(alg, crate::tree::leaf_digests(alg, data))[0],
            alg,
            delivered,
            p,
            grid,
            trusted_grid_hash,
            sel,
            order,
        ) == Ok::<bool, MerkleError>(true),
        0 <= i < delivered.len(),
        delivered[i].0 < data.len(),
    ensures
        delivered[i].1 == data[delivered[i].0 as int] || collision(alg),
{
    let leaves = crate::tree::leaf_digests(alg, data);
    let nodes = tree_nodes(alg, leaves);
    let padded = next_pow2(data.len());
    let full = padded_leaves(alg, leaves);
    let idx = delivered[i].0;
    let h = leaf_digest(alg, delivered[i].1);
    lemma_next_pow2(data.len());
    lemma_full_tree(alg, full);
    lemma_accepted_chunk(
        nodes[0],
        alg,
        padded,
        delivered,
        p.leaf_hashes@,
        p.proof_nodes@,
        0,
        i,
    );
    lemma_climb_is_fold(alg, p.proof_nodes@, padded, idx as nat, h);
    let s1 = choose|siblings: Seq<[u8; 32]>|
        siblings.len() == log2(padded) && climb(
            alg,
            p.proof_nodes@,
            padded - 1 + idx,
            idx as int,
            h,
        ) == Some(#[trigger] fold_path(alg, h, idx as nat, siblings));
    let s2 = path_siblings(nodes, padded - 1 + idx);
    lemma_climb(alg, nodes, padded, padded, idx as nat);
    assert(full[idx as int] == nodes[padded - 1 + idx]);
    assert(full[idx as int] == leaves[idx as int]);
    lemma_fold_binds(alg, h, s1, leaves[idx as int], s2, idx as nat);
    let d1 = delivered[i].1;
    let d2 = data[idx as int];
    if h == leaves[idx as int] && d1 != d2 {
        if leaf_preimage(d1) == leaf_preimage(d2) {
            assert(leaf_preimage(d1).skip(1) =~= d1);
            assert(leaf_preimage(d2).skip(1) =~= d2);
        }
        assert(digest_of(alg, leaf_preimage(d1)) == digest_of(alg, leaf_preimage(d2)));
    }
}

/// A subset that verifies is complete: it has every leaf of a chunk with a
/// selected element, and no other.
pub proof fn law_verified_subset_is_complete(
    root: [u8; 32],
    alg: HashAlg,
    delivered: Seq<(usize, Seq<u8>)>,
    p: SubsetProof,
    grid: ChunkGridParams,
    trusted_grid_hash: [u8; 32],
    sel: Selection,
    order: LeafOrder,
    x: usize,
)
    requires
        subset_answer(root, alg, delivered, p, grid, trusted_grid_hash, sel, order) == Ok::<
            bool,
            MerkleError,
        >(true),
    ensures
        (exists|i: int| 0 <= i < delivered.len() && (#[trigger] delivered[i]).0 == x) <==> is_needed(
            grid.dims@,
            grid.chunk_shape@,
            sel,
            order,
            x,
        ),
{
    let indices = p.chunk_indices@;
    if exists|i: int| 0 <= i < delivered.len() && (#[trigger] delivered[i]).0 == x {
        let i = choose|i: int| 0 <= i < delivered.len() && (#[trigger] delivered[i]).0 == x;
        assert(indices[i] == x);
        assert(indices.contains(x));
    }
    if is_needed(grid.dims@, grid.chunk_shape@, sel, order, x) {
        assert(indices.contains(x));
        let i = choose|i: int| 0 <= i < indices.len() && indices[i] == x;
        assert(delivered[i].0 == x);
    }
}

/// Under row-major numbering every needed leaf is a leaf of the tree over the
/// grid's chunks: extraction does not run out of bounds.
pub proof fn law_row_major_leaves_exist(
    dims: Seq<u64>,
    chunk_shape: Seq<u64>,
    sel: Selection,
    x: usize,
)
    requires
        request_error(dims, chunk_shape, sel) is None,
        is_needed(dims, chunk_shape, sel, LeafOrder::RowMajor, x),
    ensures
        x < suffix_product(chunk_counts(dims, chunk_shape), 0),
{
    let n = chunk_counts(dims, chunk_shape);
    let c = choose|c: Seq<u64>|
        {
            &&& in_grid(c, n)
            &&& #[trigger] chunk_hit(sel, c, chunk_shape)
            &&& leaf_index(c, n, LeafOrder::RowMajor) == x
        };
    lemma_row_major_bound(c, n, 0);
    lemma_checked_total(n);
    lemma_next_pow2(suffix_product(n, 0));
}

// ---------------------------------------------------------------------------
// Attributes
// ---------------------------------------------------------------------------

proof fn lemma_chunks_no_grid(
    root: [u8; 32],
    alg: HashAlg,
    padded: nat,
    delivered: Seq<(usize, Seq<u8>)>,
    leaf_hashes: Seq<[u8; 32]>,
    found: Map<u64, [u8; 32]>,
    i: int,
)
    ensures
        chunks_answer(root, alg, padded, delivered, leaf_hashes, found, i) != Err::<
            bool,
            MerkleError,
        >(MerkleError::GridHashMismatch),
    decreases delivered.len() - i,
{
    if i < delivered.len() {
        lemma_chunks_no_grid(root, alg, padded, delivered, leaf_hashes, found, i + 1);
    }
}

/// A grid whose hash is in a tree's attribute is authenticated by it: against the
/// attribute's hash no verification of that grid ends in `GridHashMismatch`.
pub proof fn law_bound_grid_is_authentic(
    tree: &MerkleTree,
    attr: MerkleAttr,
    companion_hash: [u8; 32],
    grid: ChunkGridParams,
    root: [u8; 32],
    delivered: Seq<(usize, Seq<u8>)>,
    p: SubsetProof,
    sel: Selection,
    order: LeafOrder,
)
    requires
        grid.grid_hash == grid.digest(tree.spec_alg()),
        attr.describes(tree, companion_hash, grid.grid_hash),
    ensures
        subset_answer(
            root,
            attr.algorithm,
            delivered,
            p,
            grid,
            attr.grid_hash,
            sel,
            order,
        ) != Err::<bool, MerkleError>(MerkleError::GridHashMismatch),
{
    lemma_chunks_no_grid(
        root,
        attr.algorithm,
        grid_padded(grid.dims@, grid.chunk_shape@),
        delivered,
        p.leaf_hashes@,
        p.proof_nodes@,
        0,
    );
}

/// The attribute of a tree with the hash of a grid is all that is needed to verify
/// what was extracted from that tree for that grid.
pub proof fn law_attribute_verifies_subset(
    tree: &MerkleTree,
    attr: MerkleAttr,
    companion_hash: [u8; 32],
    leaves: Seq<[u8; 32]>,
    grid: ChunkGridParams,
    sel: Selection,
    order: LeafOrder,
    p: SubsetProof,
    delivered: Seq<(usize, Seq<u8>)>,
)
    requires
        attr.describes(tree, companion_hash, grid.grid_hash),
        tree.is_tree_of(tree.spec_alg(), leaves),
        grid.grid_hash == grid.digest(tree.spec_alg()),
        request_error(grid.dims@, grid.chunk_shape@, sel) is None,
        tree.spec_padded() == grid_padded(grid.dims@, grid.chunk_shape@),
        is_expected(grid.dims@, grid.chunk_shape@, sel, order, p.chunk_indices@),
        all_leaves(tree, p.chunk_indices@),
        is_extraction(p, tree, grid, p.chunk_indices@),
        delivered.len() == p.chunk_indices@.len(),
        forall|i: int|
            0 <= i < delivered.len() ==> {
                &&& (#[trigger] delivered[i]).0 == p.chunk_indices@[i]
                &&& leaf_digest(tree.spec_alg(), delivered[i].1) == leaves[delivered[i].0 as int]
            },
    ensures
        subset_answer(
            attr.root,
            attr.algorithm,
            delivered,
            p,
            grid,
            attr.grid_hash,
            sel,
            order,
        ) == Ok::<bool, MerkleError>(true),
{
    law_extracted_subset_verifies(tree, leaves, grid, sel, order, p, delivered);
}

/// The two hashes of a grid never agree, unless the digest has a collision.
pub proof fn law_grid_hashes_differ(
    alg: HashAlg,
    grid: ChunkGridParams,
    dims: Seq<u64>,
    chunk_shape: Seq<u64>,
)
    requires
        grid.digest(alg) == chunk_grid_digest(alg, dims, chunk_shape),
    ensures
        collision(alg),
{
    let p = grid_preimage(grid.layout_class, grid.elem_size, grid.dims@, grid.chunk_shape@);
    let q = le64_all(dims) + le64_all(chunk_shape);
    lemma_le_len(grid.elem_size as nat, 4);
    lemma_le64_all_len(grid.dims@);
    lemma_le64_all_len(grid.chunk_shape@);
    lemma_le64_all_len(dims);
    lemma_le64_all_len(chunk_shape);
    assert(p.len() % 8 == 6 && q.len() % 8 == 0);
    assert(digest_of(alg, p) == digest_of(alg, q));
}

/// A subset that verifies belongs to the trusted grid hash; its lists have the same
/// chunks in the same increasing order, each with its own hash; and its certificate
/// covers them all together with the grid hash.
pub proof fn law_verified_subset_is_bound(
    root: [u8; 32],
    alg: HashAlg,
    delivered: Seq<(usize, Seq<u8>)>,
    p: SubsetProof,
    grid: ChunkGridParams,
    trusted_grid_hash: [u8; 32],
    sel: Selection,
    order: LeafOrder,
    i: int,
)
    requires
        subset_answer(root, alg, delivered, p, grid, trusted_grid_hash, sel, order) == Ok::<
            bool,
            MerkleError,
        >(true),
        0 <= i < delivered.len(),
    ensures
        grid.digest(alg) == trusted_grid_hash,
        delivered.len() == p.chunk_indices@.len(),
        delivered.len() == p.leaf_hashes@.len(),
        delivered[i].0 == p.chunk_indices@[i],
        leaf_digest(alg, delivered[i].1) == p.leaf_hashes@[i],
        i > 0 ==> delivered[i - 1].0 < delivered[i].0,
        p.coverage_cert == leaf_digest(
            alg,
            le64_all(Seq::new(delivered.len(), |k: int| delivered[k].0 as u64))
                + p.grid_params.grid_hash@,
        ),
{
    lemma_accepted_chunk(
        root,
        alg,
        grid_padded(grid.dims@, grid.chunk_shape@),
        delivered,
        p.leaf_hashes@,
        p.proof_nodes@,
        0,
        i,
    );
    if i > 0 {
        assert(delivered[i - 1].0 == p.chunk_indices@[i - 1]);
    }
    assert(Seq::new(delivered.len(), |k: int| delivered[k].0 as u64) =~= widened(
        p.chunk_indices@,
    ));
}

/// A subset is refused where its grid does not have the trusted hash, where its lists
/// do not have the same lengths, and where a request has another rank than the grid.
pub proof fn law_unbound_subset_is_refused(
    root: [u8; 32],
    alg: HashAlg,
    delivered: Seq<(usize, Seq<u8>)>,
    p: SubsetProof,
    grid: ChunkGridParams,
    trusted_grid_hash: [u8; 32],
    sel: Selection,
    order: LeafOrder,
)
    ensures
        ({
            let answer = subset_answer(
                root,
                alg,
                delivered,
                p,
                grid,
                trusted_grid_hash,
                sel,
                order,
            );
            let known = grid.digest(alg) == trusted_grid_hash;
            &&& !known ==> answer == Err::<bool, MerkleError>(MerkleError::GridHashMismatch)
            &&& known && (delivered.len() != p.chunk_indices@.len() || delivered.len()
                != p.leaf_hashes@.len()) ==> answer == Err::<bool, MerkleError>(
                MerkleError::CompanionTampered,
            )
            &&& sel.spec_rank() is Some && sel.spec_rank()->0 != grid.dims@.len() ==> answer is Err
            &&& answer is Ok ==> answer == Ok::<bool, MerkleError>(true)
        }),
{
    if grid.digest(alg) == trusted_grid_hash {
        lemma_answer_is_true(
            root,
            alg,
            grid_padded(grid.dims@, grid.chunk_shape@),
            delivered,
            p.leaf_hashes@,
            p.proof_nodes@,
            0,
        );
    }
}

proof fn lemma_answer_is_true(
    root: [u8; 32],
    alg: HashAlg,
    padded: nat,
    delivered: Seq<(usize, Seq<u8>)>,
    leaf_hashes: Seq<[u8; 32]>,
    found: Map<u64, [u8; 32]>,
    from: int,
)
    ensures
        chunks_answer(root, alg, padded, delivered, leaf_hashes, found, from) is Ok
            ==> chunks_answer(root, alg, padded, delivered, leaf_hashes, found, from) == Ok::<
            bool,
            MerkleError,
        >(true),
    decreases delivered.len() - from,
{
    if from < delivered.len() {
        lemma_answer_is_true(root, alg, padded, delivered, leaf_hashes, found, from + 1);
    }
}

/// A certificate covers one list of leaves and one grid hash: the same certificate
/// for two is for the same, unless the digest has a collision.
pub proof fn law_certificate_binds_leaves(
    alg: HashAlg,
    a: Seq<usize>,
    b: Seq<usize>,
    grid_a: [u8; 32],
    grid_b: [u8; 32],
)
    requires
        cert_digest(alg, a, grid_a) == cert_digest(alg, b, grid_b),
    ensures
        (a == b && grid_a == grid_b) || collision(alg),
{
    let x = le64_all(widened(a)) + grid_a@;
    let y = le64_all(widened(b)) + grid_b@;
    crate::tree::lemma_leaf_binds(alg, x, y);
    if x == y {
        crate::bytes::lemma_le64_all_len(widened(a));
        crate::bytes::lemma_le64_all_len(widened(b));
        let n = 8 * a.len() as int;
        assert(x.len() == n + 32 && y.len() == 8 * b.len() + 32);
        assert(x.take(n) =~= le64_all(widened(a)));
        assert(y.take(n) =~= le64_all(widened(b)));
        assert(x.skip(n) =~= grid_a@);
        assert(y.skip(n) =~= grid_b@);
        crate::bytes::lemma_le64_all_injective(widened(a), widened(b));
        assert forall|i: int| 0 <= i < a.len() implies a[i] == b[i] by {
            assert(widened(a)[i] == widened(b)[i]);
        }
        assert(a =~= b);
        crate::digest::lemma_digest_ext(grid_a, grid_b);
    }
}

} // verus!
