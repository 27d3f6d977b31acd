//! Trees over contiguous datasets, built in memory or batch by batch.

use crate::bytes::joined;
use crate::chunk_grid::{checked_total, chunk_counts, lemma_checked_total, ChunkGridParams};
use crate::digest::{leaf_digest, HashAlg};
use crate::tree::{
    leaf_digests, lemma_next_pow2, lemma_next_pow2_monotonic, next_pow2, slice_views, MerkleTree,
};
use crate::verification_grid::{
    byte_size, ceil_div, exceeds_target, is_grid_at, is_verification_grid,
    law_grid_tiles_contiguously, law_leaf_ranges_partition, leaf_byte_range, leaf_end, leaf_start,
    leaf_total, lemma_leaf_inside, lemma_squares_fit, lemma_suffix_zero, lemma_tile_counts,
    run_bytes, run_elems, split_at_axis, start_elems, stays_whole, suffix_product, target_fits,
    tile_counts, verification_grid, LayoutClass,
};
use vstd::arithmetic::mul::{lemma_mul_inequality, lemma_mul_is_commutative};
use vstd::prelude::*;
use vstd::slice::slice_to_vec;

verus! {

/// Bytes of a batch when a dataset is streamed: 64 MiB.
pub const STREAM_BUDGET_BYTES: u64 = 67_108_864;

/// Whether `shape` is the leaf shape of a contiguous dataset: its verification
/// grid, or the whole dataspace where the dataset stays a single leaf.
pub open spec fn is_tiling(shape: Seq<u64>, dims: Seq<u64>, elem_size: u32, target: u64) -> bool {
    if stays_whole(dims, elem_size, target) {
        shape == dims
    } else {
        is_verification_grid(shape, dims, elem_size, target)
    }
}

/// The contents of the leaves.
pub open spec fn leaf_slices(
    data: Seq<u8>,
    shape: Seq<u64>,
    dims: Seq<u64>,
    elem_size: u32,
) -> Seq<Seq<u8>> {
    Seq::new(
        leaf_total(shape, dims),
        |i: int|
            data.subrange(
                leaf_start(shape, dims, elem_size, i),
                leaf_end(shape, dims, elem_size, i),
            ),
    )
}

/// Whether the tree over the leaves fits in memory's address range.
pub open spec fn leaves_fit(dims: Seq<u64>, elem_size: u32, target: u64) -> bool {
    forall|shape: Seq<u64>|
        #[trigger] is_tiling(shape, dims, elem_size, target) ==> next_pow2(leaf_total(shape, dims))
            <= usize::MAX
}

/// Whether `grid` is the grid of a contiguous dataset.
pub open spec fn is_contiguous_grid(
    grid: ChunkGridParams,
    dims: Seq<u64>,
    elem_size: u32,
    target: u64,
    alg: HashAlg,
) -> bool {
    &&& grid.layout_class == LayoutClass::Contiguous
    &&& grid.dims@ == dims
    &&& grid.elem_size == elem_size
    &&& is_tiling(grid.chunk_shape@, dims, elem_size, target)
    &&& grid.grid_hash == grid.digest(alg)
}

// ---------------------------------------------------------------------------
// Facts about tilings
// ---------------------------------------------------------------------------

proof fn lemma_all_ones(s: Seq<u64>, i: int)
    requires
        0 <= i <= s.len(),
        forall|j: int| 0 <= j < s.len() ==> #[trigger] s[j] == 1,
    ensures
        suffix_product(s, i) == 1,
    decreases s.len() - i,
{
    if i < s.len() {
        lemma_all_ones(s, i + 1);
        assert(s[i] == 1);
    }
}

/// Fewer tiles than elements along each axis make fewer tiles than elements.
proof fn lemma_fewer(n: Seq<u64>, dims: Seq<u64>, i: int)
    requires
        n.len() == dims.len(),
        0 <= i <= n.len(),
        forall|j: int| 0 <= j < n.len() ==> 1 <= #[trigger] n[j] <= dims[j],
    ensures
        1 <= suffix_product(n, i) <= suffix_product(dims, i),
    decreases n.len() - i,
{
    if i < n.len() {
        lemma_fewer(n, dims, i + 1);
        let a = suffix_product(n, i + 1) as int;
        let b = suffix_product(dims, i + 1) as int;
        assert(1 <= n[i] <= dims[i]);
        assert(1 <= n[i] * a <= dims[i] * b) by (nonlinear_arith)
            requires
                1 <= n[i] <= dims[i],
                1 <= a <= b,
        ;
    }
}

proof fn lemma_total_is_checked(n: Seq<u64>)
    requires
        forall|j: int| 0 <= j < n.len() ==> #[trigger] n[j] >= 1,
        suffix_product(n, 0) <= u64::MAX,
    ensures
        checked_total(n) is Some,
    decreases n.len(),
{
    if n.len() > 0 {
        let m = n.drop_last();
        assert(m.push(n.last()) =~= n);
        crate::chunk_grid::lemma_suffix_push(m, n.last(), 0);
        assert(n.last() >= 1);
        assert forall|j: int| 0 <= j < m.len() implies #[trigger] m[j] >= 1 by {
            assert(m[j] == n[j]);
        }
        lemma_mul_inequality(1, n.last() as int, suffix_product(m, 0) as int);
        lemma_mul_is_commutative(n.last() as int, suffix_product(m, 0) as int);
        lemma_total_is_checked(m);
        lemma_checked_total(m);
    }
}

proof fn lemma_small_total_is_checked(n: Seq<u64>)
    requires
        forall|j: int| 0 <= j < n.len() ==> #[trigger] n[j] <= 1,
    ensures
        checked_total(n) is Some,
        checked_total(n)->0 <= 1,
    decreases n.len(),
{
    if n.len() > 0 {
        let m = n.drop_last();
        assert forall|j: int| 0 <= j < m.len() implies #[trigger] m[j] <= 1 by {
            assert(m[j] == n[j]);
        }
        lemma_small_total_is_checked(m);
        let t = checked_total(m)->0;
        assert(n.last() <= 1);
        assert(t * n.last() <= 1) by (nonlinear_arith)
            requires
                0 <= t <= 1,
                n.last() <= 1,
        ;
    }
}

proof fn lemma_one_tile(d: u64)
    requires
        d >= 1,
    ensures
        ceil_div(d as int, d as int) == 1,
{
    crate::verification_grid::lemma_ceil_div(d as int, d as int);
    let q = ceil_div(d as int, d as int);
    if q >= 2 {
        assert((q - 1) * d >= d) by (nonlinear_arith)
            requires
                q >= 2,
                d >= 1,
        ;
    }
    if q <= 0 {
        assert(q * d <= 0) by (nonlinear_arith)
            requires
                q <= 0,
                d >= 1,
        ;
    }
}

/// What holds of every tiling: its shape, how many leaves it has, and that the
/// grid's own chunk count agrees.
proof fn lemma_tiling_shape(shape: Seq<u64>, dims: Seq<u64>, elem_size: u32, target: u64)
    requires
        is_tiling(shape, dims, elem_size, target),
        byte_size(dims, elem_size) <= u64::MAX,
    ensures
        shape.len() == dims.len(),
        chunk_counts(dims, shape) == tile_counts(shape, dims),
        checked_total(chunk_counts(dims, shape)) is Some,
        leaf_total(shape, dims) <= u64::MAX,
        dims.contains(0) ==> leaf_total(shape, dims) == 0,
        stays_whole(dims, elem_size, target) ==> leaf_total(shape, dims) <= 1,
        elem_size >= 1 ==> leaf_total(shape, dims) <= byte_size(dims, elem_size) + 1,
        !stays_whole(dims, elem_size, target) ==> {
            &&& forall|i: int| 0 <= i < dims.len() ==> 1 <= #[trigger] shape[i] <= dims[i]
            &&& leaf_total(shape, dims) <= byte_size(dims, elem_size)
        },
{
    let n = tile_counts(shape, dims);
    if stays_whole(dims, elem_size, target) {
        assert forall|i: int| 0 <= i < dims.len() implies (#[trigger] n[i] <= 1 && n[i] == (
        if dims[i] == 0 {
            0u64
        } else {
            1u64
        })) by {
            if dims[i] >= 1 {
                lemma_one_tile(dims[i]);
            }
        }
        assert(chunk_counts(dims, shape) =~= n) by {
            assert forall|i: int| 0 <= i < dims.len() implies #[trigger] chunk_counts(
                dims,
                shape,
            )[i] == n[i] by {
                if dims[i] >= 1 {
                    lemma_one_tile(dims[i]);
                }
            }
        }
        lemma_small_total_is_checked(n);
        lemma_checked_total(n);
        if dims.contains(0) {
            let z = choose|z: int| 0 <= z < dims.len() && dims[z] == 0;
            assert(n[z] == 0);
            lemma_suffix_zero(n, 0, z);
        }
    } else {
        law_grid_tiles_contiguously(shape, dims, elem_size, target);
        assert forall|i: int| 0 <= i < n.len() implies 1 <= #[trigger] n[i] <= dims[i] by {
            assert(1 <= shape[i] <= dims[i]);
            lemma_tile_counts(shape, dims, i);
        }
        assert(chunk_counts(dims, shape) =~= n) by {
            assert forall|i: int| 0 <= i < dims.len() implies #[trigger] chunk_counts(
                dims,
                shape,
            )[i] == n[i] by {
                assert(1 <= shape[i]);
            }
        }
        lemma_fewer(n, dims, 0);
        lemma_mul_inequality(1, elem_size as int, suffix_product(dims, 0) as int);
        lemma_total_is_checked(n);
        if dims.contains(0) {
            let z = choose|z: int| 0 <= z < dims.len() && dims[z] == 0;
            assert(shape[z] <= dims[z]);
        }
    }
}

/// The leaves of a tiling lie one after another over the data.
proof fn lemma_tiling_ranges(
    shape: Seq<u64>,
    dims: Seq<u64>,
    elem_size: u32,
    target: u64,
    idx: int,
)
    requires
        is_tiling(shape, dims, elem_size, target),
        byte_size(dims, elem_size) <= u64::MAX,
        0 <= idx < leaf_total(shape, dims),
    ensures
        leaf_start(shape, dims, elem_size, 0) == 0,
        0 <= leaf_start(shape, dims, elem_size, idx) <= leaf_end(shape, dims, elem_size, idx)
            <= byte_size(dims, elem_size),
        idx + 1 < leaf_total(shape, dims) ==> leaf_end(shape, dims, elem_size, idx) == leaf_start(
            shape,
            dims,
            elem_size,
            idx + 1,
        ),
        idx + 1 == leaf_total(shape, dims) ==> leaf_end(shape, dims, elem_size, idx) == byte_size(
            dims,
            elem_size,
        ),
        forall|j: int| 0 <= j < dims.len() ==> #[trigger] dims[j] >= 1,
{
    lemma_tiling_shape(shape, dims, elem_size, target);
    assert forall|j: int| 0 <= j < dims.len() implies #[trigger] dims[j] >= 1 by {
        assert(dims.contains(dims[j]));
    }
    lemma_leaf_inside(shape, dims, idx, 0);
    let n = tile_counts(shape, dims);
    let s = start_elems(shape, dims, n, idx, 0);
    let e = run_elems(shape, dims, n, idx, 0);
    let total = suffix_product(dims, 0) as int;
    assert(0 <= s * elem_size <= s * elem_size + e * elem_size <= elem_size * total)
        by (nonlinear_arith)
        requires
            0 <= s,
            0 <= e,
            s + e <= total,
            elem_size >= 0,
    ;
    if elem_size == 0 {
        lemma_leaf_inside(shape, dims, 0, 0);
        lemma_leaf_inside(shape, dims, idx + 1, 0);
        let s0 = start_elems(shape, dims, n, 0, 0);
        let s1 = start_elems(shape, dims, n, idx + 1, 0);
        assert(s0 * elem_size == 0 && s1 * elem_size == 0 && s * elem_size == 0 && e * elem_size
            == 0 && elem_size * total == 0) by (nonlinear_arith)
            requires
                elem_size == 0,
        ;
    } else if dims.len() == 0 {
        assert(n.len() == 0);
        assert(leaf_total(shape, dims) == 1);
        assert(s == 0 && e == 1 && total == 1);
        assert(start_elems(shape, dims, n, 0, 0) == 0);
        assert(s * elem_size == 0 && e * elem_size == elem_size && elem_size * total == elem_size)
            by (nonlinear_arith)
            requires
                s == 0,
                e == 1,
                total == 1,
        ;
    } else if stays_whole(dims, elem_size, target) {
        assert(split_at_axis(shape, dims, 0));
        law_leaf_ranges_partition(shape, dims, elem_size, 0, idx);
    } else {
        let k = choose|k: int| is_grid_at(shape, dims, elem_size, target, k);
        assert(1 <= shape[k] <= dims[k]);
        law_leaf_ranges_partition(shape, dims, elem_size, k, idx);
    }
}

/// A dataset that fits in memory has few enough leaves for its tree to fit.
pub proof fn lemma_leaves_fit(dims: Seq<u64>, elem_size: u32, target: u64)
    requires
        byte_size(dims, elem_size) <= isize::MAX,
    ensures
        leaves_fit(dims, elem_size, target),
{
    assert forall|shape: Seq<u64>| #[trigger]
        is_tiling(shape, dims, elem_size, target) implies next_pow2(leaf_total(shape, dims))
        <= usize::MAX by {
        lemma_tiling_shape(shape, dims, elem_size, target);
        let total = leaf_total(shape, dims);
        let half = (isize::MAX + 1) as nat;
        assert(total <= half);
        lemma_next_pow2_monotonic(total, half);
        lemma_half_is_pow2();
    }
}

proof fn lemma_half_is_pow2()
    ensures
        next_pow2((isize::MAX + 1) as nat) <= usize::MAX,
{
    assert(isize::MAX == 0x7fff_ffff || isize::MAX == 0x7fff_ffff_ffff_ffff);
    let half = (isize::MAX + 1) as nat;
    assert(crate::tree::is_pow2(0x8000_0000nat)) by {
        reveal_with_fuel(crate::tree::is_pow2, 33);
    }
    assert(crate::tree::is_pow2(0x8000_0000_0000_0000nat)) by {
        reveal_with_fuel(crate::tree::is_pow2, 65);
    }
    crate::tree::lemma_next_pow2_fixed(half);
}

/// The leaves of a contiguous dataset, put together, are its data: nothing is
/// left out, doubled or moved.
pub proof fn law_leaves_cover_data(
    data: Seq<u8>,
    shape: Seq<u64>,
    dims: Seq<u64>,
    elem_size: u32,
    target: u64,
)
    requires
        is_tiling(shape, dims, elem_size, target),
        data.len() == byte_size(dims, elem_size),
        data.len() <= u64::MAX,
    ensures
        joined(leaf_slices(data, shape, dims, elem_size)) == data,
{
    let parts = leaf_slices(data, shape, dims, elem_size);
    lemma_tiling_shape(shape, dims, elem_size, target);
    if parts.len() == 0 {
        lemma_no_leaves(shape, dims, elem_size, target);
        assert(joined(parts) =~= data);
    } else {
        lemma_joined_prefix(data, shape, dims, elem_size, target, parts.len() as int);
        assert(parts.take(parts.len() as int) =~= parts);
        lemma_tiling_ranges(shape, dims, elem_size, target, parts.len() - 1);
        assert(data.take(data.len() as int) =~= data);
    }
}

/// Only a dataset without bytes has no leaves.
proof fn lemma_no_leaves(shape: Seq<u64>, dims: Seq<u64>, elem_size: u32, target: u64)
    requires
        is_tiling(shape, dims, elem_size, target),
        byte_size(dims, elem_size) <= u64::MAX,
        leaf_total(shape, dims) == 0,
    ensures
        byte_size(dims, elem_size) == 0,
{
    lemma_tiling_shape(shape, dims, elem_size, target);
    if !dims.contains(0) {
        assert forall|i: int| 0 <= i < dims.len() implies #[trigger] dims[i] >= 1 by {
            assert(dims.contains(dims[i]));
        }
        let n = tile_counts(shape, dims);
        assert forall|i: int| 0 <= i < n.len() implies 1 <= #[trigger] n[i] <= dims[i] by {
            assert(dims[i] >= 1);
            lemma_tile_counts(shape, dims, i);
        }
        lemma_fewer(n, dims, 0);
        assert(false);
    }
    let z = choose|z: int| 0 <= z < dims.len() && dims[z] == 0;
    lemma_suffix_zero(dims, 0, z);
    assert(elem_size as nat * suffix_product(dims, 0) == 0) by (nonlinear_arith)
        requires
            suffix_product(dims, 0) == 0,
    ;
}

proof fn lemma_joined_prefix(
    data: Seq<u8>,
    shape: Seq<u64>,
    dims: Seq<u64>,
    elem_size: u32,
    target: u64,
    m: int,
)
    requires
        is_tiling(shape, dims, elem_size, target),
        data.len() == byte_size(dims, elem_size),
        data.len() <= u64::MAX,
        1 <= m <= leaf_total(shape, dims),
    ensures
        joined(leaf_slices(data, shape, dims, elem_size).take(m)) == data.take(
            leaf_end(shape, dims, elem_size, m - 1),
        ),
    decreases m,
{
    let parts = leaf_slices(data, shape, dims, elem_size);
    let head = parts.take(m);
    lemma_tiling_ranges(shape, dims, elem_size, target, m - 1);
    assert(head.drop_last() =~= parts.take(m - 1));
    let from = leaf_start(shape, dims, elem_size, m - 1);
    let to = leaf_end(shape, dims, elem_size, m - 1);
    if m > 1 {
        lemma_joined_prefix(data, shape, dims, elem_size, target, m - 1);
        lemma_tiling_ranges(shape, dims, elem_size, target, m - 2);
    } else {
        assert(joined(head.drop_last()) =~= Seq::empty());
    }
    assert(data.take(to) =~= data.take(from) + data.subrange(from, to));
}

// ---------------------------------------------------------------------------
// In memory
// ---------------------------------------------------------------------------

fn tile_shape(dims: &[u64], elem_size: u32, target_bytes: u64) -> (shape: Vec<u64>)
    requires
        byte_size(dims@, elem_size) <= i64::MAX,
        target_fits(dims@, elem_size, target_bytes),
    ensures
        is_tiling(shape@, dims@, elem_size, target_bytes),
{
    proof {
        lemma_squares_fit(dims@, elem_size, target_bytes);
    }
    match verification_grid(dims, elem_size, target_bytes) {
        Some(g) => g,
        None => slice_to_vec(dims),
    }
}

/// Builds the tree and the grid of a contiguous dataset from its bytes.
pub fn contiguous_tree_and_grid(
    data: &[u8],
    dims: &[u64],
    elem_size: u32,
    target_bytes: u64,
    alg: HashAlg,
) -> (r: (MerkleTree, ChunkGridParams))
    requires
        data@.len() == byte_size(dims@, elem_size),
        data@.len() <= isize::MAX,
        target_fits(dims@, elem_size, target_bytes),
    ensures
        is_contiguous_grid(r.1, dims@, elem_size, target_bytes, alg),
        r.0.is_tree_of(
            alg,
            leaf_digests(alg, leaf_slices(data@, r.1.chunk_shape@, dims@, elem_size)),
        ),
{
    proof {
        lemma_leaves_fit(dims@, elem_size, target_bytes);
    }
    let chunk_shape: Vec<u64> = tile_shape(dims, elem_size, target_bytes);
    let grid: ChunkGridParams = ChunkGridParams::new(
        slice_to_vec(dims),
        chunk_shape,
        elem_size,
        LayoutClass::Contiguous,
        alg,
    );
    let ghost shape = grid.chunk_shape@;
    proof {
        assert(is_tiling(shape, dims@, elem_size, target_bytes));
        lemma_tiling_shape(shape, dims@, elem_size, target_bytes);
    }
    let total_leaves: u64 = grid.total_chunk_count();
    let ghost parts = leaf_slices(data@, shape, dims@, elem_size);
    let mut leaves: Vec<&[u8]> = Vec::new();
    let mut idx: u64 = 0;
    while idx < total_leaves
        invariant
            idx <= total_leaves,
            total_leaves == leaf_total(shape, dims@),
            shape == grid.chunk_shape@,
            is_tiling(shape, dims@, elem_size, target_bytes),
            shape.len() == dims@.len(),
            data@.len() == byte_size(dims@, elem_size),
            data@.len() <= isize::MAX,
            parts == leaf_slices(data@, shape, dims@, elem_size),
            leaves@.len() == idx,
            forall|j: int| 0 <= j < idx ==> (#[trigger] leaves@[j])@ == parts[j],
        decreases total_leaves - idx,
    {
        proof {
            lemma_tiling_ranges(shape, dims@, elem_size, target_bytes, idx as int);
        }
        let range = leaf_byte_range(grid.chunk_shape.as_slice(), dims, elem_size, idx);
        let from: usize = range.start as usize;
        let to: usize = range.end as usize;
        leaves.push(&data[from..to]);
        idx = idx + 1;
    }
    assert(slice_views(leaves@) =~= parts);
    let tree: MerkleTree = MerkleTree::from_chunks_parallel(leaves.as_slice(), alg);
    (tree, grid)
}

// ---------------------------------------------------------------------------
// Batch by batch
// ---------------------------------------------------------------------------

/// A run of leaves to be read and hashed at once.
#[derive(Debug, Clone, Copy, PartialEq, Eq)]
pub struct Batch {
    /// The first leaf.
    pub first: usize,
    /// One past the last leaf.
    pub end: usize,
    /// Where the run starts in the data.
    pub start: u64,
    /// Bytes of the run.
    pub len: u64,
}

/// The state of building a contiguous dataset's tree from its bytes in order.
///
/// As long as `next_batch` names a batch, its bytes are to be read and given to
/// `push_batch`; after the last one `finish` gives the tree.
pub struct ContiguousStream {
    grid: ChunkGridParams,
    alg: HashAlg,
    ranges: Vec<(u64, u64)>,
    leaf_hashes: Vec<[u8; 32]>,
    target: Ghost<u64>,
}

impl ContiguousStream {
    pub closed spec fn spec_grid(&self) -> ChunkGridParams {
        self.grid
    }

    pub closed spec fn spec_alg(&self) -> HashAlg {
        self.alg
    }

    /// The leaf hashes so far.
    pub closed spec fn spec_hashes(&self) -> Seq<[u8; 32]> {
        self.leaf_hashes@
    }

    /// The leaves of the dataset.
    pub open spec fn spec_total(&self) -> nat {
        leaf_total(self.spec_grid().chunk_shape@, self.spec_grid().dims@)
    }

    /// The first byte of leaf `i`.
    pub open spec fn start_of(&self, i: int) -> int {
        leaf_start(
            self.spec_grid().chunk_shape@,
            self.spec_grid().dims@,
            self.spec_grid().elem_size,
            i,
        )
    }

    /// One past the last byte of leaf `i`.
    pub open spec fn end_of(&self, i: int) -> int {
        leaf_end(
            self.spec_grid().chunk_shape@,
            self.spec_grid().dims@,
            self.spec_grid().elem_size,
            i,
        )
    }

    /// The invariant.
    pub closed spec fn wf(&self) -> bool {
        let g = self.grid;
        &&& is_contiguous_grid(g, g.dims@, g.elem_size, self.target@, self.alg)
        &&& byte_size(g.dims@, g.elem_size) <= i64::MAX
        &&& next_pow2(self.spec_total()) <= usize::MAX
        &&& self.ranges@.len() == self.spec_total()
        &&& forall|i: int|
            0 <= i < self.ranges@.len() ==> (#[trigger] self.ranges@[i]).0 == self.start_of(i)
                && self.ranges@[i].1 == self.end_of(i)
        &&& self.leaf_hashes@.len() <= self.spec_total()
    }

    /// Whether all leaves are hashed.
    pub open spec fn done(&self) -> bool {
        self.spec_hashes().len() == self.spec_total()
    }

    /// Whether the hashes so far are those of the first leaves of `data`.
    pub open spec fn agrees_with(&self, data: Seq<u8>) -> bool {
        let all = leaf_slices(
            data,
            self.spec_grid().chunk_shape@,
            self.spec_grid().dims@,
            self.spec_grid().elem_size,
        );
        &&& self.spec_hashes().len() <= all.len()
        &&& forall|i: int|
            0 <= i < self.spec_hashes().len() ==> #[trigger] self.spec_hashes()[i] == leaf_digest(
                self.spec_alg(),
                all[i],
            )
    }

    /// Whether `b` is the next batch: the leaves from the first unhashed one on,
    /// as many as fit the budget, but at least one.
    pub open spec fn is_next(&self, b: Batch) -> bool {
        &&& b.first == self.spec_hashes().len()
        &&& b.first < b.end <= self.spec_total()
        &&& b.start == self.start_of(b.first as int)
        &&& b.start + b.len == self.end_of(b.end - 1)
        &&& b.end == b.first + 1 || b.len <= STREAM_BUDGET_BYTES
        &&& b.end < self.spec_total() ==> self.end_of(b.end as int) - b.start > STREAM_BUDGET_BYTES
    }

    /// Whether `after` is the state once `bytes` have been pushed as the next
    /// batch: its leaves are hashed, and nothing else changes.
    pub open spec fn is_push(&self, bytes: Seq<u8>, after: Self) -> bool {
        &&& after.wf()
        &&& after.spec_grid() == self.spec_grid()
        &&& after.spec_alg() == self.spec_alg()
        &&& forall|b: Batch| #[trigger]
            self.is_next(b) && b.len == bytes.len() ==> {
                &&& after.spec_hashes().len() == b.end
                &&& after.spec_hashes().take(b.first as int) == self.spec_hashes()
                &&& forall|i: int|
                    b.first <= i < b.end ==> #[trigger] after.spec_hashes()[i] == leaf_digest(
                        self.spec_alg(),
                        bytes.subrange(self.start_of(i) - b.start, self.end_of(i) - b.start),
                    )
            }
    }

    /// Whether `after` is the state once the next batch has been taken from `data`.
    pub open spec fn takes(&self, data: Seq<u8>, after: Self) -> bool {
        exists|b: Batch| #[trigger]
            self.is_next(b) && b.start + b.len <= data.len() && self.is_push(
                data.subrange(b.start as int, b.start + b.len),
                after,
            )
    }

    /// The state before the first batch.
    pub fn new(dims: &[u64], elem_size: u32, target_bytes: u64, alg: HashAlg) -> (s: Self)
        requires
            byte_size(dims@, elem_size) <= i64::MAX,
            target_fits(dims@, elem_size, target_bytes),
            leaves_fit(dims@, elem_size, target_bytes),
        ensures
            s.wf(),
            is_contiguous_grid(s.spec_grid(), dims@, elem_size, target_bytes, alg),
            s.spec_alg() == alg,
            s.spec_hashes().len() == 0,
    {
        let chunk_shape: Vec<u64> = tile_shape(dims, elem_size, target_bytes);
        let grid: ChunkGridParams = ChunkGridParams::new(
            slice_to_vec(dims),
            chunk_shape,
            elem_size,
            LayoutClass::Contiguous,
            alg,
        );
        let ghost shape = grid.chunk_shape@;
        proof {
            assert(is_tiling(shape, dims@, elem_size, target_bytes));
            lemma_tiling_shape(shape, dims@, elem_size, target_bytes);
            lemma_next_pow2(leaf_total(shape, dims@));
        }
        let total_leaves: u64 = grid.total_chunk_count();
        let mut ranges: Vec<(u64, u64)> = Vec::new();
        let mut idx: u64 = 0;
        while idx < total_leaves
            invariant
                idx <= total_leaves,
                total_leaves == leaf_total(shape, dims@),
                shape == grid.chunk_shape@,
                is_tiling(shape, dims@, elem_size, target_bytes),
                shape.len() == dims@.len(),
                byte_size(dims@, elem_size) <= i64::MAX,
                ranges@.len() == idx,
                forall|j: int|
                    0 <= j < idx ==> (#[trigger] ranges@[j]).0 == leaf_start(
                        shape,
                        dims@,
                        elem_size,
                        j,
                    ) && ranges@[j].1 == leaf_end(shape, dims@, elem_size, j),
            decreases total_leaves - idx,
        {
            proof {
                lemma_tiling_ranges(shape, dims@, elem_size, target_bytes, idx as int);
            }
            let range = leaf_byte_range(grid.chunk_shape.as_slice(), dims, elem_size, idx);
            ranges.push((range.start, range.end));
            idx = idx + 1;
        }
        ContiguousStream {
            grid,
            alg,
            ranges,
            leaf_hashes: Vec::new(),
            target: Ghost(target_bytes),
        }
    }

    /// The batch to read next, `None` once all leaves are hashed.
    pub fn next_batch(&self) -> (r: Option<Batch>)
        requires
            self.wf(),
        ensures
            match r {
                Some(b) => self.is_next(b),
                None => self.done(),
            },
    {
        let i: usize = self.leaf_hashes.len();
        if i >= self.ranges.len() {
            return None;
        }
        let base: u64 = self.ranges[i].0;
        let mut j: usize = i;
        let ghost g = self.grid;
        proof {
            self.lemma_ranges(i as int, i as int);
        }
        while j < self.ranges.len() && self.ranges[j].1 - base <= STREAM_BUDGET_BYTES
            invariant
                self.wf(),
                i == self.leaf_hashes@.len(),
                i < self.ranges@.len(),
                i <= j <= self.ranges@.len(),
                base == self.ranges@[i as int].0,
                j < self.ranges@.len() ==> base <= self.ranges@[j as int].1,
                j > i ==> self.ranges@[j - 1].1 - base <= STREAM_BUDGET_BYTES,
                j > i ==> self.ranges@[j - 1].1 >= base,
            decreases self.ranges@.len() - j,
        {
            j = j + 1;
            proof {
                if j < self.ranges@.len() {
                    self.lemma_ranges(i as int, j as int);
                }
            }
        }
        if j == i {
            j = i + 1;
        }
        proof {
            self.lemma_ranges(i as int, j - 1);
            assert(self.ranges@[i as int].0 == self.start_of(i as int));
            assert(self.ranges@[j - 1].1 == self.end_of(j - 1));
            if j < self.ranges@.len() {
                assert(self.ranges@[j as int].1 == self.end_of(j as int));
                self.lemma_ends(j - 1, j as int);
            }
        }
        Some(Batch { first: i, end: j, start: base, len: self.ranges[j - 1].1 - base })
    }

    proof fn lemma_ranges(&self, i: int, j: int)
        requires
            self.wf(),
            0 <= i <= j < self.ranges@.len(),
        ensures
            self.ranges@[i].0 <= self.ranges@[j].0 <= self.ranges@[j].1,
            self.ranges@[i].0 <= self.ranges@[j].1,
            self.ranges@[j].1 <= byte_size(self.grid.dims@, self.grid.elem_size),
            j + 1 < self.ranges@.len() ==> self.ranges@[j].1 == self.ranges@[j + 1].0,
        decreases j - i,
    {
        let g = self.grid;
        assert(self.ranges@[j].0 == self.start_of(j));
        lemma_tiling_ranges(g.chunk_shape@, g.dims@, g.elem_size, self.target@, j);
        if j + 1 < self.ranges@.len() {
            assert(self.ranges@[j + 1].0 == self.start_of(j + 1));
        }
        if i < j {
            self.lemma_ranges(i, j - 1);
        }
    }

    /// Hashes the leaves of the next batch, whose bytes are `bytes`.
    pub fn push_batch(&mut self, bytes: &[u8])
        requires
            old(self).wf(),
            exists|b: Batch| #[trigger] old(self).is_next(b) && b.len == bytes@.len(),
        ensures
            final(self).wf(),
            final(self).spec_grid() == old(self).spec_grid(),
            final(self).spec_alg() == old(self).spec_alg(),
            old(self).is_push(bytes@, *final(self)),
            forall|data: Seq<u8>, b: Batch|
                #![trigger old(self).agrees_with(data), old(self).is_next(b)]
                {
                    &&& old(self).agrees_with(data)
                    &&& old(self).is_next(b)
                    &&& bytes@ == data.subrange(b.start as int, b.start + b.len)
                    &&& b.start + b.len <= data.len()
                } ==> final(self).agrees_with(data),
    {
        let ghost before = *self;
        let ghost wanted = choose|b: Batch| #[trigger]
            self.is_next(b) && b.len == bytes@.len();
        match self.next_batch() {
            None => {},
            Some(b) => {
                proof {
                    self.lemma_next_unique(b, wanted);
                }
                let ghost alg = self.alg;
                let mut slices: Vec<&[u8]> = Vec::new();
                let len: usize = bytes.len();
                let mut i: usize = b.first;
                while i < b.end
                    invariant
                        *self == before,
                        self.wf(),
                        self.is_next(b),
                        b.len == len == bytes@.len(),
                        b.first <= i <= b.end,
                        slices@.len() == i - b.first,
                        forall|j: int|
                            0 <= j < slices@.len() ==> (#[trigger] slices@[j])@ == bytes@.subrange(
                                self.start_of(b.first + j) - b.start,
                                self.end_of(b.first + j) - b.start,
                            ),
                    decreases b.end - i,
                {
                    proof {
                        self.lemma_ranges(b.first as int, i as int);
                        self.lemma_ranges(i as int, b.end - 1);
                        self.lemma_ends(i as int, b.end - 1);
                        assert(self.ranges@[b.first as int].0 == b.start);
                        assert(self.ranges@[b.end - 1].1 == b.start + b.len);
                    }
                    let from: usize = (self.ranges[i].0 - b.start) as usize;
                    let to: usize = (self.ranges[i].1 - b.start) as usize;
                    slices.push(&bytes[from..to]);
                    i = i + 1;
                }
                let mut batch: Vec<[u8; 32]> = crate::tree::hash_chunks_parallel(
                    slices.as_slice(),
                    self.alg,
                );
                self.leaf_hashes.append(&mut batch);
                proof {
                    let hashes = self.leaf_hashes@;
                    assert(hashes.take(b.first as int) =~= before.leaf_hashes@);
                    assert forall|i: int| b.first <= i < b.end implies #[trigger] hashes[i]
                        == leaf_digest(
                        alg,
                        bytes@.subrange(
                            before.start_of(i) - b.start,
                            before.end_of(i) - b.start,
                        ),
                    ) by {
                        assert(hashes[i] == leaf_digest(alg, slices@[i - b.first]@));
                    }
                    assert forall|c: Batch| #[trigger] before.is_next(c) && c.len
                        == bytes@.len() implies c == b by {
                        before.lemma_next_unique(b, c);
                    }
                    assert forall|data: Seq<u8>, c: Batch|
                        #![trigger before.agrees_with(data), before.is_next(c)]
                        {
                            &&& before.agrees_with(data)
                            &&& before.is_next(c)
                            &&& bytes@ == data.subrange(c.start as int, c.start + c.len)
                            &&& c.start + c.len <= data.len()
                        } implies self.agrees_with(data) by {
                        before.lemma_next_unique(b, c);
                        before.lemma_batch_agrees(*self, data, bytes@, b);
                    }
                }
            },
        }
    }

    proof fn lemma_ends(&self, i: int, j: int)
        requires
            self.wf(),
            0 <= i <= j < self.ranges@.len(),
        ensures
            self.ranges@[i].1 <= self.ranges@[j].1,
        decreases j - i,
    {
        if i < j {
            self.lemma_ranges(i, j);
            self.lemma_ranges(i, i);
            self.lemma_ranges(i + 1, j);
        }
    }

    proof fn lemma_next_unique(&self, a: Batch, b: Batch)
        requires
            self.wf(),
            self.is_next(a),
            self.is_next(b),
        ensures
            a == b,
    {
        assert(self.ranges@[a.first as int].0 == a.start);
        if a.end < b.end {
            assert(self.ranges@[a.end as int].1 == self.end_of(a.end as int));
            assert(self.ranges@[b.end - 1].1 == self.end_of(b.end - 1));
            self.lemma_ends(a.end as int, b.end - 1);
        }
        if b.end < a.end {
            assert(self.ranges@[b.end as int].1 == self.end_of(b.end as int));
            assert(self.ranges@[a.end - 1].1 == self.end_of(a.end - 1));
            self.lemma_ends(b.end as int, a.end - 1);
        }
    }

    proof fn lemma_batch_agrees(&self, after: Self, data: Seq<u8>, bytes: Seq<u8>, b: Batch)
        requires
            self.wf(),
            self.is_next(b),
            self.agrees_with(data),
            after.grid == self.grid,
            after.alg == self.alg,
            bytes == data.subrange(b.start as int, b.start + b.len),
            b.start + b.len <= data.len(),
            after.leaf_hashes@.len() == b.end,
            after.leaf_hashes@.take(b.first as int) == self.leaf_hashes@,
            forall|i: int|
                b.first <= i < b.end ==> #[trigger] after.leaf_hashes@[i] == leaf_digest(
                    self.alg,
                    bytes.subrange(self.start_of(i) - b.start, self.end_of(i) - b.start),
                ),
        ensures
            after.agrees_with(data),
    {
        let g = self.grid;
        let all = leaf_slices(data, g.chunk_shape@, g.dims@, g.elem_size);
        assert forall|i: int| 0 <= i < after.leaf_hashes@.len() implies #[trigger]
            after.leaf_hashes@[i] == leaf_digest(self.alg, all[i]) by {
            if i < b.first {
                assert(after.leaf_hashes@.take(b.first as int)[i] == after.leaf_hashes@[i]);
                assert(self.spec_hashes()[i] == leaf_digest(self.alg, all[i]));
            } else {
                self.lemma_ranges(b.first as int, i);
                self.lemma_ranges(i, b.end - 1);
                self.lemma_ends(i, b.end - 1);
                assert(self.ranges@[i].0 == self.start_of(i));
                assert(self.ranges@[b.end - 1].1 == self.end_of(b.end - 1));
                assert(self.ranges@[b.first as int].0 == self.start_of(b.first as int));
                assert(bytes.subrange(self.start_of(i) - b.start, self.end_of(i) - b.start)
                    =~= all[i]);
            }
        }
    }

    /// The tree and the grid, once all leaves are hashed: what
    /// `contiguous_tree_and_grid` gives for the same bytes.
    pub fn finish(self) -> (r: (MerkleTree, ChunkGridParams))
        requires
            self.wf(),
            self.done(),
        ensures
            r.1 == self.spec_grid(),
            r.0.is_tree_of(self.spec_alg(), self.spec_hashes()),
            forall|data: Seq<u8>| #[trigger]
                self.agrees_with(data) ==> r.0.is_tree_of(
                    self.spec_alg(),
                    leaf_digests(
                        self.spec_alg(),
                        leaf_slices(data, r.1.chunk_shape@, r.1.dims@, r.1.elem_size),
                    ),
                ),
    {
        let tree: MerkleTree = MerkleTree::from_leaf_hashes(self.leaf_hashes.as_slice(), self.alg);
        proof {
            assert forall|data: Seq<u8>| #[trigger] self.agrees_with(data) implies self.spec_hashes()
                == leaf_digests(
                self.alg,
                leaf_slices(
                    data,
                    self.grid.chunk_shape@,
                    self.grid.dims@,
                    self.grid.elem_size,
                ),
            ) by {
                assert(self.spec_hashes() =~= leaf_digests(
                    self.alg,
                    leaf_slices(
                        data,
                        self.grid.chunk_shape@,
                        self.grid.dims@,
                        self.grid.elem_size,
                    ),
                ));
            }
        }
        (tree, self.grid)
    }
}

/// Before the first batch a stream agrees with every dataset of its extent.
pub proof fn law_new_stream_agrees(s: &ContiguousStream, data: Seq<u8>)
    requires
        s.spec_hashes().len() == 0,
    ensures
        s.agrees_with(data),
{
}

/// A dataset has one tiling, and so one grid.
pub proof fn law_tiling_is_unique(
    a: Seq<u64>,
    b: Seq<u64>,
    dims: Seq<u64>,
    elem_size: u32,
    target: u64,
)
    requires
        is_tiling(a, dims, elem_size, target),
        is_tiling(b, dims, elem_size, target),
    ensures
        a == b,
{
    if !stays_whole(dims, elem_size, target) {
        let k = choose|k: int| is_grid_at(a, dims, elem_size, target, k);
        let m = choose|m: int| is_grid_at(b, dims, elem_size, target, m);
        if k < m {
            assert(!exceeds_target(run_bytes(dims, elem_size, m) as int, target as int));
        }
        if m < k {
            assert(!exceeds_target(run_bytes(dims, elem_size, k) as int, target as int));
        }
        assert(a =~= b);
    }
}

/// Batches follow one another without a gap, from the first byte on.
pub proof fn law_batches_follow(s: &ContiguousStream, b: Batch)
    requires
        s.wf(),
        s.is_next(b),
    ensures
        b.start == if b.first == 0 {
            0
        } else {
            s.end_of(b.first - 1)
        },
{
    let g = s.spec_grid();
    lemma_tiling_ranges(g.chunk_shape@, g.dims@, g.elem_size, s.target@, b.first as int);
    if b.first > 0 {
        lemma_tiling_ranges(g.chunk_shape@, g.dims@, g.elem_size, s.target@, b.first - 1);
    }
}

/// Every batch lies within the dataset and brings the stream nearer to its end; the
/// last one ends where the dataset does. So bytes that are as many as the dataset
/// has, or more, are enough for every batch, and where there are fewer a batch is
/// left that ends past them.
pub proof fn law_batches_end_with_data(s: &ContiguousStream, b: Batch)
    requires
        s.wf(),
        s.is_next(b),
    ensures
        !s.done(),
        b.end > s.spec_hashes().len(),
        b.start + b.len <= byte_size(s.spec_grid().dims@, s.spec_grid().elem_size),
        b.end == s.spec_total() ==> b.start + b.len == byte_size(
            s.spec_grid().dims@,
            s.spec_grid().elem_size,
        ),
{
    let g = s.spec_grid();
    lemma_tiling_ranges(g.chunk_shape@, g.dims@, g.elem_size, s.target@, b.end - 1);
}

/// Whether `states` are what a stream goes through as it takes batch after batch
/// from `data`.
pub open spec fn is_run(states: Seq<ContiguousStream>, data: Seq<u8>) -> bool {
    &&& states.len() >= 1
    &&& states[0].wf()
    &&& states[0].spec_hashes().len() == 0
    &&& forall|k: int|
        0 <= k < states.len() - 1 ==> (#[trigger] states[k]).takes(data, states[k + 1])
}

proof fn lemma_run(states: Seq<ContiguousStream>, data: Seq<u8>, k: int)
    requires
        is_run(states, data),
        0 <= k < states.len(),
    ensures
        states[k].wf(),
        states[k].spec_grid() == states[0].spec_grid(),
        states[k].spec_alg() == states[0].spec_alg(),
        states[k].agrees_with(data),
        states[k].spec_hashes().len() > 0 ==> states[k].end_of(states[k].spec_hashes().len() - 1)
            <= data.len(),
    decreases k,
{
    if k == 0 {
        law_new_stream_agrees(&states[0], data);
    } else {
        lemma_run(states, data, k - 1);
        let s = states[k - 1];
        let after = states[k];
        assert(s.takes(data, states[k - 1 + 1]));
        let b = choose|b: Batch| #[trigger]
            s.is_next(b) && b.start + b.len <= data.len() && s.is_push(
                data.subrange(b.start as int, b.start + b.len),
                after,
            );
        let bytes = data.subrange(b.start as int, b.start + b.len);
        s.lemma_batch_agrees(after, data, bytes, b);
    }
}

/// A stream that takes batch after batch from `data` until all leaves are hashed
/// ends with the hashes, and so by `finish` with the tree and the grid, that
/// `contiguous_tree_and_grid` gives for the dataset's bytes, which are the first
/// bytes of `data`. From fewer bytes than the dataset has, it never gets there.
pub proof fn law_streaming_matches_in_memory(
    states: Seq<ContiguousStream>,
    data: Seq<u8>,
    dims: Seq<u64>,
    elem_size: u32,
    target: u64,
    alg: HashAlg,
    grid: ChunkGridParams,
)
    requires
        is_run(states, data),
        states[0].spec_alg() == alg,
        is_contiguous_grid(states[0].spec_grid(), dims, elem_size, target, alg),
        is_contiguous_grid(grid, dims, elem_size, target, alg),
        byte_size(dims, elem_size) <= i64::MAX,
    ensures
        states.last().spec_grid().same_as(grid),
        states.last().spec_alg() == alg,
        data.len() < byte_size(dims, elem_size) ==> !states.last().done(),
        states.last().done() ==> states.last().spec_hashes() == leaf_digests(
            alg,
            leaf_slices(
                data.take(byte_size(dims, elem_size) as int),
                grid.chunk_shape@,
                dims,
                elem_size,
            ),
        ),
{
    let s = states.last();
    let g = s.spec_grid();
    let shape = g.chunk_shape@;
    let n = byte_size(dims, elem_size) as int;
    lemma_run(states, data, states.len() - 1);
    law_tiling_is_unique(shape, grid.chunk_shape@, dims, elem_size, target);
    lemma_tiling_shape(shape, dims, elem_size, target);
    if s.done() {
        let total = s.spec_total();
        if total > 0 {
            lemma_tiling_ranges(shape, dims, elem_size, target, total - 1);
        } else {
            lemma_no_leaves(shape, dims, elem_size, target);
        }
        assert(n <= data.len());
        let all = leaf_slices(data, shape, dims, elem_size);
        let first = leaf_slices(data.take(n), shape, dims, elem_size);
        assert forall|i: int| 0 <= i < total implies #[trigger] all[i] == first[i] by {
            lemma_tiling_ranges(shape, dims, elem_size, target, i);
            assert(all[i] =~= first[i]);
        }
        assert(s.spec_hashes() =~= leaf_digests(alg, first));
    }
}

/// The grid of a contiguous dataset says so, has the dataset's extent and element
/// size, and is bound by its hash; a small dataset is one leaf.
pub proof fn law_contiguous_grid_describes_dataset(
    grid: ChunkGridParams,
    dims: Seq<u64>,
    elem_size: u32,
    target: u64,
    alg: HashAlg,
)
    requires
        is_contiguous_grid(grid, dims, elem_size, target, alg),
    ensures
        grid.layout_class == LayoutClass::Contiguous,
        grid.dims@ == dims,
        grid.elem_size == elem_size,
        grid.grid_hash == crate::chunk_grid::grid_digest(
            alg,
            LayoutClass::Contiguous,
            elem_size,
            dims,
            grid.chunk_shape@,
        ),
        dims.len() > 0 && elem_size > 0 && target > 0 ==> ({
            let size = byte_size(dims, elem_size);
            &&& size * size <= 2 * target * target ==> grid.chunk_shape@ == dims
            &&& size * size > 2 * target * target ==> is_verification_grid(
                grid.chunk_shape@,
                dims,
                elem_size,
                target,
            )
        }),
{
}

/// A batch has at least one leaf, and more than one only if they fit in 64 MiB
/// together; it ends only where the data does or the next leaf would not fit.
pub proof fn law_batches_keep_to_budget(s: &ContiguousStream, b: Batch)
    requires
        s.wf(),
        s.is_next(b),
    ensures
        b.first == s.spec_hashes().len(),
        b.end >= b.first + 1,
        b.end > b.first + 1 ==> b.len <= 64 * 1024 * 1024,
        b.end < s.spec_total() ==> s.end_of(b.end as int) - b.start > 64 * 1024 * 1024,
        b.start == s.start_of(b.first as int),
        b.start + b.len == s.end_of(b.end - 1),
{
}

} // verus!
