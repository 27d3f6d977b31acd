//! What it means that a subset is complete, said of elements.

use crate::chunk_grid::{
    chunk_counts, chunk_hit, chunk_offset, grid_error, in_grid, leaf_index, lemma_touched,
    touched_chunks, ChunkGridParams, LeafOrder,
};
use crate::digest::HashAlg;
use crate::error::MerkleError;
use crate::selection::{axis_hits, block_hits, in_box, Selection};
use crate::subset_proof::{
    extraction_error, is_needed, law_verified_subset_is_complete, request_error, stray_axis,
    subset_answer, SubsetProof,
};
use crate::verification_grid::lemma_ceil_div;
use vstd::arithmetic::div_mod::{
    lemma_fundamental_div_mod, lemma_fundamental_div_mod_converse, lemma_mod_bound,
};
use vstd::prelude::*;

verus! {

// ---------------------------------------------------------------------------
// Elements
// ---------------------------------------------------------------------------

/// Whether element `b` of block `i` exists, along one axis, and has index `x`.
pub open spec fn is_axis_element(
    start: u64,
    stride: u64,
    count: u64,
    block: u64,
    i: int,
    b: int,
    x: int,
) -> bool {
    &&& 0 <= i < count
    &&& 0 <= b < block
    &&& x == start + i * stride + b
}

/// Whether along each axis `d` element `b[d]` of block `i[d]` of the hyperslab `sel`
/// exists, and `x[d]` is its index.
pub open spec fn is_slab_element(sel: Selection, i: Seq<int>, b: Seq<int>, x: Seq<int>) -> bool {
    match sel {
        Selection::Hyperslab { start, stride, count, block } => {
            &&& i.len() == x.len()
            &&& b.len() == x.len()
            &&& start@.len() == x.len()
            &&& forall|d: int|
                0 <= d < x.len() ==> #[trigger] is_axis_element(
                    start@[d],
                    stride@[d],
                    count@[d],
                    block@[d],
                    i[d],
                    b[d],
                    x[d],
                )
        },
        _ => false,
    }
}

/// The chunk that the element `x` is in.
pub open spec fn chunk_with(x: Seq<int>, shape: Seq<u64>) -> Seq<u64> {
    Seq::new(x.len(), |d: int| (x[d] / shape[d] as int) as u64)
}

/// Whether `x` is an element of the dataspace.
pub open spec fn in_space(x: Seq<int>, dims: Seq<u64>) -> bool {
    x.len() == dims.len() && forall|d: int| 0 <= d < dims.len() ==> 0 <= #[trigger] x[d] < dims[d]
}

/// The chunk of an element of the dataspace is a chunk of the grid, and the element
/// lies in it.
proof fn lemma_chunk_with(x: Seq<int>, dims: Seq<u64>, shape: Seq<u64>)
    requires
        in_space(x, dims),
        dims.len() == shape.len(),
        !shape.contains(0),
    ensures
        in_grid(chunk_with(x, shape), chunk_counts(dims, shape)),
        forall|d: int|
            0 <= d < dims.len() ==> #[trigger] chunk_offset(chunk_with(x, shape), shape)[d] <= x[d]
                < chunk_offset(chunk_with(x, shape), shape)[d] + shape[d],
{
    let c = chunk_with(x, shape);
    let n = chunk_counts(dims, shape);
    assert forall|d: int| 0 <= d < dims.len() implies #[trigger] c[d] < n[d] && chunk_offset(
        c,
        shape,
    )[d] <= x[d] < chunk_offset(c, shape)[d] + shape[d] by {
        assert(shape.contains(shape[d]));
        assert(0 <= x[d] < dims[d]);
        let s = shape[d] as int;
        let q = x[d] / s;
        lemma_fundamental_div_mod(x[d], s);
        lemma_mod_bound(x[d], s);
        lemma_ceil_div(dims[d] as int, s);
        assert(0 <= q <= x[d]) by (nonlinear_arith)
            requires
                0 <= x[d],
                s >= 1,
                q == x[d] / s,
        ;
        assert(q * s == s * q) by (nonlinear_arith);
        let y = n[d] as int;
        assert(q < y) by (nonlinear_arith)
            requires
                q * s <= x[d],
                x[d] < dims[d],
                dims[d] <= y * s,
                s >= 1,
        ;
        assert(chunk_offset(c, shape)[d] == q * s);
    }
    assert forall|d: int| 0 <= d < dims.len() implies #[trigger] chunk_offset(c, shape)[d] <= x[d]
        < chunk_offset(c, shape)[d] + shape[d] by {
        assert(c[d] < n[d]);
    }
}

/// The elements between the bounds of a chunk of the grid are those of that chunk.
proof fn lemma_in_chunk(c: Seq<u64>, dims: Seq<u64>, shape: Seq<u64>, d: int, x: int)
    requires
        dims.len() == shape.len(),
        !shape.contains(0),
        in_grid(c, chunk_counts(dims, shape)),
        0 <= d < dims.len(),
        chunk_offset(c, shape)[d] <= x < chunk_offset(c, shape)[d] + shape[d],
    ensures
        x / shape[d] as int == c[d],
        0 <= x,
{
    let n = chunk_counts(dims, shape);
    let s = shape[d] as int;
    let k = c[d] as int;
    assert(shape.contains(shape[d]));
    assert(c[d] < n[d]);
    lemma_fundamental_div_mod(dims[d] + s - 1, s);
    lemma_mod_bound(dims[d] + s - 1, s);
    let y = (dims[d] + s - 1) / s;
    assert(0 <= k * s <= dims[d]) by (nonlinear_arith)
        requires
            0 <= k,
            k + 1 <= y,
            s * y <= dims[d] + s - 1,
            s >= 1,
    ;
    assert(chunk_offset(c, shape)[d] == k * s);
    lemma_fundamental_div_mod_converse(x, s, k, x - k * s);
}

// ---------------------------------------------------------------------------
// Boxes
// ---------------------------------------------------------------------------

/// A box that an element of a hyperslab lies in is one that the hyperslab hits.
pub proof fn law_slab_hits_box_of_its_element(
    sel: Selection,
    i: Seq<int>,
    b: Seq<int>,
    x: Seq<int>,
    offset: Seq<u64>,
    shape: Seq<u64>,
)
    requires
        sel.wf(),
        is_slab_element(sel, i, b, x),
        offset.len() == x.len(),
        shape.len() == x.len(),
        forall|d: int| 0 <= d < x.len() ==> offset[d] <= #[trigger] x[d] < offset[d] + shape[d],
    ensures
        sel.hits(offset, shape),
{
    if let Selection::Hyperslab { start, stride, count, block } = sel {
        assert forall|d: int| 0 <= d < offset.len() implies #[trigger] axis_hits(
            start@[d] as int,
            stride@[d] as int,
            count@[d] as int,
            block@[d] as int,
            offset[d] as int,
            shape[d] as int,
        ) by {
            assert(is_axis_element(
                start@[d],
                stride@[d],
                count@[d],
                block@[d],
                i[d],
                b[d],
                x[d],
            ));
            assert(offset[d] <= x[d]);
            assert(block_hits(
                start@[d] as int,
                stride@[d] as int,
                count@[d] as int,
                block@[d] as int,
                offset[d] as int,
                shape[d] as int,
                i[d],
            ));
        }
    }
}

/// A block that overlaps a run of elements has an element in it.
proof fn lemma_axis_element(start: int, stride: int, count: int, block: int, off: int, len: int) -> (r:
    (int, int))
    requires
        axis_hits(start, stride, count, block, off, len),
    ensures
        0 <= r.0 < count,
        0 <= r.1 < block,
        off <= start + r.0 * stride + r.1 < off + len,
{
    let i = choose|i: int| #[trigger] block_hits(start, stride, count, block, off, len, i);
    let from = start + i * stride;
    if from >= off {
        (i, 0)
    } else {
        (i, off - from)
    }
}

/// A box that a hyperslab hits has one of its elements in it.
pub proof fn law_hit_box_has_slab_element(sel: Selection, offset: Seq<u64>, shape: Seq<u64>) -> (r:
    (Seq<int>, Seq<int>, Seq<int>))
    requires
        sel.wf(),
        sel is Hyperslab,
        sel.spec_rank() == Some(offset.len()),
        offset.len() == shape.len(),
        sel.hits(offset, shape),
    ensures
        is_slab_element(sel, r.0, r.1, r.2),
        r.2.len() == offset.len(),
        forall|d: int|
            0 <= d < offset.len() ==> offset[d] <= #[trigger] r.2[d] < offset[d] + shape[d],
{
    let start = sel->start@;
    let stride = sel->stride@;
    let count = sel->count@;
    let block = sel->block@;
    let pick = |d: int|
        choose|p: (int, int)|
            0 <= p.0 < count[d] && 0 <= p.1 < block[d] && offset[d] <= #[trigger] slab_index(
                start[d] as int,
                stride[d] as int,
                p,
            ) < offset[d] + shape[d];
    let i = Seq::new(offset.len(), |d: int| pick(d).0);
    let b = Seq::new(offset.len(), |d: int| pick(d).1);
    let x = Seq::new(offset.len(), |d: int| start[d] + i[d] * stride[d] + b[d]);
    assert forall|d: int| 0 <= d < offset.len() implies {
        &&& 0 <= i[d] < count[d]
        &&& 0 <= b[d] < block[d]
        &&& offset[d] <= #[trigger] x[d] < offset[d] + shape[d]
    } by {
        assert(axis_hits(
            start[d] as int,
            stride[d] as int,
            count[d] as int,
            block[d] as int,
            offset[d] as int,
            shape[d] as int,
        ));
        let p = lemma_axis_element(
            start[d] as int,
            stride[d] as int,
            count[d] as int,
            block[d] as int,
            offset[d] as int,
            shape[d] as int,
        );
        assert(slab_index(start[d] as int, stride[d] as int, p) == start[d] + p.0 * stride[d]
            + p.1);
        let q = pick(d);
        assert(slab_index(start[d] as int, stride[d] as int, q) == start[d] + q.0 * stride[d]
            + q.1);
    }
    assert forall|d: int| 0 <= d < x.len() implies #[trigger] is_axis_element(
        start[d],
        stride[d],
        count[d],
        block[d],
        i[d],
        b[d],
        x[d],
    ) by {
        assert(offset[d] <= x[d]);
    }
    (i, b, x)
}

/// The index of element `p.1` of block `p.0`.
spec fn slab_index(start: int, stride: int, p: (int, int)) -> int {
    start + p.0 * stride + p.1
}

/// Points hit a box that one of them lies in.
pub proof fn law_points_hit_box_of_a_point(
    sel: Selection,
    pts: Vec<Vec<u64>>,
    k: int,
    offset: Seq<u64>,
    shape: Seq<u64>,
)
    requires
        sel == Selection::Points(pts),
        0 <= k < pts@.len(),
        forall|d: int|
            0 <= d < offset.len() ==> #[trigger] offset[d] <= pts@[k]@[d] < offset[d] + shape[d],
    ensures
        sel.hits(offset, shape),
{
    if let Selection::Points(ps) = sel {
        assert(in_box(ps@[k]@, offset, shape));
    }
}

/// A box that points hit has one of them in it.
pub proof fn law_hit_box_has_point(pts: Vec<Vec<u64>>, offset: Seq<u64>, shape: Seq<u64>) -> (k:
    int)
    requires
        Selection::Points(pts).hits(offset, shape),
    ensures
        0 <= k < pts@.len(),
        forall|d: int|
            0 <= d < offset.len() ==> #[trigger] offset[d] <= pts@[k]@[d] < offset[d] + shape[d],
{
    choose|k: int| 0 <= k < pts@.len() && in_box((#[trigger] pts@[k])@, offset, shape)
}

// ---------------------------------------------------------------------------
// Subsets
// ---------------------------------------------------------------------------

/// The leaf of the chunk that holds an element is needed, if the chunk is hit.
proof fn lemma_needed(
    dims: Seq<u64>,
    shape: Seq<u64>,
    sel: Selection,
    order: LeafOrder,
    x: Seq<int>,
)
    requires
        dims.len() > 0,
        dims.len() == shape.len(),
        !shape.contains(0),
        in_space(x, dims),
        chunk_hit(sel, chunk_with(x, shape), shape),
    ensures
        is_needed(
            dims,
            shape,
            sel,
            order,
            leaf_index(chunk_with(x, shape), chunk_counts(dims, shape), order),
        ),
{
    lemma_chunk_with(x, dims, shape);
}

/// Of a hyperslab, the chunk that holds an element is needed, for every element.
pub proof fn law_chunk_of_slab_element_is_needed(
    dims: Seq<u64>,
    shape: Seq<u64>,
    sel: Selection,
    order: LeafOrder,
    i: Seq<int>,
    b: Seq<int>,
    x: Seq<int>,
)
    requires
        sel.wf(),
        dims.len() > 0,
        dims.len() == shape.len(),
        !shape.contains(0),
        is_slab_element(sel, i, b, x),
        in_space(x, dims),
    ensures
        is_needed(
            dims,
            shape,
            sel,
            order,
            leaf_index(chunk_with(x, shape), chunk_counts(dims, shape), order),
        ),
        touched_chunks(sel, chunk_counts(dims, shape), shape).contains(chunk_with(x, shape)),
{
    let c = chunk_with(x, shape);
    lemma_chunk_with(x, dims, shape);
    assert forall|d: int| 0 <= d < x.len() implies chunk_offset(c, shape)[d] <= #[trigger] x[d]
        < chunk_offset(c, shape)[d] + shape[d] by {
        assert(chunk_offset(c, shape)[d] <= x[d]);
    }
    law_slab_hits_box_of_its_element(sel, i, b, x, chunk_offset(c, shape), shape);
    lemma_needed(dims, shape, sel, order, x);
    lemma_touched(sel, chunk_counts(dims, shape), shape, c);
}

/// Of a hyperslab, a chunk that is needed holds one of its elements.
pub proof fn law_needed_chunk_holds_slab_element(
    dims: Seq<u64>,
    shape: Seq<u64>,
    sel: Selection,
    order: LeafOrder,
    leaf: usize,
) -> (r: (Seq<int>, Seq<int>, Seq<int>))
    requires
        sel.wf(),
        sel is Hyperslab,
        sel.spec_rank() == Some(dims.len()),
        dims.len() == shape.len(),
        !shape.contains(0),
        is_needed(dims, shape, sel, order, leaf),
    ensures
        is_slab_element(sel, r.0, r.1, r.2),
        r.2.len() == dims.len(),
        leaf == leaf_index(chunk_with(r.2, shape), chunk_counts(dims, shape), order),
{
    let n = chunk_counts(dims, shape);
    let c = choose|c: Seq<u64>|
        {
            &&& in_grid(c, n)
            &&& #[trigger] chunk_hit(sel, c, shape)
            &&& leaf_index(c, n, order) == leaf
        };
    let r = law_hit_box_has_slab_element(sel, chunk_offset(c, shape), shape);
    assert forall|d: int| 0 <= d < dims.len() implies #[trigger] chunk_with(r.2, shape)[d]
        == c[d] by {
        assert(chunk_offset(c, shape)[d] <= r.2[d]);
        lemma_in_chunk(c, dims, shape, d, r.2[d]);
    }
    assert(chunk_with(r.2, shape) =~= c);
    r
}

/// Of points, the chunks that are needed are those that hold one of them.
pub proof fn law_chunk_of_point_is_needed(
    dims: Seq<u64>,
    shape: Seq<u64>,
    pts: Vec<Vec<u64>>,
    order: LeafOrder,
    k: int,
)
    requires
        dims.len() > 0,
        dims.len() == shape.len(),
        !shape.contains(0),
        0 <= k < pts@.len(),
        in_space(Seq::new(dims.len(), |d: int| pts@[k]@[d] as int), dims),
    ensures
        is_needed(
            dims,
            shape,
            Selection::Points(pts),
            order,
            leaf_index(
                Seq::new(dims.len(), |d: int| (pts@[k]@[d] / shape[d]) as u64),
                chunk_counts(dims, shape),
                order,
            ),
        ),
{
    let x = Seq::new(dims.len(), |d: int| pts@[k]@[d] as int);
    let c = chunk_with(x, shape);
    lemma_chunk_with(x, dims, shape);
    assert(c =~= Seq::new(dims.len(), |d: int| (pts@[k]@[d] / shape[d]) as u64)) by {
        assert forall|d: int| 0 <= d < dims.len() implies #[trigger] c[d] == pts@[k]@[d]
            / shape[d] by {
            assert(shape.contains(shape[d]));
        }
    }
    let offset = chunk_offset(c, shape);
    assert forall|d: int| 0 <= d < offset.len() implies #[trigger] offset[d] <= pts@[k]@[d]
        < offset[d] + shape[d] by {
        assert(chunk_offset(c, shape)[d] <= x[d]);
    }
    law_points_hit_box_of_a_point(Selection::Points(pts), pts, k, offset, shape);
    lemma_needed(dims, shape, Selection::Points(pts), order, x);
}

/// Of points, a chunk that is needed holds one of them.
pub proof fn law_needed_chunk_holds_point(
    dims: Seq<u64>,
    shape: Seq<u64>,
    pts: Vec<Vec<u64>>,
    order: LeafOrder,
    leaf: usize,
) -> (k: int)
    requires
        dims.len() == shape.len(),
        !shape.contains(0),
        is_needed(dims, shape, Selection::Points(pts), order, leaf),
    ensures
        0 <= k < pts@.len(),
        leaf == leaf_index(
            Seq::new(dims.len(), |d: int| (pts@[k]@[d] / shape[d]) as u64),
            chunk_counts(dims, shape),
            order,
        ),
{
    let sel = Selection::Points(pts);
    let n = chunk_counts(dims, shape);
    let c = choose|c: Seq<u64>|
        {
            &&& in_grid(c, n)
            &&& #[trigger] chunk_hit(sel, c, shape)
            &&& leaf_index(c, n, order) == leaf
        };
    let offset = chunk_offset(c, shape);
    let k = law_hit_box_has_point(pts, offset, shape);
    let held = Seq::new(dims.len(), |d: int| (pts@[k]@[d] / shape[d]) as u64);
    assert forall|d: int| 0 <= d < dims.len() implies #[trigger] held[d] == c[d] by {
        assert(offset[d] <= pts@[k]@[d] < offset[d] + shape[d]);
        lemma_in_chunk(c, dims, shape, d, pts@[k]@[d] as int);
        assert(shape.contains(shape[d]));
    }
    assert(held =~= c);
    k
}

/// A selection of everything needs every chunk, and one of nothing needs none.
pub proof fn law_all_and_nothing(
    dims: Seq<u64>,
    shape: Seq<u64>,
    order: LeafOrder,
    x: Seq<int>,
    leaf: usize,
)
    requires
        dims.len() > 0,
        dims.len() == shape.len(),
        !shape.contains(0),
        in_space(x, dims),
    ensures
        is_needed(
            dims,
            shape,
            Selection::All,
            order,
            leaf_index(chunk_with(x, shape), chunk_counts(dims, shape), order),
        ),
        !is_needed(dims, shape, Selection::Empty, order, leaf),
{
    lemma_needed(dims, shape, Selection::All, order, x);
}

/// A hyperslab subset that verifies has, for every element of the hyperslab in the
/// dataspace, the chunk that holds it.
pub proof fn law_verified_slab_has_every_element(
    root: [u8; 32],
    alg: HashAlg,
    delivered: Seq<(usize, Seq<u8>)>,
    p: SubsetProof,
    grid: ChunkGridParams,
    trusted_grid_hash: [u8; 32],
    sel: Selection,
    order: LeafOrder,
    i: Seq<int>,
    b: Seq<int>,
    x: Seq<int>,
) -> (k: int)
    requires
        sel.wf(),
        subset_answer(root, alg, delivered, p, grid, trusted_grid_hash, sel, order) == Ok::<
            bool,
            MerkleError,
        >(true),
        is_slab_element(sel, i, b, x),
        in_space(x, grid.dims@),
        x.len() > 0,
    ensures
        0 <= k < delivered.len(),
        delivered[k].0 == leaf_index(
            Seq::new(x.len(), |d: int| (x[d] / grid.chunk_shape@[d] as int) as u64),
            chunk_counts(grid.dims@, grid.chunk_shape@),
            order,
        ),
{
    let dims = grid.dims@;
    let shape = grid.chunk_shape@;
    let leaf = leaf_index(chunk_with(x, shape), chunk_counts(dims, shape), order);
    assert(grid_error(dims, shape) is None);
    law_chunk_of_slab_element_is_needed(dims, shape, sel, order, i, b, x);
    law_verified_subset_is_complete(
        root,
        alg,
        delivered,
        p,
        grid,
        trusted_grid_hash,
        sel,
        order,
        leaf,
    );
    choose|k: int| 0 <= k < delivered.len() && (#[trigger] delivered[k]).0 == leaf
}

/// A hyperslab subset that verifies has no chunk without an element of the
/// hyperslab.
pub proof fn law_verified_slab_has_nothing_else(
    root: [u8; 32],
    alg: HashAlg,
    delivered: Seq<(usize, Seq<u8>)>,
    p: SubsetProof,
    grid: ChunkGridParams,
    trusted_grid_hash: [u8; 32],
    sel: Selection,
    order: LeafOrder,
    k: int,
) -> (r: (Seq<int>, Seq<int>, Seq<int>))
    requires
        sel.wf(),
        sel is Hyperslab,
        subset_answer(root, alg, delivered, p, grid, trusted_grid_hash, sel, order) == Ok::<
            bool,
            MerkleError,
        >(true),
        0 <= k < delivered.len(),
    ensures
        is_slab_element(sel, r.0, r.1, r.2),
        delivered[k].0 == leaf_index(
            Seq::new(r.2.len(), |d: int| (r.2[d] / grid.chunk_shape@[d] as int) as u64),
            chunk_counts(grid.dims@, grid.chunk_shape@),
            order,
        ),
{
    law_verified_subset_is_complete(
        root,
        alg,
        delivered,
        p,
        grid,
        trusted_grid_hash,
        sel,
        order,
        delivered[k].0,
    );
    assert(grid_error(grid.dims@, grid.chunk_shape@) is None);
    law_needed_chunk_holds_slab_element(
        grid.dims@,
        grid.chunk_shape@,
        sel,
        order,
        delivered[k].0,
    )
}

// ---------------------------------------------------------------------------
// Requests
// ---------------------------------------------------------------------------

proof fn lemma_no_stray(n: Seq<u64>, shape: Seq<u64>, sel: Selection, from: int, d: int)
    requires
        0 <= from <= d < n.len(),
        sel.reaches(d, n[d] * shape[d]),
    ensures
        stray_axis(n, shape, sel, from) is Some,
    decreases d - from,
{
    if from < d && !sel.reaches(from, n[from] * shape[from]) {
        lemma_no_stray(n, shape, sel, from + 1, d);
    }
}

/// No proof is extracted for a hyperslab with an element beyond the last chunk.
pub proof fn law_slab_outside_grid_is_refused(
    dims: Seq<u64>,
    shape: Seq<u64>,
    sel: Selection,
    i: Seq<int>,
    b: Seq<int>,
    x: Seq<int>,
    d: int,
)
    requires
        sel.wf(),
        is_slab_element(sel, i, b, x),
        request_error(dims, shape, sel) is None,
        0 <= d < dims.len(),
        x[d] >= dims[d],
        x[d] / shape[d] as int > (dims[d] - 1) / shape[d] as int,
    ensures
        extraction_error(dims, shape, sel) matches Some(MerkleError::HyperslabOutOfBounds { .. }),
{
    let n = chunk_counts(dims, shape);
    if let Selection::Hyperslab { start, stride, count, block } = sel {
        let s = shape[d] as int;
        assert(shape.contains(shape[d]));
        assert forall|e: int| 0 <= e < start@.len() implies #[trigger] count@[e] > 0 && block@[e]
            > 0 by {
            assert(is_axis_element(
                start@[e],
                stride@[e],
                count@[e],
                block@[e],
                i[e],
                b[e],
                x[e],
            ));
        }
        assert(is_axis_element(
            start@[d],
            stride@[d],
            count@[d],
            block@[d],
            i[d],
            b[d],
            x[d],
        ));
        let st = stride@[d] as int;
        let last = count@[d] - 1;
        assert(i[d] * st <= last * st) by (nonlinear_arith)
            requires
                i[d] <= last,
                st >= 0,
        ;
        let y = n[d] as int;
        lemma_ceil_div(dims[d] as int, s);
        lemma_fundamental_div_mod(x[d], s);
        lemma_mod_bound(x[d], s);
        lemma_fundamental_div_mod(dims[d] - 1, s);
        lemma_mod_bound(dims[d] - 1, s);
        lemma_fundamental_div_mod(dims[d] + s - 1, s);
        lemma_mod_bound(dims[d] + s - 1, s);
        let q = x[d] / s;
        let t = (dims[d] - 1) / s;
        let u = (dims[d] + s - 1) / s;
        assert(u <= t + 1) by (nonlinear_arith)
            requires
                s >= 1,
                s * u <= dims[d] + s - 1,
                dims[d] - 1 < s * t + s,
        ;
        assert(y * s <= x[d]) by (nonlinear_arith)
            requires
                s >= 1,
                y <= u,
                u <= q,
                s * q <= x[d],
        ;
        assert(sel.reaches(d, n[d] * shape[d]));
        lemma_no_stray(n, shape, sel, 0, d);
    }
}

/// The axis along which a selection goes too far.
proof fn lemma_stray(n: Seq<u64>, shape: Seq<u64>, sel: Selection, from: int)
    requires
        0 <= from,
        stray_axis(n, shape, sel, from) is Some,
    ensures
        ({
            let d = stray_axis(n, shape, sel, from)->0;
            from <= d < n.len() && sel.reaches(d, n[d] * shape[d])
        }),
    decreases n.len() - from,
{
    if from < n.len() && !sel.reaches(from, n[from] * shape[from]) {
        lemma_stray(n, shape, sel, from + 1);
    }
}

/// No proof is extracted for points one of which is beyond the last chunk.
pub proof fn law_point_outside_grid_is_refused(
    dims: Seq<u64>,
    shape: Seq<u64>,
    points: Vec<Vec<u64>>,
    k: int,
    d: int,
)
    requires
        Selection::Points(points).wf(),
        request_error(dims, shape, Selection::Points(points)) is None,
        0 <= k < points@.len(),
        0 <= d < dims.len() == shape.len(),
        points@[k]@[d] >= chunk_counts(dims, shape)[d] * shape[d],
    ensures
        extraction_error(dims, shape, Selection::Points(points)) matches Some(
            MerkleError::HyperslabOutOfBounds { .. },
        ),
{
    let n = chunk_counts(dims, shape);
    let sel = Selection::Points(points);
    assert(sel.is_listing());
    assert((#[trigger] points@[k])@[d] >= n[d] * shape[d]);
    assert(sel.reaches(d, n[d] * shape[d]));
    lemma_no_stray(n, shape, sel, 0, d);
}

/// A well-formed request for a hyperslab is refused only where one of its elements
/// is beyond the last chunk: there is one, and this is it.
pub proof fn law_refused_slab_has_stray_element(
    dims: Seq<u64>,
    shape: Seq<u64>,
    sel: Selection,
) -> (r: (Seq<int>, Seq<int>, Seq<int>, int))
    requires
        sel.wf(),
        sel is Hyperslab,
        request_error(dims, shape, sel) is None,
        extraction_error(dims, shape, sel) is Some,
    ensures
        is_slab_element(sel, r.0, r.1, r.2),
        0 <= r.3 < dims.len(),
        r.2[r.3] >= chunk_counts(dims, shape)[r.3] * shape[r.3],
{
    let n = chunk_counts(dims, shape);
    lemma_stray(n, shape, sel, 0);
    let d = stray_axis(n, shape, sel, 0)->0;
    let start = sel->start@;
    let stride = sel->stride@;
    let count = sel->count@;
    let block = sel->block@;
    let i = Seq::new(start.len(), |e: int| count[e] - 1);
    let b = Seq::new(start.len(), |e: int| block[e] - 1);
    let x = Seq::new(start.len(), |e: int| start[e] + (count[e] - 1) * stride[e] + block[e] - 1);
    assert forall|e: int| 0 <= e < x.len() implies #[trigger] is_axis_element(
        start[e],
        stride[e],
        count[e],
        block[e],
        i[e],
        b[e],
        x[e],
    ) by {
        assert(count[e] > 0 && block[e] > 0);
    }
    (i, b, x, d)
}

/// A well-formed request for points is refused only where one of them is beyond the
/// last chunk; one for everything, or for nothing, is not refused.
pub proof fn law_refused_points_have_stray_point(
    dims: Seq<u64>,
    shape: Seq<u64>,
    sel: Selection,
) -> (r: (int, int))
    requires
        sel !is Hyperslab,
        request_error(dims, shape, sel) is None,
        extraction_error(dims, shape, sel) is Some,
    ensures
        sel matches Selection::Points(points) && 0 <= r.0 < points@.len() && 0 <= r.1 < dims.len()
            && points@[r.0]@[r.1] >= chunk_counts(dims, shape)[r.1] * shape[r.1],
{
    let n = chunk_counts(dims, shape);
    lemma_stray(n, shape, sel, 0);
    let d = stray_axis(n, shape, sel, 0)->0;
    if let Selection::Points(points) = sel {
        let k = choose|k: int|
            0 <= k < points@.len() && (#[trigger] points@[k])@[d] >= n[d] * shape[d];
        (k, d)
    } else {
        (0, 0)
    }
}

/// A request for another number of axes than the grid has is refused.
pub proof fn law_other_rank_is_refused(dims: Seq<u64>, shape: Seq<u64>, sel: Selection)
    ensures
        sel matches Selection::Hyperslab { start, .. } && start@.len() != dims.len() ==> (
        extraction_error(dims, shape, sel) matches Some(MerkleError::HyperslabOutOfBounds { .. })),
        sel matches Selection::Points(points) && points@.len() > 0 && points@[0]@.len()
            != dims.len() ==> (extraction_error(dims, shape, sel) matches Some(
            MerkleError::HyperslabOutOfBounds { .. },
        )),
{
}

} // verus!
