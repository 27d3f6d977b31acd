//! What was stored in chunks is read back.

use crate::bytes::{
    le64_all, le_bytes, lemma_byte_span, lemma_le64_all_len, lemma_le_len,
    lemma_le_roundtrip,
};
use crate::chunk_grid::{
    chunk_counts, in_grid, lemma_checked_total, lemma_row_major_bound, row_major,
};
use crate::chunk_reader::{
    chunk_entries, chunk_of, chunked_answer, coords_within, entry_for, parsed_chunked,
    place_within, stored_elem, stored_elems, tree_entries, ChunkIndex, ChunkedView,
};
use crate::chunked::{
    can_chunk, chunk_bytes, chunk_coords, chunk_elem, chunk_elems, chunk_len, chunk_records,
    chunk_total, chunk_volume, chunked_bytes, chunked_layout, chunked_len, chunks_len, elem_coord,
    index_bytes, indexed, layout_head, lemma_chunked_len, lemma_chunks_len, lemma_counts_positive,
    lemma_cover, lemma_elems_len, lemma_records_len, record_len, source_elem,
};
use crate::dense::{btree_bytes, lemma_btree_len, node_size, BTHD_SIZE};
use crate::dense_laws::law_index_is_found;
use crate::file_laws::lemma_numbers;
use crate::reader::ReadFault;
use crate::verification_grid::{lemma_ceil_div, lemma_suffix_le, suffix_product, tile_coord};
use vstd::arithmetic::div_mod::{
    lemma_div_basics, lemma_fundamental_div_mod, lemma_fundamental_div_mod_converse,
    lemma_hoist_over_denominator, lemma_mod_bound, lemma_mod_breakdown, lemma_mod_multiples_vanish,
    lemma_small_mod,
};
use vstd::prelude::*;

verus! {

// ---------------------------------------------------------------------------
// Positions
// ---------------------------------------------------------------------------

spec fn all_positive(n: Seq<u64>) -> bool {
    forall|d: int| 0 <= d < n.len() ==> #[trigger] n[d] >= 1
}

/// A longer product is a multiple of a shorter one.
proof fn lemma_suffix_multiple(n: Seq<u64>, i: int, d: int) -> (p: nat)
    requires
        0 <= i <= d <= n.len(),
    ensures
        suffix_product(n, i) == p * suffix_product(n, d),
    decreases d - i,
{
    let s = suffix_product(n, d) as int;
    if i < d {
        let q = lemma_suffix_multiple(n, i + 1, d);
        let x = n[i] as int;
        assert(x * (q * s) == (x * q) * s) by (nonlinear_arith);
        assert(x * q >= 0) by (nonlinear_arith)
            requires
                x >= 0,
                q >= 0,
        ;
        (n[i] * q) as nat
    } else {
        assert(1 * s == s);
        1
    }
}

/// The coordinates of a row-major position are those it was made from.
proof fn lemma_coord_back(c: Seq<u64>, n: Seq<u64>, i: int, d: int)
    requires
        in_grid(c, n),
        0 <= i <= d < n.len(),
    ensures
        tile_coord(n, row_major(c, n, i) as int, d) == c[d],
    decreases d - i,
{
    assert(all_positive(n)) by {
        assert forall|k: int| 0 <= k < n.len() implies #[trigger] n[k] >= 1 by {
            assert(c[k] < n[k]);
        }
    }
    let s = suffix_product(n, d + 1);
    lemma_suffix_le(n, d + 1, n.len() as int);
    let m = n[d] as int;
    assert(c[d] < n[d]);
    if i == d {
        let r = row_major(c, n, d + 1) as int;
        lemma_row_major_bound(c, n, d + 1);
        lemma_fundamental_div_mod_converse(
            row_major(c, n, d) as int,
            s as int,
            c[d] as int,
            r,
        );
        lemma_small_mod(c[d] as nat, m as nat);
    } else {
        lemma_coord_back(c, n, i + 1, d);
        let p = lemma_suffix_multiple(n, i + 1, d) as int;
        let rest = row_major(c, n, i + 1) as int;
        let x = c[i] as int;
        let j = m * (x * p);
        assert(x * (p * (m * s)) == (m * (x * p)) * s) by (nonlinear_arith);
        assert(row_major(c, n, i) == rest + j * s);
        lemma_hoist_over_denominator(rest, j, s);
        lemma_mod_multiples_vanish(x * p, rest / s as int, m);
    }
}

/// The row-major position of coordinates is the one they are of.
proof fn lemma_position_back(n: Seq<u64>, k: int, d: int)
    requires
        all_positive(n),
        k >= 0,
        0 <= d <= n.len(),
    ensures
        row_major(chunk_coords(n, k), n, d) == k % (suffix_product(n, d) as int),
    decreases n.len() - d,
{
    if d < n.len() {
        lemma_position_back(n, k, d + 1);
        let s = suffix_product(n, d + 1) as int;
        lemma_suffix_le(n, d + 1, n.len() as int);
        assert(n[d] >= 1);
        lemma_mod_breakdown(k, s, n[d] as int);
        lemma_mod_bound(k / s, n[d] as int);
        let x = tile_coord(n, k, d);
        assert(x as u64 == x);
        assert(s * n[d] == n[d] * s && x * s == s * x) by (nonlinear_arith);
    } else {
        assert(k % 1 == 0);
    }
}

// ---------------------------------------------------------------------------
// Elements
// ---------------------------------------------------------------------------

/// Chunk and place of an element lie within their grids.
proof fn lemma_located(dims: Seq<u64>, cdims: Seq<u64>, j: int)
    requires
        dims.len() == cdims.len(),
        all_positive(dims),
        all_positive(cdims),
        j >= 0,
    ensures
        in_grid(chunk_of(dims, cdims, j), chunk_counts(dims, cdims)),
        in_grid(coords_within(dims, cdims, j), cdims),
        forall|d: int|
            0 <= d < dims.len() ==> #[trigger] chunk_of(dims, cdims, j)[d] * cdims[d]
                + coords_within(dims, cdims, j)[d] == tile_coord(dims, j, d),
{
    let c = chunk_of(dims, cdims, j);
    let m = coords_within(dims, cdims, j);
    let counts = chunk_counts(dims, cdims);
    assert forall|d: int| 0 <= d < dims.len() implies #[trigger] c[d] * cdims[d] + m[d]
        == tile_coord(dims, j, d) && c[d] < counts[d] && m[d] < cdims[d] by {
        let x = tile_coord(dims, j, d);
        let n = dims[d] as int;
        let z = cdims[d] as int;
        assert(dims[d] >= 1 && cdims[d] >= 1);
        lemma_mod_bound(j / suffix_product(dims, d + 1) as int, n);
        lemma_fundamental_div_mod(x, z);
        lemma_mod_bound(x, z);
        lemma_ceil_div(n, z);
        let q = x / z;
        let y = counts[d] as int;
        assert(0 <= q <= x) by (nonlinear_arith)
            requires
                0 <= x,
                z >= 1,
                q == x / z,
        ;
        assert(q * z == z * q) by (nonlinear_arith);
        assert(q < y) by (nonlinear_arith)
            requires
                q * z <= x,
                x < n,
                n <= y * z,
                z >= 1,
        ;
    }
    assert forall|d: int| 0 <= d < dims.len() implies #[trigger] m[d] < cdims[d] by {
        assert(c[d] * cdims[d] + m[d] == tile_coord(dims, j, d));
        lemma_mod_bound(tile_coord(dims, j, d), cdims[d] as int);
        assert(cdims[d] >= 1);
    }
}

/// An element is where its chunk and its place in it say.
proof fn lemma_source_back(dims: Seq<u64>, cdims: Seq<u64>, j: int, d: int)
    requires
        dims.len() == cdims.len(),
        all_positive(dims),
        all_positive(cdims),
        j >= 0,
        0 <= d <= dims.len(),
    ensures
        ({
            let k = row_major(chunk_of(dims, cdims, j), chunk_counts(dims, cdims), 0) as int;
            let e = place_within(dims, cdims, j) as int;
            source_elem(dims, cdims, k, e, d) == Some(j % (suffix_product(dims, d) as int))
        }),
    decreases dims.len() - d,
{
    let c = chunk_of(dims, cdims, j);
    let m = coords_within(dims, cdims, j);
    let counts = chunk_counts(dims, cdims);
    let k = row_major(c, counts, 0) as int;
    let e = place_within(dims, cdims, j) as int;
    if d < dims.len() {
        lemma_source_back(dims, cdims, j, d + 1);
        lemma_located(dims, cdims, j);
        lemma_coord_back(c, counts, 0, d);
        lemma_coord_back(m, cdims, 0, d);
        let s = suffix_product(dims, d + 1) as int;
        lemma_suffix_le(dims, d + 1, dims.len() as int);
        assert(dims[d] >= 1);
        let x = tile_coord(dims, j, d);
        assert(c[d] * cdims[d] + m[d] == x);
        assert(elem_coord(dims, cdims, k, e, d) == x);
        lemma_mod_bound(j / s, dims[d] as int);
        lemma_mod_breakdown(j, s, dims[d] as int);
        assert(s * dims[d] == dims[d] * s && x * s == s * x) by (nonlinear_arith);
    } else {
        assert(j % 1 == 0);
    }
}

/// An element stands at its place in its chunk.
proof fn lemma_elem_in_chunk(
    raw: Seq<u8>,
    dims: Seq<u64>,
    cdims: Seq<u64>,
    elem_size: u32,
    k: int,
    e: int,
    n: int,
)
    requires
        0 <= e < n,
    ensures
        0 <= e * elem_size,
        e * elem_size + elem_size <= chunk_elems(raw, dims, cdims, elem_size, k, n).len(),
        chunk_elems(raw, dims, cdims, elem_size, k, n).subrange(
            e * elem_size,
            e * elem_size + elem_size,
        ) == chunk_elem(raw, dims, cdims, elem_size, k, e),
    decreases n,
{
    let all = chunk_elems(raw, dims, cdims, elem_size, k, n);
    let before = chunk_elems(raw, dims, cdims, elem_size, k, n - 1);
    let last = chunk_elem(raw, dims, cdims, elem_size, k, n - 1);
    let from = e * elem_size;
    assert(0 <= e * elem_size) by (nonlinear_arith)
        requires
            e >= 0,
    ;
    lemma_elems_len(raw, dims, cdims, elem_size, k, n - 1);
    if e == n - 1 {
        assert(all.subrange(from, from + elem_size) =~= last);
    } else {
        lemma_elem_in_chunk(raw, dims, cdims, elem_size, k, e, n - 1);
        assert(all.subrange(from, from + elem_size) =~= before.subrange(from, from + elem_size));
    }
}

/// A chunk stands at its place among the chunks.
proof fn lemma_chunk_in_data(
    raw: Seq<u8>,
    dims: Seq<u64>,
    cdims: Seq<u64>,
    elem_size: u32,
    k: int,
    n: int,
)
    requires
        0 <= k < n,
    ensures
        ({
            let len = chunk_len(cdims, elem_size) as int;
            &&& 0 <= k * len
            &&& k * len + len <= n * len
            &&& n * len == chunk_bytes(raw, dims, cdims, elem_size, n).len()
            &&& chunk_bytes(raw, dims, cdims, elem_size, n).subrange(k * len, k * len + len)
                == chunk_elems(raw, dims, cdims, elem_size, k, chunk_volume(cdims) as int)
        }),
    decreases n,
{
    let len = chunk_len(cdims, elem_size) as int;
    let all = chunk_bytes(raw, dims, cdims, elem_size, n);
    let before = chunk_bytes(raw, dims, cdims, elem_size, n - 1);
    let last = chunk_elems(raw, dims, cdims, elem_size, n - 1, chunk_volume(cdims) as int);
    lemma_chunks_len(raw, dims, cdims, elem_size, n);
    lemma_chunks_len(raw, dims, cdims, elem_size, n - 1);
    lemma_elems_len(raw, dims, cdims, elem_size, n - 1, chunk_volume(cdims) as int);
    assert(0 <= k * len) by (nonlinear_arith)
        requires
            k >= 0,
            len >= 0,
    ;
    assert(k * len + len <= n * len) by (nonlinear_arith)
        requires
            k + 1 <= n,
            len >= 0,
    ;
    assert((n - 1) * len + len == n * len) by (nonlinear_arith);
    if k == n - 1 {
        assert(all.subrange(k * len, k * len + len) =~= last);
    } else {
        lemma_chunk_in_data(raw, dims, cdims, elem_size, k, n - 1);
        assert(all.subrange(k * len, k * len + len) =~= before.subrange(k * len, k * len + len));
    }
}

// ---------------------------------------------------------------------------
// Indexes
// ---------------------------------------------------------------------------

/// The chunks that are written at `base`.
spec fn written_entries(base: u64, counts: Seq<u64>, len: nat, n: nat) -> Seq<(u64, Seq<u64>)> {
    Seq::new(n, |r: int| ((base + r * len) as u64, chunk_coords(counts, r)))
}

/// A chunk is found by its coordinates.
proof fn lemma_entry_found(base: u64, counts: Seq<u64>, len: nat, total: nat, k: int, n: int)
    requires
        all_positive(counts),
        total == suffix_product(counts, 0),
        0 <= k < n <= total,
    ensures
        entry_for(written_entries(base, counts, len, total), chunk_coords(counts, k), n) == Some(
            (base + k * len) as u64,
        ),
    decreases n,
{
    let es = written_entries(base, counts, len, total);
    if k != n - 1 {
        lemma_entry_found(base, counts, len, total, k, n - 1);
        lemma_position_back(counts, k, 0);
        lemma_position_back(counts, n - 1, 0);
        lemma_small_mod(k as nat, total);
        lemma_small_mod((n - 1) as nat, total);
        assert(chunk_coords(counts, k) != chunk_coords(counts, n - 1));
    }
}

/// A record stands at its place in the index.
proof fn lemma_record_at(base: u64, counts: Seq<u64>, len: nat, r: int, n: int)
    requires
        0 <= r < n,
    ensures
        ({
            let w = record_len(counts.len()) as int;
            let recs = chunk_records(base, counts, len, n);
            &&& 0 <= r * w
            &&& r * w + w <= recs.len()
            &&& recs.subrange(r * w, r * w + w) == le_bytes((base + r * len) as nat, 8) + le64_all(
                chunk_coords(counts, r),
            )
        }),
    decreases n,
{
    let w = record_len(counts.len()) as int;
    let recs = chunk_records(base, counts, len, n);
    let before = chunk_records(base, counts, len, n - 1);
    lemma_records_len(base, counts, len, n);
    lemma_records_len(base, counts, len, n - 1);
    assert(0 <= r * w) by (nonlinear_arith)
        requires
            r >= 0,
            w >= 0,
    ;
    assert((n - 1) * w + w == n * w) by (nonlinear_arith);
    if r == n - 1 {
        assert(recs.subrange(r * w, r * w + w) =~= le_bytes((base + r * len) as nat, 8) + le64_all(
            chunk_coords(counts, r),
        ));
    } else {
        lemma_record_at(base, counts, len, r, n - 1);
        assert(recs.subrange(r * w, r * w + w) =~= before.subrange(r * w, r * w + w));
    }
}

/// The records of the index read back.
proof fn lemma_records_back(base: u64, counts: Seq<u64>, len: nat, total: nat)
    requires
        base + total * len <= u64::MAX,
    ensures
        tree_entries(chunk_records(base, counts, len, total as int), counts.len(), total)
            == written_entries(base, counts, len, total),
{
    let recs = chunk_records(base, counts, len, total as int);
    let es = written_entries(base, counts, len, total);
    let rank = counts.len() as int;
    let w = record_len(counts.len()) as int;
    let back = tree_entries(recs, counts.len(), total);
    assert forall|r: int| 0 <= r < total implies #[trigger] back[r] == es[r] by {
        let at = r * w;
        let c = chunk_coords(counts, r);
        let a = (base + r * len) as nat;
        lemma_record_at(base, counts, len, r, total as int);
        let rec = recs.subrange(at, at + w);
        lemma_le_len(a, 8);
        lemma_le64_all_len(c);
        lemma_byte_span();
        assert(r * len <= total * len && r * len >= 0) by (nonlinear_arith)
            requires
                0 <= r <= total,
                len >= 0,
        ;
        lemma_le_roundtrip(a, 8);
        assert(recs.subrange(at, at + 8) =~= rec.subrange(0, 8));
        assert(rec.subrange(0, 8) =~= le_bytes(a, 8));
        assert(recs.subrange(at + 8, at + 8 + 8 * rank) =~= rec.subrange(8, 8 + 8 * rank));
        assert(rec.subrange(8, 8 + 8 * rank) =~= le64_all(c));
        lemma_numbers(recs, at + 8, c, rank);
        assert(c.take(rank) =~= c);
    }
    assert(back =~= es);
}

/// The layout message is small.
pub(crate) proof fn lemma_layout_size(
    dims: Seq<u64>,
    cdims: Seq<u64>,
    elem_size: u32,
    base: u64,
    resizable: bool,
)
    requires
        dims.len() == cdims.len(),
        dims.len() <= 254,
    ensures
        chunked_layout(dims, cdims, elem_size, base, resizable).len() < 0x1_0000,
{
    let total = chunk_total(dims, cdims);
    let to = if total == 0 {
        u64::MAX as nat
    } else {
        base as nat + chunks_len(dims, cdims, elem_size)
    };
    lemma_le64_all_len(cdims);
    lemma_le_len(elem_size as nat, 8);
    lemma_le_len(node_size(total * record_len(dims.len())), 4);
    lemma_le_len(to, 8);
    lemma_le_len(base as nat, 8);
}

/// The layout message reads back.
proof fn lemma_layout_back(
    dims: Seq<u64>,
    cdims: Seq<u64>,
    elem_size: u32,
    base: u64,
    resizable: bool,
)
    requires
        dims.len() == cdims.len(),
        dims.len() <= 254,
        base + chunks_len(dims, cdims, elem_size) <= u64::MAX,
    ensures
        ({
            let total = chunk_total(dims, cdims);
            let index = if !indexed(total, resizable) {
                ChunkIndex::Single(base)
            } else if total == 0 {
                ChunkIndex::Tree(u64::MAX)
            } else {
                ChunkIndex::Tree((base + chunks_len(dims, cdims, elem_size)) as u64)
            };
            let data = chunked_layout(dims, cdims, elem_size, base, resizable);
            &&& parsed_chunked(data) == Some(
                ChunkedView { cdims, elem_size: elem_size as u64, index },
            )
            &&& data[0] == 4 && data[1] == 2
        }),
{
    let total = chunk_total(dims, cdims);
    let data = chunked_layout(dims, cdims, elem_size, base, resizable);
    let head = layout_head(dims.len(), cdims, elem_size);
    let rank = dims.len() as int;
    let tail = 13 + 8 * rank;
    let node = node_size(total * record_len(dims.len()));
    let to = if total == 0 {
        u64::MAX as nat
    } else {
        base as nat + chunks_len(dims, cdims, elem_size)
    };
    lemma_byte_span();
    lemma_le64_all_len(cdims);
    lemma_le_len(elem_size as nat, 8);
    lemma_le_roundtrip(elem_size as nat, 8);
    lemma_le_len(node, 4);
    lemma_le_len(to, 8);
    lemma_le_roundtrip(to, 8);
    lemma_le_len(base as nat, 8);
    lemma_le_roundtrip(base as nat, 8);
    assert(head.len() == tail);
    assert(data.take(tail) =~= head);
    assert(head[0] == 4 && head[1] == 2 && head[2] == 0 && head[3] == (rank + 1) as u8 && head[4]
        == 8);
    assert(data[0] == head[0] && data[1] == head[1] && data[2] == head[2] && data[3] == head[3]
        && data[4] == head[4]);
    assert(data.subrange(5, 5 + 8 * rank) =~= le64_all(cdims));
    lemma_numbers(data, 5, cdims, rank);
    assert(cdims.take(rank) =~= cdims);
    assert(data.subrange(tail - 8, tail) =~= le_bytes(elem_size as nat, 8));
    if indexed(total, resizable) {
        assert(data.len() == tail + 15 && data[tail] == 5);
        assert(data.subrange(tail + 7, tail + 15) =~= le_bytes(to, 8));
    } else {
        assert(data.len() == tail + 9 && data[tail] == 1);
        assert(data.subrange(tail + 1, tail + 9) =~= le_bytes(base as nat, 8));
    }
}

// ---------------------------------------------------------------------------
// Datasets
// ---------------------------------------------------------------------------

/// Whether the chunks of a dataset and their index stand in a file at `base`.
pub open spec fn holds_chunks(
    file: Seq<u8>,
    raw: Seq<u8>,
    dims: Seq<u64>,
    cdims: Seq<u64>,
    elem_size: u32,
    base: u64,
    resizable: bool,
) -> bool {
    let len = chunked_len(dims, cdims, elem_size, resizable);
    &&& file.len() < u64::MAX
    &&& base + len <= file.len()
    &&& file.subrange(base as int, (base + len) as int) == chunked_bytes(
        raw,
        dims,
        cdims,
        elem_size,
        base,
        resizable,
    )
}

/// The first chunk is at the origin.
proof fn lemma_origin(counts: Seq<u64>)
    requires
        all_positive(counts),
    ensures
        chunk_coords(counts, 0) == Seq::new(counts.len(), |d: int| 0u64),
{
    assert forall|d: int| 0 <= d < counts.len() implies #[trigger] chunk_coords(counts, 0)[d]
        == 0 by {
        lemma_suffix_le(counts, d + 1, counts.len() as int);
        assert(counts[d] >= 1);
        lemma_div_basics(suffix_product(counts, d + 1) as int);
        lemma_small_mod(0, counts[d] as nat);
    }
    assert(chunk_coords(counts, 0) =~= Seq::new(counts.len(), |d: int| 0u64));
}

/// Whether an index over chunks stands in a file.
#[verifier::opaque]
spec fn holds_index(file: Seq<u8>, at: u64, recs: Seq<u8>, rank: nat, n: nat) -> bool {
    let len = BTHD_SIZE + node_size(recs.len());
    &&& at + len <= file.len()
    &&& file.subrange(at as int, at + len) == btree_bytes(10, at, record_len(rank) as u16, recs, n)
}

/// The entries of an index are found.
#[verifier::spinoff_prover]
#[verifier::rlimit(50)]
proof fn lemma_index_found(file: Seq<u8>, at: u64, recs: Seq<u8>, rank: nat, n: u64)
    requires
        rank <= 254,
        recs.len() == n as nat * record_len(rank),
        file.len() < u64::MAX,
        holds_index(file, at, recs, rank, n as nat),
    ensures
        chunk_entries(file, ChunkIndex::Tree(at), rank) == Some(
            tree_entries(recs, rank, n as nat),
        ),
{
    reveal(chunk_entries);
    reveal(holds_index);
    law_index_is_found(file, 10, at, record_len(rank) as u16, recs, n);
}

/// What stands behind another thing in a file.
proof fn lemma_behind(file: Seq<u8>, at: int, first: Seq<u8>, second: Seq<u8>, len: int)
    requires
        0 <= at,
        0 <= len,
        at + len <= file.len(),
        file.subrange(at, at + len) == first + second,
    ensures
        len == first.len() + second.len(),
        file.subrange(at + first.len(), at + len) == second,
{
    let both = first + second;
    assert(file.subrange(at, at + len).len() == len);
    assert(file.subrange(at + first.len(), at + len) =~= both.subrange(first.len() as int, len));
    assert(both.subrange(first.len() as int, len) =~= second);
}

/// The index of chunks that have one.
proof fn lemma_index_bytes(
    dims: Seq<u64>,
    cdims: Seq<u64>,
    elem_size: u32,
    base: u64,
    resizable: bool,
)
    requires
        dims.len() <= 254,
        indexed(chunk_total(dims, cdims), resizable),
        chunk_total(dims, cdims) > 0,
    ensures
        index_bytes(dims, cdims, elem_size, base, resizable) == btree_bytes(
            10,
            (base + chunks_len(dims, cdims, elem_size)) as u64,
            record_len(dims.len()) as u16,
            chunk_records(
                base,
                chunk_counts(dims, cdims),
                chunk_len(cdims, elem_size),
                chunk_total(dims, cdims) as int,
            ),
            chunk_total(dims, cdims),
        ),
{
    assert(record_len(dims.len()) % 0x1_0000 == record_len(dims.len()));
}

proof fn lemma_holds_index(file: Seq<u8>, at: u64, recs: Seq<u8>, rank: nat, n: nat)
    requires
        ({
            let index = btree_bytes(10, at, record_len(rank) as u16, recs, n);
            &&& at + index.len() <= file.len()
            &&& file.subrange(at as int, at + index.len()) == index
        }),
    ensures
        holds_index(file, at, recs, rank, n),
        at < file.len(),
{
    reveal(holds_index);
    lemma_btree_len(10, at, record_len(rank) as u16, recs, n);
}

/// The index stands behind the chunks.
proof fn lemma_index_stands(
    file: Seq<u8>,
    raw: Seq<u8>,
    dims: Seq<u64>,
    cdims: Seq<u64>,
    elem_size: u32,
    base: u64,
    resizable: bool,
)
    requires
        cdims.len() == dims.len(),
        holds_chunks(file, raw, dims, cdims, elem_size, base, resizable),
    ensures
        ({
            let at = base + chunks_len(dims, cdims, elem_size);
            let index = index_bytes(dims, cdims, elem_size, base, resizable);
            &&& at + index.len() <= file.len()
            &&& file.subrange(at, at + index.len()) == index
        }),
{
    let total = chunk_total(dims, cdims);
    lemma_chunks_len(raw, dims, cdims, elem_size, total as int);
    lemma_behind(
        file,
        base as int,
        chunk_bytes(raw, dims, cdims, elem_size, total as int),
        index_bytes(dims, cdims, elem_size, base, resizable),
        chunked_len(dims, cdims, elem_size, resizable) as int,
    );
}

/// An index with records reads back.
proof fn lemma_tree_back(
    file: Seq<u8>,
    raw: Seq<u8>,
    dims: Seq<u64>,
    cdims: Seq<u64>,
    elem_size: u32,
    base: u64,
    resizable: bool,
)
    requires
        cdims.len() == dims.len(),
        dims.len() <= 254,
        holds_chunks(file, raw, dims, cdims, elem_size, base, resizable),
        indexed(chunk_total(dims, cdims), resizable),
        0 < chunk_total(dims, cdims) <= u64::MAX,
    ensures
        chunk_entries(
            file,
            ChunkIndex::Tree((base + chunks_len(dims, cdims, elem_size)) as u64),
            dims.len(),
        ) == Some(
            written_entries(
                base,
                chunk_counts(dims, cdims),
                chunk_len(cdims, elem_size),
                chunk_total(dims, cdims),
            ),
        ),
{
    let total = chunk_total(dims, cdims);
    let counts = chunk_counts(dims, cdims);
    let len = chunk_len(cdims, elem_size);
    let at = (base + chunks_len(dims, cdims, elem_size)) as u64;
    let recs = chunk_records(base, counts, len, total as int);
    lemma_index_stands(file, raw, dims, cdims, elem_size, base, resizable);
    lemma_index_bytes(dims, cdims, elem_size, base, resizable);
    lemma_holds_index(file, at, recs, dims.len(), total);
    lemma_records_len(base, counts, len, total as int);
    lemma_index_found(file, at, recs, dims.len(), total as u64);
    lemma_records_back(base, counts, len, total);
}

proof fn lemma_entries_back(
    file: Seq<u8>,
    raw: Seq<u8>,
    dims: Seq<u64>,
    cdims: Seq<u64>,
    elem_size: u32,
    base: u64,
    resizable: bool,
)
    requires
        can_chunk(dims, cdims, elem_size),
        dims.len() <= 254,
        holds_chunks(file, raw, dims, cdims, elem_size, base, resizable),
    ensures
        ({
            let index = parsed_chunked(
                chunked_layout(dims, cdims, elem_size, base, resizable),
            )->0.index;
            chunk_entries(file, index, dims.len()) == Some(
                written_entries(
                    base,
                    chunk_counts(dims, cdims),
                    chunk_len(cdims, elem_size),
                    chunk_total(dims, cdims),
                ),
            )
        }),
{
    let total = chunk_total(dims, cdims);
    let counts = chunk_counts(dims, cdims);
    let len = chunk_len(cdims, elem_size);
    let es = written_entries(base, counts, len, total);
    lemma_layout_back(dims, cdims, elem_size, base, resizable);
    reveal(chunk_entries);
    if !indexed(total, resizable) {
        lemma_counts_positive(counts);
        lemma_origin(counts);
        lemma_full_chunk(cdims, elem_size);
        assert(0 * len == 0 && 1 * len == len);
        assert(es =~= seq![(base, Seq::new(dims.len(), |d: int| 0u64))]);
    } else if total == 0 {
        assert(es =~= Seq::empty());
    } else {
        lemma_checked_total(counts);
        lemma_tree_back(file, raw, dims, cdims, elem_size, base, resizable);
    }
}

/// A chunk is not empty.
proof fn lemma_full_chunk(cdims: Seq<u64>, elem_size: u32)
    requires
        !cdims.contains(0),
        elem_size >= 1,
    ensures
        all_positive(cdims),
        chunk_volume(cdims) >= 1,
        chunk_len(cdims, elem_size) >= 1,
{
    assert forall|d: int| 0 <= d < cdims.len() implies #[trigger] cdims[d] >= 1 by {
        assert(cdims.contains(cdims[d]));
    }
    lemma_suffix_le(cdims, 0, cdims.len() as int);
    let v = chunk_volume(cdims) as int;
    assert(v * elem_size >= 1) by (nonlinear_arith)
        requires
            v >= 1,
            elem_size >= 1,
    ;
}

proof fn lemma_elem_back(
    file: Seq<u8>,
    raw: Seq<u8>,
    dims: Seq<u64>,
    cdims: Seq<u64>,
    elem_size: u32,
    base: u64,
    resizable: bool,
    j: int,
)
    requires
        can_chunk(dims, cdims, elem_size),
        holds_chunks(file, raw, dims, cdims, elem_size, base, resizable),
        raw.len() == suffix_product(dims, 0) * elem_size as nat,
        0 <= j < suffix_product(dims, 0),
    ensures
        0 <= j * elem_size,
        j * elem_size + elem_size <= raw.len(),
        stored_elem(
            file,
            written_entries(
                base,
                chunk_counts(dims, cdims),
                chunk_len(cdims, elem_size),
                chunk_total(dims, cdims),
            ),
            dims,
            cdims,
            elem_size as nat,
            j,
        ) == raw.subrange(j * elem_size, j * elem_size + elem_size),
{
    let total = chunk_total(dims, cdims);
    let counts = chunk_counts(dims, cdims);
    let len = chunk_len(cdims, elem_size) as int;
    let size = elem_size as int;
    let c = chunk_of(dims, cdims, j);
    let m = coords_within(dims, cdims, j);
    lemma_counts_positive(dims);
    lemma_full_chunk(cdims, elem_size);
    lemma_located(dims, cdims, j);
    lemma_row_major_bound(c, counts, 0);
    lemma_row_major_bound(m, cdims, 0);
    let k = row_major(c, counts, 0) as int;
    let e = place_within(dims, cdims, j) as int;
    assert(all_positive(counts)) by {
        assert forall|d: int| 0 <= d < counts.len() implies #[trigger] counts[d] >= 1 by {
            assert(c[d] < counts[d]);
        }
    }
    assert forall|d: int| 0 <= d < dims.len() implies #[trigger] chunk_coords(counts, k)[d]
        == c[d] by {
        lemma_coord_back(c, counts, 0, d);
    }
    assert(chunk_coords(counts, k) =~= c);
    lemma_entry_found(base, counts, len as nat, total, k, total as int);
    lemma_chunk_in_data(raw, dims, cdims, elem_size, k, total as int);
    lemma_elem_in_chunk(raw, dims, cdims, elem_size, k, e, chunk_volume(cdims) as int);
    lemma_chunked_len(raw, dims, cdims, elem_size, base, resizable);
    let stored = chunked_bytes(raw, dims, cdims, elem_size, base, resizable);
    let chunks = chunk_bytes(raw, dims, cdims, elem_size, total as int);
    let elems = chunk_elems(raw, dims, cdims, elem_size, k, chunk_volume(cdims) as int);
    let from = k * len + e * size;
    lemma_elems_len(raw, dims, cdims, elem_size, k, chunk_volume(cdims) as int);
    assert(chunks.subrange(from, from + size) =~= chunks.subrange(
        k * len,
        k * len + len,
    ).subrange(e * size, e * size + size));
    assert(stored.subrange(from, from + size) =~= chunks.subrange(from, from + size));
    assert(file.subrange(base + from, base + from + size) =~= file.subrange(
        base as int,
        base + stored.len(),
    ).subrange(from, from + size));
    lemma_source_back(dims, cdims, j, 0);
    lemma_small_mod(j as nat, suffix_product(dims, 0));
    let n = suffix_product(dims, 0) as int;
    assert(0 <= j * size && j * size + size <= n * size) by (nonlinear_arith)
        requires
            0 <= j,
            j + 1 <= n,
            size >= 0,
    ;
    assert(chunk_elem(raw, dims, cdims, elem_size, k, e) =~= raw.subrange(
        j * size,
        j * size + size,
    ));
}

proof fn lemma_elems_back(
    file: Seq<u8>,
    raw: Seq<u8>,
    dims: Seq<u64>,
    cdims: Seq<u64>,
    elem_size: u32,
    base: u64,
    resizable: bool,
    n: int,
)
    requires
        can_chunk(dims, cdims, elem_size),
        holds_chunks(file, raw, dims, cdims, elem_size, base, resizable),
        raw.len() == suffix_product(dims, 0) * elem_size as nat,
        0 <= n <= suffix_product(dims, 0),
    ensures
        0 <= n * elem_size <= raw.len(),
        stored_elems(
            file,
            written_entries(
                base,
                chunk_counts(dims, cdims),
                chunk_len(cdims, elem_size),
                chunk_total(dims, cdims),
            ),
            dims,
            cdims,
            elem_size as nat,
            n,
        ) == raw.take(n * elem_size),
    decreases n,
{
    if n > 0 {
        lemma_elems_back(file, raw, dims, cdims, elem_size, base, resizable, n - 1);
        lemma_elem_back(file, raw, dims, cdims, elem_size, base, resizable, n - 1);
        assert((n - 1) * elem_size + elem_size == n * elem_size) by (nonlinear_arith);
        let from = (n - 1) * elem_size;
        assert(raw.take(n * elem_size) =~= raw.take(from) + raw.subrange(from, from + elem_size));
    } else {
        assert(0 * elem_size == 0);
        assert(raw.take(0) =~= Seq::empty());
    }
}

/// Data that was cut into chunks and stored with their index is put together
/// again from them.
pub proof fn law_chunked_data_reads_back(
    file: Seq<u8>,
    raw: Seq<u8>,
    dims: Seq<u64>,
    cdims: Seq<u64>,
    elem_size: u32,
    base: u64,
    resizable: bool,
)
    requires
        can_chunk(dims, cdims, elem_size),
        dims.len() <= 254,
        raw.len() == suffix_product(dims, 0) * elem_size as nat,
        holds_chunks(file, raw, dims, cdims, elem_size, base, resizable),
    ensures
        chunked_layout(dims, cdims, elem_size, base, resizable).len() < 0x1_0000,
        chunked_layout(dims, cdims, elem_size, base, resizable)[0] == 4,
        chunked_layout(dims, cdims, elem_size, base, resizable)[1] == 2,
        chunked_answer(
            file,
            chunked_layout(dims, cdims, elem_size, base, resizable),
            dims,
        ) == Ok::<Seq<u8>, ReadFault>(raw),
{
    let total = chunk_total(dims, cdims) as int;
    let counts = chunk_counts(dims, cdims);
    let len = chunk_len(cdims, elem_size) as int;
    let size = elem_size as int;
    let n = suffix_product(dims, 0) as int;
    let es = written_entries(base, counts, len as nat, total as nat);
    lemma_layout_back(dims, cdims, elem_size, base, resizable);
    lemma_layout_size(dims, cdims, elem_size, base, resizable);
    lemma_entries_back(file, raw, dims, cdims, elem_size, base, resizable);
    lemma_cover(dims, cdims, 0);
    let v = chunk_volume(cdims) as int;
    assert(n * size <= total * (v * size)) by (nonlinear_arith)
        requires
            n <= total * v,
            size >= 0,
    ;
    assert forall|i: int| 0 <= i < es.len() implies (#[trigger] es[i]).0 + len <= file.len() by {
        assert(i * len + len <= total * len && 0 <= i * len) by (nonlinear_arith)
            requires
                0 <= i,
                i + 1 <= total,
                len >= 0,
        ;
    }
    lemma_elems_back(file, raw, dims, cdims, elem_size, base, resizable, n);
    assert(raw.take(n * size) =~= raw);
}

/// Element `e` of chunk `k` is the element of the dataset at the same place, where
/// the dataset has one there; beyond its edges there are zeros.
pub proof fn law_chunk_elements_are_dataset_elements(
    raw: Seq<u8>,
    dims: Seq<u64>,
    cdims: Seq<u64>,
    elem_size: u32,
    k: int,
    e: int,
    b: int,
)
    requires
        dims.len() == cdims.len(),
        0 <= b < elem_size,
    ensures
        chunk_elem(raw, dims, cdims, elem_size, k, e).len() == elem_size,
        (exists|d: int| 0 <= d < dims.len() && #[trigger] elem_coord(dims, cdims, k, e, d) >= dims[d])
            ==> chunk_elem(raw, dims, cdims, elem_size, k, e)[b] == 0,
        (forall|d: int|
            0 <= d < dims.len() ==> #[trigger] elem_coord(dims, cdims, k, e, d) < dims[d]) ==> ({
            let x = source_elem(dims, cdims, k, e, 0);
            &&& x is Some
            &&& 0 <= x->0 * elem_size + b < raw.len() ==> chunk_elem(
                raw,
                dims,
                cdims,
                elem_size,
                k,
                e,
            )[b] == raw[x->0 * elem_size + b]
        }),
{
    if exists|d: int| 0 <= d < dims.len() && #[trigger] elem_coord(dims, cdims, k, e, d) >= dims[d] {
        let d = choose|d: int|
            0 <= d < dims.len() && #[trigger] elem_coord(dims, cdims, k, e, d) >= dims[d];
        lemma_beyond_edge(dims, cdims, k, e, 0, d);
    }
    if forall|d: int|
        0 <= d < dims.len() ==> #[trigger] elem_coord(dims, cdims, k, e, d) < dims[d] {
        lemma_within_edges(dims, cdims, k, e, 0);
    }
}

proof fn lemma_beyond_edge(dims: Seq<u64>, cdims: Seq<u64>, k: int, e: int, from: int, d: int)
    requires
        0 <= from <= d < dims.len(),
        elem_coord(dims, cdims, k, e, d) >= dims[d],
    ensures
        source_elem(dims, cdims, k, e, from) is None,
    decreases d - from,
{
    if from < d {
        lemma_beyond_edge(dims, cdims, k, e, from + 1, d);
    }
}

proof fn lemma_within_edges(dims: Seq<u64>, cdims: Seq<u64>, k: int, e: int, from: int)
    requires
        0 <= from <= dims.len(),
        forall|d: int|
            0 <= d < dims.len() ==> #[trigger] elem_coord(dims, cdims, k, e, d) < dims[d],
    ensures
        source_elem(dims, cdims, k, e, from) is Some,
    decreases dims.len() - from,
{
    if from < dims.len() {
        lemma_within_edges(dims, cdims, k, e, from + 1);
        assert(elem_coord(dims, cdims, k, e, from) < dims[from]);
    }
}

} // verus!
