//! Chunked storage: splitting data into chunks, and the index over them.

use crate::bytes::{
    extend, le64_all, le_bytes, lemma_le64_all_len, lemma_le_len, push1, push2, push_le,
    push_le64_all,
};
use crate::chunk_grid::{checked_product, checked_total, chunk_counts, lemma_checked_total};
use crate::dense::{btree_bytes, build_btree, lemma_btree_len, node_size, BTHD_SIZE};
use crate::file_size::{add_lens, bounded, leaf_len, lemma_leaf_holds_records};
use crate::verification_grid::{
    ceil_div_u64, lemma_ceil_div, lemma_suffix_le, lemma_suffix_zero, suffix_product, tile_coord,
};
use vstd::arithmetic::div_mod::{lemma_div_denominator, lemma_mod_bound};
use vstd::arithmetic::mul::lemma_mul_is_commutative;
use vstd::prelude::*;

verus! {

/// How a dataset is cut into chunks.
#[derive(Debug, PartialEq, Eq)]
pub struct ChunkOptions {
    /// The chunk extents; `None` for a dataset that is not chunked.
    pub chunk_dims: Option<Vec<u64>>,
}

impl Default for ChunkOptions {
    fn default() -> (r: Self)
        ensures
            r.chunk_dims is None,
    {
        ChunkOptions { chunk_dims: None }
    }
}

/// The chunk extents of a dataset: those given, or else the dataset's own.
pub open spec fn resolved_dims(chunk_dims: Option<Seq<u64>>, dims: Seq<u64>) -> Seq<u64> {
    match chunk_dims {
        Some(c) => c,
        None => Seq::new(
            dims.len(),
            |i: int|
                if dims[i] == 0 {
                    1u64
                } else {
                    dims[i]
                },
        ),
    }
}

impl ChunkOptions {
    /// Whether chunk extents are given.
    pub fn is_chunked(&self) -> (r: bool)
        ensures
            r == (self.chunk_dims is Some),
    {
        self.chunk_dims.is_some()
    }

    /// The chunk extents for a dataset of extent `dims`.
    pub fn resolve_chunk_dims(&self, dims: &[u64]) -> (r: Vec<u64>)
        ensures
            r@ == resolved_dims(crate::messages::opt_view(self.chunk_dims), dims@),
    {
        match &self.chunk_dims {
            Some(c) => vstd::slice::slice_to_vec(c.as_slice()),
            None => {
                let mut r: Vec<u64> = Vec::new();
                let mut i: usize = 0;
                while i < dims.len()
                    invariant
                        i <= dims@.len(),
                        r@.len() == i,
                        forall|j: int|
                            0 <= j < i ==> #[trigger] r@[j] == if dims@[j] == 0 {
                                1u64
                            } else {
                                dims@[j]
                            },
                    decreases dims@.len() - i,
                {
                    let d: u64 = dims[i];
                    r.push(
                        if d == 0 {
                            1
                        } else {
                            d
                        },
                    );
                    i = i + 1;
                }
                assert(r@ =~= resolved_dims(None, dims@));
                r
            },
        }
    }
}

/// Whether a dataset can be cut: elements have a size, there are as many chunk
/// extents as axes, none of them zero, and the chunks fit in memory.
pub open spec fn can_chunk(dims: Seq<u64>, cdims: Seq<u64>, elem_size: u32) -> bool {
    &&& elem_size >= 1
    &&& dims.len() >= 1
    &&& cdims.len() == dims.len()
    &&& !cdims.contains(0)
    &&& checked_total(cdims) is Some
    &&& checked_total(chunk_counts(dims, cdims)) is Some
    &&& chunks_len(dims, cdims, elem_size) <= isize::MAX
}

/// The number of chunks.
pub open spec fn chunk_total(dims: Seq<u64>, cdims: Seq<u64>) -> nat {
    suffix_product(chunk_counts(dims, cdims), 0)
}

/// Elements of a chunk.
pub open spec fn chunk_volume(cdims: Seq<u64>) -> nat {
    suffix_product(cdims, 0)
}

/// Bytes of a chunk.
pub open spec fn chunk_len(cdims: Seq<u64>, elem_size: u32) -> nat {
    chunk_volume(cdims) * elem_size as nat
}

/// Bytes of all chunks.
pub open spec fn chunks_len(dims: Seq<u64>, cdims: Seq<u64>, elem_size: u32) -> nat {
    chunk_total(dims, cdims) * chunk_len(cdims, elem_size)
}

/// The coordinate along axis `d` of element `e` of chunk `k`.
pub open spec fn elem_coord(dims: Seq<u64>, cdims: Seq<u64>, k: int, e: int, d: int) -> int {
    tile_coord(chunk_counts(dims, cdims), k, d) * cdims[d] + tile_coord(cdims, e, d)
}

/// Where element `e` of chunk `k` is in the dataset, counted over axes `d..`;
/// `None` past the edge.
pub open spec fn source_elem(dims: Seq<u64>, cdims: Seq<u64>, k: int, e: int, d: int) -> Option<int>
    decreases dims.len() - d,
{
    if d < 0 || d >= dims.len() {
        Some(0)
    } else {
        match source_elem(dims, cdims, k, e, d + 1) {
            None => None,
            Some(rest) => if elem_coord(dims, cdims, k, e, d) < dims[d] {
                Some(elem_coord(dims, cdims, k, e, d) * suffix_product(dims, d + 1) + rest)
            } else {
                None
            },
        }
    }
}

/// Element `e` of chunk `k`: the dataset's bytes, or zeros past its edge or its
/// data.
pub open spec fn chunk_elem(
    raw: Seq<u8>,
    dims: Seq<u64>,
    cdims: Seq<u64>,
    elem_size: u32,
    k: int,
    e: int,
) -> Seq<u8> {
    Seq::new(
        elem_size as nat,
        |b: int|
            match source_elem(dims, cdims, k, e, 0) {
                None => 0u8,
                Some(x) => if x * elem_size + b < raw.len() {
                    raw[x * elem_size + b]
                } else {
                    0u8
                },
            },
    )
}

/// The first `n` elements of chunk `k`.
pub open spec fn chunk_elems(
    raw: Seq<u8>,
    dims: Seq<u64>,
    cdims: Seq<u64>,
    elem_size: u32,
    k: int,
    n: int,
) -> Seq<u8>
    decreases n,
{
    if n <= 0 {
        Seq::empty()
    } else {
        chunk_elems(raw, dims, cdims, elem_size, k, n - 1) + chunk_elem(
            raw,
            dims,
            cdims,
            elem_size,
            k,
            n - 1,
        )
    }
}

/// The chunks before chunk `k`, one after another in row-major order.
pub open spec fn chunk_bytes(
    raw: Seq<u8>,
    dims: Seq<u64>,
    cdims: Seq<u64>,
    elem_size: u32,
    k: int,
) -> Seq<u8>
    decreases k,
{
    if k <= 0 {
        Seq::empty()
    } else {
        chunk_bytes(raw, dims, cdims, elem_size, k - 1) + chunk_elems(
            raw,
            dims,
            cdims,
            elem_size,
            k - 1,
            chunk_volume(cdims) as int,
        )
    }
}

// ---------------------------------------------------------------------------
// Sizes
// ---------------------------------------------------------------------------

pub(crate) proof fn lemma_elems_len(
    raw: Seq<u8>,
    dims: Seq<u64>,
    cdims: Seq<u64>,
    elem_size: u32,
    k: int,
    n: int,
)
    requires
        n >= 0,
    ensures
        chunk_elems(raw, dims, cdims, elem_size, k, n).len() == n * elem_size,
    decreases n,
{
    if n > 0 {
        lemma_elems_len(raw, dims, cdims, elem_size, k, n - 1);
        assert((n - 1) * elem_size + elem_size == n * elem_size) by (nonlinear_arith);
    } else {
        assert(0 * elem_size == 0) by (nonlinear_arith);
    }
}

pub(crate) proof fn lemma_chunks_len(raw: Seq<u8>, dims: Seq<u64>, cdims: Seq<u64>, elem_size: u32, k: int)
    requires
        k >= 0,
    ensures
        chunk_bytes(raw, dims, cdims, elem_size, k).len() == k * chunk_len(cdims, elem_size),
    decreases k,
{
    let len = chunk_len(cdims, elem_size);
    if k > 0 {
        lemma_chunks_len(raw, dims, cdims, elem_size, k - 1);
        lemma_elems_len(raw, dims, cdims, elem_size, k - 1, chunk_volume(cdims) as int);
        assert((k - 1) * len + len == k * len) by (nonlinear_arith);
    } else {
        assert(0 * len == 0) by (nonlinear_arith);
    }
}

/// The chunks cover the dataset.
pub(crate) proof fn lemma_cover(dims: Seq<u64>, cdims: Seq<u64>, i: int)
    requires
        dims.len() == cdims.len(),
        0 <= i <= dims.len(),
        !cdims.contains(0),
    ensures
        suffix_product(dims, i) <= suffix_product(chunk_counts(dims, cdims), i) * suffix_product(
            cdims,
            i,
        ),
    decreases dims.len() - i,
{
    let n = chunk_counts(dims, cdims);
    if i < dims.len() {
        lemma_cover(dims, cdims, i + 1);
        assert(cdims.contains(cdims[i]));
        lemma_ceil_div(dims[i] as int, cdims[i] as int);
        let a = suffix_product(dims, i + 1) as int;
        let b = suffix_product(n, i + 1) as int;
        let c = suffix_product(cdims, i + 1) as int;
        let x = dims[i] as int;
        let y = n[i] as int;
        let z = cdims[i] as int;
        assert(x <= y * z);
        assert(x * a <= (y * z) * (b * c)) by (nonlinear_arith)
            requires
                0 <= x <= y * z,
                0 <= a <= b * c,
        ;
        assert((y * z) * (b * c) == (y * b) * (z * c)) by (nonlinear_arith);
    } else {
        assert(suffix_product(n, i) == 1 && suffix_product(cdims, i) == 1);
        assert(1nat * 1nat == 1);
    }
}

pub(crate) proof fn lemma_counts_positive(n: Seq<u64>)
    requires
        suffix_product(n, 0) >= 1,
    ensures
        forall|i: int| 0 <= i < n.len() ==> #[trigger] n[i] >= 1,
{
    assert forall|i: int| 0 <= i < n.len() implies #[trigger] n[i] >= 1 by {
        if n[i] == 0 {
            lemma_suffix_zero(n, 0, i);
        }
    }
}

proof fn lemma_dims_positive(dims: Seq<u64>, cdims: Seq<u64>)
    requires
        dims.len() == cdims.len(),
        !cdims.contains(0),
        chunk_total(dims, cdims) >= 1,
    ensures
        forall|i: int| 0 <= i < dims.len() ==> #[trigger] dims[i] >= 1,
        forall|i: int| 0 <= i < dims.len() ==> #[trigger] cdims[i] >= 1,
{
    let n = chunk_counts(dims, cdims);
    lemma_counts_positive(n);
    assert forall|i: int| 0 <= i < dims.len() implies #[trigger] dims[i] >= 1 && cdims[i] >= 1 by {
        assert(cdims.contains(cdims[i]));
        assert(n[i] >= 1);
        lemma_ceil_div(dims[i] as int, cdims[i] as int);
        if dims[i] == 0 {
            let z = cdims[i] as int;
            assert((z - 1) / z == 0) by (nonlinear_arith)
                requires
                    z >= 1,
            ;
        }
    }
    assert forall|i: int| 0 <= i < dims.len() implies #[trigger] cdims[i] >= 1 by {
        assert(dims[i] >= 1);
    }
}

/// An element's place is within the dataset.
proof fn lemma_source_bound(dims: Seq<u64>, cdims: Seq<u64>, k: int, e: int, d: int)
    requires
        0 <= d <= dims.len(),
        cdims.len() == dims.len(),
        forall|i: int| 0 <= i < dims.len() ==> #[trigger] chunk_counts(dims, cdims)[i] >= 1,
        forall|i: int| 0 <= i < dims.len() ==> #[trigger] cdims[i] >= 1,
        k >= 0,
        e >= 0,
    ensures
        match source_elem(dims, cdims, k, e, d) {
            Some(x) => 0 <= x < suffix_product(dims, d),
            None => true,
        },
    decreases dims.len() - d,
{
    if d < dims.len() {
        lemma_source_bound(dims, cdims, k, e, d + 1);
        let n = chunk_counts(dims, cdims);
        let g = elem_coord(dims, cdims, k, e, d);
        assert(n[d] >= 1 && cdims[d] >= 1);
        lemma_mod_bound(k / suffix_product(n, d + 1) as int, n[d] as int);
        lemma_mod_bound(e / suffix_product(cdims, d + 1) as int, cdims[d] as int);
        let t = tile_coord(n, k, d);
        assert(0 <= t * cdims[d]) by (nonlinear_arith)
            requires
                t >= 0,
        ;
        match source_elem(dims, cdims, k, e, d + 1) {
            None => {},
            Some(rest) => {
                if g < dims[d] {
                    let s = suffix_product(dims, d + 1) as int;
                    assert(0 <= g * s + rest < dims[d] * s) by (nonlinear_arith)
                        requires
                            0 <= g < dims[d],
                            0 <= rest < s,
                    ;
                }
            },
        }
    }
}

proof fn lemma_outside_stays(dims: Seq<u64>, cdims: Seq<u64>, k: int, e: int, d: int)
    requires
        0 <= d <= dims.len(),
        source_elem(dims, cdims, k, e, d) is None,
    ensures
        source_elem(dims, cdims, k, e, 0) is None,
    decreases d,
{
    if d > 0 {
        lemma_outside_stays(dims, cdims, k, e, d - 1);
    }
}

// ---------------------------------------------------------------------------
// Cutting
// ---------------------------------------------------------------------------

fn source_index(dims: &[u64], cdims: &[u64], counts: &[u64], k: u64, e: u64) -> (r: Option<u64>)
    requires
        dims@.len() == cdims@.len(),
        counts@ == chunk_counts(dims@, cdims@),
        forall|i: int| 0 <= i < dims@.len() ==> #[trigger] dims@[i] >= 1,
        forall|i: int| 0 <= i < dims@.len() ==> #[trigger] cdims@[i] >= 1,
        forall|i: int| 0 <= i < dims@.len() ==> #[trigger] counts@[i] >= 1,
        suffix_product(dims@, 0) <= u64::MAX,
    ensures
        match (r, source_elem(dims@, cdims@, k as int, e as int, 0)) {
            (Some(x), Some(y)) => x == y,
            (None, None) => true,
            _ => false,
        },
{
    let rank: usize = dims.len();
    let mut krem: u64 = k;
    let mut erem: u64 = e;
    let mut stride: u64 = 1;
    let mut at: u64 = 0;
    let mut d: usize = rank;
    assert(k as int / 1 == k && e as int / 1 == e);
    while d > 0
        invariant
            d <= rank == dims@.len(),
            dims@.len() == cdims@.len(),
            counts@ == chunk_counts(dims@, cdims@),
            forall|i: int| 0 <= i < dims@.len() ==> #[trigger] dims@[i] >= 1,
            forall|i: int| 0 <= i < dims@.len() ==> #[trigger] cdims@[i] >= 1,
            forall|i: int| 0 <= i < dims@.len() ==> #[trigger] counts@[i] >= 1,
            suffix_product(dims@, 0) <= u64::MAX,
            krem == k as int / suffix_product(counts@, d as int) as int,
            erem == e as int / suffix_product(cdims@, d as int) as int,
            stride == suffix_product(dims@, d as int),
            source_elem(dims@, cdims@, k as int, e as int, d as int) == Some(at as int),
        decreases d,
    {
        let ghost before = d as int;
        d = d - 1;
        let c: u64 = cdims[d];
        let n: u64 = counts[d];
        let tile: u64 = krem % n;
        let local: u64 = erem % c;
        proof {
            assert(dims@[d as int] >= 1 && cdims@[d as int] >= 1 && counts@[d as int] >= 1);
            assert(suffix_product(counts@, d as int) == counts@[d as int] * suffix_product(
                counts@,
                d + 1,
            ));
            assert(suffix_product(cdims@, d as int) == cdims@[d as int] * suffix_product(
                cdims@,
                d + 1,
            ));
            lemma_suffix_le(counts@, d + 1, counts@.len() as int);
            lemma_suffix_le(cdims@, d + 1, cdims@.len() as int);
            lemma_div_denominator(
                k as int,
                suffix_product(counts@, d + 1) as int,
                counts@[d as int] as int,
            );
            lemma_div_denominator(
                e as int,
                suffix_product(cdims@, d + 1) as int,
                cdims@[d as int] as int,
            );
            lemma_mul_is_commutative(
                counts@[d as int] as int,
                suffix_product(counts@, d + 1) as int,
            );
            lemma_mul_is_commutative(
                cdims@[d as int] as int,
                suffix_product(cdims@, d + 1) as int,
            );
            lemma_ceil_div(dims@[d as int] as int, c as int);
            assert(tile == tile_coord(counts@, k as int, d as int));
            assert(local == tile_coord(cdims@, e as int, d as int));
            // The chunk starts inside the axis.
            assert(tile * c <= (n - 1) * c) by (nonlinear_arith)
                requires
                    tile <= n - 1,
            ;
            assert(0 <= tile * c) by (nonlinear_arith);
        }
        let start: u64 = tile * c;
        let size: u64 = dims[d];
        if local >= size - start {
            proof {
                lemma_outside_stays(dims@, cdims@, k as int, e as int, d as int);
            }
            return None;
        }
        let g: u64 = start + local;
        proof {
            lemma_source_bound(dims@, cdims@, k as int, e as int, d as int);
            lemma_suffix_le(dims@, 0, d as int);
            let s = suffix_product(dims@, d + 1) as int;
            assert(0 <= g * s) by (nonlinear_arith)
                requires
                    g >= 0,
                    s >= 0,
            ;
            assert(suffix_product(dims@, d as int) == dims@[d as int] * s);
            lemma_mul_is_commutative(dims@[d as int] as int, s);
        }
        at = g * stride + at;
        stride = stride * size;
        krem = krem / n;
        erem = erem / c;
    }
    Some(at)
}

fn push_elem(out: &mut Vec<u8>, raw: &[u8], elem_size: u32, place: Option<u64>)
    ensures
        final(out)@ == old(out)@ + Seq::new(
            elem_size as nat,
            |b: int|
                match place {
                    None => 0u8,
                    Some(x) => if x * elem_size + b < raw@.len() {
                        raw@[x * elem_size + b]
                    } else {
                        0u8
                    },
                },
        ),
{
    let ghost start = out@;
    let ghost elem = Seq::new(
        elem_size as nat,
        |b: int|
            match place {
                None => 0u8,
                Some(x) => if x * elem_size + b < raw@.len() {
                    raw@[x * elem_size + b]
                } else {
                    0u8
                },
            },
    );
    let es: u128 = elem_size as u128;
    let total: u128 = raw.len() as u128;
    let mut b: u32 = 0;
    while b < elem_size
        invariant
            b <= elem_size,
            es == elem_size,
            total == raw@.len(),
            elem == Seq::new(
                elem_size as nat,
                |b: int|
                    match place {
                        None => 0u8,
                        Some(x) => if x * elem_size + b < raw@.len() {
                            raw@[x * elem_size + b]
                        } else {
                            0u8
                        },
                    },
            ),
            out@ == start + elem.take(b as int),
        decreases elem_size - b,
    {
        let byte: u8 = match place {
            None => 0,
            Some(x) => {
                assert(0 <= x * es <= 0xffff_ffff_ffff_ffff * 0xffff_ffff) by (nonlinear_arith)
                    requires
                        0 <= x <= 0xffff_ffff_ffff_ffff,
                        0 <= es <= 0xffff_ffff,
                ;
                let pos: u128 = x as u128 * es + b as u128;
                if pos < total {
                    raw[pos as usize]
                } else {
                    0
                }
            },
        };
        out.push(byte);
        assert(elem[b as int] == byte);
        assert(out@ =~= start + elem.take(b + 1));
        b = b + 1;
    }
    assert(elem.take(b as int) =~= elem);
}

/// Cuts data into chunks, one after another in row-major order. Chunks at the
/// edge are filled up with zeros.
fn cut_chunks(
    raw: &[u8],
    dims: &[u64],
    cdims: &[u64],
    counts: &[u64],
    elem_size: u32,
    total: u64,
    volume: u64,
) -> (out: Vec<u8>)
    requires
        can_chunk(dims@, cdims@, elem_size),
        counts@ == chunk_counts(dims@, cdims@),
        total == chunk_total(dims@, cdims@),
        volume == chunk_volume(cdims@),
    ensures
        out@ == chunk_bytes(raw@, dims@, cdims@, elem_size, total as int),
{
    let mut out: Vec<u8> = Vec::new();
    if total == 0 {
        return out;
    }
    proof {
        lemma_dims_positive(dims@, cdims@);
        lemma_counts_positive(counts@);
        lemma_cover(dims@, cdims@, 0);
        assert(total * volume <= total * (volume * elem_size)) by (nonlinear_arith)
            requires
                total >= 0,
                volume >= 0,
                elem_size >= 1,
        ;
    }
    let mut k: u64 = 0;
    while k < total
        invariant
            k <= total,
            total == chunk_total(dims@, cdims@),
            volume == chunk_volume(cdims@),
            dims@.len() == cdims@.len(),
            counts@ == chunk_counts(dims@, cdims@),
            forall|i: int| 0 <= i < dims@.len() ==> #[trigger] dims@[i] >= 1,
            forall|i: int| 0 <= i < dims@.len() ==> #[trigger] cdims@[i] >= 1,
            forall|i: int| 0 <= i < dims@.len() ==> #[trigger] counts@[i] >= 1,
            suffix_product(dims@, 0) <= u64::MAX,
            out@ == chunk_bytes(raw@, dims@, cdims@, elem_size, k as int),
        decreases total - k,
    {
        let ghost start = out@;
        let mut e: u64 = 0;
        assert(start + chunk_elems(raw@, dims@, cdims@, elem_size, k as int, 0) =~= start);
        while e < volume
            invariant
                e <= volume,
                dims@.len() == cdims@.len(),
                counts@ == chunk_counts(dims@, cdims@),
                forall|i: int| 0 <= i < dims@.len() ==> #[trigger] dims@[i] >= 1,
                forall|i: int| 0 <= i < dims@.len() ==> #[trigger] cdims@[i] >= 1,
                forall|i: int| 0 <= i < dims@.len() ==> #[trigger] counts@[i] >= 1,
                suffix_product(dims@, 0) <= u64::MAX,
                out@ == start + chunk_elems(
                    raw@,
                    dims@,
                    cdims@,
                    elem_size,
                    k as int,
                    e as int,
                ),
            decreases volume - e,
        {
            let ghost before = out@;
            let place: Option<u64> = source_index(dims, cdims, counts, k, e);
            push_elem(&mut out, raw, elem_size, place);
            proof {
                let elem = chunk_elem(raw@, dims@, cdims@, elem_size, k as int, e as int);
                assert(out@ =~= before + elem);
                assert(out@ =~= start + chunk_elems(
                    raw@,
                    dims@,
                    cdims@,
                    elem_size,
                    k as int,
                    e + 1,
                ));
            }
            e = e + 1;
        }
        k = k + 1;
    }
    out
}

/// The chunks of a dataset, cut but not yet placed.
pub struct PrecompressedChunks {
    /// The chunks one after another.
    data: Vec<u8>,
    cdims: Vec<u64>,
    counts: Vec<u64>,
    elem_size: u32,
    total: u64,
    len: u128,
    dims: Ghost<Seq<u64>>,
    raw: Ghost<Seq<u8>>,
}

impl PrecompressedChunks {
    pub closed spec fn spec_dims(&self) -> Seq<u64> {
        self.dims@
    }

    pub closed spec fn spec_cdims(&self) -> Seq<u64> {
        self.cdims@
    }

    pub closed spec fn spec_elem_size(&self) -> u32 {
        self.elem_size
    }

    pub closed spec fn spec_raw(&self) -> Seq<u8> {
        self.raw@
    }

    /// The invariant.
    pub closed spec fn wf(&self) -> bool {
        &&& can_chunk(self.dims@, self.cdims@, self.elem_size)
        &&& self.counts@ == chunk_counts(self.dims@, self.cdims@)
        &&& self.total == chunk_total(self.dims@, self.cdims@)
        &&& self.len == chunk_len(self.cdims@, self.elem_size)
        &&& self.data@ == chunk_bytes(
            self.raw@,
            self.dims@,
            self.cdims@,
            self.elem_size,
            self.total as int,
        )
    }
}

pub(crate) fn has_zero(s: &[u64]) -> (r: bool)
    ensures
        r == s@.contains(0),
{
    let mut i: usize = 0;
    while i < s.len()
        invariant
            i <= s@.len(),
            forall|j: int| 0 <= j < i ==> s@[j] != 0,
        decreases s@.len() - i,
    {
        if s[i] == 0 {
            assert(s@.contains(s@[i as int]));
            return true;
        }
        i = i + 1;
    }
    false
}

/// Cuts a dataset into chunks; `None` if that cannot be done.
pub fn precompress_chunks(raw: &[u8], dims: &[u64], cdims: &[u64], elem_size: u32) -> (r: Option<
    PrecompressedChunks,
>)
    ensures
        match r {
            Some(p) => {
                &&& can_chunk(dims@, cdims@, elem_size)
                &&& p.wf()
                &&& p.spec_dims() == dims@
                &&& p.spec_cdims() == cdims@
                &&& p.spec_elem_size() == elem_size
                &&& p.spec_raw() == raw@
            },
            None => !can_chunk(dims@, cdims@, elem_size),
        },
{
    if elem_size == 0 || dims.len() == 0 || cdims.len() != dims.len() || has_zero(cdims) {
        return None;
    }
    let volume: u64 = match checked_product(cdims) {
        Some(v) => v,
        None => {
            return None;
        },
    };
    let mut counts: Vec<u64> = Vec::new();
    let mut i: usize = 0;
    while i < dims.len()
        invariant
            i <= dims@.len() == cdims@.len(),
            !cdims@.contains(0),
            counts@.len() == i,
            forall|j: int| 0 <= j < i ==> #[trigger] counts@[j] == chunk_counts(dims@, cdims@)[j],
        decreases dims@.len() - i,
    {
        assert(cdims@.contains(cdims@[i as int]));
        counts.push(ceil_div_u64(dims[i], cdims[i]));
        i = i + 1;
    }
    assert(counts@ =~= chunk_counts(dims@, cdims@));
    let total: u64 = match checked_product(counts.as_slice()) {
        Some(t) => t,
        None => {
            return None;
        },
    };
    proof {
        lemma_checked_total(cdims@);
        lemma_checked_total(counts@);
        assert(0 <= volume * elem_size <= 0xffff_ffff_ffff_ffff * 0xffff_ffff) by (nonlinear_arith)
            requires
                0 <= volume <= 0xffff_ffff_ffff_ffff,
                0 <= elem_size <= 0xffff_ffff,
        ;
    }
    let len: u128 = volume as u128 * elem_size as u128;
    let limit: u128 = isize::MAX as u128;
    // A total past the limit shows in the quotient, which does not overflow.
    if len > 0 && total as u128 > limit / len {
        proof {
            let q = limit as int / len as int;
            vstd::arithmetic::div_mod::lemma_fundamental_div_mod(limit as int, len as int);
            lemma_mod_bound(limit as int, len as int);
            assert(total * len > limit) by (nonlinear_arith)
                requires
                    total >= q + 1,
                    limit < len * q + len,
                    len > 0,
            ;
        }
        return None;
    }
    proof {
        let n = total as int;
        if len > 0 {
            let q = limit as int / len as int;
            vstd::arithmetic::div_mod::lemma_fundamental_div_mod(limit as int, len as int);
            lemma_mod_bound(limit as int, len as int);
            assert(n * len <= limit) by (nonlinear_arith)
                requires
                    n <= q,
                    len * q <= limit,
                    len > 0,
            ;
        } else {
            assert(n * len == 0) by (nonlinear_arith)
                requires
                    len == 0,
            ;
        }
    }
    let data: Vec<u8> = cut_chunks(
        raw,
        dims,
        cdims,
        counts.as_slice(),
        elem_size,
        total,
        volume,
    );
    Some(
        PrecompressedChunks {
            data,
            cdims: vstd::slice::slice_to_vec(cdims),
            counts,
            elem_size,
            total,
            len,
            dims: Ghost(dims@),
            raw: Ghost(raw@),
        },
    )
}

// ---------------------------------------------------------------------------
// Index and layout
// ---------------------------------------------------------------------------

/// Whether the chunks have an index: all but a single chunk of a dataset that
/// cannot grow.
pub open spec fn indexed(total: nat, resizable: bool) -> bool {
    !(total == 1 && !resizable)
}

/// The chunk coordinates of chunk `k`.
pub open spec fn chunk_coords(counts: Seq<u64>, k: int) -> Seq<u64> {
    Seq::new(counts.len(), |d: int| tile_coord(counts, k, d) as u64)
}

/// Bytes of an index record.
pub open spec fn record_len(rank: nat) -> nat {
    8 + 8 * rank
}

/// The records of the first `k` chunks: address and coordinates.
pub open spec fn chunk_records(base: u64, counts: Seq<u64>, len: nat, k: int) -> Seq<u8>
    decreases k,
{
    if k <= 0 {
        Seq::empty()
    } else {
        chunk_records(base, counts, len, k - 1) + (le_bytes(
            (base + (k - 1) * len) as nat,
            8,
        ) + le64_all(chunk_coords(counts, k - 1)))
    }
}

/// The index over the chunks at `base`, placed behind them.
pub open spec fn index_bytes(
    dims: Seq<u64>,
    cdims: Seq<u64>,
    elem_size: u32,
    base: u64,
    resizable: bool,
) -> Seq<u8> {
    let total = chunk_total(dims, cdims);
    if indexed(total, resizable) && total > 0 {
        btree_bytes(
            10,
            (base + chunks_len(dims, cdims, elem_size)) as u64,
            (record_len(dims.len()) % 0x1_0000) as u16,
            chunk_records(
                base,
                chunk_counts(dims, cdims),
                chunk_len(cdims, elem_size),
                total as int,
            ),
            total,
        )
    } else {
        Seq::empty()
    }
}

/// The chunks at `base` and their index.
pub open spec fn chunked_bytes(
    raw: Seq<u8>,
    dims: Seq<u64>,
    cdims: Seq<u64>,
    elem_size: u32,
    base: u64,
    resizable: bool,
) -> Seq<u8> {
    chunk_bytes(raw, dims, cdims, elem_size, chunk_total(dims, cdims) as int) + index_bytes(
        dims,
        cdims,
        elem_size,
        base,
        resizable,
    )
}

/// Bytes of the chunks and their index.
pub open spec fn chunked_len(
    dims: Seq<u64>,
    cdims: Seq<u64>,
    elem_size: u32,
    resizable: bool,
) -> nat {
    let total = chunk_total(dims, cdims);
    chunks_len(dims, cdims, elem_size) + if indexed(total, resizable) && total > 0 {
        BTHD_SIZE as nat + node_size(total * record_len(dims.len()))
    } else {
        0
    }
}

/// The layout message of a chunked dataset whose chunks are at `base`.
pub open spec fn chunked_layout(
    dims: Seq<u64>,
    cdims: Seq<u64>,
    elem_size: u32,
    base: u64,
    resizable: bool,
) -> Seq<u8> {
    let total = chunk_total(dims, cdims);
    let head = layout_head(dims.len(), cdims, elem_size);
    if indexed(total, resizable) {
        head + seq![5u8] + le_bytes(node_size(total * record_len(dims.len())), 4) + seq![
            100u8,
            40u8,
        ] + le_bytes(
            if total == 0 {
                u64::MAX as nat
            } else {
                base as nat + chunks_len(dims, cdims, elem_size)
            },
            8,
        )
    } else {
        head + seq![1u8] + le_bytes(base as nat, 8)
    }
}

pub(crate) proof fn lemma_records_len(base: u64, counts: Seq<u64>, len: nat, k: int)
    requires
        k >= 0,
    ensures
        chunk_records(base, counts, len, k).len() == k * record_len(counts.len()),
    decreases k,
{
    let w = record_len(counts.len());
    if k > 0 {
        lemma_records_len(base, counts, len, k - 1);
        lemma_le_len((base + (k - 1) * len) as nat, 8);
        lemma_le64_all_len(chunk_coords(counts, k - 1));
        assert((k - 1) * w + w == k * w) by (nonlinear_arith);
    } else {
        assert(0 * w == 0) by (nonlinear_arith);
    }
}

/// The size of chunked storage does not depend on where it stands.
pub proof fn lemma_chunked_len(
    raw: Seq<u8>,
    dims: Seq<u64>,
    cdims: Seq<u64>,
    elem_size: u32,
    base: u64,
    resizable: bool,
)
    requires
        cdims.len() == dims.len(),
    ensures
        chunked_bytes(raw, dims, cdims, elem_size, base, resizable).len() == chunked_len(
            dims,
            cdims,
            elem_size,
            resizable,
        ),
{
    let total = chunk_total(dims, cdims);
    let counts = chunk_counts(dims, cdims);
    let len = chunk_len(cdims, elem_size);
    lemma_chunks_len(raw, dims, cdims, elem_size, total as int);
    lemma_records_len(base, counts, len, total as int);
    lemma_btree_len(
        10,
        (base + chunks_len(dims, cdims, elem_size)) as u64,
        (record_len(dims.len()) % 0x1_0000) as u16,
        chunk_records(base, counts, len, total as int),
        total,
    );
}

/// The layout message has the same size wherever the chunks stand.
pub proof fn lemma_chunked_layout_len(
    dims: Seq<u64>,
    cdims: Seq<u64>,
    elem_size: u32,
    a: u64,
    b: u64,
    resizable: bool,
)
    ensures
        chunked_layout(dims, cdims, elem_size, a, resizable).len() == chunked_layout(
            dims,
            cdims,
            elem_size,
            b,
            resizable,
        ).len(),
{
    let s = chunks_len(dims, cdims, elem_size);
    lemma_le_len(u64::MAX as nat, 8);
    lemma_le_len(a as nat + s, 8);
    lemma_le_len(b as nat + s, 8);
    lemma_le_len(a as nat, 8);
    lemma_le_len(b as nat, 8);
}

/// Placed chunks and the message that leads to them.
pub struct ChunkedData {
    pub data_bytes: Vec<u8>,
    pub layout_message: Vec<u8>,
}

fn write_coords(buf: &mut Vec<u8>, counts: &[u64], k: u64)
    requires
        forall|i: int| 0 <= i < counts@.len() ==> #[trigger] counts@[i] >= 1,
    ensures
        final(buf)@ == old(buf)@ + le64_all(chunk_coords(counts@, k as int)),
{
    let rank: usize = counts.len();
    let mut coords: Vec<u64> = Vec::new();
    let mut i: usize = 0;
    while i < rank
        invariant
            i <= rank == counts@.len(),
            coords@.len() == i,
            forall|j: int| 0 <= j < i ==> #[trigger] coords@[j] == 0,
        decreases rank - i,
    {
        coords.push(0);
        i = i + 1;
    }
    let mut rem: u64 = k;
    let mut d: usize = rank;
    assert(k as int / 1 == k);
    while d > 0
        invariant
            d <= rank == counts@.len(),
            coords@.len() == rank,
            forall|j: int| 0 <= j < counts@.len() ==> #[trigger] counts@[j] >= 1,
            rem == k as int / suffix_product(counts@, d as int) as int,
            forall|j: int|
                d <= j < rank ==> #[trigger] coords@[j] == chunk_coords(counts@, k as int)[j],
        decreases d,
    {
        d = d - 1;
        let n: u64 = counts[d];
        proof {
            assert(counts@[d as int] >= 1);
            assert(suffix_product(counts@, d as int) == counts@[d as int] * suffix_product(
                counts@,
                d + 1,
            ));
            lemma_suffix_le(counts@, d + 1, counts@.len() as int);
            lemma_div_denominator(
                k as int,
                suffix_product(counts@, d + 1) as int,
                counts@[d as int] as int,
            );
            lemma_mul_is_commutative(
                counts@[d as int] as int,
                suffix_product(counts@, d + 1) as int,
            );
        }
        coords.set(d, rem % n);
        rem = rem / n;
    }
    assert(coords@ =~= chunk_coords(counts@, k as int));
    push_le64_all(buf, coords.as_slice());
}

/// The part of the layout message before the index.
pub open spec fn layout_head(rank: nat, cdims: Seq<u64>, elem_size: u32) -> Seq<u8> {
    seq![4u8, 2u8] + seq![0u8, ((rank + 1) % 256) as u8, 8u8] + le64_all(cdims) + le_bytes(
        elem_size as nat,
        8,
    )
}

fn write_layout_head(cdims: &[u64], elem_size: u32) -> (layout: Vec<u8>)
    ensures
        layout@ == layout_head(cdims@.len(), cdims@, elem_size),
{
    let mut layout: Vec<u8> = Vec::new();
    push2(&mut layout, 4, 2);
    assert(layout@ =~= seq![4u8, 2u8]);
    let rank1: u8 = ((cdims.len() as u128 + 1) % 256) as u8;
    push1(&mut layout, 0);
    push1(&mut layout, rank1);
    push1(&mut layout, 8);
    assert(layout@ =~= seq![4u8, 2u8] + seq![0u8, rank1, 8u8]);
    push_le64_all(&mut layout, cdims);
    push_le(&mut layout, elem_size as u64, 8);
    layout
}

fn write_records(base_address: u64, counts: &[u64], len: u128, total: u64) -> (records: Vec<u8>)
    requires
        forall|i: int| 0 <= i < counts@.len() ==> #[trigger] counts@[i] >= 1,
        base_address + total * len <= isize::MAX,
    ensures
        records@ == chunk_records(base_address, counts@, len as nat, total as int),
{
    let mut records: Vec<u8> = Vec::new();
    let mut k: u64 = 0;
    while k < total
        invariant
            k <= total,
            forall|i: int| 0 <= i < counts@.len() ==> #[trigger] counts@[i] >= 1,
            base_address + total * len <= isize::MAX,
            records@ == chunk_records(base_address, counts@, len as nat, k as int),
        decreases total - k,
    {
        assert(0 <= k * len <= total * len) by (nonlinear_arith)
            requires
                0 <= k <= total,
                len >= 0,
        ;
        let addr: u128 = base_address as u128 + k as u128 * len;
        let ghost before = records@;
        push_le(&mut records, addr as u64, 8);
        write_coords(&mut records, counts, k);
        assert(records@ =~= before + (le_bytes((base_address + k * len) as nat, 8) + le64_all(
            chunk_coords(counts@, k as int),
        )));
        k = k + 1;
    }
    records
}

proof fn lemma_least_node(w: nat)
    ensures
        node_size(0 * w) == 512,
{
    assert(0 * w == 0) by (nonlinear_arith);
    reveal_with_fuel(crate::tree::next_pow2, 6);
}

/// Chunks are at least a byte, so there are at most as many as bytes.
proof fn lemma_total_fits(dims: Seq<u64>, cdims: Seq<u64>, elem_size: u32)
    requires
        can_chunk(dims, cdims, elem_size),
        chunk_total(dims, cdims) >= 1,
    ensures
        chunk_total(dims, cdims) <= isize::MAX,
{
    lemma_dims_positive(dims, cdims);
    lemma_suffix_le(cdims, 0, cdims.len() as int);
    let v = chunk_volume(cdims) as int;
    let t = chunk_total(dims, cdims) as int;
    assert(v * elem_size >= 1) by (nonlinear_arith)
        requires
            v >= 1,
            elem_size >= 1,
    ;
    let len = chunk_len(cdims, elem_size) as int;
    assert(t <= t * len) by (nonlinear_arith)
        requires
            t >= 1,
            len >= 1,
    ;
}

impl PrecompressedChunks {
    /// Bytes of the chunks and their index, `None` beyond the limit of memory.
    pub fn stored_len(&self, resizable: bool) -> (r: Option<usize>)
        requires
            self.wf(),
        ensures
            r == bounded(
                chunked_len(self.spec_dims(), self.spec_cdims(), self.spec_elem_size(), resizable),
            ),
    {
        let ghost dims = self.dims@;
        proof {
            lemma_chunks_len(self.raw@, dims, self.cdims@, self.elem_size, self.total as int);
        }
        let chunks: Option<usize> = Some(self.data.len());
        if self.total == 0 || (self.total == 1 && !resizable) {
            return chunks;
        }
        let width: u128 = self.cdims.len() as u128 * 8 + 8;
        let ghost records = self.total as nat * record_len(dims.len());
        proof {
            lemma_leaf_holds_records(records);
        }
        let node: Option<usize> = match (self.total as u128).checked_mul(width) {
            Some(len) => leaf_len(len),
            None => None,
        };
        let ghost index_len = BTHD_SIZE as nat + node_size(records);
        let index: Option<usize> = add_lens(
            Some(BTHD_SIZE as usize),
            node,
            Ghost(BTHD_SIZE as nat),
            Ghost(node_size(records)),
        );
        add_lens(
            chunks,
            index,
            Ghost(chunks_len(dims, self.cdims@, self.elem_size)),
            Ghost(index_len),
        )
    }
}

/// Places chunks at `base_address`, with their index behind them.
pub fn build_chunked_data_from_precompressed(
    pre: &PrecompressedChunks,
    base_address: u64,
    resizable: bool,
) -> (r: ChunkedData)
    requires
        pre.wf(),
        base_address + chunked_len(
            pre.spec_dims(),
            pre.spec_cdims(),
            pre.spec_elem_size(),
            resizable,
        ) <= isize::MAX,
    ensures
        r.data_bytes@ == chunked_bytes(
            pre.spec_raw(),
            pre.spec_dims(),
            pre.spec_cdims(),
            pre.spec_elem_size(),
            base_address,
            resizable,
        ),
        r.layout_message@ == chunked_layout(
            pre.spec_dims(),
            pre.spec_cdims(),
            pre.spec_elem_size(),
            base_address,
            resizable,
        ),
{
    let ghost dims = pre.dims@;
    let ghost cdims = pre.cdims@;
    let ghost len = chunk_len(cdims, pre.elem_size);
    let total: u64 = pre.total;
    let mut data: Vec<u8> = Vec::new();
    extend(&mut data, pre.data.as_slice());
    assert(data@ =~= pre.data@);
    proof {
        lemma_chunks_len(pre.raw@, dims, cdims, pre.elem_size, total as int);
    }
    let chunks: u64 = data.len() as u64;
    let mut layout: Vec<u8> = write_layout_head(pre.cdims.as_slice(), pre.elem_size);
    if total == 1 && !resizable {
        push1(&mut layout, 1);
        push_le(&mut layout, base_address, 8);
        assert(data@ + Seq::<u8>::empty() =~= data@);
        return ChunkedData { data_bytes: data, layout_message: layout };
    }
    push1(&mut layout, 5);
    if total == 0 {
        proof {
            lemma_least_node(record_len(dims.len()));
        }
        push_le(&mut layout, 512, 4);
        push2(&mut layout, 100, 40);
        push_le(&mut layout, 0xffff_ffff_ffff_ffff, 8);
        assert(data@ + Seq::<u8>::empty() =~= data@);
        return ChunkedData { data_bytes: data, layout_message: layout };
    }
    let (index, node) = build_index(pre, base_address, chunks, resizable);
    push_le(&mut layout, node, 4);
    push2(&mut layout, 100, 40);
    push_le(&mut layout, base_address + chunks, 8);
    extend(&mut data, index.as_slice());
    ChunkedData { data_bytes: data, layout_message: layout }
}

fn build_index(pre: &PrecompressedChunks, base_address: u64, chunks: u64, resizable: bool) -> (r: (
    Vec<u8>,
    u64,
))
    requires
        pre.wf(),
        pre.total >= 1,
        indexed(pre.total as nat, resizable),
        chunks == chunks_len(pre.dims@, pre.cdims@, pre.elem_size),
        base_address + chunked_len(pre.dims@, pre.cdims@, pre.elem_size, resizable) <= isize::MAX,
    ensures
        r.0@ == index_bytes(pre.dims@, pre.cdims@, pre.elem_size, base_address, resizable),
        r.1 == node_size(pre.total as nat * record_len(pre.dims@.len())),
{
    let ghost dims = pre.dims@;
    let ghost cdims = pre.cdims@;
    let total: u64 = pre.total;
    let rank: usize = pre.cdims.len();
    proof {
        lemma_counts_positive(pre.counts@);
        lemma_total_fits(dims, cdims, pre.elem_size);
    }
    let records: Vec<u8> = write_records(base_address, pre.counts.as_slice(), pre.len, total);
    proof {
        lemma_records_len(base_address, pre.counts@, pre.len as nat, total as int);
        lemma_btree_len(
            10,
            (base_address + chunks) as u64,
            (record_len(dims.len()) % 0x1_0000) as u16,
            records@,
            total as nat,
        );
    }
    let width: u16 = (((rank as u128) * 8 + 8) % 0x1_0000) as u16;
    let index: Vec<u8> = build_btree(
        10,
        base_address + chunks,
        width,
        records.as_slice(),
        total as usize,
    );
    let node: u64 = index.len() as u64 - BTHD_SIZE;
    (index, node)
}

} // verus!
