//! Chunk grids: their parameters, how chunks are numbered, and which chunks a
//! selection touches.

use crate::bytes::{
    le64_all, le_bytes, lemma_byte_span, lemma_le64_all_injective, lemma_le64_all_len, lemma_le_len,
    lemma_le_roundtrip, push_le, push_le64_all,
};
use crate::digest::{collision, digest_of, HashAlg, GRID_PREFIX};
use crate::error::{MerkleError, MAX_LEAVES};
use crate::selection::{axis_hits, block_hits, in_box, Selection};
use crate::tree::{compute_depth, depth_of, lemma_next_pow2, lemma_pow2_below_max, next_pow2};
use crate::verification_grid::{ceil_div, ceil_div_u64, suffix_product, LayoutClass};
use vstd::arithmetic::div_mod::{lemma_fundamental_div_mod, lemma_mod_bound};
use vstd::arithmetic::mul::{lemma_mul_inequality, lemma_mul_is_associative};
use vstd::arithmetic::power2::{lemma2_to64, lemma2_to64_rest, lemma_pow2_pos, lemma_pow2_unfold, pow2};
use vstd::prelude::*;

verus! {

// ---------------------------------------------------------------------------
// Parameters
// ---------------------------------------------------------------------------

/// The parameters of a chunk grid, and the hash that binds them.
#[derive(Debug, PartialEq, Eq)]
pub struct ChunkGridParams {
    /// What `chunk_shape` describes.
    pub layout_class: LayoutClass,
    /// Extent of the dataset along each axis, in elements.
    pub dims: Vec<u64>,
    /// Extent of a chunk along each axis, in elements.
    pub chunk_shape: Vec<u64>,
    /// Bytes per element.
    pub elem_size: u32,
    /// Binds the other fields. `chunk_grid_digest`, which binds extents alone, is
    /// another hash.
    pub grid_hash: [u8; 32],
}

/// What is hashed to bind a grid's parameters.
pub open spec fn grid_preimage(
    layout_class: LayoutClass,
    elem_size: u32,
    dims: Seq<u64>,
    chunk_shape: Seq<u64>,
) -> Seq<u8> {
    seq![GRID_PREFIX, layout_class.spec_id()] + le_bytes(elem_size as nat, 4) + le64_all(dims)
        + le64_all(chunk_shape)
}

/// The hash that binds a grid's parameters.
pub open spec fn grid_digest(
    alg: HashAlg,
    layout_class: LayoutClass,
    elem_size: u32,
    dims: Seq<u64>,
    chunk_shape: Seq<u64>,
) -> [u8; 32] {
    digest_of(alg, grid_preimage(layout_class, elem_size, dims, chunk_shape))
}

/// Hashes a grid's parameters.
pub fn compute_grid_hash(
    dims: &[u64],
    chunk_shape: &[u64],
    elem_size: u32,
    layout_class: LayoutClass,
    alg: HashAlg,
) -> (h: [u8; 32])
    ensures
        h == grid_digest(alg, layout_class, elem_size, dims@, chunk_shape@),
{
    let mut buf: Vec<u8> = Vec::new();
    buf.push(GRID_PREFIX);
    buf.push(layout_class.id());
    push_le(&mut buf, elem_size as u64, 4);
    push_le64_all(&mut buf, dims);
    push_le64_all(&mut buf, chunk_shape);
    assert(buf@ =~= grid_preimage(layout_class, elem_size, dims@, chunk_shape@));
    alg.hash_raw(buf.as_slice())
}

/// Chunks along each axis. A chunk extent of zero counts as no chunks.
pub open spec fn chunk_counts(dims: Seq<u64>, chunk_shape: Seq<u64>) -> Seq<u64> {
    Seq::new(
        if dims.len() <= chunk_shape.len() {
            dims.len()
        } else {
            chunk_shape.len()
        },
        |i: int|
            if chunk_shape[i] == 0 {
                0u64
            } else {
                ceil_div(dims[i] as int, chunk_shape[i] as int) as u64
            },
    )
}

/// The product of `n`, `None` once a partial product exceeds 64 bits.
pub open spec fn checked_total(n: Seq<u64>) -> Option<nat>
    decreases n.len(),
{
    if n.len() == 0 {
        Some(1)
    } else {
        match checked_total(n.drop_last()) {
            None => None,
            Some(t) => if t * n.last() <= u64::MAX {
                Some((t * n.last()) as nat)
            } else {
                None
            },
        }
    }
}

/// What is wrong with a grid, `None` if nothing is.
pub open spec fn grid_error(dims: Seq<u64>, chunk_shape: Seq<u64>) -> Option<MerkleError> {
    if dims.len() != chunk_shape.len() || chunk_shape.contains(0) {
        Some(MerkleError::CompanionTampered)
    } else {
        match checked_total(chunk_counts(dims, chunk_shape)) {
            None => Some(MerkleError::TreeTooDeep { depth: usize::MAX }),
            Some(total) => if next_pow2(total) > usize::MAX {
                Some(MerkleError::TreeTooDeep { depth: usize::MAX })
            } else if total > MAX_LEAVES {
                Some(MerkleError::TreeTooDeep { depth: depth_of(next_pow2(total)) as usize })
            } else {
                None
            },
        }
    }
}

/// Leaves of the tree over the grid's chunks, padding included.
pub open spec fn grid_padded(dims: Seq<u64>, chunk_shape: Seq<u64>) -> nat {
    next_pow2(suffix_product(chunk_counts(dims, chunk_shape), 0))
}

impl Clone for ChunkGridParams {
    fn clone(&self) -> (r: Self)
        ensures
            r.same_as(*self),
    {
        ChunkGridParams {
            layout_class: self.layout_class,
            dims: self.dims.clone(),
            chunk_shape: self.chunk_shape.clone(),
            elem_size: self.elem_size,
            grid_hash: self.grid_hash,
        }
    }
}

impl ChunkGridParams {
    /// Whether all fields are equal.
    pub open spec fn same_as(self, other: ChunkGridParams) -> bool {
        &&& self.layout_class == other.layout_class
        &&& self.dims@ == other.dims@
        &&& self.chunk_shape@ == other.chunk_shape@
        &&& self.elem_size == other.elem_size
        &&& self.grid_hash == other.grid_hash
    }

    /// The hash of the parameters.
    pub open spec fn digest(&self, alg: HashAlg) -> [u8; 32] {
        grid_digest(alg, self.layout_class, self.elem_size, self.dims@, self.chunk_shape@)
    }

    /// Parameters with their hash.
    pub fn new(
        dims: Vec<u64>,
        chunk_shape: Vec<u64>,
        elem_size: u32,
        layout_class: LayoutClass,
        alg: HashAlg,
    ) -> (g: Self)
        ensures
            g.layout_class == layout_class,
            g.dims@ == dims@,
            g.chunk_shape@ == chunk_shape@,
            g.elem_size == elem_size,
            g.grid_hash == g.digest(alg),
    {
        let grid_hash: [u8; 32] = compute_grid_hash(
            dims.as_slice(),
            chunk_shape.as_slice(),
            elem_size,
            layout_class,
            alg,
        );
        ChunkGridParams { layout_class, dims, chunk_shape, elem_size, grid_hash }
    }

    /// Chunks along each axis.
    pub fn n_chunks_per_dim(&self) -> (n: Vec<u64>)
        ensures
            n@ == chunk_counts(self.dims@, self.chunk_shape@),
    {
        let mut n: Vec<u64> = Vec::with_capacity(self.dims.len());
        let mut i: usize = 0;
        while i < self.dims.len() && i < self.chunk_shape.len()
            invariant
                i <= self.dims@.len(),
                i <= self.chunk_shape@.len(),
                n@.len() == i,
                forall|j: int|
                    0 <= j < i ==> n@[j] == chunk_counts(self.dims@, self.chunk_shape@)[j],
            decreases self.dims@.len() - i,
        {
            let c: u64 = self.chunk_shape[i];
            if c == 0 {
                n.push(0);
            } else {
                n.push(ceil_div_u64(self.dims[i], c));
            }
            i = i + 1;
        }
        assert(n@ =~= chunk_counts(self.dims@, self.chunk_shape@));
        n
    }

    /// Chunks in the whole grid.
    pub fn total_chunk_count(&self) -> (total: u64)
        requires
            checked_total(chunk_counts(self.dims@, self.chunk_shape@)) is Some,
        ensures
            total == suffix_product(chunk_counts(self.dims@, self.chunk_shape@), 0),
    {
        let n: Vec<u64> = self.n_chunks_per_dim();
        proof {
            lemma_checked_total(n@);
        }
        match checked_product(n.as_slice()) {
            Some(t) => t,
            None => {
                assert(false);
                0
            },
        }
    }
}

pub(crate) fn checked_product(n: &[u64]) -> (r: Option<u64>)
    ensures
        match (r, checked_total(n@)) {
            (Some(a), Some(b)) => a == b,
            (None, None) => true,
            _ => false,
        },
{
    let mut total: u64 = 1;
    let mut i: usize = 0;
    assert(n@.take(0) =~= Seq::empty());
    while i < n.len()
        invariant
            i <= n@.len(),
            checked_total(n@.take(i as int)) == Some(total as nat),
        decreases n@.len() - i,
    {
        proof {
            assert(n@.take(i + 1).drop_last() =~= n@.take(i as int));
            assert(n@.take(i + 1).last() == n@[i as int]);
        }
        match total.checked_mul(n[i]) {
            Some(t) => {
                total = t;
            },
            None => {
                proof {
                    lemma_overflow_stays(n@, i + 1);
                }
                return None;
            },
        }
        i = i + 1;
    }
    assert(n@.take(i as int) =~= n@);
    Some(total)
}

proof fn lemma_overflow_stays(n: Seq<u64>, i: int)
    requires
        0 <= i <= n.len(),
        checked_total(n.take(i)) is None,
    ensures
        checked_total(n) is None,
    decreases n.len() - i,
{
    if i < n.len() {
        assert(n.take(i + 1).drop_last() =~= n.take(i));
        lemma_overflow_stays(n, i + 1);
    } else {
        assert(n.take(i) =~= n);
    }
}

pub(crate) proof fn lemma_suffix_push(s: Seq<u64>, x: u64, i: int)
    requires
        0 <= i <= s.len(),
    ensures
        suffix_product(s.push(x), i) == suffix_product(s, i) * x,
    decreases s.len() - i,
{
    let t = s.push(x);
    if i < s.len() {
        lemma_suffix_push(s, x, i + 1);
        lemma_mul_is_associative(s[i] as int, suffix_product(s, i + 1) as int, x as int);
    } else {
        assert(suffix_product(t, i) == t[i] * suffix_product(t, i + 1));
        assert(suffix_product(t, i + 1) == 1);
        assert(suffix_product(s, i) == 1);
        assert(t[i] == x);
        assert(x * 1 == x && 1 * x == x);
    }
}

/// Where no partial product overflows, the product is the product.
pub proof fn lemma_checked_total(n: Seq<u64>)
    ensures
        checked_total(n) is Some ==> checked_total(n)->0 == suffix_product(n, 0),
        checked_total(n) is Some ==> checked_total(n)->0 <= u64::MAX,
    decreases n.len(),
{
    if n.len() > 0 {
        lemma_checked_total(n.drop_last());
        lemma_suffix_push(n.drop_last(), n.last(), 0);
        assert(n.drop_last().push(n.last()) =~= n);
    }
}

/// Rejects a grid whose axes do not match or that has a zero chunk extent.
pub(crate) fn validate_grid_shape(grid: &ChunkGridParams) -> (r: Result<(), MerkleError>)
    ensures
        r == if grid.dims@.len() != grid.chunk_shape@.len() || grid.chunk_shape@.contains(0) {
            Err::<(), MerkleError>(MerkleError::CompanionTampered)
        } else {
            Ok(())
        },
{
    if grid.dims.len() != grid.chunk_shape.len() {
        return Err(MerkleError::CompanionTampered);
    }
    let mut i: usize = 0;
    while i < grid.chunk_shape.len()
        invariant
            i <= grid.chunk_shape@.len(),
            grid.dims@.len() == grid.chunk_shape@.len(),
            forall|j: int| 0 <= j < i ==> grid.chunk_shape@[j] != 0,
        decreases grid.chunk_shape@.len() - i,
    {
        if grid.chunk_shape[i] == 0 {
            return Err(MerkleError::CompanionTampered);
        }
        i = i + 1;
    }
    Ok(())
}

/// The number of leaves, padding included, of the tree over the grid's chunks.
/// A malformed or oversized grid is an error, found without walking the grid.
pub(crate) fn checked_padded_leaf_count(grid: &ChunkGridParams) -> (r: Result<usize, MerkleError>)
    ensures
        match grid_error(grid.dims@, grid.chunk_shape@) {
            Some(e) => r == Err::<usize, MerkleError>(e),
            None => r is Ok && r->Ok_0 == grid_padded(grid.dims@, grid.chunk_shape@),
        },
{
    match validate_grid_shape(grid) {
        Ok(_) => {},
        Err(e) => {
            return Err(e);
        },
    }
    let n: Vec<u64> = grid.n_chunks_per_dim();
    proof {
        lemma_checked_total(n@);
    }
    let total: u64 = match checked_product(n.as_slice()) {
        Some(t) => t,
        None => {
            return Err(MerkleError::TreeTooDeep { depth: usize::MAX });
        },
    };
    proof {
        lemma_next_pow2(total as nat);
    }
    if total > usize::MAX as u64 {
        return Err(MerkleError::TreeTooDeep { depth: usize::MAX });
    }
    let padded: usize = match checked_next_power_of_two(total as usize) {
        Some(p) => p,
        None => {
            return Err(MerkleError::TreeTooDeep { depth: usize::MAX });
        },
    };
    proof {
        lemma_pow2_below_max(padded);
    }
    if total > MAX_LEAVES {
        let depth: usize = compute_depth(padded);
        return Err(MerkleError::TreeTooDeep { depth });
    }
    Ok(padded)
}

fn checked_next_power_of_two(n: usize) -> (r: Option<usize>)
    ensures
        match r {
            Some(p) => p == next_pow2(n as nat),
            None => next_pow2(n as nat) > usize::MAX,
        },
    decreases n,
{
    if n <= 1 {
        Some(1)
    } else {
        let half: usize = n / 2 + n % 2;
        assert(half == (n + 1) / 2);
        match checked_next_power_of_two(half) {
            Some(p) => p.checked_mul(2),
            None => None,
        }
    }
}

// ---------------------------------------------------------------------------
// Numbering
// ---------------------------------------------------------------------------

/// How chunk coordinates are turned into leaf positions.
#[derive(Debug, Clone, Copy, PartialEq, Eq, Hash, Structural)]
pub enum LeafOrder {
    /// The last axis varies fastest.
    RowMajor,
    /// Along a Z-order curve.
    Morton,
}

impl Default for LeafOrder {
    /// Row-major.
    fn default() -> (r: Self)
        ensures
            r == LeafOrder::RowMajor,
    {
        LeafOrder::RowMajor
    }
}

/// Bit `k` of `x`.
pub open spec fn bit_of(x: u64, k: nat) -> bool {
    (x as nat / pow2(k)) % 2 == 1
}

/// Bit `b` of the Z-order index: bit `b / n` of coordinate `b % n`. Only as many
/// bits of each coordinate are used as 64 bits have room for.
pub open spec fn morton_bit(coords: Seq<u64>, b: nat) -> bool {
    &&& coords.len() > 0
    &&& b < (64nat / coords.len()) * coords.len()
    &&& bit_of(coords[(b % coords.len()) as int], b / coords.len())
}

/// The number formed by the low `b` bits of the Z-order index.
pub open spec fn morton_low(coords: Seq<u64>, b: nat) -> nat
    decreases b,
{
    if b == 0 {
        0
    } else {
        morton_low(coords, (b - 1) as nat) + if morton_bit(coords, (b - 1) as nat) {
            pow2((b - 1) as nat)
        } else {
            0
        }
    }
}

/// The Z-order index of `coords`.
pub open spec fn morton_value(coords: Seq<u64>) -> nat {
    morton_low(coords, 64)
}

proof fn lemma_morton_low_bound(coords: Seq<u64>, b: nat)
    ensures
        morton_low(coords, b) < pow2(b),
    decreases b,
{
    lemma_pow2_pos(b);
    if b > 0 {
        lemma_morton_low_bound(coords, (b - 1) as nat);
        lemma_pow2_unfold(b);
    } else {
        lemma2_to64();
    }
}

pub(crate) proof fn lemma_morton_rest(coords: Seq<u64>, from: nat, b: nat)
    requires
        from <= b,
        coords.len() > 0 ==> from >= (64nat / coords.len()) * coords.len(),
    ensures
        morton_low(coords, b) == morton_low(coords, from),
    decreases b,
{
    if from < b {
        lemma_morton_rest(coords, from, (b - 1) as nat);
    }
}

/// Interleaves the bits of `coords`: bit `k` of coordinate `d` becomes bit
/// `k * coords.len() + d`.
pub fn morton_index(coords: &[u64]) -> (r: u64)
    ensures
        r == morton_value(coords@),
{
    let ndim: usize = coords.len();
    if ndim == 0 {
        proof {
            lemma_morton_rest(coords@, 0, 64);
        }
        return 0;
    }
    let bits: usize = 64 / ndim;
    let ghost used = (64int / ndim as int) * ndim;
    proof {
        lemma_fundamental_div_mod(64, ndim as int);
        lemma_mod_bound(64, ndim as int);
        assert(used == ndim * (64int / ndim as int)) by (nonlinear_arith)
            requires
                used == (64int / ndim as int) * ndim,
        ;
        lemma2_to64();
    }
    let mut result: u64 = 0;
    let mut weight: u64 = 1;
    let mut b: usize = 0;
    let mut bit: usize = 0;
    while bit < bits
        invariant
            ndim == coords@.len(),
            ndim > 0,
            bits == 64int / ndim as int,
            used == bits * ndim,
            used <= 64,
            bit <= bits,
            b == bit * ndim,
            result == morton_low(coords@, b as nat),
            b < used ==> weight == pow2(b as nat),
        decreases bits - bit,
    {
        let mut dim: usize = 0;
        proof {
            assert((bit + 1) * ndim == bit * ndim + ndim) by (nonlinear_arith);
            assert((bit + 1) * ndim <= bits * ndim) by (nonlinear_arith)
                requires
                    bit + 1 <= bits,
                    ndim >= 0,
            ;
        }
        while dim < ndim
            invariant
                ndim == coords@.len(),
                ndim > 0,
                bits == 64int / ndim as int,
                used == bits * ndim,
                used <= 64,
                bit < bits <= 64,
                dim <= ndim,
                b == bit * ndim + dim,
                bit * ndim + ndim <= used,
                result == morton_low(coords@, b as nat),
                b < used ==> weight == pow2(b as nat),
            decreases ndim - dim,
        {
            proof {
                let n = ndim as int;
                vstd::arithmetic::div_mod::lemma_fundamental_div_mod_converse(
                    b as int,
                    n,
                    bit as int,
                    dim as int,
                );
                lemma_morton_low_bound(coords@, b as nat);
                lemma_pow2_unfold((b + 1) as nat);
                lemma2_to64();
                lemma2_to64_rest();
                lemma_pow2_le((b + 1) as nat, 64);
                if b + 1 < 64 {
                    lemma_pow2_le((b + 1) as nat, 63);
                }
                vstd::bits::lemma_u64_shr_is_div(coords@[dim as int], bit as u64);
            }
            let x: u64 = coords[dim] >> (bit as u64);
            if x % 2 == 1 {
                result = result + weight;
            }
            if b + 1 < 64 {
                weight = weight * 2;
            }
            b = b + 1;
            dim = dim + 1;
        }
        bit = bit + 1;
    }
    proof {
        lemma_morton_rest(coords@, b as nat, 64);
    }
    result
}

proof fn lemma_pow2_le(a: nat, b: nat)
    requires
        a <= b,
    ensures
        pow2(a) <= pow2(b),
    decreases b,
{
    if a < b {
        lemma_pow2_le(a, (b - 1) as nat);
        lemma_pow2_unfold(b);
        lemma_pow2_pos((b - 1) as nat);
    }
}

/// Whether `coord` is the coordinate of a chunk.
pub open spec fn in_grid(coord: Seq<u64>, n: Seq<u64>) -> bool {
    coord.len() == n.len() && forall|d: int| 0 <= d < n.len() ==> #[trigger] coord[d] < n[d]
}

/// The row-major position of `coord`, counted over axes `d..`.
pub open spec fn row_major(coord: Seq<u64>, n: Seq<u64>, d: int) -> nat
    decreases coord.len() - d,
{
    if d < 0 || d >= coord.len() {
        0
    } else {
        coord[d] as nat * suffix_product(n, d + 1) + row_major(coord, n, d + 1)
    }
}

/// A chunk's row-major position is below the number of chunks.
pub proof fn lemma_row_major_bound(coord: Seq<u64>, n: Seq<u64>, d: int)
    requires
        in_grid(coord, n),
        0 <= d <= n.len(),
    ensures
        row_major(coord, n, d) < suffix_product(n, d),
    decreases n.len() - d,
{
    if d < n.len() {
        lemma_row_major_bound(coord, n, d + 1);
        let s = suffix_product(n, d + 1) as int;
        let r = row_major(coord, n, d + 1) as int;
        assert(coord[d] < n[d]);
        assert(coord[d] * s + r < n[d] * s) by (nonlinear_arith)
            requires
                coord[d] + 1 <= n[d],
                0 <= r < s,
        ;
    }
}

proof fn lemma_suffix_le_zero_ok(n: Seq<u64>, i: int, j: int)
    requires
        0 <= i <= j <= n.len(),
        forall|m: int| 0 <= m < n.len() ==> n[m] >= 1,
    ensures
        1 <= suffix_product(n, j) <= suffix_product(n, i),
{
    crate::verification_grid::lemma_suffix_le(n, i, j);
}

/// The row-major position of a chunk.
pub fn row_major_index(coord: &[u64], n_per_dim: &[u64]) -> (idx: u64)
    requires
        in_grid(coord@, n_per_dim@),
        suffix_product(n_per_dim@, 0) <= u64::MAX,
    ensures
        idx == row_major(coord@, n_per_dim@, 0),
{
    let mut idx: u64 = 0;
    let mut span: u64 = 1;
    let mut d: usize = coord.len();
    while d > 0
        invariant
            d <= coord@.len() == n_per_dim@.len(),
            in_grid(coord@, n_per_dim@),
            suffix_product(n_per_dim@, 0) <= u64::MAX,
            idx == row_major(coord@, n_per_dim@, d as int),
            span == suffix_product(n_per_dim@, d as int),
        decreases d,
    {
        d = d - 1;
        proof {
            assert forall|m: int| 0 <= m < n_per_dim@.len() implies n_per_dim@[m] >= 1 by {
                assert(coord@[m] < n_per_dim@[m]);
            }
            lemma_suffix_le_zero_ok(n_per_dim@, 0, d as int);
            lemma_row_major_bound(coord@, n_per_dim@, d as int);
            let c = coord@[d as int] as int;
            let s = span as int;
            assert(c * s >= 0) by (nonlinear_arith)
                requires
                    c >= 0,
                    s >= 0,
            ;
        }
        idx = coord[d] * span + idx;
        span = n_per_dim[d] * span;
    }
    idx
}

/// The position of a chunk under `order`.
pub open spec fn leaf_position(coord: Seq<u64>, n: Seq<u64>, order: LeafOrder) -> nat {
    match order {
        LeafOrder::RowMajor => row_major(coord, n, 0),
        LeafOrder::Morton => morton_value(coord),
    }
}

/// The position of a chunk under `order`, as an index.
pub open spec fn leaf_index(coord: Seq<u64>, n: Seq<u64>, order: LeafOrder) -> usize {
    leaf_position(coord, n, order) as usize
}

pub(crate) fn coord_to_leaf_index(coord: &[u64], n_per_dim: &[u64], order: LeafOrder) -> (idx: u64)
    requires
        in_grid(coord@, n_per_dim@),
        suffix_product(n_per_dim@, 0) <= u64::MAX,
    ensures
        idx == leaf_position(coord@, n_per_dim@, order),
{
    match order {
        LeafOrder::RowMajor => row_major_index(coord, n_per_dim),
        LeafOrder::Morton => morton_index(coord),
    }
}

// ---------------------------------------------------------------------------
// Chunks of a selection
// ---------------------------------------------------------------------------

/// The first element of a chunk along each axis.
pub open spec fn chunk_offset(coord: Seq<u64>, chunk_shape: Seq<u64>) -> Seq<u64> {
    Seq::new(coord.len(), |d: int| (coord[d] * chunk_shape[d]) as u64)
}

/// Whether a chunk has a selected element.
pub open spec fn chunk_hit(sel: Selection, coord: Seq<u64>, chunk_shape: Seq<u64>) -> bool {
    sel.hits(chunk_offset(coord, chunk_shape), chunk_shape)
}

/// The chunks in the box `lo..hi` whose coordinates start with `prefix` and that
/// have a selected element, in row-major order.
pub open spec fn sweep(
    sel: Selection,
    chunk_shape: Seq<u64>,
    lo: Seq<u64>,
    hi: Seq<u64>,
    prefix: Seq<u64>,
) -> Seq<Seq<u64>>
    decreases lo.len() - prefix.len(), 1int, 0int,
{
    if prefix.len() >= lo.len() {
        if chunk_hit(sel, prefix, chunk_shape) {
            seq![prefix]
        } else {
            Seq::empty()
        }
    } else {
        sweep_axis(sel, chunk_shape, lo, hi, prefix, lo[prefix.len() as int] as int)
    }
}

/// The part of `sweep` in which the next coordinate is at least `from`.
pub open spec fn sweep_axis(
    sel: Selection,
    chunk_shape: Seq<u64>,
    lo: Seq<u64>,
    hi: Seq<u64>,
    prefix: Seq<u64>,
    from: int,
) -> Seq<Seq<u64>>
    decreases lo.len() - prefix.len(), 0int, hi[prefix.len() as int] - from,
{
    if prefix.len() >= lo.len() || from >= hi[prefix.len() as int] {
        Seq::empty()
    } else {
        sweep(sel, chunk_shape, lo, hi, prefix.push(from as u64)) + sweep_axis(
            sel,
            chunk_shape,
            lo,
            hi,
            prefix,
            from + 1,
        )
    }
}

/// As many zeros as `n` has entries.
pub open spec fn origin(n: Seq<u64>) -> Seq<u64> {
    Seq::new(n.len(), |i: int| 0u64)
}

/// All chunks that have a selected element, in row-major order: a sweep of the
/// whole grid. A grid without axes has none.
pub open spec fn touched_chunks(sel: Selection, n: Seq<u64>, chunk_shape: Seq<u64>) -> Seq<
    Seq<u64>,
> {
    if n.len() == 0 {
        Seq::empty()
    } else {
        sweep(sel, chunk_shape, origin(n), n, Seq::empty())
    }
}

/// The views of coordinate vectors.
pub open spec fn coord_views(coords: Seq<Vec<u64>>) -> Seq<Seq<u64>> {
    Seq::new(coords.len(), |i: int| coords[i]@)
}

/// Whether `c` starts with `prefix`.
pub open spec fn starts_with(c: Seq<u64>, prefix: Seq<u64>) -> bool {
    prefix.len() <= c.len() && c.take(prefix.len() as int) == prefix
}

/// Whether the entries of `c` from position `from` on lie in the box.
pub open spec fn within(c: Seq<u64>, lo: Seq<u64>, hi: Seq<u64>, from: int) -> bool {
    forall|d: int| from <= d < lo.len() ==> lo[d] <= #[trigger] c[d] < hi[d]
}

proof fn lemma_starts_with_push(c: Seq<u64>, prefix: Seq<u64>)
    requires
        prefix.len() < c.len(),
        starts_with(c, prefix),
    ensures
        starts_with(c, prefix.push(c[prefix.len() as int])),
{
    assert(c.take(prefix.len() as int + 1) =~= prefix.push(c[prefix.len() as int]));
}

proof fn lemma_starts_with_pop(c: Seq<u64>, prefix: Seq<u64>, x: u64)
    requires
        starts_with(c, prefix.push(x)),
    ensures
        prefix.len() < c.len(),
        starts_with(c, prefix),
        c[prefix.len() as int] == x,
{
    let p = prefix.push(x);
    assert(c.take(p.len() as int)[prefix.len() as int] == p[prefix.len() as int]);
    assert(c.take(prefix.len() as int) =~= c.take(p.len() as int).take(prefix.len() as int));
    assert(p.take(prefix.len() as int) =~= prefix);
}

/// What a sweep contains.
proof fn lemma_sweep_contains(
    sel: Selection,
    shape: Seq<u64>,
    lo: Seq<u64>,
    hi: Seq<u64>,
    prefix: Seq<u64>,
    c: Seq<u64>,
)
    requires
        prefix.len() <= lo.len(),
        lo.len() == hi.len(),
    ensures
        sweep(sel, shape, lo, hi, prefix).contains(c) <==> {
            &&& c.len() == lo.len()
            &&& starts_with(c, prefix)
            &&& within(c, lo, hi, prefix.len() as int)
            &&& chunk_hit(sel, c, shape)
        },
    decreases lo.len() - prefix.len(), 1int, 0int,
{
    let s = sweep(sel, shape, lo, hi, prefix);
    if prefix.len() == lo.len() {
        if s.contains(c) {
            assert(s[0] == prefix);
            assert(c == prefix);
            assert(c.take(prefix.len() as int) =~= prefix);
        }
        if c.len() == lo.len() && starts_with(c, prefix) && chunk_hit(sel, c, shape) {
            assert(c.take(prefix.len() as int) =~= c);
            assert(s[0] == c);
        }
    } else {
        let k = prefix.len() as int;
        lemma_sweep_axis_contains(sel, shape, lo, hi, prefix, lo[k] as int, c);
        if c.len() == lo.len() && starts_with(c, prefix) && within(c, lo, hi, k) {
            assert(lo[k] <= c[k]);
        }
    }
}

proof fn lemma_sweep_axis_contains(
    sel: Selection,
    shape: Seq<u64>,
    lo: Seq<u64>,
    hi: Seq<u64>,
    prefix: Seq<u64>,
    from: int,
    c: Seq<u64>,
)
    requires
        prefix.len() < lo.len(),
        lo.len() == hi.len(),
        lo[prefix.len() as int] <= from,
    ensures
        sweep_axis(sel, shape, lo, hi, prefix, from).contains(c) <==> {
            &&& c.len() == lo.len()
            &&& starts_with(c, prefix)
            &&& within(c, lo, hi, prefix.len() as int)
            &&& chunk_hit(sel, c, shape)
            &&& c[prefix.len() as int] >= from
        },
    decreases lo.len() - prefix.len(), 0int, hi[prefix.len() as int] - from,
{
    let k = prefix.len() as int;
    if from < hi[k] {
        let a = sweep(sel, shape, lo, hi, prefix.push(from as u64));
        let b = sweep_axis(sel, shape, lo, hi, prefix, from + 1);
        lemma_sweep_contains(sel, shape, lo, hi, prefix.push(from as u64), c);
        lemma_sweep_axis_contains(sel, shape, lo, hi, prefix, from + 1, c);
        lemma_concat_contains(a, b, c);
        if starts_with(c, prefix.push(from as u64)) {
            lemma_starts_with_pop(c, prefix, from as u64);
        }
        if c.len() == lo.len() && starts_with(c, prefix) && c[k] == from {
            lemma_starts_with_push(c, prefix);
        }
        if a.contains(c) {
            assert(within(c, lo, hi, k));
        }
    } else {
        if c.len() == lo.len() && within(c, lo, hi, k) {
            assert(c[k] < hi[k]);
        }
    }
}

proof fn lemma_concat_contains(a: Seq<Seq<u64>>, b: Seq<Seq<u64>>, c: Seq<u64>)
    ensures
        (a + b).contains(c) <==> a.contains(c) || b.contains(c),
{
    let s = a + b;
    if a.contains(c) {
        let i = choose|i: int| 0 <= i < a.len() && a[i] == c;
        assert(s[i] == c);
    }
    if b.contains(c) {
        let i = choose|i: int| 0 <= i < b.len() && b[i] == c;
        assert(s[a.len() + i] == c);
    }
}

/// The touched chunks are the chunks of the grid that have a selected element.
pub proof fn lemma_touched(sel: Selection, n: Seq<u64>, shape: Seq<u64>, c: Seq<u64>)
    ensures
        touched_chunks(sel, n, shape).contains(c) <==> n.len() > 0 && in_grid(c, n) && chunk_hit(
            sel,
            c,
            shape,
        ),
{
    if n.len() > 0 {
        let lo = origin(n);
        lemma_sweep_contains(sel, shape, lo, n, Seq::empty(), c);
        assert(c.take(0) =~= Seq::empty());
        if in_grid(c, n) {
            assert(within(c, lo, n, 0));
        }
        if c.len() == n.len() && within(c, lo, n, 0) {
            assert(in_grid(c, n));
        }
    }
}

proof fn lemma_sweep_ordered(
    sel: Selection,
    shape: Seq<u64>,
    lo: Seq<u64>,
    hi: Seq<u64>,
    prefix: Seq<u64>,
    i: int,
    j: int,
) -> (d: int)
    requires
        prefix.len() <= lo.len(),
        lo.len() == hi.len(),
        0 <= i < j < sweep(sel, shape, lo, hi, prefix).len(),
    ensures
        ({
            let s = sweep(sel, shape, lo, hi, prefix);
            &&& 0 <= d < lo.len()
            &&& forall|k: int| 0 <= k < d ==> s[i][k] == s[j][k]
            &&& s[i][d] < s[j][d]
        }),
    decreases lo.len() - prefix.len(), 1int, 0int,
{
    lemma_sweep_axis_ordered(
        sel,
        shape,
        lo,
        hi,
        prefix,
        lo[prefix.len() as int] as int,
        i,
        j,
    )
}

proof fn lemma_sweep_axis_ordered(
    sel: Selection,
    shape: Seq<u64>,
    lo: Seq<u64>,
    hi: Seq<u64>,
    prefix: Seq<u64>,
    from: int,
    i: int,
    j: int,
) -> (d: int)
    requires
        prefix.len() < lo.len(),
        lo.len() == hi.len(),
        lo[prefix.len() as int] <= from,
        0 <= i < j < sweep_axis(sel, shape, lo, hi, prefix, from).len(),
    ensures
        ({
            let s = sweep_axis(sel, shape, lo, hi, prefix, from);
            &&& 0 <= d < lo.len()
            &&& forall|k: int| 0 <= k < d ==> s[i][k] == s[j][k]
            &&& s[i][d] < s[j][d]
        }),
    decreases lo.len() - prefix.len(), 0int, hi[prefix.len() as int] - from,
{
    let k = prefix.len() as int;
    let longer = prefix.push(from as u64);
    let a = sweep(sel, shape, lo, hi, longer);
    let b = sweep_axis(sel, shape, lo, hi, prefix, from + 1);
    if j < a.len() {
        lemma_sweep_ordered(sel, shape, lo, hi, longer, i, j)
    } else if i >= a.len() {
        lemma_sweep_axis_ordered(
            sel,
            shape,
            lo,
            hi,
            prefix,
            from + 1,
            i - a.len(),
            j - a.len(),
        )
    } else {
        let x = a[i];
        let y = b[j - a.len()];
        assert(a.contains(x));
        assert(b.contains(y));
        lemma_sweep_contains(sel, shape, lo, hi, longer, x);
        lemma_sweep_axis_contains(sel, shape, lo, hi, prefix, from + 1, y);
        lemma_starts_with_pop(x, prefix, from as u64);
        assert forall|e: int| 0 <= e < k implies x[e] == y[e] by {
            assert(x.take(k)[e] == prefix[e]);
            assert(y.take(k)[e] == prefix[e]);
        }
        assert(x[k] == from) by {
            assert(x.take(k + 1)[k] == longer[k]);
        }
        k
    }
}

/// The touched chunks come in row-major order, each once: of two, the first axis on
/// which they differ has the smaller coordinate first.
pub proof fn law_touched_chunks_are_in_order(
    sel: Selection,
    n: Seq<u64>,
    shape: Seq<u64>,
    i: int,
    j: int,
) -> (d: int)
    requires
        0 <= i < j < touched_chunks(sel, n, shape).len(),
    ensures
        ({
            let s = touched_chunks(sel, n, shape);
            &&& 0 <= d < n.len()
            &&& forall|k: int| 0 <= k < d ==> s[i][k] == s[j][k]
            &&& s[i][d] < s[j][d]
        }),
{
    lemma_sweep_ordered(sel, shape, origin(n), n, Seq::empty(), i, j)
}

/// Whether every chunk with a selected element lies in the box.
spec fn box_covers(
    sel: Selection,
    n: Seq<u64>,
    shape: Seq<u64>,
    lo: Seq<u64>,
    hi: Seq<u64>,
) -> bool {
    forall|c: Seq<u64>| in_grid(c, n) && #[trigger] chunk_hit(sel, c, shape) ==> within(c, lo, hi, 0)
}

proof fn lemma_sweep_empty(
    sel: Selection,
    shape: Seq<u64>,
    lo: Seq<u64>,
    hi: Seq<u64>,
    prefix: Seq<u64>,
)
    requires
        forall|c: Seq<u64>| !#[trigger] sweep(sel, shape, lo, hi, prefix).contains(c),
    ensures
        sweep(sel, shape, lo, hi, prefix) == Seq::<Seq<u64>>::empty(),
{
    let s = sweep(sel, shape, lo, hi, prefix);
    if s.len() > 0 {
        assert(s.contains(s[0]));
    }
    assert(s =~= Seq::empty());
}

/// Sweeping a box that covers all hits gives what sweeping the grid gives.
proof fn lemma_narrow(
    sel: Selection,
    n: Seq<u64>,
    shape: Seq<u64>,
    lo: Seq<u64>,
    hi: Seq<u64>,
    prefix: Seq<u64>,
)
    requires
        lo.len() == n.len(),
        hi.len() == n.len(),
        box_covers(sel, n, shape, lo, hi),
        forall|d: int| 0 <= d < n.len() ==> lo[d] <= #[trigger] hi[d] <= n[d],
        prefix.len() <= n.len(),
        forall|d: int| 0 <= d < prefix.len() ==> #[trigger] prefix[d] < n[d],
    ensures
        sweep(sel, shape, origin(n), n, prefix) == sweep(sel, shape, lo, hi, prefix),
    decreases n.len() - prefix.len(), 1int, 0int,
{
    if prefix.len() < n.len() {
        let k = prefix.len() as int;
        lemma_narrow_axis(sel, n, shape, lo, hi, prefix, 0);
    }
}

proof fn lemma_narrow_axis(
    sel: Selection,
    n: Seq<u64>,
    shape: Seq<u64>,
    lo: Seq<u64>,
    hi: Seq<u64>,
    prefix: Seq<u64>,
    from: int,
)
    requires
        lo.len() == n.len(),
        hi.len() == n.len(),
        box_covers(sel, n, shape, lo, hi),
        forall|d: int| 0 <= d < n.len() ==> lo[d] <= #[trigger] hi[d] <= n[d],
        prefix.len() < n.len(),
        forall|d: int| 0 <= d < prefix.len() ==> #[trigger] prefix[d] < n[d],
        0 <= from <= n[prefix.len() as int],
    ensures
        sweep_axis(sel, shape, origin(n), n, prefix, from) == sweep_axis(
            sel,
            shape,
            lo,
            hi,
            prefix,
            if from < lo[prefix.len() as int] {
                lo[prefix.len() as int] as int
            } else {
                from
            },
        ),
    decreases n.len() - prefix.len(), 0int, n[prefix.len() as int] - from,
{
    let k = prefix.len() as int;
    if from < n[k] {
        let next = prefix.push(from as u64);
        lemma_narrow_axis(sel, n, shape, lo, hi, prefix, from + 1);
        assert(hi[k] <= n[k]);
        if lo[k] <= from < hi[k] {
            lemma_narrow(sel, n, shape, lo, hi, next);
        } else {
            assert forall|c: Seq<u64>| !#[trigger] sweep(
                sel,
                shape,
                origin(n),
                n,
                next,
            ).contains(c) by {
                lemma_sweep_contains(sel, shape, origin(n), n, next, c);
                if sweep(sel, shape, origin(n), n, next).contains(c) {
                    lemma_starts_with_pop(c, prefix, from as u64);
                    assert forall|d: int| 0 <= d < n.len() implies #[trigger] c[d] < n[d] by {
                        if d < next.len() {
                            assert(c.take(next.len() as int)[d] == next[d]);
                            if d < k {
                                assert(next[d] == prefix[d]);
                            }
                        } else {
                            assert(origin(n)[d] <= c[d] < n[d]);
                        }
                    }
                    assert(in_grid(c, n));
                    assert(within(c, lo, hi, 0));
                    assert(lo[k] <= c[k] < hi[k]);
                }
            }
            lemma_sweep_empty(sel, shape, origin(n), n, next);
            let rest = sweep_axis(sel, shape, origin(n), n, prefix, from + 1);
            assert(Seq::<Seq<u64>>::empty() + rest =~= rest);
        }
    } else {
        assert(hi[k] <= n[k]);
    }
}

/// Sweeps the box, appending what is found to `out`.
fn sweep_into(
    sel: &Selection,
    chunk_shape: &[u64],
    lo: &[u64],
    hi: &[u64],
    prefix: &mut Vec<u64>,
    out: &mut Vec<Vec<u64>>,
)
    requires
        sel.wf(),
        sel.spec_rank() is Some ==> sel.spec_rank()->0 == lo@.len(),
        hi@.len() == lo@.len(),
        chunk_shape@.len() == lo@.len(),
        old(prefix)@.len() <= lo@.len(),
        forall|d: int| 0 <= d < old(prefix)@.len() ==> #[trigger] old(prefix)@[d] < hi@[d],
        forall|d: int|
            0 <= d < lo@.len() ==> (#[trigger] hi@[d] - 1) * chunk_shape@[d] <= u64::MAX,
    ensures
        final(prefix)@ == old(prefix)@,
        coord_views(final(out)@) == coord_views(old(out)@) + sweep(
            *sel,
            chunk_shape@,
            lo@,
            hi@,
            old(prefix)@,
        ),
    decreases lo@.len() - old(prefix)@.len(),
{
    let ndim: usize = lo.len();
    let k: usize = prefix.len();
    let ghost p = prefix@;
    let ghost before = coord_views(out@);
    if k == ndim {
        let mut offset: Vec<u64> = Vec::with_capacity(ndim);
        let mut d: usize = 0;
        while d < ndim
            invariant
                d <= ndim,
                ndim == lo@.len(),
                prefix@ == p,
                p.len() == ndim,
                hi@.len() == ndim,
                chunk_shape@.len() == ndim,
                forall|e: int| 0 <= e < ndim ==> #[trigger] p[e] < hi@[e],
                forall|e: int|
                    0 <= e < ndim ==> (#[trigger] hi@[e] - 1) * chunk_shape@[e] <= u64::MAX,
                offset@.len() == d,
                forall|e: int|
                    0 <= e < d ==> #[trigger] offset@[e] == chunk_offset(p, chunk_shape@)[e],
            decreases ndim - d,
        {
            proof {
                let h = hi@[d as int];
                assert(p[d as int] < h);
                lemma_mul_inequality(p[d as int] as int, h - 1, chunk_shape@[d as int] as int);
            }
            offset.push(prefix[d] * chunk_shape[d]);
            d = d + 1;
        }
        assert(offset@ =~= chunk_offset(p, chunk_shape@));
        if sel.intersects_chunk(offset.as_slice(), chunk_shape) {
            let copy: Vec<u64> = prefix.clone();
            assert(copy@ =~= p);
            out.push(copy);
            assert(coord_views(out@) =~= before + seq![p]);
        } else {
            assert(before + Seq::<Seq<u64>>::empty() =~= before);
        }
        return;
    }
    let last: u64 = hi[k];
    let mut c: u64 = lo[k];
    assert(before + sweep_axis(*sel, chunk_shape@, lo@, hi@, p, c as int) == before + sweep(
        *sel,
        chunk_shape@,
        lo@,
        hi@,
        p,
    ));
    while c < last
        invariant
            k == p.len(),
            p == old(prefix)@,
            p.len() < lo@.len() == ndim,
            prefix@ == p,
            last == hi@[k as int],
            lo@[k as int] <= c,
            sel.wf(),
            sel.spec_rank() is Some ==> sel.spec_rank()->0 == lo@.len(),
            hi@.len() == lo@.len(),
            chunk_shape@.len() == lo@.len(),
            forall|d: int| 0 <= d < p.len() ==> #[trigger] p[d] < hi@[d],
            forall|d: int|
                0 <= d < lo@.len() ==> (#[trigger] hi@[d] - 1) * chunk_shape@[d] <= u64::MAX,
            coord_views(out@) + sweep_axis(*sel, chunk_shape@, lo@, hi@, p, c as int) == before
                + sweep(*sel, chunk_shape@, lo@, hi@, p),
        decreases last - c,
    {
        let ghost mid = coord_views(out@);
        prefix.push(c);
        assert(prefix@ =~= p.push(c));
        sweep_into(sel, chunk_shape, lo, hi, prefix, out);
        let _ = prefix.pop();
        assert(prefix@ =~= p);
        proof {
            let a = sweep(*sel, chunk_shape@, lo@, hi@, p.push(c));
            let b = sweep_axis(*sel, chunk_shape@, lo@, hi@, p, c + 1);
            assert((mid + a) + b =~= mid + (a + b));
        }
        c = c + 1;
    }
    assert(coord_views(out@) + Seq::<Seq<u64>>::empty() =~= coord_views(out@));
}

/// The least value of coordinate `d` among the first `k` points.
pub open spec fn least(pts: Seq<Vec<u64>>, d: int, k: int) -> int
    decreases k,
{
    if k <= 1 {
        pts[0]@[d] as int
    } else {
        let m = least(pts, d, k - 1);
        if pts[k - 1]@[d] < m {
            pts[k - 1]@[d] as int
        } else {
            m
        }
    }
}

/// The greatest value of coordinate `d` among the first `k` points.
pub open spec fn greatest(pts: Seq<Vec<u64>>, d: int, k: int) -> int
    decreases k,
{
    if k <= 1 {
        pts[0]@[d] as int
    } else {
        let m = greatest(pts, d, k - 1);
        if pts[k - 1]@[d] > m {
            pts[k - 1]@[d] as int
        } else {
            m
        }
    }
}

/// The first element that the selection may have along axis `d`.
pub open spec fn box_lo(sel: Selection, d: int) -> int {
    match sel {
        Selection::Hyperslab { start, .. } => start@[d] as int,
        Selection::Points(pts) => least(pts@, d, pts@.len() as int),
        _ => 0,
    }
}

/// One past the last element that the selection may have along axis `d`, in a
/// dataspace of `extent` elements along it.
pub open spec fn box_hi(sel: Selection, d: int, extent: int) -> int {
    match sel {
        Selection::Hyperslab { start, stride, count, block } => start@[d] + (count@[d] - 1)
            * stride@[d] + block@[d],
        Selection::Points(pts) => greatest(pts@, d, pts@.len() as int) + 1,
        _ => extent,
    }
}

proof fn lemma_least_greatest(pts: Seq<Vec<u64>>, d: int, k: int, i: int)
    requires
        0 <= i < k <= pts.len(),
    ensures
        least(pts, d, k) <= pts[i]@[d] <= greatest(pts, d, k),
        0 <= least(pts, d, k),
        greatest(pts, d, k) <= u64::MAX,
    decreases k,
{
    if k > 1 {
        if i < k - 1 {
            lemma_least_greatest(pts, d, k - 1, i);
        } else {
            lemma_least_greatest(pts, d, k - 1, 0);
        }
    }
}

fn least_greatest(pts: &Vec<Vec<u64>>, d: usize) -> (r: (u64, u64))
    requires
        pts@.len() > 0,
        forall|i: int| 0 <= i < pts@.len() ==> d < (#[trigger] pts@[i])@.len(),
    ensures
        r.0 == least(pts@, d as int, pts@.len() as int),
        r.1 == greatest(pts@, d as int, pts@.len() as int),
{
    let mut lo: u64 = pts[0][d];
    let mut hi: u64 = pts[0][d];
    let mut i: usize = 1;
    while i < pts.len()
        invariant
            1 <= i <= pts@.len(),
            forall|j: int| 0 <= j < pts@.len() ==> d < (#[trigger] pts@[j])@.len(),
            lo == least(pts@, d as int, i as int),
            hi == greatest(pts@, d as int, i as int),
        decreases pts@.len() - i,
    {
        let x: u64 = pts[i][d];
        if x < lo {
            lo = x;
        }
        if x > hi {
            hi = x;
        }
        i = i + 1;
    }
    (lo, hi)
}

/// Whether the selection has nothing along axis `d` on its face: no blocks, or
/// no points at all.
pub open spec fn plainly_empty(sel: Selection, d: int) -> bool {
    match sel {
        Selection::All => false,
        Selection::Empty => true,
        Selection::Hyperslab { count, block, .. } => count@[d] == 0 || block@[d] == 0,
        Selection::Points(pts) => pts@.len() == 0,
    }
}

/// The first chunk, of extent `s`, that the selection may touch along axis `d`.
pub open spec fn first_chunk(sel: Selection, d: int, s: int) -> int {
    box_lo(sel, d) / s
}

/// One past the last chunk, of `n` chunks of extent `s`, that the selection may
/// touch along axis `d`.
pub open spec fn end_chunk(sel: Selection, d: int, n: int, s: int) -> int {
    let end = (box_hi(sel, d, n * s) - 1) / s + 1;
    if end <= n {
        end
    } else {
        n
    }
}

/// Whether no chunk can be touched because of axis `d`.
pub open spec fn axis_void(sel: Selection, d: int, n: int, s: int) -> bool {
    plainly_empty(sel, d) || first_chunk(sel, d, s) >= end_chunk(sel, d, n, s)
}

/// Whether `lo..hi` are the chunks that may be touched along axis `d`, and there
/// are any.
pub open spec fn is_axis_bounds(sel: Selection, d: int, n: u64, s: u64, lo: u64, hi: u64) -> bool {
    &&& !axis_void(sel, d, n as int, s as int)
    &&& lo == first_chunk(sel, d, s as int)
    &&& hi == end_chunk(sel, d, n as int, s as int)
}

/// The chunk bounds along one axis, the upper one exclusive.
fn axis_bounds(sel: &Selection, d: usize, n: u64, s: u64) -> (r: Option<(u64, u64)>)
    requires
        sel.wf(),
        sel.spec_rank() is Some ==> d < sel.spec_rank()->0,
        n >= 1,
        s >= 1,
    ensures
        match r {
            Some((lo, hi)) => is_axis_bounds(*sel, d as int, n, s, lo, hi),
            None => axis_void(*sel, d as int, n as int, s as int),
        },
{
    proof {
        assert(n as u128 * s as u128 <= u128::MAX) by (nonlinear_arith)
            requires
                n <= 0xffff_ffff_ffff_ffff,
                s <= 0xffff_ffff_ffff_ffff,
        ;
        assert(n as u128 * s as u128 >= 1) by (nonlinear_arith)
            requires
                n >= 1,
                s >= 1,
        ;
    }
    let extent: u128 = n as u128 * s as u128;
    let el_lo: u128;
    let el_hi: u128;
    match sel {
        Selection::All => {
            el_lo = 0;
            el_hi = extent;
        },
        Selection::Empty => {
            return None;
        },
        Selection::Hyperslab { start, stride, count, block } => {
            if count[d] == 0 || block[d] == 0 {
                return None;
            }
            proof {
                let c = count@[d as int] - 1;
                let t = stride@[d as int] as int;
                assert(0 <= c * t <= 0xffff_ffff_ffff_fffe * 0xffff_ffff_ffff_ffff)
                    by (nonlinear_arith)
                    requires
                        0 <= c <= 0xffff_ffff_ffff_fffe,
                        0 <= t <= 0xffff_ffff_ffff_ffff,
                ;
            }
            el_lo = start[d] as u128;
            el_hi = start[d] as u128 + (count[d] - 1) as u128 * stride[d] as u128 + block[d]
                as u128;
        },
        Selection::Points(pts) => {
            if pts.len() == 0 {
                return None;
            }
            let (a, b): (u64, u64) = least_greatest(pts, d);
            el_lo = a as u128;
            el_hi = b as u128 + 1;
        },
    }
    let lo: u128 = el_lo / s as u128;
    let end: u128 = (el_hi - 1) / s as u128 + 1;
    let hi: u128 = if end <= n as u128 {
        end
    } else {
        n as u128
    };
    if lo >= hi {
        return None;
    }
    Some((lo as u64, hi as u64))
}

proof fn lemma_box_nonneg(sel: Selection, d: int)
    requires
        sel.wf(),
        !plainly_empty(sel, d),
    ensures
        box_lo(sel, d) >= 0,
{
    match sel {
        Selection::Points(pts) => {
            lemma_least_greatest(pts@, d, pts@.len() as int, 0);
        },
        _ => {},
    }
}

/// A chunk with a selected element lies within the bounds along each axis.
proof fn lemma_hit_in_bounds(sel: Selection, n: Seq<u64>, shape: Seq<u64>, c: Seq<u64>, d: int)
    requires
        sel.wf(),
        sel.spec_rank() is Some ==> sel.spec_rank()->0 == n.len(),
        shape.len() == n.len(),
        in_grid(c, n),
        0 <= d < n.len(),
        shape[d] >= 1,
        (n[d] - 1) * shape[d] <= u64::MAX,
        chunk_hit(sel, c, shape),
    ensures
        !axis_void(sel, d, n[d] as int, shape[d] as int),
        first_chunk(sel, d, shape[d] as int) <= c[d] < end_chunk(
            sel,
            d,
            n[d] as int,
            shape[d] as int,
        ),
{
    let off = chunk_offset(c, shape);
    let s = shape[d] as int;
    let x = c[d] as int;
    assert(c[d] < n[d]);
    assert(0 <= x * s <= (n[d] - 1) * s) by (nonlinear_arith)
        requires
            0 <= x <= n[d] - 1,
            s >= 1,
    ;
    assert(off[d] == x * s);
    assert((x + 1) * s == x * s + s) by (nonlinear_arith);
    match sel {
        Selection::All => {
            assert(x * s < n[d] * s) by (nonlinear_arith)
                requires
                    x < n[d],
                    s >= 1,
            ;
        },
        Selection::Empty => {},
        Selection::Hyperslab { start, stride, count, block } => {
            assert(axis_hits(
                start@[d] as int,
                stride@[d] as int,
                count@[d] as int,
                block@[d] as int,
                off[d] as int,
                shape[d] as int,
            ));
            let i = choose|i: int| #[trigger] block_hits(
                start@[d] as int,
                stride@[d] as int,
                count@[d] as int,
                block@[d] as int,
                off[d] as int,
                shape[d] as int,
                i,
            );
            let t = stride@[d] as int;
            assert(0 <= i * t <= (count@[d] - 1) * t) by (nonlinear_arith)
                requires
                    0 <= i <= count@[d] - 1,
                    t >= 0,
            ;
        },
        Selection::Points(pts) => {
            let i = choose|i: int| 0 <= i < pts@.len() && in_box((#[trigger] pts@[i])@, off, shape);
            assert(off[d] <= pts@[i]@[d] < off[d] + shape[d]);
            lemma_least_greatest(pts@, d, pts@.len() as int, i);
        },
    }
    lemma_box_nonneg(sel, d);
    lemma_chunk_between(box_lo(sel, d), box_hi(sel, d, n[d] * s), s, x);
}

proof fn lemma_chunk_between(el_lo: int, el_hi: int, s: int, x: int)
    requires
        s >= 1,
        0 <= el_lo,
        el_lo < (x + 1) * s,
        x * s < el_hi,
        x >= 0,
    ensures
        el_lo / s <= x,
        x < (el_hi - 1) / s + 1,
{
    vstd::arithmetic::mul::lemma_mul_is_commutative(x + 1, s);
    vstd::arithmetic::div_mod::lemma_multiply_divide_lt(el_lo, s, x + 1);
    vstd::arithmetic::div_mod::lemma_div_is_ordered(x * s, el_hi - 1, s);
    vstd::arithmetic::div_mod::lemma_div_by_multiple(x, s);
}

/// Chunk bounds, upper ones exclusive, of the chunks that may have a selected
/// element; `None` if there are none. They come from the box that encloses the
/// selection.
fn selection_chunk_bounds(sel: &Selection, n_per_dim: &[u64], chunk_shape: &[u64]) -> (r: Option<
    (Vec<u64>, Vec<u64>),
>)
    requires
        sel.wf(),
        sel.spec_rank() is Some ==> sel.spec_rank()->0 == n_per_dim@.len(),
        chunk_shape@.len() == n_per_dim@.len(),
        forall|d: int| 0 <= d < n_per_dim@.len() ==> #[trigger] n_per_dim@[d] >= 1,
        forall|d: int| 0 <= d < n_per_dim@.len() ==> #[trigger] chunk_shape@[d] >= 1,
    ensures
        match r {
            None => exists|d: int|
                0 <= d < n_per_dim@.len() && #[trigger] axis_void(
                    *sel,
                    d,
                    n_per_dim@[d] as int,
                    chunk_shape@[d] as int,
                ),
            Some((lo, hi)) => {
                &&& lo@.len() == n_per_dim@.len()
                &&& hi@.len() == n_per_dim@.len()
                &&& forall|d: int|
                    0 <= d < n_per_dim@.len() ==> #[trigger] is_axis_bounds(
                        *sel,
                        d,
                        n_per_dim@[d],
                        chunk_shape@[d],
                        lo@[d],
                        hi@[d],
                    )
            },
        },
{
    let ndim: usize = n_per_dim.len();
    let mut lo: Vec<u64> = Vec::with_capacity(ndim);
    let mut hi: Vec<u64> = Vec::with_capacity(ndim);
    let mut d: usize = 0;
    while d < ndim
        invariant
            d <= ndim == n_per_dim@.len(),
            sel.wf(),
            sel.spec_rank() is Some ==> sel.spec_rank()->0 == n_per_dim@.len(),
            chunk_shape@.len() == n_per_dim@.len(),
            forall|e: int| 0 <= e < n_per_dim@.len() ==> #[trigger] n_per_dim@[e] >= 1,
            forall|e: int| 0 <= e < n_per_dim@.len() ==> #[trigger] chunk_shape@[e] >= 1,
            lo@.len() == d,
            hi@.len() == d,
            forall|e: int|
                0 <= e < d ==> #[trigger] is_axis_bounds(
                    *sel,
                    e,
                    n_per_dim@[e],
                    chunk_shape@[e],
                    lo@[e],
                    hi@[e],
                ),
        decreases ndim - d,
    {
        match axis_bounds(sel, d, n_per_dim[d], chunk_shape[d]) {
            Some((a, b)) => {
                lo.push(a);
                hi.push(b);
            },
            None => {
                return None;
            },
        }
        d = d + 1;
    }
    Some((lo, hi))
}

/// The chunks that have a selected element, in row-major order. Only the box
/// that encloses the selection is swept.
pub fn chunk_coords_for_selection(sel: &Selection, n_per_dim: &[u64], chunk_shape: &[u64]) -> (r:
    Vec<Vec<u64>>)
    requires
        sel.wf(),
        sel.spec_rank() is Some ==> sel.spec_rank()->0 == n_per_dim@.len(),
        chunk_shape@.len() == n_per_dim@.len(),
        forall|d: int| 0 <= d < n_per_dim@.len() ==> #[trigger] chunk_shape@[d] >= 1,
        forall|d: int|
            0 <= d < n_per_dim@.len() ==> (#[trigger] n_per_dim@[d] - 1) * chunk_shape@[d]
                <= u64::MAX,
    ensures
        coord_views(r@) == touched_chunks(*sel, n_per_dim@, chunk_shape@),
{
    let ndim: usize = n_per_dim.len();
    let ghost n = n_per_dim@;
    let mut out: Vec<Vec<u64>> = Vec::new();
    assert(coord_views(out@) =~= Seq::empty());
    if ndim == 0 {
        return out;
    }
    let mut d: usize = 0;
    while d < ndim
        invariant
            d <= ndim == n_per_dim@.len(),
            n == n_per_dim@,
            n.len() > 0,
            coord_views(out@) == Seq::<Seq<u64>>::empty(),
            forall|e: int| 0 <= e < d ==> #[trigger] n[e] >= 1,
        decreases ndim - d,
    {
        if n_per_dim[d] == 0 {
            proof {
                assert forall|c: Seq<u64>| !#[trigger] sweep(
                    *sel,
                    chunk_shape@,
                    origin(n),
                    n,
                    Seq::empty(),
                ).contains(c) by {
                    lemma_touched(*sel, n, chunk_shape@, c);
                    if in_grid(c, n) {
                        assert(c[d as int] < n[d as int]);
                    }
                }
                lemma_sweep_empty(*sel, chunk_shape@, origin(n), n, Seq::empty());
            }
            return out;
        }
        d = d + 1;
    }
    let (lo, hi): (Vec<u64>, Vec<u64>) = match selection_chunk_bounds(
        sel,
        n_per_dim,
        chunk_shape,
    ) {
        Some(bounds) => bounds,
        None => {
            proof {
                let v = choose|v: int|
                    0 <= v < n.len() && #[trigger] axis_void(
                        *sel,
                        v,
                        n[v] as int,
                        chunk_shape@[v] as int,
                    );
                assert forall|c: Seq<u64>| !#[trigger] sweep(
                    *sel,
                    chunk_shape@,
                    origin(n),
                    n,
                    Seq::empty(),
                ).contains(c) by {
                    lemma_touched(*sel, n, chunk_shape@, c);
                    if in_grid(c, n) && chunk_hit(*sel, c, chunk_shape@) {
                        assert(chunk_shape@[v] >= 1 && (n[v] - 1) * chunk_shape@[v] <= u64::MAX);
                        lemma_hit_in_bounds(*sel, n, chunk_shape@, c, v);
                    }
                }
                lemma_sweep_empty(*sel, chunk_shape@, origin(n), n, Seq::empty());
            }
            return out;
        },
    };
    proof {
        assert forall|e: int| 0 <= e < n.len() implies lo@[e] <= #[trigger] hi@[e] <= n[e] by {
            assert(is_axis_bounds(*sel, e, n[e], chunk_shape@[e], lo@[e], hi@[e]));
        }
        assert forall|c: Seq<u64>| in_grid(c, n) && #[trigger] chunk_hit(
            *sel,
            c,
            chunk_shape@,
        ) implies within(c, lo@, hi@, 0) by {
            assert forall|e: int| 0 <= e < n.len() implies lo@[e] <= #[trigger] c[e] < hi@[e] by {
                assert(chunk_shape@[e] >= 1 && (n[e] - 1) * chunk_shape@[e] <= u64::MAX);
                assert(is_axis_bounds(*sel, e, n[e], chunk_shape@[e], lo@[e], hi@[e]));
                lemma_hit_in_bounds(*sel, n, chunk_shape@, c, e);
            }
        }
        lemma_narrow(*sel, n, chunk_shape@, lo@, hi@, Seq::empty());
        assert forall|e: int| 0 <= e < lo@.len() implies (#[trigger] hi@[e] - 1) * chunk_shape@[e]
            <= u64::MAX by {
            assert((n[e] - 1) * chunk_shape@[e] <= u64::MAX);
            lemma_mul_inequality(hi@[e] - 1, n[e] - 1, chunk_shape@[e] as int);
        }
    }
    let mut prefix: Vec<u64> = Vec::with_capacity(ndim);
    sweep_into(sel, chunk_shape, lo.as_slice(), hi.as_slice(), &mut prefix, &mut out);
    assert(prefix@ =~= Seq::empty());
    assert(coord_views(out@) =~= touched_chunks(*sel, n, chunk_shape@));
    out
}

/// A grid hash belongs to one layout class, element size, extent and chunk
/// shape, unless the digest has a collision.
pub proof fn law_grid_hash_binds_parameters(alg: HashAlg, a: ChunkGridParams, b: ChunkGridParams)
    requires
        a.dims@.len() == a.chunk_shape@.len(),
        b.dims@.len() == b.chunk_shape@.len(),
        a.digest(alg) == b.digest(alg),
    ensures
        collision(alg) || {
            &&& a.layout_class == b.layout_class
            &&& a.elem_size == b.elem_size
            &&& a.dims@ == b.dims@
            &&& a.chunk_shape@ == b.chunk_shape@
        },
{
    let p = grid_preimage(a.layout_class, a.elem_size, a.dims@, a.chunk_shape@);
    let q = grid_preimage(b.layout_class, b.elem_size, b.dims@, b.chunk_shape@);
    if p == q {
        lemma_le_len(a.elem_size as nat, 4);
        lemma_le_len(b.elem_size as nat, 4);
        lemma_le64_all_len(a.dims@);
        lemma_le64_all_len(a.chunk_shape@);
        lemma_le64_all_len(b.dims@);
        lemma_le64_all_len(b.chunk_shape@);
        let n = 8 * a.dims@.len() as int;
        assert(p.len() == 6 + 2 * n);
        assert(a.dims@.len() == b.dims@.len());
        assert(p[1] == a.layout_class.spec_id() && q[1] == b.layout_class.spec_id());
        assert(p.subrange(2, 6) =~= le_bytes(a.elem_size as nat, 4));
        assert(q.subrange(2, 6) =~= le_bytes(b.elem_size as nat, 4));
        lemma_byte_span();
        lemma_le_roundtrip(a.elem_size as nat, 4);
        lemma_le_roundtrip(b.elem_size as nat, 4);
        assert(p.subrange(6, 6 + n) =~= le64_all(a.dims@));
        assert(q.subrange(6, 6 + n) =~= le64_all(b.dims@));
        assert(p.subrange(6 + n, 6 + 2 * n) =~= le64_all(a.chunk_shape@));
        assert(q.subrange(6 + n, 6 + 2 * n) =~= le64_all(b.chunk_shape@));
        lemma_le64_all_injective(a.dims@, b.dims@);
        lemma_le64_all_injective(a.chunk_shape@, b.chunk_shape@);
    } else {
        assert(digest_of(alg, p) == digest_of(alg, q));
    }
}

} // verus!
