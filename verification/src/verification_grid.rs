//! Leaf granularity for datasets without chunks.
//!
//! A contiguous dataset is cut into leaves by a grid over its dataspace, chosen
//! so that every leaf is one contiguous run of bytes of a size near a target.
//! The stored data is not touched.

use core::ops::Range;
use vstd::arithmetic::div_mod::{
    lemma_div_denominator, lemma_fundamental_div_mod, lemma_fundamental_div_mod_converse,
    lemma_mod_bound, lemma_small_mod,
};
use vstd::arithmetic::mul::{
    lemma_mul_inequality, lemma_mul_is_associative, lemma_mul_is_commutative, lemma_mul_nonnegative,
    lemma_mul_strictly_positive,
};
use vstd::prelude::*;

verus! {

/// Target leaf size where none is chosen: 1 MiB.
pub const DEFAULT_TARGET_BYTES: u64 = 1_048_576;

/// What a chunk shape describes.
#[derive(Clone, Copy, PartialEq, Eq, Debug, Structural)]
pub enum LayoutClass {
    /// A chunk grid of a chunked dataset.
    Chunked,
    /// A verification grid over a contiguous byte stream.
    Contiguous,
}

impl LayoutClass {
    pub open spec fn spec_id(self) -> u8 {
        match self {
            LayoutClass::Chunked => 0u8,
            LayoutClass::Contiguous => 1u8,
        }
    }

    /// The identifier that is hashed.
    pub fn id(self) -> (r: u8)
        ensures
            r == self.spec_id(),
    {
        match self {
            LayoutClass::Chunked => 0,
            LayoutClass::Contiguous => 1,
        }
    }
}

/// The product of `s[i..]`.
pub open spec fn suffix_product(s: Seq<u64>, i: int) -> nat
    decreases s.len() - i,
{
    if i < 0 || i >= s.len() {
        1
    } else {
        s[i] as nat * suffix_product(s, i + 1)
    }
}

/// Quotient rounded up.
pub open spec fn ceil_div(a: int, b: int) -> int {
    (a + b - 1) / b
}

/// Bytes of a dataset.
pub open spec fn byte_size(dims: Seq<u64>, elem_size: u32) -> nat {
    elem_size as nat * suffix_product(dims, 0)
}

/// Whether twice the square fits in 128 bits.
pub open spec fn square_fits(x: int) -> bool {
    2 * x * x <= u128::MAX
}

/// Whether all that `verification_grid` compares fits in 128 bits: the square of the
/// whole size, twice that of the target, and twice that of the run that is cut. The
/// longer runs are not looked at, and twice the square of a shorter one is at most
/// that of the target. Where there is nothing to cut, nothing is compared.
pub open spec fn squares_fit(dims: Seq<u64>, elem_size: u32, target: u64) -> bool {
    ||| dims.len() == 0
    ||| elem_size == 0
    ||| target == 0
    ||| dims.contains(0)
    ||| {
        &&& byte_size(dims, elem_size) * byte_size(dims, elem_size) <= u128::MAX
        &&& square_fits(target as int)
        &&& stays_whole(dims, elem_size, target) || forall|k: int| #[trigger]
            is_pivot(dims, elem_size, target, k) ==> square_fits(
                run_bytes(dims, elem_size, k) as int,
            )
    }
}

/// Whether a target can be compared with the size of a dataset: there is nothing to
/// cut, or twice the target's square fits in 128 bits.
pub open spec fn target_fits(dims: Seq<u64>, elem_size: u32, target: u64) -> bool {
    ||| dims.len() == 0
    ||| elem_size == 0
    ||| dims.contains(0)
    ||| square_fits(target as int)
}

/// Bytes of a run that spans axes `k..` in full.
pub open spec fn run_bytes(dims: Seq<u64>, elem_size: u32, k: int) -> nat {
    elem_size as nat * suffix_product(dims, k)
}

/// Whether the dataset stays a single leaf: it is at most `sqrt(2)` times the
/// target (or has no size, or no target was given).
pub open spec fn stays_whole(dims: Seq<u64>, elem_size: u32, target: u64) -> bool {
    ||| dims.len() == 0
    ||| target == 0
    ||| elem_size == 0
    ||| byte_size(dims, elem_size) * byte_size(dims, elem_size) <= 2 * target * target
}

/// Whether axis `k` is the one to split: a run over axes `k..` exceeds the
/// target divided by `sqrt(2)`, and no run over fewer axes does.
pub open spec fn is_pivot(dims: Seq<u64>, elem_size: u32, target: u64, k: int) -> bool {
    &&& 0 <= k < dims.len()
    &&& exceeds_target(run_bytes(dims, elem_size, k) as int, target as int)
    &&& forall|j: int|
        k < j < dims.len() ==> !exceeds_target(
            #[trigger] run_bytes(dims, elem_size, j) as int,
            target as int,
        )
}

/// Whether `size` is more than `target / sqrt(2)`.
pub open spec fn exceeds_target(size: int, target: int) -> bool {
    2 * size * size > target * target
}

/// The extent of a leaf along the pivot axis.
pub open spec fn pivot_extent(dims: Seq<u64>, elem_size: u32, target: u64, k: int) -> int {
    let parts = ceil_div(run_bytes(dims, elem_size, k) as int, target as int);
    ceil_div(dims[k] as int, parts)
}

/// Whether `grid` is one element along the axes before `k` and the full extent
/// along those after it.
pub open spec fn split_at_axis(grid: Seq<u64>, dims: Seq<u64>, k: int) -> bool {
    &&& grid.len() == dims.len()
    &&& 0 <= k < dims.len()
    &&& forall|i: int| 0 <= i < k ==> #[trigger] grid[i] == 1
    &&& forall|i: int| k < i < dims.len() ==> #[trigger] grid[i] == dims[i]
}

/// Whether `grid` is the verification grid that splits at axis `k`.
pub open spec fn is_grid_at(
    grid: Seq<u64>,
    dims: Seq<u64>,
    elem_size: u32,
    target: u64,
    k: int,
) -> bool {
    &&& is_pivot(dims, elem_size, target, k)
    &&& split_at_axis(grid, dims, k)
    &&& grid[k] == pivot_extent(dims, elem_size, target, k)
}

/// Whether `grid` is the verification grid.
pub open spec fn is_verification_grid(
    grid: Seq<u64>,
    dims: Seq<u64>,
    elem_size: u32,
    target: u64,
) -> bool {
    exists|k: int| is_grid_at(grid, dims, elem_size, target, k)
}

proof fn lemma_suffix_positive(s: Seq<u64>, i: int)
    requires
        0 <= i <= s.len(),
        forall|j: int| i <= j < s.len() ==> s[j] >= 1,
    ensures
        suffix_product(s, i) >= 1,
    decreases s.len() - i,
{
    if i < s.len() {
        lemma_suffix_positive(s, i + 1);
        lemma_mul_strictly_positive(s[i] as int, suffix_product(s, i + 1) as int);
    }
}

/// Leaving out leading axes of positive extent does not increase the product.
pub proof fn lemma_suffix_le(s: Seq<u64>, i: int, j: int)
    requires
        0 <= i <= j <= s.len(),
        forall|m: int| 0 <= m < s.len() ==> s[m] >= 1,
    ensures
        1 <= suffix_product(s, j) <= suffix_product(s, i),
    decreases j - i,
{
    lemma_suffix_positive(s, j);
    if i < j {
        lemma_suffix_le(s, i + 1, j);
        lemma_mul_inequality(1, s[i] as int, suffix_product(s, i + 1) as int);
    }
}

pub proof fn lemma_suffix_zero(s: Seq<u64>, i: int, z: int)
    requires
        0 <= i <= z < s.len(),
        s[z] == 0,
    ensures
        suffix_product(s, i) == 0,
    decreases z - i,
{
    let rest = suffix_product(s, i + 1) as int;
    if i < z {
        lemma_suffix_zero(s, i + 1, z);
        assert(s[i] * rest == 0) by (nonlinear_arith)
            requires
                rest == 0,
        ;
    } else {
        assert(s[i] * rest == 0) by (nonlinear_arith)
            requires
                s[i] == 0,
        ;
    }
}

fn ceil_div_u128(a: u128, b: u128) -> (r: u128)
    requires
        b > 0,
        a + b <= u128::MAX,
    ensures
        r == ceil_div(a as int, b as int),
{
    (a + b - 1) / b
}

/// `a / b`, rounded up.
pub fn ceil_div_u64(a: u64, b: u64) -> (r: u64)
    requires
        b > 0,
    ensures
        r == ceil_div(a as int, b as int),
        r <= a,
        a > 0 ==> r >= 1,
{
    proof {
        lemma_ceil_div(a as int, b as int);
    }
    if a % b == 0 {
        a / b
    } else {
        a / b + 1
    }
}

/// What rounding up means.
pub proof fn lemma_ceil_div(a: int, b: int)
    requires
        a >= 0,
        b > 0,
    ensures
        ceil_div(a, b) == if a % b == 0 {
            a / b
        } else {
            a / b + 1
        },
        0 <= ceil_div(a, b) <= a,
        a > 0 ==> ceil_div(a, b) >= 1,
        ceil_div(a, b) * b >= a,
        ceil_div(a, b) * b < a + b,
        a > 0 ==> (ceil_div(a, b) - 1) * b < a,
{
    lemma_fundamental_div_mod(a, b);
    lemma_mod_bound(a, b);
    let q = a / b;
    let r = a % b;
    assert(b * q == q * b) by (nonlinear_arith);
    assert(q >= 0) by (nonlinear_arith)
        requires
            a >= 0,
            b > 0,
            a == b * q + r,
            0 <= r < b,
    ;
    assert((q + 1) * b == q * b + b) by (nonlinear_arith);
    assert((q - 1) * b == q * b - b) by (nonlinear_arith);
    if r == 0 {
        lemma_fundamental_div_mod_converse(a + b - 1, b, q, b - 1);
    } else {
        lemma_fundamental_div_mod_converse(a + b - 1, b, q + 1, r - 1);
    }
    assert(q <= q * b) by (nonlinear_arith)
        requires
            q >= 0,
            b >= 1,
    ;
    if a > 0 && r == 0 {
        assert(q >= 1) by (nonlinear_arith)
            requires
                a > 0,
                b > 0,
                a == q * b,
        ;
    }
    if r != 0 {
        assert(q + 1 <= a) by (nonlinear_arith)
            requires
                q >= 0,
                b >= 1,
                a == q * b + r,
                r >= 1,
        ;
    }
}

/// For a dataset that a file can hold the target alone decides.
pub proof fn lemma_squares_fit(dims: Seq<u64>, elem_size: u32, target: u64)
    requires
        byte_size(dims, elem_size) <= i64::MAX,
        target_fits(dims, elem_size, target),
    ensures
        squares_fit(dims, elem_size, target),
{
    let size = byte_size(dims, elem_size) as int;
    let top = 0x8000_0000_0000_0000int;
    assert(2 * top * top == 0x8000_0000_0000_0000_0000_0000_0000_0000int) by (nonlinear_arith)
        requires
            top == 0x8000_0000_0000_0000int,
    ;
    if dims.len() > 0 && elem_size > 0 && target > 0 && !dims.contains(0) {
        assert(size * size <= 2 * top * top) by (nonlinear_arith)
            requires
                0 <= size <= top,
        ;
        assert forall|k: int| #[trigger] is_pivot(dims, elem_size, target, k) implies square_fits(
            run_bytes(dims, elem_size, k) as int,
        ) by {
            assert forall|j: int| 0 <= j < dims.len() implies #[trigger] dims[j] >= 1 by {
                assert(dims.contains(dims[j]));
            }
            lemma_suffix_le(dims, 0, k);
            let a = suffix_product(dims, k) as int;
            let b = suffix_product(dims, 0) as int;
            let e = elem_size as int;
            let run = run_bytes(dims, elem_size, k) as int;
            assert(e * a <= e * b) by (nonlinear_arith)
                requires
                    0 <= a <= b,
                    e >= 0,
            ;
            assert(2 * run * run <= 2 * top * top) by (nonlinear_arith)
                requires
                    0 <= run <= top,
            ;
        }
    }
}

/// Derives the leaf grid of a contiguous dataset.
///
/// Axes are taken in full from the last one on, as long as the run they span
/// stays within `target_bytes / sqrt(2)`. The first axis at which it does not is
/// cut into pieces of about the target size; the axes before it have extent one.
/// `None` means that the dataset is too small to be cut.
pub fn verification_grid(dims: &[u64], elem_size: u32, target_bytes: u64) -> (r: Option<Vec<u64>>)
    requires
        squares_fit(dims@, elem_size, target_bytes),
    ensures
        match r {
            None => stays_whole(dims@, elem_size, target_bytes),
            Some(g) => {
                &&& !stays_whole(dims@, elem_size, target_bytes)
                &&& is_verification_grid(g@, dims@, elem_size, target_bytes)
            },
        },
{
    let r: usize = dims.len();
    if r == 0 || target_bytes == 0 || elem_size == 0 {
        return None;
    }
    let target: u128 = target_bytes as u128;
    let elem: u128 = elem_size as u128;
    let ghost size = byte_size(dims@, elem_size) as int;
    assert(0 <= 2 * target * target) by (nonlinear_arith)
        requires
            target >= 0,
    ;
    // An empty dataset has no bytes to split.
    let mut z: usize = 0;
    while z < r
        invariant
            z <= r == dims@.len(),
            forall|j: int| 0 <= j < z ==> dims@[j] >= 1,
        decreases r - z,
    {
        if dims[z] == 0 {
            proof {
                lemma_suffix_zero(dims@, 0, z as int);
                assert(byte_size(dims@, elem_size) == 0) by (nonlinear_arith)
                    requires
                        suffix_product(dims@, 0) == 0,
                        byte_size(dims@, elem_size) == elem_size as nat * suffix_product(dims@, 0),
                ;
                assert(0 <= 2 * target_bytes * target_bytes) by (nonlinear_arith);
            }
            return None;
        }
        z = z + 1;
    }
    assert(!dims@.contains(0));
    assert(size < 0x1_0000_0000_0000_0000) by (nonlinear_arith)
        requires
            size * size <= u128::MAX,
            size >= 0,
    ;
    let mut total: u128 = elem;
    let mut m: usize = r;
    assert(elem as int * 1 == elem);
    while m > 0
        invariant
            m <= r == dims@.len(),
            elem == elem_size,
            total == elem_size as nat * suffix_product(dims@, m as int),
            size == elem_size as nat * suffix_product(dims@, 0),
            size < 0x1_0000_0000_0000_0000,
            forall|j: int| 0 <= j < r ==> dims@[j] >= 1,
        decreases m,
    {
        m = m - 1;
        proof {
            lemma_suffix_le(dims@, 0, m as int);
            let s0 = suffix_product(dims@, 0) as int;
            let sm = suffix_product(dims@, m as int) as int;
            let s1 = suffix_product(dims@, m + 1) as int;
            lemma_mul_inequality(sm, s0, elem as int);
            lemma_mul_is_commutative(elem as int, sm);
            lemma_mul_is_commutative(elem as int, s0);
            assert(elem as int * s1 * dims@[m as int] == elem as int * (dims@[m as int] * s1))
                by (nonlinear_arith);
        }
        total = total * dims[m] as u128;
    }
    proof {
        lemma_mul_is_associative(2, size, size);
        lemma_mul_is_associative(2, target as int, target as int);
        assert(0 <= size * size) by (nonlinear_arith)
            requires
                size >= 0,
        ;
        assert(0 <= target * target) by (nonlinear_arith)
            requires
                target >= 0,
        ;
    }
    if total * total <= 2 * target * target {
        return None;
    }
    let mut grid: Vec<u64> = Vec::with_capacity(r);
    let mut c: usize = 0;
    while c < r
        invariant
            c <= r == dims@.len(),
            grid@ == dims@.take(c as int),
        decreases r - c,
    {
        grid.push(dims[c]);
        c = c + 1;
        assert(grid@ =~= dims@.take(c as int));
    }
    assert(grid@ =~= dims@);
    let mut running: u128 = elem;
    let mut i: usize = r;
    while i > 0
        invariant
            i <= r == dims@.len(),
            grid@ == dims@,
            elem == elem_size,
            elem >= 1,
            target == target_bytes,
            target >= 1,
            running == run_bytes(dims@, elem_size, i as int),
            size == run_bytes(dims@, elem_size, 0),
            size == byte_size(dims@, elem_size),
            square_fits(target as int),
            forall|k: int| #[trigger]
                is_pivot(dims@, elem_size, target_bytes, k) ==> square_fits(
                    run_bytes(dims@, elem_size, k) as int,
                ),
            size < 0x1_0000_0000_0000_0000,
            size * size > 2 * target * target,
            forall|j: int| 0 <= j < r ==> dims@[j] >= 1,
            forall|j: int|
                i <= j < r ==> !exceeds_target(
                    #[trigger] run_bytes(dims@, elem_size, j) as int,
                    target as int,
                ),
        decreases i,
    {
        i = i - 1;
        let extent: u128 = dims[i] as u128;
        let ghost full = run_bytes(dims@, elem_size, i as int) as int;
        proof {
            lemma_suffix_le(dims@, 0, i as int);
            let s0 = suffix_product(dims@, 0) as int;
            let si = suffix_product(dims@, i as int) as int;
            let s1 = suffix_product(dims@, i + 1) as int;
            lemma_mul_inequality(si, s0, elem as int);
            lemma_mul_is_commutative(elem as int, si);
            lemma_mul_is_commutative(elem as int, s0);
            assert(elem as int * s1 * extent == elem as int * (extent * s1)) by (nonlinear_arith);
            lemma_mul_is_associative(2, full, full);
            lemma_mul_is_associative(2, target as int, target as int);
            if exceeds_target(full, target as int) {
                assert(is_pivot(dims@, elem_size, target_bytes, i as int));
            }
            assert(0 <= full * full) by (nonlinear_arith)
                requires
                    full >= 0,
            ;
            assert(0 <= target * target) by (nonlinear_arith)
                requires
                    target >= 0,
            ;
        }
        let size_if_full: u128 = running * extent;
        if 2 * size_if_full * size_if_full > target * target {
            let num_parts: u128 = ceil_div_u128(size_if_full, target);
            proof {
                lemma_suffix_positive(dims@, i as int);
                lemma_mul_strictly_positive(elem as int, suffix_product(dims@, i as int) as int);
                lemma_ceil_div(size_if_full as int, target as int);
                lemma_ceil_div(extent as int, num_parts as int);
            }
            let tile_extent: u128 = ceil_div_u128(extent, num_parts);
            grid.set(i, tile_extent as u64);
            let mut k: usize = 0;
            while k < i
                invariant
                    k <= i < r == dims@.len(),
                    grid@.len() == r,
                    grid@[i as int] == tile_extent,
                    forall|j: int| 0 <= j < k ==> grid@[j] == 1,
                    forall|j: int| i < j < r ==> grid@[j] == dims@[j],
                decreases i - k,
            {
                grid.set(k, 1);
                k = k + 1;
            }
            assert(is_grid_at(grid@, dims@, elem_size, target_bytes, i as int));
            return Some(grid);
        }
        running = size_if_full;
    }
    proof {
        // The whole dataset exceeds the lower threshold, so axis 0 was split.
        assert(!exceeds_target(run_bytes(dims@, elem_size, 0) as int, target as int));
        lemma_mul_is_associative(2, size, size);
        lemma_mul_is_associative(2, target as int, target as int);
        assert(0 <= target * target) by (nonlinear_arith)
            requires
                target >= 0,
        ;
        assert(false);
    }
    None
}

// ---------------------------------------------------------------------------
// Leaf ranges
// ---------------------------------------------------------------------------

/// How many leaves lie along each axis.
pub open spec fn tile_counts(grid: Seq<u64>, dims: Seq<u64>) -> Seq<u64> {
    Seq::new(
        dims.len(),
        |i: int|
            ceil_div(
                dims[i] as int,
                if grid[i] >= 1 {
                    grid[i] as int
                } else {
                    1
                },
            ) as u64,
    )
}

/// The coordinate of leaf `idx` along axis `i`, leaves numbered with the last
/// axis fastest.
pub open spec fn tile_coord(n: Seq<u64>, idx: int, i: int) -> int {
    (idx / suffix_product(n, i + 1) as int) % (n[i] as int)
}

/// Where leaf `idx` starts along axis `i`, in elements.
pub open spec fn axis_start(grid: Seq<u64>, n: Seq<u64>, idx: int, i: int) -> int {
    tile_coord(n, idx, i) * grid[i]
}

/// The extent of leaf `idx` along axis `i`; the last leaf may be shorter.
pub open spec fn axis_extent(grid: Seq<u64>, dims: Seq<u64>, n: Seq<u64>, idx: int, i: int) -> int {
    let left = dims[i] - axis_start(grid, n, idx, i);
    if grid[i] <= left {
        grid[i] as int
    } else {
        left
    }
}

/// The element offset of leaf `idx`, counted over axes `i..`.
pub open spec fn start_elems(grid: Seq<u64>, dims: Seq<u64>, n: Seq<u64>, idx: int, i: int) -> int
    decreases dims.len() - i,
{
    if i < 0 || i >= dims.len() {
        0
    } else {
        axis_start(grid, n, idx, i) * suffix_product(dims, i + 1) + start_elems(
            grid,
            dims,
            n,
            idx,
            i + 1,
        )
    }
}

/// The number of elements of leaf `idx`, counted over axes `i..`.
pub open spec fn run_elems(grid: Seq<u64>, dims: Seq<u64>, n: Seq<u64>, idx: int, i: int) -> int
    decreases dims.len() - i,
{
    if i < 0 || i >= dims.len() {
        1
    } else {
        axis_extent(grid, dims, n, idx, i) * run_elems(grid, dims, n, idx, i + 1)
    }
}

/// The first byte of leaf `idx`.
pub open spec fn leaf_start(grid: Seq<u64>, dims: Seq<u64>, elem_size: u32, idx: int) -> int {
    start_elems(grid, dims, tile_counts(grid, dims), idx, 0) * elem_size
}

/// One past the last byte of leaf `idx`.
pub open spec fn leaf_end(grid: Seq<u64>, dims: Seq<u64>, elem_size: u32, idx: int) -> int {
    leaf_start(grid, dims, elem_size, idx) + run_elems(
        grid,
        dims,
        tile_counts(grid, dims),
        idx,
        0,
    ) * elem_size
}

/// The number of leaves.
pub open spec fn leaf_total(grid: Seq<u64>, dims: Seq<u64>) -> nat {
    suffix_product(tile_counts(grid, dims), 0)
}

pub(crate) proof fn lemma_tile_counts(grid: Seq<u64>, dims: Seq<u64>, i: int)
    requires
        grid.len() == dims.len(),
        0 <= i < dims.len(),
        dims[i] >= 1,
    ensures
        ({
            let g = if grid[i] >= 1 {
                grid[i] as int
            } else {
                1
            };
            let n = tile_counts(grid, dims)[i];
            &&& n == ceil_div(dims[i] as int, g)
            &&& 1 <= n <= dims[i]
            &&& (n - 1) * g < dims[i] <= n * g
        }),
{
    let g = if grid[i] >= 1 {
        grid[i] as int
    } else {
        1
    };
    lemma_ceil_div(dims[i] as int, g);
}

/// A leaf lies inside the dataspace along axis `i`.
proof fn lemma_axis(grid: Seq<u64>, dims: Seq<u64>, idx: int, i: int)
    requires
        grid.len() == dims.len(),
        0 <= i < dims.len(),
        dims[i] >= 1,
        idx >= 0,
    ensures
        ({
            let n = tile_counts(grid, dims);
            &&& 0 <= tile_coord(n, idx, i) < n[i]
            &&& 0 <= axis_start(grid, n, idx, i) < dims[i]
            &&& 0 <= axis_extent(grid, dims, n, idx, i) <= dims[i] - axis_start(grid, n, idx, i)
            &&& axis_extent(grid, dims, n, idx, i) <= grid[i]
            &&& grid[i] >= 1 ==> axis_extent(grid, dims, n, idx, i) >= 1
            &&& grid[i] == 0 ==> axis_start(grid, n, idx, i) == 0
        }),
{
    let n = tile_counts(grid, dims);
    lemma_tile_counts(grid, dims, i);
    let c = tile_coord(n, idx, i);
    lemma_mod_bound(idx / suffix_product(n, i + 1) as int, n[i] as int);
    if grid[i] >= 1 {
        lemma_mul_inequality(c, n[i] - 1, grid[i] as int);
        lemma_mul_nonnegative(c, grid[i] as int);
    } else {
        assert(c * grid[i] == 0) by (nonlinear_arith)
            requires
                grid[i] == 0,
        ;
    }
}

pub(crate) proof fn lemma_leaf_inside(grid: Seq<u64>, dims: Seq<u64>, idx: int, i: int)
    requires
        grid.len() == dims.len(),
        0 <= i <= dims.len(),
        forall|j: int| 0 <= j < dims.len() ==> dims[j] >= 1,
        idx >= 0,
    ensures
        ({
            let n = tile_counts(grid, dims);
            let s = start_elems(grid, dims, n, idx, i);
            let e = run_elems(grid, dims, n, idx, i);
            &&& 0 <= s
            &&& 0 <= e
            &&& s + e <= suffix_product(dims, i)
        }),
    decreases dims.len() - i,
{
    if i < dims.len() {
        let n = tile_counts(grid, dims);
        lemma_leaf_inside(grid, dims, idx, i + 1);
        lemma_axis(grid, dims, idx, i);
        let a = axis_start(grid, n, idx, i);
        let e = axis_extent(grid, dims, n, idx, i);
        let m = suffix_product(dims, i + 1) as int;
        let s1 = start_elems(grid, dims, n, idx, i + 1);
        let r1 = run_elems(grid, dims, n, idx, i + 1);
        assert(a * m >= 0 && e * r1 >= 0) by (nonlinear_arith)
            requires
                a >= 0,
                m >= 0,
                e >= 0,
                r1 >= 0,
        ;
        if e >= 1 {
            assert(a * m + s1 + e * r1 <= dims[i] * m) by (nonlinear_arith)
                requires
                    e >= 1,
                    s1 >= 0,
                    r1 >= 0,
                    s1 + r1 <= m,
                    a >= 0,
                    a + e <= dims[i],
            ;
        } else {
            assert(a * m + s1 + e * r1 <= dims[i] * m) by (nonlinear_arith)
                requires
                    e == 0,
                    a == 0,
                    s1 + r1 <= m,
                    r1 >= 0,
                    dims[i] >= 1,
                    m >= 0,
            ;
        }
    }
}

/// The byte range of leaf `idx`, relative to the start of the data.
///
/// Leaves are numbered row-major over the grid. The range is the leaf's whole
/// content where `grid` came from `verification_grid`.
pub fn leaf_byte_range(grid: &[u64], dims: &[u64], elem_size: u32, idx: u64) -> (r: Range<u64>)
    requires
        grid@.len() == dims@.len(),
        forall|i: int| 0 <= i < dims@.len() ==> dims@[i] >= 1,
        idx < leaf_total(grid@, dims@),
        byte_size(dims@, elem_size) <= u64::MAX,
    ensures
        r.start == leaf_start(grid@, dims@, elem_size, idx as int),
        r.end == leaf_end(grid@, dims@, elem_size, idx as int),
        r.start <= r.end <= byte_size(dims@, elem_size),
{
    let r: usize = dims.len();
    let ghost n = tile_counts(grid@, dims@);
    let mut rem: u64 = idx;
    let mut start_elem: u128 = 0;
    let mut run: u128 = 1;
    let mut multiplier: u128 = 1;
    let mut i: usize = r;
    if elem_size == 0 {
        proof {
            lemma_leaf_inside(grid@, dims@, idx as int, 0);
            let s = start_elems(grid@, dims@, n, idx as int, 0);
            let e = run_elems(grid@, dims@, n, idx as int, 0);
            assert(s * elem_size == 0 && e * elem_size == 0) by (nonlinear_arith)
                requires
                    elem_size == 0,
            ;
        }
        return 0..0;
    }
    proof {
        lemma_suffix_positive(dims@, 0);
        let p = suffix_product(dims@, 0) as int;
        assert(p <= elem_size * p) by (nonlinear_arith)
            requires
                elem_size >= 1,
                p >= 0,
        ;
    }
    assert(idx as int / 1 == idx);
    while i > 0
        invariant
            i <= r == dims@.len(),
            grid@.len() == dims@.len(),
            n == tile_counts(grid@, dims@),
            forall|j: int| 0 <= j < dims@.len() ==> dims@[j] >= 1,
            suffix_product(dims@, 0) <= u64::MAX,
            rem == idx as int / suffix_product(n, i as int) as int,
            multiplier == suffix_product(dims@, i as int),
            start_elem == start_elems(grid@, dims@, n, idx as int, i as int),
            run == run_elems(grid@, dims@, n, idx as int, i as int),
        decreases i,
    {
        i = i - 1;
        let g: u64 = if grid[i] >= 1 {
            grid[i]
        } else {
            1
        };
        let tiles: u64 = ceil_div_u64(dims[i], g);
        proof {
            lemma_tile_counts(grid@, dims@, i as int);
            lemma_axis(grid@, dims@, idx as int, i as int);
            lemma_leaf_inside(grid@, dims@, idx as int, i as int);
            lemma_leaf_inside(grid@, dims@, idx as int, i + 1);
            lemma_suffix_le(dims@, 0, i as int);
            lemma_suffix_le(dims@, i as int, i + 1);
            assert forall|j: int| 0 <= j < n.len() implies n[j] >= 1 by {
                lemma_tile_counts(grid@, dims@, j);
            }
            lemma_suffix_positive(n, i + 1);
            let sn = suffix_product(n, i + 1) as int;
            lemma_div_denominator(idx as int, sn, n[i as int] as int);
            lemma_mul_is_commutative(sn, n[i as int] as int);
            let a = axis_start(grid@, n, idx as int, i as int);
            let m = suffix_product(dims@, i + 1) as int;
            assert(a * m >= 0) by (nonlinear_arith)
                requires
                    a >= 0,
                    m >= 0,
            ;
            lemma_mul_is_commutative(multiplier as int, dims@[i as int] as int);
            lemma_mul_is_commutative(
                run as int,
                axis_extent(grid@, dims@, n, idx as int, i as int),
            );
        }
        let coord: u64 = rem % tiles;
        let from: u64 = coord * grid[i];
        let left: u64 = dims[i] - from;
        let extent: u64 = if grid[i] <= left {
            grid[i]
        } else {
            left
        };
        start_elem = from as u128 * multiplier + start_elem;
        run = run * extent as u128;
        multiplier = multiplier * dims[i] as u128;
        rem = rem / tiles;
    }
    let elem: u128 = elem_size as u128;
    proof {
        lemma_leaf_inside(grid@, dims@, idx as int, 0);
        let p = suffix_product(dims@, 0) as int;
        assert(start_elem * elem + run * elem <= elem * p) by (nonlinear_arith)
            requires
                start_elem + run <= p,
                elem >= 0,
        ;
        assert(start_elem * elem >= 0 && run * elem >= 0) by (nonlinear_arith)
            requires
                start_elem >= 0,
                run >= 0,
                elem >= 0,
        ;
    }
    let start: u64 = (start_elem * elem) as u64;
    let len: u64 = (run * elem) as u64;
    start..start + len
}

// ---------------------------------------------------------------------------
// Laws
// ---------------------------------------------------------------------------

/// The pivot extent of a dataset that is cut lies between one and the axis.
proof fn lemma_pivot_extent(dims: Seq<u64>, elem_size: u32, target: u64, k: int)
    requires
        !stays_whole(dims, elem_size, target),
        is_pivot(dims, elem_size, target, k),
    ensures
        forall|j: int| 0 <= j < dims.len() ==> dims[j] >= 1,
        run_bytes(dims, elem_size, k) >= 1,
        ceil_div(run_bytes(dims, elem_size, k) as int, target as int) >= 1,
        1 <= pivot_extent(dims, elem_size, target, k) <= dims[k],
{
    if exists|j: int| 0 <= j < dims.len() && dims[j] == 0 {
        let j = choose|j: int| 0 <= j < dims.len() && dims[j] == 0;
        lemma_suffix_zero(dims, 0, j);
        assert(byte_size(dims, elem_size) == 0) by (nonlinear_arith)
            requires
                suffix_product(dims, 0) == 0,
                byte_size(dims, elem_size) == elem_size as nat * suffix_product(dims, 0),
        ;
        assert(0 <= 2 * target * target) by (nonlinear_arith);
        assert(false);
    }
    lemma_suffix_positive(dims, k);
    lemma_mul_strictly_positive(elem_size as int, suffix_product(dims, k) as int);
    let size = run_bytes(dims, elem_size, k) as int;
    lemma_ceil_div(size, target as int);
    lemma_ceil_div(dims[k] as int, ceil_div(size, target as int));
}

/// A verification grid tiles the dataspace: every leaf extent is at least one
/// and at most the axis; every leaf is one contiguous run, because the axes
/// after the split axis are taken in full and those before it one by one.
pub proof fn law_grid_tiles_contiguously(
    grid: Seq<u64>,
    dims: Seq<u64>,
    elem_size: u32,
    target: u64,
)
    requires
        !stays_whole(dims, elem_size, target),
        is_verification_grid(grid, dims, elem_size, target),
    ensures
        grid.len() == dims.len(),
        forall|i: int| 0 <= i < dims.len() ==> 1 <= #[trigger] grid[i] <= dims[i],
        exists|k: int| #[trigger] split_at_axis(grid, dims, k),
{
    let k = choose|k: int| is_grid_at(grid, dims, elem_size, target, k);
    lemma_pivot_extent(dims, elem_size, target, k);
    assert(split_at_axis(grid, dims, k));
    assert forall|i: int| 0 <= i < dims.len() implies 1 <= #[trigger] grid[i] <= dims[i] by {
        if i < k {
            assert(grid[i] == 1);
        } else if i > k {
            assert(grid[i] == dims[i]);
        }
    }
}

/// A full leaf of the grid that splits at axis `k` has `pivot_extent` times the
/// bytes of a run over the axes after `k`.
pub open spec fn leaf_bytes(dims: Seq<u64>, elem_size: u32, target: u64, k: int) -> int {
    pivot_extent(dims, elem_size, target, k) * run_bytes(dims, elem_size, k + 1)
}

proof fn lemma_band(size: int, run: int, extent: int, target: int, parts: int, tile: int)
    requires
        size == run * extent,
        run >= 1,
        extent >= 1,
        target >= 1,
        2 * size * size > target * target,
        2 * run * run <= target * target,
        parts == ceil_div(size, target),
        tile == ceil_div(extent, parts),
        parts >= 1,
    ensures
        target <= 2 * (tile * run),
        tile * run <= 2 * target,
{
    lemma_ceil_div(size, target);
    lemma_ceil_div(extent, parts);
    // tile * parts >= extent, so tile * run * parts >= size.
    let leaf = tile * run;
    assert(leaf * parts >= size) by (nonlinear_arith)
        requires
            leaf == tile * run,
            tile * parts >= extent,
            size == run * extent,
            run >= 1,
    ;
    // (tile - 1) * parts < extent, so (leaf - run) * parts < size <= target * parts.
    assert((leaf - run) * parts < size) by (nonlinear_arith)
        requires
            leaf == tile * run,
            (tile - 1) * parts < extent,
            size == run * extent,
            run >= 1,
    ;
    assert(leaf - run < target) by (nonlinear_arith)
        requires
            (leaf - run) * parts < size,
            parts * target >= size,
            parts >= 1,
    ;
    assert(run <= target) by (nonlinear_arith)
        requires
            2 * run * run <= target * target,
            run >= 1,
            target >= 1,
    ;
    if size <= target {
        assert(parts == 1) by {
            assert(parts * target < size + target);
            assert(parts < 2) by (nonlinear_arith)
                requires
                    parts * target < size + target,
                    size <= target,
                    target >= 1,
            ;
        }
        assert(leaf * 1 == leaf);
        assert(2 * leaf >= target) by (nonlinear_arith)
            requires
                leaf >= size,
                size >= 0,
                target >= 1,
                2 * size * size > target * target,
        ;
    } else {
        // parts * target < size + target < 2 * size <= 2 * leaf * parts.
        assert(2 * leaf >= target) by (nonlinear_arith)
            requires
                parts * target < size + target,
                size > target,
                leaf * parts >= size,
                parts >= 1,
        ;
    }
}

/// A full leaf has at least half and at most twice the target's bytes, provided
/// one element is no more than the target divided by `sqrt(2)`.
pub proof fn law_leaf_size_band(dims: Seq<u64>, elem_size: u32, target: u64, k: int)
    requires
        !stays_whole(dims, elem_size, target),
        is_pivot(dims, elem_size, target, k),
        !exceeds_target(elem_size as int, target as int),
    ensures
        target <= 2 * leaf_bytes(dims, elem_size, target, k),
        leaf_bytes(dims, elem_size, target, k) <= 2 * target,
{
    lemma_pivot_extent(dims, elem_size, target, k);
    let run = run_bytes(dims, elem_size, k + 1) as int;
    let size = run_bytes(dims, elem_size, k) as int;
    let s1 = suffix_product(dims, k + 1) as int;
    lemma_suffix_positive(dims, k + 1);
    lemma_mul_strictly_positive(elem_size as int, s1);
    assert(size == run * dims[k]) by (nonlinear_arith)
        requires
            size == elem_size * (dims[k] * s1),
            run == elem_size * s1,
    ;
    if k + 1 < dims.len() {
        assert(!exceeds_target(run_bytes(dims, elem_size, k + 1) as int, target as int));
    } else {
        assert(s1 == 1);
        assert(run == elem_size) by (nonlinear_arith)
            requires
                run == elem_size * s1,
                s1 == 1,
        ;
    }
    lemma_band(
        size,
        run,
        dims[k] as int,
        target as int,
        ceil_div(size, target as int),
        pivot_extent(dims, elem_size, target, k),
    );
}

/// The product of `s[i..k]`.
spec fn span_product(s: Seq<u64>, i: int, k: int) -> nat
    decreases k - i,
{
    if i >= k {
        1
    } else {
        s[i] as nat * span_product(s, i + 1, k)
    }
}

proof fn lemma_span_times_suffix(s: Seq<u64>, i: int, k: int)
    requires
        0 <= i <= k <= s.len(),
    ensures
        suffix_product(s, i) == span_product(s, i, k) * suffix_product(s, k),
    decreases k - i,
{
    if i < k {
        lemma_span_times_suffix(s, i + 1, k);
        lemma_mul_is_associative(
            s[i] as int,
            span_product(s, i + 1, k) as int,
            suffix_product(s, k) as int,
        );
    } else {
        assert(1 * suffix_product(s, k) == suffix_product(s, k));
    }
}

/// Past the split axis a leaf spans everything.
proof fn lemma_tail_full(grid: Seq<u64>, dims: Seq<u64>, k: int, idx: int, i: int)
    requires
        split_at_axis(grid, dims, k),
        forall|j: int| 0 <= j < dims.len() ==> dims[j] >= 1,
        idx >= 0,
        k < i <= dims.len(),
    ensures
        ({
            let n = tile_counts(grid, dims);
            &&& suffix_product(n, i) == 1
            &&& start_elems(grid, dims, n, idx, i) == 0
            &&& run_elems(grid, dims, n, idx, i) == suffix_product(dims, i)
        }),
    decreases dims.len() - i,
{
    if i < dims.len() {
        let n = tile_counts(grid, dims);
        lemma_tail_full(grid, dims, k, idx, i + 1);
        assert(grid[i] == dims[i]);
        lemma_tile_counts(grid, dims, i);
        assert(n[i] == 1) by (nonlinear_arith)
            requires
                (n[i] - 1) * dims[i] < dims[i],
                n[i] >= 1,
                dims[i] >= 1,
        ;
        assert(tile_coord(n, idx, i) == 0);
        assert(axis_start(grid, n, idx, i) == 0) by (nonlinear_arith)
            requires
                axis_start(grid, n, idx, i) == tile_coord(n, idx, i) * grid[i],
                tile_coord(n, idx, i) == 0,
        ;
        let m = suffix_product(dims, i + 1) as int;
        assert(axis_start(grid, n, idx, i) * m == 0) by (nonlinear_arith)
            requires
                axis_start(grid, n, idx, i) == 0,
        ;
    }
}

/// Where leaf `idx` starts and how long it is, for axes `i..` up to the split.
proof fn lemma_head(grid: Seq<u64>, dims: Seq<u64>, k: int, idx: int, i: int)
    requires
        split_at_axis(grid, dims, k),
        1 <= grid[k] <= dims[k],
        forall|j: int| 0 <= j < dims.len() ==> dims[j] >= 1,
        idx >= 0,
        0 <= i <= k,
    ensures
        ({
            let n = tile_counts(grid, dims);
            let c = n[k] as int;
            let p = suffix_product(dims, k + 1) as int;
            let local = (idx % (span_product(dims, i, k) * c)) / c;
            &&& c >= 1
            &&& suffix_product(n, i) == span_product(dims, i, k) * c
            &&& start_elems(grid, dims, n, idx, i) == local * (dims[k] * p) + ((idx % c) * grid[k])
                * p
            &&& run_elems(grid, dims, n, idx, i) == axis_extent(grid, dims, n, idx, k) * p
            &&& tile_coord(n, idx, k) == idx % c
        }),
    decreases k - i,
{
    let n = tile_counts(grid, dims);
    let c = n[k] as int;
    let p = suffix_product(dims, k + 1) as int;
    lemma_tile_counts(grid, dims, k);
    if i == k {
        lemma_tail_full(grid, dims, k, idx, k + 1);
        assert(suffix_product(n, k) == c * 1);
        assert(idx / 1 == idx);
        assert(span_product(dims, k, k) == 1);
        assert(1 * c == c);
        lemma_mod_bound(idx, c);
        vstd::arithmetic::div_mod::lemma_basic_div(idx % c, c);
        assert(0 * (dims[k] * p) == 0);
    } else {
        lemma_head(grid, dims, k, idx, i + 1);
        assert(grid[i] == 1);
        lemma_tile_counts(grid, dims, i);
        assert(n[i] == dims[i]);
        let q = span_product(dims, i + 1, k) as int;
        let d = dims[i] as int;
        let m = q * c;
        lemma_suffix_positive_span(dims, i + 1, k);
        lemma_mul_strictly_positive(q, c);
        assert(suffix_product(n, i) == d * m);
        assert(d * m == (d * q) * c) by (nonlinear_arith)
            requires
                m == q * c,
        ;
        // suffix_product(dims, i + 1) == q * dims[k] * p.
        lemma_span_times_suffix(dims, i + 1, k);
        let coord = tile_coord(n, idx, i);
        assert(coord == (idx / m) % d);
        assert(axis_start(grid, n, idx, i) == coord * 1);
        // idx % (d * m) == coord * m + idx % m.
        vstd::arithmetic::div_mod::lemma_breakdown(idx, m, d);
        lemma_mul_is_commutative(m, d);
        let low = (idx % m) / c;
        let dk = dims[k] * p;
        assert((idx % (m * d)) == m * coord + idx % m);
        // Dividing by c, of which m is a multiple.
        lemma_mod_bound(idx, m);
        lemma_fundamental_div_mod(idx % m, c);
        lemma_mod_bound(idx % m, c);
        let rest = (idx % m) % c;
        assert(m * coord + idx % m == c * (coord * q + low) + rest) by (nonlinear_arith)
            requires
                m == q * c,
                idx % m == c * low + rest,
        ;
        lemma_mul_is_commutative(c, coord * q + low);
        lemma_fundamental_div_mod_converse(idx % (d * m), c, coord * q + low, rest);
        assert((idx % (span_product(dims, i, k) * c)) / c == coord * q + low);
        assert(coord * (q * dk) + low * dk == (coord * q + low) * dk) by (nonlinear_arith);
        assert(axis_extent(grid, dims, n, idx, i) == 1) by {
            lemma_axis(grid, dims, idx, i);
        }
    }
}

proof fn lemma_suffix_positive_span(s: Seq<u64>, i: int, k: int)
    requires
        0 <= i <= k <= s.len(),
        forall|j: int| 0 <= j < s.len() ==> s[j] >= 1,
    ensures
        span_product(s, i, k) >= 1,
    decreases k - i,
{
    if i < k {
        lemma_suffix_positive_span(s, i + 1, k);
        lemma_mul_strictly_positive(s[i] as int, span_product(s, i + 1, k) as int);
    }
}

/// The leaves of a grid of this shape partition the byte stream, in order: the
/// first starts at 0, each next one starts where the one before ends, the last
/// ends with the data, and none is empty.
pub proof fn law_leaf_ranges_partition(
    grid: Seq<u64>,
    dims: Seq<u64>,
    elem_size: u32,
    k: int,
    idx: int,
)
    requires
        split_at_axis(grid, dims, k),
        1 <= grid[k] <= dims[k],
        forall|j: int| 0 <= j < dims.len() ==> dims[j] >= 1,
        elem_size >= 1,
        0 <= idx < leaf_total(grid, dims),
    ensures
        leaf_start(grid, dims, elem_size, 0) == 0,
        leaf_start(grid, dims, elem_size, idx) < leaf_end(grid, dims, elem_size, idx),
        idx + 1 < leaf_total(grid, dims) ==> leaf_end(grid, dims, elem_size, idx) == leaf_start(
            grid,
            dims,
            elem_size,
            idx + 1,
        ),
        idx + 1 == leaf_total(grid, dims) ==> leaf_end(grid, dims, elem_size, idx) == byte_size(
            dims,
            elem_size,
        ),
{
    let n = tile_counts(grid, dims);
    let c = n[k] as int;
    let p = suffix_product(dims, k + 1) as int;
    let q = span_product(dims, 0, k) as int;
    let dk = dims[k] * p;
    let g = grid[k] as int;
    let total = leaf_total(grid, dims) as int;
    lemma_tile_counts(grid, dims, k);
    lemma_head(grid, dims, k, 0, 0);
    lemma_head(grid, dims, k, idx, 0);
    lemma_head(grid, dims, k, idx + 1, 0);
    lemma_suffix_positive(dims, k + 1);
    lemma_suffix_positive_span(dims, 0, k);
    lemma_span_times_suffix(dims, 0, k);
    assert(total == q * c);
    lemma_small_mod(0, c as nat);
    lemma_small_mod(0, total as nat);
    vstd::arithmetic::div_mod::lemma_div_of0(c);
    assert(start_elems(grid, dims, n, 0, 0) == 0) by (nonlinear_arith)
        requires
            start_elems(grid, dims, n, 0, 0) == 0 * dk + ((0 * g) * p),
    ;
    assert(0 * elem_size == 0);
    lemma_small_mod(idx as nat, total as nat);
    let hi = idx / c;
    let lo = idx % c;
    lemma_fundamental_div_mod(idx, c);
    lemma_mod_bound(idx, c);
    lemma_axis(grid, dims, idx, k);
    let s = start_elems(grid, dims, n, idx, 0);
    let e = run_elems(grid, dims, n, idx, 0);
    let ext = axis_extent(grid, dims, n, idx, k);
    assert(s == hi * dk + (lo * g) * p);
    assert(e == ext * p);
    assert(e >= 1) by (nonlinear_arith)
        requires
            e == ext * p,
            ext >= 1,
            p >= 1,
    ;
    assert(e * elem_size >= 1) by (nonlinear_arith)
        requires
            e >= 1,
            elem_size >= 1,
    ;
    // One past the last element of this leaf.
    if lo + 1 < c {
        assert(ext == g) by (nonlinear_arith)
            requires
                (c - 1) * g < dims[k],
                lo + 1 <= c - 1,
                g >= 1,
                ext == if g <= dims[k] - lo * g {
                    g
                } else {
                    dims[k] - lo * g
                },
        ;
        assert(s + e == hi * dk + ((lo + 1) * g) * p) by (nonlinear_arith)
            requires
                s == hi * dk + (lo * g) * p,
                e == g * p,
        ;
        lemma_mul_is_commutative(c, hi);
        lemma_fundamental_div_mod_converse(idx + 1, c, hi, lo + 1);
        assert(hi < q) by (nonlinear_arith)
            requires
                idx == c * hi + lo,
                0 <= lo,
                idx < q * c,
                c >= 1,
        ;
        assert(idx + 1 < total) by (nonlinear_arith)
            requires
                idx == c * hi + lo,
                lo + 1 < c,
                hi + 1 <= q,
                total == q * c,
                c >= 1,
        ;
        lemma_small_mod((idx + 1) as nat, total as nat);
        assert(start_elems(grid, dims, n, idx + 1, 0) == s + e);
    } else {
        assert(lo == c - 1);
        assert(ext == dims[k] - lo * g) by (nonlinear_arith)
            requires
                dims[k] <= c * g,
                lo == c - 1,
                ext == if g <= dims[k] - lo * g {
                    g
                } else {
                    dims[k] - lo * g
                },
        ;
        assert(s + e == (hi + 1) * dk) by (nonlinear_arith)
            requires
                s == hi * dk + (lo * g) * p,
                e == (dims[k] - lo * g) * p,
                dk == dims[k] * p,
        ;
        assert(idx + 1 == (hi + 1) * c + 0) by (nonlinear_arith)
            requires
                idx == c * hi + lo,
                lo == c - 1,
        ;
        lemma_fundamental_div_mod_converse(idx + 1, c, hi + 1, 0);
        if idx + 1 < total {
            lemma_small_mod((idx + 1) as nat, total as nat);
            assert(start_elems(grid, dims, n, idx + 1, 0) == s + e) by (nonlinear_arith)
                requires
                    start_elems(grid, dims, n, idx + 1, 0) == (hi + 1) * dk + ((0 * g) * p),
                    s + e == (hi + 1) * dk,
            ;
        } else {
            assert(hi + 1 == q) by (nonlinear_arith)
                requires
                    (hi + 1) * c == q * c,
                    c >= 1,
            ;
            assert(s + e == suffix_product(dims, 0));
        }
    }
    assert(s * elem_size + e * elem_size == (s + e) * elem_size) by (nonlinear_arith);
    lemma_mul_is_commutative(elem_size as int, suffix_product(dims, 0) as int);
}

/// A dataset with elements and a target is split if and only if it has more bytes
/// than the target times the square root of two.
pub proof fn law_small_dataset_stays_whole(dims: Seq<u64>, elem_size: u32, target: u64)
    requires
        dims.len() > 0,
        elem_size > 0,
        target > 0,
    ensures
        stays_whole(dims, elem_size, target) <==> {
            let size = elem_size as nat * suffix_product(dims, 0);
            size * size <= 2 * target * target
        },
{
}

/// The axis that is split is the first, from the last one down, along which a full
/// run has more bytes than the target divided by the square root of two. It is cut
/// into as many parts as the target goes into that run, both rounded up; the axes
/// before it are cut into single elements, those behind it are not cut.
pub proof fn law_split_axis_is_chosen(
    grid: Seq<u64>,
    dims: Seq<u64>,
    elem_size: u32,
    target: u64,
    k: int,
) -> (parts: int)
    requires
        !stays_whole(dims, elem_size, target),
        is_grid_at(grid, dims, elem_size, target, k),
        forall|j: int| 0 <= j < dims.len() ==> #[trigger] dims[j] >= 1,
    ensures
        0 <= k < dims.len() == grid.len(),
        ({
            let size = elem_size as nat * suffix_product(dims, k);
            &&& 2 * size * size > target * target
            &&& parts >= 1
            &&& (parts - 1) * target < size <= parts * target
            &&& (grid[k] - 1) * parts < dims[k] <= grid[k] * parts
        }),
        forall|j: int|
            k < j < dims.len() ==> {
                let size = elem_size as nat * #[trigger] suffix_product(dims, j);
                2 * size * size <= target * target
            },
        forall|j: int| 0 <= j < k ==> #[trigger] grid[j] == 1,
        forall|j: int| k < j < dims.len() ==> #[trigger] grid[j] == dims[j],
{
    let size = run_bytes(dims, elem_size, k) as int;
    let t = target as int;
    let parts = ceil_div(size, t);
    assert(size >= 1) by {
        lemma_suffix_positive(dims, k);
        lemma_mul_strictly_positive(elem_size as int, suffix_product(dims, k) as int);
    }
    lemma_ceil_div(size, t);
    let m = ceil_div(dims[k] as int, parts);
    lemma_ceil_div(dims[k] as int, parts);
    assert(grid[k] == m);
    assert forall|j: int| k < j < dims.len() implies {
        let size = elem_size as nat * #[trigger] suffix_product(dims, j);
        2 * size * size <= target * target
    } by {
        assert(!exceeds_target(run_bytes(dims, elem_size, j) as int, t));
    }
    parts
}

} // verus!
