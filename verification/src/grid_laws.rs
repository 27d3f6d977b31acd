//! What the numbering of chunks promises: how many chunks there are along an
//! axis, which positions they have, and how trees over them are padded.

use crate::chunk_grid::{
    checked_total, chunk_counts, grid_error, in_grid, leaf_position, lemma_checked_total,
    lemma_row_major_bound, morton_low, morton_value, row_major, LeafOrder,
};
use crate::tree::{depth_of, is_pow2, lemma_next_pow2, log2, next_pow2};
use crate::verification_grid::suffix_product;
use vstd::arithmetic::div_mod::{
    lemma_fundamental_div_mod, lemma_fundamental_div_mod_converse, lemma_hoist_over_denominator,
    lemma_mod_bound, lemma_mod_multiples_vanish,
};
use vstd::arithmetic::power2::{lemma2_to64, lemma_pow2_adds, lemma_pow2_pos, lemma_pow2_unfold, pow2};
use vstd::prelude::*;

verus! {

// ---------------------------------------------------------------------------
// Powers of two
// ---------------------------------------------------------------------------

/// A power of two is two to its logarithm.
proof fn lemma_log2(n: nat)
    requires
        is_pow2(n),
    ensures
        n == pow2(log2(n)),
    decreases n,
{
    lemma2_to64();
    if n > 1 {
        lemma_log2(n / 2);
        lemma_pow2_unfold(log2(n));
    }
}

/// The exponent of a power of two.
pub(crate) proof fn lemma_exponent(n: nat) -> (k: nat)
    requires
        is_pow2(n),
    ensures
        n == pow2(k),
{
    lemma_log2(n);
    log2(n)
}

/// No power of two that is at least `n` is below its padding.
proof fn lemma_padding_is_least(n: nat, k: nat)
    requires
        n <= pow2(k),
    ensures
        next_pow2(n) <= pow2(k),
    decreases k,
{
    lemma2_to64();
    lemma_pow2_pos(k);
    if n > 1 {
        if k > 0 {
            lemma_pow2_unfold(k);
            lemma_padding_is_least((n + 1) / 2, (k - 1) as nat);
        }
    }
}

/// The leaf level is padded to the least power of two that has room for the
/// leaves, and a tree has one level more than that power's exponent.
pub proof fn law_padding_is_least_power(n: nat, k: nat)
    ensures
        n <= next_pow2(n),
        next_pow2(n) == pow2((depth_of(next_pow2(n)) - 1) as nat),
        n <= pow2(k) ==> next_pow2(n) <= pow2(k),
{
    lemma_next_pow2(n);
    lemma_log2(next_pow2(n));
    if n <= pow2(k) {
        lemma_padding_is_least(n, k);
    }
}

// ---------------------------------------------------------------------------
// Chunks of a grid
// ---------------------------------------------------------------------------

/// Along each axis there are as many chunks as it takes to cover the extent, and
/// no more.
pub proof fn law_chunks_cover_extent(dims: Seq<u64>, chunk_shape: Seq<u64>, d: int)
    requires
        dims.len() == chunk_shape.len(),
        0 <= d < dims.len(),
        chunk_shape[d] > 0,
    ensures
        chunk_counts(dims, chunk_shape).len() == dims.len(),
        dims[d] <= chunk_counts(dims, chunk_shape)[d] * chunk_shape[d],
        chunk_counts(dims, chunk_shape)[d] * chunk_shape[d] < dims[d] + chunk_shape[d],
{
    let a = dims[d] as int;
    let b = chunk_shape[d] as int;
    let q = (a + b - 1) / b;
    lemma_fundamental_div_mod(a + b - 1, b);
    lemma_mod_bound(a + b - 1, b);
    assert(b * q == q * b) by (nonlinear_arith);
    assert(0 <= q <= a) by (nonlinear_arith)
        requires
            a >= 0,
            b >= 1,
            a <= q * b < a + b,
    ;
    assert(chunk_counts(dims, chunk_shape)[d] == q);
}

/// A grid is accepted if and only if it has a chunk extent above zero for each
/// axis, and neither its chunks nor the padded leaf level over them are too many.
pub proof fn law_grid_is_accepted(dims: Seq<u64>, chunk_shape: Seq<u64>)
    ensures
        grid_error(dims, chunk_shape) is None ==> {
            &&& dims.len() == chunk_shape.len()
            &&& forall|d: int| 0 <= d < chunk_shape.len() ==> #[trigger] chunk_shape[d] > 0
            &&& suffix_product(chunk_counts(dims, chunk_shape), 0) <= 0x100_0000_0000
        },
        dims.len() == chunk_shape.len() && (forall|d: int|
            0 <= d < chunk_shape.len() ==> #[trigger] chunk_shape[d] > 0) && (forall|d: int|
            0 <= d < dims.len() ==> #[trigger] dims[d] > 0) && suffix_product(
            chunk_counts(dims, chunk_shape),
            0,
        ) <= 0x100_0000_0000 && 0x100_0000_0000 <= usize::MAX ==> grid_error(dims, chunk_shape)
            is None,
{
    let n = chunk_counts(dims, chunk_shape);
    lemma_checked_total(n);
    if dims.len() == chunk_shape.len() {
        if forall|d: int| 0 <= d < chunk_shape.len() ==> #[trigger] chunk_shape[d] > 0 {
            assert(!chunk_shape.contains(0));
            if (forall|d: int| 0 <= d < dims.len() ==> #[trigger] dims[d] > 0) && suffix_product(
                n,
                0,
            ) <= 0x100_0000_0000 {
                assert forall|d: int| 0 <= d < n.len() implies #[trigger] n[d] >= 1 by {
                    assert(dims[d] > 0 && chunk_shape[d] > 0);
                    law_chunks_cover_extent(dims, chunk_shape, d);
                    assert(n[d] >= 1) by (nonlinear_arith)
                        requires
                            0 < dims[d] <= n[d] * chunk_shape[d],
                            chunk_shape[d] > 0,
                    ;
                }
                lemma_total_is_some(n);
                lemma_big_power();
                lemma_padding_is_least(suffix_product(n, 0), 40);
            }
        } else {
            let d = choose|d: int| 0 <= d < chunk_shape.len() && #[trigger] chunk_shape[d] == 0;
            assert(chunk_shape.contains(chunk_shape[d]));
        }
    }
}

proof fn lemma_big_power()
    ensures
        pow2(40) == 0x100_0000_0000,
{
    lemma2_to64();
    lemma_pow2_adds(20, 20);
}

/// The product of extents above zero is found where it fits.
proof fn lemma_total_is_some(n: Seq<u64>)
    requires
        forall|d: int| 0 <= d < n.len() ==> #[trigger] n[d] >= 1,
        suffix_product(n, 0) <= u64::MAX,
    ensures
        checked_total(n) is Some,
    decreases n.len(),
{
    if n.len() > 0 {
        let m = n.drop_last();
        assert(m.push(n.last()) =~= n);
        crate::chunk_grid::lemma_suffix_push(m, n.last(), 0);
        assert forall|d: int| 0 <= d < m.len() implies #[trigger] m[d] >= 1 by {
            assert(n[d] >= 1);
        }
        assert(n[n.len() - 1] >= 1);
        let p = suffix_product(m, 0) as int;
        let x = n.last() as int;
        assert(p <= p * x) by (nonlinear_arith)
            requires
                p >= 0,
                x >= 1,
        ;
        lemma_total_is_some(m);
        lemma_checked_total(m);
    }
}

// ---------------------------------------------------------------------------
// Row-major order
// ---------------------------------------------------------------------------

/// Positions agree over the axes on which coordinates do.
proof fn lemma_common_axes(a: Seq<u64>, b: Seq<u64>, n: Seq<u64>, i: int, d: int)
    requires
        in_grid(a, n),
        in_grid(b, n),
        0 <= i <= d < n.len(),
        forall|k: int| 0 <= k < d ==> a[k] == b[k],
    ensures
        row_major(a, n, i) - row_major(a, n, d) == row_major(b, n, i) - row_major(b, n, d),
    decreases d - i,
{
    if i < d {
        lemma_common_axes(a, b, n, i + 1, d);
    }
}

/// Row-major order is the order of the coordinates, the first axis deciding
/// first; every position is below the number of chunks.
pub proof fn law_row_major_is_lexicographic(a: Seq<u64>, b: Seq<u64>, n: Seq<u64>, d: int)
    requires
        in_grid(a, n),
        in_grid(b, n),
        0 <= d < n.len(),
        forall|k: int| 0 <= k < d ==> a[k] == b[k],
        a[d] < b[d],
    ensures
        row_major(a, n, 0) < row_major(b, n, 0),
        row_major(b, n, 0) < suffix_product(n, 0),
{
    lemma_common_axes(a, b, n, 0, d);
    lemma_row_major_bound(a, n, d + 1);
    lemma_row_major_bound(b, n, 0);
    let s = suffix_product(n, d + 1) as int;
    let x = a[d] as int;
    let y = b[d] as int;
    assert(x * s + s <= y * s) by (nonlinear_arith)
        requires
            x + 1 <= y,
            s >= 0,
    ;
}

/// Along the last axis positions are consecutive.
pub proof fn law_row_major_counts_along_last_axis(a: Seq<u64>, b: Seq<u64>, n: Seq<u64>)
    requires
        in_grid(a, n),
        in_grid(b, n),
        n.len() > 0,
        forall|k: int| 0 <= k < n.len() - 1 ==> a[k] == b[k],
    ensures
        row_major(b, n, 0) - row_major(a, n, 0) == b[n.len() - 1] - a[n.len() - 1],
{
    let d = n.len() - 1;
    lemma_common_axes(a, b, n, 0, d);
    assert(row_major(a, n, n.len() as int) == 0);
    assert(row_major(b, n, n.len() as int) == 0);
    assert(suffix_product(n, d + 1) == 1);
}

/// The first chunk of a grid has position zero.
pub proof fn law_row_major_starts_at_zero(n: Seq<u64>, a: Seq<u64>, d: int)
    requires
        a.len() == n.len(),
        forall|k: int| 0 <= k < a.len() ==> a[k] == 0,
        0 <= d <= n.len(),
    ensures
        row_major(a, n, d) == 0,
    decreases n.len() - d,
{
    if d < n.len() {
        law_row_major_starts_at_zero(n, a, d + 1);
        assert(a[d] == 0);
        assert(0 * suffix_product(n, d + 1) == 0);
    }
}

// ---------------------------------------------------------------------------
// Z-order
// ---------------------------------------------------------------------------

/// A Z-order index of `b` bits fits in them.
proof fn lemma_low_bits_bound(coords: Seq<u64>, b: nat)
    ensures
        morton_low(coords, b) < pow2(b),
    decreases b,
{
    lemma_pow2_pos(b);
    if b > 0 {
        lemma_low_bits_bound(coords, (b - 1) as nat);
        lemma_pow2_unfold(b);
    } else {
        lemma2_to64();
    }
}

/// Each bit of the index is bit `j / n` of coordinate `j % n`.
proof fn lemma_bit_stands(coords: Seq<u64>, b: nat, j: nat)
    requires
        coords.len() > 0,
        j < b <= (64nat / coords.len()) * coords.len(),
    ensures
        (morton_low(coords, b) / pow2(j)) % 2 == (coords[(j % coords.len()) as int] as nat / pow2(
            j / coords.len(),
        )) % 2,
    decreases b,
{
    let below = morton_low(coords, (b - 1) as nat);
    let x = coords[((b - 1) as nat % coords.len()) as int] as nat / pow2(
        (b - 1) as nat / coords.len(),
    );
    let m: nat = x % 2;
    lemma_mod_bound(x as int, 2);
    lemma_low_bits_bound(coords, (b - 1) as nat);
    lemma_pow2_pos(j);
    if j == b - 1 {
        assert(morton_low(coords, b) == below + m * pow2(j)) by (nonlinear_arith)
            requires
                morton_low(coords, b) == below + if m == 1 {
                    pow2(j)
                } else {
                    0
                },
                m == 0 || m == 1,
        ;
        lemma_fundamental_div_mod_converse(
            morton_low(coords, b) as int,
            pow2(j) as int,
            m as int,
            below as int,
        );
    } else {
        lemma_bit_stands(coords, (b - 1) as nat, j);
        let e = (b - 1 - j) as nat;
        lemma_pow2_adds(e, j);
        lemma_pow2_unfold(e);
        let h = pow2((e - 1) as nat) as int;
        if m == 1 {
            lemma_hoist_over_denominator(below as int, pow2(e) as int, pow2(j));
            lemma_mod_multiples_vanish(h, below as int / pow2(j) as int, 2);
        }
    }
}

/// Bit `k` of coordinate `d` becomes bit `k * n + d` of the Z-order index of `n`
/// coordinates, for as many bits of each as 64 bits have room for; the index has
/// no other bits.
pub proof fn law_z_order_interleaves_bits(coords: Seq<u64>, d: nat, k: nat)
    requires
        d < coords.len(),
        k < 64nat / coords.len(),
    ensures
        (morton_value(coords) / pow2(k * coords.len() + d)) % 2 == (coords[d as int] as nat / pow2(
            k,
        )) % 2,
        morton_value(coords) < pow2((64nat / coords.len()) * coords.len()),
{
    let n = coords.len();
    let used = (64nat / n) * n;
    lemma_fundamental_div_mod(64, n as int);
    lemma_mod_bound(64, n as int);
    assert(used == n * (64nat / n)) by (nonlinear_arith)
        requires
            used == (64nat / n) * n,
    ;
    crate::chunk_grid::lemma_morton_rest(coords, used, 64);
    let j = k * n + d;
    assert(j < used) by (nonlinear_arith)
        requires
            j == k * n + d,
            d < n,
            k + 1 <= 64nat / n,
            used == (64nat / n) * n,
    ;
    lemma_fundamental_div_mod_converse(j as int, n as int, k as int, d as int);
    lemma_bit_stands(coords, used, j);
    lemma_low_bits_bound(coords, used);
}

/// Under each order a chunk has the position that the order gives it.
pub proof fn law_position_follows_order(coord: Seq<u64>, n: Seq<u64>)
    ensures
        leaf_position(coord, n, LeafOrder::RowMajor) == row_major(coord, n, 0),
        leaf_position(coord, n, LeafOrder::Morton) == morton_value(coord),
{
}

/// A number is taken for a power of two if and only if it is one.
pub proof fn law_powers_of_two_are_known(n: nat, k: nat)
    ensures
        is_pow2(pow2(k)),
        is_pow2(n) ==> exists|j: nat| n == #[trigger] pow2(j),
    decreases k,
{
    lemma2_to64();
    if k > 0 {
        law_powers_of_two_are_known(n, (k - 1) as nat);
        lemma_pow2_unfold(k);
        lemma_pow2_pos((k - 1) as nat);
    }
    if is_pow2(n) {
        let j = lemma_exponent(n);
        assert(n == pow2(j));
    }
}

/// The number of chunks is found if and only if no product of leading extents is
/// more than 64 bits hold; then it is the product of all.
pub proof fn law_total_is_product(n: Seq<u64>)
    ensures
        checked_total(n) matches Some(t) ==> t == suffix_product(n, 0) && t <= u64::MAX,
        checked_total(n) is None ==> exists|k: int|
            0 < k <= n.len() && #[trigger] suffix_product(n.take(k), 0) > u64::MAX,
    decreases n.len(),
{
    lemma_checked_total(n);
    if n.len() > 0 && checked_total(n) is None {
        let m = n.drop_last();
        law_total_is_product(m);
        assert(m.push(n.last()) =~= n);
        crate::chunk_grid::lemma_suffix_push(m, n.last(), 0);
        if checked_total(m) is None {
            let k = choose|k: int|
                0 < k <= m.len() && #[trigger] suffix_product(m.take(k), 0) > u64::MAX;
            assert(m.take(k) =~= n.take(k));
            assert(suffix_product(n.take(k), 0) > u64::MAX);
        } else {
            assert(n.take(n.len() as int) =~= n);
            assert(suffix_product(n.take(n.len() as int), 0) > u64::MAX);
        }
    }
}

} // verus!
