//! Cutting contiguous datasets into leaves.

use clawhdf5::verification_grid::{leaf_byte_range, verification_grid};

#[test]
fn daos_fixture_1000_cubed() {
    let grid = verification_grid(&[1000, 1000, 1000], 4, 1024 * 1024);
    assert_eq!(grid, Some(vec![1, 250, 1000]));
}

#[test]
fn daos_fixture_time_series() {
    let grid = verification_grid(&[8760, 720, 1440], 4, 1024 * 1024);
    assert_eq!(grid, Some(vec![1, 180, 1440]));
}

#[test]
fn daos_fixture_1d_2_30() {
    let grid = verification_grid(&[1u64 << 30], 8, 1024 * 1024);
    assert_eq!(grid, Some(vec![131_072]));
}

#[test]
fn daos_fixture_1d_million() {
    let grid = verification_grid(&[1_000_000], 4, 1024 * 1024);
    assert_eq!(grid, Some(vec![250_000]));
}

#[test]
fn below_threshold_2d_single_leaf() {
    assert_eq!(verification_grid(&[100, 100], 8, 1024 * 1024), None);
}

#[test]
fn degenerate_small_dims_single_leaf() {
    assert_eq!(verification_grid(&[2, 3, 4], 4, 1024 * 1024), None);
}

fn pivot(grid: &[u64], dims: &[u64]) -> usize {
    let mut k = grid.len() - 1;
    while k > 0 && grid[k] == dims[k] {
        k -= 1;
    }
    k
}

/// Numbers that look random and are the same every time.
struct Numbers(u64);

impl Numbers {
    fn next(&mut self) -> u64 {
        self.0 ^= self.0 << 13;
        self.0 ^= self.0 >> 7;
        self.0 ^= self.0 << 17;
        self.0
    }

    fn dims(&mut self, max_rank: u64, max_extent: u64) -> Vec<u64> {
        let rank = 1 + self.next() % max_rank;
        (0..rank).map(|_| 1 + self.next() % (max_extent - 1)).collect()
    }
}

#[test]
fn grid_invariants() {
    let mut numbers = Numbers(0x9e37_79b9_7f4a_7c15);
    for _ in 0..10_000 {
        let dims = numbers.dims(4, 10_000);
        let elem_size = [1u32, 2, 4, 8, 16][(numbers.next() % 5) as usize];
        let target = [1u64 << 16, 1 << 20, 1 << 24][(numbers.next() % 3) as usize];
        let Some(grid) = verification_grid(&dims, elem_size, target) else {
            continue;
        };
        for i in 0..dims.len() {
            assert!(
                grid[i] >= 1 && grid[i] <= dims[i],
                "tiling violated on axis {i}: grid={grid:?} dims={dims:?}"
            );
        }
        let leaf_bytes: u128 = grid
            .iter()
            .fold(u128::from(elem_size), |acc, &t| acc * u128::from(t));
        assert!(
            leaf_bytes >= u128::from(target) / 2 && leaf_bytes <= 2 * u128::from(target),
            "leaf size {leaf_bytes} outside [target/2, 2*target] for \
             target={target} grid={grid:?} dims={dims:?} elem_size={elem_size}"
        );
        let k = pivot(&grid, &dims);
        for i in 0..k {
            assert_eq!(
                grid[i], 1,
                "byte-contiguity violated: axis {i} slower than pivot {k} is not 1 \
                 (grid={grid:?} dims={dims:?})"
            );
        }
    }
}

#[test]
fn leaf_ranges_partition_the_stream() {
    let mut numbers = Numbers(0x2545_f491_4f6c_dd1d);
    for _ in 0..300 {
        let dims = numbers.dims(3, 2_000);
        let elem_size = [1u32, 4, 8][(numbers.next() % 3) as usize];
        let target = [1u64 << 16, 1 << 20][(numbers.next() % 2) as usize];
        let Some(grid) = verification_grid(&dims, elem_size, target) else {
            continue;
        };
        let n_tiles: Vec<u64> = (0..dims.len()).map(|i| dims[i].div_ceil(grid[i])).collect();
        let total_leaves: u64 = n_tiles.iter().product();
        let mut prev_end = 0u64;
        for idx in 0..total_leaves.min(5_000) {
            let range = leaf_byte_range(&grid, &dims, elem_size, idx);
            assert_eq!(
                range.start, prev_end,
                "gap or overlap at leaf {idx} (grid={grid:?} dims={dims:?})"
            );
            assert!(range.end > range.start);
            prev_end = range.end;
        }
        let total_bytes = dims.iter().product::<u64>() * u64::from(elem_size);
        let last = leaf_byte_range(&grid, &dims, elem_size, total_leaves - 1);
        assert_eq!(
            last.end, total_bytes,
            "leaves do not cover the stream to its end (grid={grid:?} dims={dims:?})"
        );
    }
}

#[test]
fn leaf_byte_range_covers_whole_dataset_no_gap_no_overlap() {
    let dims = [1000u64, 1000, 1000];
    let elem_size = 4u32;
    let grid = verification_grid(&dims, elem_size, 1024 * 1024).unwrap();
    let n_tiles: Vec<u64> = (0..3).map(|i| dims[i].div_ceil(grid[i])).collect();
    let total_leaves: u64 = n_tiles.iter().product();
    assert_eq!(total_leaves, 4000);

    let mut prev_end = 0u64;
    for idx in 0..total_leaves {
        let range = leaf_byte_range(&grid, &dims, elem_size, idx);
        assert_eq!(range.start, prev_end, "gap or overlap at leaf {idx}");
        assert!(range.end > range.start);
        prev_end = range.end;
    }
    let total_bytes = dims.iter().product::<u64>() * u64::from(elem_size);
    assert_eq!(prev_end, total_bytes);
}

#[test]
fn nothing_to_cut_whatever_the_target() {
    assert_eq!(verification_grid(&[], 4, u64::MAX), None);
    assert_eq!(verification_grid(&[5, 0], 4, u64::MAX), None);
    assert_eq!(verification_grid(&[5, 5], 0, u64::MAX), None);
    assert_eq!(verification_grid(&[5, 5], 4, 13_043_817_825_332_782_212), None);
}

#[test]
fn large_slow_axes_do_not_count_against_the_run() {
    // Twice the square of the whole size does not fit in 128 bits; that of the run does.
    assert_eq!(verification_grid(&[3, 1 << 62], 1, 1 << 40), Some(vec![1, 1 << 40]));
}
