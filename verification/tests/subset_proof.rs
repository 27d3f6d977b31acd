//! Subset proofs, over chunks and over contiguous data.

use clawhdf5::chunk_grid::{
    chunk_coords_for_selection, compute_grid_hash, morton_index, row_major_index, ChunkGridParams,
    LeafOrder,
};
use clawhdf5::contiguous::{contiguous_tree_and_grid, ContiguousStream};
use clawhdf5::digest::HashAlg;
use clawhdf5::error::{MerkleError, UnsupportedLayoutReason};
use clawhdf5::file_writer::FileWriter;
use clawhdf5::layout::contiguous_layout;
use clawhdf5::messages::MessageType;
use clawhdf5::object_header::{HeaderMessage, ObjectHeader, Superblock};
use clawhdf5::reader::resolve_path;
use clawhdf5::selection::Selection;
use clawhdf5::subset_proof::{
    compute_expected_chunk_indices, extract_subset, verify_subset, ChunkData,
};
use clawhdf5::tree::MerkleTree;
use clawhdf5::verification_grid::{leaf_byte_range, LayoutClass};
use std::io::Read;

fn bits(values: &[f64]) -> Vec<u64> {
    values.iter().map(|v| v.to_bits()).collect()
}

/// Builds the tree from a reader, a batch at a time.
fn contiguous_tree_streaming<R: Read>(
    reader: &mut R,
    dims: &[u64],
    elem_size: u32,
    target_bytes: u64,
    alg: HashAlg,
) -> std::io::Result<(MerkleTree, ChunkGridParams)> {
    let mut stream = ContiguousStream::new(dims, elem_size, target_bytes, alg);
    while let Some(batch) = stream.next_batch() {
        let mut buf = vec![0u8; batch.len as usize];
        reader.read_exact(&mut buf)?;
        stream.push_batch(&buf);
    }
    Ok(stream.finish())
}

fn make_tree_and_grid(n_chunks: usize) -> (MerkleTree, ChunkGridParams, Vec<Vec<u8>>) {
    let chunks: Vec<Vec<u8>> = (0..n_chunks)
        .map(|i| format!("chunk-{i}").into_bytes())
        .collect();
    let refs: Vec<&[u8]> = chunks.iter().map(Vec::as_slice).collect();
    let tree = MerkleTree::from_chunks(&refs, HashAlg::Blake3);

    let grid = ChunkGridParams::new(vec![n_chunks as u64], vec![1], 4, LayoutClass::Chunked, HashAlg::Blake3);
    (tree, grid, chunks)
}

#[test]
fn test_morton_index_3d_reference() {
    assert_eq!(morton_index(&[1, 2, 3]), 0x35);
    assert_eq!(morton_index(&[0, 0, 0]), 0);
    assert_eq!(morton_index(&[1, 0, 0]), 1);
    assert_eq!(morton_index(&[0, 1, 0]), 2);
    assert_eq!(morton_index(&[0, 0, 1]), 4);
}

#[test]
fn test_row_major_matches_natural_order() {
    let n_per_dim = vec![4u64];
    for i in 0..4u64 {
        assert_eq!(row_major_index(&[i], &n_per_dim), i);
    }
    let n_per_dim_2d = vec![2u64, 3u64];

    assert_eq!(row_major_index(&[1, 2], &n_per_dim_2d), 5);
}

#[test]
fn test_n_chunks_per_dim_rejects_zero_chunk_shape_without_panicking() {
    let grid = ChunkGridParams::new(vec![10, 10], vec![2, 0], 4, LayoutClass::Chunked, HashAlg::Blake3);
    assert_eq!(grid.n_chunks_per_dim(), vec![5, 0]);
    assert_eq!(grid.total_chunk_count(), 0);
}

#[test]
fn test_bounded_sweep_matches_full_grid_sweep() {
    fn brute_force(sel: &Selection, n_per_dim: &[u64], chunk_shape: &[u64]) -> Vec<Vec<u64>> {
        let ndim = n_per_dim.len();
        if ndim == 0 || n_per_dim.contains(&0) {
            return vec![];
        }
        let mut coords = Vec::new();
        let mut counter = vec![0u64; ndim];
        loop {
            let chunk_offset: Vec<u64> = counter
                .iter()
                .zip(chunk_shape.iter())
                .map(|(&c, &s)| c * s)
                .collect();
            if sel.intersects_chunk(&chunk_offset, chunk_shape) {
                coords.push(counter.clone());
            }
            let mut d = ndim;
            loop {
                if d == 0 {
                    return coords;
                }
                d -= 1;
                counter[d] += 1;
                if counter[d] < n_per_dim[d] {
                    break;
                }
                counter[d] = 0;
            }
        }
    }

    let n_per_dim = [20u64, 16u64];
    let chunk_shape = [4u64, 8u64];

    let cases: Vec<Selection> = vec![
        Selection::All,
        Selection::Empty,

        Selection::slice(&[50..60, 70..90]),

        Selection::Hyperslab {
            start: vec![3, 5],
            stride: vec![10, 20],
            count: vec![4, 3],
            block: vec![2, 4],
        },

        Selection::Points(vec![vec![1, 2], vec![77, 5], vec![40, 120], vec![0, 0]]),

        Selection::slice(&[70..100, 120..200]),

        Selection::slice(&[500..600, 0..8]),
    ];

    for sel in &cases {
        assert_eq!(
            chunk_coords_for_selection(sel, &n_per_dim, &chunk_shape),
            brute_force(sel, &n_per_dim, &chunk_shape),
            "bounded sweep diverged from full-grid sweep for {sel:?}",
        );
    }
}

#[test]
fn test_extract_and_verify_subset_contiguous_slab() {
    let (tree, grid, chunks) = make_tree_and_grid(8);
    let sel = Selection::slice(&[2..5]);

    let proof = extract_subset(&tree, &grid, &sel, LeafOrder::RowMajor).unwrap();
    assert_eq!(proof.chunk_indices, vec![2, 3, 4]);

    let delivered: Vec<ChunkData<'_>> = proof
        .chunk_indices
        .iter()
        .map(|&idx| ChunkData {
            index: idx,
            data: &chunks[idx],
        })
        .collect();

    let ok = verify_subset(
        tree.root(),
        HashAlg::Blake3,
        &delivered,
        &proof,
        &grid,
        &grid.grid_hash,
        &sel,
        LeafOrder::RowMajor,
    )
    .unwrap();
    assert!(ok);
}

#[test]
fn test_verify_subset_detects_modified_chunk() {
    let (tree, grid, chunks) = make_tree_and_grid(8);
    let sel = Selection::slice(&[0..4]);
    let proof = extract_subset(&tree, &grid, &sel, LeafOrder::RowMajor).unwrap();

    let mut delivered: Vec<Vec<u8>> = proof
        .chunk_indices
        .iter()
        .map(|&idx| chunks[idx].clone())
        .collect();

    delivered[1][0] ^= 0xFF;

    let chunk_data: Vec<ChunkData<'_>> = proof
        .chunk_indices
        .iter()
        .zip(delivered.iter())
        .map(|(&idx, data)| ChunkData { index: idx, data })
        .collect();

    let err = verify_subset(
        tree.root(),
        HashAlg::Blake3,
        &chunk_data,
        &proof,
        &grid,
        &grid.grid_hash,
        &sel,
        LeafOrder::RowMajor,
    )
    .unwrap_err();
    assert!(matches!(err, MerkleError::HashMismatch { .. }));
}

#[test]
fn test_verify_subset_detects_omitted_chunk() {
    let (tree, grid, chunks) = make_tree_and_grid(8);
    let sel = Selection::slice(&[0..4]);
    let proof = extract_subset(&tree, &grid, &sel, LeafOrder::RowMajor).unwrap();
    assert_eq!(proof.chunk_indices.len(), 4);

    let delivered: Vec<ChunkData<'_>> = proof
        .chunk_indices
        .iter()
        .filter(|&&idx| idx != 2)
        .map(|&idx| ChunkData {
            index: idx,
            data: &chunks[idx],
        })
        .collect();

    let err = verify_subset(
        tree.root(),
        HashAlg::Blake3,
        &delivered,
        &proof,
        &grid,
        &grid.grid_hash,
        &sel,
        LeafOrder::RowMajor,
    )
    .unwrap_err();
    assert!(matches!(err, MerkleError::CompanionTampered));
}

#[test]
fn test_extract_subset_morton_order_round_trips() {
    let dims = vec![4u64, 4u64];
    let chunk_shape = vec![1u64, 1u64];
    let grid = ChunkGridParams::new(dims, chunk_shape, 4, LayoutClass::Chunked, HashAlg::Blake3);
    let n_per_dim = grid.n_chunks_per_dim();

    let n_chunks = grid.total_chunk_count() as usize;
    let mut chunk_at_leaf = vec![Vec::new(); n_chunks];
    for y in 0..n_per_dim[0] {
        for x in 0..n_per_dim[1] {
            let leaf = morton_index(&[y, x]) as usize;
            chunk_at_leaf[leaf] = format!("chunk-{y}-{x}").into_bytes();
        }
    }
    let refs: Vec<&[u8]> = chunk_at_leaf.iter().map(Vec::as_slice).collect();
    let tree = MerkleTree::from_chunks(&refs, HashAlg::Blake3);

    let sel = Selection::slice(&[1..3, 1..3]);
    let proof = extract_subset(&tree, &grid, &sel, LeafOrder::Morton).unwrap();

    let delivered: Vec<ChunkData<'_>> = proof
        .chunk_indices
        .iter()
        .map(|&idx| ChunkData {
            index: idx,
            data: &chunk_at_leaf[idx],
        })
        .collect();

    let ok = verify_subset(
        tree.root(),
        HashAlg::Blake3,
        &delivered,
        &proof,
        &grid,
        &grid.grid_hash,
        &sel,
        LeafOrder::Morton,
    )
    .unwrap();
    assert!(ok);
}

#[test]
fn test_extract_subset_rank_too_high_errors_not_panics() {
    let (tree, grid, _chunks) = make_tree_and_grid(8);
    let sel = Selection::slice(&[0..2, 0..2]);
    let err = extract_subset(&tree, &grid, &sel, LeafOrder::RowMajor).unwrap_err();
    assert!(matches!(err, MerkleError::HyperslabOutOfBounds { idx: 2 }));
}

#[test]
fn test_extract_subset_rank_too_low_errors_not_panics() {
    let dims = vec![4u64, 4u64];
    let chunk_shape = vec![1u64, 1u64];
    let grid = ChunkGridParams::new(dims, chunk_shape, 4, LayoutClass::Chunked, HashAlg::Blake3);
    let chunks: Vec<Vec<u8>> = (0..16).map(|i| format!("chunk-{i}").into_bytes()).collect();
    let refs: Vec<&[u8]> = chunks.iter().map(Vec::as_slice).collect();
    let tree = MerkleTree::from_chunks(&refs, HashAlg::Blake3);

    let sel = Selection::slice(&[0..2]);
    let err = extract_subset(&tree, &grid, &sel, LeafOrder::RowMajor).unwrap_err();
    assert!(matches!(err, MerkleError::HyperslabOutOfBounds { idx: 1 }));
}

#[test]
fn test_verify_subset_leaf_hashes_length_mismatch_errors_not_panics() {
    let (tree, grid, chunks) = make_tree_and_grid(8);
    let sel = Selection::slice(&[2..5]);
    let mut proof = extract_subset(&tree, &grid, &sel, LeafOrder::RowMajor).unwrap();
    proof.leaf_hashes.pop();

    let delivered: Vec<ChunkData<'_>> = proof
        .chunk_indices
        .iter()
        .map(|&idx| ChunkData {
            index: idx,
            data: &chunks[idx],
        })
        .collect();

    let err = verify_subset(
        tree.root(),
        HashAlg::Blake3,
        &delivered,
        &proof,
        &grid,
        &grid.grid_hash,
        &sel,
        LeafOrder::RowMajor,
    )
    .unwrap_err();
    assert!(matches!(err, MerkleError::CompanionTampered));
}

#[test]
fn test_verify_subset_grid_axis_mismatch_errors_not_panics() {
    let (tree, grid, chunks) = make_tree_and_grid(8);
    let sel = Selection::slice(&[2..5]);
    let proof = extract_subset(&tree, &grid, &sel, LeafOrder::RowMajor).unwrap();

    let delivered: Vec<ChunkData<'_>> = proof
        .chunk_indices
        .iter()
        .map(|&idx| ChunkData {
            index: idx,
            data: &chunks[idx],
        })
        .collect();

    let mut bad_grid = grid.clone();
    bad_grid.chunk_shape.push(1);
    let bad_trusted_hash =
        compute_grid_hash(
            &bad_grid.dims,
            &bad_grid.chunk_shape,
            bad_grid.elem_size,
            bad_grid.layout_class,
            HashAlg::Blake3,
        );

    let err = verify_subset(
        tree.root(),
        HashAlg::Blake3,
        &delivered,
        &proof,
        &bad_grid,
        &bad_trusted_hash,
        &sel,
        LeafOrder::RowMajor,
    )
    .unwrap_err();
    assert!(matches!(err, MerkleError::CompanionTampered));
}

#[test]
fn test_verify_subset_zero_chunk_shape_errors_not_panics() {
    let (tree, grid, chunks) = make_tree_and_grid(8);
    let sel = Selection::slice(&[2..5]);
    let proof = extract_subset(&tree, &grid, &sel, LeafOrder::RowMajor).unwrap();

    let delivered: Vec<ChunkData<'_>> = proof
        .chunk_indices
        .iter()
        .map(|&idx| ChunkData {
            index: idx,
            data: &chunks[idx],
        })
        .collect();

    let mut bad_grid = grid.clone();
    bad_grid.chunk_shape[0] = 0;
    let bad_trusted_hash =
        compute_grid_hash(
            &bad_grid.dims,
            &bad_grid.chunk_shape,
            bad_grid.elem_size,
            bad_grid.layout_class,
            HashAlg::Blake3,
        );

    let err = verify_subset(
        tree.root(),
        HashAlg::Blake3,
        &delivered,
        &proof,
        &bad_grid,
        &bad_trusted_hash,
        &sel,
        LeafOrder::RowMajor,
    )
    .unwrap_err();
    assert!(matches!(err, MerkleError::CompanionTampered));
}

#[test]
fn test_verify_subset_grid_product_overflow_errors_not_panics() {
    let (tree, grid, chunks) = make_tree_and_grid(8);
    let sel = Selection::slice(&[2..5]);
    let proof = extract_subset(&tree, &grid, &sel, LeafOrder::RowMajor).unwrap();

    let delivered: Vec<ChunkData<'_>> = proof
        .chunk_indices
        .iter()
        .map(|&idx| ChunkData {
            index: idx,
            data: &chunks[idx],
        })
        .collect();

    let bad_grid = ChunkGridParams::new(vec![u64::MAX, 2], vec![1, 1], 4, LayoutClass::Chunked, HashAlg::Blake3);
    let bad_sel = Selection::slice(&[0..1, 0..1]);

    let err = verify_subset(
        tree.root(),
        HashAlg::Blake3,
        &delivered,
        &proof,
        &bad_grid,
        &bad_grid.grid_hash,
        &bad_sel,
        LeafOrder::RowMajor,
    )
    .unwrap_err();
    assert!(matches!(err, MerkleError::TreeTooDeep { .. }));
}

#[test]
fn test_verify_subset_grid_next_power_of_two_overflow_errors_not_panics() {
    let (tree, grid, chunks) = make_tree_and_grid(8);
    let sel = Selection::slice(&[2..5]);
    let proof = extract_subset(&tree, &grid, &sel, LeafOrder::RowMajor).unwrap();

    let delivered: Vec<ChunkData<'_>> = proof
        .chunk_indices
        .iter()
        .map(|&idx| ChunkData {
            index: idx,
            data: &chunks[idx],
        })
        .collect();

    let bad_grid = ChunkGridParams::new(vec![u64::MAX], vec![1], 4, LayoutClass::Chunked, HashAlg::Blake3);

    let err = verify_subset(
        tree.root(),
        HashAlg::Blake3,
        &delivered,
        &proof,
        &bad_grid,
        &bad_grid.grid_hash,
        &sel,
        LeafOrder::RowMajor,
    )
    .unwrap_err();
    assert!(matches!(err, MerkleError::TreeTooDeep { .. }));
}

#[test]
fn test_grid_hash_changes_with_params() {
    let g1 = ChunkGridParams::new(vec![10], vec![2], 4, LayoutClass::Chunked, HashAlg::Blake3);
    let g2 = ChunkGridParams::new(vec![10], vec![5], 4, LayoutClass::Chunked, HashAlg::Blake3);
    assert_ne!(g1.grid_hash, g2.grid_hash);
}

#[test]
fn test_verify_subset_rejects_proof_for_different_selection() {
    let (tree, grid, chunks) = make_tree_and_grid(8);
    let extracted_sel = Selection::slice(&[0..3]);
    let proof = extract_subset(&tree, &grid, &extracted_sel, LeafOrder::RowMajor).unwrap();
    assert_eq!(proof.chunk_indices, vec![0, 1, 2]);

    let delivered: Vec<ChunkData<'_>> = proof
        .chunk_indices
        .iter()
        .map(|&idx| ChunkData {
            index: idx,
            data: &chunks[idx],
        })
        .collect();

    let requested_sel = Selection::slice(&[5..8]);
    let err = verify_subset(
        tree.root(),
        HashAlg::Blake3,
        &delivered,
        &proof,
        &grid,
        &grid.grid_hash,
        &requested_sel,
        LeafOrder::RowMajor,
    )
    .unwrap_err();
    assert!(matches!(err, MerkleError::SelectionMismatch));
}

#[test]
fn test_verify_subset_rejects_tampered_grid_params_via_grid_hash_mismatch() {
    let (tree, grid, chunks) = make_tree_and_grid(8);
    let sel = Selection::slice(&[2..5]);
    let proof = extract_subset(&tree, &grid, &sel, LeafOrder::RowMajor).unwrap();

    let delivered: Vec<ChunkData<'_>> = proof
        .chunk_indices
        .iter()
        .map(|&idx| ChunkData {
            index: idx,
            data: &chunks[idx],
        })
        .collect();

    let forged_grid = ChunkGridParams::new(vec![999], vec![1], 4, LayoutClass::Chunked, HashAlg::Blake3);
    assert_ne!(forged_grid.grid_hash, grid.grid_hash);

    let trusted_grid_hash = grid.grid_hash;

    let err = verify_subset(
        tree.root(),
        HashAlg::Blake3,
        &delivered,
        &proof,
        &forged_grid,
        &trusted_grid_hash,
        &sel,
        LeafOrder::RowMajor,
    )
    .unwrap_err();
    assert!(matches!(err, MerkleError::GridHashMismatch));
}

#[test]
fn test_contiguous_grid_falls_back_to_single_leaf_when_below_threshold() {
    let dims = vec![10u64];
    let elem_size = 4u32;
    let data: Vec<u8> = (0..10u32).flat_map(|v| v.to_le_bytes()).collect();

    let (tree, grid) =
        contiguous_tree_and_grid(&data, &dims, elem_size, 1024 * 1024, HashAlg::Blake3);

    assert_eq!(grid.layout_class, LayoutClass::Contiguous);
    assert_eq!(grid.chunk_shape, dims);
    assert_eq!(tree.leaf_count(), 1);
}

#[test]
fn test_contiguous_layout_extract_and_verify_subset_round_trip() {
    let dims = vec![100u64];
    let elem_size = 4u32;
    let data: Vec<u8> = (0..100u32).flat_map(|v| v.to_le_bytes()).collect();

    let target_bytes = 64;

    let (tree, grid) =
        contiguous_tree_and_grid(&data, &dims, elem_size, target_bytes, HashAlg::Blake3);
    assert_eq!(grid.layout_class, LayoutClass::Contiguous);
    assert!(
        grid.chunk_shape[0] < dims[0],
        "buffer should actually be tiled, not fall back to a single leaf"
    );

    let sel = Selection::slice(&[10..20]);
    let proof = extract_subset(&tree, &grid, &sel, LeafOrder::RowMajor).unwrap();
    assert!(proof.chunk_indices.len() >= 2);

    let delivered: Vec<ChunkData<'_>> = proof
        .chunk_indices
        .iter()
        .map(|&idx| {
            let range =
                leaf_byte_range(&grid.chunk_shape, &dims, elem_size, idx as u64);
            ChunkData {
                index: idx,
                data: &data[range.start as usize..range.end as usize],
            }
        })
        .collect();

    let ok = verify_subset(
        tree.root(),
        HashAlg::Blake3,
        &delivered,
        &proof,
        &grid,
        &grid.grid_hash,
        &sel,
        LeafOrder::RowMajor,
    )
    .unwrap();
    assert!(ok);
}

#[test]
fn test_contiguous_layout_grid_hash_differs_from_chunked_same_extents() {
    let dims = vec![10u64];
    let elem_size = 4u32;
    let data: Vec<u8> = (0..10u32).flat_map(|v| v.to_le_bytes()).collect();

    let (_, contiguous_grid) =
        contiguous_tree_and_grid(&data, &dims, elem_size, 1024 * 1024, HashAlg::Blake3);
    let chunked_grid = ChunkGridParams::new(
        dims,
        contiguous_grid.chunk_shape.clone(),
        elem_size,
        LayoutClass::Chunked,
        HashAlg::Blake3,
    );

    assert_ne!(contiguous_grid.grid_hash, chunked_grid.grid_hash);
}

#[test]
fn test_verify_subset_never_branches_on_layout_class() {
    let (tree, _, chunks) = make_tree_and_grid(8);
    let selections = [
        Selection::All,
        Selection::Empty,
        Selection::slice(&[2..5]),
        Selection::slice(&[0..1]),
        Selection::slice(&[3..3]),
        Selection::slice(&[0..2, 0..2]),
        Selection::Points(vec![vec![7], vec![1]]),
    ];
    for sel in &selections {
        for tampered in [false, true] {
            let mut answers = Vec::new();
            for class in [LayoutClass::Chunked, LayoutClass::Contiguous] {
                let grid = ChunkGridParams::new(vec![8], vec![1], 4, class, HashAlg::Blake3);
                let Ok(proof) = extract_subset(&tree, &grid, sel, LeafOrder::RowMajor) else {
                    answers.push(None);
                    continue;
                };
                let mut bytes: Vec<Vec<u8>> =
                    proof.chunk_indices.iter().map(|&idx| chunks[idx].clone()).collect();
                if tampered {
                    if let Some(first) = bytes.first_mut() {
                        first[0] ^= 0xFF;
                    }
                }
                let delivered: Vec<ChunkData<'_>> = proof
                    .chunk_indices
                    .iter()
                    .zip(bytes.iter())
                    .map(|(&index, data)| ChunkData { index, data })
                    .collect();
                answers.push(Some(verify_subset(
                    tree.root(),
                    HashAlg::Blake3,
                    &delivered,
                    &proof,
                    &grid,
                    &grid.grid_hash,
                    sel,
                    LeafOrder::RowMajor,
                )));
            }
            assert_eq!(
                answers[0], answers[1],
                "the layout class must only reach the verifier through the grid hash"
            );
        }
    }
}

#[test]
fn test_contiguous_and_chunked_proofs_are_identical_except_grid_hash() {
    let dims = vec![100u64];
    let elem_size = 4u32;
    let data: Vec<u8> = (0..100u32).flat_map(|v| v.to_le_bytes()).collect();
    let target_bytes = 64;

    let (contiguous_tree, contiguous_grid) =
        contiguous_tree_and_grid(&data, &dims, elem_size, target_bytes, HashAlg::Blake3);

    let chunk_shape = contiguous_grid.chunk_shape.clone();
    let n_leaves = dims[0].div_ceil(chunk_shape[0]);
    let leaves: Vec<&[u8]> = (0..n_leaves)
        .map(|idx| {
            let r = leaf_byte_range(&chunk_shape, &dims, elem_size, idx);
            &data[r.start as usize..r.end as usize]
        })
        .collect();
    let chunked_tree = MerkleTree::from_chunks(&leaves, HashAlg::Blake3);
    let chunked_grid = ChunkGridParams::new(
        dims.clone(),
        chunk_shape,
        elem_size,
        LayoutClass::Chunked,
        HashAlg::Blake3,
    );

    assert_eq!(contiguous_tree.root(), chunked_tree.root());

    let sel = Selection::slice(&[10..40]);
    let c_proof = extract_subset(&contiguous_tree, &contiguous_grid, &sel, LeafOrder::RowMajor)
        .unwrap();
    let k_proof =
        extract_subset(&chunked_tree, &chunked_grid, &sel, LeafOrder::RowMajor).unwrap();

    assert_eq!(c_proof.chunk_indices, k_proof.chunk_indices);
    assert_eq!(c_proof.leaf_hashes, k_proof.leaf_hashes);
    assert_eq!(c_proof.proof_nodes, k_proof.proof_nodes);
    assert_eq!(c_proof.grid_params.dims, k_proof.grid_params.dims);
    assert_eq!(c_proof.grid_params.chunk_shape, k_proof.grid_params.chunk_shape);
    assert_eq!(c_proof.grid_params.elem_size, k_proof.grid_params.elem_size);

    assert_ne!(c_proof.grid_params.layout_class, k_proof.grid_params.layout_class);
    assert_ne!(c_proof.grid_params.grid_hash, k_proof.grid_params.grid_hash);

    for (tree, grid, proof) in [
        (&contiguous_tree, &contiguous_grid, &c_proof),
        (&chunked_tree, &chunked_grid, &k_proof),
    ] {
        let delivered: Vec<ChunkData<'_>> = proof
            .chunk_indices
            .iter()
            .map(|&idx| {
                let r = leaf_byte_range(
                    &grid.chunk_shape,
                    &dims,
                    elem_size,
                    idx as u64,
                );
                ChunkData {
                    index: idx,
                    data: &data[r.start as usize..r.end as usize],
                }
            })
            .collect();
        assert!(
            verify_subset(
                tree.root(),
                HashAlg::Blake3,
                &delivered,
                proof,
                grid,
                &grid.grid_hash,
                &sel,
                LeafOrder::RowMajor,
            )
            .unwrap()
        );
    }
}

#[test]
fn test_grid_substitution_at_a_different_target_is_rejected() {
    let dims = vec![100u64];
    let elem_size = 4u32;
    let data: Vec<u8> = (0..100u32).flat_map(|v| v.to_le_bytes()).collect();

    let (tree, prover_grid) =
        contiguous_tree_and_grid(&data, &dims, elem_size, 64, HashAlg::Blake3);
    let (_, verifier_grid) =
        contiguous_tree_and_grid(&data, &dims, elem_size, 256, HashAlg::Blake3);
    assert_ne!(prover_grid.chunk_shape, verifier_grid.chunk_shape);

    let sel = Selection::slice(&[10..40]);
    let proof = extract_subset(&tree, &prover_grid, &sel, LeafOrder::RowMajor).unwrap();
    let delivered: Vec<ChunkData<'_>> = proof
        .chunk_indices
        .iter()
        .map(|&idx| {
            let r = leaf_byte_range(
                &prover_grid.chunk_shape,
                &dims,
                elem_size,
                idx as u64,
            );
            ChunkData {
                index: idx,
                data: &data[r.start as usize..r.end as usize],
            }
        })
        .collect();

    let err = verify_subset(
        tree.root(),
        HashAlg::Blake3,
        &delivered,
        &proof,
        &verifier_grid,
        &prover_grid.grid_hash,
        &sel,
        LeafOrder::RowMajor,
    )
    .unwrap_err();
    assert!(
        matches!(err, MerkleError::GridHashMismatch),
        "expected GridHashMismatch, got {err:?}"
    );
}

#[test]
fn test_layout_class_flip_is_rejected_on_grid_hash() {
    let dims = vec![100u64];
    let elem_size = 4u32;
    let data: Vec<u8> = (0..100u32).flat_map(|v| v.to_le_bytes()).collect();

    let (tree, grid) = contiguous_tree_and_grid(&data, &dims, elem_size, 64, HashAlg::Blake3);
    let sel = Selection::slice(&[10..40]);
    let proof = extract_subset(&tree, &grid, &sel, LeafOrder::RowMajor).unwrap();
    let delivered: Vec<ChunkData<'_>> = proof
        .chunk_indices
        .iter()
        .map(|&idx| {
            let r = leaf_byte_range(
                &grid.chunk_shape,
                &dims,
                elem_size,
                idx as u64,
            );
            ChunkData {
                index: idx,
                data: &data[r.start as usize..r.end as usize],
            }
        })
        .collect();

    let mut flipped = grid.clone();
    flipped.layout_class = LayoutClass::Chunked;
    flipped.grid_hash = compute_grid_hash(
        &flipped.dims,
        &flipped.chunk_shape,
        flipped.elem_size,
        LayoutClass::Chunked,
        HashAlg::Blake3,
    );

    let err = verify_subset(
        tree.root(),
        HashAlg::Blake3,
        &delivered,
        &proof,
        &flipped,
        &grid.grid_hash,
        &sel,
        LeafOrder::RowMajor,
    )
    .unwrap_err();
    assert!(
        matches!(err, MerkleError::GridHashMismatch),
        "expected GridHashMismatch, got {err:?}"
    );
}

#[test]
fn test_elem_size_reinterpretation_is_rejected_on_grid_hash() {
    let dims = vec![100u64];
    let elem_size = 4u32;
    let data: Vec<u8> = (0..100u32).flat_map(|v| v.to_le_bytes()).collect();

    let (tree, grid) = contiguous_tree_and_grid(&data, &dims, elem_size, 64, HashAlg::Blake3);
    let sel = Selection::slice(&[10..40]);
    let proof = extract_subset(&tree, &grid, &sel, LeafOrder::RowMajor).unwrap();
    let delivered: Vec<ChunkData<'_>> = proof
        .chunk_indices
        .iter()
        .map(|&idx| {
            let r = leaf_byte_range(
                &grid.chunk_shape,
                &dims,
                elem_size,
                idx as u64,
            );
            ChunkData {
                index: idx,
                data: &data[r.start as usize..r.end as usize],
            }
        })
        .collect();

    let reinterpreted = ChunkGridParams::new(
        vec![50],
        grid.chunk_shape.clone(),
        8,
        LayoutClass::Contiguous,
        HashAlg::Blake3,
    );

    let err = verify_subset(
        tree.root(),
        HashAlg::Blake3,
        &delivered,
        &proof,
        &reinterpreted,
        &grid.grid_hash,
        &sel,
        LeafOrder::RowMajor,
    )
    .unwrap_err();
    assert!(
        matches!(err, MerkleError::GridHashMismatch),
        "expected GridHashMismatch, got {err:?}"
    );
}

#[test]
fn test_tamper_is_localized_to_the_correct_leaf() {
    let dims = vec![100u64];
    let elem_size = 4u32;
    let mut data: Vec<u8> = (0..100u32).flat_map(|v| v.to_le_bytes()).collect();
    let target_bytes = 64;

    let (tree, grid) =
        contiguous_tree_and_grid(&data, &dims, elem_size, target_bytes, HashAlg::Blake3);

    let tampered_leaf = 2u64;
    let leaf_range =
        leaf_byte_range(&grid.chunk_shape, &dims, elem_size, tampered_leaf);
    let flip_offset = leaf_range.start + 5;
    assert!(
        leaf_range.contains(&flip_offset),
        "the reported byte range for leaf {tampered_leaf} must contain the flipped offset"
    );
    data[flip_offset as usize] ^= 0xFF;

    let sel = Selection::All;
    let proof = extract_subset(&tree, &grid, &sel, LeafOrder::RowMajor).unwrap();
    let delivered: Vec<ChunkData<'_>> = proof
        .chunk_indices
        .iter()
        .map(|&idx| {
            let r = leaf_byte_range(
                &grid.chunk_shape,
                &dims,
                elem_size,
                idx as u64,
            );
            ChunkData {
                index: idx,
                data: &data[r.start as usize..r.end as usize],
            }
        })
        .collect();

    let err = verify_subset(
        tree.root(),
        HashAlg::Blake3,
        &delivered,
        &proof,
        &grid,
        &grid.grid_hash,
        &sel,
        LeafOrder::RowMajor,
    )
    .unwrap_err();

    match err {
        MerkleError::HashMismatch { chunk_idx } => {
            assert_eq!(
                chunk_idx as u64, tampered_leaf,
                "tamper should localize to leaf {tampered_leaf}, not {chunk_idx}"
            );
        }
        other => panic!("expected HashMismatch localized to a leaf, got {other:?}"),
    }
}

#[test]
fn test_root_is_over_raw_file_bytes_not_converted_values() {
    let dims = vec![100u64];
    let elem_size = 8u32;
    let values: Vec<f64> = (0..100).map(f64::from).collect();

    let le_bytes: Vec<u8> = values.iter().flat_map(|v| v.to_le_bytes()).collect();
    let be_bytes: Vec<u8> = values.iter().flat_map(|v| v.to_be_bytes()).collect();

    let (le_tree, _) =
        contiguous_tree_and_grid(&le_bytes, &dims, elem_size, 64, HashAlg::Blake3);
    let (be_tree, _) =
        contiguous_tree_and_grid(&be_bytes, &dims, elem_size, 64, HashAlg::Blake3);

    assert_ne!(
        le_tree.root(),
        be_tree.root(),
        "the same logical values in different file byte orders are different \
         byte streams and must hash differently -- an equal root here would \
         mean leaves are computed over decoded values, not raw file bytes"
    );

    let (le_again, _) =
        contiguous_tree_and_grid(&le_bytes, &dims, elem_size, 64, HashAlg::Blake3);
    assert_eq!(le_tree.root(), le_again.root());
}

#[test]
fn streaming_matches_in_memory() {
    let cases: &[(&[u64], u32, u64)] = &[
        (&[100], 4, 64),
        (&[1000], 8, 1024),
        (&[37], 4, 64),
        (&[16, 16, 16], 4, 1024),
        (&[10], 4, 1024 * 1024),
    ];

    for &(dims, elem_size, target) in cases {
        let n: u64 = dims.iter().product::<u64>() * u64::from(elem_size);
        let data: Vec<u8> = (0..n).map(|v| (v % 251) as u8).collect();

        let (mem_tree, mem_grid) =
            contiguous_tree_and_grid(&data, dims, elem_size, target, HashAlg::Blake3);

        let mut cursor = std::io::Cursor::new(&data);
        let (stream_tree, stream_grid) =
            contiguous_tree_streaming(&mut cursor, dims, elem_size, target, HashAlg::Blake3)
                .expect("streaming build should succeed");

        assert_eq!(
            stream_grid, mem_grid,
            "grid differs for dims={dims:?} target={target}"
        );
        assert_eq!(
            stream_tree.root(),
            mem_tree.root(),
            "root differs for dims={dims:?} target={target}"
        );
        assert_eq!(stream_tree.leaf_count(), mem_tree.leaf_count());
        for i in 0..mem_tree.leaf_count() {
            assert_eq!(
                stream_tree.leaf_hash(i),
                mem_tree.leaf_hash(i),
                "leaf {i} differs for dims={dims:?} target={target}"
            );
        }
    }
}

#[test]
fn streaming_handles_many_leaves() {
    let dims = [4096u64];
    let elem_size = 4u32;
    let target = 64;
    let n: u64 = dims[0] * u64::from(elem_size);
    let data: Vec<u8> = (0..n).map(|v| (v % 253) as u8).collect();

    let (mem_tree, _) =
        contiguous_tree_and_grid(&data, &dims, elem_size, target, HashAlg::Blake3);
    let mut cursor = std::io::Cursor::new(&data);
    let (stream_tree, _) =
        contiguous_tree_streaming(&mut cursor, &dims, elem_size, target, HashAlg::Blake3)
            .unwrap();

    assert!(mem_tree.leaf_count() > 100, "sanity: want many leaves");
    assert_eq!(stream_tree.root(), mem_tree.root());
}

#[test]
fn streaming_rejects_short_stream() {
    let dims = [100u64];
    let data = vec![0u8; 200];
    let mut cursor = std::io::Cursor::new(&data);
    let err = contiguous_tree_streaming(&mut cursor, &dims, 4, 64, HashAlg::Blake3)
        .expect_err("a short stream must fail");
    assert_eq!(err.kind(), std::io::ErrorKind::UnexpectedEof);
}

#[test]
fn test_contiguous_layout_reads_real_file_address_and_extents() {
    let values: Vec<f64> = (0..1000).map(f64::from).collect();
    let mut fw = FileWriter::new();
    let ds = fw.create_dataset("readings");
    ds.with_f64_bits(&bits(&values));
    let expected_bytes = ds.data.clone().unwrap();
    let file_bytes = fw.finish().expect("file should build");

    let sb = Superblock::parse(&file_bytes).unwrap();
    let addr = resolve_path(&file_bytes, sb.root_group_address, b"readings").unwrap();
    let hdr = ObjectHeader::parse(&file_bytes, addr as usize).unwrap();

    let layout = contiguous_layout(&hdr, sb.offset_size, sb.length_size)
        .expect("a plain f64 dataset should be supported");

    assert_eq!(layout.dims, vec![1000]);
    assert_eq!(layout.elem_size, 8);
    assert_eq!(layout.nbytes, 8000);
    let on_disk = &file_bytes
        [layout.data_addr as usize..(layout.data_addr + layout.nbytes) as usize];
    assert_eq!(on_disk, expected_bytes.as_slice());
}

#[test]
fn test_contiguous_layout_rejects_chunked() {
    let values: Vec<f64> = (0..1000).map(f64::from).collect();
    let mut fw = FileWriter::new();
    let ds = fw.create_dataset("readings");
    ds.with_f64_bits(&bits(&values));
    ds.with_chunks(&[100]);
    let file_bytes = fw.finish().expect("file should build");

    let sb = Superblock::parse(&file_bytes).unwrap();
    let addr = resolve_path(&file_bytes, sb.root_group_address, b"readings").unwrap();
    let hdr = ObjectHeader::parse(&file_bytes, addr as usize).unwrap();

    let err = contiguous_layout(&hdr, sb.offset_size, sb.length_size).unwrap_err();
    assert!(
        matches!(
            err,
            MerkleError::UnsupportedLayout {
                reason: UnsupportedLayoutReason::NotContiguous
            }
        ),
        "expected NotContiguous, got {err:?}"
    );
}

#[test]
fn test_contiguous_layout_rejects_external_unallocated_and_vlen() {
    fn msg(msg_type: MessageType, data: Vec<u8>) -> HeaderMessage {
        HeaderMessage {
            msg_type,
            size: data.len(),
            flags: 0,
            creation_order: None,
            data,
        }
    }
    fn header(messages: Vec<HeaderMessage>) -> ObjectHeader {
        ObjectHeader {
            version: 2,
            messages,
            reference_count: None,
            flags: 0,
            access_time: None,
            modification_time: None,
            change_time: None,
            birth_time: None,
        }
    }

    let mut dataspace = vec![1u8, 1, 0, 0, 0, 0, 0, 0];
    dataspace.extend_from_slice(&100u64.to_le_bytes());

    let f64_dt = {
        let mut d = vec![0x11u8, 0x20, 0x1f, 0x00];
        d.extend_from_slice(&8u32.to_le_bytes());
        d.extend_from_slice(&[0x00, 0x00, 0x34, 0x00, 0x00, 0x40, 0x0d, 0xff]);
        d.extend_from_slice(&[0x00, 0x00, 0x00, 0x00]);
        d
    };

    let contiguous_layout_msg = |addr: [u8; 8]| {
        let mut d = vec![3u8, 1];
        d.extend_from_slice(&addr);
        d.extend_from_slice(&800u64.to_le_bytes());
        d
    };

    let external = header(vec![
        msg(MessageType::Dataspace, dataspace.clone()),
        msg(MessageType::Datatype, f64_dt.clone()),
        msg(MessageType::DataLayout, contiguous_layout_msg(1024u64.to_le_bytes())),
        msg(MessageType::Unknown(0x0007), vec![0u8; 8]),
    ]);
    assert!(
        matches!(
            contiguous_layout(&external, 8, 8).unwrap_err(),
            MerkleError::UnsupportedLayout {
                reason: UnsupportedLayoutReason::ExternalStorage
            }
        ),
        "external storage must be a hard error"
    );

    let unallocated = header(vec![
        msg(MessageType::Dataspace, dataspace.clone()),
        msg(MessageType::Datatype, f64_dt.clone()),
        msg(MessageType::DataLayout, contiguous_layout_msg([0xFFu8; 8])),
    ]);
    assert!(
        matches!(
            contiguous_layout(&unallocated, 8, 8).unwrap_err(),
            MerkleError::UnsupportedLayout {
                reason: UnsupportedLayoutReason::Unallocated
            }
        ),
        "unallocated storage must be a hard error"
    );

    let vlen_dt = {
        let mut d = vec![0x19u8, 0x00, 0x00, 0x00];
        d.extend_from_slice(&16u32.to_le_bytes());
        d.extend_from_slice(&f64_dt);
        d
    };
    let vlen = header(vec![
        msg(MessageType::Dataspace, dataspace.clone()),
        msg(MessageType::Datatype, vlen_dt),
        msg(MessageType::DataLayout, contiguous_layout_msg(1024u64.to_le_bytes())),
    ]);
    assert!(
        matches!(
            contiguous_layout(&vlen, 8, 8).unwrap_err(),
            MerkleError::UnsupportedLayout {
                reason: UnsupportedLayoutReason::IndirectDatatype
            }
        ),
        "variable-length datatypes must be a hard error"
    );

    let malformed = header(vec![
        msg(MessageType::Dataspace, dataspace),
        msg(MessageType::Datatype, f64_dt),
    ]);
    assert!(matches!(
        contiguous_layout(&malformed, 8, 8).unwrap_err(),
        MerkleError::UnsupportedLayout {
            reason: UnsupportedLayoutReason::MalformedHeader
        }
    ));
}

#[test]
fn selections_that_leave_the_grid_are_refused() {
    let (tree, grid, _) = make_tree_and_grid(8);
    let extract = |sel: &Selection| extract_subset(&tree, &grid, sel, LeafOrder::RowMajor);
    assert_eq!(
        extract(&Selection::slice(&[6..20])),
        Err(MerkleError::HyperslabOutOfBounds { idx: 8 })
    );
    assert_eq!(
        extract(&Selection::Points(vec![vec![3], vec![8]])),
        Err(MerkleError::HyperslabOutOfBounds { idx: 8 })
    );
    let far = Selection::Hyperslab {
        start: vec![1],
        stride: vec![u64::MAX],
        count: vec![u64::MAX],
        block: vec![u64::MAX],
    };
    assert_eq!(extract(&far), Err(MerkleError::HyperslabOutOfBounds { idx: 8 }));
    assert_eq!(extract(&Selection::slice(&[6..8])).unwrap().chunk_indices, vec![6, 7]);
    assert_eq!(extract(&Selection::slice(&[20..20])).unwrap().chunk_indices, vec![]);
    assert_eq!(extract(&Selection::All).unwrap().chunk_indices.len(), 8);

    // The last chunk may reach past the last element.
    let refs: Vec<&[u8]> = vec![b"0", b"1", b"2"];
    let tree = MerkleTree::from_chunks(&refs, HashAlg::Blake3);
    let grid =
        ChunkGridParams::new(vec![10], vec![4], 1, LayoutClass::Chunked, HashAlg::Blake3);
    let sel = Selection::slice(&[9..12]);
    let p = extract_subset(&tree, &grid, &sel, LeafOrder::RowMajor).unwrap();
    assert_eq!(p.chunk_indices, vec![2]);
    let sel = Selection::slice(&[9..13]);
    assert_eq!(
        extract_subset(&tree, &grid, &sel, LeafOrder::RowMajor),
        Err(MerkleError::HyperslabOutOfBounds { idx: 3 })
    );
}

#[test]
fn a_proof_with_a_misshapen_grid_is_refused() {
    let (tree, grid, chunks) = make_tree_and_grid(8);
    let sel = Selection::slice(&[2..5]);
    let p = extract_subset(&tree, &grid, &sel, LeafOrder::RowMajor).unwrap();
    let delivered: Vec<ChunkData<'_>> =
        (2..5).map(|index| ChunkData { index, data: &chunks[index] }).collect();
    let verify = |p: &clawhdf5::subset_proof::SubsetProof| {
        verify_subset(
            tree.root(),
            HashAlg::Blake3,
            &delivered,
            p,
            &grid,
            &grid.grid_hash,
            &sel,
            LeafOrder::RowMajor,
        )
    };
    assert_eq!(verify(&p), Ok(true));
    let mut longer = p.clone();
    longer.grid_params.chunk_shape.push(1);
    assert_eq!(verify(&longer), Err(MerkleError::CompanionTampered));
    let mut empty = p.clone();
    empty.grid_params.chunk_shape[0] = 0;
    assert_eq!(verify(&empty), Err(MerkleError::CompanionTampered));
}

#[test]
fn a_grid_may_have_as_many_chunks_as_a_tree_leaves() {
    let first = Selection::slice(&[0..1]);
    let leaves = |n: u64| {
        let grid =
            ChunkGridParams::new(vec![n], vec![1], 1, LayoutClass::Chunked, HashAlg::Blake3);
        compute_expected_chunk_indices(&grid, &first, LeafOrder::RowMajor)
    };
    assert_eq!(leaves(1 << 39), Ok(vec![0]));
    assert_eq!(leaves(1 << 40), Ok(vec![0]));
    assert_eq!(leaves((1 << 40) + 1), Err(MerkleError::TreeTooDeep { depth: 42 }));
}
