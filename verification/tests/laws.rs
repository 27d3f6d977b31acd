//! What holds of all inputs, on some.

use clawhdf5::attr::{compute_chunk_grid_hash, MerkleAttr, MerkleAttrRef};
use clawhdf5::builders::DatasetBuilder;
use clawhdf5::chunk_grid::{compute_grid_hash, ChunkGridParams, LeafOrder};
use clawhdf5::columns::{read_f32_values, read_f64_values, Column};
use clawhdf5::contiguous::contiguous_tree_and_grid;
use clawhdf5::dataset::{
    extend_merkle, update_merkle, verify_chunk, verify_dataset, verify_root, Dataset,
};
use clawhdf5::digest::HashAlg;
use clawhdf5::error::{InvalidAttrReason, MerkleError};
use clawhdf5::file_writer::FileWriter;
use clawhdf5::fractal_heap::{decode_managed_id, encode_managed_id};
use clawhdf5::journal::{ProvenanceJournal, ProvenanceRecord};
use clawhdf5::memory_file::read_hdf5;
use clawhdf5::memory_writer::{join_embeddings, memory_writer};
use clawhdf5::messages::{AttrValue, Datatype, MessageType};
use clawhdf5::migrate::{
    max_chunk_id, merge_incremental, Entity, MemoryChunk, Relation, RowCounts, Session, SqliteData,
};
use clawhdf5::object_header::{write_superblock, ObjectHeader, ObjectHeaderWriter, Superblock};
use clawhdf5::reader::{
    has_object, parse_link, read_attr, read_dataset, read_int_attr, read_type, resolve_path, ReadFault,
};
use clawhdf5::recovery::{select_restore_record, RestoreTarget, SignatureVerifier};
use clawhdf5::response::{
    resolve_response, RecoveryAction, ResponsePolicy, SigningContext, VerifyResponse,
};
use clawhdf5::selection::Selection;
use clawhdf5::subset_proof::{extract_subset, verify_subset, ChunkData};
use clawhdf5::tree::MerkleTree;
use clawhdf5::validate::{sample_indices, validate_hdf5};
use clawhdf5::vds::{
    build_global_heap_collection, parse_vds_mappings, read_collection, serialize_vds_mappings,
    VdsMapping,
};
use clawhdf5::verification_grid::{leaf_byte_range, verification_grid, LayoutClass};
use clawhdf5::version::VersionObservationStore;

fn flat(tree: &MerkleTree) -> Vec<u8> {
    tree.nodes().iter().flatten().copied().collect()
}

fn dataset<'a>(chunks: &[&'a [u8]], alg: HashAlg) -> Dataset<'a> {
    let tree = MerkleTree::from_chunks(chunks, alg);
    Dataset::from_owned(MerkleAttr::from_tree(&tree), flat(&tree), chunks.to_vec())
}

#[test]
fn a_dataset_grows_and_still_verifies() {
    let alg = HashAlg::Blake3;
    let mut d = dataset(&[b"a", b"b", b"c"], alg);
    assert_eq!(verify_dataset(&d), Ok(true));
    for chunk in [&b"d"[..], &b"e"[..], &b"f"[..]] {
        let n = d.chunk_count();
        assert_eq!(extend_merkle(&mut d, n, alg.hash_leaf(chunk)), Ok(()));
        d.chunks.push(chunk);
        assert_eq!(verify_dataset(&d), Ok(true));
        assert_eq!(verify_root(&d), Ok(true));
    }
    assert_eq!(
        extend_merkle(&mut d, 2, [0; 32]),
        Err(MerkleError::HyperslabOutOfBounds { idx: 2 })
    );
}

#[test]
fn a_chunk_is_overwritten_and_the_dataset_still_verifies() {
    let alg = HashAlg::Sha256;
    let mut d = dataset(&[b"a", b"b", b"c"], alg);
    assert_eq!(update_merkle(&mut d, 1, alg.hash_leaf(b"B")), Ok(()));
    assert_eq!(verify_dataset(&d), Err(MerkleError::HashMismatch { chunk_idx: 1 }));
    d.chunks[1] = b"B";
    assert_eq!(verify_dataset(&d), Ok(true));
    let fresh: [&[u8]; 3] = [b"a", b"B", b"c"];
    assert_eq!(d.merkle_attr.root, *MerkleTree::from_chunks(&fresh, alg).root());
    assert_eq!(
        update_merkle(&mut d, 3, [0; 32]),
        Err(MerkleError::HyperslabOutOfBounds { idx: 3 })
    );
    let mut broken = dataset(&[b"a"], alg);
    broken.tree_nodes.pop();
    assert_eq!(
        update_merkle(&mut broken, 0, [0; 32]),
        Err(MerkleError::InvalidAttribute { reason: InvalidAttrReason::WrongSize })
    );
}

#[test]
fn tampering_is_told_by_place() {
    let alg = HashAlg::K12;
    let mut d = dataset(&[b"a", b"b", b"c"], alg);
    d.chunks[2] = b"C";
    assert_eq!(verify_dataset(&d), Err(MerkleError::HashMismatch { chunk_idx: 2 }));
    assert_eq!(verify_chunk(&d, 2), Err(MerkleError::HashMismatch { chunk_idx: 2 }));
    assert_eq!(verify_chunk(&d, 0), Ok(true));
    assert_eq!(verify_chunk(&d, 1), Ok(true));
    assert_eq!(verify_chunk(&d, 3), Err(MerkleError::HyperslabOutOfBounds { idx: 3 }));
    let none = Dataset::from_owned(d.merkle_attr.clone(), d.tree_nodes.clone(), vec![]);
    assert_eq!(verify_dataset(&none), Err(MerkleError::MissingChunkGridMetadata));
}

#[test]
fn a_stored_tree_reads_back() {
    let d = dataset(&[b"a", b"b", b"c", b"d", b"e"], HashAlg::Blake3);
    let tree = d.reconstruct_tree().unwrap();
    assert_eq!(flat(&tree), d.tree_nodes);
    assert_eq!(*tree.root(), d.merkle_attr.root);
}

#[test]
fn an_update_equals_a_rebuild() {
    for n in 1..9usize {
        let mut leaves: Vec<[u8; 32]> = (0..n).map(|i| [i as u8; 32]).collect();
        let mut tree = MerkleTree::from_leaf_hashes(&leaves, HashAlg::Blake3);
        for i in 0..n {
            leaves[i] = [100 + i as u8; 32];
            tree.update_leaf(i, leaves[i]).unwrap();
            let fresh = MerkleTree::from_leaf_hashes(&leaves, HashAlg::Blake3);
            assert_eq!(tree.nodes(), fresh.nodes());
        }
    }
}

#[test]
fn every_proof_verifies_and_binds_its_data() {
    let chunks: Vec<Vec<u8>> = (0..7u8).map(|i| vec![i; 3]).collect();
    let tree = MerkleTree::from_chunks_owned(&chunks, HashAlg::Sha256);
    for (i, chunk) in chunks.iter().enumerate() {
        let p = tree.inclusion_proof(i).unwrap();
        assert!(MerkleTree::verify_proof_standalone(tree.root(), i, chunk, &p));
        assert!(!MerkleTree::verify_proof_standalone(tree.root(), i, b"other", &p));
        assert!(tree.verify_proof(i, chunk, &p));
        assert!(!tree.verify_proof(i + 1, chunk, &p));
    }
}

#[test]
fn packed_attributes_unpack() {
    let tree = MerkleTree::from_leaf_hashes(&[[1; 32], [2; 32]], HashAlg::K12);
    let attr = MerkleAttr::from_tree_with_companion_and_grid(&tree, [5; 32], [6; 32]);
    assert_eq!(MerkleAttr::unpack(&attr.pack()), Ok(attr.clone()));
    let mut bytes = attr.pack();
    bytes[0] ^= 1;
    assert!(MerkleAttr::unpack(&bytes).is_err());
}

#[test]
fn a_subset_verifies_and_nothing_else_does() {
    let chunks: Vec<Vec<u8>> = (0..12u8).map(|i| vec![i; 4]).collect();
    let tree = MerkleTree::from_chunks_owned(&chunks, HashAlg::Blake3);
    let grid =
        ChunkGridParams::new(vec![3, 4], vec![1, 1], 4, LayoutClass::Chunked, HashAlg::Blake3);
    let hash = compute_grid_hash(&[3, 4], &[1, 1], 4, LayoutClass::Chunked, HashAlg::Blake3);
    let sel = Selection::slice(&[1..3, 1..2]);
    let order = LeafOrder::RowMajor;
    let p = extract_subset(&tree, &grid, &sel, order).unwrap();
    assert_eq!(p.chunk_indices, vec![5, 9]);
    let delivered: Vec<ChunkData<'_>> =
        p.chunk_indices.iter().map(|&i| ChunkData { index: i, data: &chunks[i] }).collect();
    let check = |chunks: &[ChunkData<'_>], sel: &Selection| {
        verify_subset(tree.root(), HashAlg::Blake3, chunks, &p, &grid, &hash, sel, order)
    };
    assert_eq!(check(&delivered, &sel), Ok(true));
    let forged = [
        ChunkData { index: 5, data: &chunks[5] },
        ChunkData { index: 9, data: b"forged" },
    ];
    assert_eq!(check(&forged, &sel), Err(MerkleError::HashMismatch { chunk_idx: 9 }));
    assert!(check(&delivered[..1], &sel).is_err());
    let other = Selection::slice(&[0..1, 1..2]);
    assert_eq!(check(&delivered, &other), Err(MerkleError::SelectionMismatch));
    assert_eq!(
        verify_subset(
            tree.root(),
            HashAlg::Blake3,
            &delivered,
            &p,
            &grid,
            &[0; 32],
            &sel,
            order
        ),
        Err(MerkleError::GridHashMismatch)
    );
    // The attribute of the tree authenticates the grid whose hash it has.
    let attr = MerkleAttr::from_tree_with_companion_and_grid(&tree, [0; 32], grid.grid_hash);
    assert_eq!(
        verify_subset(
            &attr.root,
            attr.algorithm,
            &delivered,
            &p,
            &grid,
            attr.grid_hash(),
            &sel,
            order
        ),
        Ok(true)
    );
    assert_ne!(compute_chunk_grid_hash(&[3, 4], &[1, 1], HashAlg::Blake3), hash);
    assert_eq!(
        extract_subset(&tree, &grid, &Selection::slice(&[0..1]), order),
        Err(MerkleError::HyperslabOutOfBounds { idx: 1 })
    );
}

#[test]
fn deep_grids_are_refused() {
    let tree = MerkleTree::from_leaf_hashes(&[[0; 32]], HashAlg::Blake3);
    let grid = ChunkGridParams::new(
        vec![1 << 50],
        vec![1],
        1,
        LayoutClass::Chunked,
        HashAlg::Blake3,
    );
    let r = extract_subset(&tree, &grid, &Selection::slice(&[0..1]), LeafOrder::RowMajor);
    assert!(matches!(r, Err(MerkleError::TreeTooDeep { .. })));
}

#[test]
fn leaves_tile_contiguous_data() {
    let dims = [40u64, 30];
    let target = 512;
    let grid = verification_grid(&dims, 8, target).unwrap();
    assert!(grid.iter().zip(dims).all(|(&g, d)| 1 <= g && g <= d));
    let size = 8 * grid.iter().product::<u64>();
    assert!(target / 2 <= size && size <= 2 * target);
    let leaves: u64 = dims.iter().zip(&grid).map(|(&d, &g)| d.div_ceil(g)).product();
    let mut end = 0;
    for i in 0..leaves {
        let r = leaf_byte_range(&grid, &dims, 8, i);
        assert_eq!(r.start, end);
        end = r.end;
    }
    assert_eq!(end, 40 * 30 * 8);
    let data: Vec<u8> = (0..end).map(|i| i as u8).collect();
    let (tree, params) = contiguous_tree_and_grid(&data, &dims, 8, target, HashAlg::Blake3);
    assert_eq!(tree.leaf_count() as u64, leaves);
    assert_eq!(params.chunk_shape, grid);
    for i in 0..leaves {
        let r = leaf_byte_range(&grid, &dims, 8, i);
        let part = &data[r.start as usize..r.end as usize];
        assert_eq!(tree.leaf_hash(i as usize), Some(&HashAlg::Blake3.hash_leaf(part)));
    }
}

struct Allowed(Vec<u64>);

impl SignatureVerifier for Allowed {
    fn verify(&self, r: &ProvenanceRecord) -> bool {
        self.0.contains(&r.version)
    }
}

fn record(version: u64) -> ProvenanceRecord {
    ProvenanceRecord {
        version,
        signed_root: [version as u8; 32],
        hybrid_sig: vec![9; 5],
        timestamp: 100 + version,
        snapshot_ref: format!("snap-{version}"),
    }
}

#[test]
fn journals_read_back() {
    let mut j = ProvenanceJournal::new();
    for v in [2, 3, 10] {
        j.append(record(v)).unwrap();
    }
    let back = ProvenanceJournal::unpack(&j.pack()).unwrap();
    assert_eq!(back.records(), j.records());
    let best = select_restore_record(&back, RestoreTarget::LastKnownGood, &Allowed(vec![2, 3]));
    assert_eq!(best.map(|r| r.version), Ok(3));
}

#[test]
fn versions_never_go_back() {
    let mut store = VersionObservationStore::new();
    assert!(store.is_empty());
    assert_eq!(store.observe("f", 4), Ok(()));
    assert_eq!(store.observe("f", 4), Ok(()));
    assert_eq!(
        store.observe("f", 3),
        Err(MerkleError::VersionRollback { observed: 3, highest_seen: 4 })
    );
    assert_eq!(store.highest("f"), Some(4));
    assert_eq!(store.observe("g", 1), Ok(()));
    assert_eq!(store.len(), 2);
}

#[test]
fn signed_data_is_not_rehashed() {
    let e = MerkleError::CompanionTampered;
    for policy in [
        ResponsePolicy::Halt,
        ResponsePolicy::Quarantine,
        ResponsePolicy::AlertAndContinue,
    ] {
        let r = resolve_response(&e, policy, SigningContext::Signed);
        assert_eq!(r.recovery, RecoveryAction::NoRecovery);
        let r = resolve_response(&MerkleError::NoncePending, policy, SigningContext::Unsigned);
        assert_eq!(r.response, VerifyResponse::Halt);
        assert_eq!(r.recovery, RecoveryAction::NoRecovery);
    }
}

#[test]
fn headers_and_superblocks_read_back() {
    let mut w = ObjectHeaderWriter::new();
    w.add_message(MessageType::Dataspace, &[1, 2, 3]);
    w.add_message_with_flags(MessageType::Link, b"abc", 1);
    let mut file = vec![0xee; 5];
    file.extend_from_slice(&w.serialize());
    let h = ObjectHeader::parse(&file, 5).unwrap();
    assert_eq!(h.messages.len(), 2);
    assert_eq!(h.messages[0].data, vec![1, 2, 3]);
    assert_eq!(h.messages[1].msg_type, MessageType::Link);
    file[9] ^= 0xff;
    assert!(ObjectHeader::parse(&file, 5).is_none());

    let sb = Superblock::parse(&write_superblock(1000, 48)).unwrap();
    assert_eq!(sb.root_group_address, 48);
}

#[test]
fn heap_ids_read_back() {
    for (offset, length) in [(0u64, 1u64), (0x1234, 0x56), (0xff_ffff_ffff, 0xffff)] {
        let id = encode_managed_id(offset, length, 40, 8);
        assert_eq!(decode_managed_id(&id, 40), Some((offset, length)));
    }
}

#[test]
fn mappings_read_back_through_a_collection() {
    let m = VdsMapping {
        source_file: "f.h5".into(),
        source_dataset: "/d".into(),
        source_selection: vec![3, 0, 0, 0, 1, 0, 0, 0, 0, 0, 0, 0, 0, 0, 0, 0],
        virtual_selection: vec![3, 0, 0, 0, 1, 0, 0, 0, 0, 0, 0, 0, 0, 0, 0, 0],
    };
    let bytes = serialize_vds_mappings(&[m.clone()], 8);
    assert_eq!(parse_vds_mappings(&bytes, 8), Some(vec![m]));
    let mut file = vec![0; 16];
    file.extend_from_slice(&build_global_heap_collection(b"object"));
    let object = read_collection(&file, 16).unwrap();
    assert_eq!(&object[..6], b"object");
}

#[test]
fn written_objects_are_found_by_name() {
    let mut fw = FileWriter::new();
    fw.set_root_attr("answer", AttrValue::I64(-42));
    fw.create_dataset("top").with_u8_data(&[1, 2, 3]);
    let mut g = fw.create_group("g");
    g.set_attr("rows", AttrValue::I64(7));
    g.create_dataset("inner").with_f64_bits(&[5, 6]);
    fw.add_group(g.finish());
    let file = fw.finish().unwrap();
    assert_eq!(read_dataset(&file, "top"), Ok(vec![1, 2, 3]));
    assert_eq!(read_f64_values(&read_dataset(&file, "g/inner").unwrap()), vec![5, 6]);
    assert_eq!(read_int_attr(&file, "", "answer"), Some(-42));
    assert_eq!(read_int_attr(&file, "g", "rows"), Some(7));
    assert!(has_object(&file, "g") && !has_object(&file, "h"));
    let info = read_type(&file, "g/inner").unwrap();
    assert_eq!((info.class, info.size), (1, 8));
    assert_eq!(parse_link(&[9, 9]), None);
}

#[test]
fn columns_read_back() {
    let mut d = DatasetBuilder::new("c");
    Column::F32(vec![1, u32::MAX]).store(&mut d);
    assert_eq!(read_f32_values(&d.data.unwrap(), None), vec![1, u32::MAX]);
    let mut d = DatasetBuilder::new("c");
    Column::F16(vec![0x3c00]).store(&mut d);
    assert_eq!(d.datatype, Some(Datatype::Float16));
    assert_eq!(d.data, Some(vec![0, 0x3c]));
}

fn memory() -> SqliteData {
    let chunk = |id: i64| MemoryChunk {
        id,
        chunk: format!("text {id}"),
        embedding: vec![id as u32, 7],
        source_channel: "api".to_string(),
        timestamp: 3,
        session_id: "s".to_string(),
        tags: String::new(),
        deleted: 0,
    };
    SqliteData {
        chunks: vec![chunk(3), chunk(5)],
        sessions: vec![Session {
            id: "s".to_string(),
            start_idx: 0,
            end_idx: 1,
            channel: "c".to_string(),
            timestamp: 4,
            summary: "sum".to_string(),
        }],
        entities: vec![Entity {
            id: 1,
            name: "n".to_string(),
            entity_type: "t".to_string(),
            embedding_idx: -1,
        }],
        relations: vec![Relation {
            src: 1,
            tgt: 1,
            relation: "r".to_string(),
            weight: 8,
            timestamp: 9,
        }],
        embedding_dim: 2,
    }
}

#[test]
fn memory_reads_back_and_validates() {
    let data = memory();
    let file = memory_writer(&data, "a", "e").finish().unwrap();
    let got = read_hdf5(&file).unwrap();
    assert_eq!(got, data);
    let summary = validate_hdf5(&got, &data, true, &[]).unwrap();
    assert_eq!(summary.rows_checked, 5);
    assert!(validate_hdf5(&got, &data, false, &[]).is_ok());
}

#[test]
fn increments_go_on_after_the_last_row() {
    let base = memory();
    assert_eq!(max_chunk_id(&base.chunks), 5);
    let mut more = memory();
    more.chunks.truncate(1);
    more.chunks[0].id = 6;
    let all = merge_incremental(base, more);
    let ids: Vec<i64> = all.chunks.iter().map(|c| c.id).collect();
    assert_eq!(ids, vec![3, 5, 6]);
}

#[test]
fn samples_are_spread() {
    let rows = sample_indices(1000, false);
    assert_eq!(rows.first(), Some(&0));
    assert_eq!(rows.last(), Some(&999));
    assert!(rows.windows(2).all(|w| w[0] < w[1]));
    assert_eq!(sample_indices(3, true), vec![0, 1, 2]);
    assert_eq!(sample_indices(0, false), Vec::<usize>::new());
}

#[test]
fn many_objects_are_found_by_name() {
    for n in [9usize, 40, 700] {
        let mut fw = FileWriter::new();
        let mut g = fw.create_group("g");
        for i in 0..n {
            let name = format!("{i:03}-{}", "n".repeat(i % 200));
            g.create_dataset(&name).with_u8_data(&[i as u8, (i / 256) as u8]);
        }
        g.add_external_link("elsewhere", "other.h5", "/x");
        fw.add_group(g.finish());
        for i in 0..12 {
            fw.create_dataset(&format!("top{i}")).with_u8_data(&[i]);
        }
        let file = fw.finish().unwrap();
        for i in 0..n {
            let path = format!("g/{i:03}-{}", "n".repeat(i % 200));
            assert_eq!(read_dataset(&file, &path), Ok(vec![i as u8, (i / 256) as u8]));
        }
        assert_eq!(read_dataset(&file, "g/absent"), Err(ReadFault::NotFound));
        assert_eq!(read_dataset(&file, "g/elsewhere"), Err(ReadFault::NotFound));
        assert_eq!(read_dataset(&file, "top11"), Ok(vec![11]));
    }
}

#[test]
fn many_attributes_are_found_by_name() {
    for n in [8usize, 9, 300] {
        let mut fw = FileWriter::new();
        let d = fw.create_dataset("d");
        d.with_u8_data(&[1]);
        for i in 0..n {
            d.set_attr(&format!("attr{i}"), AttrValue::I64(i as i64 - 5));
            d.set_attr(&format!("text{i}"), AttrValue::String("t".repeat(i)));
        }
        for i in 0..n {
            fw.set_root_attr(&format!("root{i}"), AttrValue::I64(-(i as i64)));
        }
        let file = fw.finish().unwrap();
        let sb = Superblock::parse(&file).unwrap();
        let at = resolve_path(&file, sb.root_group_address, b"d").unwrap();
        let header = ObjectHeader::parse(&file, at as usize).unwrap();
        for i in 0..n {
            assert_eq!(read_int_attr(&file, "d", &format!("attr{i}")), Some(i as i64 - 5));
            assert_eq!(read_int_attr(&file, "", &format!("root{i}")), Some(-(i as i64)));
            let text = read_attr(&file, &header, format!("text{i}").as_bytes()).unwrap();
            assert_eq!(text.info.class, 3);
            assert_eq!(text.raw.len(), i.max(1));
        }
        assert_eq!(read_int_attr(&file, "d", "text1"), None);
        assert!(read_attr(&file, &header, b"absent").is_none());
    }
}

#[test]
fn damaged_dense_storage_is_not_read() {
    let mut fw = FileWriter::new();
    for i in 0..20 {
        fw.create_dataset(&format!("d{i}")).with_u8_data(&[i]);
    }
    let file = fw.finish().unwrap();
    for signature in [&b"FRHP"[..], &b"BTHD"[..], &b"BTLF"[..]] {
        let at = file.windows(4).position(|w| w == signature).unwrap();
        let mut damaged = file.clone();
        damaged[at + 9] ^= 1;
        assert_eq!(read_dataset(&damaged, "d3"), Err(ReadFault::NotFound));
    }
    assert_eq!(read_dataset(&file, "d3"), Ok(vec![3]));
}

#[test]
fn large_objects_stand_whole_in_their_blocks() {
    // The first attribute is larger than the first block, and all of them together
    // are larger than the largest.
    let sizes = [600usize, 10, 60_000, 3, 1500, 40_000, 513, 2, 65_000, 1, 7];
    let value = |i: usize| -> Vec<u8> { (0..sizes[i]).map(|k| (k * 7 + i) as u8).collect() };
    let mut fw = FileWriter::new();
    let d = fw.create_dataset("d");
    d.with_u8_data(&[1]);
    for i in 0..sizes.len() {
        d.set_attr(&format!("a{i}"), AttrValue::Bytes(value(i)));
    }
    assert!(fw.fits());
    let file = fw.finish().unwrap();
    let sb = Superblock::parse(&file).unwrap();
    let at = resolve_path(&file, sb.root_group_address, b"d").unwrap();
    let header = ObjectHeader::parse(&file, at as usize).unwrap();
    for i in 0..sizes.len() {
        let attr = read_attr(&file, &header, format!("a{i}").as_bytes()).unwrap();
        assert_eq!(attr.raw, value(i));
    }
}

#[test]
fn a_chunk_has_to_lead_to_the_root() {
    let alg = HashAlg::Blake3;
    let (a, b, x): (&[u8], &[u8], &[u8]) = (b"a", b"b", b"x");
    let t = MerkleTree::from_chunks(&[a, b], alg);
    let u = MerkleTree::from_chunks(&[x, b], alg);
    let d = Dataset::from_owned(MerkleAttr::from_tree(&u), t.nodes().concat(), vec![a, b]);
    assert_eq!(verify_chunk(&d, 0), Err(MerkleError::HashMismatch { chunk_idx: 0 }));
    assert_eq!(verify_chunk(&d, 1), Err(MerkleError::HashMismatch { chunk_idx: 1 }));
    assert_eq!(verify_dataset(&d), Err(MerkleError::CompanionTampered));
}

#[test]
fn forged_leaves_under_a_genuine_root_are_refused() {
    let alg = HashAlg::Blake3;
    let (a, b, x): (&[u8], &[u8], &[u8]) = (b"a", b"b", b"x");
    let t = MerkleTree::from_chunks(&[a, b], alg);
    let nodes = [*t.root(), alg.hash_leaf(x), alg.hash_leaf(b)].concat();
    let d = Dataset::from_owned(MerkleAttr::from_tree(&t), nodes, vec![x, b]);
    assert_eq!(verify_dataset(&d), Err(MerkleError::CompanionTampered));
    assert_eq!(verify_chunk(&d, 0), Err(MerkleError::HashMismatch { chunk_idx: 0 }));
    // A stored root that is not the attribute's is refused too.
    let mut nodes = t.nodes().concat();
    nodes[0] ^= 1;
    let d = Dataset::from_owned(MerkleAttr::from_tree(&t), nodes, vec![a, b]);
    assert_eq!(verify_dataset(&d), Err(MerkleError::CompanionTampered));
}

#[test]
fn a_dataset_counts_once() {
    let mut seen = VersionObservationStore::new();
    for (key, version, len) in [("a", 1, 1), ("b", 5, 2), ("a", 7, 2), ("c", 0, 3)] {
        seen.observe(key, version).unwrap();
        assert_eq!(seen.len(), len);
    }
    assert!(seen.observe("b", 4).is_err());
    assert_eq!(seen.len(), 3);
}

#[test]
fn compact_data_stands_in_a_header() {
    for len in [0usize, 1, 65_531, 65_532, 65_535, 65_536] {
        let data: Vec<u8> = (0..len).map(|k| (k % 251) as u8).collect();
        let mut fw = FileWriter::new();
        fw.create_dataset("c").with_u8_data(&data).with_compact();
        let file = fw.finish().unwrap();
        let mut compact = vec![4, 0, (len % 256) as u8, (len / 256 % 256) as u8];
        compact.extend_from_slice(&data);
        assert_eq!(file.windows(compact.len()).any(|w| w == compact), len <= 65_535);
        if (65_532..=65_535).contains(&len) {
            // The size of the message does not fit in its two bytes.
            assert!(read_dataset(&file, "c").is_err());
            continue;
        }
        let sb = Superblock::parse(&file).unwrap();
        let at = resolve_path(&file, sb.root_group_address, b"c").unwrap();
        let header = ObjectHeader::parse(&file, at as usize).unwrap();
        let message =
            header.messages.iter().find(|m| m.msg_type == MessageType::DataLayout).unwrap();
        // Class 0 is compact, class 1 contiguous.
        assert_eq!(message.data[1], if len <= 65_531 { 0 } else { 1 });
        assert_eq!(message.size, message.data.len());
        assert_eq!(message.creation_order, None);
        assert_eq!(header.version, 2);
        assert_eq!(read_dataset(&file, "c"), Ok(data));
    }
}

#[test]
fn attributes_convert_to_packed_references() {
    let tree = MerkleTree::from_leaf_hashes(&[[7; 32]], HashAlg::Blake3);
    let attr = MerkleAttr::from_tree(&tree);
    let packed = MerkleAttrRef::from(&attr);
    assert!(!packed.is_borrowed());
    let bytes: &[u8] = packed.as_ref();
    assert_eq!(bytes, attr.pack().as_slice());
}

#[test]
fn rows_are_cut_and_padded() {
    let mut data = memory();
    data.chunks[0].embedding = vec![1, 2, 3];
    data.chunks[1].embedding = vec![4];
    data.chunks.truncate(2);
    assert_eq!(join_embeddings(&data.chunks, 2), vec![1, 2, 4, 0]);
    assert_eq!(RowCounts::default().chunks, 0);
}
