//! Exact values: digests, checksums, messages and small encodings.

use clawhdf5::attr::{compute_chunk_grid_hash, MerkleAttr, MerkleAttrRef};
use clawhdf5::checksum::jenkins_lookup3;
use clawhdf5::chunk_grid::{compute_grid_hash, morton_index, row_major_index};
use clawhdf5::columns::{Column, read_i32_values, read_i64_values, read_text_values};
use clawhdf5::cursor::Cursor;
use clawhdf5::digest::{compute_sha256, hash_chunk, HashAlg};
use clawhdf5::error::{InvalidAttrReason, MerkleError, UnsupportedLayoutReason};
use clawhdf5::fractal_heap::encode_managed_id;
use clawhdf5::journal::{ProvenanceJournal, ProvenanceRecord};
use clawhdf5::messages::Datatype;
use clawhdf5::mpi_vol::VolError;
use clawhdf5::recovery::RestoreError;
use clawhdf5::tree::MerkleTree;
use clawhdf5::validate::{RowKind, ValidationError};
use clawhdf5::verification_grid::{leaf_byte_range, LayoutClass};
use clawhdf5::version::{pack_merkle_version, unpack_merkle_version};

fn hex(bytes: &[u8]) -> String {
    bytes.iter().map(|b| format!("{b:02x}")).collect()
}

#[test]
fn digests_of_known_texts() {
    assert_eq!(
        hex(&compute_sha256(b"abc")),
        "ba7816bf8f01cfea414140de5dae2223b00361a396177a9cb410ff61f20015ad"
    );
    assert_eq!(hex(&HashAlg::Sha256.hash_raw(b"abc")), hex(&compute_sha256(b"abc")));
    assert_eq!(
        hex(&HashAlg::Blake3.hash_raw(b"abc")),
        "6437b3ac38465133ffb63b75273a8db548c558465d79db03fd359c6cd5bd9d85"
    );
    assert_eq!(
        hex(&HashAlg::K12.hash_raw(b"")),
        "1ac2d450fc3b4205d19da7bfca1b37513c0803577ac7167f06fe2ce1f0ef39e5"
    );
}

#[test]
fn leaves_pairs_and_sentinels_have_prefixes() {
    for alg in [HashAlg::Sha256, HashAlg::Blake3, HashAlg::K12] {
        let leaf = alg.hash_leaf(b"data");
        assert_eq!(leaf, alg.hash_raw(b"\x00data"));
        assert_eq!(leaf, hash_chunk(b"data", alg));
        let mut pair = vec![1u8];
        pair.extend_from_slice(&leaf);
        pair.extend_from_slice(&[7; 32]);
        assert_eq!(alg.hash_pair(&leaf, &[7; 32]), alg.hash_raw(&pair));
    }
}

#[test]
fn checksums_of_known_texts() {
    assert_eq!(jenkins_lookup3(b""), 0xdead_beef);
    assert_eq!(jenkins_lookup3(b"Four score and seven years ago"), 0x1777_0551);
}

#[test]
fn grid_hashes_are_digests_of_their_parameters() {
    let mut raw = Vec::new();
    for v in [10u64, 20, 3, 4] {
        raw.extend_from_slice(&v.to_le_bytes());
    }
    assert_eq!(
        compute_chunk_grid_hash(&[10, 20], &[3, 4], HashAlg::Sha256),
        HashAlg::Sha256.hash_raw(&raw)
    );
    let a = compute_grid_hash(&[10, 20], &[3, 4], 8, LayoutClass::Chunked, HashAlg::Blake3);
    let b = compute_grid_hash(&[10, 20], &[3, 4], 4, LayoutClass::Chunked, HashAlg::Blake3);
    let c = compute_grid_hash(&[10, 20], &[3, 4], 8, LayoutClass::Contiguous, HashAlg::Blake3);
    assert_ne!(a, b);
    assert_ne!(a, c);
}

#[test]
fn positions_in_a_grid() {
    assert_eq!(row_major_index(&[1, 2, 3], &[2, 3, 4]), 23);
    assert_eq!(row_major_index(&[], &[]), 0);
    assert_eq!(morton_index(&[3, 5]), 0b100111);
    assert_eq!(leaf_byte_range(&[1, 2], &[3, 5], 4, 2), 16..20);
}

#[test]
fn versions_are_big_endian() {
    assert_eq!(pack_merkle_version(0x0102_0304_0506_0708), [1, 2, 3, 4, 5, 6, 7, 8]);
    assert_eq!(unpack_merkle_version(&[0, 0, 0, 0, 0, 0, 1, 0]), Ok(256));
    assert_eq!(
        unpack_merkle_version(&[0; 7]),
        Err(MerkleError::InvalidAttribute { reason: InvalidAttrReason::WrongSize })
    );
}

#[test]
fn heap_ids_are_packed() {
    assert_eq!(encode_managed_id(0x1234, 0x56, 40, 8), vec![0, 0x34, 0x12, 0, 0, 0, 0x56, 0]);
}

#[test]
fn every_error_has_its_text() {
    let cases: Vec<(MerkleError, &str)> = vec![
        (MerkleError::HashMismatch { chunk_idx: 7 }, "leaf hash mismatch at chunk index 7"),
        (MerkleError::CompanionTampered, "companion integrity hash mismatch"),
        (MerkleError::SignatureInvalid, "hybrid signature verification failed"),
        (
            MerkleError::MissingChunkGridMetadata,
            "_merkle_root attribute absent from dataset",
        ),
        (MerkleError::HyperslabOutOfBounds { idx: 9 }, "chunk index 9 exceeds dataset bounds"),
        (
            MerkleError::TreeTooDeep { depth: 41 },
            "Merkle tree depth 41 exceeds maximum allowed depth 40",
        ),
        (MerkleError::NoncePending, "WAL has uncommitted entry for chunk"),
        (
            MerkleError::InvalidAttribute { reason: InvalidAttrReason::UnknownAlgorithm },
            "Invalid merkle attribute: unknown algorithm identifier",
        ),
        (
            MerkleError::SelectionMismatch,
            "subset proof's chunk set does not match the requested selection",
        ),
        (
            MerkleError::VersionRollback { observed: 3, highest_seen: 10 },
            "dataset version rollback: observed version 3 is lower than highest previously seen \
             10 (T4)",
        ),
        (MerkleError::JournalCorrupt, "provenance journal is malformed or inconsistent"),
        (
            MerkleError::JournalUnsupportedVersion { found: 255 },
            "provenance journal format version 255 is not supported by this build (expected 1)",
        ),
        (
            MerkleError::JournalNonMonotonic { appended: 1, last: 2 },
            "provenance journal append must strictly increase the version: tried to append \
             version 1 after 2",
        ),
        (
            MerkleError::GridHashMismatch,
            "chunk-grid parameters do not match the authenticated grid hash",
        ),
    ];
    for (e, text) in cases {
        assert_eq!(e.message(), text);
    }
    let e = MerkleError::UnsupportedLayout { reason: UnsupportedLayoutReason::ExternalStorage };
    assert!(e.message().starts_with("unsupported dataset layout: "));
    assert_eq!(
        RestoreError::NoJournaledRecord { version: 4 }.message(),
        "no journaled record for version 4 (not a valid rollback target)"
    );
    assert_eq!(
        RestoreError::DatasetVerificationFailed {
            version: 2,
            source: Some(MerkleError::CompanionTampered)
        }
        .message(),
        "restored dataset for version 2 failed verification: companion integrity hash mismatch"
    );
    assert_eq!(VolError::NotFound("a/b".to_string()).message(), "not found: a/b");
    assert_eq!(
        ValidationError::Count { kind: RowKind::Chunk, got: 1, expected: 12 }.message(),
        "chunk count mismatch: HDF5 has 1, source has 12"
    );
}

#[test]
fn a_cursor_runs_into_zeros() {
    let mut c = Cursor::new(&[1, 2, 0, 0, 0, 0, 0, 0, 0, 9]);
    assert_eq!(c.byte(), 1);
    assert_eq!(c.u64(), 2);
    assert_eq!(c.byte(), 9);
    assert_eq!(c.byte(), 0);
    assert_eq!(c.u64(), 0);
    assert_eq!(c.hash(), [0; 32]);
    assert_eq!(c.rest(), Vec::<u8>::new());
    let mut d = Cursor::new(&[250, 0, 0, 0, 0, 0, 0, 0, 5, 6]);
    assert!(d.bounded(100) <= 100);
    assert_eq!(d.rest(), vec![5, 6]);
}

#[test]
fn a_snapshot_reference_has_to_be_text() {
    let mut j = ProvenanceJournal::new();
    j.append(ProvenanceRecord {
        version: 1,
        signed_root: [3; 32],
        hybrid_sig: vec![1, 2],
        timestamp: 5,
        snapshot_ref: String::from("snäp"),
    })
    .unwrap();
    let mut bytes = j.pack();
    let back = ProvenanceJournal::unpack(&bytes).unwrap();
    assert_eq!(back.latest().unwrap().snapshot_ref, "snäp");
    let last = bytes.len() - 1;
    bytes[last - 1] = 0xff;
    assert!(matches!(ProvenanceJournal::unpack(&bytes), Err(MerkleError::JournalCorrupt)));
}

#[test]
fn columns_are_stored_and_read() {
    let i64s = [0i64, -1, i64::MIN, i64::MAX];
    let raw: Vec<u8> = i64s.iter().flat_map(|v| v.to_le_bytes()).collect();
    assert_eq!(read_i64_values(&raw), i64s.to_vec());
    let i32s = [0i32, -1, i32::MIN, i32::MAX];
    let raw: Vec<u8> = i32s.iter().flat_map(|v| v.to_le_bytes()).collect();
    assert_eq!(read_i32_values(&raw), i32s.to_vec());
    assert_eq!(
        read_text_values(b"ab\0\0abcd\0\0\0\0", 4),
        Some(vec!["ab".to_string(), "abcd".to_string(), String::new()])
    );
    assert_eq!(read_text_values(b"\xff\0", 2), None);
    assert_eq!(read_text_values(b"ab", 0), None);
    let mut d = clawhdf5::builders::DatasetBuilder::new("texts");
    Column::Text(vec!["a".to_string(), "bcd".to_string()]).store(&mut d);
    assert_eq!(d.data, Some(b"a\0\0bcd".to_vec()));
    assert_eq!(d.datatype, Some(Datatype::FixedString { size: 3 }));
    assert_eq!(d.shape, Some(vec![2]));
}

#[test]
fn datatypes_are_spelled_out() {
    assert_eq!(
        Datatype::Float16.serialize(),
        vec![0x11, 0x20, 15, 0, 2, 0, 0, 0, 0, 0, 16, 0, 10, 5, 0, 10, 15, 0, 0, 0]
    );
    assert_eq!(
        Datatype::Float64.serialize(),
        vec![0x11, 0x20, 63, 0, 8, 0, 0, 0, 0, 0, 64, 0, 52, 11, 0, 52, 0xff, 3, 0, 0]
    );
    assert_eq!(
        Datatype::FixedPoint { size: 4, signed: true }.serialize(),
        vec![0x10, 0x08, 0, 0, 4, 0, 0, 0, 0, 0, 32, 0]
    );
}

#[test]
fn packed_attributes_come_in_two_forms() {
    let tree = MerkleTree::from_chunks_owned(&[b"a".to_vec(), b"b".to_vec()], HashAlg::Sha256);
    let attr = MerkleAttr::from_tree(&tree);
    let r = MerkleAttrRef::from_attr(&attr);
    assert_eq!(r.root_array(), attr.root);
    assert_eq!(r.into_owned(), attr.pack().to_vec());
    let refs: [&[u8]; 2] = [b"a", b"b"];
    assert_eq!(tree.root(), MerkleTree::from_chunks(&refs, HashAlg::Sha256).root());
    let p = tree.inclusion_proof(1).unwrap();
    assert_eq!(p.size_bytes(), 9 + 32 * p.siblings().len());
}
