//! Going back to a journaled version.

use clawhdf5::attr::MerkleAttr;
use clawhdf5::dataset::Dataset;
use clawhdf5::digest::{HashAlg, HASH_SIZE};
use clawhdf5::journal::{ProvenanceJournal, ProvenanceRecord};
use clawhdf5::recovery::{
    restore_to_version, select_restore_record, verify_restored_dataset, RestoreError,
    RestoreTarget, SignatureVerifier,
};
use clawhdf5::tree::MerkleTree;

fn dataset_for(chunks: &[Vec<u8>]) -> (MerkleAttr, Vec<u8>) {
    let refs: Vec<&[u8]> = chunks.iter().map(|c| c.as_slice()).collect();
    let tree = MerkleTree::from_chunks(&refs, HashAlg::Blake3);
    let mut nodes = Vec::with_capacity(tree.nodes().len() * HASH_SIZE);
    for n in tree.nodes() {
        nodes.extend_from_slice(n);
    }
    (MerkleAttr::from_tree(&tree), nodes)
}

fn record(version: u64, signed_root: [u8; HASH_SIZE]) -> ProvenanceRecord {
    ProvenanceRecord {
        version,
        signed_root,
        hybrid_sig: Vec::new(),
        timestamp: version,
        snapshot_ref: String::from("snap"),
    }
}

struct AllowList(Vec<u64>);
impl SignatureVerifier for AllowList {
    fn verify(&self, r: &ProvenanceRecord) -> bool {
        self.0.contains(&r.version)
    }
}

#[test]
fn last_known_good_skips_unverifiable_newer_versions() {
    let mut j = ProvenanceJournal::new();
    j.append(record(1, [1; 32])).unwrap();
    j.append(record(2, [2; 32])).unwrap();
    j.append(record(3, [3; 32])).unwrap();

    let verifier = AllowList(vec![1, 2]);
    let rec = select_restore_record(&j, RestoreTarget::LastKnownGood, &verifier).unwrap();
    assert_eq!(rec.version, 2);
}

#[test]
fn last_known_good_errors_when_nothing_verifies() {
    let mut j = ProvenanceJournal::new();
    j.append(record(1, [1; 32])).unwrap();
    let verifier = AllowList(vec![]);
    assert!(matches!(
        select_restore_record(&j, RestoreTarget::LastKnownGood, &verifier),
        Err(RestoreError::NoKnownGoodVersion)
    ));
}

#[test]
fn explicit_version_requires_journaled_record_and_valid_signature() {
    let mut j = ProvenanceJournal::new();
    j.append(record(5, [5; 32])).unwrap();

    assert!(matches!(
        select_restore_record(&j, RestoreTarget::Version(4), &AllowList(vec![4])),
        Err(RestoreError::NoJournaledRecord { version: 4 })
    ));

    assert!(matches!(
        select_restore_record(&j, RestoreTarget::Version(5), &AllowList(vec![])),
        Err(RestoreError::SignatureInvalid { version: 5 })
    ));

    let rec =
        select_restore_record(&j, RestoreTarget::Version(5), &AllowList(vec![5])).unwrap();
    assert_eq!(rec.version, 5);
}

#[test]
fn dataset_gate_accepts_matching_root() {
    let chunks = vec![b"a".to_vec(), b"b".to_vec(), b"c".to_vec()];
    let (attr, nodes) = dataset_for(&chunks);
    let refs: Vec<&[u8]> = chunks.iter().map(|c| c.as_slice()).collect();
    let ds = Dataset::from_owned(attr.clone(), nodes, refs);

    let rec = record(1, attr.root);
    assert!(verify_restored_dataset(&rec, &ds).is_ok());
}

#[test]
fn dataset_gate_rejects_root_mismatch() {
    let chunks = vec![b"a".to_vec(), b"b".to_vec()];
    let (attr, nodes) = dataset_for(&chunks);
    let refs: Vec<&[u8]> = chunks.iter().map(|c| c.as_slice()).collect();
    let ds = Dataset::from_owned(attr, nodes, refs);

    let rec = record(1, [0xEE; 32]);
    assert!(matches!(
        verify_restored_dataset(&rec, &ds),
        Err(RestoreError::RootMismatch { version: 1 })
    ));
}

#[test]
fn dataset_gate_rejects_tampered_data() {
    let chunks = vec![b"a".to_vec(), b"b".to_vec()];
    let (attr, nodes) = dataset_for(&chunks);
    let signed_root = attr.root;

    let tampered = [b"X".to_vec(), b"b".to_vec()];
    let refs: Vec<&[u8]> = tampered.iter().map(|c| c.as_slice()).collect();
    let ds = Dataset::from_owned(attr, nodes, refs);

    let rec = record(1, signed_root);
    assert!(matches!(
        verify_restored_dataset(&rec, &ds),
        Err(RestoreError::DatasetVerificationFailed { version: 1, .. })
    ));
}

#[test]
fn restore_to_version_runs_apply_only_after_signature_gate() {
    let mut j = ProvenanceJournal::new();
    j.append(record(1, [1; 32])).unwrap();
    j.append(record(2, [2; 32])).unwrap();

    let mut applied = false;
    let res = restore_to_version(&j, RestoreTarget::Version(2), &AllowList(vec![1]), |_r| {
        applied = true;
        Ok(())
    });
    assert!(matches!(
        res,
        Err(RestoreError::SignatureInvalid { version: 2 })
    ));
    assert!(!applied, "apply ran despite the signature gate failing");

    let mut applied_version = None;
    let v = restore_to_version(
        &j,
        RestoreTarget::LastKnownGood,
        &AllowList(vec![1, 2]),
        |r| {
            applied_version = Some(r.version);
            Ok(())
        },
    )
    .unwrap();
    assert_eq!(v, 2);
    assert_eq!(applied_version, Some(2));
}
