//! Trees, proofs, attributes, companions, responses and versions.

use clawhdf5::attr::{
    compute_chunk_grid_hash, CompanionVerifyResult, GridVerifyResult, MerkleAttr, MerkleAttrRef,
    MERKLE_ATTR_NAME, MERKLE_ATTR_SIZE, MERKLE_ATTR_VERSION_0,
};
use clawhdf5::companion::{
    write_merkle_attr, write_merkle_companion, MerkleCompanionResult, MerkleCompanionWriter,
    INLINE_CHUNK_THRESHOLD, MERKLE_NODES_ATTR_NAME,
};
use clawhdf5::dataset::{
    verify_chunk, verify_chunk_with_pending, verify_dataset, verify_root, Dataset,
};
use clawhdf5::digest::{
    compute_sha256, constant_time_eq, hash_chunk, HashAlg, HASH_SIZE, INTERNAL_PREFIX,
};
use clawhdf5::error::{InvalidAttrReason, MerkleError};
use clawhdf5::file_writer::FileWriter;
use clawhdf5::messages::{parse_layout, AttrValue, DataLayout, MessageType};
use clawhdf5::object_header::{ObjectHeader, Superblock};
use clawhdf5::reader::{find_attr, resolve_path};
use clawhdf5::response::{
    default_response, resolve_response, RecoveryAction, ResponsePolicy, SigningContext,
    VerifyResponse,
};
use clawhdf5::tree::{compute_depth, MerkleTree};
use clawhdf5::version::{
    pack_merkle_version, unpack_merkle_version, VersionObservationStore, MERKLE_VERSION_ATTR_SIZE,
};
use rayon::ThreadPoolBuilder;
use std::collections::BTreeSet;

fn make_test_chunks() -> Vec<Vec<u8>> {
    vec![
        b"chunk0".to_vec(),
        b"chunk1".to_vec(),
        b"chunk2".to_vec(),
        b"chunk3".to_vec(),
    ]
}

#[test]
fn test_different_algorithms_produce_different_roots() {
    let chunks = make_test_chunks();
    let refs: Vec<&[u8]> = chunks.iter().map(|c| c.as_slice()).collect();

    let tree_sha = MerkleTree::from_chunks(&refs, HashAlg::Sha256);
    let tree_blake = MerkleTree::from_chunks(&refs, HashAlg::Blake3);
    let tree_k12 = MerkleTree::from_chunks(&refs, HashAlg::K12);

    assert_ne!(tree_sha.root(), tree_blake.root());
    assert_ne!(tree_blake.root(), tree_k12.root());
    assert_ne!(tree_sha.root(), tree_k12.root());
}

#[test]
fn test_proof_generation_and_verification() {
    let chunks = make_test_chunks();
    let refs: Vec<&[u8]> = chunks.iter().map(|c| c.as_slice()).collect();

    let tree = MerkleTree::from_chunks(&refs, HashAlg::Blake3);

    for i in 0..chunks.len() {
        let proof = tree.inclusion_proof(i).expect("proof should exist");
        assert!(tree.verify_proof(i, &chunks[i], &proof));

        assert!(MerkleTree::verify_proof_standalone(
            tree.root(),
            i,
            &chunks[i],
            &proof
        ));
    }
}

#[test]
fn test_invalid_proof_fails() {
    let chunks = make_test_chunks();
    let refs: Vec<&[u8]> = chunks.iter().map(|c| c.as_slice()).collect();

    let tree = MerkleTree::from_chunks(&refs, HashAlg::Blake3);
    let proof = tree.inclusion_proof(0).unwrap();

    assert!(!tree.verify_proof(0, b"wrong_data", &proof));

    assert!(!tree.verify_proof(1, &chunks[0], &proof));
}

#[test]
fn test_non_power_of_two_leaves() {
    let chunks: Vec<Vec<u8>> = (0..5).map(|i| format!("chunk{}", i).into_bytes()).collect();
    let refs: Vec<&[u8]> = chunks.iter().map(|c| c.as_slice()).collect();

    let tree = MerkleTree::from_chunks(&refs, HashAlg::Blake3);

    assert_eq!(tree.leaf_count(), 5);
    assert_eq!(tree.padded_leaf_count(), 8);
    assert_eq!(tree.depth(), 4);

    for i in 0..5 {
        let proof = tree.inclusion_proof(i).expect("proof should exist");
        assert!(tree.verify_proof(i, &chunks[i], &proof));
    }

    assert!(tree.inclusion_proof(5).is_none());
}

#[test]
fn test_single_chunk() {
    let chunks = vec![b"single".to_vec()];
    let refs: Vec<&[u8]> = chunks.iter().map(|c| c.as_slice()).collect();

    let tree = MerkleTree::from_chunks(&refs, HashAlg::Blake3);

    assert_eq!(tree.leaf_count(), 1);
    assert_eq!(tree.padded_leaf_count(), 1);
    assert_eq!(tree.depth(), 1);

    let proof = tree.inclusion_proof(0).unwrap();
    assert!(tree.verify_proof(0, &chunks[0], &proof));
    assert!(proof.siblings().is_empty());
}

#[test]
fn test_empty_tree() {
    let alg = HashAlg::Blake3;
    let tree = MerkleTree::from_chunks(&[], alg);

    assert_eq!(tree.leaf_count(), 0);

    assert_eq!(tree.root(), &alg.null_sentinel());
    assert_eq!(tree.depth(), 1);
}

#[test]
fn test_deterministic() {
    let chunks = make_test_chunks();
    let refs: Vec<&[u8]> = chunks.iter().map(|c| c.as_slice()).collect();

    let tree1 = MerkleTree::from_chunks(&refs, HashAlg::Blake3);
    let tree2 = MerkleTree::from_chunks(&refs, HashAlg::Blake3);

    assert_eq!(tree1.root(), tree2.root());
    assert_eq!(tree1.nodes(), tree2.nodes());
}

#[test]
fn test_chunk_verification() {
    let chunks = make_test_chunks();
    let refs: Vec<&[u8]> = chunks.iter().map(|c| c.as_slice()).collect();

    let tree = MerkleTree::from_chunks(&refs, HashAlg::Blake3);

    for i in 0..chunks.len() {
        assert!(tree.verify_chunk(i, &chunks[i]));
    }

    assert!(!tree.verify_chunk(0, b"wrong"));
}

#[test]
fn test_update_leaf_changes_root_and_path() {
    let chunks = make_test_chunks();
    let refs: Vec<&[u8]> = chunks.iter().map(|c| c.as_slice()).collect();
    let mut tree = MerkleTree::from_chunks(&refs, HashAlg::Blake3);
    let original_root = *tree.root();

    let new_hash = HashAlg::Blake3.hash_leaf(b"replacement");
    tree.update_leaf(0, new_hash).unwrap();
    assert_ne!(
        tree.root(),
        &original_root,
        "root must change after leaf update"
    );

    assert!(!tree.verify_chunk(0, &chunks[0]));

    let original_hash = HashAlg::Blake3.hash_leaf(&chunks[0]);
    tree.update_leaf(0, original_hash).unwrap();
    assert_eq!(
        tree.root(),
        &original_root,
        "root must be restored after reverting leaf"
    );
}

#[test]
fn test_update_leaf_out_of_bounds() {
    let chunks: Vec<Vec<u8>> = vec![b"a".to_vec(), b"b".to_vec()];
    let refs: Vec<&[u8]> = chunks.iter().map(|c| c.as_slice()).collect();
    let mut tree = MerkleTree::from_chunks(&refs, HashAlg::Sha256);
    let result = tree.update_leaf(999, [0u8; 32]);
    assert!(matches!(
        result,
        Err(MerkleError::HyperslabOutOfBounds { idx: 999 })
    ));
}

#[test]
fn test_domain_separation() {
    let alg = HashAlg::Blake3;

    let data = b"test data";
    let leaf_hash = alg.hash_leaf(data);

    let internal_hash = alg.hash_pair(&[0u8; HASH_SIZE], &[0u8; HASH_SIZE]);

    assert_ne!(leaf_hash, internal_hash);
}

#[test]
fn test_constant_time_eq() {
    let a = [1u8; HASH_SIZE];
    let b = [1u8; HASH_SIZE];
    let c = [2u8; HASH_SIZE];

    assert!(constant_time_eq(&a, &b));
    assert!(!constant_time_eq(&a, &c));

    let mut d = a;
    d[HASH_SIZE - 1] = 2;
    assert!(!constant_time_eq(&a, &d));
}

#[test]
fn test_proof_length_validation() {
    let chunks = make_test_chunks();
    let refs: Vec<&[u8]> = chunks.iter().map(|c| c.as_slice()).collect();

    let tree = MerkleTree::from_chunks(&refs, HashAlg::Blake3);
    let mut proof = tree.inclusion_proof(0).unwrap();

    proof.siblings.push([0u8; HASH_SIZE]);

    assert!(!tree.verify_proof(0, &chunks[0], &proof));
}

#[test]
fn test_default_algorithm() {
    assert_eq!(HashAlg::default(), HashAlg::Blake3);
}

#[test]
fn test_null_sentinel_domain_separation() {
    let alg = HashAlg::Blake3;

    let leaf_hash = alg.hash_leaf(b"null");
    let null_sentinel = alg.null_sentinel();

    assert_ne!(leaf_hash, null_sentinel);

    let internal_hash = alg.hash_pair(&[0u8; HASH_SIZE], &[0u8; HASH_SIZE]);
    assert_ne!(null_sentinel, internal_hash);
}

#[test]
fn test_build_method_success() {
    let alg = HashAlg::Blake3;
    let chunks = make_test_chunks();

    let leaf_hashes: Vec<[u8; HASH_SIZE]> = chunks.iter().map(|c| alg.hash_leaf(c)).collect();

    let tree = MerkleTree::build(&leaf_hashes, alg).expect("build should succeed");

    assert_eq!(tree.leaf_count(), 4);
    assert_eq!(tree.padded_leaf_count(), 4);
    assert_eq!(tree.depth(), 3);

    for i in 0..chunks.len() {
        let proof = tree.inclusion_proof(i).expect("proof should exist");
        assert!(tree.verify_proof(i, &chunks[i], &proof));
    }
}

#[test]
fn test_build_method_non_power_of_two() {
    let alg = HashAlg::Blake3;

    let chunks: Vec<Vec<u8>> = (0..5).map(|i| format!("chunk{}", i).into_bytes()).collect();

    let leaf_hashes: Vec<[u8; HASH_SIZE]> = chunks.iter().map(|c| alg.hash_leaf(c)).collect();

    let tree = MerkleTree::build(&leaf_hashes, alg).expect("build should succeed");

    assert_eq!(tree.leaf_count(), 5);
    assert_eq!(tree.padded_leaf_count(), 8);
    assert_eq!(tree.depth(), 4);

    let null_sentinel = alg.null_sentinel();
    let internal_nodes = tree.padded_leaf_count() - 1;

    for i in 5..8 {
        assert_eq!(tree.nodes()[internal_nodes + i], null_sentinel);
    }
}

#[test]
fn test_three_leaf_tree_manual_verification() {
    let alg = HashAlg::Blake3;

    let leaf0 = hash_chunk(b"leaf A", alg);
    let leaf1 = hash_chunk(b"leaf B", alg);
    let leaf2 = hash_chunk(b"leaf C", alg);
    let null_sentinel = alg.null_sentinel();

    let tree = MerkleTree::build(&[leaf0, leaf1, leaf2], alg).expect("build should succeed");

    assert_eq!(tree.leaf_count(), 3);
    assert_eq!(tree.padded_leaf_count(), 4);
    assert_eq!(tree.depth(), 3);

    let mut combined = [0u8; 65];
    combined[0] = INTERNAL_PREFIX;
    combined[1..33].copy_from_slice(&leaf0);
    combined[33..65].copy_from_slice(&leaf1);
    let n1: [u8; 32] = blake3::hash(&combined).into();

    combined[1..33].copy_from_slice(&leaf2);
    combined[33..65].copy_from_slice(&null_sentinel);
    let n2: [u8; 32] = blake3::hash(&combined).into();

    combined[1..33].copy_from_slice(&n1);
    combined[33..65].copy_from_slice(&n2);
    let expected_root: [u8; 32] = blake3::hash(&combined).into();

    assert_eq!(tree.root(), &expected_root, "3-leaf tree root mismatch");

    let internal_nodes = tree.padded_leaf_count() - 1;
    assert_eq!(
        tree.nodes()[internal_nodes + 3],
        null_sentinel,
        "Padding slot should contain null sentinel"
    );

    for i in 0..3 {
        let proof = tree.inclusion_proof(i).expect("proof should exist");
        let chunk = match i {
            0 => b"leaf A".as_slice(),
            1 => b"leaf B".as_slice(),
            2 => b"leaf C".as_slice(),
            _ => unreachable!(),
        };
        assert!(
            tree.verify_proof(i, chunk, &proof),
            "Proof verification failed for leaf {}",
            i
        );
    }
}

#[test]
fn test_build_empty() {
    let alg = HashAlg::Blake3;
    let tree = MerkleTree::build(&[], alg).expect("build should succeed");

    assert_eq!(tree.leaf_count(), 0);
    assert_eq!(tree.root(), &alg.null_sentinel());
}

#[test]
fn test_build_and_from_leaf_hashes_equivalent() {
    let alg = HashAlg::Blake3;
    let chunks = make_test_chunks();

    let leaf_hashes: Vec<[u8; HASH_SIZE]> = chunks.iter().map(|c| alg.hash_leaf(c)).collect();

    let tree_build = MerkleTree::build(&leaf_hashes, alg).expect("build should succeed");
    let tree_from_leaf = MerkleTree::from_leaf_hashes(&leaf_hashes, alg);

    assert_eq!(tree_build.root(), tree_from_leaf.root());
    assert_eq!(tree_build.nodes(), tree_from_leaf.nodes());
}

#[test]
fn test_merkle_error_display() {
    let err = MerkleError::TreeTooDeep { depth: 50 };
    let msg = err.message();
    assert!(msg.contains("50"));
    assert!(msg.contains("40"));
}

#[test]
fn test_default_response_returns_halt_for_all_variants() {
    let errors: Vec<MerkleError> = vec![
        MerkleError::HashMismatch { chunk_idx: 0 },
        MerkleError::CompanionTampered,
        MerkleError::SignatureInvalid,
        MerkleError::MissingChunkGridMetadata,
        MerkleError::HyperslabOutOfBounds { idx: 0 },
        MerkleError::TreeTooDeep { depth: 50 },
        MerkleError::NoncePending,
        MerkleError::InvalidAttribute {
            reason: InvalidAttrReason::WrongSize,
        },
        MerkleError::SelectionMismatch,
        MerkleError::VersionRollback {
            observed: 1,
            highest_seen: 2,
        },
        MerkleError::JournalCorrupt,
        MerkleError::JournalUnsupportedVersion { found: 0xFF },
        MerkleError::JournalNonMonotonic {
            appended: 1,
            last: 2,
        },
    ];

    for err in &errors {
        assert_eq!(
            default_response(err),
            VerifyResponse::Halt,
            "{:?} should return Halt",
            err
        );
    }
}

#[test]
fn test_verify_response_default_is_halt() {
    assert_eq!(VerifyResponse::default(), VerifyResponse::Halt);
}

#[test]
fn resolve_response_follows_policy_for_content_inconsistency_errors() {
    let content_errors = [
        MerkleError::HashMismatch { chunk_idx: 7 },
        MerkleError::CompanionTampered,
        MerkleError::SignatureInvalid,
    ];
    let cases = [
        (ResponsePolicy::Halt, VerifyResponse::Halt),
        (ResponsePolicy::Quarantine, VerifyResponse::Quarantine),
        (ResponsePolicy::AlertAndContinue, VerifyResponse::Alert),
    ];

    for err in &content_errors {
        for (policy, expected) in &cases {
            let resolved = resolve_response(err, *policy, SigningContext::Signed);
            assert_eq!(
                resolved.response, *expected,
                "{err:?} under {policy:?} should resolve to {expected:?}"
            );
        }
    }
}

#[test]
fn resolve_response_signed_never_offers_rebuild() {
    for err in [
        MerkleError::HashMismatch { chunk_idx: 0 },
        MerkleError::CompanionTampered,
        MerkleError::SignatureInvalid,
    ] {
        for policy in [
            ResponsePolicy::Halt,
            ResponsePolicy::Quarantine,
            ResponsePolicy::AlertAndContinue,
        ] {
            let resolved = resolve_response(&err, policy, SigningContext::Signed);
            assert_eq!(resolved.recovery, RecoveryAction::NoRecovery);
        }
    }
}

#[test]
fn resolve_response_unsigned_offers_rebuild_by_rehash() {
    for err in [
        MerkleError::HashMismatch { chunk_idx: 0 },
        MerkleError::CompanionTampered,
    ] {
        let resolved = resolve_response(&err, ResponsePolicy::Halt, SigningContext::Unsigned);
        assert_eq!(resolved.recovery, RecoveryAction::RebuildByRehash);
    }
}

#[test]
fn resolve_response_ignores_policy_and_signing_outside_content_inconsistency() {
    let other_errors = [
        MerkleError::MissingChunkGridMetadata,
        MerkleError::HyperslabOutOfBounds { idx: 3 },
        MerkleError::TreeTooDeep { depth: 50 },
        MerkleError::NoncePending,
        MerkleError::InvalidAttribute {
            reason: InvalidAttrReason::WrongSize,
        },
        MerkleError::SelectionMismatch,
        MerkleError::VersionRollback {
            observed: 1,
            highest_seen: 2,
        },
        MerkleError::JournalCorrupt,
        MerkleError::JournalUnsupportedVersion { found: 0xFF },
        MerkleError::JournalNonMonotonic {
            appended: 1,
            last: 2,
        },
    ];

    for err in &other_errors {
        for policy in [
            ResponsePolicy::Halt,
            ResponsePolicy::Quarantine,
            ResponsePolicy::AlertAndContinue,
        ] {
            for signing in [SigningContext::Signed, SigningContext::Unsigned] {
                let resolved = resolve_response(err, policy, signing);
                assert_eq!(resolved.response, VerifyResponse::Halt);
                assert_eq!(resolved.recovery, RecoveryAction::NoRecovery);
            }
        }
    }
}

#[test]
fn response_policy_default_is_halt() {
    assert_eq!(ResponsePolicy::default(), ResponsePolicy::Halt);
}

#[test]
fn test_verification_api_error_variants_regression() {
    let verification_api_errors: [(MerkleError, &str); 5] = [
        (
            MerkleError::HashMismatch { chunk_idx: 512 },
            "verify_chunk/verify_dataset: tampered chunk data",
        ),
        (
            MerkleError::CompanionTampered,
            "verify_root: tampered companion dataset",
        ),
        (
            MerkleError::NoncePending,
            "verify_chunk/extend/update: WAL uncommitted entry",
        ),
        (
            MerkleError::HyperslabOutOfBounds { idx: 1024 },
            "verify_chunk/extend/update: invalid chunk index",
        ),
        (
            MerkleError::MissingChunkGridMetadata,
            "all verify functions: no Merkle metadata",
        ),
    ];

    for (error, context) in &verification_api_errors {
        assert_eq!(
            default_response(error),
            VerifyResponse::Halt,
            "{}: {:?} should return Halt",
            context,
            error
        );
    }

    assert_eq!(
        verification_api_errors.len(),
        5,
        "Expected exactly 5 verification API error variants"
    );
}

#[test]
fn test_compute_depth() {
    assert_eq!(compute_depth(1), 1);
    assert_eq!(compute_depth(2), 2);
    assert_eq!(compute_depth(4), 3);
    assert_eq!(compute_depth(8), 4);
    assert_eq!(compute_depth(16), 5);
    assert_eq!(compute_depth(1024), 11);
}

#[test]
fn test_hash_chunk_equivalent_to_hash_leaf() {
    let data = b"test chunk data for hashing";

    let from_helper = hash_chunk(data, HashAlg::Blake3);
    let from_method = HashAlg::Blake3.hash_leaf(data);

    assert_eq!(from_helper, from_method);
}

#[test]
fn test_hash_chunk_all_algorithms() {
    let data = b"chunk data for all algorithms";

    let sha256_hash = hash_chunk(data, HashAlg::Sha256);
    let blake3_hash = hash_chunk(data, HashAlg::Blake3);
    let k12_hash = hash_chunk(data, HashAlg::K12);

    assert_ne!(sha256_hash, blake3_hash);
    assert_ne!(blake3_hash, k12_hash);
    assert_ne!(sha256_hash, k12_hash);

    assert_eq!(hash_chunk(data, HashAlg::Sha256), sha256_hash);
    assert_eq!(hash_chunk(data, HashAlg::Blake3), blake3_hash);
    assert_eq!(hash_chunk(data, HashAlg::K12), k12_hash);
}

#[test]
fn test_hash_chunk_domain_separation() {
    let data = b"some data";

    let leaf_hash = hash_chunk(data, HashAlg::Blake3);
    let raw_hash: [u8; HASH_SIZE] = blake3::hash(data).into();

    assert_ne!(leaf_hash, raw_hash);
}

#[test]
fn test_single_leaf_root_equals_leaf_hash() {
    let alg = HashAlg::Blake3;

    let leaf_data = b"single leaf data";
    let leaf_hash = alg.hash_leaf(leaf_data);

    let tree = MerkleTree::build(&[leaf_hash], alg).expect("build should succeed");

    assert_eq!(
        tree.root(),
        &leaf_hash,
        "Single-leaf tree root must equal the leaf hash"
    );

    assert_eq!(tree.leaf_count(), 1);
    assert_eq!(tree.padded_leaf_count(), 1);
    assert_eq!(tree.depth(), 1);
}

#[test]
fn test_two_leaf_tree_manual_verification() {
    let alg = HashAlg::Blake3;

    let leaf0 = alg.hash_leaf(b"leaf zero");
    let leaf1 = alg.hash_leaf(b"leaf one");

    let tree = MerkleTree::build(&[leaf0, leaf1], alg).expect("build should succeed");

    let mut combined = [0u8; 1 + HASH_SIZE * 2];
    combined[0] = INTERNAL_PREFIX;
    combined[1..HASH_SIZE + 1].copy_from_slice(&leaf0);
    combined[HASH_SIZE + 1..].copy_from_slice(&leaf1);
    let expected_root: [u8; HASH_SIZE] = blake3::hash(&combined).into();

    assert_eq!(
        tree.root(),
        &expected_root,
        "Two-leaf tree root must equal H(0x01 || leaf0 || leaf1)"
    );

    assert_eq!(tree.leaf_count(), 2);
    assert_eq!(tree.padded_leaf_count(), 2);
    assert_eq!(tree.depth(), 2);
}

#[test]
fn test_eight_leaf_tree_reference_computation() {
    let alg = HashAlg::Blake3;

    let leaves: Vec<[u8; HASH_SIZE]> = (0u8..8).map(|i| alg.hash_leaf(&[b'L', i])).collect();

    let tree = MerkleTree::build(&leaves, alg).expect("build should succeed");

    let hash_pair_ref = |left: &[u8; HASH_SIZE], right: &[u8; HASH_SIZE]| -> [u8; HASH_SIZE] {
        let mut combined = [0u8; 1 + HASH_SIZE * 2];
        combined[0] = INTERNAL_PREFIX;
        combined[1..HASH_SIZE + 1].copy_from_slice(left);
        combined[HASH_SIZE + 1..].copy_from_slice(right);
        blake3::hash(&combined).into()
    };

    let n3 = hash_pair_ref(&leaves[0], &leaves[1]);
    let n4 = hash_pair_ref(&leaves[2], &leaves[3]);
    let n5 = hash_pair_ref(&leaves[4], &leaves[5]);
    let n6 = hash_pair_ref(&leaves[6], &leaves[7]);

    let n1 = hash_pair_ref(&n3, &n4);
    let n2 = hash_pair_ref(&n5, &n6);

    let expected_root = hash_pair_ref(&n1, &n2);

    assert_eq!(
        tree.root(),
        &expected_root,
        "Eight-leaf tree root must match reference computation"
    );

    assert_eq!(tree.leaf_count(), 8);
    assert_eq!(tree.padded_leaf_count(), 8);
    assert_eq!(tree.depth(), 4);

    for i in 0..8 {
        let proof = tree.inclusion_proof(i).expect("proof should exist");

        let chunk_data = [b'L', i as u8];
        assert!(
            tree.verify_proof(i, &chunk_data, &proof),
            "Proof for leaf {} should verify",
            i
        );
    }
}

#[test]
fn test_algorithm_id_roundtrip() {
    assert_eq!(
        HashAlg::from_id(HashAlg::Sha256.to_id()),
        Some(HashAlg::Sha256)
    );
    assert_eq!(
        HashAlg::from_id(HashAlg::Blake3.to_id()),
        Some(HashAlg::Blake3)
    );
    assert_eq!(HashAlg::from_id(HashAlg::K12.to_id()), Some(HashAlg::K12));
    assert_eq!(HashAlg::from_id(0xFF), None);
}

#[test]
fn test_merkle_attr_pack_unpack() {
    let chunks = make_test_chunks();
    let refs: Vec<&[u8]> = chunks.iter().map(|c| c.as_slice()).collect();
    let tree = MerkleTree::from_chunks(&refs, HashAlg::Blake3);

    let attr = MerkleAttr::from_tree(&tree);
    let packed = attr.pack();

    assert_eq!(packed.len(), MERKLE_ATTR_SIZE);
    assert_eq!(packed.len(), 129);

    let unpacked = MerkleAttr::unpack(&packed).expect("unpack should succeed");
    assert_eq!(unpacked.root, attr.root);
    assert_eq!(unpacked.algorithm, attr.algorithm);
    assert_eq!(unpacked.integrity, attr.integrity);
    assert_eq!(unpacked.companion_hash, [0u8; HASH_SIZE]);
    assert!(!unpacked.has_companion());
    assert_eq!(unpacked.grid_hash, [0u8; HASH_SIZE]);
    assert!(!unpacked.has_grid_hash());
}

#[test]
fn test_merkle_attr_integrity_verification() {
    let chunks = make_test_chunks();
    let refs: Vec<&[u8]> = chunks.iter().map(|c| c.as_slice()).collect();
    let tree = MerkleTree::from_chunks(&refs, HashAlg::Blake3);

    let attr = MerkleAttr::from_tree(&tree);
    let mut packed = attr.pack();

    packed[HASH_SIZE] = 0x00;

    assert!(
        MerkleAttr::unpack(&packed).is_err(),
        "Tampered algorithm ID should fail integrity check"
    );
}

#[test]
fn test_merkle_attr_root_tampering_detected() {
    let chunks = make_test_chunks();
    let refs: Vec<&[u8]> = chunks.iter().map(|c| c.as_slice()).collect();
    let tree = MerkleTree::from_chunks(&refs, HashAlg::Blake3);

    let attr = MerkleAttr::from_tree(&tree);
    let mut packed = attr.pack();

    packed[0] ^= 0xFF;

    assert!(
        MerkleAttr::unpack(&packed).is_err(),
        "Tampered root hash should fail integrity check"
    );
}

#[test]
fn test_merkle_attr_verify_tree() {
    let chunks = make_test_chunks();
    let refs: Vec<&[u8]> = chunks.iter().map(|c| c.as_slice()).collect();
    let tree = MerkleTree::from_chunks(&refs, HashAlg::Blake3);

    let attr = MerkleAttr::from_tree(&tree);

    assert!(attr.verify_tree(&tree));

    let other_chunks = vec![b"different".to_vec()];
    let other_refs: Vec<&[u8]> = other_chunks.iter().map(|c| c.as_slice()).collect();
    let other_tree = MerkleTree::from_chunks(&other_refs, HashAlg::Blake3);
    assert!(!attr.verify_tree(&other_tree));
}

#[test]
fn test_merkle_attr_invalid_size() {
    assert!(MerkleAttr::unpack(&[0u8; 128]).is_err());

    assert!(MerkleAttr::unpack(&[0u8; 130]).is_err());

    assert!(MerkleAttr::unpack(&[]).is_err());
}

#[test]
fn test_write_merkle_attr() {
    let chunks = make_test_chunks();
    let refs: Vec<&[u8]> = chunks.iter().map(|c| c.as_slice()).collect();
    let tree = MerkleTree::from_chunks(&refs, HashAlg::Blake3);

    let mut fw = FileWriter::new();
    let ds = fw.create_dataset("data");
    ds.with_u8_data(&[1, 2, 3, 4]);

    write_merkle_attr(ds, &tree).expect("write_merkle_attr should succeed");

    let bytes = fw.finish().expect("file should build");
    assert!(!bytes.is_empty());
}

#[test]
fn test_write_merkle_attr_binds_grid_hash_when_shape_and_chunks_set() {
    let chunks = make_test_chunks();
    let refs: Vec<&[u8]> = chunks.iter().map(|c| c.as_slice()).collect();
    let tree = MerkleTree::from_chunks(&refs, HashAlg::Blake3);

    let mut fw = FileWriter::new();
    let ds = fw.create_dataset("data");
    ds.with_u8_data(&[1, 2, 3, 4, 5, 6, 7, 8]);
    ds.with_chunks(&[4]);

    write_merkle_attr(ds, &tree).expect("write_merkle_attr should succeed");

    let (_, packed_value) = ds
        .attrs
        .iter()
        .find(|(name, _)| name == MERKLE_ATTR_NAME)
        .expect("merkle_root attribute should be set");
    let AttrValue::Bytes(packed) = packed_value else {
        panic!("expected Bytes attribute value");
    };
    let attr = MerkleAttr::unpack(packed).expect("attribute should unpack");

    let expected_grid_hash = compute_chunk_grid_hash(&[8], &[4], HashAlg::Blake3);
    assert_ne!(
        expected_grid_hash,
        [0u8; HASH_SIZE],
        "sanity: real grid hash should not itself be the all-zero sentinel"
    );
    assert_eq!(
        attr.grid_hash, expected_grid_hash,
        "write_merkle_attr should derive grid_hash from the dataset's own \
         shape/chunk_dims once both are set"
    );
    assert!(attr.has_grid_hash());
}

#[test]
fn test_write_merkle_attr_leaves_grid_hash_unbound_without_chunks() {
    let chunks = make_test_chunks();
    let refs: Vec<&[u8]> = chunks.iter().map(|c| c.as_slice()).collect();
    let tree = MerkleTree::from_chunks(&refs, HashAlg::Blake3);

    let mut fw = FileWriter::new();
    let ds = fw.create_dataset("data");
    ds.with_u8_data(&[1, 2, 3, 4]);

    write_merkle_attr(ds, &tree).expect("write_merkle_attr should succeed");

    let (_, packed_value) = ds
        .attrs
        .iter()
        .find(|(name, _)| name == MERKLE_ATTR_NAME)
        .expect("merkle_root attribute should be set");
    let AttrValue::Bytes(packed) = packed_value else {
        panic!("expected Bytes attribute value");
    };
    let attr = MerkleAttr::unpack(packed).expect("attribute should unpack");

    assert!(!attr.has_grid_hash());
    assert_eq!(attr.grid_hash, [0u8; HASH_SIZE]);
}

#[test]
fn test_write_merkle_companion_inline() {
    let chunks: Vec<Vec<u8>> = (0..10).map(|i| vec![i as u8; 64]).collect();
    let refs: Vec<&[u8]> = chunks.iter().map(|c| c.as_slice()).collect();
    let tree = MerkleTree::from_chunks(&refs, HashAlg::Blake3);

    let mut fw = FileWriter::new();

    let result = write_merkle_companion(&mut fw, "small_data", &tree)
        .expect("write_merkle_companion should succeed");

    match result {
        MerkleCompanionResult::Inline {
            nodes,
            companion_hash,
        } => {
            assert_eq!(nodes.len(), 31 * HASH_SIZE);

            let expected_hash = compute_sha256(&nodes);
            assert_eq!(companion_hash, expected_hash);

            let ds = fw.create_dataset("small_data");
            ds.with_u8_data(&[1, 2, 3, 4]);
            ds.set_attr(MERKLE_NODES_ATTR_NAME, AttrValue::Bytes(nodes));
        }
        MerkleCompanionResult::Dataset { .. } => {
            panic!("Expected Inline result for small tree");
        }
    }

    let bytes = fw.finish().expect("file should build");
    assert!(!bytes.is_empty());

    assert_eq!(tree.padded_leaf_count(), 16);
    assert_eq!(tree.nodes().len(), 31);
}

#[test]
fn test_write_merkle_companion_dataset() {
    let chunks: Vec<Vec<u8>> = (0..300).map(|i| vec![(i % 256) as u8; 64]).collect();
    let refs: Vec<&[u8]> = chunks.iter().map(|c| c.as_slice()).collect();
    let tree = MerkleTree::from_chunks(&refs, HashAlg::Blake3);

    let mut fw = FileWriter::new();

    let ds = fw.create_dataset("large_data");
    ds.with_u8_data(&[1, 2, 3, 4]);

    let result = write_merkle_companion(&mut fw, "large_data", &tree)
        .expect("write_merkle_companion should succeed");

    match result {
        MerkleCompanionResult::Dataset { companion_hash } => {
            assert_ne!(companion_hash, [0u8; HASH_SIZE]);
        }
        MerkleCompanionResult::Inline { .. } => {
            panic!("Expected Dataset result for large tree");
        }
    }

    let bytes = fw.finish().expect("file should build");
    assert!(!bytes.is_empty());

    assert_eq!(tree.padded_leaf_count(), 512);
    assert_eq!(tree.nodes().len(), 1023);
}

#[test]
fn test_write_merkle_companion_threshold_boundary() {
    let chunks: Vec<Vec<u8>> = (0..256).map(|i| vec![(i % 256) as u8; 32]).collect();
    let refs: Vec<&[u8]> = chunks.iter().map(|c| c.as_slice()).collect();
    let tree = MerkleTree::from_chunks(&refs, HashAlg::Blake3);

    assert_eq!(tree.leaf_count(), 256);

    let mut fw = FileWriter::new();

    let result = write_merkle_companion(&mut fw, "boundary_data", &tree)
        .expect("write_merkle_companion should succeed");

    match result {
        MerkleCompanionResult::Inline {
            nodes,
            companion_hash,
        } => {
            assert_eq!(nodes.len(), 511 * HASH_SIZE);
            assert_ne!(companion_hash, [0u8; HASH_SIZE]);
        }
        MerkleCompanionResult::Dataset { .. } => {
            panic!("Expected Inline result at threshold");
        }
    }

    let ds = fw.create_dataset("boundary_data");
    ds.with_u8_data(&[1, 2, 3, 4]);

    let bytes = fw.finish().expect("file should build");
    assert!(!bytes.is_empty());

    assert_eq!(tree.padded_leaf_count(), 256);
    assert_eq!(tree.nodes().len(), 511);
}

#[test]
fn test_write_merkle_companion_just_over_threshold() {
    let chunks: Vec<Vec<u8>> = (0..257).map(|i| vec![(i % 256) as u8; 32]).collect();
    let refs: Vec<&[u8]> = chunks.iter().map(|c| c.as_slice()).collect();
    let tree = MerkleTree::from_chunks(&refs, HashAlg::Blake3);

    assert_eq!(tree.leaf_count(), 257);

    let mut fw = FileWriter::new();

    let result = write_merkle_companion(&mut fw, "over_threshold", &tree)
        .expect("write_merkle_companion should succeed");

    match result {
        MerkleCompanionResult::Dataset { companion_hash } => {
            assert_ne!(companion_hash, [0u8; HASH_SIZE]);
        }
        MerkleCompanionResult::Inline { .. } => {
            panic!("Expected Dataset result for large tree");
        }
    }

    let ds = fw.create_dataset("over_threshold");
    ds.with_u8_data(&[1, 2, 3, 4]);

    let bytes = fw.finish().expect("file should build");
    assert!(!bytes.is_empty());

    assert_eq!(tree.padded_leaf_count(), 512);
    assert_eq!(tree.nodes().len(), 1023);
}

#[test]
fn test_merkle_companion_writer_multi_dataset() {
    let chunks1: Vec<Vec<u8>> = (0..300).map(|i| vec![(i % 256) as u8; 64]).collect();
    let refs1: Vec<&[u8]> = chunks1.iter().map(|c| c.as_slice()).collect();
    let tree1 = MerkleTree::from_chunks(&refs1, HashAlg::Blake3);

    let chunks2: Vec<Vec<u8>> = (0..400).map(|i| vec![((i + 50) % 256) as u8; 64]).collect();
    let refs2: Vec<&[u8]> = chunks2.iter().map(|c| c.as_slice()).collect();
    let tree2 = MerkleTree::from_chunks(&refs2, HashAlg::Blake3);

    assert!(tree1.leaf_count() > INLINE_CHUNK_THRESHOLD);
    assert!(tree2.leaf_count() > INLINE_CHUNK_THRESHOLD);

    let mut fw = FileWriter::new();
    let mut companion_writer = MerkleCompanionWriter::new();

    let result1 = companion_writer.add("dataset1", &tree1);
    let result2 = companion_writer.add("dataset2", &tree2);

    match result1 {
        MerkleCompanionResult::Dataset { companion_hash } => {
            assert_ne!(companion_hash, [0u8; HASH_SIZE]);
        }
        MerkleCompanionResult::Inline { .. } => {
            panic!("Expected Dataset result for large tree1");
        }
    }

    match result2 {
        MerkleCompanionResult::Dataset { companion_hash } => {
            assert_ne!(companion_hash, [0u8; HASH_SIZE]);
        }
        MerkleCompanionResult::Inline { .. } => {
            panic!("Expected Dataset result for large tree2");
        }
    }

    assert!(companion_writer.has_pending());
    assert_eq!(companion_writer.pending_count(), 2);

    let ds1 = fw.create_dataset("dataset1");
    ds1.with_u8_data(&[1, 2, 3, 4]);
    let ds2 = fw.create_dataset("dataset2");
    ds2.with_u8_data(&[5, 6, 7, 8]);

    companion_writer.finish(&mut fw);

    let bytes = fw.finish().expect("file should build");
    assert!(!bytes.is_empty());
}

#[test]
fn test_merkle_attr_with_companion_hash() {
    let chunks = make_test_chunks();
    let refs: Vec<&[u8]> = chunks.iter().map(|c| c.as_slice()).collect();
    let tree = MerkleTree::from_chunks(&refs, HashAlg::Blake3);

    let companion_hash = compute_sha256(b"test companion data");

    let attr = MerkleAttr::from_tree_with_companion(&tree, companion_hash);

    let packed = attr.pack();
    assert_eq!(packed.len(), MERKLE_ATTR_SIZE);

    let unpacked = MerkleAttr::unpack(&packed).expect("unpack should succeed");
    assert_eq!(unpacked.root, attr.root);
    assert_eq!(unpacked.algorithm, attr.algorithm);
    assert_eq!(unpacked.companion_hash, companion_hash);
    assert!(unpacked.has_companion());
}

#[test]
fn test_merkle_attr_with_companion_and_grid_hash() {
    let chunks = make_test_chunks();
    let refs: Vec<&[u8]> = chunks.iter().map(|c| c.as_slice()).collect();
    let tree = MerkleTree::from_chunks(&refs, HashAlg::Blake3);

    let companion_hash = compute_sha256(b"test companion data");
    let dims = vec![10u64, 20u64];
    let chunk_shape = vec![2u64, 4u64];
    let grid_hash = compute_chunk_grid_hash(&dims, &chunk_shape, tree.algorithm());

    let attr =
        MerkleAttr::from_tree_with_companion_and_grid(&tree, companion_hash, grid_hash);

    let packed = attr.pack();
    assert_eq!(packed.len(), MERKLE_ATTR_SIZE);

    let unpacked = MerkleAttr::unpack(&packed).expect("unpack should succeed");
    assert_eq!(unpacked.root, attr.root);
    assert_eq!(unpacked.companion_hash, companion_hash);
    assert_eq!(unpacked.grid_hash, grid_hash);
    assert!(unpacked.has_grid_hash());

    assert_eq!(
        unpacked.verify_grid(&dims, &chunk_shape),
        GridVerifyResult::Valid
    );

    let tampered_dims = vec![99u64, 20u64];
    assert_eq!(
        unpacked.verify_grid(&tampered_dims, &chunk_shape),
        GridVerifyResult::HashMismatch
    );

    let no_grid_attr = MerkleAttr::from_tree(&tree);
    assert_eq!(
        no_grid_attr.verify_grid(&dims, &chunk_shape),
        GridVerifyResult::NoGrid
    );

    let attr_ref = MerkleAttrRef::from_slice(&packed).expect("should parse");
    assert!(attr_ref.has_grid_hash());
    assert_eq!(
        attr_ref.verify_grid(&dims, &chunk_shape).unwrap(),
        GridVerifyResult::Valid
    );
    assert_eq!(
        attr_ref.verify_grid(&tampered_dims, &chunk_shape).unwrap(),
        GridVerifyResult::HashMismatch
    );
}

#[test]
fn test_merkle_attr_verify_companion() {
    let chunks = make_test_chunks();
    let refs: Vec<&[u8]> = chunks.iter().map(|c| c.as_slice()).collect();
    let tree = MerkleTree::from_chunks(&refs, HashAlg::Blake3);

    let nodes = tree.nodes();
    let mut flat_nodes = Vec::new();
    for node in nodes {
        flat_nodes.extend_from_slice(node);
    }

    let companion_hash = compute_sha256(&flat_nodes);
    let attr = MerkleAttr::from_tree_with_companion(&tree, companion_hash);

    assert_eq!(
        attr.verify_companion(&flat_nodes),
        CompanionVerifyResult::Valid
    );

    let mut tampered = flat_nodes.clone();
    tampered[0] ^= 0xFF;
    assert_eq!(
        attr.verify_companion(&tampered),
        CompanionVerifyResult::HashMismatch
    );
}

#[test]
fn test_merkle_roundtrip_1024_chunks() {
    let chunks: Vec<Vec<u8>> = (0..1024)
        .map(|i| {
            let mut chunk = vec![0u8; 64];

            for (j, byte) in chunk.iter_mut().enumerate() {
                *byte = ((i + j) % 256) as u8;
            }
            chunk
        })
        .collect();

    let refs: Vec<&[u8]> = chunks.iter().map(|c| c.as_slice()).collect();
    let tree = MerkleTree::from_chunks(&refs, HashAlg::Blake3);

    assert_eq!(tree.leaf_count(), 1024);
    assert!(tree.leaf_count() > INLINE_CHUNK_THRESHOLD);

    let mut fw = FileWriter::new();

    let result = write_merkle_companion(&mut fw, "sensor_data", &tree)
        .expect("write_merkle_companion should succeed");

    let companion_hash = match &result {
        MerkleCompanionResult::Dataset { companion_hash } => *companion_hash,
        MerkleCompanionResult::Inline { .. } => {
            panic!("Expected Dataset result for 1024 chunks");
        }
    };

    let ds = fw.create_dataset("sensor_data");

    let all_data: Vec<u8> = chunks.iter().flatten().copied().collect();
    ds.with_u8_data(&all_data);

    let attr = MerkleAttr::from_tree_with_companion(&tree, companion_hash);
    ds.set_attr(MERKLE_ATTR_NAME, AttrValue::Bytes(attr.pack().to_vec()));

    let file_bytes = fw.finish().expect("file should build");
    assert!(!file_bytes.is_empty());

    let sb = Superblock::parse(&file_bytes).expect("superblock parse failed");
    let data_addr = resolve_path(&file_bytes, sb.root_group_address, b"sensor_data")
        .expect("sensor_data not found");
    let data_hdr =
        ObjectHeader::parse(&file_bytes, data_addr as usize).expect("dataset header parse failed");
    let merkle_attr = find_attr(&data_hdr, MERKLE_ATTR_NAME.as_bytes())
        .expect("merkle_root attr not found");

    assert_eq!(merkle_attr.raw.len(), MERKLE_ATTR_SIZE);

    let unpacked =
        MerkleAttr::unpack(&merkle_attr.raw).expect("merkle attr unpack failed");
    assert_eq!(unpacked.root, *tree.root());
    assert_eq!(unpacked.algorithm, HashAlg::Blake3);
    assert!(unpacked.has_companion());

    let companion_addr = resolve_path(&file_bytes, sb.root_group_address, b"merkle/sensor_data")
        .expect("companion dataset not found");
    let companion_hdr = ObjectHeader::parse(&file_bytes, companion_addr as usize)
        .expect("companion header parse failed");

    let mut companion_data: Option<Vec<u8>> = None;
    for msg in &companion_hdr.messages {
        if msg.msg_type == MessageType::DataLayout {
            let layout = parse_layout(&msg.data, sb.offset_size, sb.length_size)
                .expect("data layout parse failed");
            if let DataLayout::Contiguous { address, size } = layout {
                if let Some(addr) = address {
                    let start = addr as usize;
                    let end = start + size as usize;
                    companion_data = Some(file_bytes[start..end].to_vec());
                }
            }
        }
    }

    let companion_bytes = companion_data.expect("companion data not found in layout");

    let recomputed_hash = compute_sha256(&companion_bytes);
    assert_eq!(
        unpacked.companion_hash, recomputed_hash,
        "Companion hash mismatch: stored vs recomputed"
    );

    assert_eq!(
        unpacked.verify_companion(&companion_bytes),
        CompanionVerifyResult::Valid,
        "verify_companion should return Valid"
    );

    assert_eq!(tree.padded_leaf_count(), 1024);
    assert_eq!(tree.nodes().len(), 2047);
    assert_eq!(companion_bytes.len(), 2047 * HASH_SIZE);
}

#[test]
fn test_merkle_attr_ref_zero_copy() {
    let chunks = make_test_chunks();
    let refs: Vec<&[u8]> = chunks.iter().map(|c| c.as_slice()).collect();
    let tree = MerkleTree::from_chunks(&refs, HashAlg::Blake3);

    let attr = MerkleAttr::from_tree(&tree);
    let packed = attr.pack();

    let attr_ref = MerkleAttrRef::from_slice(&packed).expect("should parse");

    assert!(attr_ref.is_borrowed());

    assert_eq!(attr_ref.root(), &attr.root);
    assert_eq!(attr_ref.algorithm_id(), attr.algorithm.to_id());
    assert_eq!(attr_ref.algorithm().unwrap(), attr.algorithm);
    assert_eq!(attr_ref.integrity(), &attr.integrity);
    assert_eq!(attr_ref.companion_hash(), &attr.companion_hash);

    assert_eq!(attr_ref.version(), MERKLE_ATTR_VERSION_0);
}

#[test]
fn test_merkle_attr_ref_from_vec() {
    let chunks = make_test_chunks();
    let refs: Vec<&[u8]> = chunks.iter().map(|c| c.as_slice()).collect();
    let tree = MerkleTree::from_chunks(&refs, HashAlg::Blake3);

    let attr = MerkleAttr::from_tree(&tree);
    let packed = attr.pack().to_vec();

    let attr_ref = MerkleAttrRef::from_vec(packed).expect("should parse");

    assert!(!attr_ref.is_borrowed());

    assert_eq!(attr_ref.root_array(), attr.root);
    assert_eq!(attr_ref.algorithm().unwrap(), attr.algorithm);
}

#[test]
fn test_merkle_attr_ref_verify_integrity() {
    let chunks = make_test_chunks();
    let refs: Vec<&[u8]> = chunks.iter().map(|c| c.as_slice()).collect();
    let tree = MerkleTree::from_chunks(&refs, HashAlg::Blake3);

    let attr = MerkleAttr::from_tree(&tree);
    let packed = attr.pack();

    let attr_ref = MerkleAttrRef::from_slice(&packed).expect("should parse");
    assert!(attr_ref.verify_integrity().is_ok());

    let mut tampered = packed;
    tampered[0] ^= 0xFF;
    let tampered_ref = MerkleAttrRef::from_slice(&tampered).expect("should parse");
    assert!(tampered_ref.verify_integrity().is_err());
}

#[test]
fn test_merkle_attr_ref_to_owned() {
    let chunks = make_test_chunks();
    let refs: Vec<&[u8]> = chunks.iter().map(|c| c.as_slice()).collect();
    let tree = MerkleTree::from_chunks(&refs, HashAlg::Blake3);

    let attr = MerkleAttr::from_tree(&tree);
    let packed = attr.pack();

    let attr_ref = MerkleAttrRef::from_slice(&packed).expect("should parse");
    let owned = attr_ref.to_owned_attr().expect("should convert");

    assert_eq!(owned.root, attr.root);
    assert_eq!(owned.algorithm, attr.algorithm);
    assert_eq!(owned.integrity, attr.integrity);
    assert_eq!(owned.companion_hash, attr.companion_hash);
}

#[test]
fn test_merkle_attr_ref_invalid_size() {
    assert!(MerkleAttrRef::from_slice(&[0u8; 128]).is_err());

    assert!(MerkleAttrRef::from_slice(&[0u8; 130]).is_err());

    assert!(MerkleAttrRef::from_slice(&[]).is_err());

    assert!(MerkleAttrRef::from_slice(&[0u8; 129]).is_ok());
}

#[test]
fn test_merkle_attr_ref_verify_companion() {
    let chunks = make_test_chunks();
    let refs: Vec<&[u8]> = chunks.iter().map(|c| c.as_slice()).collect();
    let tree = MerkleTree::from_chunks(&refs, HashAlg::Blake3);

    let nodes = tree.nodes();
    let mut flat_nodes = Vec::with_capacity(nodes.len() * HASH_SIZE);
    for node in nodes {
        flat_nodes.extend_from_slice(node);
    }
    let companion_hash = compute_sha256(&flat_nodes);
    let attr = MerkleAttr::from_tree_with_companion(&tree, companion_hash);
    let packed = attr.pack();

    let attr_ref = MerkleAttrRef::from_slice(&packed).expect("should parse");
    assert!(attr_ref.has_companion());
    assert_eq!(
        attr_ref.verify_companion(&flat_nodes),
        CompanionVerifyResult::Valid
    );

    let wrong_data = vec![0u8; flat_nodes.len()];
    assert_eq!(
        attr_ref.verify_companion(&wrong_data),
        CompanionVerifyResult::HashMismatch
    );
}

#[test]
fn test_merkle_attr_version() {
    let attr = MerkleAttr {
        root: [0u8; HASH_SIZE],
        algorithm: HashAlg::Blake3,
        integrity: [0u8; HASH_SIZE],
        companion_hash: [0u8; HASH_SIZE],
        grid_hash: [0u8; HASH_SIZE],
    };
    assert_eq!(attr.version(), MERKLE_ATTR_VERSION_0);

    assert_eq!(MERKLE_ATTR_SIZE, 129);
}

#[test]
fn test_parallel_build_correctness() {

    let pool = ThreadPoolBuilder::new()
        .num_threads(4)
        .build()
        .expect("failed to create thread pool");

    pool.install(|| {
        let chunks: Vec<Vec<u8>> = (0..1024)
            .map(|i| {
                let size = 64 + (i % 16) * 64;
                let mut chunk = vec![0u8; size];

                for (j, byte) in chunk.iter_mut().enumerate() {
                    *byte = ((i * 31 + j * 17) % 256) as u8;
                }
                chunk
            })
            .collect();

        let refs: Vec<&[u8]> = chunks.iter().map(|c| c.as_slice()).collect();

        for alg in [HashAlg::Sha256, HashAlg::Blake3, HashAlg::K12] {
            let tree_seq = MerkleTree::from_chunks(&refs, alg);
            let tree_par = MerkleTree::from_chunks_parallel(&refs, alg);

            assert_eq!(
                tree_seq.root(),
                tree_par.root(),
                "Root mismatch for {:?}",
                alg
            );

            assert_eq!(
                tree_seq.nodes().len(),
                tree_par.nodes().len(),
                "Node count mismatch for {:?}",
                alg
            );

            for (i, (seq_node, par_node)) in tree_seq
                .nodes()
                .iter()
                .zip(tree_par.nodes().iter())
                .enumerate()
            {
                assert_eq!(seq_node, par_node, "Node {} mismatch for {:?}", i, alg);
            }
        }
    });
}

fn make_tampering_test_chunks() -> Vec<Vec<u8>> {
    (0..1024)
        .map(|i| {
            let mut chunk = vec![0u8; 256];
            for (j, byte) in chunk.iter_mut().enumerate() {
                *byte = ((i * 31 + j * 17) % 256) as u8;
            }
            chunk
        })
        .collect()
}

fn make_dataset_from_chunks<'a>(chunks: &'a [Vec<u8>]) -> Dataset<'a> {
    let refs: Vec<&[u8]> = chunks.iter().map(|c| c.as_slice()).collect();
    let tree = MerkleTree::from_chunks(&refs, HashAlg::Blake3);

    let mut flat_nodes = Vec::with_capacity(tree.nodes().len() * HASH_SIZE);
    for node in tree.nodes() {
        flat_nodes.extend_from_slice(node);
    }

    let companion_hash = compute_sha256(&flat_nodes);
    let merkle_attr = MerkleAttr::from_tree_with_companion(&tree, companion_hash);

    Dataset::from_owned(merkle_attr, flat_nodes, refs)
}

#[test]
fn test_tampered_chunk_detected_by_verify_chunk() {
    let chunks = make_tampering_test_chunks();
    let dataset = make_dataset_from_chunks(&chunks);

    assert!(verify_chunk(&dataset, 0).is_ok());
    assert!(verify_chunk(&dataset, 512).is_ok());

    let mut tampered_chunks = chunks.clone();
    tampered_chunks[512][0] ^= 0xFF;

    let tampered_refs: Vec<&[u8]> = tampered_chunks.iter().map(|c| c.as_slice()).collect();
    let tampered_dataset = Dataset {
        merkle_attr: dataset.merkle_attr.clone(),
        tree_nodes: dataset.tree_nodes.clone(),
        chunks: tampered_refs,
    };

    let result = verify_chunk(&tampered_dataset, 512);
    assert!(matches!(
        result,
        Err(MerkleError::HashMismatch { chunk_idx: 512 })
    ));

    assert!(verify_chunk(&tampered_dataset, 0).is_ok());
}

#[test]
fn test_tampered_chunk_detected_by_verify_dataset() {
    let chunks = make_tampering_test_chunks();
    let dataset = make_dataset_from_chunks(&chunks);

    assert!(verify_dataset(&dataset).is_ok());

    let mut tampered_chunks = chunks.clone();
    tampered_chunks[512][0] ^= 0xFF;

    let tampered_refs: Vec<&[u8]> = tampered_chunks.iter().map(|c| c.as_slice()).collect();
    let tampered_dataset = Dataset {
        merkle_attr: dataset.merkle_attr.clone(),
        tree_nodes: dataset.tree_nodes.clone(),
        chunks: tampered_refs,
    };

    let result = verify_dataset(&tampered_dataset);
    assert!(matches!(
        result,
        Err(MerkleError::HashMismatch { chunk_idx: 512 })
    ));
}

#[test]
fn test_verify_root_ignores_chunk_tampering() {
    let chunks = make_tampering_test_chunks();
    let dataset = make_dataset_from_chunks(&chunks);

    assert!(verify_root(&dataset).is_ok());

    let mut tampered_chunks = chunks.clone();
    tampered_chunks[512][0] ^= 0xFF;

    let tampered_refs: Vec<&[u8]> = tampered_chunks.iter().map(|c| c.as_slice()).collect();
    let tampered_dataset = Dataset {
        merkle_attr: dataset.merkle_attr.clone(),
        tree_nodes: dataset.tree_nodes.clone(),
        chunks: tampered_refs,
    };

    assert!(verify_root(&tampered_dataset).is_ok());
}

#[test]
fn test_tampered_companion_detected_by_verify_root() {
    let chunks = make_tampering_test_chunks();
    let dataset = make_dataset_from_chunks(&chunks);

    assert!(verify_root(&dataset).is_ok());

    let refs: Vec<&[u8]> = chunks.iter().map(|c| c.as_slice()).collect();
    let mut tampered_nodes = dataset.tree_nodes.clone();
    tampered_nodes[0] ^= 0xFF;

    let tampered_dataset = Dataset {
        merkle_attr: dataset.merkle_attr.clone(),
        tree_nodes: tampered_nodes,
        chunks: refs,
    };

    let result = verify_root(&tampered_dataset);
    assert!(matches!(result, Err(MerkleError::CompanionTampered)));
}

#[test]
fn test_reconstruct_tree_rejects_non_multiple_size() {
    let merkle_attr = MerkleAttr {
        root: [0u8; 32],
        algorithm: HashAlg::Blake3,
        integrity: [0u8; 32],
        companion_hash: [1u8; 32],
        grid_hash: [0u8; 32],
    };

    let bad_nodes = vec![0u8; 33];
    let dataset = Dataset::from_owned(merkle_attr, bad_nodes, vec![]);
    let result = dataset.reconstruct_tree();
    assert!(matches!(
        result,
        Err(MerkleError::InvalidAttribute {
            reason: InvalidAttrReason::WrongSize
        })
    ));
}

#[test]
fn test_reconstruct_tree_rejects_even_node_count() {
    let merkle_attr = MerkleAttr {
        root: [0u8; 32],
        algorithm: HashAlg::Blake3,
        integrity: [0u8; 32],
        companion_hash: [1u8; 32],
        grid_hash: [0u8; 32],
    };

    let bad_nodes = vec![0u8; 64];
    let dataset = Dataset::from_owned(merkle_attr, bad_nodes, vec![]);
    let result = dataset.reconstruct_tree();
    assert!(matches!(
        result,
        Err(MerkleError::InvalidAttribute {
            reason: InvalidAttrReason::WrongSize
        })
    ));
}

#[test]
fn test_reconstruct_tree_rejects_non_power_of_two_leaves() {
    let merkle_attr = MerkleAttr {
        root: [0u8; 32],
        algorithm: HashAlg::Blake3,
        integrity: [0u8; 32],
        companion_hash: [1u8; 32],
        grid_hash: [0u8; 32],
    };

    let bad_nodes = vec![0u8; 160];
    let dataset = Dataset::from_owned(merkle_attr, bad_nodes, vec![]);
    let result = dataset.reconstruct_tree();
    assert!(matches!(
        result,
        Err(MerkleError::InvalidAttribute {
            reason: InvalidAttrReason::WrongSize
        })
    ));
}

#[test]
fn test_reconstruct_tree_accepts_valid_sizes() {
    let merkle_attr = MerkleAttr {
        root: [0u8; 32],
        algorithm: HashAlg::Blake3,
        integrity: [0u8; 32],
        companion_hash: [1u8; 32],
        grid_hash: [0u8; 32],
    };

    for &leaf_count in &[1usize, 2, 4, 8, 16, 32, 64, 128, 256, 512, 1024] {
        let node_count = 2 * leaf_count - 1;
        let nodes = vec![0u8; node_count * HASH_SIZE];
        let dataset = Dataset::from_owned(merkle_attr.clone(), nodes, vec![]);
        assert!(
            dataset.reconstruct_tree().is_ok(),
            "Should accept {} nodes ({} leaves)",
            node_count,
            leaf_count
        );
    }
}

#[test]
fn test_verify_dataset_rejects_too_many_chunks() {
    let chunk0 = b"chunk0".to_vec();
    let chunk1 = b"chunk1".to_vec();
    let refs: Vec<&[u8]> = vec![chunk0.as_slice(), chunk1.as_slice()];
    let tree = MerkleTree::from_chunks(&refs, HashAlg::Blake3);

    let mut flat_nodes = Vec::with_capacity(tree.nodes().len() * HASH_SIZE);
    for node in tree.nodes() {
        flat_nodes.extend_from_slice(node);
    }

    let companion_hash = compute_sha256(&flat_nodes);
    let merkle_attr = MerkleAttr::from_tree_with_companion(&tree, companion_hash);

    let chunk2 = b"chunk2".to_vec();
    let too_many_refs: Vec<&[u8]> =
        vec![chunk0.as_slice(), chunk1.as_slice(), chunk2.as_slice()];

    let dataset = Dataset::from_owned(merkle_attr, flat_nodes, too_many_refs);
    let result = verify_dataset(&dataset);
    assert!(matches!(result, Err(MerkleError::MissingChunkGridMetadata)));
}

#[test]
fn merkle_version_pack_unpack_roundtrip() {
    for v in [0u64, 1, 7, 255, 256, u32::MAX as u64, u64::MAX] {
        let packed = pack_merkle_version(v);
        assert_eq!(packed.len(), MERKLE_VERSION_ATTR_SIZE);
        assert_eq!(unpack_merkle_version(&packed).unwrap(), v);
    }
}

#[test]
fn merkle_version_is_big_endian() {
    assert_eq!(pack_merkle_version(1), [0, 0, 0, 0, 0, 0, 0, 1]);
    assert_eq!(
        pack_merkle_version(0x0102_0304_0506_0708),
        [1, 2, 3, 4, 5, 6, 7, 8]
    );
}

#[test]
fn merkle_version_unpack_rejects_wrong_size() {
    assert!(matches!(
        unpack_merkle_version(&[0u8; 7]),
        Err(MerkleError::InvalidAttribute {
            reason: InvalidAttrReason::WrongSize
        })
    ));
    assert!(matches!(
        unpack_merkle_version(&[0u8; 9]),
        Err(MerkleError::InvalidAttribute {
            reason: InvalidAttrReason::WrongSize
        })
    ));
    assert!(matches!(
        unpack_merkle_version(&[]),
        Err(MerkleError::InvalidAttribute {
            reason: InvalidAttrReason::WrongSize
        })
    ));
}

#[test]
fn observation_store_accepts_monotonic_and_records_high_water_mark() {
    let mut store = VersionObservationStore::new();
    assert!(store.is_empty());

    store.observe("file-a", 3).unwrap();
    assert_eq!(store.highest("file-a"), Some(3));

    store.observe("file-a", 3).unwrap();
    assert_eq!(store.highest("file-a"), Some(3));

    store.observe("file-a", 5).unwrap();
    assert_eq!(store.highest("file-a"), Some(5));

    store.observe("file-b", 1).unwrap();
    assert_eq!(store.highest("file-b"), Some(1));
    assert_eq!(store.len(), 2);
}

#[test]
fn observation_store_rejects_rollback() {
    let mut store = VersionObservationStore::new();
    store.observe("file", 10).unwrap();

    let err = store.observe("file", 9).unwrap_err();
    assert!(matches!(
        err,
        MerkleError::VersionRollback {
            observed: 9,
            highest_seen: 10
        }
    ));

    assert_eq!(store.highest("file"), Some(10));

    assert_eq!(default_response(&err), VerifyResponse::Halt);
}

#[test]
fn observation_store_unknown_file_has_no_high_water_mark() {
    let store = VersionObservationStore::new();
    assert_eq!(store.highest("never-seen"), None);
}

#[test]
fn verify_chunk_with_pending_reports_nonce_pending() {
    let chunks = make_tampering_test_chunks();
    let dataset = make_dataset_from_chunks(&chunks);

    let empty: BTreeSet<u64> = BTreeSet::new();
    assert!(verify_chunk_with_pending(&dataset, 0, &empty).is_ok());
    assert!(verify_chunk_with_pending(&dataset, 512, &empty).is_ok());

    let mut pending: BTreeSet<u64> = BTreeSet::new();
    pending.insert(512);

    assert!(matches!(
        verify_chunk_with_pending(&dataset, 512, &pending),
        Err(MerkleError::NoncePending)
    ));
    assert!(verify_chunk_with_pending(&dataset, 0, &pending).is_ok());

    assert_eq!(
        default_response(&MerkleError::NoncePending),
        VerifyResponse::Halt
    );
}

#[test]
fn verify_chunk_with_pending_takes_precedence_over_tampering() {
    let chunks = make_tampering_test_chunks();
    let dataset = make_dataset_from_chunks(&chunks);

    let mut tampered_chunks = chunks.clone();
    tampered_chunks[512][0] ^= 0xFF;
    let tampered_refs: Vec<&[u8]> = tampered_chunks.iter().map(|c| c.as_slice()).collect();
    let tampered = Dataset {
        merkle_attr: dataset.merkle_attr.clone(),
        tree_nodes: dataset.tree_nodes.clone(),
        chunks: tampered_refs,
    };

    assert!(matches!(
        verify_chunk(&tampered, 512),
        Err(MerkleError::HashMismatch { chunk_idx: 512 })
    ));

    let pending: &[u64] = &[512];
    assert!(matches!(
        verify_chunk_with_pending(&tampered, 512, pending),
        Err(MerkleError::NoncePending)
    ));
}

#[test]
fn verify_chunk_with_pending_slice_impl() {
    let chunks = make_tampering_test_chunks();
    let dataset = make_dataset_from_chunks(&chunks);

    let none: &[u64] = &[];
    assert!(verify_chunk_with_pending(&dataset, 3, none).is_ok());

    let pending: &[u64] = &[1, 3, 7];
    assert!(matches!(
        verify_chunk_with_pending(&dataset, 3, pending),
        Err(MerkleError::NoncePending)
    ));
    assert!(verify_chunk_with_pending(&dataset, 4, pending).is_ok());
}
