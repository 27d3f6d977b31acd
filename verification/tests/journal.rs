//! The provenance journal.

use clawhdf5::digest::HASH_SIZE;
use clawhdf5::error::{MerkleError, MERKLE_JOURNAL_VERSION};
use clawhdf5::journal::{
    ProvenanceJournal, ProvenanceRecord, MERKLE_JOURNAL_HEADER_SIZE, MERKLE_JOURNAL_MAGIC,
};

fn rec(version: u64, snapshot_ref: &str) -> ProvenanceRecord {
    ProvenanceRecord {
        version,
        signed_root: [version as u8; HASH_SIZE],
        hybrid_sig: vec![0xAB; 3374],
        timestamp: 1_700_000_000 + version,
        snapshot_ref: String::from(snapshot_ref),
    }
}

#[test]
fn append_enforces_strictly_increasing_versions() {
    let mut j = ProvenanceJournal::new();
    j.append(rec(1, "snap-1")).unwrap();
    j.append(rec(2, "snap-2")).unwrap();

    assert!(matches!(
        j.append(rec(2, "dup")),
        Err(MerkleError::JournalNonMonotonic {
            appended: 2,
            last: 2
        })
    ));

    assert!(matches!(
        j.append(rec(1, "older")),
        Err(MerkleError::JournalNonMonotonic {
            appended: 1,
            last: 2
        })
    ));
    assert_eq!(j.len(), 2);
}

#[test]
fn lookup_by_version_and_snapshot() {
    let mut j = ProvenanceJournal::new();
    j.append(rec(1, "snap-1")).unwrap();
    j.append(rec(5, "snap-5")).unwrap();
    j.append(rec(9, "snap-9")).unwrap();

    assert_eq!(j.record_for_version(5).unwrap().snapshot_ref, "snap-5");
    assert!(j.record_for_version(4).is_none());
    assert_eq!(j.latest().unwrap().version, 9);

    assert_eq!(j.record_for_snapshot("snap-9").unwrap().version, 9);
    assert!(j.record_for_snapshot("snap-4").is_none());
}

#[test]
fn snapshot_without_journaled_root_is_not_a_valid_rollback_target() {
    let mut j = ProvenanceJournal::new();
    j.append(rec(3, "certified-snapshot")).unwrap();

    assert!(j.is_valid_rollback_target("certified-snapshot"));
    assert!(!j.is_valid_rollback_target("random-backup.h5"));
}

#[test]
fn pack_unpack_roundtrip() {
    let mut j = ProvenanceJournal::new();
    j.append(rec(1, "snap-1")).unwrap();
    j.append(rec(2, "snap-two-with-longer-name")).unwrap();
    j.append(rec(100, "")).unwrap();

    let bytes = j.pack();
    let parsed = ProvenanceJournal::unpack(&bytes).unwrap();

    assert_eq!(parsed.len(), 3);
    assert_eq!(parsed.records(), j.records());
}

#[test]
fn unpack_rejects_bad_magic() {
    let mut bytes = ProvenanceJournal::new().pack();
    bytes[0] = b'X';
    assert!(matches!(
        ProvenanceJournal::unpack(&bytes),
        Err(MerkleError::JournalCorrupt)
    ));
}

#[test]
fn unpack_rejects_unknown_version() {
    let mut bytes = ProvenanceJournal::new().pack();
    bytes[4] = 0xFF;
    assert!(matches!(
        ProvenanceJournal::unpack(&bytes),
        Err(MerkleError::JournalUnsupportedVersion { found: 0xFF })
    ));
}

#[test]
fn unpack_rejects_nonzero_reserved_bytes() {
    for reserved_idx in 5..8 {
        let mut bytes = ProvenanceJournal::new().pack();
        bytes[reserved_idx] = 0x01;
        assert!(
            matches!(
                ProvenanceJournal::unpack(&bytes),
                Err(MerkleError::JournalCorrupt)
            ),
            "nonzero reserved byte at offset {reserved_idx} must be rejected"
        );
    }
}

#[test]
fn unpack_rejects_truncated_and_oversized_lengths() {
    let mut j = ProvenanceJournal::new();
    j.append(rec(1, "snap-1")).unwrap();
    let good = j.pack();

    assert!(matches!(
        ProvenanceJournal::unpack(&good[..good.len() - 5]),
        Err(MerkleError::JournalCorrupt)
    ));

    let mut hostile = good.clone();
    hostile[8..12].copy_from_slice(&u32::MAX.to_be_bytes());
    assert!(matches!(
        ProvenanceJournal::unpack(&hostile),
        Err(MerkleError::JournalCorrupt)
    ));
}

#[test]
fn unpack_rejects_non_monotonic_records() {
    let mut j = ProvenanceJournal::new();
    j.append(rec(2, "a")).unwrap();
    let mut bytes = j.pack();

    let mut j2 = ProvenanceJournal::new();
    j2.append(rec(1, "b")).unwrap();
    let second = j2.pack();

    bytes[8..12].copy_from_slice(&2u32.to_be_bytes());
    bytes.extend_from_slice(&second[MERKLE_JOURNAL_HEADER_SIZE..]);

    assert!(matches!(
        ProvenanceJournal::unpack(&bytes),
        Err(MerkleError::JournalCorrupt)
    ));
}

#[test]
fn unpack_never_panics_on_arbitrary_bytes() {
    let mut state: u64 = 0x9e37_79b9_7f4a_7c15;
    let mut next = || {
        state ^= state << 13;
        state ^= state >> 7;
        state ^= state << 17;
        state
    };

    for _ in 0..10_000 {
        let len = (next() % 200) as usize;
        let mut bytes = Vec::with_capacity(len);
        for _ in 0..len {
            bytes.push((next() & 0xff) as u8);
        }

        if len >= MERKLE_JOURNAL_HEADER_SIZE && next() & 1 == 0 {
            bytes[0..4].copy_from_slice(&MERKLE_JOURNAL_MAGIC);
            bytes[4] = MERKLE_JOURNAL_VERSION;
            bytes[5..8].copy_from_slice(&[0, 0, 0]);
            if next() & 1 == 0 {
                let planted = (1u64 << (next() % 33)) as u32;
                bytes[8..12].copy_from_slice(&planted.to_be_bytes());
            }
        }

        if let Ok(journal) = ProvenanceJournal::unpack(&bytes) {
            let reparsed = ProvenanceJournal::unpack(&journal.pack()).unwrap();
            assert_eq!(reparsed.records(), journal.records());
        }
    }
}

#[test]
fn unpack_rejects_trailing_bytes() {
    let mut j = ProvenanceJournal::new();
    j.append(rec(1, "snap-1")).unwrap();
    let mut bytes = j.pack();
    bytes.push(0xFF);
    assert!(matches!(
        ProvenanceJournal::unpack(&bytes),
        Err(MerkleError::JournalCorrupt)
    ));
}
