//! Rolling back to a version that the journal certifies.

use crate::dataset::{dataset_answer, verify_dataset, Dataset};
use crate::digest::constant_time_eq;
use crate::error::{error_text, tells_number, MerkleError};
use crate::journal::{ProvenanceJournal, ProvenanceRecord};
use crate::text::{decimal, push_decimal, push_text};
use vstd::prelude::*;

verus! {

/// Which version to restore.
#[derive(Debug, Clone, Copy, PartialEq, Eq, Structural)]
pub enum RestoreTarget {
    /// This one.
    Version(u64),
    /// The highest whose signature verifies.
    LastKnownGood,
}

/// Checks a record's signature. Supplied by the caller.
pub trait SignatureVerifier {
    /// What the verifier accepts. Nothing is known of it unless an
    /// implementation states it.
    closed spec fn spec_verify(&self, record: &ProvenanceRecord) -> bool {
        arbitrary()
    }

    /// Whether the record's signature is valid.
    fn verify(&self, record: &ProvenanceRecord) -> (r: bool)
        ensures
            r == self.spec_verify(record),
    ;
}

/// Why a restore was refused.
#[derive(Debug, Clone, Copy, PartialEq, Eq, Structural)]
pub enum RestoreError {
    /// The requested version has no record.
    NoJournaledRecord { version: u64 },
    /// No record's signature verifies.
    NoKnownGoodVersion,
    /// The requested version's signature does not verify.
    SignatureInvalid { version: u64 },
    /// The restored dataset failed verification.
    DatasetVerificationFailed { version: u64, source: Option<MerkleError> },
    /// The restored dataset has another root than the one that was signed.
    RootMismatch { version: u64 },
}

/// The message of a refusal.
pub open spec fn restore_error_text(e: RestoreError) -> Seq<char> {
    match e {
        RestoreError::NoJournaledRecord { version } => "no journaled record for version "@
            + decimal(version as nat) + " (not a valid rollback target)"@,
        RestoreError::NoKnownGoodVersion => "no journaled version has a verifying signature"@,
        RestoreError::SignatureInvalid { version } => "hybrid signature for version "@ + decimal(
            version as nat,
        ) + " did not verify"@,
        RestoreError::DatasetVerificationFailed { version, source } => {
            let head = "restored dataset for version "@ + decimal(version as nat)
                + " failed verification"@;
            match source {
                Some(e) => head + ": "@ + error_text(e),
                None => head,
            }
        },
        RestoreError::RootMismatch { version } =>
            "restored dataset root does not match the journaled signed root for version "@
            + decimal(version as nat),
    }
}

impl RestoreError {
    /// The refusal as text.
    pub fn message(&self) -> (s: String)
        ensures
            s@ == restore_error_text(*self),
    {
        let mut s: String = String::new();
        match self {
            RestoreError::NoJournaledRecord { version } => {
                push_text(&mut s, "no journaled record for version ");
                push_decimal(&mut s, *version);
                push_text(&mut s, " (not a valid rollback target)");
            },
            RestoreError::NoKnownGoodVersion => {
                push_text(&mut s, "no journaled version has a verifying signature");
            },
            RestoreError::SignatureInvalid { version } => {
                push_text(&mut s, "hybrid signature for version ");
                push_decimal(&mut s, *version);
                push_text(&mut s, " did not verify");
            },
            RestoreError::DatasetVerificationFailed { version, source } => {
                push_text(&mut s, "restored dataset for version ");
                push_decimal(&mut s, *version);
                push_text(&mut s, " failed verification");
                match source {
                    Some(e) => {
                        push_text(&mut s, ": ");
                        let cause: String = e.message();
                        push_text(&mut s, cause.as_str());
                    },
                    None => {},
                }
            },
            RestoreError::RootMismatch { version } => {
                push_text(
                    &mut s,
                    "restored dataset root does not match the journaled signed root for version ",
                );
                push_decimal(&mut s, *version);
            },
        }
        assert(s@ =~= restore_error_text(*self));
        s
    }
}

/// Whether position `i` holds the newest record whose signature verifies.
pub open spec fn is_last_good<V: SignatureVerifier + ?Sized>(
    records: Seq<ProvenanceRecord>,
    verifier: &V,
    i: int,
) -> bool {
    &&& 0 <= i < records.len()
    &&& verifier.spec_verify(&records[i])
    &&& forall|j: int| i < j < records.len() ==> !verifier.spec_verify(&#[trigger] records[j])
}

/// Whether `r` is the answer to the request for `target`.
pub open spec fn is_selection<V: SignatureVerifier + ?Sized>(
    records: Seq<ProvenanceRecord>,
    target: RestoreTarget,
    verifier: &V,
    r: Result<ProvenanceRecord, RestoreError>,
) -> bool {
    match target {
        RestoreTarget::Version(v) => match r {
            Ok(rec) => {
                &&& records.contains(rec)
                &&& rec.version == v
                &&& verifier.spec_verify(&rec)
            },
            Err(e) => if exists|i: int| 0 <= i < records.len() && records[i].version == v {
                &&& e == RestoreError::SignatureInvalid { version: v }
                &&& exists|i: int|
                    0 <= i < records.len() && records[i].version == v && !verifier.spec_verify(
                        &#[trigger] records[i],
                    )
            } else {
                e == RestoreError::NoJournaledRecord { version: v }
            },
        },
        RestoreTarget::LastKnownGood => match r {
            Ok(rec) => exists|i: int|
                #[trigger] is_last_good(records, verifier, i) && rec == records[i],
            Err(e) => {
                &&& e == RestoreError::NoKnownGoodVersion
                &&& forall|j: int|
                    0 <= j < records.len() ==> !verifier.spec_verify(&#[trigger] records[j])
            },
        },
    }
}

/// Selects the record to restore. An explicit version has to be journaled and
/// its signature has to verify; otherwise the newest record whose signature
/// verifies is taken.
pub fn select_restore_record<'j, V: SignatureVerifier + ?Sized>(
    journal: &'j ProvenanceJournal,
    target: RestoreTarget,
    verifier: &V,
) -> (r: Result<&'j ProvenanceRecord, RestoreError>)
    requires
        journal.wf(),
    ensures
        is_selection(
            journal.spec_records(),
            target,
            verifier,
            match r {
                Ok(rec) => Ok(*rec),
                Err(e) => Err(e),
            },
        ),
        r is Ok ==> journal.spec_records().contains(*r->Ok_0) && verifier.spec_verify(r->Ok_0),
        target matches RestoreTarget::Version(v) ==> match r {
            Ok(rec) => rec.version == v,
            Err(e) => if forall|i: int|
                0 <= i < journal.spec_records().len() ==> (
                #[trigger] journal.spec_records()[i]).version != v {
                e == RestoreError::NoJournaledRecord { version: v }
            } else {
                e == RestoreError::SignatureInvalid { version: v }
            },
        },
        target is LastKnownGood ==> match r {
            Ok(rec) => forall|i: int|
                0 <= i < journal.spec_records().len() && verifier.spec_verify(
                    &#[trigger] journal.spec_records()[i],
                ) ==> journal.spec_records()[i].version <= rec.version,
            Err(e) => e is NoKnownGoodVersion && forall|i: int|
                0 <= i < journal.spec_records().len() ==> !verifier.spec_verify(
                    &#[trigger] journal.spec_records()[i],
                ),
        },
{
    match target {
        RestoreTarget::Version(v) => match journal.record_for_version(v) {
            None => Err(RestoreError::NoJournaledRecord { version: v }),
            Some(record) => {
                proof {
                    let records = journal.spec_records();
                    let i = choose|i: int| 0 <= i < records.len() && records[i] == *record;
                    assert(records[i].version == v);
                }
                if verifier.verify(record) {
                    Ok(record)
                } else {
                    Err(RestoreError::SignatureInvalid { version: v })
                }
            },
        },
        RestoreTarget::LastKnownGood => {
            let records: &'j [ProvenanceRecord] = journal.records();
            let mut i: usize = records.len();
            while i > 0
                invariant
                    i <= records@.len(),
                    journal.wf(),
                    records@ == journal.spec_records(),
                    target == RestoreTarget::LastKnownGood,
                    forall|j: int|
                        i <= j < records@.len() ==> !verifier.spec_verify(&#[trigger] records@[j]),
                decreases i,
            {
                i = i - 1;
                if verifier.verify(&records[i]) {
                    assert(is_last_good(records@, verifier, i as int));
                    assert forall|k: int|
                        0 <= k < records@.len() && verifier.spec_verify(
                            &#[trigger] records@[k],
                        ) implies records@[k].version <= records@[i as int].version by {
                        if k < i {
                            assert(journal@[k].version < journal@[i as int].version);
                        }
                    }
                    return Ok(&records[i]);
                }
            }
            Err(RestoreError::NoKnownGoodVersion)
        },
    }
}

/// Accepts a restored dataset only if it verifies and has the signed root.
pub fn verify_restored_dataset(record: &ProvenanceRecord, dataset: &Dataset<'_>) -> (r: Result<
    (),
    RestoreError,
>)
    ensures
        r == match dataset_answer(
            dataset.merkle_attr.algorithm,
            dataset.merkle_attr.root,
            dataset.tree_nodes@,
            dataset.chunk_views(),
        ) {
            Ok(_) => if dataset.merkle_attr.root == record.signed_root {
                Ok::<(), RestoreError>(())
            } else {
                Err(RestoreError::RootMismatch { version: record.version })
            },
            Err(e) => Err(
                RestoreError::DatasetVerificationFailed {
                    version: record.version,
                    source: Some(e),
                },
            ),
        },
{
    match verify_dataset(dataset) {
        Ok(_) => {},
        Err(source) => {
            return Err(
                RestoreError::DatasetVerificationFailed {
                    version: record.version,
                    source: Some(source),
                },
            );
        },
    }
    if constant_time_eq(&dataset.merkle_attr.root, &record.signed_root) {
        Ok(())
    } else {
        Err(RestoreError::RootMismatch { version: record.version })
    }
}

/// Selects the record to restore, then hands it to `apply`, which reverts to
/// its snapshot. `apply` is called only on the selected record, and not at all
/// where the selection is refused.
pub fn restore_to_version<V, F>(
    journal: &ProvenanceJournal,
    target: RestoreTarget,
    verifier: &V,
    apply: F,
) -> (r: Result<u64, RestoreError>) where
    V: SignatureVerifier + ?Sized,
    F: FnOnce(&ProvenanceRecord) -> Result<(), RestoreError>,

    requires
        journal.wf(),
        forall|rec: ProvenanceRecord|
            is_selection(journal.spec_records(), target, verifier, Ok(rec))
                ==> #[trigger] call_requires(apply, (&rec,)),
    ensures
        match r {
            Ok(version) => exists|rec: ProvenanceRecord|
                #![trigger call_ensures(apply, (&rec,), Ok(()))]
                {
                    &&& is_selection(journal.spec_records(), target, verifier, Ok(rec))
                    &&& call_ensures(apply, (&rec,), Ok(()))
                    &&& version == rec.version
                },
            Err(e) => {
                ||| is_selection(journal.spec_records(), target, verifier, Err(e))
                ||| exists|rec: ProvenanceRecord|
                    #![trigger call_ensures(apply, (&rec,), Err(e))]
                    {
                        &&& is_selection(journal.spec_records(), target, verifier, Ok(rec))
                        &&& call_ensures(apply, (&rec,), Err(e))
                    }
            },
        },
{
    let record: &ProvenanceRecord = match select_restore_record(journal, target, verifier) {
        Ok(rec) => rec,
        Err(e) => {
            return Err(e);
        },
    };
    let outcome: Result<(), RestoreError> = apply(record);
    assert(call_ensures(apply, (record,), outcome));
    match outcome {
        Ok(u) => {
            assert(u == ());
            assert(call_ensures(apply, (record,), Ok(())));
            Ok(record.version)
        },
        Err(e) => Err(e),
    }
}

// ---------------------------------------------------------------------------
// Laws
// ---------------------------------------------------------------------------

/// The newest record whose signature verifies has the highest version of all
/// that do.
pub proof fn law_last_known_good_is_highest<V: SignatureVerifier + ?Sized>(
    journal: &ProvenanceJournal,
    verifier: &V,
    rec: ProvenanceRecord,
    other: ProvenanceRecord,
)
    requires
        journal.wf(),
        is_selection(journal.spec_records(), RestoreTarget::LastKnownGood, verifier, Ok(rec)),
        journal.spec_records().contains(other),
        verifier.spec_verify(&other),
    ensures
        other.version <= rec.version,
{
    let records = journal.spec_records();
    let i = choose|i: int| #[trigger] is_last_good(records, verifier, i) && rec == records[i];
    let j = choose|j: int| 0 <= j < records.len() && records[j] == other;
    assert(journal@[i].version == records[i].version);
    assert(journal@[j].version == records[j].version);
}

/// Whatever was asked for, what is selected is journaled and its signature
/// verifies.
pub proof fn law_selected_record_is_certified<V: SignatureVerifier + ?Sized>(
    journal: &ProvenanceJournal,
    target: RestoreTarget,
    verifier: &V,
    rec: ProvenanceRecord,
)
    requires
        is_selection(journal.spec_records(), target, verifier, Ok(rec)),
    ensures
        journal.spec_records().contains(rec),
        verifier.spec_verify(&rec),
{
}

/// A request has one answer.
pub proof fn law_selection_is_unique<V: SignatureVerifier + ?Sized>(
    journal: &ProvenanceJournal,
    target: RestoreTarget,
    verifier: &V,
    a: Result<ProvenanceRecord, RestoreError>,
    b: Result<ProvenanceRecord, RestoreError>,
)
    requires
        journal.wf(),
        is_selection(journal.spec_records(), target, verifier, a),
        is_selection(journal.spec_records(), target, verifier, b),
    ensures
        a == b,
{
    let records = journal.spec_records();
    match target {
        RestoreTarget::Version(v) => {
            assert forall|i: int, j: int|
                0 <= i < records.len() && 0 <= j < records.len() && (
                #[trigger] records[i]).version == (#[trigger] records[j]).version implies i
                == j by {
                assert(journal@[i].version == records[i].version);
                assert(journal@[j].version == records[j].version);
            }
            if let Ok(x) = a {
                let i = choose|i: int| 0 <= i < records.len() && records[i] == x;
                assert(records[i].version == v);
                if let Ok(y) = b {
                    let j = choose|j: int| 0 <= j < records.len() && records[j] == y;
                    assert(records[j].version == v);
                }
            } else if let Ok(y) = b {
                let j = choose|j: int| 0 <= j < records.len() && records[j] == y;
                assert(records[j].version == v);
            }
        },
        RestoreTarget::LastKnownGood => {
            if let Ok(x) = a {
                let i = choose|i: int|
                    #[trigger] is_last_good(records, verifier, i) && x == records[i];
                assert(verifier.spec_verify(&records[i]));
                if let Ok(y) = b {
                    let j = choose|j: int|
                        #[trigger] is_last_good(records, verifier, j) && y == records[j];
                    assert(verifier.spec_verify(&records[j]));
                }
            } else if let Ok(y) = b {
                let j = choose|j: int|
                    #[trigger] is_last_good(records, verifier, j) && y == records[j];
                assert(verifier.spec_verify(&records[j]));
            }
        },
    }
}

/// The text of a refusal has the version that it is about.
pub proof fn law_refusal_text_tells_version(e: RestoreError)
    ensures
        match e {
            RestoreError::NoJournaledRecord { version } => tells_number(
                restore_error_text(e),
                32,
                version as nat,
            ),
            RestoreError::NoKnownGoodVersion => true,
            RestoreError::SignatureInvalid { version } => tells_number(
                restore_error_text(e),
                29,
                version as nat,
            ),
            RestoreError::DatasetVerificationFailed { version, source } => tells_number(
                restore_error_text(e),
                29,
                version as nat,
            ) && (source matches Some(cause) ==> restore_error_text(e).len() >= error_text(
                cause,
            ).len() && restore_error_text(e).skip(
                restore_error_text(e).len() - error_text(cause).len(),
            ) == error_text(cause)),
            RestoreError::RootMismatch { version } => tells_number(
                restore_error_text(e),
                75,
                version as nat,
            ),
        },
{
    let text = restore_error_text(e);
    match e {
        RestoreError::NoJournaledRecord { version } => {
            reveal_strlit("no journaled record for version ");
            let d = decimal(version as nat);
            assert(text.subrange(32, 32 + d.len() as int) =~= d);
        },
        RestoreError::NoKnownGoodVersion => {},
        RestoreError::SignatureInvalid { version } => {
            reveal_strlit("hybrid signature for version ");
            let d = decimal(version as nat);
            assert(text.subrange(29, 29 + d.len() as int) =~= d);
        },
        RestoreError::DatasetVerificationFailed { version, source } => {
            reveal_strlit("restored dataset for version ");
            let d = decimal(version as nat);
            assert(text.subrange(29, 29 + d.len() as int) =~= d);
            if let Some(cause) = source {
                assert(text.skip(text.len() - error_text(cause).len()) =~= error_text(cause));
            }
        },
        RestoreError::RootMismatch { version } => {
            reveal_strlit(
                "restored dataset root does not match the journaled signed root for version ",
            );
            let d = decimal(version as nat);
            assert(text.subrange(75, 75 + d.len() as int) =~= d);
        },
    }
}

} // verus!
