//! Errors of the verification layer.

use crate::text::{decimal, push_decimal, push_text};
use vstd::prelude::*;

verus! {

/// Deepest Merkle tree that is built or accepted: levels above the leaves.
pub const MAX_DEPTH: usize = 40;

/// The most leaves a tree may have: two to the power of `MAX_DEPTH`.
pub const MAX_LEAVES: u64 = 0x100_0000_0000;

/// The format version of a provenance journal.
pub const MERKLE_JOURNAL_VERSION: u8 = 1;

/// Why a verification step failed.
#[derive(Debug, Clone, Copy, PartialEq, Eq, Structural)]
#[non_exhaustive]
#[allow(inconsistent_fields)]
pub enum MerkleError {
    /// A chunk's content does not match its leaf hash, or its path to the root.
    HashMismatch { chunk_idx: usize },
    /// The stored tree, or a proof, does not match its integrity hash or shape.
    CompanionTampered,
    /// A signature over a root did not verify.
    SignatureInvalid,
    /// The dataset carries no usable tree metadata.
    MissingChunkGridMetadata,
    /// An index (or a selection's rank) is outside the dataset.
    HyperslabOutOfBounds { idx: usize },
    /// The tree would be deeper than `MAX_DEPTH`.
    TreeTooDeep { depth: usize },
    /// The chunk has an uncommitted write.
    NoncePending,
    /// The packed attribute is malformed.
    InvalidAttribute { reason: InvalidAttrReason },
    /// A subset proof covers another region than the one requested.
    SelectionMismatch,
    /// A version lower than one already seen was presented.
    VersionRollback { observed: u64, highest_seen: u64 },
    /// A provenance journal is malformed or inconsistent.
    JournalCorrupt,
    /// A provenance journal has an unknown format version.
    JournalUnsupportedVersion { found: u8 },
    /// A journal record does not increase the version.
    JournalNonMonotonic { appended: u64, last: u64 },
    /// Chunk-grid parameters do not hash to the authenticated grid hash.
    GridHashMismatch,
    /// The dataset's storage layout cannot be verified as a contiguous stream.
    UnsupportedLayout { reason: UnsupportedLayoutReason },
}

/// Why a packed attribute was rejected.
#[derive(Debug, Clone, Copy, PartialEq, Eq, Structural)]
pub enum InvalidAttrReason {
    /// The byte count is not the attribute's size.
    WrongSize,
    /// The algorithm byte names no algorithm.
    UnknownAlgorithm,
    /// The integrity hash does not match root and algorithm.
    IntegrityMismatch,
}

/// Why a dataset's layout was rejected for contiguous verification.
///
/// Each is a hard rejection: hashing, say, global-heap identifiers as if they
/// were the data would certify pointers rather than values.
#[derive(Debug, Clone, Copy, PartialEq, Eq, Structural)]
pub enum UnsupportedLayoutReason {
    /// Compact, chunked or virtual storage.
    NotContiguous,
    /// Contiguous storage without an allocated address.
    Unallocated,
    /// The payload lives in another file.
    ExternalStorage,
    /// Variable-length or reference datatype.
    IndirectDatatype,
    /// A required header message is missing or does not parse.
    MalformedHeader,
}

/// The message of an attribute rejection.
pub open spec fn attr_reason_text(reason: InvalidAttrReason) -> Seq<char> {
    match reason {
        InvalidAttrReason::WrongSize =>
            "attribute size is not valid (expected 129 bytes for v0)"@,
        InvalidAttrReason::UnknownAlgorithm => "unknown algorithm identifier"@,
        InvalidAttrReason::IntegrityMismatch => "integrity hash mismatch"@,
    }
}

/// The message of a layout rejection.
pub open spec fn layout_reason_text(reason: UnsupportedLayoutReason) -> Seq<char> {
    match reason {
        UnsupportedLayoutReason::NotContiguous => "storage is not contiguous"@,
        UnsupportedLayoutReason::Unallocated => "storage is not allocated"@,
        UnsupportedLayoutReason::ExternalStorage => "data is stored in an external file"@,
        UnsupportedLayoutReason::IndirectDatatype =>
            "datatype stores references instead of values"@,
        UnsupportedLayoutReason::MalformedHeader => "object header is malformed"@,
    }
}

/// The message of an error.
pub open spec fn error_text(e: MerkleError) -> Seq<char> {
    match e {
        MerkleError::HashMismatch { chunk_idx } => "leaf hash mismatch at chunk index "@ + decimal(
            chunk_idx as nat,
        ),
        MerkleError::CompanionTampered => "companion integrity hash mismatch"@,
        MerkleError::SignatureInvalid => "hybrid signature verification failed"@,
        MerkleError::MissingChunkGridMetadata => "_merkle_root attribute absent from dataset"@,
        MerkleError::HyperslabOutOfBounds { idx } => "chunk index "@ + decimal(idx as nat)
            + " exceeds dataset bounds"@,
        MerkleError::TreeTooDeep { depth } => "Merkle tree depth "@ + decimal(depth as nat)
            + " exceeds maximum allowed depth "@ + decimal(MAX_DEPTH as nat),
        MerkleError::NoncePending => "WAL has uncommitted entry for chunk"@,
        MerkleError::InvalidAttribute { reason } => "Invalid merkle attribute: "@
            + attr_reason_text(reason),
        MerkleError::SelectionMismatch =>
            "subset proof's chunk set does not match the requested selection"@,
        MerkleError::VersionRollback { observed, highest_seen } =>
            "dataset version rollback: observed version "@ + decimal(observed as nat)
            + " is lower than highest previously seen "@ + decimal(highest_seen as nat)
            + " (T4)"@,
        MerkleError::JournalCorrupt => "provenance journal is malformed or inconsistent"@,
        MerkleError::JournalUnsupportedVersion { found } => "provenance journal format version "@
            + decimal(found as nat) + " is not supported by this build (expected "@ + decimal(
            MERKLE_JOURNAL_VERSION as nat,
        ) + ")"@,
        MerkleError::JournalNonMonotonic { appended, last } =>
            "provenance journal append must strictly increase the version: tried to append version "@
            + decimal(appended as nat) + " after "@ + decimal(last as nat),
        MerkleError::GridHashMismatch =>
            "chunk-grid parameters do not match the authenticated grid hash"@,
        MerkleError::UnsupportedLayout { reason } => "unsupported dataset layout: "@
            + layout_reason_text(reason),
    }
}

impl MerkleError {
    /// The error as text.
    pub fn message(&self) -> (s: String)
        ensures
            s@ == error_text(*self),
    {
        let mut s: String = String::new();
        match self {
            MerkleError::HashMismatch { chunk_idx } => {
                push_text(&mut s, "leaf hash mismatch at chunk index ");
                push_decimal(&mut s, *chunk_idx as u64);
            },
            MerkleError::CompanionTampered => {
                push_text(&mut s, "companion integrity hash mismatch");
            },
            MerkleError::SignatureInvalid => {
                push_text(&mut s, "hybrid signature verification failed");
            },
            MerkleError::MissingChunkGridMetadata => {
                push_text(&mut s, "_merkle_root attribute absent from dataset");
            },
            MerkleError::HyperslabOutOfBounds { idx } => {
                push_text(&mut s, "chunk index ");
                push_decimal(&mut s, *idx as u64);
                push_text(&mut s, " exceeds dataset bounds");
            },
            MerkleError::TreeTooDeep { depth } => {
                push_text(&mut s, "Merkle tree depth ");
                push_decimal(&mut s, *depth as u64);
                push_text(&mut s, " exceeds maximum allowed depth ");
                push_decimal(&mut s, MAX_DEPTH as u64);
            },
            MerkleError::NoncePending => {
                push_text(&mut s, "WAL has uncommitted entry for chunk");
            },
            MerkleError::InvalidAttribute { reason } => {
                push_text(&mut s, "Invalid merkle attribute: ");
                match reason {
                    InvalidAttrReason::WrongSize => push_text(
                        &mut s,
                        "attribute size is not valid (expected 129 bytes for v0)",
                    ),
                    InvalidAttrReason::UnknownAlgorithm => push_text(
                        &mut s,
                        "unknown algorithm identifier",
                    ),
                    InvalidAttrReason::IntegrityMismatch => push_text(
                        &mut s,
                        "integrity hash mismatch",
                    ),
                }
            },
            MerkleError::SelectionMismatch => {
                push_text(
                    &mut s,
                    "subset proof's chunk set does not match the requested selection",
                );
            },
            MerkleError::VersionRollback { observed, highest_seen } => {
                push_text(&mut s, "dataset version rollback: observed version ");
                push_decimal(&mut s, *observed);
                push_text(&mut s, " is lower than highest previously seen ");
                push_decimal(&mut s, *highest_seen);
                push_text(&mut s, " (T4)");
            },
            MerkleError::JournalCorrupt => {
                push_text(&mut s, "provenance journal is malformed or inconsistent");
            },
            MerkleError::JournalUnsupportedVersion { found } => {
                push_text(&mut s, "provenance journal format version ");
                push_decimal(&mut s, *found as u64);
                push_text(&mut s, " is not supported by this build (expected ");
                push_decimal(&mut s, MERKLE_JOURNAL_VERSION as u64);
                push_text(&mut s, ")");
            },
            MerkleError::JournalNonMonotonic { appended, last } => {
                push_text(
                    &mut s,
                    "provenance journal append must strictly increase the version: tried to append version ",
                );
                push_decimal(&mut s, *appended);
                push_text(&mut s, " after ");
                push_decimal(&mut s, *last);
            },
            MerkleError::GridHashMismatch => {
                push_text(
                    &mut s,
                    "chunk-grid parameters do not match the authenticated grid hash",
                );
            },
            MerkleError::UnsupportedLayout { reason } => {
                push_text(&mut s, "unsupported dataset layout: ");
                match reason {
                    UnsupportedLayoutReason::NotContiguous => push_text(
                        &mut s,
                        "storage is not contiguous",
                    ),
                    UnsupportedLayoutReason::Unallocated => push_text(
                        &mut s,
                        "storage is not allocated",
                    ),
                    UnsupportedLayoutReason::ExternalStorage => push_text(
                        &mut s,
                        "data is stored in an external file",
                    ),
                    UnsupportedLayoutReason::IndirectDatatype => push_text(
                        &mut s,
                        "datatype stores references instead of values",
                    ),
                    UnsupportedLayoutReason::MalformedHeader => push_text(
                        &mut s,
                        "object header is malformed",
                    ),
                }
            },
        }
        assert(s@ =~= error_text(*self));
        s
    }
}

/// Whether `text` has the decimal digits of `n` at `at`.
pub open spec fn tells_number(text: Seq<char>, at: int, n: nat) -> bool {
    &&& 0 <= at
    &&& at + decimal(n).len() <= text.len()
    &&& text.subrange(at, at + decimal(n).len() as int) == decimal(n)
}

/// The text of an error has the numbers of the error, each at its place: an index or
/// a version that was refused first, what it was held against behind it.
pub proof fn law_error_text_tells_numbers(e: MerkleError)
    ensures
        ({
            let text = error_text(e);
            let len = text.len() as int;
            match e {
                MerkleError::HashMismatch { chunk_idx } => tells_number(
                    text,
                    len - decimal(chunk_idx as nat).len(),
                    chunk_idx as nat,
                ),
                MerkleError::HyperslabOutOfBounds { idx } => tells_number(text, 12, idx as nat),
                MerkleError::TreeTooDeep { depth } => tells_number(text, 18, depth as nat)
                    && tells_number(text, len - decimal(40).len(), 40),
                MerkleError::VersionRollback { observed, highest_seen } => tells_number(
                    text,
                    43,
                    observed as nat,
                ) && tells_number(
                    text,
                    len - 5 - decimal(highest_seen as nat).len(),
                    highest_seen as nat,
                ),
                MerkleError::JournalUnsupportedVersion { found } => tells_number(
                    text,
                    34,
                    found as nat,
                ) && tells_number(text, len - 1 - decimal(1).len(), 1),
                MerkleError::JournalNonMonotonic { appended, last } => tells_number(
                    text,
                    86,
                    appended as nat,
                ) && tells_number(text, len - decimal(last as nat).len(), last as nat),
                _ => true,
            }
        }),
{
    let text = error_text(e);
    let len = text.len() as int;
    match e {
        MerkleError::HashMismatch { chunk_idx } => {
            let d = decimal(chunk_idx as nat);
            assert(text.subrange(len - d.len(), len) =~= d);
        },
        MerkleError::HyperslabOutOfBounds { idx } => {
            reveal_strlit("chunk index ");
            let d = decimal(idx as nat);
            assert(text.subrange(12, 12 + d.len() as int) =~= d);
        },
        MerkleError::TreeTooDeep { depth } => {
            reveal_strlit("Merkle tree depth ");
            let d = decimal(depth as nat);
            let m = decimal(40);
            assert(text.subrange(18, 18 + d.len() as int) =~= d);
            assert(text.subrange(len - m.len(), len) =~= m);
        },
        MerkleError::VersionRollback { observed, highest_seen } => {
            reveal_strlit("dataset version rollback: observed version ");
            reveal_strlit(" (T4)");
            let d = decimal(observed as nat);
            let m = decimal(highest_seen as nat);
            assert(text.subrange(43, 43 + d.len() as int) =~= d);
            assert(text.subrange(len - 5 - m.len(), len - 5) =~= m);
        },
        MerkleError::JournalUnsupportedVersion { found } => {
            reveal_strlit("provenance journal format version ");
            reveal_strlit(")");
            let d = decimal(found as nat);
            let m = decimal(1);
            assert(text.subrange(34, 34 + d.len() as int) =~= d);
            assert(text.subrange(len - 1 - m.len(), len - 1) =~= m);
        },
        MerkleError::JournalNonMonotonic { appended, last } => {
            reveal_strlit(
                "provenance journal append must strictly increase the version: tried to append version ",
            );
            let d = decimal(appended as nat);
            let m = decimal(last as nat);
            assert(text.subrange(86, 86 + d.len() as int) =~= d);
            assert(text.subrange(len - m.len(), len) =~= m);
        },
        _ => {},
    }
}

/// Every reason has a text of its own.
pub proof fn law_reasons_have_texts_of_their_own(
    a: InvalidAttrReason,
    b: InvalidAttrReason,
    c: UnsupportedLayoutReason,
    d: UnsupportedLayoutReason,
)
    ensures
        attr_reason_text(a) == attr_reason_text(b) ==> a == b,
        layout_reason_text(c) == layout_reason_text(d) ==> c == d,
{
    reveal_strlit("attribute size is not valid (expected 129 bytes for v0)");
    reveal_strlit("unknown algorithm identifier");
    reveal_strlit("integrity hash mismatch");
    reveal_strlit("storage is not contiguous");
    reveal_strlit("storage is not allocated");
    reveal_strlit("data is stored in an external file");
    reveal_strlit("datatype stores references instead of values");
    reveal_strlit("object header is malformed");
    if a != b {
        assert(attr_reason_text(a).len() != attr_reason_text(b).len());
    }
    if c != d {
        assert(layout_reason_text(c).len() != layout_reason_text(d).len());
    }
}

} // verus!
