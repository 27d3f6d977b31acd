//! What to do about a failed verification.

use crate::error::MerkleError;
use vstd::prelude::*;

verus! {

/// How a reader reacts to a verification failure.
#[derive(Debug, Clone, Copy, PartialEq, Eq, Hash, Structural)]
#[non_exhaustive]
pub enum VerifyResponse {
    /// Stop.
    Halt,
    /// Set the dataset aside and go on.
    Quarantine,
    /// Report and go on.
    Alert,
}

impl Default for VerifyResponse {
    /// `Halt`.
    fn default() -> (r: Self)
        ensures
            r == VerifyResponse::Halt,
    {
        VerifyResponse::Halt
    }
}

/// The response when no policy is configured: fail closed on every error.
#[must_use]
pub fn default_response(e: &MerkleError) -> (r: VerifyResponse)
    ensures
        r == VerifyResponse::Halt,
{
    match e {
        MerkleError::HashMismatch { .. } => VerifyResponse::Halt,
        MerkleError::CompanionTampered => VerifyResponse::Halt,
        MerkleError::SignatureInvalid => VerifyResponse::Halt,
        MerkleError::MissingChunkGridMetadata => VerifyResponse::Halt,
        MerkleError::HyperslabOutOfBounds { .. } => VerifyResponse::Halt,
        MerkleError::TreeTooDeep { .. } => VerifyResponse::Halt,
        MerkleError::NoncePending => VerifyResponse::Halt,
        MerkleError::InvalidAttribute { .. } => VerifyResponse::Halt,
        MerkleError::SelectionMismatch => VerifyResponse::Halt,
        MerkleError::VersionRollback { .. } => VerifyResponse::Halt,
        MerkleError::JournalCorrupt => VerifyResponse::Halt,
        MerkleError::JournalUnsupportedVersion { .. } => VerifyResponse::Halt,
        MerkleError::JournalNonMonotonic { .. } => VerifyResponse::Halt,
        MerkleError::GridHashMismatch => VerifyResponse::Halt,
        MerkleError::UnsupportedLayout { .. } => VerifyResponse::Halt,
    }
}

/// Whether the file's roots are signed.
#[derive(Debug, Clone, Copy, PartialEq, Eq, Structural)]
pub enum SigningContext {
    Unsigned,
    Signed,
}

/// The operator's choice for content inconsistencies.
#[derive(Debug, Clone, Copy, PartialEq, Eq, Structural)]
#[non_exhaustive]
pub enum ResponsePolicy {
    Halt,
    Quarantine,
    AlertAndContinue,
}

impl Default for ResponsePolicy {
    /// `Halt`.
    fn default() -> (r: Self)
        ensures
            r == ResponsePolicy::Halt,
    {
        ResponsePolicy::Halt
    }
}

/// A recovery step that may be offered.
#[derive(Debug, Clone, Copy, PartialEq, Eq, Structural)]
pub enum RecoveryAction {
    /// Leave the data as it is.
    NoRecovery,
    /// Rebuild the tree from the data on disk.
    RebuildByRehash,
}

/// A response together with the recovery it allows.
#[derive(Debug, Clone, Copy, PartialEq, Eq, Structural)]
pub struct ResolvedResponse {
    pub response: VerifyResponse,
    pub recovery: RecoveryAction,
}

/// Whether `e` says that stored content and its hashes disagree.
pub open spec fn is_content_inconsistency(e: MerkleError) -> bool {
    e is HashMismatch || e is CompanionTampered || e is SignatureInvalid
}

/// The response to `e` under `policy` and `signing`.
pub open spec fn resolved(
    e: MerkleError,
    policy: ResponsePolicy,
    signing: SigningContext,
) -> ResolvedResponse {
    if is_content_inconsistency(e) {
        ResolvedResponse {
            response: match policy {
                ResponsePolicy::Halt => VerifyResponse::Halt,
                ResponsePolicy::Quarantine => VerifyResponse::Quarantine,
                ResponsePolicy::AlertAndContinue => VerifyResponse::Alert,
            },
            recovery: match signing {
                SigningContext::Signed => RecoveryAction::NoRecovery,
                SigningContext::Unsigned => RecoveryAction::RebuildByRehash,
            },
        }
    } else {
        ResolvedResponse { response: VerifyResponse::Halt, recovery: RecoveryAction::NoRecovery }
    }
}

/// Applies `policy` to content inconsistencies; every other error halts.
/// Re-hashing is offered only where nothing is signed.
#[must_use]
pub fn resolve_response(e: &MerkleError, policy: ResponsePolicy, signing: SigningContext) -> (r:
    ResolvedResponse)
    ensures
        r == resolved(*e, policy, signing),
        match *e {
            MerkleError::HashMismatch { .. } | MerkleError::CompanionTampered
            | MerkleError::SignatureInvalid => {
                &&& policy == ResponsePolicy::Halt ==> r.response == VerifyResponse::Halt
                &&& policy == ResponsePolicy::Quarantine ==> r.response
                    == VerifyResponse::Quarantine
                &&& policy == ResponsePolicy::AlertAndContinue ==> r.response
                    == VerifyResponse::Alert
                &&& (r.recovery == RecoveryAction::RebuildByRehash) == (signing
                    == SigningContext::Unsigned)
            },
            _ => r.response == VerifyResponse::Halt && r.recovery == RecoveryAction::NoRecovery,
        },
{
    let inconsistent: bool = match e {
        MerkleError::HashMismatch { .. } => true,
        MerkleError::CompanionTampered => true,
        MerkleError::SignatureInvalid => true,
        _ => false,
    };
    if !inconsistent {
        return ResolvedResponse {
            response: VerifyResponse::Halt,
            recovery: RecoveryAction::NoRecovery,
        };
    }
    let response: VerifyResponse = match policy {
        ResponsePolicy::Halt => VerifyResponse::Halt,
        ResponsePolicy::Quarantine => VerifyResponse::Quarantine,
        ResponsePolicy::AlertAndContinue => VerifyResponse::Alert,
    };
    let recovery: RecoveryAction = match signing {
        SigningContext::Signed => RecoveryAction::NoRecovery,
        SigningContext::Unsigned => RecoveryAction::RebuildByRehash,
    };
    ResolvedResponse { response, recovery }
}

/// Where stored content and its hashes disagree, the response is the one that the
/// policy names, whether the file is signed or not; re-hashing is offered exactly
/// where it is not. The two have no say in each other.
pub proof fn law_policy_decides_response(
    e: MerkleError,
    policy: ResponsePolicy,
    signing: SigningContext,
)
    requires
        e is HashMismatch || e is CompanionTampered || e is SignatureInvalid,
    ensures
        (resolved(e, policy, signing).response == VerifyResponse::Halt) == (policy
            == ResponsePolicy::Halt),
        (resolved(e, policy, signing).response == VerifyResponse::Quarantine) == (policy
            == ResponsePolicy::Quarantine),
        (resolved(e, policy, signing).response == VerifyResponse::Alert) == (policy
            == ResponsePolicy::AlertAndContinue),
        (resolved(e, policy, signing).recovery == RecoveryAction::RebuildByRehash) == (signing
            == SigningContext::Unsigned),
        (resolved(e, policy, signing).recovery == RecoveryAction::NoRecovery) == (signing
            == SigningContext::Signed),
{
}

/// Every other error halts and offers nothing, whatever the policy and the signing.
pub proof fn law_only_disagreements_follow_policy(
    e: MerkleError,
    policy: ResponsePolicy,
    signing: SigningContext,
)
    requires
        !(e is HashMismatch),
        !(e is CompanionTampered),
        !(e is SignatureInvalid),
    ensures
        resolved(e, policy, signing).response == VerifyResponse::Halt,
        resolved(e, policy, signing).recovery == RecoveryAction::NoRecovery,
{
}

/// Signed data is never re-hashed on its own, whatever the error and policy.
pub proof fn law_signed_never_rebuilds(e: MerkleError, policy: ResponsePolicy)
    ensures
        resolved(e, policy, SigningContext::Signed).recovery == RecoveryAction::NoRecovery,
{
}

/// Outside content inconsistencies neither policy nor signing has a say.
pub proof fn law_other_errors_halt(
    e: MerkleError,
    policy: ResponsePolicy,
    signing: SigningContext,
)
    requires
        !is_content_inconsistency(e),
    ensures
        resolved(e, policy, signing).response == VerifyResponse::Halt,
        resolved(e, policy, signing).recovery == RecoveryAction::NoRecovery,
{
}

} // verus!
