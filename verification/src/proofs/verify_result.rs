//! The outcome of verifying an inclusion proof.

use vstd::prelude::*;

verus! {

/// The outcome of verifying an inclusion proof.
///
/// Verification always comes to an end with one of the two outcomes. A proof that
/// is malformed or leaves a gap does not verify: it fails.
#[derive(Debug, Clone, Copy, PartialEq, Eq, Structural)]
pub enum ProofVerifyResult {
    /// The root that the proof leads to is the root that was claimed.
    PassedDecisively,
    /// The proof leads to another root, or to none.
    FailedDecisively,
}

impl ProofVerifyResult {
    /// The outcome for a proof that holds if `holds`, and fails otherwise.
    pub open spec fn spec_from_bool(holds: bool) -> ProofVerifyResult {
        if holds {
            ProofVerifyResult::PassedDecisively
        } else {
            ProofVerifyResult::FailedDecisively
        }
    }

    /// The outcome for a proof that holds if `holds`, and fails otherwise.
    pub fn from_bool(holds: bool) -> (outcome: ProofVerifyResult)
        ensures
            outcome == Self::spec_from_bool(holds),
    {
        if holds {
            ProofVerifyResult::PassedDecisively
        } else {
            ProofVerifyResult::FailedDecisively
        }
    }

    /// Whether the proof was confirmed.
    pub fn passed_decisively(&self) -> (passed: bool)
        ensures
            passed == (*self == ProofVerifyResult::PassedDecisively),
    {
        match self {
            ProofVerifyResult::PassedDecisively => true,
            ProofVerifyResult::FailedDecisively => false,
        }
    }

    /// Whether the proof was refuted.
    pub fn failed(&self) -> (failed: bool)
        ensures
            failed == (*self == ProofVerifyResult::FailedDecisively),
    {
        match self {
            ProofVerifyResult::PassedDecisively => false,
            ProofVerifyResult::FailedDecisively => true,
        }
    }
}

} // verus!
