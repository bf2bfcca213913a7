//! Admission of the lock file.

use super::evidence::LockLeafSymlinkProtection;
use crate::error::StoreError;
use vstd::prelude::*;

verus! {

/// Leave to open the lock file.
#[derive(Clone, Copy, Debug)]
pub struct StoreLockAdmission {
    granted: bool,
}

/// The lock file is protected well enough.
pub open spec fn lock_admissible(evidence: LockLeafSymlinkProtection) -> bool {
    evidence == LockLeafSymlinkProtection::AtomicNoFollow || evidence
        == LockLeafSymlinkProtection::BestEffortCheckThenOpen
}

/// Name of what was observed of the lock file.
pub open spec fn protection_text(evidence: LockLeafSymlinkProtection) -> Seq<char> {
    match evidence {
        LockLeafSymlinkProtection::AtomicNoFollow => "AtomicNoFollow"@,
        LockLeafSymlinkProtection::BestEffortCheckThenOpen => "BestEffortCheckThenOpen"@,
        LockLeafSymlinkProtection::Unknown => "Unknown"@,
        LockLeafSymlinkProtection::ObservedUnsupported => "ObservedUnsupported"@,
        LockLeafSymlinkProtection::ProbeFailed => "ProbeFailed"@,
    }
}

fn protection_name(evidence: LockLeafSymlinkProtection) -> (name: &'static str)
    ensures
        name@ == protection_text(evidence),
{
    match evidence {
        LockLeafSymlinkProtection::AtomicNoFollow => "AtomicNoFollow",
        LockLeafSymlinkProtection::BestEffortCheckThenOpen => "BestEffortCheckThenOpen",
        LockLeafSymlinkProtection::Unknown => "Unknown",
        LockLeafSymlinkProtection::ObservedUnsupported => "ObservedUnsupported",
        LockLeafSymlinkProtection::ProbeFailed => "ProbeFailed",
    }
}

/// Leave to open the lock file, where it is protected well enough.
pub fn admit_store_lock(evidence: LockLeafSymlinkProtection) -> (r: Result<
    StoreLockAdmission,
    StoreError,
>)
    ensures
        r is Ok <==> lock_admissible(evidence),
        r matches Err(e) ==> (e matches StoreError::PlatformAdmissionFailed {
            capability,
            reason,
        } && capability@ == "store lock symlink-leaf protection"@ && reason@ == "lock evidence "@
            + protection_text(evidence) + " is not admissible"@),
{
    match evidence {
        LockLeafSymlinkProtection::AtomicNoFollow
        | LockLeafSymlinkProtection::BestEffortCheckThenOpen => Ok(
            StoreLockAdmission { granted: true },
        ),
        LockLeafSymlinkProtection::Unknown | LockLeafSymlinkProtection::ObservedUnsupported
        | LockLeafSymlinkProtection::ProbeFailed => {
            let mut reason = "lock evidence ".to_owned();
            reason.append(protection_name(evidence));
            reason.append(" is not admissible");
            Err(
                StoreError::PlatformAdmissionFailed {
                    capability: "store lock symlink-leaf protection",
                    reason,
                },
            )
        },
    }
}

/// The lock file may be opened exactly where the open itself refuses symlinks or a check
/// comes before it.
pub proof fn law_lock_is_admitted_where_protected(
    evidence: LockLeafSymlinkProtection,
    r: Result<StoreLockAdmission, StoreError>,
)
    requires
        call_ensures(admit_store_lock, (evidence,), r),
    ensures
        r is Ok <==> evidence is AtomicNoFollow || evidence is BestEffortCheckThenOpen,
        r is Err <==> evidence is Unknown || evidence is ObservedUnsupported
            || evidence is ProbeFailed,
        r is Err ==> r->Err_0 is PlatformAdmissionFailed,
{
}

/// What was observed of the lock file has its own name.
pub proof fn law_protection_has_its_name(evidence: LockLeafSymlinkProtection)
    ensures
        evidence is AtomicNoFollow ==> protection_text(evidence) == "AtomicNoFollow"@,
        evidence is BestEffortCheckThenOpen ==> protection_text(evidence)
            == "BestEffortCheckThenOpen"@,
        evidence is Unknown ==> protection_text(evidence) == "Unknown"@,
        evidence is ObservedUnsupported ==> protection_text(evidence) == "ObservedUnsupported"@,
        evidence is ProbeFailed ==> protection_text(evidence) == "ProbeFailed"@,
{
}

} // verus!
