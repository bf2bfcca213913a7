//! What was observed of the platform, and what is admitted for it.

use vstd::prelude::*;

verus! {

/// What was observed of the store path.
#[derive(Debug, PartialEq, Eq)]
pub enum StorePathStatusEvidence {
    /// A directory.
    ObservedDirectory,
    /// Something other than a directory.
    ObservedUnsupportedNotDirectory,
    /// Nothing.
    UnknownMissing,
    /// The path could not be looked at.
    ProbeFailed {
        /// Why not.
        reason: String,
    },
}

impl StorePathStatusEvidence {
    /// The same observation, with the same reason.
    pub open spec fn same(&self, other: &StorePathStatusEvidence) -> bool {
        match (self, other) {
            (
                StorePathStatusEvidence::ProbeFailed { reason: a },
                StorePathStatusEvidence::ProbeFailed { reason: b },
            ) => a@ == b@,
            (
                StorePathStatusEvidence::ObservedDirectory,
                StorePathStatusEvidence::ObservedDirectory,
            ) => true,
            (
                StorePathStatusEvidence::ObservedUnsupportedNotDirectory,
                StorePathStatusEvidence::ObservedUnsupportedNotDirectory,
            ) => true,
            (
                StorePathStatusEvidence::UnknownMissing,
                StorePathStatusEvidence::UnknownMissing,
            ) => true,
            _ => false,
        }
    }

    /// Whether two observations are the same.
    pub fn is_same(&self, other: &StorePathStatusEvidence) -> (r: bool)
        ensures
            r == self.same(other),
    {
        match (self, other) {
            (
                StorePathStatusEvidence::ProbeFailed { reason: a },
                StorePathStatusEvidence::ProbeFailed { reason: b },
            ) => crate::text::str_equal(a.as_str(), b.as_str()),
            (
                StorePathStatusEvidence::ObservedDirectory,
                StorePathStatusEvidence::ObservedDirectory,
            ) => true,
            (
                StorePathStatusEvidence::ObservedUnsupportedNotDirectory,
                StorePathStatusEvidence::ObservedUnsupportedNotDirectory,
            ) => true,
            (
                StorePathStatusEvidence::UnknownMissing,
                StorePathStatusEvidence::UnknownMissing,
            ) => true,
            _ => false,
        }
    }
}

impl Clone for StorePathStatusEvidence {
    fn clone(&self) -> (r: StorePathStatusEvidence)
        ensures
            r == *self,
    {
        match self {
            StorePathStatusEvidence::ObservedDirectory => {
                StorePathStatusEvidence::ObservedDirectory
            },
            StorePathStatusEvidence::ObservedUnsupportedNotDirectory => {
                StorePathStatusEvidence::ObservedUnsupportedNotDirectory
            },
            StorePathStatusEvidence::UnknownMissing => StorePathStatusEvidence::UnknownMissing,
            StorePathStatusEvidence::ProbeFailed { reason } => {
                StorePathStatusEvidence::ProbeFailed { reason: reason.clone() }
            },
        }
    }
}

/// How the parent directory is synced.
#[derive(Clone, Copy, Debug, PartialEq, Eq, Structural)]
pub enum ParentDirSyncEvidence {
    /// By a sync of the directory.
    UnixFsync,
    /// Not at all; renames alone.
    RenameOnly,
    /// Unknown.
    Unknown,
    /// The probe failed.
    ProbeFailed,
}

/// How the lock file is protected from symlinks.
#[derive(Clone, Copy, Debug, PartialEq, Eq, Structural)]
pub enum LockLeafSymlinkProtection {
    /// The open itself refuses symlinks.
    AtomicNoFollow,
    /// A check before the open.
    BestEffortCheckThenOpen,
    /// Unknown.
    Unknown,
    /// Seen to be unsupported.
    ObservedUnsupported,
    /// The probe failed.
    ProbeFailed,
}

/// Whether files can be mapped into memory.
#[derive(Clone, Copy, Debug, PartialEq, Eq, Structural)]
pub enum MmapEvidence {
    /// They can.
    FileBacked,
    /// Unknown.
    Unknown,
    /// Seen to be unsupported.
    ObservedUnsupported,
    /// The probe failed.
    ProbeFailed,
}

/// How the active segment is read.
#[derive(Clone, Copy, Debug, PartialEq, Eq, Structural)]
pub enum ActiveSegmentReadEvidence {
    /// By positioned reads.
    UnixReadAt,
    /// By seeks under a lock.
    LockedSeekRead,
    /// Unknown.
    Unknown,
    /// The probe failed.
    ProbeFailed,
}

/// What the monotonic clock is.
#[derive(Clone, Copy, Debug, PartialEq, Eq, Structural)]
pub enum ClockEvidence {
    /// Time since an anchor that the process set.
    ProcessLocalInstantAnchor,
}

/// What was observed of the store path.
#[derive(Debug, PartialEq, Eq)]
pub struct StorePathEvidenceSummary {
    /// The path itself.
    pub path_status: StorePathStatusEvidence,
    /// Directory syncs.
    pub parent_dir_sync: ParentDirSyncEvidence,
    /// Lock file.
    pub lock_leaf_symlink_protection: LockLeafSymlinkProtection,
    /// Mapping of the index.
    pub mmap_index: MmapEvidence,
    /// Mapping of sealed segments.
    pub sealed_segment_mmap: MmapEvidence,
    /// Reads of the active segment.
    pub active_segment_read: ActiveSegmentReadEvidence,
}

impl StorePathEvidenceSummary {
    /// The same observations.
    pub open spec fn same(&self, other: &StorePathEvidenceSummary) -> bool {
        &&& self.path_status.same(&other.path_status)
        &&& self.parent_dir_sync == other.parent_dir_sync
        &&& self.lock_leaf_symlink_protection == other.lock_leaf_symlink_protection
        &&& self.mmap_index == other.mmap_index
        &&& self.sealed_segment_mmap == other.sealed_segment_mmap
        &&& self.active_segment_read == other.active_segment_read
    }

    /// Whether two summaries hold the same observations.
    pub fn is_same(&self, other: &StorePathEvidenceSummary) -> (r: bool)
        ensures
            r == self.same(other),
    {
        self.path_status.is_same(&other.path_status) && self.parent_dir_sync
            == other.parent_dir_sync && self.lock_leaf_symlink_protection
            == other.lock_leaf_symlink_protection && self.mmap_index == other.mmap_index
            && self.sealed_segment_mmap == other.sealed_segment_mmap && self.active_segment_read
            == other.active_segment_read
    }
}

impl Clone for StorePathEvidenceSummary {
    fn clone(&self) -> (r: StorePathEvidenceSummary)
        ensures
            r == *self,
    {
        StorePathEvidenceSummary {
            path_status: self.path_status.clone(),
            parent_dir_sync: self.parent_dir_sync,
            lock_leaf_symlink_protection: self.lock_leaf_symlink_protection,
            mmap_index: self.mmap_index,
            sealed_segment_mmap: self.sealed_segment_mmap,
            active_segment_read: self.active_segment_read,
        }
    }
}

/// What was observed of the host.
#[derive(Clone, Copy, Debug, PartialEq, Eq, Structural)]
pub struct HostEvidenceSummary {
    /// Marker of the process's monotonic epoch.
    pub process_clock_epoch_marker_ns: u64,
    /// The monotonic clock.
    pub monotonic_clock: ClockEvidence,
}

/// What is admitted for the lock file.
#[derive(Clone, Copy, Debug, PartialEq, Eq, Structural)]
pub enum StoreLockAdmissionSummary {
    /// Opens that refuse symlinks.
    AtomicNoFollow,
    /// Checks before opens.
    BestEffortCheckThenOpen,
    /// Nothing.
    Rejected,
}

/// What is admitted for directory syncs.
#[derive(Clone, Copy, Debug, PartialEq, Eq, Structural)]
pub enum ParentDirSyncAdmissionSummary {
    /// Syncs of the directory.
    UnixFsync,
    /// Renames alone.
    RenameOnly,
    /// Nothing.
    Rejected,
}

/// What is admitted for mappings.
#[derive(Clone, Copy, Debug, PartialEq, Eq, Structural)]
pub enum MmapAdmissionSummary {
    /// File-backed mappings.
    FileBacked,
    /// Nothing.
    Rejected,
}

/// What is admitted for the platform.
#[derive(Clone, Copy, Debug, PartialEq, Eq, Structural)]
pub struct PlatformAdmissionSummary {
    /// Lock file.
    pub store_lock: StoreLockAdmissionSummary,
    /// Directory syncs.
    pub parent_dir_sync: ParentDirSyncAdmissionSummary,
    /// Mapping of the index.
    pub mmap_index: MmapAdmissionSummary,
    /// Mapping of sealed segments.
    pub sealed_segment_mmap: MmapAdmissionSummary,
}

/// What was observed of the platform, and what is admitted for it.
#[derive(Debug, PartialEq, Eq)]
pub struct PlatformEvidenceSummary {
    /// The host.
    pub host: HostEvidenceSummary,
    /// The store path.
    pub store_path: StorePathEvidenceSummary,
    /// What is admitted.
    pub admission: PlatformAdmissionSummary,
}

/// What is admitted for a lock file.
pub open spec fn lock_admission_of(evidence: LockLeafSymlinkProtection) -> StoreLockAdmissionSummary {
    match evidence {
        LockLeafSymlinkProtection::AtomicNoFollow => StoreLockAdmissionSummary::AtomicNoFollow,
        LockLeafSymlinkProtection::BestEffortCheckThenOpen => {
            StoreLockAdmissionSummary::BestEffortCheckThenOpen
        },
        _ => StoreLockAdmissionSummary::Rejected,
    }
}

/// What is admitted for directory syncs.
pub open spec fn sync_admission_of(evidence: ParentDirSyncEvidence) -> ParentDirSyncAdmissionSummary {
    match evidence {
        ParentDirSyncEvidence::UnixFsync => ParentDirSyncAdmissionSummary::UnixFsync,
        ParentDirSyncEvidence::RenameOnly => ParentDirSyncAdmissionSummary::RenameOnly,
        _ => ParentDirSyncAdmissionSummary::Rejected,
    }
}

/// What is admitted for mappings.
pub open spec fn mmap_admission_of(evidence: MmapEvidence) -> MmapAdmissionSummary {
    match evidence {
        MmapEvidence::FileBacked => MmapAdmissionSummary::FileBacked,
        _ => MmapAdmissionSummary::Rejected,
    }
}

/// What is admitted for observations.
pub open spec fn admission_of(store_path: StorePathEvidenceSummary) -> PlatformAdmissionSummary {
    PlatformAdmissionSummary {
        store_lock: lock_admission_of(store_path.lock_leaf_symlink_protection),
        parent_dir_sync: sync_admission_of(store_path.parent_dir_sync),
        mmap_index: mmap_admission_of(store_path.mmap_index),
        sealed_segment_mmap: mmap_admission_of(store_path.sealed_segment_mmap),
    }
}

/// What is admitted for a lock file.
pub fn lock_admission(evidence: LockLeafSymlinkProtection) -> (r: StoreLockAdmissionSummary)
    ensures
        r == lock_admission_of(evidence),
{
    match evidence {
        LockLeafSymlinkProtection::AtomicNoFollow => StoreLockAdmissionSummary::AtomicNoFollow,
        LockLeafSymlinkProtection::BestEffortCheckThenOpen => {
            StoreLockAdmissionSummary::BestEffortCheckThenOpen
        },
        LockLeafSymlinkProtection::Unknown | LockLeafSymlinkProtection::ObservedUnsupported
        | LockLeafSymlinkProtection::ProbeFailed => StoreLockAdmissionSummary::Rejected,
    }
}

/// What is admitted for directory syncs.
pub fn sync_admission(evidence: ParentDirSyncEvidence) -> (r: ParentDirSyncAdmissionSummary)
    ensures
        r == sync_admission_of(evidence),
{
    match evidence {
        ParentDirSyncEvidence::UnixFsync => ParentDirSyncAdmissionSummary::UnixFsync,
        ParentDirSyncEvidence::RenameOnly => ParentDirSyncAdmissionSummary::RenameOnly,
        ParentDirSyncEvidence::Unknown | ParentDirSyncEvidence::ProbeFailed => {
            ParentDirSyncAdmissionSummary::Rejected
        },
    }
}

/// What is admitted for mappings.
pub fn mmap_admission(evidence: MmapEvidence) -> (r: MmapAdmissionSummary)
    ensures
        r == mmap_admission_of(evidence),
{
    match evidence {
        MmapEvidence::FileBacked => MmapAdmissionSummary::FileBacked,
        MmapEvidence::Unknown | MmapEvidence::ObservedUnsupported | MmapEvidence::ProbeFailed => {
            MmapAdmissionSummary::Rejected
        },
    }
}

/// What is admitted for observations, each family on its own.
pub fn admission_from_store_path(store_path: &StorePathEvidenceSummary) -> (r:
    PlatformAdmissionSummary)
    ensures
        r == admission_of(*store_path),
{
    PlatformAdmissionSummary {
        store_lock: lock_admission(store_path.lock_leaf_symlink_protection),
        parent_dir_sync: sync_admission(store_path.parent_dir_sync),
        mmap_index: mmap_admission(store_path.mmap_index),
        sealed_segment_mmap: mmap_admission(store_path.sealed_segment_mmap),
    }
}

/// Kinds of input and output errors that are told apart.
#[derive(Clone, Copy, Debug, PartialEq, Eq, Structural)]
pub enum IoErrorKind {
    /// There is no such file.
    NotFound,
    /// Permission was denied.
    PermissionDenied,
    /// The operation is not supported.
    Unsupported,
    /// An argument was refused.
    InvalidInput,
    /// Any other error.
    Other,
}

/// What looking at a path gave.
pub enum PathProbe {
    /// A directory.
    Directory,
    /// Something other than a directory.
    NotDirectory,
    /// An error, with its text.
    Failed(IoErrorKind, String),
}

/// What a look at a path is evidence of.
pub fn path_status(probe: PathProbe) -> (r: StorePathStatusEvidence)
    ensures
        r == match probe {
            PathProbe::Directory => StorePathStatusEvidence::ObservedDirectory,
            PathProbe::NotDirectory => StorePathStatusEvidence::ObservedUnsupportedNotDirectory,
            PathProbe::Failed(IoErrorKind::NotFound, _) => StorePathStatusEvidence::UnknownMissing,
            PathProbe::Failed(_, reason) => StorePathStatusEvidence::ProbeFailed { reason },
        },
{
    match probe {
        PathProbe::Directory => StorePathStatusEvidence::ObservedDirectory,
        PathProbe::NotDirectory => StorePathStatusEvidence::ObservedUnsupportedNotDirectory,
        PathProbe::Failed(kind, reason) => if kind == IoErrorKind::NotFound {
            StorePathStatusEvidence::UnknownMissing
        } else {
            StorePathStatusEvidence::ProbeFailed { reason }
        },
    }
}

/// What a failed mapping is evidence of.
pub open spec fn map_error_evidence(kind: IoErrorKind) -> MmapEvidence {
    match kind {
        IoErrorKind::Unsupported => MmapEvidence::ObservedUnsupported,
        IoErrorKind::PermissionDenied => MmapEvidence::ObservedUnsupported,
        _ => MmapEvidence::ProbeFailed,
    }
}

/// What a failed mapping is evidence of.
pub fn mmap_map_error_evidence(kind: IoErrorKind) -> (r: MmapEvidence)
    ensures
        r == map_error_evidence(kind),
{
    match kind {
        IoErrorKind::Unsupported | IoErrorKind::PermissionDenied => {
            MmapEvidence::ObservedUnsupported
        },
        IoErrorKind::NotFound | IoErrorKind::InvalidInput | IoErrorKind::Other => {
            MmapEvidence::ProbeFailed
        },
    }
}

/// What the status of a path says of mappings below it, where it says anything.
pub open spec fn mmap_without_probe(status: StorePathStatusEvidence) -> Option<MmapEvidence> {
    match status {
        StorePathStatusEvidence::ObservedDirectory => None,
        StorePathStatusEvidence::ObservedUnsupportedNotDirectory => Some(
            MmapEvidence::ObservedUnsupported,
        ),
        StorePathStatusEvidence::UnknownMissing => Some(MmapEvidence::Unknown),
        StorePathStatusEvidence::ProbeFailed { .. } => Some(MmapEvidence::ProbeFailed),
    }
}

/// What the status of a path says of mappings below it. Only a directory is
/// probed.
pub fn mmap_evidence_without_probe(status: &StorePathStatusEvidence) -> (r: Option<MmapEvidence>)
    ensures
        r == mmap_without_probe(*status),
{
    match status {
        StorePathStatusEvidence::ObservedDirectory => None,
        StorePathStatusEvidence::ObservedUnsupportedNotDirectory => Some(
            MmapEvidence::ObservedUnsupported,
        ),
        StorePathStatusEvidence::UnknownMissing => Some(MmapEvidence::Unknown),
        StorePathStatusEvidence::ProbeFailed { .. } => Some(MmapEvidence::ProbeFailed),
    }
}

/// What probing a mapping gave.
#[derive(Clone, Copy, Debug, PartialEq, Eq, Structural)]
pub enum MmapProbe {
    /// The probe file could not be made.
    NoFile,
    /// It was mapped.
    Mapped,
    /// Mapping it failed.
    MapFailed(IoErrorKind),
}

/// What a probed mapping is evidence of.
pub fn mmap_evidence_of_probe(probe: MmapProbe) -> (r: MmapEvidence)
    ensures
        r == match probe {
            MmapProbe::NoFile => MmapEvidence::ProbeFailed,
            MmapProbe::Mapped => MmapEvidence::FileBacked,
            MmapProbe::MapFailed(kind) => map_error_evidence(kind),
        },
{
    match probe {
        MmapProbe::NoFile => MmapEvidence::ProbeFailed,
        MmapProbe::Mapped => MmapEvidence::FileBacked,
        MmapProbe::MapFailed(kind) => mmap_map_error_evidence(kind),
    }
}

/// The summary of what was observed.
pub fn evidence_for_store_path(
    process_clock_epoch_marker_ns: u64,
    path_status: StorePathStatusEvidence,
    parent_dir_sync: ParentDirSyncEvidence,
    lock_leaf_symlink_protection: LockLeafSymlinkProtection,
    mmap: MmapEvidence,
    active_segment_read: ActiveSegmentReadEvidence,
) -> (r: PlatformEvidenceSummary)
    ensures
        r.host == (HostEvidenceSummary {
            process_clock_epoch_marker_ns,
            monotonic_clock: ClockEvidence::ProcessLocalInstantAnchor,
        }),
        r.store_path == (StorePathEvidenceSummary {
            path_status,
            parent_dir_sync,
            lock_leaf_symlink_protection,
            mmap_index: mmap,
            sealed_segment_mmap: mmap,
            active_segment_read,
        }),
        r.admission == admission_of(r.store_path),
{
    let store_path = StorePathEvidenceSummary {
        path_status,
        parent_dir_sync,
        lock_leaf_symlink_protection,
        mmap_index: mmap,
        sealed_segment_mmap: mmap,
        active_segment_read,
    };
    let admission = admission_from_store_path(&store_path);
    PlatformEvidenceSummary {
        host: HostEvidenceSummary {
            process_clock_epoch_marker_ns,
            monotonic_clock: ClockEvidence::ProcessLocalInstantAnchor,
        },
        store_path,
        admission,
    }
}

/// Every family is admitted on its own, and as it was observed: an open that refuses
/// symlinks or a check before it, a directory sync or renames alone, and file-backed
/// mappings. Everything else is rejected.
pub proof fn law_admission_follows_from_what_was_observed(
    store_path: &StorePathEvidenceSummary,
    r: PlatformAdmissionSummary,
)
    requires
        call_ensures(admission_from_store_path, (store_path,), r),
    ensures
        r.store_lock is AtomicNoFollow
            <==> store_path.lock_leaf_symlink_protection is AtomicNoFollow,
        r.store_lock is BestEffortCheckThenOpen
            <==> store_path.lock_leaf_symlink_protection is BestEffortCheckThenOpen,
        r.parent_dir_sync is UnixFsync <==> store_path.parent_dir_sync is UnixFsync,
        r.parent_dir_sync is RenameOnly <==> store_path.parent_dir_sync is RenameOnly,
        r.mmap_index is FileBacked <==> store_path.mmap_index is FileBacked,
        r.sealed_segment_mmap is FileBacked <==> store_path.sealed_segment_mmap is FileBacked,
{
}

/// Each admission on its own.
pub proof fn law_each_admission_follows(
    lock: LockLeafSymlinkProtection,
    of_lock: StoreLockAdmissionSummary,
    sync: ParentDirSyncEvidence,
    of_sync: ParentDirSyncAdmissionSummary,
    mmap: MmapEvidence,
    of_mmap: MmapAdmissionSummary,
)
    requires
        call_ensures(lock_admission, (lock,), of_lock),
        call_ensures(sync_admission, (sync,), of_sync),
        call_ensures(mmap_admission, (mmap,), of_mmap),
    ensures
        of_lock is AtomicNoFollow <==> lock is AtomicNoFollow,
        of_lock is BestEffortCheckThenOpen <==> lock is BestEffortCheckThenOpen,
        of_lock is Rejected <==> lock is Unknown || lock is ObservedUnsupported
            || lock is ProbeFailed,
        of_sync is UnixFsync <==> sync is UnixFsync,
        of_sync is RenameOnly <==> sync is RenameOnly,
        of_sync is Rejected <==> sync is Unknown || sync is ProbeFailed,
        of_mmap is FileBacked <==> mmap is FileBacked,
        of_mmap is Rejected <==> mmap is Unknown || mmap is ObservedUnsupported
            || mmap is ProbeFailed,
{
}

/// A mapping that is unsupported or not permitted was seen to be unsupported; any other
/// failure is one of the probe. Only a directory is probed.
pub proof fn law_failed_mappings_are_told_apart(
    kind: IoErrorKind,
    of_error: MmapEvidence,
    probe: MmapProbe,
    of_probe: MmapEvidence,
    status: &StorePathStatusEvidence,
    of_status: Option<MmapEvidence>,
)
    requires
        call_ensures(mmap_map_error_evidence, (kind,), of_error),
        call_ensures(mmap_evidence_of_probe, (probe,), of_probe),
        call_ensures(mmap_evidence_without_probe, (status,), of_status),
    ensures
        kind is Unsupported || kind is PermissionDenied ==> of_error is ObservedUnsupported,
        !(kind is Unsupported) && !(kind is PermissionDenied) ==> of_error is ProbeFailed,
        of_probe is FileBacked <==> probe is Mapped,
        probe is NoFile ==> of_probe is ProbeFailed,
        probe matches MmapProbe::MapFailed(why) ==> (of_probe is ObservedUnsupported
            <==> why is Unsupported || why is PermissionDenied) && (of_probe is ProbeFailed <==> !(
        why is Unsupported) && !(why is PermissionDenied)),
        of_status is None <==> *status is ObservedDirectory,
        *status is ObservedUnsupportedNotDirectory ==> of_status == Some(
            MmapEvidence::ObservedUnsupported,
        ),
        *status is UnknownMissing ==> of_status == Some(MmapEvidence::Unknown),
        *status is ProbeFailed ==> of_status == Some(MmapEvidence::ProbeFailed),
{
}

/// Two summaries are the same where every observation is, and a failed look at a path
/// has the same reason.
pub proof fn law_same_summaries_agree_in_every_field(
    a: &StorePathEvidenceSummary,
    b: &StorePathEvidenceSummary,
    r: bool,
)
    requires
        call_ensures(StorePathEvidenceSummary::is_same, (a, b), r),
    ensures
        r <==> {
            &&& a.parent_dir_sync == b.parent_dir_sync
            &&& a.lock_leaf_symlink_protection == b.lock_leaf_symlink_protection
            &&& a.mmap_index == b.mmap_index
            &&& a.sealed_segment_mmap == b.sealed_segment_mmap
            &&& a.active_segment_read == b.active_segment_read
            &&& a.path_status is ObservedDirectory <==> b.path_status is ObservedDirectory
            &&& a.path_status is ObservedUnsupportedNotDirectory
                <==> b.path_status is ObservedUnsupportedNotDirectory
            &&& a.path_status is UnknownMissing <==> b.path_status is UnknownMissing
            &&& a.path_status is ProbeFailed && b.path_status is ProbeFailed
                ==> a.path_status->reason@ == b.path_status->reason@
        },
{
}

} // verus!
