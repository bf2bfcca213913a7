//! Clocks, observations of the platform, stored profiles and counted allocations.

use batpak::error::StoreError;
use batpak::platform::allocation::{CountingAlloc, FailingAlloc};
use batpak::platform::clock::{
    micros_to_nanos, saturate_i64, saturate_u64, wall_ms_from_timestamp_us, Clock, FnClock,
    MonotonicAnchor, MonotonicClock, SystemClock,
};
use batpak::platform::evidence::{
    admission_from_store_path, evidence_for_store_path, mmap_evidence_of_probe,
    mmap_evidence_without_probe, mmap_map_error_evidence, path_status, ActiveSegmentReadEvidence,
    IoErrorKind, LockLeafSymlinkProtection, MmapAdmissionSummary, MmapEvidence, MmapProbe,
    ParentDirSyncAdmissionSummary, ParentDirSyncEvidence, PathProbe, PlatformEvidenceSummary,
    StoreLockAdmissionSummary, StorePathEvidenceSummary, StorePathStatusEvidence,
};
use batpak::platform::fs::{
    reject_cache_symlink_leaf, reject_symlink_leaf, removed_if_present, PositionedRead,
    PositionedReadError, ReadStep,
};
use batpak::platform::lock::admit_store_lock;
use batpak::platform::profile::{
    PlatformProfile, PlatformProfileBody, ProfileInvalidKind, ProfileRead,
};
use batpak::platform::spawn::{JobHandle, JobStatus, JoinError, SpawnError};
use std::sync::Arc;
use std::time::{SystemTime, UNIX_EPOCH};

#[test]
fn fn_clock_preserves_negative_wall_values_but_not_monotonic_time() {
    let clock = FnClock::new(|| -7, Arc::new(MonotonicAnchor::capture()));

    assert_eq!(
        clock.now_us(),
        -7,
        "PROPERTY: FnClock must expose malformed caller wall time for validation"
    );
    assert_eq!(
        clock.now_wall_ns(),
        -7_000,
        "PROPERTY: wall nanoseconds come from the caller wall clock, not the monotonic anchor"
    );
    assert!(
        clock.now_mono_ns() >= 0,
        "PROPERTY: process-local monotonic evidence must not echo a negative caller wall clock"
    );
}

#[test]
fn a_guarded_clock_never_goes_back() {
    let anchor = Arc::new(MonotonicAnchor::capture());
    let mut clock = MonotonicClock::wrap(FnClock::new(|| 5, anchor));
    assert_eq!(clock.now_us(), 5);
    assert_eq!(clock.observe(9), 9);
    assert_eq!(clock.now_us(), 9);
    assert_eq!(clock.observe(-3), 9);
}

#[test]
fn a_guarded_clock_answers_with_the_largest_reading() {
    let readings = [3, -2, 3, 8, 7, 8, 1, 9];
    let anchor = Arc::new(MonotonicAnchor::capture());
    let mut clock = MonotonicClock::wrap(FnClock::new(|| 0, anchor));
    for n in 0..readings.len() {
        let largest = readings[..=n].iter().copied().max();
        assert_eq!(Some(clock.observe(readings[n])), largest);
    }
}

#[test]
fn the_system_clock_reads_the_wall_clock() {
    let micros = || {
        SystemTime::now()
            .duration_since(UNIX_EPOCH)
            .expect("after the epoch")
            .as_micros() as i64
    };
    let clock = SystemClock::new(Arc::new(MonotonicAnchor::capture()));
    let before = micros();
    let read = clock.now_us();
    let read_ns = clock.now_wall_ns();
    let after = micros();
    assert!(before <= read && read <= after);
    assert!(before <= read_ns / 1_000 && read_ns / 1_000 <= after);
}

#[test]
fn the_system_clock_shows_its_anchor() {
    let anchor = Arc::new(MonotonicAnchor::capture());
    let clock = SystemClock::new(Arc::clone(&anchor));
    assert_eq!(clock.process_boot_ns(), anchor.boot_ns());
    assert!(clock.now_us() > 1_000_000_000_000_000, "past the year 2001");
    assert!(clock.now_wall_ns() / 1_000 >= clock.now_us() - 1_000_000);
    let before = clock.now_mono_ns();
    assert!(clock.now_mono_ns() >= before);
    assert!(anchor.boot_ns() > 1_000_000_000_000_000_000);
}

#[test]
fn clock_readings_are_clamped() {
    assert_eq!(saturate_i64(u128::from(u64::MAX)), i64::MAX);
    assert_eq!(saturate_i64(12), 12);
    assert_eq!(saturate_u64(u128::MAX), u64::MAX);
    assert_eq!(micros_to_nanos(i64::MAX), i64::MAX);
    assert_eq!(micros_to_nanos(i64::MIN), i64::MIN);
    assert_eq!(wall_ms_from_timestamp_us(1_999).expect("not negative"), 1);
    assert!(matches!(
        wall_ms_from_timestamp_us(-1),
        Err(StoreError::InvalidClock { timestamp_us: -1, .. })
    ));
}

#[test]
fn path_status_distinguishes_missing_paths_from_probe_failures() {
    assert_eq!(
        path_status(PathProbe::Failed(
            IoErrorKind::NotFound,
            "missing-store-path".to_owned()
        )),
        StorePathStatusEvidence::UnknownMissing,
        "PROPERTY: a missing store path is unknown/missing evidence, not a probe failure"
    );
    assert_eq!(
        path_status(PathProbe::Failed(
            IoErrorKind::PermissionDenied,
            "denied".to_owned()
        )),
        StorePathStatusEvidence::ProbeFailed {
            reason: "denied".to_owned()
        }
    );
}

#[test]
fn path_status_distinguishes_regular_files_from_directories() {
    assert_eq!(
        path_status(PathProbe::NotDirectory),
        StorePathStatusEvidence::ObservedUnsupportedNotDirectory,
        "PROPERTY: an existing non-directory path must be unsupported evidence, not accepted as a store directory"
    );
    assert_eq!(
        path_status(PathProbe::Directory),
        StorePathStatusEvidence::ObservedDirectory
    );
}

#[test]
fn mmap_evidence_keeps_missing_paths_unknown() {
    assert_eq!(
        mmap_evidence_without_probe(&StorePathStatusEvidence::UnknownMissing),
        Some(MmapEvidence::Unknown),
        "PROPERTY: mmap evidence for a missing path must stay Unknown, not ProbeFailed"
    );
}

#[test]
fn mmap_evidence_rejects_non_directory_store_paths() {
    assert_eq!(
        mmap_evidence_without_probe(&StorePathStatusEvidence::ObservedUnsupportedNotDirectory),
        Some(MmapEvidence::ObservedUnsupported),
        "PROPERTY: mmap probing must not create temp probes under a non-directory store path"
    );
    assert_eq!(
        mmap_evidence_without_probe(&StorePathStatusEvidence::ObservedDirectory),
        None
    );
    assert_eq!(
        mmap_evidence_of_probe(MmapProbe::Mapped),
        MmapEvidence::FileBacked
    );
    assert_eq!(
        mmap_evidence_of_probe(MmapProbe::NoFile),
        MmapEvidence::ProbeFailed
    );
}

#[test]
fn admission_from_store_path_maps_each_evidence_family_independently() {
    let store_path = StorePathEvidenceSummary {
        path_status: StorePathStatusEvidence::ObservedDirectory,
        parent_dir_sync: ParentDirSyncEvidence::ProbeFailed,
        lock_leaf_symlink_protection: LockLeafSymlinkProtection::ObservedUnsupported,
        mmap_index: MmapEvidence::FileBacked,
        sealed_segment_mmap: MmapEvidence::Unknown,
        active_segment_read: ActiveSegmentReadEvidence::ProbeFailed,
    };

    let admission = admission_from_store_path(&store_path);

    assert_eq!(
        admission.store_lock,
        StoreLockAdmissionSummary::Rejected,
        "PROPERTY: unsupported lock evidence must fail only the lock admission"
    );
    assert_eq!(
        admission.parent_dir_sync,
        ParentDirSyncAdmissionSummary::Rejected,
        "PROPERTY: failed parent-dir sync evidence must fail only the sync admission"
    );
    assert_eq!(
        admission.mmap_index,
        MmapAdmissionSummary::FileBacked,
        "PROPERTY: file-backed mmap evidence remains admitted even when other families reject"
    );
    assert_eq!(
        admission.sealed_segment_mmap,
        MmapAdmissionSummary::Rejected,
        "PROPERTY: unknown sealed-segment mmap evidence must be rejected"
    );
}

#[test]
fn mmap_map_error_classifies_unsupported_and_permission_as_observed_unsupported() {
    assert_eq!(
        mmap_map_error_evidence(IoErrorKind::Unsupported),
        MmapEvidence::ObservedUnsupported,
        "PROPERTY: unsupported mmap must be descriptive evidence, not a probe failure"
    );
    assert_eq!(
        mmap_map_error_evidence(IoErrorKind::PermissionDenied),
        MmapEvidence::ObservedUnsupported,
        "PROPERTY: permission-denied mmap must be descriptive evidence, not a probe failure"
    );
    assert_eq!(
        mmap_map_error_evidence(IoErrorKind::Other),
        MmapEvidence::ProbeFailed,
        "PROPERTY: unrelated mmap errors must remain probe failures"
    );
}

#[test]
fn store_lock_admission_accepts_only_reported_lock_protection_modes() {
    for evidence in [
        LockLeafSymlinkProtection::AtomicNoFollow,
        LockLeafSymlinkProtection::BestEffortCheckThenOpen,
    ] {
        assert!(
            admit_store_lock(evidence).is_ok(),
            "PROPERTY: lock evidence {evidence:?} must be admissible"
        );
    }

    for evidence in [
        LockLeafSymlinkProtection::Unknown,
        LockLeafSymlinkProtection::ObservedUnsupported,
        LockLeafSymlinkProtection::ProbeFailed,
    ] {
        let err = match admit_store_lock(evidence) {
            Ok(_) => panic!("PROPERTY: lock evidence {evidence:?} must reject"),
            Err(error) => error,
        };
        assert!(
            matches!(
                err,
                StoreError::PlatformAdmissionFailed {
                    capability: "store lock symlink-leaf protection",
                    ..
                }
            ),
            "expected store-lock admission failure for {evidence:?}, got {err:?}"
        );
    }
}

fn encode(body: &PlatformProfileBody) -> Result<Vec<u8>, String> {
    Ok(format!("{body:?}").into_bytes())
}

fn observed(path_status: StorePathStatusEvidence, mmap: MmapEvidence) -> PlatformEvidenceSummary {
    evidence_for_store_path(
        17,
        path_status,
        ParentDirSyncEvidence::UnixFsync,
        LockLeafSymlinkProtection::AtomicNoFollow,
        mmap,
        ActiveSegmentReadEvidence::UnixReadAt,
    )
}

fn directory_profile() -> PlatformProfile {
    let seen = observed(
        StorePathStatusEvidence::ObservedDirectory,
        MmapEvidence::FileBacked,
    );
    PlatformProfile::from_evidence(&seen, encode).expect("profile")
}

/// Give the changed profile the fingerprint of its body, then load it.
fn load_error(change: fn(&mut PlatformProfileBody)) -> StoreError {
    let mut profile = directory_profile();
    change(&mut profile.body);
    let bytes = encode(&profile.body).expect("encode");
    profile.fingerprint_crc32 = crc32fast::hash(&bytes);
    PlatformProfile::load(
        "platform.profile.json",
        ProfileRead::Decoded(profile),
        encode,
    )
    .expect_err("an inconsistent profile must fail to load")
}

#[test]
fn platform_profile_round_trips_with_valid_fingerprint() {
    let profile = directory_profile();
    let fingerprint = profile.fingerprint_crc32;
    let shown = format!("{profile:?}");
    let loaded = PlatformProfile::load(
        "platform.profile.json",
        ProfileRead::Decoded(profile),
        encode,
    )
    .expect("load");
    assert_eq!(format!("{loaded:?}"), shown);
    assert_eq!(loaded.fingerprint_crc32, fingerprint);
}

#[test]
fn platform_profile_mismatch_fails_closed() {
    let profile = directory_profile();
    let missing = observed(
        StorePathStatusEvidence::UnknownMissing,
        MmapEvidence::Unknown,
    );
    let Err(error) = PlatformProfile::verify_current_store_path(
        "platform.profile.json",
        &profile,
        missing,
        encode,
        |_, _| "another status".to_owned(),
    ) else {
        panic!("expected profile mismatch");
    };
    assert!(matches!(
        error,
        StoreError::PlatformProfileMismatch { path, reason }
            if path == "platform.profile.json" && reason == "another status"
    ));
}

#[test]
fn platform_profile_rejects_semantically_inconsistent_lock_admission() {
    let err = load_error(|body| {
        body.store_path.lock_leaf_symlink_protection = LockLeafSymlinkProtection::Unknown;
        body.admission.store_lock = StoreLockAdmissionSummary::AtomicNoFollow;
    });
    assert!(
        matches!(
            err,
            StoreError::PlatformProfileInvalid {
                kind: ProfileInvalidKind::InconsistentLockAdmission {
                    admission: StoreLockAdmissionSummary::AtomicNoFollow,
                    evidence: LockLeafSymlinkProtection::Unknown,
                },
                ..
            }
        ),
        "expected inconsistent lock admission, got {err:?}"
    );
}

#[test]
fn platform_profile_rejects_semantically_inconsistent_parent_sync_admission() {
    let err = load_error(|body| {
        body.store_path.parent_dir_sync = ParentDirSyncEvidence::ProbeFailed;
        body.admission.parent_dir_sync = ParentDirSyncAdmissionSummary::UnixFsync;
    });
    assert!(
        matches!(
            err,
            StoreError::PlatformProfileInvalid {
                kind: ProfileInvalidKind::InconsistentParentDirSyncAdmission {
                    admission: ParentDirSyncAdmissionSummary::UnixFsync,
                    evidence: ParentDirSyncEvidence::ProbeFailed,
                },
                ..
            }
        ),
        "expected inconsistent parent-dir sync admission, got {err:?}"
    );
}

#[test]
fn platform_profile_rejects_mmap_evidence_that_contradicts_missing_path() {
    let err = load_error(|body| {
        body.store_path.path_status = StorePathStatusEvidence::UnknownMissing;
        body.store_path.mmap_index = MmapEvidence::FileBacked;
        body.admission.mmap_index = MmapAdmissionSummary::FileBacked;
    });
    assert!(
        matches!(
            err,
            StoreError::PlatformProfileInvalid {
                kind: ProfileInvalidKind::InconsistentMmapPath {
                    field: "mmap_index",
                    evidence: MmapEvidence::FileBacked,
                    expected: MmapEvidence::Unknown,
                    path_status: StorePathStatusEvidence::UnknownMissing,
                },
                ..
            }
        ),
        "expected inconsistent mmap/path evidence, got {err:?}"
    );
}

#[test]
fn platform_profile_rejects_mmap_admission_that_contradicts_evidence() {
    let err = load_error(|body| {
        body.store_path.sealed_segment_mmap = MmapEvidence::ProbeFailed;
        body.admission.sealed_segment_mmap = MmapAdmissionSummary::FileBacked;
    });
    assert!(
        matches!(
            err,
            StoreError::PlatformProfileInvalid {
                kind: ProfileInvalidKind::InconsistentMmapAdmission {
                    field: "sealed_segment_mmap",
                    admission: MmapAdmissionSummary::FileBacked,
                    evidence: MmapEvidence::ProbeFailed,
                },
                ..
            }
        ),
        "expected inconsistent mmap admission, got {err:?}"
    );
}

#[test]
fn a_profile_of_another_version_or_fingerprint_is_refused() {
    let load = |read: ProfileRead| match PlatformProfile::load("p", read, encode) {
        Err(StoreError::PlatformProfileInvalid { path, kind }) => {
            assert_eq!(path, "p");
            kind
        }
        _ => panic!("expected an invalid profile"),
    };
    let mut later = directory_profile();
    later.body.schema_version = 2;
    assert!(matches!(
        load(ProfileRead::Decoded(later)),
        ProfileInvalidKind::UnsupportedSchemaVersion { observed: 2, expected: 1 }
    ));
    let mut changed = directory_profile();
    changed.fingerprint_crc32 ^= 1;
    assert!(matches!(
        load(ProfileRead::Decoded(changed)),
        ProfileInvalidKind::FingerprintMismatch { observed, computed } if observed == computed ^ 1
    ));
    assert!(matches!(
        load(ProfileRead::Io("gone".to_owned())),
        ProfileInvalidKind::Io(text) if text == "gone"
    ));
    assert!(matches!(
        load(ProfileRead::DecodeJson("bad".to_owned())),
        ProfileInvalidKind::DecodeJson(text) if text == "bad"
    ));
    let refuse = |_: &PlatformProfileBody| Err("no encoding".to_owned());
    let seen = observed(
        StorePathStatusEvidence::ObservedDirectory,
        MmapEvidence::FileBacked,
    );
    assert!(matches!(
        PlatformProfile::from_evidence(&seen, refuse),
        Err(StoreError::PlatformProfileInvalid {
            kind: ProfileInvalidKind::FingerprintEncode(_),
            ..
        })
    ));
}

#[test]
fn a_profile_agrees_with_what_it_was_made_of() {
    let seen = observed(
        StorePathStatusEvidence::ObservedDirectory,
        MmapEvidence::FileBacked,
    );
    let now = PlatformProfile::verify_current_store_path(
        "p",
        &directory_profile(),
        seen,
        encode,
        |_, _| String::new(),
    )
    .expect("the platform has not changed");
    assert_eq!(now.host.process_clock_epoch_marker_ns, 17);
}

#[test]
fn symlinks_are_refused() {
    assert!(reject_symlink_leaf(false, "/a", "frame").is_ok());
    assert!(matches!(
        reject_symlink_leaf(true, "/a", "frame"),
        Err(StoreError::Io { kind: IoErrorKind::InvalidInput, message })
            if message == "refusing to write frame through symlink /a"
    ));
    assert!(matches!(
        reject_cache_symlink_leaf(true, "/a"),
        Err(StoreError::CacheFailed { message })
            if message == "refusing to write cache path through symlink /a"
    ));
    assert_eq!(removed_if_present(Ok(())), Ok(true));
    assert_eq!(removed_if_present(Err(IoErrorKind::NotFound)), Ok(false));
    assert_eq!(
        removed_if_present(Err(IoErrorKind::Other)),
        Err(IoErrorKind::Other)
    );
}

#[test]
fn a_positioned_read_goes_on_until_the_buffer_is_full() {
    let mut read = PositionedRead::begin(100, 8);
    assert!(matches!(read.step(), ReadStep::ReadAt { offset: 100, start: 0 }));
    assert!(read.took(Ok(5)).is_ok());
    assert!(matches!(read.step(), ReadStep::ReadAt { offset: 105, start: 5 }));
    assert!(matches!(
        read.took(Ok(0)),
        Err(PositionedReadError::ShortRead { bytes_read: 5 })
    ));
    assert!(matches!(
        read.took(Err(IoErrorKind::Other)),
        Err(PositionedReadError::Io(IoErrorKind::Other))
    ));
    assert!(read.took(Ok(3)).is_ok());
    assert!(matches!(read.step(), ReadStep::Done));
}

#[test]
fn spawn_error_is_a_typed_io_failure_preserving_its_source() {
    let err = SpawnError::ThreadCreation("simulated".to_owned());
    assert!(err.message().contains("backing thread"));
    assert!(err.message().contains("simulated"));
    assert_eq!(JoinError::Panicked.message(), "the spawned body panicked");
}

struct Job {
    finished: bool,
}

impl JobHandle for Job {
    fn join(self: Box<Self>) -> Result<(), JoinError> {
        Ok(())
    }

    fn is_finished(&self) -> bool {
        self.finished
    }
}

#[test]
fn a_job_is_running_until_it_has_finished() {
    assert_eq!(Job { finished: false }.status(), JobStatus::Running);
    assert_eq!(Job { finished: true }.status(), JobStatus::Finished);
}

#[test]
fn allocations_are_counted_within_a_scope() {
    let mut counter = CountingAlloc::new();
    counter.count_alloc();
    let (answer, within) = counter.scope(|c| {
        c.count_alloc();
        c.count_realloc();
        c.count_dealloc();
        7
    });
    assert_eq!(answer, 7);
    assert_eq!((within.allocs, within.reallocs, within.deallocs), (1, 1, 1));
    let after = counter.snapshot();
    assert_eq!(after.allocs, 2);
    assert_eq!(CountingAlloc::new().snapshot().delta_allocating(after), 3);
}

#[test]
fn allocations_fail_from_the_chosen_one_on() {
    let mut failing = FailingAlloc::new();
    assert!(!failing.should_fail());
    failing.fail_after(3);
    let seen: Vec<bool> = (0..5).map(|_| failing.should_fail()).collect();
    assert_eq!(seen, vec![false, false, true, true, true]);
    failing.disarm();
    assert!(!failing.should_fail());
}
