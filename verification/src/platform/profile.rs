//! Stored platform profiles: what was observed when a store was set up, under a
//! fingerprint, and whether the present platform still agrees with it.

use super::evidence::{
    lock_admission, mmap_admission, mmap_evidence_without_probe, sync_admission, ClockEvidence,
    LockLeafSymlinkProtection, MmapAdmissionSummary, MmapEvidence, ParentDirSyncAdmissionSummary,
    ParentDirSyncEvidence, PlatformAdmissionSummary, PlatformEvidenceSummary,
    StoreLockAdmissionSummary, StorePathEvidenceSummary, StorePathStatusEvidence,
};
use crate::checksum::crc32;
use crate::error::StoreError;
use vstd::prelude::*;

verus! {

/// Version of the profiles that are written.
pub const PLATFORM_PROFILE_SCHEMA_VERSION: u16 = 1;

/// What is wrong with a stored profile.
#[derive(Debug)]
pub enum ProfileInvalidKind {
    /// It could not be read.
    Io(String),
    /// It is not the text of a profile.
    DecodeJson(String),
    /// Its body could not be encoded.
    FingerprintEncode(String),
    /// It has another version.
    UnsupportedSchemaVersion {
        /// The profile's version.
        observed: u16,
        /// The version that is read.
        expected: u16,
    },
    /// Its fingerprint is not that of its body.
    FingerprintMismatch {
        /// The profile's fingerprint.
        observed: u32,
        /// The body's fingerprint.
        computed: u32,
    },
    /// The lock file's admission does not follow from what was observed.
    InconsistentLockAdmission {
        /// What is admitted.
        admission: StoreLockAdmissionSummary,
        /// What was observed.
        evidence: LockLeafSymlinkProtection,
    },
    /// The admission of directory syncs does not follow from what was observed.
    InconsistentParentDirSyncAdmission {
        /// What is admitted.
        admission: ParentDirSyncAdmissionSummary,
        /// What was observed.
        evidence: ParentDirSyncEvidence,
    },
    /// What was observed of mappings contradicts what was observed of the path.
    InconsistentMmapPath {
        /// The mapping's name.
        field: &'static str,
        /// What was observed of the mapping.
        evidence: MmapEvidence,
        /// What the path allows.
        expected: MmapEvidence,
        /// What was observed of the path.
        path_status: StorePathStatusEvidence,
    },
    /// A mapping's admission does not follow from what was observed.
    InconsistentMmapAdmission {
        /// The mapping's name.
        field: &'static str,
        /// What is admitted.
        admission: MmapAdmissionSummary,
        /// What was observed.
        evidence: MmapEvidence,
    },
}

/// What a profile keeps of the host.
#[derive(Clone, Copy, Debug, PartialEq, Eq, Structural)]
pub struct PlatformProfileHost {
    /// The monotonic clock.
    pub monotonic_clock: ClockEvidence,
}

/// A stored profile without its fingerprint.
#[derive(Debug)]
pub struct PlatformProfileBody {
    /// Version of the profile.
    pub schema_version: u16,
    /// The host.
    pub host: PlatformProfileHost,
    /// What was observed of the store path.
    pub store_path: StorePathEvidenceSummary,
    /// What is admitted.
    pub admission: PlatformAdmissionSummary,
}

/// A stored profile.
#[derive(Debug)]
pub struct PlatformProfile {
    /// What the fingerprint covers.
    pub body: PlatformProfileBody,
    /// Fingerprint of the encoded body.
    pub fingerprint_crc32: u32,
}

/// What reading a stored profile gave.
#[derive(Debug)]
pub enum ProfileRead {
    /// Reading failed, with the text of the error.
    Io(String),
    /// Decoding failed, with the text of the error.
    DecodeJson(String),
    /// A profile.
    Decoded(PlatformProfile),
}

impl PlatformProfileBody {
    /// The body of a profile of what was observed.
    pub open spec fn of(evidence: PlatformEvidenceSummary) -> PlatformProfileBody {
        PlatformProfileBody {
            schema_version: PLATFORM_PROFILE_SCHEMA_VERSION,
            host: PlatformProfileHost { monotonic_clock: evidence.host.monotonic_clock },
            store_path: evidence.store_path,
            admission: evidence.admission,
        }
    }

    /// Both bodies say the same.
    pub open spec fn same(&self, other: &PlatformProfileBody) -> bool {
        &&& self.schema_version == other.schema_version
        &&& self.host == other.host
        &&& self.store_path.same(&other.store_path)
        &&& self.admission == other.admission
    }

    /// What contradicts what was observed of the path, of one mapping.
    pub open spec fn path_fault(&self, field: &'static str, evidence: MmapEvidence) -> Option<
        ProfileInvalidKind,
    > {
        match super::evidence::mmap_without_probe(self.store_path.path_status) {
            Some(expected) if evidence != expected => Some(
                ProfileInvalidKind::InconsistentMmapPath {
                    field,
                    evidence,
                    expected,
                    path_status: self.store_path.path_status,
                },
            ),
            _ => None,
        }
    }

    /// What does not follow, of the admission of one mapping.
    pub open spec fn mapping_fault(
        field: &'static str,
        evidence: MmapEvidence,
        admission: MmapAdmissionSummary,
    ) -> Option<ProfileInvalidKind> {
        if admission != super::evidence::mmap_admission_of(evidence) {
            Some(ProfileInvalidKind::InconsistentMmapAdmission { field, admission, evidence })
        } else {
            None
        }
    }

    /// The first thing that is wrong with the admissions.
    pub open spec fn admission_fault(&self) -> Option<ProfileInvalidKind> {
        let seen = self.store_path;
        let index_path = self.path_fault("mmap_index", seen.mmap_index);
        let sealed_path = self.path_fault("sealed_segment_mmap", seen.sealed_segment_mmap);
        let index_map = Self::mapping_fault(
            "mmap_index",
            seen.mmap_index,
            self.admission.mmap_index,
        );
        if self.admission.store_lock != super::evidence::lock_admission_of(
            seen.lock_leaf_symlink_protection,
        ) {
            Some(
                ProfileInvalidKind::InconsistentLockAdmission {
                    admission: self.admission.store_lock,
                    evidence: seen.lock_leaf_symlink_protection,
                },
            )
        } else if self.admission.parent_dir_sync != super::evidence::sync_admission_of(
            seen.parent_dir_sync,
        ) {
            Some(
                ProfileInvalidKind::InconsistentParentDirSyncAdmission {
                    admission: self.admission.parent_dir_sync,
                    evidence: seen.parent_dir_sync,
                },
            )
        } else if index_path is Some {
            index_path
        } else if sealed_path is Some {
            sealed_path
        } else if index_map is Some {
            index_map
        } else {
            Self::mapping_fault(
                "sealed_segment_mmap",
                seen.sealed_segment_mmap,
                self.admission.sealed_segment_mmap,
            )
        }
    }

    /// Whether both bodies say the same.
    pub fn is_same(&self, other: &PlatformProfileBody) -> (r: bool)
        ensures
            r == self.same(other),
    {
        self.schema_version == other.schema_version && self.host == other.host
            && self.store_path.is_same(&other.store_path) && self.admission == other.admission
    }

    /// The body of a profile of what was observed.
    pub fn from_evidence(evidence: &PlatformEvidenceSummary) -> (r: PlatformProfileBody)
        ensures
            r == PlatformProfileBody::of(*evidence),
    {
        PlatformProfileBody {
            schema_version: PLATFORM_PROFILE_SCHEMA_VERSION,
            host: PlatformProfileHost { monotonic_clock: evidence.host.monotonic_clock },
            store_path: evidence.store_path.clone(),
            admission: evidence.admission,
        }
    }

    /// Holds what was observed of a mapping against what was observed of the
    /// path.
    fn validate_path_mmap_consistency(&self, field: &'static str, evidence: MmapEvidence) -> (r:
        Result<(), ProfileInvalidKind>)
        ensures
            r == match self.path_fault(field, evidence) {
                Some(kind) => Err::<(), ProfileInvalidKind>(kind),
                None => Ok(()),
            },
    {
        match mmap_evidence_without_probe(&self.store_path.path_status) {
            Some(expected) => if evidence != expected {
                Err(
                    ProfileInvalidKind::InconsistentMmapPath {
                        field,
                        evidence,
                        expected,
                        path_status: self.store_path.path_status.clone(),
                    },
                )
            } else {
                Ok(())
            },
            None => Ok(()),
        }
    }

    /// Holds the admission of a mapping against what was observed of it.
    fn validate_mmap_admission(
        field: &'static str,
        evidence: MmapEvidence,
        admission: MmapAdmissionSummary,
    ) -> (r: Result<(), ProfileInvalidKind>)
        ensures
            r == match Self::mapping_fault(field, evidence, admission) {
                Some(kind) => Err::<(), ProfileInvalidKind>(kind),
                None => Ok(()),
            },
    {
        if admission != mmap_admission(evidence) {
            Err(ProfileInvalidKind::InconsistentMmapAdmission { field, admission, evidence })
        } else {
            Ok(())
        }
    }

    /// Holds the admissions against what was observed: first the lock file,
    /// then directory syncs, then each mapping against the path, then each
    /// mapping's own admission.
    pub fn validate_admission_semantics(&self) -> (r: Result<(), ProfileInvalidKind>)
        ensures
            r == match self.admission_fault() {
                Some(kind) => Err::<(), ProfileInvalidKind>(kind),
                None => Ok(()),
            },
    {
        let seen = &self.store_path;
        if self.admission.store_lock != lock_admission(seen.lock_leaf_symlink_protection) {
            return Err(
                ProfileInvalidKind::InconsistentLockAdmission {
                    admission: self.admission.store_lock,
                    evidence: seen.lock_leaf_symlink_protection,
                },
            );
        }
        if self.admission.parent_dir_sync != sync_admission(seen.parent_dir_sync) {
            return Err(
                ProfileInvalidKind::InconsistentParentDirSyncAdmission {
                    admission: self.admission.parent_dir_sync,
                    evidence: seen.parent_dir_sync,
                },
            );
        }
        match self.validate_path_mmap_consistency("mmap_index", seen.mmap_index) {
            Ok(()) => {},
            Err(kind) => return Err(kind),
        }
        match self.validate_path_mmap_consistency(
            "sealed_segment_mmap",
            seen.sealed_segment_mmap,
        ) {
            Ok(()) => {},
            Err(kind) => return Err(kind),
        }
        match Self::validate_mmap_admission(
            "mmap_index",
            seen.mmap_index,
            self.admission.mmap_index,
        ) {
            Ok(()) => {},
            Err(kind) => return Err(kind),
        }
        Self::validate_mmap_admission(
            "sealed_segment_mmap",
            seen.sealed_segment_mmap,
            self.admission.sealed_segment_mmap,
        )
    }
}

impl PlatformProfile {
    /// The profile with a body, where the body was encoded.
    pub open spec fn sealed(body: PlatformProfileBody, encoded: Result<Vec<u8>, String>) -> Result<
        PlatformProfile,
        ProfileInvalidKind,
    > {
        match encoded {
            Ok(bytes) => Ok(
                PlatformProfile {
                    body,
                    fingerprint_crc32: crate::checksum::crc32_of(bytes@),
                },
            ),
            Err(text) => Err(ProfileInvalidKind::FingerprintEncode(text)),
        }
    }

    /// What is wrong with a profile of the version that is read, whose body was
    /// encoded.
    pub open spec fn fault(&self, encoded: Result<Vec<u8>, String>) -> Option<ProfileInvalidKind> {
        match encoded {
            Err(text) => Some(ProfileInvalidKind::FingerprintEncode(text)),
            Ok(bytes) => if self.fingerprint_crc32 != crate::checksum::crc32_of(bytes@) {
                Some(
                    ProfileInvalidKind::FingerprintMismatch {
                        observed: self.fingerprint_crc32,
                        computed: crate::checksum::crc32_of(bytes@),
                    },
                )
            } else {
                self.body.admission_fault()
            },
        }
    }

    /// The profile of what was observed, under the fingerprint of its encoded
    /// body.
    pub fn from_evidence(
        evidence: &PlatformEvidenceSummary,
        encode: impl Fn(&PlatformProfileBody) -> Result<Vec<u8>, String>,
    ) -> (r: Result<PlatformProfile, StoreError>)
        requires
            forall|body: &PlatformProfileBody| #[trigger] call_requires(encode, (body,)),
        ensures
            exists|encoded: Result<Vec<u8>, String>| #[trigger]
                call_ensures(encode, (&PlatformProfileBody::of(*evidence),), encoded) && match (
                    r,
                    PlatformProfile::sealed(PlatformProfileBody::of(*evidence), encoded),
                ) {
                    (Ok(profile), Ok(expected)) => profile == expected,
                    (
                        Err(StoreError::PlatformProfileInvalid { path, kind }),
                        Err(expected),
                    ) => path@ == "<generated>"@ && kind == expected,
                    _ => false,
                },
    {
        let body = PlatformProfileBody::from_evidence(evidence);
        let encoded = encode(&body);
        match encoded {
            Ok(bytes) => {
                let fingerprint_crc32: u32 = crc32(bytes.as_slice());
                Ok(PlatformProfile { body, fingerprint_crc32 })
            },
            Err(text) => Err(
                StoreError::PlatformProfileInvalid {
                    path: "<generated>".to_owned(),
                    kind: ProfileInvalidKind::FingerprintEncode(text),
                },
            ),
        }
    }

    /// Checks the version, then the fingerprint, then the admissions.
    pub fn validate_fingerprint(
        &self,
        path: &str,
        encode: impl Fn(&PlatformProfileBody) -> Result<Vec<u8>, String>,
    ) -> (r: Result<(), StoreError>)
        requires
            forall|body: &PlatformProfileBody| #[trigger] call_requires(encode, (body,)),
        ensures
            self.body.schema_version != PLATFORM_PROFILE_SCHEMA_VERSION ==> (r matches Err(
                StoreError::PlatformProfileInvalid { path: at, kind },
            ) && at@ == path@ && kind == (ProfileInvalidKind::UnsupportedSchemaVersion {
                observed: self.body.schema_version,
                expected: PLATFORM_PROFILE_SCHEMA_VERSION,
            })),
            self.body.schema_version == PLATFORM_PROFILE_SCHEMA_VERSION ==> exists|
                encoded: Result<Vec<u8>, String>,
            | #[trigger]
                call_ensures(encode, (&self.body,), encoded) && match (r, self.fault(encoded)) {
                    (Ok(_), None) => true,
                    (
                        Err(StoreError::PlatformProfileInvalid { path: at, kind }),
                        Some(expected),
                    ) => at@ == path@ && kind == expected,
                    _ => false,
                },
    {
        if self.body.schema_version != PLATFORM_PROFILE_SCHEMA_VERSION {
            return Err(
                StoreError::PlatformProfileInvalid {
                    path: path.to_owned(),
                    kind: ProfileInvalidKind::UnsupportedSchemaVersion {
                        observed: self.body.schema_version,
                        expected: PLATFORM_PROFILE_SCHEMA_VERSION,
                    },
                },
            );
        }
        let encoded = encode(&self.body);
        match encoded {
            Ok(bytes) => {
                let computed: u32 = crc32(bytes.as_slice());
                if self.fingerprint_crc32 != computed {
                    return Err(
                        StoreError::PlatformProfileInvalid {
                            path: path.to_owned(),
                            kind: ProfileInvalidKind::FingerprintMismatch {
                                observed: self.fingerprint_crc32,
                                computed,
                            },
                        },
                    );
                }
                match self.body.validate_admission_semantics() {
                    Ok(()) => Ok(()),
                    Err(kind) => Err(
                        StoreError::PlatformProfileInvalid { path: path.to_owned(), kind },
                    ),
                }
            },
            Err(text) => Err(
                StoreError::PlatformProfileInvalid {
                    path: path.to_owned(),
                    kind: ProfileInvalidKind::FingerprintEncode(text),
                },
            ),
        }
    }

    /// The stored profile, where it was read and nothing is wrong with it.
    pub fn load(
        path: &str,
        read: ProfileRead,
        encode: impl Fn(&PlatformProfileBody) -> Result<Vec<u8>, String>,
    ) -> (r: Result<PlatformProfile, StoreError>)
        requires
            forall|body: &PlatformProfileBody| #[trigger] call_requires(encode, (body,)),
        ensures
            match read {
                ProfileRead::Io(text) => r matches Err(
                    StoreError::PlatformProfileInvalid { path: at, kind },
                ) && at@ == path@ && kind == ProfileInvalidKind::Io(text),
                ProfileRead::DecodeJson(text) => r matches Err(
                    StoreError::PlatformProfileInvalid { path: at, kind },
                ) && at@ == path@ && kind == ProfileInvalidKind::DecodeJson(text),
                ProfileRead::Decoded(profile) => if profile.body.schema_version
                    != PLATFORM_PROFILE_SCHEMA_VERSION {
                    r matches Err(StoreError::PlatformProfileInvalid { path: at, kind }) && at@
                        == path@ && kind == (ProfileInvalidKind::UnsupportedSchemaVersion {
                        observed: profile.body.schema_version,
                        expected: PLATFORM_PROFILE_SCHEMA_VERSION,
                    })
                } else {
                    exists|encoded: Result<Vec<u8>, String>| #[trigger]
                        call_ensures(encode, (&profile.body,), encoded) && match (
                            r,
                            profile.fault(encoded),
                        ) {
                            (Ok(loaded), None) => loaded == profile,
                            (
                                Err(StoreError::PlatformProfileInvalid { path: at, kind }),
                                Some(expected),
                            ) => at@ == path@ && kind == expected,
                            _ => false,
                        }
                },
            },
    {
        match read {
            ProfileRead::Io(text) => Err(
                StoreError::PlatformProfileInvalid {
                    path: path.to_owned(),
                    kind: ProfileInvalidKind::Io(text),
                },
            ),
            ProfileRead::DecodeJson(text) => Err(
                StoreError::PlatformProfileInvalid {
                    path: path.to_owned(),
                    kind: ProfileInvalidKind::DecodeJson(text),
                },
            ),
            ProfileRead::Decoded(profile) => {
                match profile.validate_fingerprint(path, encode) {
                    Ok(()) => Ok(profile),
                    Err(e) => Err(e),
                }
            },
        }
    }

    /// What was observed now, where a stored profile agrees with it. `describe`
    /// says how two profiles differ.
    pub fn verify_current_store_path(
        profile_path: &str,
        expected: &PlatformProfile,
        current: PlatformEvidenceSummary,
        encode: impl Fn(&PlatformProfileBody) -> Result<Vec<u8>, String>,
        describe: impl Fn(&PlatformProfileBody, &PlatformProfileBody) -> String,
    ) -> (r: Result<PlatformEvidenceSummary, StoreError>)
        requires
            forall|body: &PlatformProfileBody| #[trigger] call_requires(encode, (body,)),
            forall|a: &PlatformProfileBody, b: &PlatformProfileBody| #[trigger]
                call_requires(describe, (a, b)),
        ensures
            exists|encoded: Result<Vec<u8>, String>| #[trigger]
                call_ensures(encode, (&PlatformProfileBody::of(current),), encoded) && match (
                    r,
                    PlatformProfile::sealed(PlatformProfileBody::of(current), encoded),
                ) {
                    (
                        Err(StoreError::PlatformProfileInvalid { path, kind }),
                        Err(fault),
                    ) => path@ == "<generated>"@ && kind == fault,
                    (Ok(seen), Ok(_)) => seen == current && expected.body.same(
                        &PlatformProfileBody::of(current),
                    ),
                    (Err(StoreError::PlatformProfileMismatch { path, reason }), Ok(_)) => {
                        &&& !expected.body.same(&PlatformProfileBody::of(current))
                        &&& path@ == profile_path@
                        &&& call_ensures(
                            describe,
                            (&expected.body, &PlatformProfileBody::of(current)),
                            reason,
                        )
                    },
                    _ => false,
                },
    {
        let observed = match PlatformProfile::from_evidence(&current, encode) {
            Ok(observed) => observed,
            Err(error) => return Err(error),
        };
        if !expected.body.is_same(&observed.body) {
            let reason = describe(&expected.body, &observed.body);
            return Err(
                StoreError::PlatformProfileMismatch { path: profile_path.to_owned(), reason },
            );
        }
        Ok(current)
    }
}

/// What [`super::evidence::evidence_for_store_path`] collects makes a profile
/// with which nothing is wrong, and which agrees with what was collected:
/// where the mappings were judged by the path's status whenever that status
/// says anything of them.
pub proof fn law_collected_profile_is_valid(
    evidence: PlatformEvidenceSummary,
    encoded: Vec<u8>,
)
    requires
        evidence.admission == super::evidence::admission_of(evidence.store_path),
        super::evidence::mmap_without_probe(evidence.store_path.path_status) matches Some(required)
            ==> evidence.store_path.mmap_index == required
            && evidence.store_path.sealed_segment_mmap == required,
    ensures
        PlatformProfile::sealed(PlatformProfileBody::of(evidence), Ok(encoded)) is Ok,
        PlatformProfile::sealed(PlatformProfileBody::of(evidence), Ok(encoded))->Ok_0.fault(
            Ok(encoded),
        ) is None,
        PlatformProfileBody::of(evidence).schema_version == PLATFORM_PROFILE_SCHEMA_VERSION,
        PlatformProfileBody::of(evidence).same(&PlatformProfileBody::of(evidence)),
{
}

/// A profile whose admissions do not follow from what it says was observed is
/// never accepted, whatever its fingerprint.
pub proof fn law_inconsistent_profile_is_refused(
    profile: PlatformProfile,
    encoded: Result<Vec<u8>, String>,
)
    requires
        profile.body.admission != super::evidence::admission_of(profile.body.store_path),
    ensures
        profile.fault(encoded) is Some,
{
}

/// Two bodies say the same where their version, host and admissions are equal, and so is
/// everything that was observed.
pub proof fn law_same_bodies_agree(
    a: &PlatformProfileBody,
    b: &PlatformProfileBody,
    r: bool,
    same_path: bool,
)
    requires
        call_ensures(PlatformProfileBody::is_same, (a, b), r),
        call_ensures(StorePathEvidenceSummary::is_same, (&a.store_path, &b.store_path), same_path),
    ensures
        r <==> a.schema_version == b.schema_version && a.host == b.host && a.admission
            == b.admission && same_path,
{
}

/// A profile keeps what was observed and admitted, under version one.
pub proof fn law_profile_keeps_what_was_observed(
    evidence: &PlatformEvidenceSummary,
    r: PlatformProfileBody,
)
    requires
        call_ensures(PlatformProfileBody::from_evidence, (evidence,), r),
    ensures
        r.schema_version == 1,
        r.host.monotonic_clock == evidence.host.monotonic_clock,
        r.store_path == evidence.store_path,
        r.admission == evidence.admission,
{
}

/// A profile's admissions pass exactly where the lock file, directory syncs and both
/// mappings are admitted as they were observed, and the mappings agree with the path:
/// unsupported where it is no directory, unknown where it is missing, failed where it
/// could not be looked at. What is told is the first of these that does not hold.
pub proof fn law_admissions_pass_where_they_follow(
    body: &PlatformProfileBody,
    r: Result<(), ProfileInvalidKind>,
)
    requires
        call_ensures(PlatformProfileBody::validate_admission_semantics, (body,), r),
    ensures
        ({
            let seen = body.store_path;
            let given = body.admission;
            let lock = (given.store_lock is AtomicNoFollow
                <==> seen.lock_leaf_symlink_protection is AtomicNoFollow) && (
            given.store_lock is BestEffortCheckThenOpen
                <==> seen.lock_leaf_symlink_protection is BestEffortCheckThenOpen);
            let sync = (given.parent_dir_sync is UnixFsync <==> seen.parent_dir_sync is UnixFsync)
                && (given.parent_dir_sync is RenameOnly <==> seen.parent_dir_sync is RenameOnly);
            let on_path = |mmap: MmapEvidence|
                match seen.path_status {
                    StorePathStatusEvidence::ObservedDirectory => true,
                    StorePathStatusEvidence::ObservedUnsupportedNotDirectory => mmap
                        is ObservedUnsupported,
                    StorePathStatusEvidence::UnknownMissing => mmap is Unknown,
                    StorePathStatusEvidence::ProbeFailed { .. } => mmap is ProbeFailed,
                };
            let path = on_path(seen.mmap_index) && on_path(seen.sealed_segment_mmap);
            let mapped = (given.mmap_index is FileBacked <==> seen.mmap_index is FileBacked) && (
            given.sealed_segment_mmap is FileBacked <==> seen.sealed_segment_mmap is FileBacked);
            &&& r is Ok <==> lock && sync && path && mapped
            &&& r is Err ==> {
                let kind = r->Err_0;
                &&& kind is InconsistentLockAdmission <==> !lock
                &&& kind is InconsistentParentDirSyncAdmission <==> lock && !sync
                &&& kind is InconsistentMmapPath <==> lock && sync && !path
                &&& kind is InconsistentMmapAdmission <==> lock && sync && path && !mapped
            }
        }),
{
}

/// A profile is loaded as it was decoded, and only where it is of version one, its
/// fingerprint is that of its encoded body, and its admissions pass.
pub proof fn law_loaded_profile_is_in_order<
    F: Fn(&PlatformProfileBody) -> Result<Vec<u8>, String>,
>(
    path: &str,
    read: ProfileRead,
    encode: F,
    loaded: PlatformProfile,
    semantics: Result<(), ProfileInvalidKind>,
)
    requires
        call_ensures(
            PlatformProfile::load,
            (path, read, encode),
            Ok::<PlatformProfile, StoreError>(loaded),
        ),
        call_ensures(
            PlatformProfileBody::validate_admission_semantics,
            (&loaded.body,),
            semantics,
        ),
    ensures
        read == ProfileRead::Decoded(loaded),
        loaded.body.schema_version == 1,
        semantics is Ok,
        exists|bytes: Vec<u8>| #[trigger]
            call_ensures(encode, (&loaded.body,), Ok::<Vec<u8>, String>(bytes))
                && loaded.fingerprint_crc32 == crate::checksum::crc32_of(bytes@),
{
    let encoded = choose|encoded: Result<Vec<u8>, String>| #[trigger]
        call_ensures(encode, (&loaded.body,), encoded) && loaded.fault(encoded) is None;
    assert(call_ensures(encode, (&loaded.body,), Ok::<Vec<u8>, String>(encoded->Ok_0)));
}

/// The present platform is accepted as it was observed, and only where the stored profile
/// says the same of it.
pub proof fn law_accepted_platform_is_the_stored_one<
    F: Fn(&PlatformProfileBody) -> Result<Vec<u8>, String>,
    G: Fn(&PlatformProfileBody, &PlatformProfileBody) -> String,
>(
    profile_path: &str,
    expected: &PlatformProfile,
    current: PlatformEvidenceSummary,
    encode: F,
    describe: G,
    r: Result<PlatformEvidenceSummary, StoreError>,
    body: PlatformProfileBody,
    same: bool,
)
    requires
        call_ensures(
            PlatformProfile::verify_current_store_path,
            (profile_path, expected, current, encode, describe),
            r,
        ),
        call_ensures(PlatformProfileBody::from_evidence, (&current,), body),
        call_ensures(PlatformProfileBody::is_same, (&expected.body, &body), same),
    ensures
        r matches Ok(seen) ==> seen == current && same,
        r matches Err(e) ==> (e is PlatformProfileMismatch && !same) || e is PlatformProfileInvalid,
{
}

/// A body that cannot be encoded, and a fingerprint that is not that of the body, are
/// told before anything of the admissions.
pub proof fn law_fingerprint_comes_first(
    profile: PlatformProfile,
    encoded: Result<Vec<u8>, String>,
    semantics: Result<(), ProfileInvalidKind>,
)
    requires
        call_ensures(
            PlatformProfileBody::validate_admission_semantics,
            (&profile.body,),
            semantics,
        ),
    ensures
        encoded matches Err(text) ==> profile.fault(encoded) == Some(
            ProfileInvalidKind::FingerprintEncode(text),
        ),
        encoded matches Ok(bytes) ==> if profile.fingerprint_crc32 == crate::checksum::crc32_of(
            bytes@,
        ) {
            match semantics {
                Ok(_) => profile.fault(encoded) is None,
                Err(kind) => profile.fault(encoded) == Some(kind),
            }
        } else {
            profile.fault(encoded) == Some(
                ProfileInvalidKind::FingerprintMismatch {
                    observed: profile.fingerprint_crc32,
                    computed: crate::checksum::crc32_of(bytes@),
                },
            )
        },
{
}

} // verus!
