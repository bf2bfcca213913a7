//! Reports on runs, registered runners, and replay of encrypted payloads.

use batpak::coordinate::Coordinate;
use batpak::error::StoreError;
use batpak::event::{EventId, EventKind};
use batpak::hlc::HlcPoint;
use batpak::keyscope::{payload_aad, scope_for, KeyScopeGranularity, KeyStore};
use batpak::projection::encrypted_replay::{
    fetch_raw_key_aware, open_encrypted_payload_bytes, read_batch_key_aware, read_one_key_aware,
    DeliveryPayload, PayloadPlaintext, RawEntry, RawMsgpackInput, ReplayInput, ReplayedEvent,
};
use batpak::projection::evidence_registry::{ProjectionEvidenceRegistry, ProjectionEvidenceRunner};
use batpak::projection::flow::{
    FinishObservation, Freshness, ProjectionCacheObservation, ProjectionObservedFreshness,
    ProjectionOutcome,
};
use batpak::projection::run_evidence::{
    project_run_evidence, source_refs, ProjectionRunCacheStatus, ProjectionRunEvidenceReport,
    ProjectionRunFinding, ProjectionRunFreshnessStatus, ProjectionRunOutputHash,
    ProjectionRunReportBody, ProjectionRunReportError, ProjectionRunRequestedFreshness,
    ProjectionSourceRef,
};

const NONCE: [u8; 24] = [0x44; 24];

fn entry(entity: &str, id: u128, nonce: Option<[u8; 24]>, payload: Vec<u8>) -> RawEntry<u128> {
    RawEntry {
        coordinate: Coordinate::new(entity, "scope:replay").expect("coordinate"),
        event_kind: EventKind::custom(0xF, 1),
        event_id: EventId::from_u128(id),
        nonce,
        payload,
        header: id + 100,
    }
}

fn sealed(keys: &mut KeyStore, entity: &str, id: u128, plaintext: &[u8]) -> RawEntry<u128> {
    let mut made = entry(entity, id, Some(NONCE), Vec::new());
    let scope = scope_for(
        keys.granularity(),
        &made.coordinate,
        made.event_kind,
        made.event_id,
    );
    let aad = payload_aad(&made.coordinate, made.event_kind, made.event_id);
    made.payload = keys
        .get_or_create(&scope)
        .expect("mint")
        .seal(&NONCE, &aad, plaintext)
        .expect("seal");
    made
}

#[test]
fn replay_opens_what_was_sealed_and_passes_plain_payloads_through() {
    let mut keys = KeyStore::new(KeyScopeGranularity::PerEntity);
    let secret = sealed(&mut keys, "a", 1, b"secret");
    assert_ne!(secret.payload, b"secret".to_vec());
    let plain = entry("b", 2, None, b"plain".to_vec());
    let events =
        read_batch_key_aware::<RawMsgpackInput, _>(&keys, vec![secret, plain]).expect("replay");
    assert_eq!(
        events,
        vec![
            ReplayedEvent { header: 101, payload: b"secret".to_vec() },
            ReplayedEvent { header: 102, payload: b"plain".to_vec() },
        ]
    );
}

#[test]
fn a_destroyed_key_takes_its_payloads_and_no_others() {
    let mut keys = KeyStore::new(KeyScopeGranularity::PerEntity);
    let gone = sealed(&mut keys, "a", 1, b"gone");
    let kept = sealed(&mut keys, "b", 2, b"kept");
    let scope = scope_for(
        KeyScopeGranularity::PerEntity,
        &gone.coordinate,
        gone.event_kind,
        gone.event_id,
    );
    assert!(keys.destroy(&scope));
    assert_eq!(
        open_encrypted_payload_bytes(&keys, &gone, &NONCE).expect("no error"),
        PayloadPlaintext::Shredded
    );
    let events =
        read_batch_key_aware::<RawMsgpackInput, _>(&keys, vec![gone, kept]).expect("replay");
    assert_eq!(
        events,
        vec![ReplayedEvent { header: 102, payload: b"kept".to_vec() }]
    );
}

#[test]
fn a_payload_that_was_moved_does_not_open() {
    let mut keys = KeyStore::new(KeyScopeGranularity::PerEntity);
    let mut moved = sealed(&mut keys, "a", 1, b"secret");
    moved.event_id = EventId::from_u128(2);
    assert!(matches!(
        read_one_key_aware::<RawMsgpackInput, _>(&keys, moved),
        Err(StoreError::PayloadCipher { event_id: 2 })
    ));
}

struct Refusing;

impl ReplayInput for Refusing {
    type Payload = u8;

    fn payload_from_plaintext_bytes(bytes: Vec<u8>, _: EventKind) -> Result<u8, StoreError> {
        bytes.first().copied().ok_or(StoreError::Serialization {
            message: "empty".to_owned(),
        })
    }
}

#[test]
fn the_first_error_ends_a_replay() {
    let keys = KeyStore::new(KeyScopeGranularity::PerEntity);
    let entries = vec![
        entry("a", 1, None, vec![7]),
        entry("a", 2, None, Vec::new()),
    ];
    assert!(matches!(
        read_batch_key_aware::<Refusing, _>(&keys, entries),
        Err(StoreError::Serialization { message }) if message == "empty"
    ));
    assert_eq!(
        read_one_key_aware::<Refusing, _>(&keys, entry("a", 1, None, vec![7])).expect("byte"),
        Some(ReplayedEvent { header: 101, payload: 7 })
    );
}

#[test]
fn a_shredded_event_is_not_delivered() {
    assert_eq!(
        fetch_raw_key_aware(DeliveryPayload::Readable(3)).expect("readable"),
        3
    );
    assert!(matches!(
        fetch_raw_key_aware(DeliveryPayload::<u8>::Shredded { event_id: 9 }),
        Err(StoreError::PayloadShredded { event_id: 9 })
    ));
}

fn outcome(state: Option<u32>) -> ProjectionOutcome<u32> {
    ProjectionOutcome {
        state,
        observation: FinishObservation {
            generation: 3,
            applied_sequence: Some(5),
            cache_status: ProjectionCacheObservation::Hit,
            observed_freshness: ProjectionObservedFreshness::StaleAllowed,
        },
        input_frontier: Some(HlcPoint {
            wall_ms: 8,
            global_sequence: 5,
        }),
    }
}

fn hash_body(body: &ProjectionRunReportBody) -> Result<[u8; 32], String> {
    let mut hash = [0u8; 32];
    hash[0] = u8::try_from(body.findings.len()).expect("few findings");
    Ok(hash)
}

#[test]
fn sources_are_the_entity_and_the_kinds_in_order() {
    let refs = source_refs(
        "e",
        &[EventKind::custom(0xF, 2), EventKind::custom(0x1, 9)],
    );
    assert_eq!(
        refs,
        vec![
            ProjectionSourceRef::Entity {
                entity: "e".to_owned()
            },
            ProjectionSourceRef::RelevantKind {
                category: 0x1,
                type_id: 9
            },
            ProjectionSourceRef::RelevantKind {
                category: 0xF,
                type_id: 2
            },
        ]
    );
}

#[test]
fn a_run_is_reported_as_it_went() {
    let (state, report) = project_run_evidence(
        "p".to_owned(),
        "e",
        &[],
        &Freshness::MaybeStale { max_stale_ms: 4 },
        Ok(outcome(Some(6))),
        Some(Ok([9; 32])),
        hash_body,
    )
    .expect("report");
    assert_eq!(state, Some(6));
    assert_eq!(report.body.projection_id, "p");
    assert_eq!(
        report.body.requested_freshness,
        ProjectionRunRequestedFreshness::MaybeStale { max_stale_ms: 4 }
    );
    assert_eq!(
        report.body.observed_freshness,
        ProjectionRunFreshnessStatus::StaleAllowed
    );
    assert_eq!(report.body.cache_status, ProjectionRunCacheStatus::Hit);
    assert_eq!(
        report.body.output_hash,
        ProjectionRunOutputHash::Known([9; 32])
    );
    assert_eq!(
        report.body.findings,
        vec![
            ProjectionRunFinding::PartialVisibilityNotApplicable,
            ProjectionRunFinding::StaleUsed
        ]
    );
    let frontier = report.body.input_frontier.expect("frontier");
    assert_eq!((frontier.wall_ms, frontier.global_sequence), (8, 5));
    assert_eq!(report.body_hash[0], 2);
    assert_eq!(report.generated_at_unix_ms, None);
}

#[test]
fn a_failed_run_has_a_report_beside_its_error() {
    let failed = project_run_evidence::<u32>(
        "p".to_owned(),
        "e",
        &[],
        &Freshness::Consistent,
        Err(StoreError::Configuration("bad".to_owned())),
        None,
        hash_body,
    )
    .expect_err("the run failed");
    assert_eq!(
        failed.message(),
        "projection run failed: configuration error: bad"
    );
    let ProjectionRunReportError::ProjectionFailed { report, .. } = failed else {
        panic!("expected a failed projection");
    };
    assert_eq!(
        report.body.findings,
        vec![
            ProjectionRunFinding::ObservedFreshnessUnavailable,
            ProjectionRunFinding::InputFrontierUnknown,
            ProjectionRunFinding::OutputHashUnavailable,
            ProjectionRunFinding::CacheStatusUnavailable,
            ProjectionRunFinding::PartialVisibilityNotApplicable,
            ProjectionRunFinding::ProjectionFailed,
        ]
    );
    assert_eq!(report.diagnostics, vec!["configuration error: bad".to_owned()]);
}

#[test]
fn a_report_that_cannot_be_hashed_is_an_error() {
    let refused = project_run_evidence(
        "p".to_owned(),
        "e",
        &[],
        &Freshness::Consistent,
        Ok(outcome(None)),
        None,
        |_: &ProjectionRunReportBody| Err("no hash".to_owned()),
    )
    .expect_err("no hash");
    assert_eq!(
        refused.message(),
        "projection run report body encoding failed: no hash"
    );
}

struct Runner {
    text: &'static str,
}

impl ProjectionEvidenceRunner for Runner {
    fn run(
        &self,
        _entity: &str,
        _freshness: &Freshness,
    ) -> Result<ProjectionRunEvidenceReport, ProjectionRunReportError> {
        Err(ProjectionRunReportError::BodyEncoding {
            message: self.text.to_owned(),
        })
    }
}

#[test]
fn runners_are_found_by_name_and_listed_in_order() {
    let mut registry = ProjectionEvidenceRegistry::new();
    registry.register("b", Runner { text: "old" });
    registry.register("a", Runner { text: "a" });
    registry.register("b", Runner { text: "new" });
    assert_eq!(registry.projection_ids(), vec!["a", "b"]);
    assert!(registry.contains("a"));
    assert!(registry.runner("c").is_none());
    assert!(registry.run("c", "e", &Freshness::Consistent).is_none());
    let ran = registry
        .run("b", "e", &Freshness::Consistent)
        .expect("registered");
    assert!(matches!(
        ran,
        Err(ProjectionRunReportError::BodyEncoding { message }) if message == "new"
    ));
}
