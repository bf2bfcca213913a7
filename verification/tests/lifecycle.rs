//! Opening, reactions, snapshots, forks and compaction.

use batpak::coordinate::Coordinate;
use batpak::error::{StoreError, StoreInvariant};
use batpak::event::{EventKind, HashChain};
use batpak::hlc::HlcPoint;
use batpak::index::entry::{DiskPos, IndexEntry, InternId};
use batpak::index::idemp::{IdempEntry, IdempotencyRetention, IdempotencyStore, OverflowPolicy};
use batpak::index::store::StoreIndex;
use batpak::lifecycle::close_course::{
    close_event, next_close_phase, recv_writer_reply, should_shutdown_on_drop, ClosePhase,
};
use batpak::lifecycle::compact::{
    compact_source_name, list_segments, merge_steps, pending_compaction, plan_compaction,
    relocate_merged_source, removal_steps, rewrite_entries, rollback_steps, settle_keys, CompactionOutcome,
    CompactionResult, DiskStep, Rewrite, ScannedEntry, SegmentFile,
};
use batpak::lifecycle::compact_course::{next_phase, CompactEnd, CompactPhase};
use batpak::lifecycle::compaction_run::{CompactAction, CompactReply, CompactionRun};
use batpak::lifecycle::copy_run::{CopyAction, CopyReply, CopyRun, DestinationFile};
use batpak::lifecycle::copy_course::{next_copy_phase, CopyKind, CopyPhase};
use batpak::lifecycle::file_kind::{
    fork_clear_action, snapshot_clear_action, ClearAction, StoreFileKind,
};
use batpak::lifecycle::fork::{
    refuse_own_directory, CopyPreference, CowStrategyUsed, ForkAccumulator, ForkCopyStrategy,
    ForkEntry, ForkFinding, ForkOptions, ForkStrategy,
};
use batpak::lifecycle::open::{
    bootstrap_open_hlc, highest_index_hlc, last_close_hlc, latest_segment_id,
    lifecycle_open_candidate, next_active_segment_id, opened_hlc, timestamp_us_for_hlc,
    validate_bootstrap_hlc, validate_payload_registry_for_open, EventPayloadValidation,
};
use batpak::lifecycle::open_course::{next_open_phase, OpenPhase, OpenRequest};
use batpak::lifecycle::reaction::{AppendOptions, CausationRef, EventPayload, ReactionBatch};
use batpak::lifecycle::snapshot::{
    snapshot_source_file_kind, SnapshotFileKind, SnapshotFinding, SnapshotRun,
};
use batpak::lifecycle::state::{
    diagnostics, stats, writer_pressure, Closed, Open, ReadOnly, StoreSettings, StoreState,
    WriterPressure,
};
use batpak::platform::evidence::{
    evidence_for_store_path, ActiveSegmentReadEvidence, LockLeafSymlinkProtection, MmapEvidence,
    ParentDirSyncEvidence, StorePathStatusEvidence,
};
use std::collections::{BTreeMap, HashMap};

fn close_kind() -> EventKind {
    EventKind::custom(0xE, 2)
}

fn entry(sequence: u64, wall_ms: u64, kind: EventKind) -> IndexEntry {
    IndexEntry {
        event_id: u128::from(sequence) + 1,
        correlation_id: u128::from(sequence) + 1,
        causation_id: None,
        coord: Coordinate::new("entity:lifecycle", "scope:test").expect("coord"),
        entity_id: InternId::sentinel(),
        scope_id: InternId::sentinel(),
        kind,
        wall_ms,
        clock: u32::try_from(sequence).expect("small sequence"),
        dag_lane: 0,
        dag_depth: 0,
        hash_chain: HashChain::default(),
        disk_pos: DiskPos::new(0, sequence * 16, 16),
        global_sequence: sequence,
        receipt_extensions: BTreeMap::new(),
    }
}

fn at(wall_ms: u64, global_sequence: u64) -> HlcPoint {
    HlcPoint {
        wall_ms,
        global_sequence,
    }
}

#[test]
fn next_active_segment_id_is_one_past_latest_existing_segment() {
    assert_eq!(
        next_active_segment_id(&[1, 7]),
        8,
        "PROPERTY: reader active segment must be one past the highest existing segment so the last sealed segment remains mmap-eligible"
    );
    assert_eq!(next_active_segment_id(&[]), 1);
    assert_eq!(latest_segment_id(&[4, 9, 2]), Some(9));
    assert_eq!(latest_segment_id(&[]), None);
}

#[test]
fn highest_index_hlc_reports_non_origin_point_for_appended_entry() {
    let mut index = StoreIndex::new();
    index.insert(entry(0, 5, EventKind::custom(0xF, 0x77)));
    let point = highest_index_hlc(&index);
    assert_eq!(
        point.global_sequence, 0,
        "PROPERTY: highest_index_hlc must observe the committed entry's global sequence"
    );
    assert!(
        point > HlcPoint::origin(),
        "PROPERTY: highest_index_hlc must not collapse a non-empty index to origin/default"
    );
    assert_eq!(highest_index_hlc(&StoreIndex::new()), HlcPoint::origin());
}

#[test]
fn an_open_comes_after_everything_that_was_recovered() {
    let mut index = StoreIndex::new();
    index.insert(entry(0, 50, EventKind::custom(0xF, 1)));
    index.insert(entry(1, 60, close_kind()));
    assert_eq!(
        last_close_hlc(&index, close_kind()).expect("one close"),
        at(60, 1)
    );
    assert_eq!(
        bootstrap_open_hlc(&index, 10_000, close_kind()).expect("in order"),
        at(60, 1)
    );
    assert_eq!(
        bootstrap_open_hlc(&index, 70_000, close_kind()).expect("in order"),
        at(70, 1)
    );
    assert_eq!(lifecycle_open_candidate(-5, at(3, 4), at(2, 9)), at(3, 4));
    assert!(validate_bootstrap_hlc(at(3, 4), at(3, 4), at(2, 9)).is_ok());
    assert!(matches!(
        validate_bootstrap_hlc(at(1, 4), at(3, 4), at(2, 9)),
        Err(StoreError::InvariantViolation {
            kind: StoreInvariant::BootstrapHlcOutOfOrder { .. }
        })
    ));
}

#[test]
fn a_close_that_goes_back_is_refused() {
    let mut index = StoreIndex::new();
    index.insert(entry(0, 50, close_kind()));
    index.insert(entry(1, 40, close_kind()));
    let refused = last_close_hlc(&index, close_kind()).expect_err("goes back");
    assert!(matches!(
        refused,
        StoreError::InvariantViolation {
            kind: StoreInvariant::CloseHlcRegression { previous, later }
        } if previous == at(50, 0) && later == at(40, 1)
    ));
    assert!(bootstrap_open_hlc(&index, 0, close_kind()).is_err());
}

#[test]
fn the_opened_point_is_read_back() {
    let mut index = StoreIndex::new();
    index.insert(entry(0, 50, EventKind::custom(0xF, 1)));
    assert!(opened_hlc(&index, 1, at(50, 0), close_kind()).is_err());
    index.publish(1, "publish").expect("publish");
    assert_eq!(
        opened_hlc(&index, 1, at(50, 0), close_kind()).expect("visible"),
        at(50, 0)
    );
    assert!(opened_hlc(&index, 1, at(60, 0), close_kind()).is_err());
}

#[test]
fn an_open_timestamp_must_have_a_number() {
    assert_eq!(timestamp_us_for_hlc(at(12, 0)).expect("small"), 12_000);
    assert!(matches!(
        timestamp_us_for_hlc(at(u64::MAX, 0)),
        Err(StoreError::InvariantViolation {
            kind: StoreInvariant::OpenHlcWallMsOverflow { .. }
        })
    ));
    assert!(matches!(
        timestamp_us_for_hlc(at(u64::MAX / 1_000, 0)),
        Err(StoreError::InvariantViolation {
            kind: StoreInvariant::OpenHlcTimestampOutOfRange { .. }
        })
    ));
}

#[test]
fn payload_collisions_are_warned_of_once_or_refused() {
    let collide = || Some("two payloads, one kind".to_owned());
    let check = validate_payload_registry_for_open;
    assert!(!check(EventPayloadValidation::FailFast, None, false).expect("none"));
    assert!(check(EventPayloadValidation::Warn, collide(), false).expect("warn"));
    assert!(!check(EventPayloadValidation::Warn, collide(), true).expect("warn"));
    assert!(!check(EventPayloadValidation::Silent, collide(), false).expect("silent"));
    assert!(matches!(
        check(EventPayloadValidation::FailFast, collide(), false),
        Err(StoreError::EventPayloadRegistry { message }) if message == "two payloads, one kind"
    ));
}

#[test]
fn open_writer_queue_len_reports_the_undrained_command_backlog() {
    let (tx, _command_rx) = flume::bounded::<u32>(16);
    for n in 0..3u32 {
        tx.send(n).expect("enqueue");
    }
    let open = Open::new(tx.len());
    assert_eq!(open.writer_queue_len(), Some(3));
    assert!(!open.is_stopping());
}

#[test]
fn open_diagnostics_reports_the_live_writer_backlog_and_capacity() {
    assert_eq!(
        writer_pressure(&Open::new(2), 32),
        WriterPressure {
            queue_len: 2,
            capacity: 32
        }
    );
    let none = WriterPressure {
        queue_len: 0,
        capacity: 0,
    };
    assert_eq!(writer_pressure(&Closed, 32), none);
    assert_eq!(writer_pressure(&ReadOnly, 32), none);
}

#[test]
fn stats_count_what_was_indexed() {
    let mut index = StoreIndex::new();
    index.insert(entry(0, 1, EventKind::custom(0xF, 1)));
    index.insert(entry(1, 2, EventKind::custom(0xF, 1)));
    let seen = stats(&index);
    assert_eq!(seen.event_count, 2);
    assert_eq!(seen.global_sequence, 2);
}

struct InternalA {
    n: u64,
}

impl EventPayload for InternalA {
    fn kind() -> EventKind {
        EventKind::custom(6, 1)
    }

    fn encode(&self) -> Result<Vec<u8>, String> {
        Ok(self.n.to_le_bytes().to_vec())
    }
}

struct InternalB {
    s: String,
}

impl EventPayload for InternalB {
    fn kind() -> EventKind {
        EventKind::custom(6, 2)
    }

    fn encode(&self) -> Result<Vec<u8>, String> {
        if self.s.is_empty() {
            Err("nothing to say".to_owned())
        } else {
            Ok(self.s.clone().into_bytes())
        }
    }
}

#[test]
fn flush_returns_empty_receipts_for_empty_batch() {
    let batch = ReactionBatch::new();
    assert!(batch.is_empty());
    assert!(batch.flush(0, 0).is_none());
}

#[test]
fn flush_commits_multi_item_batch_atomically() {
    let target = || {
        Coordinate::new("entity:reaction-internal-tgt", "scope:test").expect("valid coordinate")
    };
    let mut batch = ReactionBatch::new();
    batch
        .push_typed(target(), &InternalA { n: 2 }, CausationRef::Unspecified)
        .expect("push reaction item into batch");
    batch
        .push_typed(
            target(),
            &InternalB {
                s: "chained".into(),
            },
            CausationRef::PriorItem(0),
        )
        .expect("push reaction item into batch");
    assert_eq!(batch.len(), 2);
    let append = batch.flush(7, 9).expect("flush");
    assert_eq!(append.correlation_id, 7);
    assert_eq!(
        append.items.len(),
        2,
        "PROPERTY: flush returns one receipt per pushed item"
    );
    assert_eq!(append.items[0].kind, InternalA::kind());
    assert_eq!(append.items[1].kind, InternalB::kind());
    assert_eq!(append.items[0].payload, 2u64.to_le_bytes().to_vec());
    assert_eq!(append.items[1].payload, b"chained".to_vec());
    assert_eq!(append.items[0].causation, CausationRef::Absolute(9));
}

#[test]
fn prior_item_causation_resolves_within_flush() {
    let target = || {
        Coordinate::new("entity:reaction-chain-tgt", "scope:test").expect("valid coordinate")
    };
    let mut batch = ReactionBatch::new();
    batch
        .push_typed(target(), &InternalA { n: 11 }, CausationRef::Unspecified)
        .expect("push reaction item into batch");
    batch
        .push_typed(
            target(),
            &InternalB {
                s: "after-0".into(),
            },
            CausationRef::PriorItem(0),
        )
        .expect("push reaction item into batch");
    let append = batch.flush(10, 10).expect("flush");
    assert_eq!(append.items.len(), 2);
    assert_eq!(
        append.items[1].causation,
        CausationRef::PriorItem(0),
        "PROPERTY: PriorItem causation resolves to first item's event_id"
    );
}

#[test]
fn a_typed_push_takes_the_default_options() {
    let target = || Coordinate::new("entity:same", "scope:test").expect("valid coordinate");
    let mut typed = ReactionBatch::new();
    let mut optioned = ReactionBatch::new();
    for payload in ["said", ""] {
        let payload = InternalB { s: payload.into() };
        let a = typed.push_typed(target(), &payload, CausationRef::PriorItem(0));
        let b = optioned.push_typed_with_options(
            target(),
            &payload,
            AppendOptions::default(),
            CausationRef::PriorItem(0),
        );
        assert_eq!(a.is_ok(), b.is_ok());
    }
    let typed = typed.flush(1, 2).expect("one event");
    assert_eq!(typed.items.len(), 1);
    assert_eq!(typed.items[0].options.idempotency_key, None);
    assert_eq!(typed, optioned.flush(1, 2).expect("one event"));
}

#[test]
fn a_payload_without_bytes_leaves_the_batch_alone() {
    let target = Coordinate::new("entity:none", "scope:test").expect("valid coordinate");
    let mut batch = ReactionBatch::default();
    let refused = batch
        .push_typed_with_options(
            target,
            &InternalB { s: String::new() },
            AppendOptions {
                idempotency_key: Some(4),
            },
            CausationRef::Unspecified,
        )
        .expect_err("no bytes");
    assert!(matches!(
        refused,
        StoreError::Serialization { message } if message == "nothing to say"
    ));
    assert!(batch.is_empty());
}

#[test]
fn a_snapshot_holds_what_cannot_be_made_again() {
    assert_eq!(
        snapshot_source_file_kind(StoreFileKind::Segment(3)),
        Some(SnapshotFileKind::Segment)
    );
    for kind in [
        StoreFileKind::MalformedSegment,
        StoreFileKind::Checkpoint,
        StoreFileKind::MmapIndex,
        StoreFileKind::CompactSource,
        StoreFileKind::CursorDirectory,
        StoreFileKind::Other,
    ] {
        assert_eq!(snapshot_source_file_kind(kind), None);
    }
    let mut run = SnapshotRun::begin(2);
    for kind in [
        StoreFileKind::Segment(7),
        StoreFileKind::IdempotencyStore,
        StoreFileKind::Segment(3),
    ] {
        run.record(kind);
    }
    let report = run.finish(11, 7, 64);
    assert_eq!(report.copied_segment_ids_sorted, vec![3, 7]);
    assert!(report.copied_idempotency_store_present);
    assert!(!report.copied_visibility_ranges_present);
    assert_eq!(
        report.findings[..2],
        [
            SnapshotFinding::DestinationCleared { artifact_count: 2 },
            SnapshotFinding::FenceTokenCancelled
        ]
    );
    assert_eq!(report.findings.len(), 3);
    assert_eq!(
        (report.fence_token, report.source_watermark_offset),
        (11, 64)
    );
}

#[test]
fn only_what_is_in_the_way_is_cleared() {
    assert_eq!(fork_clear_action(false, true), ClearAction::Keep);
    assert_eq!(fork_clear_action(true, true), ClearAction::RemoveDir);
    assert_eq!(fork_clear_action(true, false), ClearAction::RemoveFile);
    assert_eq!(
        snapshot_clear_action(StoreFileKind::CursorDirectory, false, true),
        ClearAction::RemoveDir
    );
    assert_eq!(
        snapshot_clear_action(StoreFileKind::Other, false, true),
        ClearAction::Keep
    );
}

fn fork_file(kind: StoreFileKind, name: &str, strategy: ForkStrategy) -> ForkEntry {
    ForkEntry {
        source_kind: kind,
        file_name: name.to_owned(),
        strategy,
    }
}

#[test]
fn a_fork_counts_and_names_every_file() {
    let options = ForkOptions {
        copy_preference: CopyPreference::ShareIfPossible,
        exclude_caches: true,
    };
    let mut fork = ForkAccumulator::begin(0);
    let files = [
        (
            fork_file(StoreFileKind::Segment(2), "2", ForkStrategy::ShareIfPossible),
            Some(CowStrategyUsed::Hardlink),
        ),
        (
            fork_file(StoreFileKind::Segment(1), "1", ForkStrategy::ShareIfPossible),
            Some(CowStrategyUsed::Reflink),
        ),
        (
            fork_file(StoreFileKind::Segment(3), "3", ForkStrategy::DeepCopyAlways),
            Some(CowStrategyUsed::DeepCopy),
        ),
        (
            fork_file(
                StoreFileKind::VisibilityRanges,
                "ranges",
                ForkStrategy::DeepCopyAlways,
            ),
            Some(CowStrategyUsed::DeepCopy),
        ),
        (
            fork_file(
                StoreFileKind::Checkpoint,
                "checkpoint",
                ForkStrategy::CacheRegenerable,
            ),
            None,
        ),
        (
            fork_file(StoreFileKind::Other, "other", ForkStrategy::Exclude),
            None,
        ),
    ];
    for (file, used) in files {
        fork.fork_entry(file, &options, used);
    }
    fork.finish();
    assert_eq!(fork.shared_segment_ids_sorted, vec![1, 2]);
    assert_eq!(fork.deep_copied_segment_ids_sorted, vec![3]);
    assert!(fork.copied_visibility_ranges_present);
    assert!(!fork.copied_idempotency_store_present);
    let counts = fork.strategy_counts;
    assert_eq!((counts.reflink, counts.hardlink, counts.deep_copy), (1, 1, 2));
    assert_eq!((counts.cache_regenerable, counts.excluded), (1, 1));
    assert_eq!(fork.findings.len(), 7);
    assert_eq!(
        fork.findings[0],
        ForkFinding::FileCopied {
            file_name: "2".to_owned(),
            strategy: ForkCopyStrategy::Hardlink
        }
    );
    assert_eq!(fork.findings[6], ForkFinding::FenceTokenCancelled);
}

#[test]
fn a_store_is_not_forked_into_itself() {
    assert!(refuse_own_directory("/a", "/b", "/a").is_ok());
    assert!(matches!(
        refuse_own_directory("/a", "/a", "link"),
        Err(StoreError::Io { message, .. })
            if message == "fork destination link resolves to the source data directory"
    ));
}

fn segments(ids: &[u64]) -> Vec<SegmentFile> {
    let files = ids
        .iter()
        .map(|id| (StoreFileKind::Segment(*id), format!("/d/{id}")))
        .chain([(StoreFileKind::MalformedSegment, "/d/x".to_owned())])
        .collect();
    list_segments(files)
}

#[test]
fn sealed_segments_are_merged_where_there_are_enough() {
    let plan = plan_compaction(segments(&[5, 2, 9]), 2);
    assert_eq!(plan.active_segment_id, 9);
    let sealed: Vec<u64> = plan.sealed.iter().map(|s| s.id).collect();
    assert_eq!(sealed, vec![2, 5]);
    assert_eq!(plan.merged_id, Some(2));
    assert_eq!(plan_compaction(segments(&[5, 2, 9]), 3).merged_id, None);
    assert_eq!(plan_compaction(segments(&[]), 1).active_segment_id, 0);
}

/// The files of a directory, and what a step makes of them.
fn run(disk: &mut HashMap<String, u8>, steps: &[DiskStep]) {
    for step in steps {
        match step {
            DiskStep::Remove(path) => {
                disk.remove(path).expect("a file to remove");
            }
            DiskStep::RemoveIfPresent(path) => {
                disk.remove(path);
            }
            DiskStep::Rename { from, to } => {
                if let Some(contents) = disk.remove(from) {
                    disk.insert(to.clone(), contents);
                }
            }
            DiskStep::WriteMerged(path) => {
                disk.insert(path.clone(), 99);
            }
        }
    }
}

#[test]
fn a_failed_merge_puts_the_files_back() {
    let before: HashMap<String, u8> =
        [("/d/2".to_owned(), 2), ("/d/5".to_owned(), 5), ("/d/9".to_owned(), 9)].into();
    for done in 0..=2 {
        let mut disk = before.clone();
        let mut plan = plan_compaction(segments(&[5, 2, 9]), 2);
        let aside = "/d/aside".to_owned();
        let moved = relocate_merged_source(&mut plan.sealed, 2, aside).expect("first segment");
        run(&mut disk, &moved);
        assert_eq!(plan.sealed[0].path, "/d/aside");
        run(&mut disk, &merge_steps("/d/2")[..done]);
        run(&mut disk, &rollback_steps("/d/2", Some("/d/aside")));
        assert_eq!(disk, before);
    }
    assert!(rollback_steps("/d/2", None).is_empty());
    let mut none = segments(&[5]);
    assert!(relocate_merged_source(&mut none, 2, "/d/aside".to_owned()).is_none());
}

#[test]
fn a_merge_leaves_the_merged_and_the_active_segment() {
    let mut disk: HashMap<String, u8> =
        [("/d/2".to_owned(), 2), ("/d/5".to_owned(), 5), ("/d/9".to_owned(), 9)].into();
    let mut plan = plan_compaction(segments(&[5, 2, 9]), 2);
    let moved = relocate_merged_source(&mut plan.sealed, 2, "/d/aside".to_owned());
    run(&mut disk, &moved.expect("first segment"));
    run(&mut disk, &merge_steps("/d/2"));
    run(&mut disk, &removal_steps(&plan.sealed));
    assert_eq!(
        disk,
        [("/d/2".to_owned(), 99), ("/d/9".to_owned(), 9)].into()
    );
    assert_eq!(compact_source_name(2, "fbat"), "000002.fbat.compact-src");
    assert_eq!(
        compact_source_name(12_345_678, "fbat"),
        "12345678.fbat.compact-src"
    );
}

/// Runs a compaction of segments 2 and 5 before 9, in which one action fails.
fn compact(
    disk: &mut HashMap<String, u8>,
    min_segments: usize,
    failing: Option<usize>,
) -> (Vec<String>, Result<CompactionResult, StoreError>) {
    let mut run_of = CompactionRun::begin(min_segments);
    let mut asked = Vec::new();
    while !run_of.is_over() {
        let action = run_of.action();
        let fails = failing == Some(asked.len());
        let name = format!("{action:?}");
        asked.push(name.split([' ', '(']).next().unwrap_or_default().to_owned());
        if fails {
            run_of.took(CompactReply::Failed(StoreError::WriterCrashed));
            continue;
        }
        run_of.took(match action {
            CompactAction::List => CompactReply::Listed(
                [5, 2, 9]
                    .map(|id| (StoreFileKind::Segment(id), format!("/d/{id}")))
                    .into_iter()
                    .chain([(StoreFileKind::Checkpoint, "/d/checkpoint".to_owned())])
                    .collect(),
            ),
            CompactAction::Locate { merged_id } => CompactReply::Located {
                merged_path: format!("/d/{merged_id}"),
                aside: "/d/aside".to_owned(),
            },
            CompactAction::Mark(pending) => {
                assert_eq!(pending.source_segment_ids, vec![2, 5]);
                CompactReply::Done
            }
            CompactAction::Evict(ids) => {
                assert_eq!(ids, vec![2, 5]);
                CompactReply::Done
            }
            CompactAction::File(step) => {
                run(disk, &[step]);
                CompactReply::Done
            }
            CompactAction::Write { merged_id, sources } => {
                assert_eq!(merged_id, 2);
                assert_eq!(sources, vec!["/d/aside", "/d/5"]);
                disk.insert("/d/2".to_owned(), 99);
                CompactReply::Done
            }
            CompactAction::Source(step) => {
                run(disk, &[step]);
                CompactReply::Removed { length: Some(10) }
            }
            _ => CompactReply::Done,
        });
    }
    (asked, run_of.result())
}

fn three_segments() -> HashMap<String, u8> {
    [("/d/2".to_owned(), 2), ("/d/5".to_owned(), 5), ("/d/9".to_owned(), 9)].into()
}

#[test]
fn a_compaction_runs_to_its_end() {
    let mut disk = three_segments();
    let (asked, result) = compact(&mut disk, 2, None);
    assert_eq!(
        asked,
        vec![
            "Sync", "List", "Locate", "Mark", "Evict", "File", "File", "File", "Write", "Rebuild",
            "Swap", "Source", "Source", "File", "ClearMarker", "SettleKeys", "FlushKeys",
            "WriteArtifacts",
        ]
    );
    let result = result.expect("performed");
    assert_eq!(result.outcome, CompactionOutcome::Performed);
    assert_eq!(result.segments_removed, 2);
    assert_eq!(result.bytes_reclaimed, 20);
    assert_eq!(
        disk,
        [("/d/2".to_owned(), 99), ("/d/9".to_owned(), 9)].into()
    );
    let (asked, skipped) = compact(&mut disk, 3, None);
    assert_eq!(asked, vec!["Sync", "List"]);
    assert_eq!(skipped.expect("skipped").outcome, CompactionOutcome::Skipped);
}

#[test]
fn a_compaction_that_fails_puts_the_files_back_or_says_so() {
    for failing in 0..18 {
        let mut disk = three_segments();
        let (asked, result) = compact(&mut disk, 2, Some(failing));
        match asked[failing].as_str() {
            "Sync" | "List" | "Locate" | "Mark" => {
                assert!(matches!(result, Err(StoreError::WriterCrashed)));
                assert_eq!(disk, three_segments());
            }
            "Evict" | "SettleKeys" | "WriteArtifacts" => {
                let result = result.expect("performed");
                assert_eq!(result.outcome, CompactionOutcome::Performed);
            }
            "Write" | "Rebuild" => {
                let result = result.expect("rolled back");
                let CompactionOutcome::Failed { reason } = result.outcome else {
                    panic!("expected a failure");
                };
                assert!(
                    reason.starts_with("compaction pre-swap phase failed; disk layout rolled back: "),
                    "{reason}"
                );
                assert_eq!(result.segments_removed, 0);
                assert_eq!(disk, three_segments());
            }
            "File" if failing == 7 => {
                assert!(matches!(
                    result.expect("rolled back").outcome,
                    CompactionOutcome::Failed { .. }
                ));
                assert_eq!(disk, three_segments());
            }
            "File" if failing < 7 => {
                assert!(matches!(
                    result.expect("rolled back").outcome,
                    CompactionOutcome::Failed { .. }
                ));
                assert_eq!(asked[failing + 1..], ["ClearMarker"]);
                assert_eq!(disk, three_segments());
            }
            _ => assert!(matches!(result, Err(StoreError::WriterCrashed))),
        }
    }
}

#[test]
fn results_say_how_a_compaction_ended() {
    assert_eq!(
        CompactionResult::skipped().outcome,
        CompactionOutcome::Skipped
    );
    let performed = CompactionResult::performed(&[Some(3), None, Some(4)]);
    assert_eq!(performed.segments_removed, 3);
    assert_eq!(performed.bytes_reclaimed, 7);
    let failed = CompactionResult::rolled_back(
        "materialize failed",
        &StoreError::Configuration("bad".to_owned()),
    );
    assert_eq!(
        failed.outcome,
        CompactionOutcome::Failed {
            reason: "materialize failed; disk layout rolled back: configuration error: bad"
                .to_owned()
        }
    );
}

fn scanned(entity: &str, payload: u8) -> ScannedEntry<u8> {
    ScannedEntry {
        entity: entity.to_owned(),
        scope: "scope:test".to_owned(),
        event_kind: EventKind::custom(0xF, 1),
        payload_bytes: vec![payload],
        rest: payload,
    }
}

#[test]
fn retention_drops_and_tombstones_mark() {
    let tombstone = EventKind::custom(0xE, 9);
    let entries = || vec![scanned("a", 1), scanned("b", 2), scanned("a", 3)];
    let keep = |coordinate: &Coordinate, _: &ScannedEntry<u8>| coordinate.entity() == "a";
    let kept = rewrite_entries(Rewrite::Retention, entries(), keep, tombstone).expect("placed");
    let payloads: Vec<u8> = kept.iter().map(|e| e.rest).collect();
    assert_eq!(payloads, vec![1, 3]);
    let marked = rewrite_entries(Rewrite::Tombstone, entries(), keep, tombstone).expect("placed");
    assert_eq!(marked.len(), 3);
    assert_eq!(marked[1].event_kind, tombstone);
    assert_eq!(marked[1].payload_bytes, vec![2]);
    assert_eq!(marked[2].event_kind, EventKind::custom(0xF, 1));
    assert!(matches!(
        rewrite_entries(Rewrite::Retention, vec![scanned("", 1)], keep, tombstone),
        Err(StoreError::InvalidCoordinate(_))
    ));
}

#[test]
fn keys_of_dropped_events_are_marked() {
    let mut index = StoreIndex::new();
    for sequence in 0..2 {
        index.insert(entry(sequence, 1, EventKind::custom(0xF, 1)));
    }
    index.publish(2, "publish").expect("publish");
    let mut keys = IdempotencyStore::new(IdempotencyRetention::Unbounded, OverflowPolicy::Warn);
    for key in 1..3u128 {
        keys.record(IdempEntry {
            key,
            event_id: key,
            global_sequence: 0,
            disk_pos_segment: 0,
            disk_pos_offset: 0,
            disk_pos_length: 0,
            content_hash: [0u8; 32],
            prev_hash: [0u8; 32],
            entity: "e".to_owned(),
            scope: "s".to_owned(),
            kind: EventKind::custom(0xF, 1),
            recorded_global_sequence: 0,
            event_evicted: false,
            receipt_extensions: BTreeMap::new(),
        });
    }
    let mut fresh = StoreIndex::new();
    fresh
        .restore_sorted_entries(vec![entry(1, 1, EventKind::custom(0xF, 1))], 0)
        .expect("restore");
    index.replace_contents_from_fresh(fresh).expect("swap");
    let report = settle_keys(&index, &mut keys);
    assert_eq!(report.remaining, 2);
    assert!(keys.get(1).expect("kept").event_evicted);
    assert!(!keys.get(2).expect("kept").event_evicted);
    assert_eq!(index.len(), 1);
}

#[test]
fn a_compaction_goes_its_course() {
    let mut phase = CompactPhase::Sync;
    let mut seen = Vec::new();
    while !matches!(phase, CompactPhase::Done(_)) {
        seen.push(phase);
        phase = next_phase(phase, true, true);
    }
    assert_eq!(phase, CompactPhase::Done(CompactEnd::Performed));
    assert_eq!(seen.len(), 13);
    assert_eq!(
        next_phase(CompactPhase::List, true, false),
        CompactPhase::Done(CompactEnd::Skipped)
    );
    assert_eq!(
        next_phase(CompactPhase::Rebuild, false, true),
        CompactPhase::Rollback
    );
    assert_eq!(
        next_phase(CompactPhase::Rollback, true, true),
        CompactPhase::Unmark
    );
    assert_eq!(
        next_phase(CompactPhase::Unmark, true, true),
        CompactPhase::Done(CompactEnd::RolledBack)
    );
    assert_eq!(
        next_phase(CompactPhase::FlushKeys, false, true),
        CompactPhase::Done(CompactEnd::Failed)
    );
}

#[test]
fn the_marker_names_what_is_merged() {
    let plan = plan_compaction(segments(&[5, 2, 9]), 2);
    let pending = pending_compaction(&plan).expect("enough segments");
    assert_eq!(pending.merged_id, 2);
    assert_eq!(pending.source_segment_ids, vec![2, 5]);
    assert_eq!(
        pending_compaction(&plan_compaction(segments(&[5, 9]), 2)),
        None
    );
}

#[test]
fn a_copy_goes_its_course() {
    for (kind, phases) in [(CopyKind::Snapshot, 9), (CopyKind::Fork, 10)] {
        let mut phase = CopyPhase::BeginFence;
        let mut seen = 0;
        while phase != CopyPhase::Copied {
            assert_eq!(next_copy_phase(kind, phase, false), CopyPhase::Failed);
            phase = next_copy_phase(kind, phase, true);
            seen += 1;
        }
        assert_eq!(seen, phases);
    }
    assert_eq!(
        next_copy_phase(CopyKind::Snapshot, CopyPhase::CreateDestination, true),
        CopyPhase::ClearDestination
    );
}

#[test]
fn a_close_goes_its_course() {
    let mut phase = ClosePhase::AppendClosed;
    phase = next_close_phase(phase, false);
    assert_eq!(phase, ClosePhase::ShutdownWriter);
    while phase != ClosePhase::Closed {
        assert_eq!(next_close_phase(phase, false), ClosePhase::Failed);
        assert!(should_shutdown_on_drop(phase));
        phase = next_close_phase(phase, true);
    }
    assert!(!should_shutdown_on_drop(phase));
    let (payload, timestamp_us) = close_event(at(12, 7)).expect("small");
    assert_eq!((payload.wall_ms, payload.global_sequence), (12, 7));
    assert_eq!(timestamp_us, 12_000);
    assert!(close_event(at(u64::MAX, 0)).is_err());
    assert!(matches!(
        recv_writer_reply::<u8>(None),
        Err(StoreError::WriterCrashed)
    ));
    assert_eq!(recv_writer_reply(Some(Ok(4))).expect("reply"), 4);
}

#[test]
fn an_opening_goes_its_course() {
    let course = |request: OpenRequest| {
        let mut phase = OpenPhase::ValidateRegistry;
        let mut seen = Vec::new();
        while phase != OpenPhase::Opened {
            assert_eq!(next_open_phase(request, phase, false), OpenPhase::Failed);
            seen.push(phase);
            phase = next_open_phase(request, phase, true);
        }
        seen
    };
    let reading = course(OpenRequest {
        writable: false,
        has_profile: true,
    });
    assert_eq!(reading.len(), 9);
    assert!(!reading.contains(&OpenPhase::AppendOpened));
    assert!(reading.contains(&OpenPhase::VerifyProfile));
    let writing = course(OpenRequest {
        writable: true,
        has_profile: false,
    });
    assert_eq!(writing.len(), 11);
    assert!(writing.contains(&OpenPhase::SpawnWriter));
}

#[test]
fn diagnostics_show_the_index_and_the_writer() {
    let mut index = StoreIndex::new();
    index.insert(entry(0, 1, EventKind::custom(0xF, 1)));
    let settings = StoreSettings {
        data_dir: "/d".to_owned(),
        segment_max_bytes: 64,
        fd_budget: 4,
        channel_capacity: 32,
    };
    let evidence = evidence_for_store_path(
        1,
        StorePathStatusEvidence::ObservedDirectory,
        ParentDirSyncEvidence::UnixFsync,
        LockLeafSymlinkProtection::AtomicNoFollow,
        MmapEvidence::FileBacked,
        ActiveSegmentReadEvidence::UnixReadAt,
    );
    let seen = diagnostics(&index, &Open::new(3), &settings, evidence);
    assert_eq!((seen.event_count, seen.global_sequence), (1, 1));
    assert_eq!(seen.visible_sequence, 0);
    assert_eq!(seen.writer_pressure.queue_len, 3);
    assert_eq!(seen.writer_pressure.capacity, 32);
    assert_eq!(seen.data_dir, "/d");
    assert_eq!(seen.index_topology, index.topology_name());
}

#[test]
fn a_key_is_recorded_with_its_event() {
    let recorded = IdempEntry::from_index_entry(&entry(3, 7, close_kind()), 9);
    assert_eq!(recorded.key, 4);
    assert_eq!(recorded.event_id, 4);
    assert_eq!(recorded.global_sequence, 3);
    assert_eq!(recorded.disk_pos(), DiskPos::new(0, 48, 16));
    assert_eq!(recorded.entity, "entity:lifecycle");
    assert_eq!(recorded.scope, "scope:test");
    assert_eq!(recorded.kind, close_kind());
    assert_eq!(recorded.recorded_global_sequence, 9);
    assert!(!recorded.is_event_evicted());
}

/// Runs a copy of a store with a cache and an odd file.
fn copied(kind: CopyKind, own: bool, failing: Option<usize>) -> (Vec<String>, CopyRun) {
    let options = ForkOptions {
        copy_preference: CopyPreference::ShareIfPossible,
        exclude_caches: true,
    };
    let mut run_of = CopyRun::begin(kind, options, "/copy".to_owned());
    let mut asked = Vec::new();
    while !run_of.is_over() {
        let action = run_of.action();
        let fails = failing == Some(asked.len());
        asked.push(format!("{action:?}"));
        if fails {
            run_of.took(CopyReply::Failed(StoreError::WriterCrashed));
            continue;
        }
        run_of.took(match action {
            CopyAction::BeginFence => CopyReply::Began(7),
            CopyAction::ReadWatermark => CopyReply::Reaches {
                segment_id: 2,
                offset: 64,
            },
            CopyAction::Resolve => CopyReply::Resolved {
                dest: "/copy".to_owned(),
                source: if own { "/copy" } else { "/store" }.to_owned(),
            },
            CopyAction::ListDestination => CopyReply::DestinationListed(vec![
                DestinationFile {
                    kind: StoreFileKind::Segment(1),
                    name: "1".to_owned(),
                    in_the_way: true,
                    is_dir: false,
                },
                DestinationFile {
                    kind: StoreFileKind::Other,
                    name: "notes".to_owned(),
                    in_the_way: false,
                    is_dir: false,
                },
                DestinationFile {
                    kind: StoreFileKind::CursorDirectory,
                    name: "cursors".to_owned(),
                    in_the_way: false,
                    is_dir: true,
                },
            ]),
            CopyAction::RemoveFile(_) => CopyReply::Removed(true),
            CopyAction::RemoveDir(_) => CopyReply::Removed(false),
            CopyAction::ListSource => CopyReply::SourceListed(vec![
                fork_file(StoreFileKind::Segment(2), "2", ForkStrategy::DeepCopyAlways),
                fork_file(StoreFileKind::Segment(1), "1", ForkStrategy::ShareIfPossible),
                fork_file(
                    StoreFileKind::VisibilityRanges,
                    "ranges",
                    ForkStrategy::DeepCopyAlways,
                ),
                fork_file(StoreFileKind::Checkpoint, "cache", ForkStrategy::CacheRegenerable),
                fork_file(StoreFileKind::Other, "notes", ForkStrategy::Exclude),
            ]),
            CopyAction::Share {
                preference: CopyPreference::ShareIfPossible,
                ..
            } => CopyReply::Copied(CowStrategyUsed::Hardlink),
            CopyAction::Share { .. } => CopyReply::Copied(CowStrategyUsed::DeepCopy),
            _ => CopyReply::Done,
        });
    }
    (asked, run_of)
}

#[test]
fn a_snapshot_runs_to_its_end() {
    let (asked, run_of) = copied(CopyKind::Snapshot, false, None);
    assert_eq!(
        asked,
        vec![
            "BeginFence",
            "Sync",
            "FlushKeys",
            "ReadWatermark",
            "CheckDestination",
            "CreateDestination",
            "ListDestination",
            "RemoveFile(\"1\")",
            "RemoveDir(\"cursors\")",
            "ListSource",
            "CopyBytes(\"2\")",
            "CopyBytes(\"1\")",
            "CopyBytes(\"ranges\")",
            "CancelFence(7)",
        ]
    );
    let report = run_of.snapshot_report().expect("a report");
    assert_eq!(report.fence_token, 7);
    assert_eq!(report.source_watermark_segment_id, 2);
    assert_eq!(report.source_watermark_offset, 64);
    assert_eq!(report.copied_segment_ids_sorted, vec![1, 2]);
    assert!(report.copied_visibility_ranges_present);
    assert!(!report.copied_pending_compaction_marker_present);
    assert_eq!(
        report.findings[0],
        SnapshotFinding::DestinationCleared { artifact_count: 1 }
    );
    assert_eq!(report.findings.len(), 3);
}

#[test]
fn a_fork_runs_to_its_end() {
    let (asked, run_of) = copied(CopyKind::Fork, false, None);
    assert_eq!(
        asked[6..],
        [
            "Resolve",
            "ListDestination",
            "RemoveFile(\"1\")",
            "ListSource",
            "Share { name: \"2\", preference: DeepCopyOnly }",
            "Share { name: \"1\", preference: ShareIfPossible }",
            "Share { name: \"ranges\", preference: DeepCopyOnly }",
            "CheckEntry(\"cache\")",
            "CheckEntry(\"notes\")",
            "CancelFence(7)",
        ]
    );
    let report = run_of.fork_report().expect("a report");
    assert_eq!(report.files.shared_segment_ids_sorted, vec![1]);
    assert_eq!(report.files.deep_copied_segment_ids_sorted, vec![2]);
    assert!(report.files.copied_visibility_ranges_present);
    assert!(!report.files.copied_idempotency_store_present);
    assert_eq!(report.files.strategy_counts.hardlink, 1);
    assert_eq!(report.files.strategy_counts.deep_copy, 2);
    assert_eq!(report.files.strategy_counts.cache_regenerable, 1);
    assert_eq!(report.files.strategy_counts.excluded, 1);
    assert_eq!(report.files.findings.len(), 7);
    assert_eq!(report.files.findings[6], ForkFinding::FenceTokenCancelled);
}

#[test]
fn a_copy_that_fails_says_why() {
    for failing in 0..14 {
        let (asked, run_of) = copied(CopyKind::Snapshot, false, Some(failing));
        assert_eq!(asked.len(), failing + 1);
        assert!(matches!(
            run_of.snapshot_report(),
            Err(StoreError::WriterCrashed)
        ));
    }
    let (asked, run_of) = copied(CopyKind::Fork, true, None);
    assert_eq!(asked.last().map(String::as_str), Some("Resolve"));
    let Err(StoreError::Io { message, .. }) = run_of.fork_report() else {
        panic!("expected a refusal");
    };
    assert_eq!(
        message,
        "fork destination /copy resolves to the source data directory"
    );
}
