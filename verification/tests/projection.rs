//! Projections: cached state, replay, fusion, contracts and applied progress.

use batpak::coordinate::Coordinate;
use batpak::error::StoreError;
use batpak::event::{EventKind, HashChain};
use batpak::hlc::HlcPoint;
use batpak::index::columnar::ProjectionCacheStoreStatus;
use batpak::index::entry::{DiskPos, IndexEntry};
use batpak::index::groups::{CachedProjectionSlot, ProjectionTypeId};
use batpak::index::projection_bridge::ProjectionReplayPlan;
use batpak::index::scan::{IndexConfig, IndexTopology};
use batpak::index::store::StoreIndex;
use batpak::platform::clock::Clock;
use batpak::projection::cache_identity::{projection_cache_key, relevant_kinds_hash};
use batpak::projection::flow::{
    cache_row_is_fresh, change_run, compute_strategy, elapsed_us, group_local_projection_freshness, store_meta,
    store_projection_value, CacheMeta, FinishObservation, Freshness, GroupLocalProjectionFreshness,
    ProjectionCacheObservation, ProjectionCacheStoreOutcome, ProjectionExternalCacheStoreOutcome,
    ProjectionObservedFreshness, ProjectionRun, ProjectionStrategy, ReplayContext, RowProbe,
    RunSettings, RunStamp, RunStep, StoreBack,
};
use batpak::projection::fusion::{filtered_projection_events, fused_plan};
use batpak::projection::registry::ProjectionRegistry;
use batpak::projection::state_contract::{
    validate_projection_state, ProjectionStateContract, StateExtent, StateExtentCost,
};
use batpak::projection::watch::{ProjectionWatcher, Pulled, WatchStep, WatcherError};
use std::collections::{BTreeMap, HashMap};

const COUNTER: ProjectionTypeId = ProjectionTypeId { id: 1 };

fn counter_kind() -> EventKind {
    EventKind::custom(0xF, 1)
}

struct FixedMonoClock {
    mono_ns: i64,
}

impl Clock for FixedMonoClock {
    fn now_us(&self) -> i64 {
        0
    }

    fn now_wall_ns(&self) -> i64 {
        0
    }

    fn now_mono_ns(&self) -> i64 {
        self.mono_ns
    }

    fn process_boot_ns(&self) -> u64 {
        0
    }
}

/// A store in memory: an index, the numbers that its events hold, and an
/// external cache.
struct Memory {
    index: StoreIndex,
    numbers: HashMap<u64, u64>,
    cache: HashMap<Vec<u8>, (u64, CacheMeta)>,
    incremental: bool,
    now_us: i64,
    batch_reads: usize,
}

/// A projection onto a number.
struct Projection {
    type_id: ProjectionTypeId,
    kinds: Vec<EventKind>,
    supports_incremental: bool,
    from_events: fn(&[u64]) -> Option<u64>,
    apply: fn(u64, u64) -> u64,
}

fn count(numbers: &[u64]) -> Option<u64> {
    Some(u64::try_from(numbers.len()).expect("few events"))
}

fn count_some(numbers: &[u64]) -> Option<u64> {
    count(numbers).filter(|n| *n > 0)
}

fn total(numbers: &[u64]) -> Option<u64> {
    Some(numbers.iter().sum()).filter(|n| *n > 0)
}

impl Memory {
    fn with_topology(topology: IndexTopology) -> Memory {
        Memory {
            index: StoreIndex::with_config(&IndexConfig {
                topology,
                ..IndexConfig::default()
            }),
            numbers: HashMap::new(),
            cache: HashMap::new(),
            incremental: false,
            now_us: 0,
            batch_reads: 0,
        }
    }

    fn new() -> Memory {
        Memory::with_topology(IndexTopology::entity_local())
    }

    fn append(&mut self, entity: &str, kind: EventKind, number: u64) {
        let sequence = self.index.global_sequence();
        let entry = IndexEntry {
            event_id: u128::from(sequence) + 1,
            correlation_id: u128::from(sequence) + 1,
            causation_id: None,
            coord: Coordinate::new(entity, "scope:test").expect("coordinate"),
            entity_id: self.index.interner.intern(entity).expect("intern"),
            scope_id: self.index.interner.intern("scope:test").expect("intern"),
            kind,
            wall_ms: sequence,
            clock: u32::try_from(sequence).expect("small sequence"),
            dag_lane: 0,
            dag_depth: 0,
            hash_chain: HashChain::default(),
            disk_pos: DiskPos::new(0, sequence * 16, 16),
            global_sequence: sequence,
            receipt_extensions: BTreeMap::new(),
        };
        self.numbers.insert(sequence, number);
        self.index.insert(entry);
        let next = sequence + 1;
        self.index
            .publish_on_lanes(next, &[(0, next)], "append")
            .expect("publish");
    }

    fn project(
        &mut self,
        entity: &str,
        projection: &Projection,
        freshness: Freshness,
    ) -> (Option<u64>, FinishObservation) {
        let key = projection_cache_key(entity, projection.type_id.id as u64, 1, &projection.kinds);
        let stamp = RunStamp {
            cached_at_us: self.now_us,
            cached_at_mono_ns: 0,
            process_boot_ns: 0,
        };
        let mut run = ProjectionRun::prepare(
            &self.index,
            entity,
            &projection.kinds,
            projection.type_id,
            key.clone(),
            stamp,
            freshness,
            RunSettings {
                supports_incremental: projection.supports_incremental,
                incremental_enabled: self.incremental,
                cache_is_noop: false,
            },
        );
        if run.step() == RunStep::ProbeCache {
            let probe = match self.cache.get(&key) {
                Some((_, meta)) => RowProbe::Row(*meta),
                None => RowProbe::Missing,
            };
            run.probed(probe, self.now_us);
        }
        let numbers: Vec<u64> = run
            .items()
            .iter()
            .map(|item| self.numbers[&item.global_sequence])
            .collect();
        let slot = || {
            let plan = run.plan().expect("a plan");
            let slot = plan.group_local_slot.as_ref().expect("a slot");
            u64::from_le_bytes(slot.bytes.as_slice().try_into().expect("a number"))
        };
        let extend = |state: u64| numbers.iter().fold(state, |s, n| (projection.apply)(s, *n));
        let state = match run.step() {
            RunStep::Empty => None,
            RunStep::ServeSlot => Some(slot()),
            RunStep::ExtendSlot { .. } => Some(extend(slot())),
            RunStep::ServeRow { .. } => Some(self.cache[&key].0),
            RunStep::ExtendRow { .. } => Some(extend(self.cache[&key].0)),
            RunStep::ProbeCache => panic!("the cache was asked"),
            RunStep::Replay { .. } => (projection.from_events)(&numbers),
        };
        let outcome = run.finish(&self.index, state);
        let encoded = || state.map(|n| n.to_le_bytes().to_vec());
        match run.store_back(state.is_some()) {
            StoreBack::Nothing => {}
            StoreBack::Index { watermark } => {
                let _ = self.index.store_cached_projection(
                    entity,
                    projection.type_id,
                    encoded().expect("a state"),
                    watermark,
                );
            }
            StoreBack::Everywhere { .. } => {
                let replay = &run.plan().expect("a plan").replay;
                let meta = store_meta(replay, stamp);
                self.cache.insert(key, (state.expect("a state"), meta));
                let _ = store_projection_value(
                    &mut self.index,
                    entity,
                    replay,
                    encoded(),
                    ProjectionExternalCacheStoreOutcome::Stored,
                );
            }
        }
        (state, outcome.observation)
    }

    fn fused(&mut self, entity: &str, projections: &[&Projection]) -> Vec<Option<u64>> {
        let slices: Vec<&[EventKind]> = projections.iter().map(|p| p.kinds.as_slice()).collect();
        let Some(plan) = fused_plan(&self.index, entity, &slices) else {
            return projections.iter().map(|_| None).collect();
        };
        self.batch_reads += 1;
        let read: Vec<(EventKind, u64)> = plan
            .items
            .iter()
            .map(|item| {
                let entry = self
                    .index
                    .get_by_id(u128::from(item.global_sequence) + 1)
                    .expect("planned event");
                (entry.kind, self.numbers[&item.global_sequence])
            })
            .collect();
        let kinds: Vec<EventKind> = read.iter().map(|(kind, _)| *kind).collect();
        projections
            .iter()
            .map(|p| {
                let (own, _) = filtered_projection_events(&kinds, &plan.items, &p.kinds);
                let numbers: Vec<u64> = own.iter().map(|at| read[*at].1).collect();
                (p.from_events)(&numbers)
            })
            .collect()
    }
}

fn counting(kinds: Vec<EventKind>) -> Projection {
    Projection {
        type_id: COUNTER,
        kinds,
        supports_incremental: false,
        from_events: count,
        apply: |state, _| state,
    }
}

fn replay_context_for(memory: &Memory, entity: &str, cache_key: Vec<u8>) -> ReplayContext {
    let plan = memory
        .index
        .projection_replay_plan(entity, &[counter_kind()])
        .expect("a plan");
    ReplayContext {
        watermark: plan.watermark,
        cached_at_us: 0,
        cached_at_mono_ns: 0,
        process_boot_ns: 0,
        type_id: COUNTER,
        cache_key,
        plan,
    }
}

#[test]
fn elapsed_us_converts_nanoseconds_by_division() {
    let clock = FixedMonoClock { mono_ns: 3_456 };

    assert_eq!(
        elapsed_us(&clock, 123),
        3,
        "PROPERTY: projection flow timing must convert elapsed nanoseconds to microseconds by division."
    );
}

#[test]
fn projection_replay_plan_matches_legacy_stream_filtering() {
    let mut store = Memory::new();
    let kept = EventKind::custom(0xF, 1);
    let skipped = EventKind::custom(0xF, 2);
    for (kind, number) in [(kept, 1), (skipped, 2), (kept, 3)] {
        store.append("entity:proj", kind, number);
    }

    let Some(plan) = store
        .index
        .projection_replay_plan("entity:proj", &[counter_kind()])
    else {
        panic!("expected projection replay plan");
    };

    let legacy_entries: Vec<_> = store
        .index
        .stream("entity:proj")
        .into_iter()
        .filter(|entry| entry.kind == counter_kind())
        .collect();
    let legacy_items: Vec<_> = legacy_entries
        .iter()
        .map(|entry| (entry.global_sequence, entry.disk_pos))
        .collect();
    let planned_items: Vec<_> = plan
        .items
        .iter()
        .map(|item| (item.global_sequence, item.disk_pos))
        .collect();
    let Some(legacy_watermark) = legacy_entries.last().map(|entry| entry.global_sequence) else {
        panic!("expected legacy filtered entries");
    };

    assert_eq!(plan.watermark, legacy_watermark);
    assert_eq!(
        plan.generation,
        store.index.entity_generation("entity:proj").unwrap_or(0)
    );
    assert_eq!(planned_items, legacy_items);
}

#[test]
fn cache_store_reports_serialization_failure_without_touching_index() {
    let mut store = Memory::new();
    let entity = "entity:serialize-fail";
    store.append(entity, counter_kind(), 1);
    let replay = replay_context_for(&store, entity, b"serialize-failure-cache-key".to_vec());

    let outcome = store_projection_value(
        &mut store.index,
        entity,
        &replay,
        None,
        ProjectionExternalCacheStoreOutcome::Stored,
    );

    assert_eq!(outcome, ProjectionCacheStoreOutcome::SerializationFailed);
    assert!(
        store.index.cached_projection(entity, COUNTER).is_none(),
        "PROPERTY: serialization failure must not populate the group-local projection cache"
    );
}

#[test]
fn cache_store_reports_index_store_success_and_unsupported_topology() {
    let mut supported = Memory::with_topology(IndexTopology::entity_local());
    let entity = "entity:index-store-supported";
    supported.append(entity, counter_kind(), 1);
    let replay = replay_context_for(
        &supported,
        entity,
        projection_cache_key(entity, 1, 1, &[counter_kind()]),
    );
    let outcome = store_projection_value(
        &mut supported.index,
        entity,
        &replay,
        Some(vec![1]),
        ProjectionExternalCacheStoreOutcome::Stored,
    );
    assert_eq!(
        outcome,
        ProjectionCacheStoreOutcome::Stored {
            external: ProjectionExternalCacheStoreOutcome::Stored,
            index: ProjectionCacheStoreStatus::Stored,
        }
    );
    assert!(
        supported.index.cached_projection(entity, COUNTER).is_some(),
        "PROPERTY: a true index-side store return must leave a group-local slot"
    );

    let mut unsupported = Memory::with_topology(IndexTopology::scan());
    let entity = "entity:index-store-unsupported";
    unsupported.append(entity, counter_kind(), 1);
    let replay = replay_context_for(
        &unsupported,
        entity,
        projection_cache_key(entity, 1, 1, &[counter_kind()]),
    );
    let outcome = store_projection_value(
        &mut unsupported.index,
        entity,
        &replay,
        Some(vec![1]),
        ProjectionExternalCacheStoreOutcome::Stored,
    );
    assert_eq!(
        outcome,
        ProjectionCacheStoreOutcome::Stored {
            external: ProjectionExternalCacheStoreOutcome::Stored,
            index: ProjectionCacheStoreStatus::UnsupportedTopology,
        }
    );
    assert!(
        unsupported.index.cached_projection(entity, COUNTER).is_none(),
        "PROPERTY: unsupported topology must be reported instead of silently ignored"
    );
}

#[test]
fn compute_strategy_exhaustive() {
    let slot = CachedProjectionSlot {
        bytes: vec![],
        watermark: 42,
        generation: 1,
    };

    // Slot present + fresh -> GroupLocalHit
    assert_eq!(
        compute_strategy(Some(&slot), true, false, false, false),
        ProjectionStrategy::GroupLocalHit,
    );
    assert_eq!(
        compute_strategy(Some(&slot), true, true, true, true),
        ProjectionStrategy::GroupLocalHit,
    );

    // Slot present + stale + incremental supported + enabled -> GroupLocalIncremental
    assert_eq!(
        compute_strategy(Some(&slot), false, true, true, false),
        ProjectionStrategy::GroupLocalIncremental,
    );
    assert_eq!(
        compute_strategy(Some(&slot), false, true, true, true),
        ProjectionStrategy::GroupLocalIncremental,
    );

    // Slot present + stale + incremental disabled -> falls through to cache check
    assert_eq!(
        compute_strategy(Some(&slot), false, true, false, false),
        ProjectionStrategy::ExternalCacheThenReplay,
    );
    assert_eq!(
        compute_strategy(Some(&slot), false, true, false, true),
        ProjectionStrategy::DirectReplay,
    );

    // Slot present + stale + incremental NOT supported -> falls through to cache check
    assert_eq!(
        compute_strategy(Some(&slot), false, false, false, false),
        ProjectionStrategy::ExternalCacheThenReplay,
    );
    assert_eq!(
        compute_strategy(Some(&slot), false, false, true, false),
        ProjectionStrategy::ExternalCacheThenReplay,
    );
    assert_eq!(
        compute_strategy(Some(&slot), false, false, false, true),
        ProjectionStrategy::DirectReplay,
    );

    // No slot + noop cache -> DirectReplay
    assert_eq!(
        compute_strategy(None, false, false, false, true),
        ProjectionStrategy::DirectReplay,
    );

    // No slot + real cache -> ExternalCacheThenReplay
    assert_eq!(
        compute_strategy(None, false, false, false, false),
        ProjectionStrategy::ExternalCacheThenReplay,
    );
    assert_eq!(
        compute_strategy(None, false, true, true, false),
        ProjectionStrategy::ExternalCacheThenReplay,
    );
}

#[test]
fn group_local_projection_freshness_is_typed() {
    let replay = ReplayContext {
        watermark: 42,
        cached_at_us: 0,
        cached_at_mono_ns: 0,
        process_boot_ns: 0,
        type_id: COUNTER,
        cache_key: b"freshness-key".to_vec(),
        plan: ProjectionReplayPlan {
            watermark: 42,
            generation: 7,
            items: vec![],
        },
    };
    let fresh = CachedProjectionSlot {
        bytes: vec![],
        watermark: 42,
        generation: 7,
    };
    let stale_watermark = CachedProjectionSlot {
        bytes: vec![],
        watermark: 41,
        generation: 7,
    };
    let stale_generation = CachedProjectionSlot {
        bytes: vec![],
        watermark: 42,
        generation: 6,
    };

    assert_eq!(
        group_local_projection_freshness(None, &replay, &Freshness::Consistent),
        GroupLocalProjectionFreshness::Missing
    );
    assert_eq!(
        group_local_projection_freshness(Some(&fresh), &replay, &Freshness::Consistent),
        GroupLocalProjectionFreshness::Fresh
    );
    assert_eq!(
        group_local_projection_freshness(Some(&stale_watermark), &replay, &Freshness::Consistent),
        GroupLocalProjectionFreshness::Stale
    );
    assert_eq!(
        group_local_projection_freshness(
            Some(&stale_generation),
            &replay,
            &Freshness::MaybeStale {
                max_stale_ms: 1_000,
            },
        ),
        GroupLocalProjectionFreshness::Stale
    );
}

#[test]
fn group_local_freshness_is_fresh_only_for_fresh_variant() {
    assert!(GroupLocalProjectionFreshness::Fresh.is_fresh());
    assert!(!GroupLocalProjectionFreshness::Stale.is_fresh());
    assert!(!GroupLocalProjectionFreshness::Missing.is_fresh());
}

#[test]
fn incremental_projection_applies_events_after_cached_watermark() {
    // Applying one event adds 100, so an extended state differs from a replayed
    // one and from one that was left alone.
    let projection = Projection {
        type_id: COUNTER,
        kinds: vec![],
        supports_incremental: true,
        from_events: count,
        apply: |state, _| state + 100,
    };
    let mut store = Memory::new();
    store.incremental = true;
    let kind = counter_kind();
    store.append("entity:inc", kind, 1);
    store.append("entity:inc", kind, 2);
    let (first, _) = store.project("entity:inc", &projection, Freshness::Consistent);
    assert_eq!(first, Some(2));

    store.append("entity:inc", kind, 3);
    let (second, _) = store.project("entity:inc", &projection, Freshness::Consistent);
    assert_eq!(
        second,
        Some(102),
        "incremental apply must fold events committed after the cached watermark"
    );

    // Without the slot beside the index the external row is extended alike.
    let mut reopened = Memory::new();
    reopened.incremental = true;
    for number in [1, 2] {
        reopened.append("entity:inc", kind, number);
    }
    let _ = reopened.project("entity:inc", &projection, Freshness::Consistent);
    let rows = reopened.cache.clone();
    let mut reopened = Memory::new();
    reopened.incremental = true;
    reopened.cache = rows;
    for number in [1, 2, 3] {
        reopened.append("entity:inc", kind, number);
    }
    let (third, seen) = reopened.project("entity:inc", &projection, Freshness::Consistent);
    assert_eq!(third, Some(102));
    assert_eq!(seen.cache_status, ProjectionCacheObservation::Hit);
}

#[test]
fn external_cache_path_full_replays_for_non_incremental_type() {
    let stale_slot = CachedProjectionSlot {
        bytes: vec![1],
        watermark: 2,
        generation: 1,
    };
    assert_eq!(
        compute_strategy(Some(&stale_slot), false, false, true, false),
        ProjectionStrategy::ExternalCacheThenReplay,
        "a stale slot of a type that cannot be extended goes by the external cache"
    );

    let projection = counting(vec![]);
    let mut store = Memory::new();
    store.incremental = true;
    let kind = counter_kind();
    store.append("entity:noninc", kind, 1);
    store.append("entity:noninc", kind, 2);
    let (first, _) = store.project("entity:noninc", &projection, Freshness::Consistent);
    assert_eq!(first, Some(2));

    store.append("entity:noninc", kind, 3);
    let (second, _) = store.project("entity:noninc", &projection, Freshness::Consistent);
    assert_eq!(second, Some(3), "non-incremental type must full-replay (3)");
}

#[test]
fn maybe_stale_external_cache_age_boundary_is_pinned() {
    let projection = counting(vec![counter_kind()]);
    let mut store = Memory::new();
    let kind = counter_kind();
    store.append("entity:agecmp", kind, 1);
    store.append("entity:agecmp", kind, 2);

    let freshness = Freshness::MaybeStale { max_stale_ms: 1_000 };
    let (first, _) = store.project("entity:agecmp", &projection, freshness);
    assert_eq!(first, Some(2));
    store.append("entity:agecmp", kind, 3);

    store.now_us = 999_999;
    let (just_under, _) = store.project("entity:agecmp", &projection, freshness);
    assert_eq!(
        just_under,
        Some(2),
        "age 999_999 < 1_000_000 must be fresh (serve cached 2)"
    );

    store.now_us = 1_000_000;
    let (at_boundary, _) = store.project("entity:agecmp", &projection, freshness);
    assert_eq!(
        at_boundary,
        Some(3),
        "age 1_000_000 == threshold must be stale under `<` (full replay 3)"
    );
}

#[test]
fn external_cache_hit_observed_freshness_distinguishes_fresh_from_stale_allowed() {
    let projection = counting(vec![counter_kind()]);
    let kind = counter_kind();
    let mut store = Memory::new();
    store.append("entity:freshobs", kind, 1);
    store.append("entity:freshobs", kind, 2);
    let (warm, _) = store.project("entity:freshobs", &projection, Freshness::Consistent);
    assert_eq!(warm, Some(2));

    // Reopen: the external row stays, the slot beside the index is gone.
    let rows = store.cache;
    let mut store = Memory::new();
    store.cache = rows;
    store.append("entity:freshobs", kind, 1);
    store.append("entity:freshobs", kind, 2);
    let (fresh_state, fresh) =
        store.project("entity:freshobs", &projection, Freshness::Consistent);
    assert_eq!(fresh_state, Some(2));
    assert_eq!(fresh.cache_status, ProjectionCacheObservation::Hit);
    assert_eq!(fresh.observed_freshness, ProjectionObservedFreshness::Fresh);

    store.append("entity:freshobs", kind, 3);
    let (stale_state, stale) = store.project(
        "entity:freshobs",
        &projection,
        Freshness::MaybeStale { max_stale_ms: 60_000 },
    );
    assert_eq!(
        stale_state,
        Some(2),
        "age-fresh external row at the stale watermark must be served (cached 2)"
    );
    assert_eq!(
        stale.observed_freshness,
        ProjectionObservedFreshness::StaleAllowed
    );
}

#[test]
fn ahead_of_disk_external_cache_row_is_not_served_on_freshness_path() {
    let projection = counting(vec![counter_kind()]);
    let kind = counter_kind();
    let mut store = Memory::new();
    store.append("entity:ahead", kind, 1);
    store.append("entity:ahead", kind, 2);
    let key = projection_cache_key("entity:ahead", 1, 1, &projection.kinds);
    store.cache.insert(
        key,
        (
            99,
            CacheMeta {
                watermark: u64::MAX,
                cached_at_us: 0,
                cached_at_mono_ns: Some(0),
                process_boot_ns: Some(0),
            },
        ),
    );
    let (observed, _) = store.project(
        "entity:ahead",
        &projection,
        Freshness::MaybeStale { max_stale_ms: 60_000 },
    );
    assert_eq!(
        observed,
        Some(2),
        "a row ahead of the events must not be served, however fresh it is"
    );
}

#[test]
fn a_run_without_events_is_empty() {
    let mut store = Memory::new();
    let (state, seen) = store.project(
        "entity:none",
        &counting(vec![counter_kind()]),
        Freshness::Consistent,
    );
    assert_eq!(state, None);
    assert_eq!(seen.applied_sequence, None);
    assert_eq!(
        seen.observed_freshness,
        ProjectionObservedFreshness::NotApplicable
    );
}

#[test]
fn a_cache_that_fails_is_reported_and_passed_over() {
    let mut store = Memory::with_topology(IndexTopology::scan());
    store.append("entity:fail", counter_kind(), 1);
    let mut run = ProjectionRun::prepare(
        &store.index,
        "entity:fail",
        &[counter_kind()],
        COUNTER,
        vec![],
        RunStamp {
            cached_at_us: 0,
            cached_at_mono_ns: 0,
            process_boot_ns: 0,
        },
        Freshness::Consistent,
        RunSettings {
            supports_incremental: false,
            incremental_enabled: false,
            cache_is_noop: false,
        },
    );
    assert_eq!(run.step(), RunStep::ProbeCache);
    run.probed(RowProbe::Failed, 0);
    assert_eq!(
        run.observation().cache_status,
        ProjectionCacheObservation::Unavailable {
            reason: "cache_get_failed"
        }
    );
    assert_eq!(run.items().len(), 1);
    assert_eq!(
        run.applied_lanes(),
        vec![(
            0,
            HlcPoint {
                wall_ms: 0,
                global_sequence: 0
            }
        )]
    );
}

#[test]
fn a_served_state_that_cannot_be_decoded_is_replayed() {
    let projection = counting(vec![counter_kind()]);
    let mut store = Memory::new();
    store.append("entity:decode", counter_kind(), 1);
    let _ = store.project("entity:decode", &projection, Freshness::Consistent);
    let mut run = ProjectionRun::prepare(
        &store.index,
        "entity:decode",
        &projection.kinds,
        COUNTER,
        vec![],
        RunStamp {
            cached_at_us: 0,
            cached_at_mono_ns: 0,
            process_boot_ns: 0,
        },
        Freshness::Consistent,
        RunSettings {
            supports_incremental: false,
            incremental_enabled: false,
            cache_is_noop: false,
        },
    );
    assert_eq!(run.step(), RunStep::ServeSlot);
    run.decode_failed();
    assert_eq!(
        run.step(),
        RunStep::Replay {
            cache: ProjectionCacheObservation::Miss
        }
    );
}

#[test]
fn changes_are_looked_for_where_the_generation_moved() {
    assert_eq!(change_run(0, None), None);
    assert_eq!(change_run(3, Some(3)), None);
    assert_eq!(change_run(2, Some(3)), Some(Freshness::Consistent));
}

#[test]
fn distinct_kind_sets_produce_distinct_hashes() {
    assert_ne!(
        relevant_kinds_hash(&[EventKind::data()]),
        relevant_kinds_hash(&[EventKind::data(), EventKind::effect_error()]),
        "different relevant_event_kinds must hash differently"
    );
}

#[test]
fn cache_key_kinds_component_tracks_relevant_kinds() {
    // The trailing 8 bytes of the cache key are the kinds hash.
    let one = projection_cache_key("entity", 1, 1, &[EventKind::data()]);
    let two = projection_cache_key(
        "entity",
        1,
        1,
        &[EventKind::data(), EventKind::effect_error()],
    );
    assert_ne!(one[one.len() - 8..], two[two.len() - 8..]);
}

#[test]
fn a_cache_key_is_entity_type_version_kinds() {
    let kinds = [EventKind::data()];
    let key = projection_cache_key("ab", 0x0102, 7, &kinds);
    let mut expected = b"ab\0".to_vec();
    expected.extend_from_slice(&0x0102u64.to_le_bytes());
    expected.extend_from_slice(&7u64.to_le_bytes());
    expected.extend_from_slice(&relevant_kinds_hash(&kinds).to_le_bytes());
    assert_eq!(key, expected);
    let (a, b) = (EventKind::data(), EventKind::effect_error());
    assert_eq!(relevant_kinds_hash(&[a, b]), relevant_kinds_hash(&[b, a]));
}

fn left_kind() -> EventKind {
    EventKind::custom(0xF, 41)
}

fn right_kind() -> EventKind {
    EventKind::custom(0xF, 42)
}

fn overlap_kind() -> EventKind {
    EventKind::custom(0xF, 43)
}

fn noise_kind() -> EventKind {
    EventKind::custom(0xF, 44)
}

fn projection(id: u128, kinds: Vec<EventKind>, from_events: fn(&[u64]) -> Option<u64>) -> Projection {
    Projection {
        type_id: ProjectionTypeId { id },
        kinds,
        supports_incremental: false,
        from_events,
        apply: |state, _| state,
    }
}

#[test]
fn fused_direct_replay_reads_shared_stream_once() {
    let mut store = Memory::new();
    store.append("entity:fused-once", left_kind(), 1);
    store.append("entity:fused-once", right_kind(), 2);
    store.append("entity:fused-once", right_kind(), 3);
    let left = projection(1, vec![left_kind()], count_some);
    let right = projection(2, vec![right_kind()], total);
    let fused = store.fused("entity:fused-once", &[&left, &right]);
    assert_eq!(fused[0], Some(1));
    assert_eq!(fused[1], Some(5));
    assert_eq!(
        store.batch_reads, 1,
        "PROPERTY: fused projection must batch-read the shared replay stream once"
    );
}

#[test]
fn fused_result_matches_separate_consistent_projections() {
    let mut store = Memory::new();
    let entity = "entity:fused-equiv";
    store.append(entity, left_kind(), 1);
    store.append(entity, right_kind(), 2);
    store.append(entity, left_kind(), 3);
    let left = projection(1, vec![left_kind()], count_some);
    let right = projection(2, vec![right_kind()], total);
    let separate_left = store.project(entity, &left, Freshness::Consistent).0;
    let separate_right = store.project(entity, &right, Freshness::Consistent).0;
    let fused = store.fused(entity, &[&left, &right]);
    assert_eq!(fused, vec![separate_left, separate_right]);
}

#[test]
fn fused_overlapping_kinds_match_separate_projections_and_batch_read_once() {
    let mut store = Memory::new();
    let entity = "entity:fused-overlap";
    store.append(entity, overlap_kind(), 2);
    store.append(entity, noise_kind(), 100);
    store.append(entity, overlap_kind(), 5);
    let counted = projection(1, vec![overlap_kind()], count_some);
    let totalled = projection(2, vec![overlap_kind()], total);
    let separate_count = store.project(entity, &counted, Freshness::Consistent).0;
    let separate_total = store.project(entity, &totalled, Freshness::Consistent).0;
    let fused = store.fused(entity, &[&counted, &totalled]);
    assert_eq!(
        fused,
        vec![separate_count, separate_total],
        "PROPERTY: overlapping-kind fused replay must equal separate projections"
    );
    assert_eq!(
        store.batch_reads, 1,
        "PROPERTY: overlapping-kind fusion must still batch-read the shared replay stream once"
    );
}

#[test]
fn fused_empty_relevant_kind_projection_matches_all_events() {
    let mut store = Memory::new();
    let entity = "entity:fused-match-all";
    store.append(entity, left_kind(), 1);
    store.append(entity, right_kind(), 2);
    store.append(entity, noise_kind(), 3);
    let all = projection(1, vec![], count_some);
    let right = projection(2, vec![right_kind()], total);
    let fused = store.fused(entity, &[&all, &right]);
    assert_eq!(
        fused,
        vec![Some(3), Some(2)],
        "PROPERTY: an empty relevant_event_kinds slice means match all events in fused replay"
    );
    assert_eq!(
        store.batch_reads, 1,
        "PROPERTY: match-all fusion must batch-read the shared replay stream once"
    );
}

#[test]
fn fused_three_projection_tuple_batch_reads_once() {
    let mut store = Memory::new();
    let entity = "entity:fused-three";
    store.append(entity, left_kind(), 1);
    store.append(entity, right_kind(), 2);
    store.append(entity, noise_kind(), 3);
    let left = projection(1, vec![left_kind()], count_some);
    let right = projection(2, vec![right_kind()], total);
    let noise = projection(3, vec![noise_kind()], count_some);
    let separate: Vec<Option<u64>> = [&left, &right, &noise]
        .iter()
        .map(|p| store.project(entity, p, Freshness::Consistent).0)
        .collect();
    let fused = store.fused(entity, &[&left, &right, &noise]);
    assert_eq!(
        fused, separate,
        "PROPERTY: fused 3-projection tuple fold must equal separate consistent folds"
    );
    assert_eq!(
        store.batch_reads, 1,
        "PROPERTY: fused 3-projection tuple must batch-read the shared replay stream once"
    );
}

#[test]
fn unspecified_projection_contract_is_rejected() {
    let mut store = Memory::new();
    let entity = "entity:unspecified-contract";
    store.append(entity, EventKind::custom(0xF, 71), 1);
    let projected = projection(1, vec![EventKind::custom(0xF, 71)], count_some);
    let (state, _) = store.project(entity, &projected, Freshness::Consistent);
    let extent = state.map(|n| StateExtent::of_cardinality(n, StateExtentCost::ConstantTime));
    let err = validate_projection_state(
        "UnspecifiedProjection".to_owned(),
        ProjectionStateContract::Unspecified,
        extent,
    )
    .expect_err("unspecified projection contract must fail closed");
    assert!(
        matches!(err, StoreError::ProjectionStateContractUnspecified { .. }),
        "PROPERTY: unspecified projection contract must fail with the exact state-contract error, got {err:?}"
    );
}

#[test]
fn projection_exceeding_declared_state_bound_is_rejected() {
    let mut store = Memory::new();
    let entity = "entity:over-bound";
    for n in [1, 2] {
        store.append(entity, EventKind::custom(0xF, 72), n);
    }
    let contract = ProjectionStateContract::Bounded {
        key_space: "projection-flow-over-bound",
        max_cardinality: 1,
    };
    let projected = projection(1, vec![EventKind::custom(0xF, 72)], count_some);
    let (state, _) = store.project(entity, &projected, Freshness::Consistent);
    let extent = state.map(|n| StateExtent::of_cardinality(n, StateExtentCost::ConstantTime));
    let err = validate_projection_state("OverBoundProjection".to_owned(), contract, extent)
        .expect_err("projection above declared state bound must fail closed");
    assert!(
        matches!(err, StoreError::ProjectionStateBoundExceeded { .. }),
        "PROPERTY: over-bound projection must fail with the exact state-bound error, got {err:?}"
    );
    assert!(validate_projection_state(
        "OverBoundProjection".to_owned(),
        contract,
        Some(StateExtent::of_cardinality(1, StateExtentCost::LinearTime))
    )
    .is_ok());
    assert!(matches!(
        validate_projection_state(
            "OverBoundProjection".to_owned(),
            contract,
            Some(StateExtent {
                cardinality: None,
                cost: StateExtentCost::ConstantTime
            })
        ),
        Err(StoreError::ProjectionStateExtentUnavailable { .. })
    ));
}

#[test]
fn projection_ids_include_type_and_entity_identity() {
    let a = ProjectionRegistry::id_for_type("ProjectionA", "entity:projection-id");
    let b = ProjectionRegistry::id_for_type("ProjectionB", "entity:projection-id");

    assert!(a.contains("ProjectionA"));
    assert!(a.contains("entity:projection-id"));
    assert_ne!(
        a, b,
        "PROPERTY: different projection types on the same entity must not share an applied-frontier ID"
    );
}

#[test]
fn unregister_removes_only_the_target_projections_lane_progress() {
    let origin = HlcPoint::origin();
    let low = HlcPoint {
        wall_ms: 100,
        global_sequence: 10,
    };
    let mid = HlcPoint {
        wall_ms: 200,
        global_sequence: 20,
    };
    let high = HlcPoint {
        wall_ms: 300,
        global_sequence: 30,
    };
    let mut registry = ProjectionRegistry::new();
    let mut lane = Some(origin);
    let mut report = |registry: &mut ProjectionRegistry, id: &str, point: HlcPoint| {
        let (_, applied) = registry.notify_applied_on_lane(id, 1, point, high, lane);
        lane = applied;
        applied
    };
    // The lane applied frontier is the least over both.
    assert_eq!(report(&mut registry, "projection:drop", low), Some(low));
    assert_eq!(report(&mut registry, "projection:keep", high), Some(low));

    registry.unregister("projection:drop");

    assert_eq!(
        report(&mut registry, "projection:keep", mid),
        Some(high),
        "PROPERTY: unregister must drop only the target projection and preserve the survivor's lane frontier"
    );
}

#[test]
fn first_lane_projection_notification_does_not_regress_existing_lane_applied_frontier() {
    let high = HlcPoint {
        wall_ms: 100,
        global_sequence: 10,
    };
    let low = HlcPoint {
        wall_ms: 1,
        global_sequence: 4,
    };
    let mut registry = ProjectionRegistry::new();
    let (_, lane) =
        registry.notify_applied_on_lane("projection:first-seen", 1, low, high, Some(high));
    assert_eq!(
        lane,
        Some(high),
        "PROPERTY: first notification from an unregistered projection must not regress a lane's applied frontier"
    );
}

#[test]
fn the_slowest_projection_holds_the_frontier_back() {
    let at = |global_sequence: u64| HlcPoint {
        wall_ms: global_sequence,
        global_sequence,
    };
    let mut registry = ProjectionRegistry::new();
    assert_eq!(registry.register("a", at(3)), Some(at(3)));
    assert_eq!(registry.register("b", at(5)), Some(at(3)));
    assert_eq!(registry.notify_applied("a", at(9)), Some(at(5)));
    assert_eq!(registry.notify_applied("a", at(1)), Some(at(5)));
    assert_eq!(registry.slowest(Some(4)), None);
    assert_eq!(registry.unregister("b"), Some(at(9)));
    assert_eq!(registry.unregister("a"), None);
}

#[test]
fn watcher_error_display_names_terminal_and_store_errors() {
    assert_eq!(
        WatcherError::StoreClosed.message(),
        "projection watcher stopped: underlying notification channel closed",
        "PROPERTY: terminal watcher closure should remain visible in Display output"
    );

    let store_error = StoreError::Configuration("bad watcher config".to_owned());
    let error = WatcherError::Store(store_error);
    let display = error.message();
    assert!(
        display.contains("projection watcher failed"),
        "PROPERTY: wrapped store errors should retain watcher context in Display output"
    );
    assert!(
        display.contains("bad watcher config"),
        "PROPERTY: wrapped store errors should retain their inner diagnostic message"
    );
    assert!(
        error.source().is_some(),
        "PROPERTY: wrapped store errors should remain available through source()"
    );
}

#[test]
fn recv_performs_pending_initial_check_before_blocking_on_subscription() {
    let entity = "watch:startup-race";
    let mut store = Memory::new();
    store.append(entity, counter_kind(), 1);
    let mut watcher =
        ProjectionWatcher::new(entity.to_owned(), Freshness::Consistent, 0, true);

    assert_eq!(watcher.begin_wait(), WatchStep::Check);
    let generation = store.index.entity_generation(watcher.entity());
    let freshness = change_run(watcher.last_delivered_generation(), generation)
        .expect("pending initial check should return without a second append");
    let (state, seen) = store.project(entity, &counting(vec![]), freshness);
    let result = watcher
        .offer(Some((seen.generation, state)))
        .expect("watcher recv");
    assert!(
        result.0 > 0,
        "generation should advance on the first append"
    );
    assert_eq!(result.1, Some(1));

    assert_eq!(watcher.begin_wait(), WatchStep::Wait);
    assert!(watcher.offer(Some((result.0, state))).is_none());
}

#[test]
fn a_watcher_goes_by_what_it_pulled() {
    assert!(matches!(
        ProjectionWatcher::after_pull(Pulled::Empty),
        Ok(WatchStep::Wait)
    ));
    assert!(matches!(
        ProjectionWatcher::after_pull(Pulled::Items),
        Ok(WatchStep::Check)
    ));
    assert!(matches!(
        ProjectionWatcher::after_pull(Pulled::Closed),
        Err(WatcherError::SubscriptionPruned)
    ));
    assert_eq!(
        ProjectionWatcher::after_cursor_pull(Pulled::Empty),
        WatchStep::Wait
    );
}

#[test]
fn a_bound_beyond_the_signed_numbers_leaves_nothing_fresh() {
    let meta = CacheMeta {
        watermark: 1,
        cached_at_us: 0,
        cached_at_mono_ns: None,
        process_boot_ns: None,
    };
    let fresh = |max_stale_ms: u64, now_us: i64| {
        cache_row_is_fresh(&Freshness::MaybeStale { max_stale_ms }, 1, &meta, now_us)
    };
    assert!(!fresh(u64::MAX, 0));
    assert!(fresh(1, 999));
    assert!(!fresh(1, 1_000));
    assert!(fresh(1, -5), "a clock that went back makes a row young");
    assert!(!fresh(0, 0));
}

#[test]
fn a_cursor_watcher_waits_first() {
    let mut watcher = ProjectionWatcher::new_cursor("e".to_owned(), Freshness::Consistent, 4);
    assert_eq!(watcher.begin_wait(), WatchStep::Wait);
    assert_eq!(ProjectionWatcher::after_cursor_pull(Pulled::Empty), WatchStep::Wait);
    assert_eq!(ProjectionWatcher::after_cursor_pull(Pulled::Items), WatchStep::Check);
    assert_eq!(ProjectionWatcher::after_cursor_pull(Pulled::Closed), WatchStep::Check);
    assert_eq!(watcher.offer(Some((4, Some(1u64)))), None);
    assert_eq!(watcher.offer(Some((5, Some(1u64)))), Some((5, Some(1u64))));
    assert_eq!(watcher.last_delivered_generation(), 5);
}
