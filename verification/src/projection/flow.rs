//! The course of a projection: which cached state is served, extended or
//! passed over, which events are replayed, and what the result may claim.
//!
//! Reading events, folding them and talking to the external cache happen
//! outside. A [`ProjectionRun`] says what to do next and takes what came of it.

use crate::event::EventKind;
use crate::hlc::HlcPoint;
use crate::index::columnar::ProjectionCacheStoreStatus;
use crate::index::groups::{CachedProjectionSlot, ProjectionTypeId};
use crate::index::projection_bridge::{ProjectionReplayItem, ProjectionReplayPlan};
use crate::index::store::StoreIndex;
use crate::platform::clock::Clock;
use super::lanes::LaneReach;
use vstd::prelude::*;

verus! {

/// How fresh a projection must be.
#[derive(Clone, Copy, Debug, PartialEq, Eq, Structural)]
pub enum Freshness {
    /// As fresh as the index.
    Consistent,
    /// Cached state that is younger than a bound will do.
    MaybeStale {
        /// The bound in milliseconds.
        max_stale_ms: u64,
    },
}

impl Freshness {
    /// The bound in microseconds has a number.
    pub open spec fn wf(&self) -> bool {
        match self {
            Freshness::Consistent => true,
            Freshness::MaybeStale { max_stale_ms } => i64::MIN <= signed(*max_stale_ms) * 1000
                <= i64::MAX,
        }
    }
}

/// The signed number with the bits of an unsigned one. A bound beyond the
/// signed numbers counts as negative: nothing is younger.
pub open spec fn signed(n: u64) -> int {
    if n <= i64::MAX {
        n as int
    } else {
        n - 0x1_0000_0000_0000_0000
    }
}

/// What the external cache keeps beside a state.
#[derive(Clone, Copy, Debug, PartialEq, Eq, Structural)]
pub struct CacheMeta {
    /// Sequence that the state has seen.
    pub watermark: u64,
    /// Wall clock microseconds when the state was stored.
    pub cached_at_us: i64,
    /// Monotonic nanoseconds when the state was stored.
    pub cached_at_mono_ns: Option<i64>,
    /// Marker of the monotonic clock's epoch.
    pub process_boot_ns: Option<u64>,
}

/// What became of the cache in a run.
#[derive(Clone, Copy, Debug, PartialEq, Eq)]
pub enum ProjectionCacheObservation {
    /// Cached state was served or extended.
    Hit,
    /// There was no cached state that could be used.
    Miss,
    /// The cache was not asked.
    Bypassed,
    /// The cache could not answer.
    Unavailable {
        /// Why not.
        reason: &'static str,
    },
}

/// How fresh the state of a run is.
#[derive(Clone, Copy, Debug, PartialEq, Eq, Structural)]
pub enum ProjectionObservedFreshness {
    /// As fresh as the index.
    Fresh,
    /// Older than the index, as was allowed.
    StaleAllowed,
    /// There is no state.
    NotApplicable,
}

/// Whether the state cached beside the index can be served.
#[derive(Clone, Copy, Debug, PartialEq, Eq, Structural)]
pub enum GroupLocalProjectionFreshness {
    /// There is none.
    Missing,
    /// It is as fresh as the index.
    Fresh,
    /// It is older than the index.
    Stale,
}

impl GroupLocalProjectionFreshness {
    /// Whether it is as fresh as the index.
    pub fn is_fresh(self) -> (r: bool)
        ensures
            r == (self is Fresh),
    {
        match self {
            GroupLocalProjectionFreshness::Fresh => true,
            _ => false,
        }
    }
}

/// What a run replays, and when it was planned.
#[derive(Debug)]
pub struct ReplayContext {
    /// Sequence of the last relevant event.
    pub watermark: u64,
    /// Wall clock microseconds.
    pub cached_at_us: i64,
    /// Monotonic nanoseconds.
    pub cached_at_mono_ns: i64,
    /// Marker of the monotonic clock's epoch.
    pub process_boot_ns: u64,
    /// The projection's type.
    pub type_id: ProjectionTypeId,
    /// Key of the state in the external cache.
    pub cache_key: Vec<u8>,
    /// The events.
    pub plan: ProjectionReplayPlan,
}

/// The state cached beside the index has seen what the plan would replay.
pub open spec fn unchanged(slot: &CachedProjectionSlot, replay: &ReplayContext) -> bool {
    slot.watermark == replay.watermark && slot.generation == replay.plan.generation
}

/// Whether the state cached beside the index can be served.
pub open spec fn slot_freshness(
    slot: Option<&CachedProjectionSlot>,
    replay: &ReplayContext,
) -> GroupLocalProjectionFreshness {
    match slot {
        None => GroupLocalProjectionFreshness::Missing,
        Some(slot) => if unchanged(slot, replay) {
            GroupLocalProjectionFreshness::Fresh
        } else {
            GroupLocalProjectionFreshness::Stale
        },
    }
}

/// Whether the state cached beside the index can be served. Its age is known by
/// the wall clock alone, so a bound on staleness asks as much as consistency.
pub fn group_local_projection_freshness(
    slot: Option<&CachedProjectionSlot>,
    replay: &ReplayContext,
    freshness: &Freshness,
) -> (r: GroupLocalProjectionFreshness)
    ensures
        r == slot_freshness(slot, replay),
{
    let slot = match slot {
        Some(slot) => slot,
        None => return GroupLocalProjectionFreshness::Missing,
    };
    let unchanged = slot.watermark == replay.watermark && slot.generation
        == replay.plan.generation;
    match freshness {
        Freshness::Consistent | Freshness::MaybeStale { .. } => if unchanged {
            GroupLocalProjectionFreshness::Fresh
        } else {
            GroupLocalProjectionFreshness::Stale
        },
    }
}

/// Where the state of a run comes from.
#[derive(Clone, Copy, Debug, PartialEq, Eq, Structural)]
pub enum ProjectionStrategy {
    /// The state cached beside the index.
    GroupLocalHit,
    /// That state and the events after it.
    GroupLocalIncremental,
    /// The external cache, else a replay.
    ExternalCacheThenReplay,
    /// A replay.
    DirectReplay,
}

/// Where the state of a run comes from.
pub open spec fn strategy_of(
    has_slot: bool,
    is_fresh: bool,
    supports_incremental: bool,
    incremental_enabled: bool,
    cache_is_noop: bool,
) -> ProjectionStrategy {
    if has_slot && is_fresh {
        ProjectionStrategy::GroupLocalHit
    } else if has_slot && supports_incremental && incremental_enabled {
        ProjectionStrategy::GroupLocalIncremental
    } else if cache_is_noop {
        ProjectionStrategy::DirectReplay
    } else {
        ProjectionStrategy::ExternalCacheThenReplay
    }
}

/// Where the state of a run comes from.
pub fn compute_strategy(
    group_local_slot: Option<&CachedProjectionSlot>,
    is_group_local_fresh: bool,
    supports_incremental: bool,
    incremental_enabled: bool,
    cache_is_noop: bool,
) -> (r: ProjectionStrategy)
    ensures
        r == strategy_of(
            group_local_slot is Some,
            is_group_local_fresh,
            supports_incremental,
            incremental_enabled,
            cache_is_noop,
        ),
{
    if group_local_slot.is_some() {
        if is_group_local_fresh {
            return ProjectionStrategy::GroupLocalHit;
        }
        if supports_incremental && incremental_enabled {
            return ProjectionStrategy::GroupLocalIncremental;
        }
    }
    if cache_is_noop {
        ProjectionStrategy::DirectReplay
    } else {
        ProjectionStrategy::ExternalCacheThenReplay
    }
}

/// Microseconds between two monotonic readings; none where they go back.
pub open spec fn micros_between(started_at_ns: i64, now_ns: i64) -> int {
    if now_ns <= started_at_ns {
        0
    } else {
        (now_ns - started_at_ns) / 1000
    }
}

/// Microseconds since a monotonic reading.
pub fn elapsed_us<C: Clock>(clock: &C, started_at_ns: i64) -> (r: u64)
    ensures
        exists|now: i64| #[trigger]
            call_ensures(C::now_mono_ns, (clock,), now) && r == micros_between(started_at_ns, now),
{
    let now: i64 = clock.now_mono_ns();
    if now <= started_at_ns {
        return 0;
    }
    let nanos: u64 = (now as i128 - started_at_ns as i128) as u64;
    nanos / 1000
}

/// Age of a cached state in microseconds: none where the clock went back, and
/// no more than `i64` holds.
pub open spec fn age_us(cached_at_us: i64, now_us: i64) -> int {
    let age = now_us - cached_at_us;
    if age < 0 {
        0
    } else if age > i64::MAX {
        i64::MAX as int
    } else {
        age
    }
}

/// The external cache's state is fresh enough.
pub open spec fn row_is_fresh(
    freshness: Freshness,
    replay_watermark: u64,
    meta: CacheMeta,
    now_us: i64,
) -> bool {
    match freshness {
        Freshness::Consistent => meta.watermark == replay_watermark,
        Freshness::MaybeStale { max_stale_ms } => age_us(meta.cached_at_us, now_us) < signed(
            max_stale_ms,
        ) * 1000,
    }
}

/// Whether the external cache's state is fresh enough.
pub fn cache_row_is_fresh(
    freshness: &Freshness,
    replay_watermark: u64,
    meta: &CacheMeta,
    now_us: i64,
) -> (r: bool)
    requires
        freshness.wf(),
    ensures
        r == row_is_fresh(*freshness, replay_watermark, *meta, now_us),
{
    match freshness {
        Freshness::Consistent => meta.watermark == replay_watermark,
        Freshness::MaybeStale { max_stale_ms } => {
            let wide: i128 = now_us as i128 - meta.cached_at_us as i128;
            let age: i64 = if wide < 0 {
                0
            } else if wide > 0x7fff_ffff_ffff_ffff {
                i64::MAX
            } else {
                wide as i64
            };
            let bound_ms: i64 = if *max_stale_ms <= 0x7fff_ffff_ffff_ffff {
                *max_stale_ms as i64
            } else {
                -((u64::MAX - *max_stale_ms) as i64) - 1
            };
            age < bound_ms * 1000
        },
    }
}

/// What a run may do.
#[derive(Clone, Copy, Debug, PartialEq, Eq, Structural)]
pub struct RunSettings {
    /// The projection can extend a state by single events.
    pub supports_incremental: bool,
    /// Extending is switched on.
    pub incremental_enabled: bool,
    /// The external cache keeps nothing.
    pub cache_is_noop: bool,
}

/// When a run was planned.
#[derive(Clone, Copy, Debug, PartialEq, Eq, Structural)]
pub struct RunStamp {
    /// Wall clock microseconds.
    pub cached_at_us: i64,
    /// Monotonic nanoseconds.
    pub cached_at_mono_ns: i64,
    /// Marker of the monotonic clock's epoch.
    pub process_boot_ns: u64,
}

/// What the external cache answered.
#[derive(Clone, Copy, Debug, PartialEq, Eq, Structural)]
pub enum RowProbe {
    /// A state, with what is kept beside it.
    Row(CacheMeta),
    /// Nothing.
    Missing,
    /// An error.
    Failed,
}

/// What to do next in a run.
#[derive(Clone, Copy, Debug, PartialEq, Eq)]
pub enum RunStep {
    /// Nothing: there is nothing to replay.
    Empty,
    /// Decode the state cached beside the index and serve it.
    ServeSlot,
    /// Decode the state cached beside the index and extend it.
    ExtendSlot {
        /// Sequence that the state has seen.
        watermark: u64,
    },
    /// Ask the external cache.
    ProbeCache,
    /// Decode the external cache's state and serve it.
    ServeRow {
        /// Sequence that the state has seen.
        watermark: u64,
    },
    /// Decode the external cache's state and extend it.
    ExtendRow {
        /// Sequence that the state has seen.
        watermark: u64,
    },
    /// Fold every planned event.
    Replay {
        /// What became of the cache before.
        cache: ProjectionCacheObservation,
    },
}

/// The first step of a run with a plan.
pub open spec fn first_step(
    slot: Option<&CachedProjectionSlot>,
    is_fresh: bool,
    settings: RunSettings,
) -> RunStep {
    match strategy_of(
        slot is Some,
        is_fresh,
        settings.supports_incremental,
        settings.incremental_enabled,
        settings.cache_is_noop,
    ) {
        ProjectionStrategy::GroupLocalHit => RunStep::ServeSlot,
        ProjectionStrategy::GroupLocalIncremental => RunStep::ExtendSlot {
            watermark: slot->0.watermark,
        },
        ProjectionStrategy::ExternalCacheThenReplay => RunStep::ProbeCache,
        ProjectionStrategy::DirectReplay => RunStep::Replay {
            cache: ProjectionCacheObservation::Bypassed,
        },
    }
}

/// The step after the external cache answered. A state that has seen more than
/// the plan would replay is passed over, however fresh it is: the events are
/// the authority.
pub open spec fn step_after_probe(
    freshness: Freshness,
    settings: RunSettings,
    replay_watermark: u64,
    probe: RowProbe,
    now_us: i64,
) -> RunStep {
    match probe {
        RowProbe::Failed => RunStep::Replay {
            cache: ProjectionCacheObservation::Unavailable { reason: "cache_get_failed" },
        },
        RowProbe::Missing => RunStep::Replay { cache: ProjectionCacheObservation::Miss },
        RowProbe::Row(meta) => if meta.watermark > replay_watermark {
            RunStep::Replay { cache: ProjectionCacheObservation::Miss }
        } else if row_is_fresh(freshness, replay_watermark, meta, now_us) {
            RunStep::ServeRow { watermark: meta.watermark }
        } else if settings.supports_incremental && settings.incremental_enabled {
            RunStep::ExtendRow { watermark: meta.watermark }
        } else {
            RunStep::Replay { cache: ProjectionCacheObservation::Miss }
        },
    }
}

/// A planned run.
#[derive(Debug)]
pub struct PreparedProjection {
    /// What it replays.
    pub replay: ReplayContext,
    /// The state cached beside the index.
    pub group_local_slot: Option<CachedProjectionSlot>,
    /// Whether that state can be served.
    pub group_local_fresh: bool,
}

impl PreparedProjection {
    /// The cached state, by reference.
    pub open spec fn slot(&self) -> Option<&CachedProjectionSlot> {
        match &self.group_local_slot {
            Some(slot) => Some(slot),
            None => None,
        }
    }

    /// The plan's watermark is the run's, and the cached state was judged.
    pub open spec fn wf(&self) -> bool {
        &&& self.replay.watermark == self.replay.plan.watermark
        &&& self.group_local_fresh == (slot_freshness(self.slot(), &self.replay) is Fresh)
    }
}

/// What the state of a run may claim.
#[derive(Clone, Copy, Debug, PartialEq, Eq)]
pub struct FinishObservation {
    /// Generation at which the state was made.
    pub generation: u64,
    /// Sequence that the state has seen, where there is one.
    pub applied_sequence: Option<u64>,
    /// What became of the cache.
    pub cache_status: ProjectionCacheObservation,
    /// How fresh the state is.
    pub observed_freshness: ProjectionObservedFreshness,
}

/// Where the state of a run is stored afterwards.
#[derive(Clone, Copy, Debug, PartialEq, Eq, Structural)]
pub enum StoreBack {
    /// Nowhere.
    Nothing,
    /// Beside the index.
    Index {
        /// Sequence that the state has seen.
        watermark: u64,
    },
    /// In the external cache and beside the index.
    Everywhere {
        /// Sequence that the state has seen.
        watermark: u64,
    },
}

/// The result of a run.
#[derive(Debug)]
pub struct ProjectionOutcome<T> {
    /// The state.
    pub state: Option<T>,
    /// What it may claim.
    pub observation: FinishObservation,
    /// Clock point of what the state has seen.
    pub input_frontier: Option<HlcPoint>,
}

impl<T> ProjectionOutcome<T> {
    /// The state.
    pub fn into_state(self) -> (r: Option<T>)
        ensures
            r == self.state,
    {
        self.state
    }

    /// The generation at which the state was made, and the state.
    pub fn into_parts(self) -> (r: (u64, Option<T>))
        ensures
            r.0 == self.observation.generation,
            r.1 == self.state,
    {
        (self.observation.generation, self.state)
    }
}

/// The planned events that a state with a watermark has not seen.
#[verifier::opaque]
pub open spec fn items_after(items: Seq<ProjectionReplayItem>, watermark: u64) -> Seq<
    ProjectionReplayItem,
> {
    items.filter(|item: ProjectionReplayItem| item.global_sequence > watermark)
}

/// The planned events that a state with a watermark has seen.
#[verifier::opaque]
pub open spec fn items_upto(items: Seq<ProjectionReplayItem>, watermark: u64) -> Seq<
    ProjectionReplayItem,
> {
    items.filter(|item: ProjectionReplayItem| item.global_sequence <= watermark)
}

/// The planned events up to a sequence, by lane.
pub open spec fn lane_points(items: Seq<ProjectionReplayItem>, sequence: u64) -> Seq<
    (u32, HlcPoint),
> {
    items.filter(|item: ProjectionReplayItem| item.global_sequence <= sequence).map_values(
        |item: ProjectionReplayItem| (item.lane, item.point),
    )
}

/// How far each lane of the planned events reaches, up to a sequence.
pub fn applied_lanes(items: &[ProjectionReplayItem], sequence: u64) -> (rows: Vec<(u32, HlcPoint)>)
    ensures
        super::lanes::lists(rows@, super::lanes::reach(lane_points(items@, sequence))),
{
    let ghost keep = |item: ProjectionReplayItem| item.global_sequence <= sequence;
    let ghost pair = |item: ProjectionReplayItem| (item.lane, item.point);
    let mut lanes = LaneReach::new();
    reveal(Seq::filter);
    assert(items@.take(0).filter(keep).map_values(pair) =~= Seq::<(u32, HlcPoint)>::empty());
    let mut i: usize = 0;
    while i < items.len()
        invariant
            i <= items@.len(),
            lanes.wf(),
            keep == |item: ProjectionReplayItem| item.global_sequence <= sequence,
            pair == |item: ProjectionReplayItem| (item.lane, item.point),
            lanes.noted() == items@.take(i as int).filter(keep).map_values(pair),
        decreases items@.len() - i,
    {
        reveal(Seq::filter);
        assert(items@.take(i + 1).drop_last() =~= items@.take(i as int));
        let item = items[i];
        if item.global_sequence <= sequence {
            lanes.note(item.lane, item.point);
        }
        assert(lanes.noted() =~= items@.take(i + 1).filter(keep).map_values(pair));
        i += 1;
    }
    assert(items@.take(items@.len() as int) =~= items@);
    lanes.into_rows()
}

/// One run of a projection.
#[derive(Debug)]
pub struct ProjectionRun {
    freshness: Freshness,
    settings: RunSettings,
    observed_generation: u64,
    prepared: Option<PreparedProjection>,
    step: RunStep,
}

impl ProjectionRun {
    /// How fresh the state must be.
    pub closed spec fn freshness(&self) -> Freshness {
        self.freshness
    }

    /// What the run may do.
    pub closed spec fn settings(&self) -> RunSettings {
        self.settings
    }

    /// Number of events of the entity when the run began.
    pub closed spec fn observed_generation(&self) -> u64 {
        self.observed_generation
    }

    /// The plan, where there is anything to replay.
    pub closed spec fn prepared(&self) -> Option<PreparedProjection> {
        self.prepared
    }

    /// What to do next.
    pub closed spec fn next(&self) -> RunStep {
        self.step
    }

    /// The step fits what the run knows: what is served has seen no more than
    /// the plan would replay, and no less where consistency was asked for.
    pub open spec fn wf(&self) -> bool {
        match self.prepared() {
            None => self.next() is Empty,
            Some(prepared) => {
                &&& prepared.wf()
                &&& match self.next() {
                    RunStep::Empty => false,
                    RunStep::ServeSlot => prepared.group_local_slot is Some
                        && prepared.group_local_fresh,
                    RunStep::ExtendSlot { watermark } => prepared.group_local_slot matches Some(
                        slot,
                    ) && slot.watermark == watermark,
                    RunStep::ProbeCache => true,
                    RunStep::ServeRow { watermark } => watermark <= prepared.replay.watermark && (
                    self.freshness() is Consistent ==> watermark == prepared.replay.watermark),
                    RunStep::ExtendRow { watermark } => watermark <= prepared.replay.watermark,
                    RunStep::Replay { .. } => true,
                }
            },
        }
    }

    /// Everything but the step is as it was.
    pub open spec fn goes_on_from(&self, before: &ProjectionRun) -> bool {
        &&& self.freshness() == before.freshness()
        &&& self.settings() == before.settings()
        &&& self.observed_generation() == before.observed_generation()
        &&& self.prepared() == before.prepared()
    }

    /// What the state of the run may claim.
    pub open spec fn claims(&self) -> FinishObservation {
        match self.prepared() {
            None => FinishObservation {
                generation: self.observed_generation(),
                applied_sequence: None,
                cache_status: ProjectionCacheObservation::Bypassed,
                observed_freshness: ProjectionObservedFreshness::NotApplicable,
            },
            Some(prepared) => match self.next() {
                RunStep::ServeSlot => FinishObservation {
                    generation: prepared.group_local_slot->0.generation,
                    applied_sequence: Some(prepared.group_local_slot->0.watermark),
                    cache_status: ProjectionCacheObservation::Hit,
                    observed_freshness: ProjectionObservedFreshness::Fresh,
                },
                RunStep::ServeRow { watermark } => FinishObservation {
                    generation: prepared.replay.plan.generation,
                    applied_sequence: Some(watermark),
                    cache_status: ProjectionCacheObservation::Hit,
                    observed_freshness: if watermark == prepared.replay.watermark {
                        ProjectionObservedFreshness::Fresh
                    } else {
                        ProjectionObservedFreshness::StaleAllowed
                    },
                },
                RunStep::Replay { cache } => FinishObservation {
                    generation: prepared.replay.plan.generation,
                    applied_sequence: Some(prepared.replay.watermark),
                    cache_status: cache,
                    observed_freshness: ProjectionObservedFreshness::Fresh,
                },
                _ => FinishObservation {
                    generation: prepared.replay.plan.generation,
                    applied_sequence: Some(prepared.replay.watermark),
                    cache_status: ProjectionCacheObservation::Hit,
                    observed_freshness: ProjectionObservedFreshness::Fresh,
                },
            },
        }
    }

    /// The events to fold.
    pub open spec fn folds(&self) -> Seq<ProjectionReplayItem> {
        match self.prepared() {
            None => Seq::empty(),
            Some(prepared) => match self.next() {
                RunStep::ExtendSlot { watermark } => items_after(
                    prepared.replay.plan.items@,
                    watermark,
                ),
                RunStep::ExtendRow { watermark } => items_after(
                    prepared.replay.plan.items@,
                    watermark,
                ),
                RunStep::Replay { .. } => prepared.replay.plan.items@,
                _ => Seq::empty(),
            },
        }
    }

    /// Plans a run of a projection of an entity against the index.
    pub fn prepare(
        index: &StoreIndex,
        entity: &str,
        relevant_kinds: &[EventKind],
        type_id: ProjectionTypeId,
        cache_key: Vec<u8>,
        stamp: RunStamp,
        freshness: Freshness,
        settings: RunSettings,
    ) -> (run: ProjectionRun)
        requires
            index.wf(),
        ensures
            run.wf(),
            run.freshness() == freshness,
            run.settings() == settings,
            run.observed_generation() == match index.generation_of(entity@) {
                Some(generation) => generation,
                None => 0,
            },
            match run.prepared() {
                None => index.plan_is(entity@, relevant_kinds@, None) && run.next() is Empty,
                Some(prepared) => {
                    &&& index.plan_is(entity@, relevant_kinds@, Some(prepared.replay.plan))
                    &&& index.slot_is(entity@, type_id, prepared.group_local_slot)
                    &&& prepared.replay.type_id == type_id
                    &&& prepared.replay.cache_key == cache_key
                    &&& prepared.replay.cached_at_us == stamp.cached_at_us
                    &&& prepared.replay.cached_at_mono_ns == stamp.cached_at_mono_ns
                    &&& prepared.replay.process_boot_ns == stamp.process_boot_ns
                    &&& run.next() == first_step(
                        prepared.slot(),
                        prepared.group_local_fresh,
                        settings,
                    )
                },
            },
    {
        let observed_generation: u64 = match index.entity_generation(entity) {
            Some(generation) => generation,
            None => 0,
        };
        let plan = match index.projection_replay_plan(entity, relevant_kinds) {
            Some(plan) => plan,
            None => {
                return ProjectionRun {
                    freshness,
                    settings,
                    observed_generation,
                    prepared: None,
                    step: RunStep::Empty,
                };
            },
        };
        let replay = ReplayContext {
            watermark: plan.watermark,
            cached_at_us: stamp.cached_at_us,
            cached_at_mono_ns: stamp.cached_at_mono_ns,
            process_boot_ns: stamp.process_boot_ns,
            type_id,
            cache_key,
            plan,
        };
        let group_local_slot = index.cached_projection(entity, type_id);
        let group_local_fresh: bool;
        let step: RunStep;
        match &group_local_slot {
            Some(slot) => {
                group_local_fresh =
                group_local_projection_freshness(Some(slot), &replay, &freshness).is_fresh();
                step =
                match compute_strategy(
                    Some(slot),
                    group_local_fresh,
                    settings.supports_incremental,
                    settings.incremental_enabled,
                    settings.cache_is_noop,
                ) {
                    ProjectionStrategy::GroupLocalHit => RunStep::ServeSlot,
                    ProjectionStrategy::GroupLocalIncremental => RunStep::ExtendSlot {
                        watermark: slot.watermark,
                    },
                    ProjectionStrategy::ExternalCacheThenReplay => RunStep::ProbeCache,
                    ProjectionStrategy::DirectReplay => RunStep::Replay {
                        cache: ProjectionCacheObservation::Bypassed,
                    },
                };
            },
            None => {
                group_local_fresh = false;
                step =
                match compute_strategy(
                    None,
                    false,
                    settings.supports_incremental,
                    settings.incremental_enabled,
                    settings.cache_is_noop,
                ) {
                    ProjectionStrategy::DirectReplay => RunStep::Replay {
                        cache: ProjectionCacheObservation::Bypassed,
                    },
                    _ => RunStep::ProbeCache,
                };
            },
        }
        ProjectionRun {
            freshness,
            settings,
            observed_generation,
            prepared: Some(PreparedProjection { replay, group_local_slot, group_local_fresh }),
            step,
        }
    }

    /// What to do next.
    pub fn step(&self) -> (r: RunStep)
        ensures
            r == self.next(),
    {
        self.step
    }

    /// The plan.
    pub fn plan(&self) -> (r: Option<&PreparedProjection>)
        ensures
            match r {
                Some(prepared) => self.prepared() == Some(*prepared),
                None => self.prepared() is None,
            },
    {
        self.prepared.as_ref()
    }

    /// Takes note that a cached state could not be decoded: everything is
    /// replayed.
    pub fn decode_failed(&mut self)
        requires
            old(self).wf(),
            old(self).next() is ServeSlot || old(self).next() is ExtendSlot || old(
                self,
            ).next() is ServeRow || old(self).next() is ExtendRow,
        ensures
            final(self).wf(),
            final(self).goes_on_from(old(self)),
            final(self).next() == (RunStep::Replay { cache: ProjectionCacheObservation::Miss }),
    {
        self.step = RunStep::Replay { cache: ProjectionCacheObservation::Miss };
    }

    /// Takes the external cache's answer.
    pub fn probed(&mut self, probe: RowProbe, now_us: i64)
        requires
            old(self).wf(),
            old(self).next() is ProbeCache,
            probe is Row ==> old(self).freshness().wf(),
        ensures
            final(self).wf(),
            final(self).goes_on_from(old(self)),
            final(self).next() == step_after_probe(
                old(self).freshness(),
                old(self).settings(),
                old(self).prepared()->0.replay.watermark,
                probe,
                now_us,
            ),
    {
        let replay_watermark: u64 = match &self.prepared {
            Some(prepared) => prepared.replay.watermark,
            None => 0,
        };
        self.step =
        match probe {
            RowProbe::Failed => RunStep::Replay {
                cache: ProjectionCacheObservation::Unavailable { reason: "cache_get_failed" },
            },
            RowProbe::Missing => RunStep::Replay { cache: ProjectionCacheObservation::Miss },
            RowProbe::Row(meta) => {
                let is_fresh = cache_row_is_fresh(
                    &self.freshness,
                    replay_watermark,
                    &meta,
                    now_us,
                );
                if !is_fresh && meta.watermark <= replay_watermark
                    && self.settings.supports_incremental && self.settings.incremental_enabled {
                    RunStep::ExtendRow { watermark: meta.watermark }
                } else if is_fresh && meta.watermark <= replay_watermark {
                    RunStep::ServeRow { watermark: meta.watermark }
                } else {
                    RunStep::Replay { cache: ProjectionCacheObservation::Miss }
                }
            },
        };
    }

    /// The events to fold: those that a cached state has not seen, or all.
    pub fn items(&self) -> (items: Vec<ProjectionReplayItem>)
        ensures
            items@ == self.folds(),
    {
        let prepared = match &self.prepared {
            Some(prepared) => prepared,
            None => return Vec::new(),
        };
        let all = &prepared.replay.plan.items;
        match self.step {
            RunStep::ExtendSlot { watermark } | RunStep::ExtendRow { watermark } => {
                unseen_items(all.as_slice(), watermark)
            },
            RunStep::Replay { .. } => {
                let mut items: Vec<ProjectionReplayItem> = Vec::new();
                let mut i: usize = 0;
                while i < all.len()
                    invariant
                        i <= all@.len(),
                        items@ == all@.take(i as int),
                    decreases all@.len() - i,
                {
                    items.push(all[i]);
                    i += 1;
                    assert(items@ =~= all@.take(i as int));
                }
                assert(all@.take(all@.len() as int) =~= all@);
                items
            },
            _ => Vec::new(),
        }
    }

    /// What the state of the run may claim.
    pub fn observation(&self) -> (r: FinishObservation)
        requires
            self.wf(),
        ensures
            r == self.claims(),
    {
        let prepared = match &self.prepared {
            Some(prepared) => prepared,
            None => {
                return FinishObservation {
                    generation: self.observed_generation,
                    applied_sequence: None,
                    cache_status: ProjectionCacheObservation::Bypassed,
                    observed_freshness: ProjectionObservedFreshness::NotApplicable,
                };
            },
        };
        let replay = &prepared.replay;
        match (self.step, &prepared.group_local_slot) {
            (RunStep::ServeSlot, Some(slot)) => FinishObservation {
                generation: slot.generation,
                applied_sequence: Some(slot.watermark),
                cache_status: ProjectionCacheObservation::Hit,
                observed_freshness: ProjectionObservedFreshness::Fresh,
            },
            (RunStep::ServeRow { watermark }, _) => FinishObservation {
                generation: replay.plan.generation,
                applied_sequence: Some(watermark),
                cache_status: ProjectionCacheObservation::Hit,
                observed_freshness: if watermark == replay.watermark {
                    ProjectionObservedFreshness::Fresh
                } else {
                    ProjectionObservedFreshness::StaleAllowed
                },
            },
            (RunStep::Replay { cache }, _) => FinishObservation {
                generation: replay.plan.generation,
                applied_sequence: Some(replay.watermark),
                cache_status: cache,
                observed_freshness: ProjectionObservedFreshness::Fresh,
            },
            _ => FinishObservation {
                generation: replay.plan.generation,
                applied_sequence: Some(replay.watermark),
                cache_status: ProjectionCacheObservation::Hit,
                observed_freshness: ProjectionObservedFreshness::Fresh,
            },
        }
    }

    /// Where the state is stored afterwards: what was extended or replayed goes
    /// everywhere, what came from the external cache goes beside the index.
    pub fn store_back(&self, has_state: bool) -> (r: StoreBack)
        ensures
            r == match (self.prepared(), self.next()) {
                (Some(_), RunStep::ServeRow { watermark }) => StoreBack::Index { watermark },
                (Some(prepared), RunStep::ExtendSlot { .. }) => StoreBack::Everywhere {
                    watermark: prepared.replay.watermark,
                },
                (Some(prepared), RunStep::ExtendRow { .. }) => StoreBack::Everywhere {
                    watermark: prepared.replay.watermark,
                },
                (Some(prepared), RunStep::Replay { .. }) => if has_state {
                    StoreBack::Everywhere { watermark: prepared.replay.watermark }
                } else {
                    StoreBack::Nothing
                },
                _ => StoreBack::Nothing,
            },
    {
        let prepared = match &self.prepared {
            Some(prepared) => prepared,
            None => return StoreBack::Nothing,
        };
        match self.step {
            RunStep::ServeRow { watermark } => StoreBack::Index { watermark },
            RunStep::ExtendSlot { .. } | RunStep::ExtendRow { .. } => StoreBack::Everywhere {
                watermark: prepared.replay.watermark,
            },
            RunStep::Replay { .. } => if has_state {
                StoreBack::Everywhere { watermark: prepared.replay.watermark }
            } else {
                StoreBack::Nothing
            },
            _ => StoreBack::Nothing,
        }
    }

    /// The result of the run with a state.
    pub fn finish<T>(&self, index: &StoreIndex, state: Option<T>) -> (r: ProjectionOutcome<T>)
        requires
            self.wf(),
            index.wf(),
        ensures
            r.state == state,
            r.observation == self.claims(),
            match self.claims().applied_sequence {
                Some(sequence) => index.point_is(sequence, r.input_frontier),
                None => r.input_frontier is None,
            },
    {
        let observation = self.observation();
        let input_frontier = match observation.applied_sequence {
            Some(sequence) => index.hlc_for_global_sequence(sequence),
            None => None,
        };
        ProjectionOutcome { state, observation, input_frontier }
    }

    /// How far each lane of the planned events has been applied.
    pub fn applied_lanes(&self) -> (rows: Vec<(u32, HlcPoint)>)
        requires
            self.wf(),
        ensures
            super::lanes::lists(
                rows@,
                match (self.prepared(), self.claims().applied_sequence) {
                    (Some(prepared), Some(sequence)) => super::lanes::reach(
                        lane_points(prepared.replay.plan.items@, sequence),
                    ),
                    _ => Map::empty(),
                },
            ),
    {
        match (&self.prepared, self.observation().applied_sequence) {
            (Some(prepared), Some(sequence)) => applied_lanes(
                prepared.replay.plan.items.as_slice(),
                sequence,
            ),
            _ => Vec::new(),
        }
    }
}

/// The planned events that a state with a watermark has not seen.
pub fn unseen_items(items: &[ProjectionReplayItem], watermark: u64) -> (r: Vec<
    ProjectionReplayItem,
>)
    ensures
        r@ == items_after(items@, watermark),
{
    let ghost keep = |item: ProjectionReplayItem| item.global_sequence > watermark;
    let mut r: Vec<ProjectionReplayItem> = Vec::new();
    reveal(Seq::filter);
    reveal(items_after);
    let mut i: usize = 0;
    while i < items.len()
        invariant
            i <= items@.len(),
            keep == |item: ProjectionReplayItem| item.global_sequence > watermark,
            r@ == items@.take(i as int).filter(keep),
        decreases items@.len() - i,
    {
        reveal(Seq::filter);
        assert(items@.take(i + 1).drop_last() =~= items@.take(i as int));
        let item = items[i];
        if item.global_sequence > watermark {
            r.push(item);
        }
        i += 1;
    }
    assert(items@.take(items@.len() as int) =~= items@);
    r
}

/// What became of storing a state in the external cache.
#[derive(Clone, Copy, Debug, PartialEq, Eq, Structural)]
pub enum ProjectionExternalCacheStoreOutcome {
    /// It was stored.
    Stored,
    /// The cache refused it.
    PutFailed,
}

/// What became of storing a state.
#[derive(Clone, Copy, Debug, PartialEq, Eq, Structural)]
pub enum ProjectionCacheStoreOutcome {
    /// The state was handed to both caches.
    Stored {
        /// The external cache.
        external: ProjectionExternalCacheStoreOutcome,
        /// The cache beside the index.
        index: ProjectionCacheStoreStatus,
    },
    /// The state could not be encoded.
    SerializationFailed,
}

/// Stores the encoded state of a run beside the index, after the external cache
/// was handed it. Where the state could not be encoded nothing is stored.
pub fn store_projection_value(
    index: &mut StoreIndex,
    entity: &str,
    replay: &ReplayContext,
    encoded: Option<Vec<u8>>,
    external: ProjectionExternalCacheStoreOutcome,
) -> (r: ProjectionCacheStoreOutcome)
    requires
        old(index).wf(),
    ensures
        final(index).wf(),
        match encoded {
            None => r is SerializationFailed && *final(index) == *old(index),
            Some(bytes) => r matches ProjectionCacheStoreOutcome::Stored {
                external: handed,
                index: status,
            } && handed == external && final(index).cached_from(
                old(index),
                entity@,
                replay.type_id,
                bytes,
                replay.watermark,
                status,
            ),
        },
{
    match encoded {
        None => ProjectionCacheStoreOutcome::SerializationFailed,
        Some(bytes) => {
            let status = index.store_cached_projection(
                entity,
                replay.type_id,
                bytes,
                replay.watermark,
            );
            ProjectionCacheStoreOutcome::Stored { external, index: status }
        },
    }
}

/// What is kept beside a state that is stored now: the plan's watermark and the
/// present time, not the time of planning.
pub fn store_meta(replay: &ReplayContext, now: RunStamp) -> (r: CacheMeta)
    ensures
        r == (CacheMeta {
            watermark: replay.watermark,
            cached_at_us: now.cached_at_us,
            cached_at_mono_ns: Some(now.cached_at_mono_ns),
            process_boot_ns: Some(now.process_boot_ns),
        }),
{
    CacheMeta {
        watermark: replay.watermark,
        cached_at_us: now.cached_at_us,
        cached_at_mono_ns: Some(now.cached_at_mono_ns),
        process_boot_ns: Some(now.process_boot_ns),
    }
}

/// How a run for changes goes about: not at all where the entity has as many
/// events as were seen before, else with full consistency, so that the
/// generation handed out is that of the state.
pub fn change_run(last_seen_generation: u64, current_generation: Option<u64>) -> (r: Option<
    Freshness,
>)
    ensures
        r == (if last_seen_generation == (match current_generation {
            Some(generation) => generation,
            None => 0,
        }) {
            None::<Freshness>
        } else {
            Some(Freshness::Consistent)
        }),
{
    let current: u64 = match current_generation {
        Some(generation) => generation,
        None => 0,
    };
    if current == last_seen_generation {
        None
    } else {
        Some(Freshness::Consistent)
    }
}

/// Under a bound on staleness the external cache's state is fresh enough exactly where
/// it is younger than the bound: where less than so many milliseconds have passed
/// since it was stored. Where the clock went back no time has passed.
pub proof fn law_row_is_fresh_within_the_bound(
    max_stale_ms: u64,
    replay_watermark: u64,
    meta: CacheMeta,
    now_us: i64,
    r: bool,
)
    requires
        max_stale_ms <= i64::MAX / 1000,
        call_ensures(
            cache_row_is_fresh,
            (&Freshness::MaybeStale { max_stale_ms }, replay_watermark, &meta, now_us),
            r,
        ),
    ensures
        now_us >= meta.cached_at_us ==> r == (now_us - meta.cached_at_us < max_stale_ms * 1000),
        now_us < meta.cached_at_us ==> r == (max_stale_ms > 0),
{
}

/// Every bound on staleness that has a number of microseconds is taken, and one beyond
/// the signed numbers finds nothing fresh.
pub proof fn law_ordinary_bounds_are_taken(
    max_stale_ms: u64,
    replay_watermark: u64,
    meta: CacheMeta,
    now_us: i64,
    r: bool,
)
    ensures
        max_stale_ms <= i64::MAX / 1000 ==> (Freshness::MaybeStale { max_stale_ms }).wf(),
        Freshness::Consistent.wf(),
        max_stale_ms > i64::MAX && call_ensures(
            cache_row_is_fresh,
            (&Freshness::MaybeStale { max_stale_ms }, replay_watermark, &meta, now_us),
            r,
        ) ==> !r,
{
}

/// With full consistency the external cache's state is fresh enough exactly where it
/// has seen as much as the plan would replay, whatever its age.
pub proof fn law_consistent_row_is_fresh_at_the_watermark(
    replay_watermark: u64,
    meta: CacheMeta,
    now_us: i64,
    r: bool,
)
    requires
        call_ensures(
            cache_row_is_fresh,
            (&Freshness::Consistent, replay_watermark, &meta, now_us),
            r,
        ),
    ensures
        r == (meta.watermark == replay_watermark),
{
}

/// The state cached beside the index is served exactly where it has seen what the plan
/// would replay, at the plan's own generation; a bound on staleness does not loosen
/// that.
pub proof fn law_slot_is_fresh_when_nothing_came_since(
    slot: CachedProjectionSlot,
    replay: &ReplayContext,
    freshness: &Freshness,
    held: GroupLocalProjectionFreshness,
    none: GroupLocalProjectionFreshness,
)
    requires
        call_ensures(group_local_projection_freshness, (Some(&slot), replay, freshness), held),
        call_ensures(group_local_projection_freshness, (None, replay, freshness), none),
    ensures
        none is Missing,
        held is Fresh <==> slot.watermark == replay.watermark && slot.generation
            == replay.plan.generation,
        held is Fresh || held is Stale,
{
}

/// What a run does about the external cache's answer. A state is served only where it
/// has seen no more than the plan would replay and is fresh enough for what was asked:
/// as far as the plan with full consistency, and younger than the bound otherwise. One
/// that is not fresh enough is extended only where the projection can be extended and
/// that is switched on. Everything else is replayed.
pub proof fn law_step_follows_the_answer(
    freshness: Freshness,
    settings: RunSettings,
    replay_watermark: u64,
    meta: CacheMeta,
    now_us: i64,
)
    requires
        freshness matches Freshness::MaybeStale { max_stale_ms } ==> max_stale_ms <= i64::MAX
            / 1000,
    ensures
        ({
            let step = step_after_probe(
                freshness,
                settings,
                replay_watermark,
                RowProbe::Row(meta),
                now_us,
            );
            let young = freshness matches Freshness::MaybeStale { max_stale_ms } && (if now_us
                >= meta.cached_at_us {
                now_us - meta.cached_at_us < max_stale_ms * 1000
            } else {
                max_stale_ms > 0
            });
            let level = freshness is Consistent && meta.watermark == replay_watermark;
            &&& step is ServeRow <==> meta.watermark <= replay_watermark && (young || level)
            &&& step is ExtendRow <==> meta.watermark <= replay_watermark && !young && !level
                && settings.supports_incremental && settings.incremental_enabled
            &&& step is ServeRow || step is ExtendRow || step == (RunStep::Replay {
                cache: ProjectionCacheObservation::Miss,
            })
            &&& step matches RunStep::ServeRow { watermark } ==> watermark == meta.watermark
            &&& step matches RunStep::ExtendRow { watermark } ==> watermark == meta.watermark
        }),
        step_after_probe(freshness, settings, replay_watermark, RowProbe::Missing, now_us) == (
        RunStep::Replay { cache: ProjectionCacheObservation::Miss }),
        step_after_probe(
            freshness,
            settings,
            replay_watermark,
            RowProbe::Failed,
            now_us,
        ) matches RunStep::Replay { cache: ProjectionCacheObservation::Unavailable { reason } }
            && reason@ == "cache_get_failed"@,
{
}

/// How a run with a plan begins. The state cached beside the index is served where it
/// has seen what the plan would replay, at the plan's generation; else it is extended
/// where that is possible and switched on; else the external cache is asked, unless it
/// keeps nothing, and then everything is replayed.
pub proof fn law_run_begins_with_the_best_state(
    slot: Option<&CachedProjectionSlot>,
    replay: &ReplayContext,
    settings: RunSettings,
)
    ensures
        ({
            let step = first_step(slot, slot_freshness(slot, replay) is Fresh, settings);
            let level = slot matches Some(s) && s.watermark == replay.watermark && s.generation
                == replay.plan.generation;
            let extends = slot is Some && !level && settings.supports_incremental
                && settings.incremental_enabled;
            &&& step is ServeSlot <==> level
            &&& step is ExtendSlot <==> extends
            &&& step is ProbeCache <==> !level && !extends && !settings.cache_is_noop
            &&& step is Replay <==> !level && !extends && settings.cache_is_noop
            &&& step matches RunStep::ExtendSlot { watermark } ==> slot matches Some(s)
                && watermark == s.watermark
            &&& step matches RunStep::Replay { cache } ==> cache is Bypassed
        }),
{
}

/// What a run folds: nothing where a state is served, every planned event where all is
/// replayed, and where a state is extended exactly the planned events past what the
/// state has seen, in their order.
pub proof fn law_run_folds_what_is_unseen(
    run: ProjectionRun,
    items: Vec<ProjectionReplayItem>,
    watermark: u64,
    plan: Seq<ProjectionReplayItem>,
)
    requires
        run.prepared() matches Some(prepared) && prepared.replay.plan.items@ == plan,
        call_ensures(ProjectionRun::items, (&run,), items),
    ensures
        run.next() is ServeSlot || run.next() is ServeRow ==> items@.len() == 0,
        run.next() is Replay ==> items@ == plan,
        run.next() == (RunStep::ExtendSlot { watermark }) || run.next() == (RunStep::ExtendRow {
            watermark,
        }) ==> {
            &&& items@ == plan.filter(
                |item: ProjectionReplayItem| item.global_sequence > watermark,
            )
            &&& forall|i: int|
                #![trigger plan[i]]
                0 <= i < plan.len() && plan[i].global_sequence > watermark ==> items@.contains(
                    plan[i],
                )
            &&& forall|i: int|
                #![trigger items@[i]]
                0 <= i < items@.len() ==> items@[i].global_sequence > watermark && plan.contains(
                    items@[i],
                )
        },
{
    reveal(items_after);
    let unseen = |item: ProjectionReplayItem| item.global_sequence > watermark;
    crate::index::query::lemma_filter_contains(plan, unseen);
    if run.next() == (RunStep::ExtendSlot { watermark }) || run.next() == (RunStep::ExtendRow {
        watermark,
    }) {
        assert(items@ == plan.filter(unseen));
        assert forall|i: int|
            #![trigger plan[i]]
            0 <= i < plan.len() && plan[i].global_sequence > watermark implies items@.contains(
            plan[i],
        ) by {
            assert(plan.contains(plan[i]));
        }
        assert forall|i: int|
            #![trigger items@[i]]
            0 <= i < items@.len() implies items@[i].global_sequence > watermark && plan.contains(
            items@[i],
        ) by {
            assert(items@.contains(items@[i]));
        }
    }
}

/// A run with full consistency serves state that has seen everything that the
/// plan would replay, and says so: however the caches answer.
pub proof fn law_consistent_run_is_current(run: ProjectionRun)
    requires
        run.wf(),
        run.freshness() is Consistent,
        run.prepared() is Some,
    ensures
        run.claims().applied_sequence == Some(run.prepared()->0.replay.plan.watermark),
        run.claims().observed_freshness is Fresh,
{
}

/// No run serves state that has seen more than the plan would replay, and a run
/// that serves less says that it is stale.
pub proof fn law_served_state_is_never_ahead(run: ProjectionRun)
    requires
        run.wf(),
        run.prepared() is Some,
    ensures
        run.claims().applied_sequence matches Some(sequence) && sequence
            <= run.prepared()->0.replay.plan.watermark && (sequence
            == run.prepared()->0.replay.plan.watermark <==>
            run.claims().observed_freshness is Fresh),
{
}

/// The generation that a run hands out is the one that was planned with, so a
/// later event is never taken for seen.
pub proof fn law_generation_is_planned(run: ProjectionRun)
    requires
        run.wf(),
        run.prepared() is Some,
    ensures
        run.claims().generation == run.prepared()->0.replay.plan.generation,
{
}

/// The planned events are in order of sequence.
pub open spec fn in_order(items: Seq<ProjectionReplayItem>) -> bool {
    forall|i: int, j: int|
        #![trigger items[i], items[j]]
        0 <= i < j < items.len() ==> items[i].global_sequence <= items[j].global_sequence
}

/// What a state has seen and what it is extended by make up the whole plan, in
/// order: where the plan is in order of sequence.
pub proof fn law_extension_completes_the_plan(items: Seq<ProjectionReplayItem>, watermark: u64)
    requires
        in_order(items),
    ensures
        items_upto(items, watermark) + items_after(items, watermark) == items,
    decreases items.len(),
{
    lemma_last_item(items, watermark);
    if items.len() == 0 {
        assert(items_upto(items, watermark) + items_after(items, watermark) =~= items);
    } else if items.last().global_sequence <= watermark {
        lemma_order(items);
        lemma_all_seen(items, watermark);
        assert(items_upto(items, watermark) + items_after(items, watermark) =~= items);
    } else {
        let front = items.drop_last();
        lemma_order(items);
        law_extension_completes_the_plan(front, watermark);
        let (seen, rest) = (items_upto(front, watermark), items_after(front, watermark));
        assert(seen + rest.push(items.last()) =~= (seen + rest).push(items.last()));
        assert(front.push(items.last()) =~= items);
    }
}

/// What the last event of a plan adds to what was seen and what was not.
proof fn lemma_last_item(items: Seq<ProjectionReplayItem>, watermark: u64)
    ensures
        items.len() == 0 ==> items_upto(items, watermark).len() == 0 && items_after(
            items,
            watermark,
        ).len() == 0,
        items.len() > 0 && items.last().global_sequence > watermark ==> items_upto(items, watermark)
            == items_upto(items.drop_last(), watermark) && items_after(items, watermark)
            == items_after(items.drop_last(), watermark).push(items.last()),
        items.len() > 0 && items.last().global_sequence <= watermark ==> items_upto(
            items,
            watermark,
        ) == items_upto(items.drop_last(), watermark).push(items.last()) && items_after(
            items,
            watermark,
        ) == items_after(items.drop_last(), watermark),
{
    reveal(Seq::filter);
    reveal(items_upto);
    reveal(items_after);
}

proof fn lemma_order(items: Seq<ProjectionReplayItem>)
    requires
        in_order(items),
        items.len() > 0,
    ensures
        in_order(items.drop_last()),
        forall|i: int|
            0 <= i < items.len() ==> (#[trigger] items[i]).global_sequence
                <= items.last().global_sequence,
{
    assert(items[items.len() - 1] == items.last());
    let front = items.drop_last();
    assert forall|i: int, j: int|
        #![trigger front[i], front[j]]
        0 <= i < j < front.len() implies front[i].global_sequence <= front[j].global_sequence by {
        assert(items[i] == front[i] && items[j] == front[j]);
    }
}

/// Nothing is left of a plan whose events were all seen.
proof fn lemma_all_seen(items: Seq<ProjectionReplayItem>, watermark: u64)
    requires
        forall|i: int|
            0 <= i < items.len() ==> (#[trigger] items[i]).global_sequence <= watermark,
    ensures
        items_upto(items, watermark) == items,
        items_after(items, watermark).len() == 0,
    decreases items.len(),
{
    lemma_last_item(items, watermark);
    if items.len() == 0 {
        assert(items_upto(items, watermark) =~= items);
    } else {
        lemma_all_seen(items.drop_last(), watermark);
        assert(items[items.len() - 1].global_sequence <= watermark);
        assert(items =~= items.drop_last().push(items.last()));
    }
}

/// A cached state beside the index is served where it is fresh, and extended where it is
/// not and that is supported and switched on. Else the external cache is asked, unless
/// it keeps nothing: then everything is replayed.
pub proof fn law_strategy_takes_the_nearest_state(
    slot: Option<&CachedProjectionSlot>,
    fresh: bool,
    supports_incremental: bool,
    incremental_enabled: bool,
    cache_is_noop: bool,
    r: ProjectionStrategy,
)
    requires
        call_ensures(
            compute_strategy,
            (slot, fresh, supports_incremental, incremental_enabled, cache_is_noop),
            r,
        ),
    ensures
        r is GroupLocalHit <==> slot is Some && fresh,
        r is GroupLocalIncremental <==> slot is Some && !fresh && supports_incremental
            && incremental_enabled,
        r is DirectReplay <==> cache_is_noop && !(slot is Some && (fresh || (supports_incremental
            && incremental_enabled))),
        r is ExternalCacheThenReplay <==> !cache_is_noop && !(slot is Some && (fresh || (
        supports_incremental && incremental_enabled))),
{
}

/// Elapsed time is the difference of two readings in whole microseconds, and nothing
/// where the clock went back.
pub proof fn law_elapsed_is_the_difference(started_at_ns: i64, now_ns: i64)
    ensures
        now_ns <= started_at_ns ==> micros_between(started_at_ns, now_ns) == 0,
        now_ns > started_at_ns ==> micros_between(started_at_ns, now_ns) * 1000 <= now_ns
            - started_at_ns < (micros_between(started_at_ns, now_ns) + 1) * 1000,
{
}

/// What a run may claim. Without a plan there is no state, and the generation is the one
/// that was observed. With a plan the generation is the planned one. A state that is
/// served has seen what it had seen when it was cached, and is fresh only where that is
/// all that was planned; any other state has seen all of the plan. Whoever asked the
/// cache in vain says what became of it; all others had a hit.
pub proof fn law_run_claims_what_it_did(run: &ProjectionRun, r: FinishObservation)
    requires
        run.wf(),
        call_ensures(ProjectionRun::observation, (run,), r),
    ensures
        run.prepared() is None ==> {
            &&& r.generation == run.observed_generation()
            &&& r.applied_sequence is None
            &&& r.cache_status is Bypassed
            &&& r.observed_freshness is NotApplicable
        },
        run.prepared() is Some ==> {
            let replay = run.prepared()->0.replay;
            &&& r.generation == replay.plan.generation
            &&& r.applied_sequence is Some
            &&& r.observed_freshness is Fresh <==> r.applied_sequence == Some(replay.watermark)
            &&& r.observed_freshness is StaleAllowed <==> r.applied_sequence != Some(
                replay.watermark,
            )
            &&& run.next() matches RunStep::ServeRow { watermark } ==> r.applied_sequence == Some(
                watermark,
            )
            &&& !(run.next() is ServeRow) ==> r.applied_sequence == Some(replay.watermark)
            &&& run.next() matches RunStep::Replay { cache } ==> r.cache_status == cache
            &&& !(run.next() is Replay) ==> r.cache_status is Hit
        },
{
}

/// A lane has been applied up to the first of the planned events with the greatest
/// sequence on it, of those that are no later than a sequence; lanes without such events
/// are not named.
pub proof fn law_lanes_are_applied_up_to_a_sequence(
    items: &[ProjectionReplayItem],
    sequence: u64,
    rows: Vec<(u32, HlcPoint)>,
    k: int,
    a: int,
)
    requires
        call_ensures(applied_lanes, (items, sequence), rows),
    ensures
        forall|i: int, j: int|
            #![trigger rows@[i], rows@[j]]
            0 <= i < j < rows@.len() ==> rows@[i].0 < rows@[j].0,
        0 <= k < items@.len() && items@[k].global_sequence <= sequence ==> exists|i: int|
            0 <= i < rows@.len() && (#[trigger] rows@[i]).0 == items@[k].lane
                && items@[k].point.global_sequence <= rows@[i].1.global_sequence,
        0 <= a < rows@.len() ==> exists|i: int|
            0 <= i < items@.len() && (#[trigger] items@[i]).global_sequence <= sequence
                && items@[i].lane == rows@[a].0 && items@[i].point == rows@[a].1,
{
    let keep = |item: ProjectionReplayItem| item.global_sequence <= sequence;
    let kept = items@.filter(keep);
    let noted = lane_points(items@, sequence);
    crate::index::query::lemma_filter_contains(items@, keep);
    if 0 <= k < items@.len() && items@[k].global_sequence <= sequence {
        let lane = items@[k].lane;
        assert(items@.contains(items@[k]));
        assert(kept.contains(items@[k]));
        let n = kept.index_of(items@[k]);
        assert(noted[n] == (lane, items@[k].point));
        super::lanes::law_reach_is_greatest(noted, lane);
        assert(super::lanes::reach(noted).contains_key(lane));
        let i = choose|i: int| 0 <= i < rows@.len() && (#[trigger] rows@[i]).0 == lane;
        assert(rows@[i].1 == super::lanes::reach(noted)[lane]);
    }
    if 0 <= a < rows@.len() {
        super::lanes::law_reach_is_greatest(noted, rows@[a].0);
        let n = choose|n: int| 0 <= n < noted.len() && noted[n] == (rows@[a].0, rows@[a].1);
        assert(kept.contains(kept[n]));
        assert(items@.contains(kept[n]));
        let i = items@.index_of(kept[n]);
        assert(items@[i].lane == rows@[a].0);
    }
}

/// The planned events that a state has not seen are those past its watermark, in order.
pub proof fn law_unseen_events_lie_past_the_watermark(
    items: &[ProjectionReplayItem],
    watermark: u64,
    r: Vec<ProjectionReplayItem>,
)
    requires
        call_ensures(unseen_items, (items, watermark), r),
    ensures
        r@ == items@.filter(|item: ProjectionReplayItem| item.global_sequence > watermark),
{
    reveal(items_after);
}

/// The bits of a number as a signed one: itself below half of the range, and counted back
/// from zero above.
pub proof fn law_large_bounds_count_as_negative(n: u64)
    ensures
        n <= i64::MAX ==> signed(n) == n,
        n > i64::MAX ==> signed(n) < 0 && signed(n) + 0x1_0000_0000_0000_0000 == n,
{
}

/// What a run stores is stored as having seen what the run claims for it. What came from
/// the index is not stored again, what came from the external cache goes beside the index
/// alone, and of a replay only a state is stored.
pub proof fn law_stored_state_has_seen_what_it_claims(
    run: &ProjectionRun,
    has_state: bool,
    r: StoreBack,
    observation: FinishObservation,
)
    requires
        run.wf(),
        call_ensures(ProjectionRun::store_back, (run, has_state), r),
        call_ensures(ProjectionRun::observation, (run,), observation),
    ensures
        r matches StoreBack::Index { watermark } ==> observation.applied_sequence == Some(watermark),
        r matches StoreBack::Everywhere { watermark } ==> observation.applied_sequence == Some(
            watermark,
        ) && observation.observed_freshness is Fresh,
        r is Index <==> run.next() is ServeRow,
        r is Everywhere <==> run.next() is ExtendSlot || run.next() is ExtendRow || (
        run.next() is Replay && has_state),
{
}

/// A run for changes is made exactly where the number of the entity's events is not the
/// one that was seen, and then with full consistency. An entity without events has none.
pub proof fn law_changes_are_looked_for_where_there_are_any(
    last_seen: u64,
    current: Option<u64>,
    r: Option<Freshness>,
)
    requires
        call_ensures(change_run, (last_seen, current), r),
    ensures
        current matches Some(n) ==> (r is Some <==> n != last_seen),
        current is None ==> (r is Some <==> last_seen != 0),
        r matches Some(freshness) ==> freshness is Consistent,
{
}

/// A state that was stored now counts as fresh at the watermark of its plan.
pub proof fn law_stored_row_is_at_its_watermark(
    replay: &ReplayContext,
    now: RunStamp,
    meta: CacheMeta,
    now_us: i64,
    fresh: bool,
)
    requires
        call_ensures(store_meta, (replay, now), meta),
        call_ensures(
            cache_row_is_fresh,
            (&Freshness::Consistent, replay.watermark, &meta, now_us),
            fresh,
        ),
    ensures
        fresh,
        meta.watermark == replay.watermark,
        meta.cached_at_us == now.cached_at_us,
        meta.cached_at_mono_ns == Some(now.cached_at_mono_ns),
        meta.process_boot_ns == Some(now.process_boot_ns),
{
}

} // verus!
