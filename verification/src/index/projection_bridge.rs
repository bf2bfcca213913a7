//! What projections read from the index.

use super::columnar::ProjectionCacheStoreStatus;
use super::entry::{DiskPos, IndexEntry, QueryHit};
use super::groups::{projection_kind_matches, CachedProjectionSlot, ProjectionTypeId};
use super::store::StoreIndex;
use crate::event::EventKind;
use crate::hlc::HlcPoint;
use std::sync::Arc;
use vstd::prelude::*;

verus! {

/// One event that a projection replays.
#[derive(Clone, Copy, Debug, PartialEq, Eq, Structural)]
pub struct ProjectionReplayItem {
    /// Global sequence.
    pub global_sequence: u64,
    /// Lane.
    pub lane: u32,
    /// Clock point.
    pub point: HlcPoint,
    /// Frame location.
    pub disk_pos: DiskPos,
}

/// The events that a projection replays.
#[derive(Clone, Debug, PartialEq, Eq)]
pub struct ProjectionReplayPlan {
    /// Sequence of the last relevant event, visible or not.
    pub watermark: u64,
    /// Number of events of the entity.
    pub generation: u64,
    /// The visible relevant events.
    pub items: Vec<ProjectionReplayItem>,
}

/// The replay item of an event.
pub open spec fn item_of(entry: &IndexEntry) -> ProjectionReplayItem {
    ProjectionReplayItem {
        global_sequence: entry.global_sequence,
        lane: entry.dag_lane,
        point: HlcPoint { wall_ms: entry.wall_ms, global_sequence: entry.global_sequence },
        disk_pos: entry.disk_pos,
    }
}

impl ProjectionReplayItem {
    fn from_entry(entry: &IndexEntry) -> (item: ProjectionReplayItem)
        ensures
            item == item_of(entry),
    {
        ProjectionReplayItem {
            global_sequence: entry.global_sequence,
            lane: entry.dag_lane,
            point: HlcPoint { wall_ms: entry.wall_ms, global_sequence: entry.global_sequence },
            disk_pos: entry.disk_pos,
        }
    }
}

impl StoreIndex {
    /// A hit leads to an event that readers of its lane see.
    pub open spec fn upgrades_on_lane(&self, hit: QueryHit) -> bool {
        self.by_id.entries().contains_key(hit.event_id) && self.sequence@.sees_on_lane(
            self.by_id.entries()[hit.event_id].global_sequence,
            self.by_id.entries()[hit.event_id].dag_lane,
        )
    }

    /// The replay items of hits.
    pub open spec fn hit_items(&self, hits: Seq<QueryHit>) -> Seq<ProjectionReplayItem> {
        hits.filter(|h: QueryHit| self.upgrades_on_lane(h)).map_values(
            |h: QueryHit| item_of(&self.by_id.entries()[h.event_id]),
        )
    }

    /// The replay items of the rows that readers of their lanes see.
    pub open spec fn row_items(&self, rows: Seq<Arc<IndexEntry>>) -> Seq<ProjectionReplayItem> {
        rows.filter(
            |x: Arc<IndexEntry>| self.sequence@.sees_on_lane(x.global_sequence, x.dag_lane),
        ).map_values(|x: Arc<IndexEntry>| item_of(&x))
    }

    /// Relevant rows of the entity's group, where rows are grouped.
    pub open spec fn grouped_relevant(&self, entity: Seq<char>, kinds: Seq<EventKind>) -> Seq<
        Arc<IndexEntry>,
    > {
        match self.scan.group_overlay() {
            Some(groups) => super::groups::relevant_rows(groups.rows_of(entity), kinds),
            None => Seq::empty(),
        }
    }

    /// Number of events of an entity: of its group where it has one, else of
    /// its stream.
    pub open spec fn generation_of(&self, entity: Seq<char>) -> Option<u64> {
        if self.scan.group_overlay() is Some && self.scan.group_overlay()->0.has(entity) {
            Some(self.scan.group_overlay()->0.rows_of(entity).len() as u64)
        } else if self.has_stream(entity) {
            Some(self.stream_rows(entity).len() as u64)
        } else {
            None
        }
    }

    /// `slot` is the cached state of a projection of an entity.
    pub open spec fn slot_is(
        &self,
        entity: Seq<char>,
        type_id: ProjectionTypeId,
        slot: Option<CachedProjectionSlot>,
    ) -> bool {
        match slot {
            Some(slot) => self.scan.group_overlay() is Some
                && self.scan.group_overlay()->0.slots_of(entity).contains_key(type_id.id)
                && slot.same(&self.scan.group_overlay()->0.slots_of(entity)[type_id.id]),
            None => self.scan.group_overlay() matches Some(groups) ==> !groups.slots_of(
                entity,
            ).contains_key(type_id.id),
        }
    }

    /// This index is `before` after the state of a projection of an entity was
    /// handed to it, with `status` as the answer.
    pub open spec fn cached_from(
        &self,
        before: &StoreIndex,
        entity: Seq<char>,
        type_id: ProjectionTypeId,
        bytes: Vec<u8>,
        watermark: u64,
        status: ProjectionCacheStoreStatus,
    ) -> bool {
        &&& status == match before.scan.group_overlay() {
            Some(groups) => if groups.has(entity) {
                ProjectionCacheStoreStatus::Stored
            } else {
                ProjectionCacheStoreStatus::MissingEntity
            },
            None => ProjectionCacheStoreStatus::UnsupportedTopology,
        }
        &&& self.scan.same_but_slots(&before.scan)
        &&& (self.scan.group_overlay(), before.scan.group_overlay()) matches (Some(n), Some(o))
            ==> forall|e: Seq<char>| #[trigger]
            n.slots_of(e) == (if e == entity && status is Stored {
                o.slots_of(e).insert(
                    type_id.id,
                    CachedProjectionSlot {
                        bytes,
                        watermark,
                        generation: o.rows_of(e).len() as u64,
                    },
                )
            } else {
                o.slots_of(e)
            })
        &&& self.streams == before.streams
        &&& self.by_id == before.by_id
        &&& self.latest == before.latest
        &&& self.sequence@ == before.sequence@
        &&& self.len == before.len
        &&& self.interner == before.interner
    }

    /// `plan` is what a projection of an entity replays: the relevant rows of
    /// the entity's group where there are any, else those of its stream.
    pub open spec fn plan_is(
        &self,
        entity: Seq<char>,
        kinds: Seq<EventKind>,
        plan: Option<ProjectionReplayPlan>,
    ) -> bool {
        let grouped = self.grouped_relevant(entity, kinds);
        let streamed = super::groups::relevant_rows(self.stream_rows(entity), kinds);
        if grouped.len() > 0 {
            plan matches Some(plan) && plan.watermark == grouped.last().global_sequence
                && plan.generation == self.scan.group_overlay()->0.rows_of(entity).len()
                && plan.items@ == self.hit_items(super::stream::hits(grouped))
        } else if streamed.len() > 0 {
            plan matches Some(plan) && plan.watermark == streamed.last().global_sequence
                && plan.generation == self.stream_rows(entity).len() && plan.items@
                == self.row_items(streamed)
        } else {
            plan is None
        }
    }

    /// Number of events of an entity: of its group where it has one, else of
    /// its stream.
    pub fn entity_generation(&self, entity: &str) -> (r: Option<u64>)
        requires
            self.wf(),
        ensures
            r == self.generation_of(entity@),
    {
        match self.scan.entity_generation(entity) {
            Some(generation) => Some(generation),
            None => match self.streams.get(entity) {
                Some(stream) => Some(stream.len() as u64),
                None => None,
            },
        }
    }

    /// Cached state of a projection of an entity.
    pub fn cached_projection(&self, entity: &str, type_id: ProjectionTypeId) -> (r: Option<
        CachedProjectionSlot,
    >)
        requires
            self.wf(),
        ensures
            self.slot_is(entity@, type_id, r),
    {
        self.scan.cached_projection(entity, type_id)
    }

    /// Store the state of a projection of an entity.
    pub fn store_cached_projection(
        &mut self,
        entity: &str,
        type_id: ProjectionTypeId,
        bytes: Vec<u8>,
        watermark: u64,
    ) -> (r: ProjectionCacheStoreStatus)
        requires
            old(self).wf(),
        ensures
            final(self).wf(),
            final(self).cached_from(old(self), entity@, type_id, bytes, watermark, r),
            old(self).coherent() ==> final(self).coherent(),
    {
        let r = self.scan.store_cached_projection(entity, type_id, bytes, watermark);
        proof {
            assert(forall|e: Seq<char>| #[trigger] self.has_stream(e) == old(self).has_stream(e));
            assert(forall|e: Seq<char>| #[trigger]
                self.stream_rows(e) == old(self).stream_rows(e));
            assert(forall|x: Arc<IndexEntry>| #[trigger] self.holds(x) == old(self).holds(x));
            if old(self).coherent() {
                assert forall|s: Seq<char>, e: Seq<char>| #[trigger]
                    self.scope_holds(s, e) == old(self).scope_holds(s, e) by {
                    if old(self).scope_holds(s, e) {
                        let x = choose|x: Arc<IndexEntry>| #[trigger]
                            old(self).holds(x) && x.coord.scope_spec() == s
                                && x.coord.entity_spec() == e;
                        assert(self.holds(x));
                    }
                    if self.scope_holds(s, e) {
                        let x = choose|x: Arc<IndexEntry>| #[trigger]
                            self.holds(x) && x.coord.scope_spec() == s && x.coord.entity_spec()
                                == e;
                        assert(old(self).holds(x));
                    }
                }
            }
        }
        r
    }

    /// What a projection of an entity replays: from the entity's group where it
    /// has relevant rows, else from its stream.
    pub fn projection_replay_plan(&self, entity: &str, relevant_kinds: &[EventKind]) -> (r: Option<
        ProjectionReplayPlan,
    >)
        requires
            self.wf(),
        ensures
            self.plan_is(entity@, relevant_kinds@, r),
    {
        let visibility = self.sequence.snapshot();
        let ghost state = self.sequence@;
        proof {
            visibility.lemma_shows(state);
        }
        reveal(Seq::filter);
        if let Some(candidates) = self.scan.projection_candidates(entity, relevant_kinds) {
            let ghost all = candidates.hits@;
            let ghost ok = |h: QueryHit| self.upgrades_on_lane(h);
            let ghost up = |h: QueryHit| item_of(&self.by_id.entries()[h.event_id]);
            let mut items: Vec<ProjectionReplayItem> = Vec::new();
            let mut i: usize = 0;
            while i < candidates.hits.len()
                invariant
                    self.wf(),
                    state == self.sequence@,
                    forall|x: u64, lane: u32| #[trigger]
                        visibility.sees_on_lane(x, lane) == state.sees_on_lane(x, lane),
                    all == candidates.hits@,
                    ok == |h: QueryHit| self.upgrades_on_lane(h),
                    up == |h: QueryHit| item_of(&self.by_id.entries()[h.event_id]),
                    i <= all.len(),
                    items@ == all.take(i as int).filter(ok).map_values(up),
                decreases all.len() - i,
            {
                reveal(Seq::filter);
                assert(all.take(i + 1).drop_last() =~= all.take(i as int));
                if let Some(entry) = self.upgrade_hit_visible_on_lane(
                    candidates.hits[i],
                    &visibility,
                ) {
                    items.push(ProjectionReplayItem::from_entry(&entry));
                }
                assert(items@ =~= all.take(i + 1).filter(ok).map_values(up));
                i += 1;
            }
            assert(all.take(all.len() as int) =~= all);
            return Some(
                ProjectionReplayPlan {
                    watermark: candidates.watermark,
                    generation: candidates.generation,
                    items,
                },
            );
        }
        let stream = match self.streams.get(entity) {
            Some(stream) => stream,
            None => {
                return None;
            },
        };
        let rows = stream.rows();
        let ghost kinds = relevant_kinds@;
        let ghost sees = |x: Arc<IndexEntry>| state.sees_on_lane(x.global_sequence, x.dag_lane);
        let ghost item = |x: Arc<IndexEntry>| item_of(&x);
        let mut items: Vec<ProjectionReplayItem> = Vec::new();
        let mut watermark: Option<u64> = None;
        let mut i: usize = 0;
        while i < rows.len()
            invariant
                state == self.sequence@,
                forall|x: u64, lane: u32| #[trigger]
                    visibility.sees_on_lane(x, lane) == state.sees_on_lane(x, lane),
                kinds == relevant_kinds@,
                sees == |x: Arc<IndexEntry>| state.sees_on_lane(x.global_sequence, x.dag_lane),
                item == |x: Arc<IndexEntry>| item_of(&x),
                i <= rows@.len(),
                items@ == super::groups::relevant_rows(rows@.take(i as int), kinds).filter(
                    sees,
                ).map_values(item),
                match watermark {
                    Some(w) => super::groups::relevant_rows(rows@.take(i as int), kinds).len() > 0
                        && w == super::groups::relevant_rows(
                        rows@.take(i as int),
                        kinds,
                    ).last().global_sequence,
                    None => super::groups::relevant_rows(rows@.take(i as int), kinds).len() == 0,
                },
            decreases rows@.len() - i,
        {
            reveal(Seq::filter);
            let entry = &rows[i];
            let ghost so_far = super::groups::relevant_rows(rows@.take(i as int), kinds);
            let ghost now = super::groups::relevant_rows(rows@.take(i + 1), kinds);
            assert(rows@.take(i + 1).drop_last() =~= rows@.take(i as int));
            if projection_kind_matches(relevant_kinds, entry.kind) {
                watermark = Some(entry.global_sequence);
                proof {
                    assert(now == so_far.push(*entry));
                    assert(now.drop_last() =~= so_far);
                }
                if visibility.is_visible_on_lane(entry.global_sequence, entry.dag_lane) {
                    items.push(ProjectionReplayItem::from_entry(entry));
                }
                assert(items@ =~= now.filter(sees).map_values(item));
            }
            i += 1;
        }
        assert(rows@.take(rows@.len() as int) =~= rows@);
        match watermark {
            Some(watermark) => Some(
                ProjectionReplayPlan { watermark, generation: rows.len() as u64, items },
            ),
            None => None,
        }
    }
}

impl StoreIndex {
    /// A projection of an entity replays an event.
    pub open spec fn replays(
        &self,
        entity: Seq<char>,
        kinds: Seq<EventKind>,
        x: Arc<IndexEntry>,
    ) -> bool {
        &&& self.holds(x)
        &&& x.coord.entity_spec() == entity
        &&& super::groups::relevant(kinds, x.kind)
        &&& self.sequence@.sees_on_lane(x.global_sequence, x.dag_lane)
    }
}

/// A projection of a coherent index replays exactly the relevant events of its
/// entity that readers of their lanes see, each of them once; whatever the
/// topology. There is a plan where the entity has a relevant event, seen or not.
pub proof fn law_plan_replays_the_relevant_events(
    index: &StoreIndex,
    entity: Seq<char>,
    kinds: Seq<EventKind>,
    plan: Option<ProjectionReplayPlan>,
)
    requires
        index.coherent(),
        index.plan_is(entity, kinds, plan),
    ensures
        plan is Some <==> exists|x: Arc<IndexEntry>| #[trigger]
            index.holds(x) && x.coord.entity_spec() == entity && super::groups::relevant(
                kinds,
                x.kind,
            ),
        plan matches Some(plan) ==> {
            &&& plan.generation == index.stream_rows(entity).len()
            &&& plan.items@.to_multiset() == index.row_items(
                super::groups::relevant_rows(index.stream_rows(entity), kinds),
            ).to_multiset()
            &&& forall|item: ProjectionReplayItem| #[trigger]
                plan.items@.contains(item) <==> exists|x: Arc<IndexEntry>| #[trigger]
                    index.replays(entity, kinds, x) && item_of(&x) == item
        },
{
    let rows = index.stream_rows(entity);
    let streamed = super::groups::relevant_rows(rows, kinds);
    let grouped = index.grouped_relevant(entity, kinds);
    lemma_relevant_contains(rows, kinds);
    lemma_stream_once(index, entity);
    if let Some(groups) = index.scan.group_overlay() {
        let own = groups.rows_of(entity);
        lemma_relevant_contains(own, kinds);
        lemma_same_once(own, rows, index, entity);
        assert(grouped.len() > 0 ==> streamed.contains(grouped[0])) by {
            if grouped.len() > 0 {
                assert(grouped.contains(grouped[0]));
                assert(own.contains(grouped[0]));
            }
        }
        assert(streamed.len() > 0 ==> grouped.contains(streamed[0])) by {
            if streamed.len() > 0 {
                assert(streamed.contains(streamed[0]));
                assert(rows.contains(streamed[0]));
                assert(own.contains(streamed[0]));
            }
        }
        lemma_replayed_contents(index, own, rows, kinds);
        assert forall|i: int| 0 <= i < grouped.len() implies index.holds(#[trigger] grouped[i]) by {
            assert(grouped.contains(grouped[i]));
            assert(own.contains(grouped[i]));
        }
        lemma_hit_items(index, grouped);
    }
    if streamed.len() > 0 {
        assert(streamed.contains(streamed[0]));
        assert(rows.contains(streamed[0]));
        assert(index.holds(streamed[0]));
    }
    assert forall|x: Arc<IndexEntry>|
        #[trigger] index.holds(x) && x.coord.entity_spec() == entity && super::groups::relevant(
            kinds,
            x.kind,
        ) implies streamed.len() > 0 by {
        assert(rows.contains(x));
        assert(streamed.contains(x));
    }
    if let Some(plan) = plan {
        let items = index.row_items(streamed);
        plan.items@.to_multiset_ensures();
        items.to_multiset_ensures();
        assert forall|item: ProjectionReplayItem| #[trigger] plan.items@.contains(
            item,
        ) <==> exists|x: Arc<IndexEntry>| #[trigger]
            index.replays(entity, kinds, x) && item_of(&x) == item by {
            assert(plan.items@.to_multiset().count(item) == items.to_multiset().count(item));
            lemma_row_items_contain(index, streamed, item);
            if items.contains(item) {
                let x = choose|x: Arc<IndexEntry>| #[trigger]
                    streamed.contains(x) && index.sequence@.sees_on_lane(
                        x.global_sequence,
                        x.dag_lane,
                    ) && item_of(&x) == item;
                assert(rows.contains(x));
                assert(index.replays(entity, kinds, x));
            }
            if exists|x: Arc<IndexEntry>| #[trigger]
                index.replays(entity, kinds, x) && item_of(&x) == item {
                let x = choose|x: Arc<IndexEntry>| #[trigger]
                    index.replays(entity, kinds, x) && item_of(&x) == item;
                assert(rows.contains(x));
                assert(streamed.contains(x));
            }
        }
    }
}

/// Where an entity's events came in clock-key order, its group and its stream give
/// the same plan: the same items in the same order, the same watermark and the
/// same generation.
pub proof fn law_grouped_plan_is_the_streamed_plan(
    index: &StoreIndex,
    entity: Seq<char>,
    kinds: Seq<EventKind>,
    plan: Option<ProjectionReplayPlan>,
)
    requires
        index.coherent(),
        index.plan_is(entity, kinds, plan),
        index.scan.group_overlay() matches Some(groups) ==> super::stream::keys_ascend(
            groups.rows_of(entity),
        ),
    ensures
        ({
            let streamed = super::groups::relevant_rows(index.stream_rows(entity), kinds);
            match plan {
                Some(plan) => streamed.len() > 0 && plan.watermark
                    == streamed.last().global_sequence && plan.generation == index.stream_rows(
                    entity,
                ).len() && plan.items@ == index.row_items(streamed),
                None => streamed.len() == 0,
            }
        }),
{
    let rows = index.stream_rows(entity);
    lemma_stream_ascends(index, entity);
    if let Some(groups) = index.scan.group_overlay() {
        let own = groups.rows_of(entity);
        assert forall|x: Arc<IndexEntry>| own.contains(x) == rows.contains(x) by {
            assert(own.contains(x) <==> index.holds(x) && x.coord.entity_spec() == entity);
        }
        super::stream::lemma_ascending_determined(own, rows);
        let grouped = index.grouped_relevant(entity, kinds);
        lemma_relevant_contains(own, kinds);
        assert forall|i: int| 0 <= i < grouped.len() implies index.holds(#[trigger] grouped[i]) by {
            assert(grouped.contains(grouped[i]));
            assert(own.contains(grouped[i]));
        }
        lemma_hit_items(index, grouped);
    }
}

proof fn lemma_stream_ascends(index: &StoreIndex, entity: Seq<char>)
    requires
        index.wf(),
    ensures
        super::stream::keys_ascend(index.stream_rows(entity)),
{
    if index.streams.entries().contains_key(entity) {
        assert(super::stream::keys_ascend(index.streams.entries()[entity]@));
    }
}

/// A stream holds each of its events once.
proof fn lemma_stream_once(index: &StoreIndex, entity: Seq<char>)
    requires
        index.wf(),
    ensures
        index.stream_rows(entity).no_duplicates(),
{
    let rows = index.stream_rows(entity);
    lemma_stream_ascends(index, entity);
    assert forall|i: int, j: int|
        0 <= i < rows.len() && 0 <= j < rows.len() && i != j implies rows[i] != rows[j] by {
        if i < j {
            assert(rows[i].key().before_spec(rows[j].key()));
        } else {
            assert(rows[j].key().before_spec(rows[i].key()));
        }
    }
}

/// An entity's group and its stream hold the same events.
proof fn lemma_same_once(
    own: Seq<Arc<IndexEntry>>,
    rows: Seq<Arc<IndexEntry>>,
    index: &StoreIndex,
    entity: Seq<char>,
)
    requires
        index.coherent(),
        index.scan.group_overlay() is Some,
        own == index.scan.group_overlay()->0.rows_of(entity),
        rows == index.stream_rows(entity),
        rows.no_duplicates(),
    ensures
        own.no_duplicates(),
        own.to_multiset() == rows.to_multiset(),
        own.len() == rows.len(),
        forall|x: Arc<IndexEntry>| #[trigger] own.contains(x) <==> rows.contains(x),
{
    own.to_multiset_ensures();
    rows.to_multiset_ensures();
    own.lemma_multiset_has_no_duplicates();
    rows.lemma_multiset_has_no_duplicates();
    assert forall|x: Arc<IndexEntry>| #[trigger] own.contains(x) <==> rows.contains(x) by {
        assert(rows.contains(x) <==> index.holds(x) && x.coord.entity_spec() == entity);
    }
    assert forall|x: Arc<IndexEntry>| #[trigger] own.to_multiset().count(x)
        == rows.to_multiset().count(x) by {
        assert(own.contains(x) <==> rows.contains(x));
        assert(own.to_multiset().contains(x) ==> own.to_multiset().count(x) == 1);
        assert(rows.to_multiset().contains(x) ==> rows.to_multiset().count(x) == 1);
    }
    assert(own.to_multiset() =~= rows.to_multiset());
}

proof fn lemma_relevant_contains(rows: Seq<Arc<IndexEntry>>, kinds: Seq<EventKind>)
    ensures
        forall|x: Arc<IndexEntry>| #[trigger]
            super::groups::relevant_rows(rows, kinds).contains(x) <==> rows.contains(x)
                && super::groups::relevant(kinds, x.kind),
{
    super::query::lemma_filter_contains(
        rows,
        |e: Arc<IndexEntry>| super::groups::relevant(kinds, e.kind),
    );
}

proof fn lemma_row_items_contain(
    index: &StoreIndex,
    rows: Seq<Arc<IndexEntry>>,
    item: ProjectionReplayItem,
)
    ensures
        index.row_items(rows).contains(item) <==> exists|x: Arc<IndexEntry>| #[trigger]
            rows.contains(x) && index.sequence@.sees_on_lane(x.global_sequence, x.dag_lane)
                && item_of(&x) == item,
{
    let sees = |x: Arc<IndexEntry>| index.sequence@.sees_on_lane(x.global_sequence, x.dag_lane);
    let seen = rows.filter(sees);
    super::query::lemma_filter_contains(rows, sees);
    if index.row_items(rows).contains(item) {
        let i = index.row_items(rows).index_of(item);
        assert(seen.contains(seen[i]));
        assert(rows.contains(seen[i]));
    }
    if exists|x: Arc<IndexEntry>| #[trigger]
        rows.contains(x) && index.sequence@.sees_on_lane(x.global_sequence, x.dag_lane) && item_of(
            &x,
        ) == item {
        let x = choose|x: Arc<IndexEntry>| #[trigger]
            rows.contains(x) && index.sequence@.sees_on_lane(x.global_sequence, x.dag_lane)
                && item_of(&x) == item;
        assert(seen.contains(x));
        let i = seen.index_of(x);
        assert(index.row_items(rows)[i] == item);
    }
}

/// The hits of held rows lead to the rows themselves.
proof fn lemma_hit_items(index: &StoreIndex, rows: Seq<Arc<IndexEntry>>)
    requires
        forall|i: int| 0 <= i < rows.len() ==> index.holds(#[trigger] rows[i]),
    ensures
        index.hit_items(super::stream::hits(rows)) == index.row_items(rows),
    decreases rows.len(),
{
    reveal(Seq::filter);
    if rows.len() == 0 {
        assert(index.hit_items(super::stream::hits(rows)) =~= index.row_items(rows));
    } else {
        let head = rows.drop_last();
        assert forall|i: int| 0 <= i < head.len() implies index.holds(#[trigger] head[i]) by {
            assert(head[i] == rows[i]);
        }
        lemma_hit_items(index, head);
        assert(index.holds(rows[rows.len() - 1]));
        let found = super::stream::hits(rows);
        assert(found.drop_last() =~= super::stream::hits(head));
        assert(found.last() == rows.last().hit());
        let ok = |h: QueryHit| index.upgrades_on_lane(h);
        let sees = |x: Arc<IndexEntry>|
            index.sequence@.sees_on_lane(x.global_sequence, x.dag_lane);
        let up = |h: QueryHit| item_of(&index.by_id.entries()[h.event_id]);
        let item = |x: Arc<IndexEntry>| item_of(&x);
        assert(ok(found.last()) == sees(rows.last()));
        assert(up(found.last()) == item(rows.last()));
        let front = found.drop_last();
        if sees(rows.last()) {
            assert(found.filter(ok) == front.filter(ok).push(found.last()));
            assert(rows.filter(sees) == head.filter(sees).push(rows.last()));
            assert(found.filter(ok).map_values(up) =~= front.filter(ok).map_values(up).push(
                up(found.last()),
            ));
            assert(rows.filter(sees).map_values(item) =~= head.filter(sees).map_values(item).push(
                item(rows.last()),
            ));
        } else {
            assert(found.filter(ok) == front.filter(ok));
            assert(rows.filter(sees) == head.filter(sees));
        }
    }
}

/// What is replayed of two parts is replayed of the whole.
proof fn lemma_replayed_add(
    index: &StoreIndex,
    a: Seq<Arc<IndexEntry>>,
    b: Seq<Arc<IndexEntry>>,
    kinds: Seq<EventKind>,
)
    ensures
        index.row_items(super::groups::relevant_rows(a + b, kinds)) == index.row_items(
            super::groups::relevant_rows(a, kinds),
        ) + index.row_items(super::groups::relevant_rows(b, kinds)),
{
    let wanted = |e: Arc<IndexEntry>| super::groups::relevant(kinds, e.kind);
    let sees = |x: Arc<IndexEntry>| index.sequence@.sees_on_lane(x.global_sequence, x.dag_lane);
    Seq::filter_distributes_over_add(a, b, wanted);
    Seq::filter_distributes_over_add(a.filter(wanted), b.filter(wanted), sees);
    assert(index.row_items(super::groups::relevant_rows(a + b, kinds)) =~= index.row_items(
        super::groups::relevant_rows(a, kinds),
    ) + index.row_items(super::groups::relevant_rows(b, kinds)));
}

/// What is replayed of rows follows from the rows, whatever their order.
proof fn lemma_replayed_contents(
    index: &StoreIndex,
    a: Seq<Arc<IndexEntry>>,
    b: Seq<Arc<IndexEntry>>,
    kinds: Seq<EventKind>,
)
    requires
        a.to_multiset() == b.to_multiset(),
    ensures
        index.row_items(super::groups::relevant_rows(a, kinds)).to_multiset() == index.row_items(
            super::groups::relevant_rows(b, kinds),
        ).to_multiset(),
    decreases a.len(),
{
    a.to_multiset_ensures();
    b.to_multiset_ensures();
    if a.len() == 0 {
        assert(a =~= b);
    } else {
        let x = a.last();
        assert(a.contains(x));
        assert(b.to_multiset().count(x) > 0);
        let i = b.index_of(x);
        let head = a.drop_last();
        let (left, one, right) = (b.take(i), seq![x], b.skip(i + 1));
        assert(a.remove(a.len() - 1) =~= head);
        assert(b.remove(i) =~= left + right);
        lemma_replayed_contents(index, head, left + right, kinds);
        assert(a =~= head + one);
        assert(b =~= left + one + right);
        lemma_replayed_add(index, head, one, kinds);
        lemma_replayed_add(index, left, right, kinds);
        lemma_replayed_add(index, left + one, right, kinds);
        lemma_replayed_add(index, left, one, kinds);
        let of_head = index.row_items(super::groups::relevant_rows(head, kinds));
        let of_left = index.row_items(super::groups::relevant_rows(left, kinds));
        let of_one = index.row_items(super::groups::relevant_rows(one, kinds));
        let of_right = index.row_items(super::groups::relevant_rows(right, kinds));
        vstd::seq_lib::lemma_multiset_commutative(of_head, of_one);
        vstd::seq_lib::lemma_multiset_commutative(of_left, of_right);
        vstd::seq_lib::lemma_multiset_commutative(of_left, of_one);
        vstd::seq_lib::lemma_multiset_commutative(of_left + of_one, of_right);
        assert((of_head + of_one).to_multiset() =~= (of_left + of_one + of_right).to_multiset());
    }
}

/// What it takes to see an event on its lane, spelled out.
pub proof fn lemma_seen_on_lane(index: &StoreIndex, x: Arc<IndexEntry>)
    ensures
        index.sequence@.sees_on_lane(x.global_sequence, x.dag_lane) <==> index.sequence@.lanes.contains_key(x.dag_lane) && x.global_sequence
                    < index.sequence@.lanes[x.dag_lane] && (forall|k: int|
                    #![trigger index.sequence@.cancelled[k]]
                    0 <= k < index.sequence@.cancelled.len() ==> !(index.sequence@.cancelled[k].0
                        <= x.global_sequence && x.global_sequence
                        < index.sequence@.cancelled[k].1)) && (
                index.sequence@.lane_cancelled.contains_key(x.dag_lane) ==> forall|k: int|
                    #![trigger index.sequence@.lane_cancelled[x.dag_lane][k]]
                    0 <= k < index.sequence@.lane_cancelled[x.dag_lane].len() ==> !(
                    index.sequence@.lane_cancelled[x.dag_lane][k].0 <= x.global_sequence
                        && x.global_sequence < index.sequence@.lane_cancelled[x.dag_lane][k].1)),
{
    let sequence = x.global_sequence;
    let ranges = super::visibility::lane_ranges_of(index.sequence@.lane_cancelled, x.dag_lane);
    super::visibility::law_covered_lies_in_a_range(index.sequence@.cancelled, sequence);
    super::visibility::law_covered_lies_in_a_range(ranges, sequence);
    if !index.sequence@.lane_cancelled.contains_key(x.dag_lane) {
        assert(ranges.len() == 0);
    }
}

/// What makes a kind relevant, spelled out.
pub proof fn lemma_relevant(kinds: Seq<EventKind>, kind: EventKind)
    ensures
        super::groups::relevant(kinds, kind) <==> kinds.len() == 0 || exists|k: int|
            0 <= k < kinds.len() && #[trigger] kinds[k] == kind,
{
    if kinds.contains(kind) {
        let k = choose|k: int| 0 <= k < kinds.len() && kinds[k] == kind;
        assert(kinds[k] == kind);
    }
}

/// A held event is replayed exactly where it is of the entity, its kind is one of the
/// given ones or none are given, and readers of its lane see it. An item tells its
/// sequence, lane, clock point and place, and every item is that of such an event. The
/// plan counts the events of the entity.
pub proof fn law_replay_plan_is_complete(
    index: &StoreIndex,
    entity: &str,
    kinds: &[EventKind],
    plan: Option<ProjectionReplayPlan>,
    id: u128,
    i: int,
)
    requires
        index.coherent(),
        call_ensures(StoreIndex::projection_replay_plan, (index, entity, kinds), plan),
    ensures
        index.by_id.entries().contains_key(id) ==> {
            let x = index.by_id.entries()[id];
            let wanted = x.coord.entity_spec() == entity@ && (kinds@.len() == 0 || exists|k: int|
                    0 <= k < kinds@.len() && #[trigger] kinds@[k] == x.kind);
            let seen = index.sequence@.lanes.contains_key(x.dag_lane) && x.global_sequence
                    < index.sequence@.lanes[x.dag_lane] && (forall|k: int|
                    #![trigger index.sequence@.cancelled[k]]
                    0 <= k < index.sequence@.cancelled.len() ==> !(index.sequence@.cancelled[k].0
                        <= x.global_sequence && x.global_sequence
                        < index.sequence@.cancelled[k].1)) && (
                index.sequence@.lane_cancelled.contains_key(x.dag_lane) ==> forall|k: int|
                    #![trigger index.sequence@.lane_cancelled[x.dag_lane][k]]
                    0 <= k < index.sequence@.lane_cancelled[x.dag_lane].len() ==> !(
                    index.sequence@.lane_cancelled[x.dag_lane][k].0 <= x.global_sequence
                        && x.global_sequence < index.sequence@.lane_cancelled[x.dag_lane][k].1));
            &&& wanted ==> plan is Some
            &&& wanted && seen ==> exists|j: int|
                0 <= j < plan->0.items@.len() && (#[trigger] plan->0.items@[j]).global_sequence
                    == x.global_sequence && plan->0.items@[j].lane == x.dag_lane
                    && plan->0.items@[j].point.wall_ms == x.wall_ms
                    && plan->0.items@[j].point.global_sequence == x.global_sequence
                    && plan->0.items@[j].disk_pos == x.disk_pos
        },
        plan is Some && 0 <= i < plan->0.items@.len() ==> exists|x: Arc<IndexEntry>| #[trigger]
            index.holds(x) && x.coord.entity_spec() == entity@ && (kinds@.len() == 0 || exists|k: int|
                    0 <= k < kinds@.len() && #[trigger] kinds@[k] == x.kind) && index.sequence@.lanes.contains_key(x.dag_lane) && x.global_sequence
                    < index.sequence@.lanes[x.dag_lane] && (forall|k: int|
                    #![trigger index.sequence@.cancelled[k]]
                    0 <= k < index.sequence@.cancelled.len() ==> !(index.sequence@.cancelled[k].0
                        <= x.global_sequence && x.global_sequence
                        < index.sequence@.cancelled[k].1)) && (
                index.sequence@.lane_cancelled.contains_key(x.dag_lane) ==> forall|k: int|
                    #![trigger index.sequence@.lane_cancelled[x.dag_lane][k]]
                    0 <= k < index.sequence@.lane_cancelled[x.dag_lane].len() ==> !(
                    index.sequence@.lane_cancelled[x.dag_lane][k].0 <= x.global_sequence
                        && x.global_sequence < index.sequence@.lane_cancelled[x.dag_lane][k].1)) && plan->0.items@[i].global_sequence
                == x.global_sequence && plan->0.items@[i].lane == x.dag_lane
                && plan->0.items@[i].point.wall_ms == x.wall_ms
                && plan->0.items@[i].point.global_sequence == x.global_sequence
                && plan->0.items@[i].disk_pos == x.disk_pos,
        plan is Some ==> plan->0.generation == index.stream_rows(entity@).len(),
{
    law_plan_replays_the_relevant_events(index, entity@, kinds@, plan);
    if index.by_id.entries().contains_key(id) {
        let x = index.by_id.entries()[id];
        assert(index.holds(x));
        lemma_seen_on_lane(index, x);
        lemma_relevant(kinds@, x.kind);
        if index.replays(entity@, kinds@, x) {
            let item = item_of(&x);
            assert(plan->0.items@.contains(item));
            let j = choose|j: int| 0 <= j < plan->0.items@.len() && plan->0.items@[j] == item;
            assert(plan->0.items@[j].global_sequence == x.global_sequence);
        }
    }
    if plan is Some && 0 <= i < plan->0.items@.len() {
        let item = plan->0.items@[i];
        assert(plan->0.items@.contains(item));
        let x = choose|x: Arc<IndexEntry>| #[trigger]
            index.replays(entity@, kinds@, x) && item_of(&x) == item;
        lemma_seen_on_lane(index, x);
        lemma_relevant(kinds@, x.kind);
        assert(index.holds(x));
    }
}

/// The watermark of a plan is the sequence of a relevant event after which no relevant
/// event of the entity comes, seen or not: in the entity's group where it has one, and
/// else in its stream.
pub proof fn law_watermark_is_of_the_last_relevant_event(
    index: &StoreIndex,
    entity: &str,
    kinds: &[EventKind],
    plan: ProjectionReplayPlan,
) -> (at: int)
    requires
        index.coherent(),
        call_ensures(StoreIndex::projection_replay_plan, (index, entity, kinds), Some(plan)),
    ensures
        ({
            let rows = match index.scan.group_overlay() {
                Some(groups) => groups.rows_of(entity@),
                None => index.stream_rows(entity@),
            };
            &&& 0 <= at < rows.len()
            &&& rows[at].global_sequence == plan.watermark
            &&& kinds@.len() == 0 || kinds@.contains(rows[at].kind)
            &&& kinds@.len() == 0 ==> at == rows.len() - 1
            &&& forall|j: int|
                at < j < rows.len() ==> !kinds@.contains((#[trigger] rows[j]).kind)
        }),
{
    let rows = match index.scan.group_overlay() {
        Some(groups) => groups.rows_of(entity@),
        None => index.stream_rows(entity@),
    };
    let wanted = |e: Arc<IndexEntry>| super::groups::relevant(kinds@, e.kind);
    if let Some(groups) = index.scan.group_overlay() {
        let streamed = super::groups::relevant_rows(index.stream_rows(entity@), kinds@);
        let grouped = index.grouped_relevant(entity@, kinds@);
        lemma_relevant_contains(index.stream_rows(entity@), kinds@);
        lemma_relevant_contains(rows, kinds@);
        if streamed.len() > 0 {
            assert(streamed.contains(streamed[0]));
            assert(index.stream_rows(entity@).contains(streamed[0]));
            assert(rows.contains(streamed[0]));
            assert(grouped.contains(streamed[0]));
        }
        assert(grouped.len() > 0);
    }
    let at = lemma_last_kept(rows, wanted);
    if at < rows.len() - 1 {
        assert(!wanted(rows[rows.len() - 1]));
    }
    assert forall|j: int| at < j < rows.len() implies !kinds@.contains((#[trigger] rows[j]).kind) by {
        assert(!wanted(rows[j]));
    }
    at
}

proof fn lemma_last_kept(
    rows: Seq<Arc<IndexEntry>>,
    keep: spec_fn(Arc<IndexEntry>) -> bool,
) -> (at: int)
    requires
        rows.filter(keep).len() > 0,
    ensures
        0 <= at < rows.len(),
        rows[at] == rows.filter(keep).last(),
        keep(rows[at]),
        forall|j: int| at < j < rows.len() ==> !keep(#[trigger] rows[j]),
    decreases rows.len(),
{
    reveal(Seq::filter);
    if rows.len() == 0 {
        0
    } else if keep(rows.last()) {
        rows.len() - 1
    } else {
        let front = rows.drop_last();
        let at = lemma_last_kept(front, keep);
        assert(rows[at] == front[at]);
        assert forall|j: int| at < j < rows.len() implies !keep(#[trigger] rows[j]) by {
            if j < front.len() {
                assert(front[j] == rows[j]);
            }
        }
        at
    }
}

/// The generation of an entity is the number of its events, and there is none where it
/// has no events.
pub proof fn law_generation_counts_the_events(index: &StoreIndex, entity: &str, r: Option<u64>)
    requires
        index.coherent(),
        index.stream_rows(entity@).len() <= u64::MAX,
        call_ensures(StoreIndex::entity_generation, (index, entity), r),
    ensures
        r is Some <==> exists|x: Arc<IndexEntry>| #[trigger]
            index.holds(x) && x.coord.entity_spec() == entity@,
        r matches Some(n) ==> n == index.stream_rows(entity@).len() && n > 0,
{
    let rows = index.stream_rows(entity@);
    lemma_stream_once(index, entity@);
    if index.has_stream(entity@) {
        assert(rows.contains(rows[0]));
        assert(index.holds(rows[0]));
    }
    assert forall|x: Arc<IndexEntry>| #[trigger]
        index.holds(x) && x.coord.entity_spec() == entity@ implies index.has_stream(entity@) by {
        assert(rows.contains(x));
    }
    if let Some(groups) = index.scan.group_overlay() {
        let own = groups.rows_of(entity@);
        lemma_same_once(own, rows, index, entity@);
        own.to_multiset_ensures();
        rows.to_multiset_ensures();
        if groups.has(entity@) {
            assert(own.contains(own[0]));
        }
    }
}

/// A state that was stored comes back with its bytes and watermark and the number of
/// events that the entity had. What is held of another entity or another projection is
/// as it was. Without groups nothing is stored, nor for an entity without events.
pub proof fn law_stored_state_comes_back(
    before: &StoreIndex,
    after: &StoreIndex,
    entity: &str,
    type_id: ProjectionTypeId,
    bytes: Vec<u8>,
    watermark: u64,
    status: ProjectionCacheStoreStatus,
    other_entity: &str,
    other: ProjectionTypeId,
    was: Option<CachedProjectionSlot>,
    now: Option<CachedProjectionSlot>,
)
    requires
        before.coherent(),
        after.wf(),
        after.cached_from(before, entity@, type_id, bytes, watermark, status),
        call_ensures(StoreIndex::cached_projection, (before, other_entity, other), was),
        call_ensures(StoreIndex::cached_projection, (after, other_entity, other), now),
    ensures
        status is UnsupportedTopology <==> before.scan.group_overlay() is None,
        status is Stored ==> exists|x: Arc<IndexEntry>| #[trigger]
            before.holds(x) && x.coord.entity_spec() == entity@,
        status is MissingEntity ==> forall|x: Arc<IndexEntry>| #[trigger]
            before.holds(x) ==> x.coord.entity_spec() != entity@,
        status is Stored && other_entity@ == entity@ && other.id == type_id.id ==> now is Some
            && now->0.bytes@ == bytes@ && now->0.watermark == watermark && now->0.generation
            == before.scan.group_overlay()->0.rows_of(entity@).len() as u64,
        !(status is Stored) || other_entity@ != entity@ || other.id != type_id.id ==> (
        now is Some <==> was is Some) && (now is Some ==> now->0.bytes@ == was->0.bytes@
            && now->0.watermark == was->0.watermark && now->0.generation == was->0.generation),
{
    if let Some(groups) = before.scan.group_overlay() {
        let own = groups.rows_of(entity@);
        if groups.has(entity@) {
            assert(own.contains(own[0]));
            assert(before.holds(own[0]));
        } else {
            assert forall|x: Arc<IndexEntry>| #[trigger]
                before.holds(x) implies x.coord.entity_spec() != entity@ by {
                if x.coord.entity_spec() == entity@ {
                    assert(own.contains(x));
                }
            }
        }
        assert(after.scan.group_overlay() is Some);
    }
}

} // verus!
