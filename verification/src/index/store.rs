//! The in-memory index: every view of the stored events, and the sequence gate
//! that decides which of them readers see.

use super::entry::IndexEntry;
use super::gate::{CancelledVisibilityRanges, SequenceGate};
use super::interner::StringInterner;
use super::restore::{to_usize, EntityRun, RestoreBase, RoutingSummary};
use super::scan::{IndexConfig, ScanIndex};
use super::stream::ClockStream;
use crate::error::StoreError;
use crate::event::EventKind;
use crate::hlc::HlcPoint;
use crate::table::{NameTable, Table};
use std::collections::BTreeMap;
use std::sync::Arc;
use vstd::prelude::*;

verus! {

/// The index of a store.
pub struct StoreIndex {
    /// Events of each entity, in clock-key order.
    pub streams: NameTable<ClockStream>,
    /// Base scan maps and overlays.
    pub scan: ScanIndex,
    /// Event of each id.
    pub by_id: Table<Arc<IndexEntry>>,
    /// Chain head of each entity.
    pub latest: NameTable<Arc<IndexEntry>>,
    /// Allocator and visibility bounds.
    pub sequence: SequenceGate,
    /// Number of insertions.
    pub len: usize,
    /// Ids of entity and scope strings.
    pub interner: StringInterner,
}

/// The count after one more.
pub open spec fn one_more(n: usize) -> usize {
    if n == usize::MAX {
        0
    } else {
        (n + 1) as usize
    }
}

impl StoreIndex {
    /// Every view is sound, and streams are in clock-key order.
    pub open spec fn wf(&self) -> bool {
        &&& self.streams.wf()
        &&& self.scan.wf()
        &&& self.by_id.wf()
        &&& self.latest.wf()
        &&& self.sequence@.wf()
        &&& self.interner.wf()
        &&& forall|e: Seq<char>| #[trigger]
            self.streams.entries().contains_key(e) ==> super::stream::keys_ascend(
                self.streams.entries()[e]@,
            )
    }

    /// An entity has a stream.
    pub open spec fn has_stream(&self, entity: Seq<char>) -> bool {
        self.streams.entries().contains_key(entity)
    }

    /// The stream of an entity.
    pub open spec fn stream_rows(&self, entity: Seq<char>) -> Seq<Arc<IndexEntry>> {
        if self.streams.entries().contains_key(entity) {
            self.streams.entries()[entity]@
        } else {
            Seq::empty()
        }
    }

    /// The events by id, in slot order.
    pub open spec fn id_rows(&self) -> Seq<Arc<IndexEntry>> {
        self.by_id.order().map_values(|id: u128| self.by_id.entries()[id])
    }

    /// The index holds an event under its own id.
    pub open spec fn holds(&self, x: Arc<IndexEntry>) -> bool {
        self.by_id.entries().contains_key(x.event_id) && self.by_id.entries()[x.event_id] == x
    }

    /// Every view took one more row.
    pub open spec fn took(&self, old: &StoreIndex, row: Arc<IndexEntry>) -> bool {
        &&& super::stream::is_put(
            self.stream_rows(row.coord.entity_spec()),
            old.stream_rows(row.coord.entity_spec()),
            row,
        )
        &&& self.streams.order() == (if old.has_stream(row.coord.entity_spec()) {
            old.streams.order()
        } else {
            old.streams.order().push(row.coord.entity_spec())
        })
        &&& forall|e: Seq<char>| #[trigger]
            self.has_stream(e) == (old.has_stream(e) || e == row.coord.entity_spec())
        &&& forall|e: Seq<char>|
            e != row.coord.entity_spec() ==> #[trigger] self.stream_rows(e) == old.stream_rows(e)
        &&& self.scan.grew(&old.scan, row)
        &&& self.by_id.entries() == old.by_id.entries().insert(row.event_id, row)
        &&& self.by_id.order() == (if old.by_id.entries().contains_key(row.event_id) {
            old.by_id.order()
        } else {
            old.by_id.order().push(row.event_id)
        })
        &&& self.latest.entries() == old.latest.entries().insert(row.coord.entity_spec(), row)
        &&& self.len == one_more(old.len)
        &&& self.interner == old.interner
    }

    /// Every view holds the same events, each of them once.
    pub open spec fn coherent(&self) -> bool {
        &&& self.wf()
        &&& forall|id: u128| #[trigger]
            self.by_id.entries().contains_key(id) ==> self.by_id.entries()[id].event_id == id
        &&& forall|e: Seq<char>, x: Arc<IndexEntry>| #[trigger]
            self.stream_rows(e).contains(x) <==> self.holds(x) && x.coord.entity_spec() == e
        &&& forall|e: Seq<char>| #[trigger] self.has_stream(e) ==> self.stream_rows(e).len() > 0
        &&& forall|k: EventKind, x: Arc<IndexEntry>| #[trigger]
            self.scan.facts(k).contains(x) <==> self.holds(x) && x.kind == k
        &&& forall|s: Seq<char>, e: Seq<char>| #[trigger]
            self.scan.scope_members(s).contains(e) <==> self.scope_holds(s, e)
        &&& forall|s: Seq<char>|
            (exists|e: Seq<char>| #[trigger] self.scan.scope_members(s).contains(e))
                ==> #[trigger] self.scan.scope_has(s)
        &&& self.overlay_coherent(self.scan.flat_overlay())
        &&& self.overlay_coherent(self.scan.group_overlay())
        &&& self.overlay_coherent(self.scan.tile_overlay())
        &&& self.overlay_coherent(self.scan.mixed_overlay())
        &&& self.groups_coherent(self.scan.group_overlay())
        &&& self.heads_coherent()
        &&& self.len == self.by_id.order().len()
    }

    /// Exactly the entities that have a stream have a chain head, which is one of
    /// their events.
    pub open spec fn heads_coherent(&self) -> bool {
        &&& forall|e: Seq<char>| #[trigger]
            self.latest.entries().contains_key(e) <==> self.has_stream(e)
        &&& forall|e: Seq<char>| #[trigger]
            self.latest.entries().contains_key(e) ==> self.holds(self.latest.entries()[e])
                && self.latest.entries()[e].coord.entity_spec() == e
    }

    /// The groups, where there are any, hold every event of their entity once.
    pub open spec fn groups_coherent(
        &self,
        overlay: Option<super::columnar::ColumnarIndex>,
    ) -> bool {
        overlay matches Some(o) ==> {
            &&& forall|e: Seq<char>, x: Arc<IndexEntry>| #[trigger]
                o.rows_of(e).contains(x) <==> self.holds(x) && x.coord.entity_spec() == e
            &&& forall|e: Seq<char>| (#[trigger] o.rows_of(e)).no_duplicates()
            &&& forall|e: Seq<char>| #[trigger] o.has(e) <==> o.rows_of(e).len() > 0
        }
    }

    /// Some event of a scope belongs to an entity.
    pub open spec fn scope_holds(&self, scope: Seq<char>, entity: Seq<char>) -> bool {
        exists|x: Arc<IndexEntry>| #[trigger]
            self.holds(x) && x.coord.scope_spec() == scope && x.coord.entity_spec() == entity
    }

    /// An overlay, where it exists, lists every event once.
    pub open spec fn overlay_coherent(
        &self,
        overlay: Option<super::columnar::ColumnarIndex>,
    ) -> bool {
        overlay matches Some(o) ==> {
            &&& o.listing().no_duplicates()
            &&& forall|x: Arc<IndexEntry>| #[trigger] o.listing().contains(x) <==> self.holds(x)
        }
    }

    /// An index with the default configuration.
    pub fn new() -> (r: StoreIndex)
        ensures
            r.coherent(),
            r.by_id.entries() == Map::<u128, Arc<IndexEntry>>::empty(),
            r.latest.entries() == Map::<Seq<char>, Arc<IndexEntry>>::empty(),
            r.scan.emptied_from(&r.scan),
            r.len == 0,
            r.sequence@ == super::gate::GateState::fresh(0),
            r.interner.strings() == Seq::<Seq<char>>::empty(),
            r.scan.topology() == (super::scan::IndexTopology {
                soa: false,
                entity_groups: false,
                tiles64: false,
                tiles64_simd: false,
            }),
    {
        Self::with_config(&IndexConfig::default())
    }

    /// An index with the given configuration.
    pub fn with_config(config: &IndexConfig) -> (r: StoreIndex)
        ensures
            r.coherent(),
            r.by_id.entries() == Map::<u128, Arc<IndexEntry>>::empty(),
            r.latest.entries() == Map::<Seq<char>, Arc<IndexEntry>>::empty(),
            r.scan.emptied_from(&r.scan),
            r.len == 0,
            r.sequence@ == super::gate::GateState::fresh(0),
            r.interner.strings() == Seq::<Seq<char>>::empty(),
            r.scan.topology() == config.topology,
    {
        let r = StoreIndex {
            streams: NameTable::new(),
            scan: ScanIndex::for_config(config),
            by_id: Table::new(),
            latest: NameTable::new(),
            sequence: SequenceGate::new(),
            len: 0,
            interner: StringInterner::new(),
        };
        proof {
            lemma_empty_is_coherent(&r);
        }
        r
    }

    /// Reserve `n` sequences and return the first of them.
    pub fn reserve_sequences(&mut self, n: u64) -> (first: u64)
        ensures
            first == old(self).sequence@.allocated,
            final(self).sequence@ == (super::gate::GateState {
                allocated: ((old(self).sequence@.allocated + n) % 0x1_0000_0000_0000_0000) as u64,
                ..old(self).sequence@
            }),
            final(self).but_sequence(old(self)),
    {
        self.sequence.reserve(n)
    }

    /// Two indexes agree in everything but the sequence gate.
    pub open spec fn but_sequence(&self, other: &StoreIndex) -> bool {
        &&& self.streams == other.streams
        &&& self.scan == other.scan
        &&& self.by_id == other.by_id
        &&& self.latest == other.latest
        &&& self.len == other.len
        &&& self.interner == other.interner
    }

    fn insert_row(&mut self, row: Arc<IndexEntry>)
        requires
            old(self).wf(),
        ensures
            final(self).wf(),
            final(self).took(old(self), row),
            final(self).sequence@ == old(self).sequence@,
    {
        let ghost before = *self;
        let ghost entity = row.coord.entity_spec();
        match self.streams.get_mut(row.coord.entity()) {
            Some(stream) => {
                stream.put(Arc::clone(&row));
            },
            None => {
                let mut stream = ClockStream::new();
                stream.put(Arc::clone(&row));
                self.streams.insert(row.coord.entity(), stream);
            },
        }
        proof {
            let new = self.streams.entries();
            let old_e = before.streams.entries();
            assert(super::stream::is_put(new[entity]@, before.stream_rows(entity), row));
            assert forall|e: Seq<char>| #[trigger] new.contains_key(
                e,
            ) implies super::stream::keys_ascend(new[e]@) by {
                if e != entity {
                    assert(old_e.contains_key(e));
                    assert(new[e] == old_e[e]);
                }
            }
        }
        self.scan.insert(&row);
        self.by_id.insert(row.event_id, Arc::clone(&row));
        self.latest.insert(row.coord.entity(), Arc::clone(&row));
        self.len = self.len.wrapping_add(1);
    }

    /// Insert one event into every view and advance the allocator by one.
    pub fn insert(&mut self, entry: IndexEntry)
        requires
            old(self).wf(),
        ensures
            final(self).wf(),
            exists|row: Arc<IndexEntry>| *row == entry && #[trigger] final(self).took(
                old(self),
                row,
            ),
            final(self).sequence@ == (super::gate::GateState {
                allocated: super::gate::next_count(old(self).sequence@.allocated),
                ..old(self).sequence@
            }),
            old(self).coherent() && !old(self).by_id.entries().contains_key(entry.event_id)
                ==> final(self).coherent(),
    {
        let ghost before = *self;
        let row = Arc::new(entry);
        let ghost r = row;
        self.insert_row(row);
        let ghost mid = *self;
        self.sequence.advance();
        proof {
            assert(mid.took(&before, r));
            assert(self.took(&before, r)) by {
                assert(forall|e: Seq<char>| #[trigger] self.has_stream(e) == mid.has_stream(e));
                assert(forall|e: Seq<char>| #[trigger]
                    self.stream_rows(e) == mid.stream_rows(e));
            }
            if before.coherent() && !before.by_id.entries().contains_key(entry.event_id) {
                lemma_took_is_coherent(self, &before, r);
            }
        }
    }

    /// Insert a batch of events, whose sequences were reserved before, into
    /// every view.
    pub fn insert_batch(&mut self, entries: Vec<IndexEntry>)
        requires
            old(self).wf(),
        ensures
            final(self).wf(),
            final(self).sequence@ == old(self).sequence@,
            exists|states: Seq<StoreIndex>| #[trigger]
                is_batch(states, *old(self), *final(self), entries@),
            old(self).coherent() && ids_fresh(old(self), entries@) ==> final(self).coherent(),
    {
        let ghost before = *self;
        let ghost all = entries@;
        let ghost mut states: Seq<StoreIndex> = seq![*self];
        for entry in it: entries.into_iter()
            invariant
                it.seq() == all,
                self.wf(),
                self.sequence@ == before.sequence@,
                is_batch(states, before, *self, all.take(it.index() as int)),
                before.coherent() && ids_fresh(&before, all) ==> {
                    &&& self.coherent()
                    &&& forall|x: Arc<IndexEntry>| #[trigger]
                        self.holds(x) ==> before.holds(x) || exists|j: int|
                            0 <= j < it.index() && (#[trigger] all[j]).event_id == x.event_id
                },
        {
            let ghost prior = *self;
            let ghost k = it.index() as int;
            let row = Arc::new(entry);
            let ghost r = row;
            self.insert_row(row);
            proof {
                assert(*r == all[k]);
                states = states.push(*self);
                assert(self.took(&prior, r));
                let taken = all.take(k + 1);
                assert forall|j: int| 0 <= j < taken.len() implies #[trigger] stepped(
                    states[j],
                    states[j + 1],
                    taken[j],
                ) by {
                    if j < k {
                        assert(stepped(states[j], states[j + 1], all.take(k)[j]));
                    }
                }
                if before.coherent() && ids_fresh(&before, all) {
                    if prior.by_id.entries().contains_key(r.event_id) {
                        let x = prior.by_id.entries()[r.event_id];
                        assert(prior.holds(x));
                        if before.holds(x) {
                            assert(before.by_id.entries().contains_key(all[k].event_id));
                        } else {
                            let j = choose|j: int|
                                0 <= j < k && (#[trigger] all[j]).event_id == x.event_id;
                            assert(all[j].event_id == all[k].event_id);
                        }
                    }
                    lemma_took_is_coherent(self, &prior, r);
                }
            }
        }
        proof {
            assert(all.take(all.len() as int) =~= all);
        }
    }

    /// Drop every event, and rebuild all views from sorted entries. Nothing is
    /// visible yet.
    fn rebuild(
        &mut self,
        entries: Vec<IndexEntry>,
        chunk_count: usize,
        routing_hint: Option<&RoutingSummary>,
    ) -> (base: RestoreBase)
        requires
            old(self).wf(),
        ensures
            base.prepares(entries@, chunk_count as int, routing_hint),
            final(self).restored(&base, old(self)),
            final(self).sequence@ == super::gate::GateState::fresh(old(self).sequence@.epoch),
    {
        self.streams.clear();
        self.scan.clear();
        self.by_id.clear();
        self.latest.clear();
        self.sequence.clear();
        let ghost old_self = *old(self);
        let ghost given = entries@;
        let base = RestoreBase::from_sorted_entries(entries, chunk_count, routing_hint);
        proof {
            base.lemma_runs(given, chunk_count as int, routing_hint);
        }
        let ghost runs = base.routing.entity_runs@;
        let ghost by_entity = base.entries_by_entity@;
        let ghost by_sequence = base.entries_by_sequence@;
        assert(base.entries_by_entity.len() == by_entity.len());
        let ghost cleared = *self;
        let mut r: usize = 0;
        while r < base.routing.entity_runs.len()
            invariant
                runs == base.routing.entity_runs@,
                by_entity == base.entries_by_entity@,
                by_entity.len() <= usize::MAX,
                r <= runs.len(),
                forall|i: int| 0 <= i < runs.len() ==> super::restore::is_run(
                    #[trigger] runs[i],
                    by_entity,
                ),
                self.streams.wf(),
                self.latest.wf(),
                self.scan == cleared.scan,
                self.by_id == cleared.by_id,
                self.sequence == cleared.sequence,
                self.interner == cleared.interner,
                streams_from_runs(self, runs.take(r as int), by_entity),
                forall|e: Seq<char>| #[trigger]
                    self.streams.entries().contains_key(e) ==> super::stream::keys_ascend(
                        self.streams.entries()[e]@,
                    ),
            decreases runs.len() - r,
        {
            let ghost before = *self;
            let run: &EntityRun = &base.routing.entity_runs[r];
            assert(super::restore::is_run(runs[r as int], by_entity));
            let start: usize = run.start as usize;
            let end: usize = start + run.len as usize;
            let ghost slice = by_entity.subrange(start as int, end as int);
            let mut stream = ClockStream::new();
            let mut k: usize = start;
            assert(slice.take(0) =~= Seq::<Arc<IndexEntry>>::empty());
            while k < end
                invariant
                    by_entity == base.entries_by_entity@,
                    start <= k <= end <= by_entity.len(),
                    slice == by_entity.subrange(start as int, end as int),
                    super::stream::keyed(stream@, slice.take(k - start)),
                decreases end - k,
            {
                let ghost prior = stream@;
                stream.put(Arc::clone(&base.entries_by_entity[k]));
                proof {
                    let row = by_entity[k as int];
                    assert(slice.take(k + 1 - start) =~= slice.take(k - start).push(row));
                    super::stream::lemma_keyed_put(stream@, prior, slice.take(k - start), row);
                }
                k += 1;
            }
            assert(slice.take(slice.len() as int) =~= slice);
            self.latest.insert(
                base.entries_by_entity[start].coord.entity(),
                Arc::clone(&base.entries_by_entity[end - 1]),
            );
            self.streams.insert(base.entries_by_entity[start].coord.entity(), stream);
            proof {
                let e = runs[r as int].entity@;
                assert(by_entity[start as int].coord.entity_spec() == e);
                let now = runs.take(r + 1);
                let prev = runs.take(r as int);
                assert(now =~= prev.push(runs[r as int]));
                assert forall|x: Seq<char>| #[trigger] self.has_stream(x) <==> exists|i: int|
                    0 <= i < now.len() && (#[trigger] now[i]).entity@ == x by {
                    if before.has_stream(x) {
                        let i = choose|i: int|
                            0 <= i < prev.len() && (#[trigger] prev[i]).entity@ == x;
                        assert(now[i] == prev[i]);
                    }
                    if x == e {
                        assert(now[r as int].entity@ == x);
                    }
                    if exists|i: int| 0 <= i < now.len() && (#[trigger] now[i]).entity@ == x {
                        let i = choose|i: int|
                            0 <= i < now.len() && (#[trigger] now[i]).entity@ == x;
                        if i < prev.len() {
                            assert(prev[i] == now[i]);
                            assert(before.has_stream(x));
                        }
                    }
                }
                assert forall|x: Seq<char>| #[trigger] self.latest.entries().contains_key(x)
                    <==> self.has_stream(x) by {
                    assert(before.latest.entries().contains_key(x) <==> before.has_stream(x));
                }
                assert forall|i: int|
                    0 <= i < now.len() && is_last_run(now, i) implies #[trigger] run_restored(
                    self,
                    now[i],
                    by_entity,
                ) by {
                    if i < r {
                        assert(now[i] == prev[i]);
                        assert(now[r as int].entity@ != now[i].entity@);
                        assert forall|j: int| i < j < prev.len() implies (
                        #[trigger] prev[j]).entity@ != prev[i].entity@ by {
                            assert(now[j] == prev[j]);
                        }
                        assert(is_last_run(prev, i));
                        assert(run_restored(&before, prev[i], by_entity));
                    } else {
                        assert(slice.last() == by_entity[end - 1]);
                        assert(self.stream_rows(e) == stream@);
                    }
                }
            }
            r += 1;
        }
        assert(runs.take(runs.len() as int) =~= runs);
        let ghost built = *self;
        assert(streams_from_runs(&built, runs, by_entity));
        self.scan.rebuild_from_restore_base(&base.entries_by_sequence, &base.entries_by_entity);
        let ghost mid = *self;
        let mut i: usize = 0;
        while i < base.entries_by_sequence.len()
            invariant
                by_sequence == base.entries_by_sequence@,
                i <= by_sequence.len(),
                self.by_id.wf(),
                self.streams == mid.streams,
                self.scan == mid.scan,
                self.latest == mid.latest,
                self.sequence == mid.sequence,
                self.interner == mid.interner,
                ids_from_rows(self.by_id.entries(), by_sequence.take(i as int)),
            decreases by_sequence.len() - i,
        {
            let row: &Arc<IndexEntry> = &base.entries_by_sequence[i];
            let ghost before = self.by_id.entries();
            self.by_id.insert(row.event_id, Arc::clone(row));
            proof {
                lemma_ids_push(before, by_sequence.take(i as int), by_sequence[i as int]);
                assert(by_sequence.take(i + 1) =~= by_sequence.take(i as int).push(
                    by_sequence[i as int],
                ));
            }
            i += 1;
        }
        assert(by_sequence.take(by_sequence.len() as int) =~= by_sequence);
        self.len = base.entries_by_sequence.len();
        proof {
            assert(forall|e: Seq<char>| #[trigger] self.has_stream(e) == built.has_stream(e));
            assert(forall|e: Seq<char>| #[trigger] self.stream_rows(e) == built.stream_rows(e));
            assert forall|i: int|
                0 <= i < runs.len() && is_last_run(runs, i) implies #[trigger] run_restored(
                self,
                runs[i],
                by_entity,
            ) by {
                assert(run_restored(&built, runs[i], by_entity));
            }
        }
        base
    }

    /// The sequence gate of a restored index: everything up to the next sequence is
    /// allocated and visible.
    pub open spec fn opened(&self, old: &StoreIndex, next: u64) -> bool {
        self.sequence@ == (super::gate::GateState {
            allocated: next,
            visible: next,
            epoch: super::gate::next_count(old.sequence@.epoch),
            ..super::gate::GateState::fresh(old.sequence@.epoch)
        })
    }

    fn open_gate(&mut self, next: u64) -> (r: Result<(), StoreError>)
        requires
            old(self).sequence@ == super::gate::GateState::fresh(old(self).sequence@.epoch),
        ensures
            r is Ok,
            final(self).opened(old(self), next),
            final(self).but_sequence(old(self)),
    {
        self.sequence.restore_allocator(next);
        self.publish(next, "restore_sorted_entries")
    }

    /// Replace the contents by entries that are sorted by sequence, and publish
    /// them once every view is rebuilt.
    fn restore_sorted_entries_impl(
        &mut self,
        entries: Vec<IndexEntry>,
        allocator_hint: u64,
        chunk_count: usize,
        routing_hint: Option<&RoutingSummary>,
    ) -> (r: Result<(), StoreError>)
        requires
            old(self).wf(),
        ensures
            r is Ok,
            exists|base: RestoreBase| #[trigger]
                base.prepares(entries@, chunk_count as int, routing_hint) && final(self).restored(
                    &base,
                    old(self),
                ),
            final(self).opened(old(self), next_after(entries@, allocator_hint)),
    {
        let ghost given = entries@;
        let next: u64 = next_sequence(&entries, allocator_hint);
        let base = self.rebuild(entries, chunk_count, routing_hint);
        let ghost mid = *self;
        let r = self.open_gate(next);
        proof {
            lemma_restored_but_sequence(self, &mid, &base, old(self));
            assert(base.prepares(given, chunk_count as int, routing_hint));
        }
        r
    }

    /// Replace the contents by entries that are sorted by sequence.
    pub fn restore_sorted_entries(&mut self, entries: Vec<IndexEntry>, allocator_hint: u64) -> (r:
        Result<(), StoreError>)
        requires
            old(self).wf(),
        ensures
            r is Ok,
            exists|base: RestoreBase| #[trigger]
                base.prepares(entries@, 1, None) && final(self).restored(&base, old(self)),
            final(self).opened(old(self), next_after(entries@, allocator_hint)),
            ids_distinct(entries@) ==> final(self).coherent(),
    {
        let ghost given = entries@;
        let r = self.restore_sorted_entries_impl(entries, allocator_hint, 1, None);
        proof {
            let base = choose|base: RestoreBase| #[trigger]
                base.prepares(given, 1, None) && self.restored(&base, old(self));
            base.lemma_runs(given, 1, None);
            if ids_distinct(given) {
                law_restored_is_coherent(self, &base, old(self), given, 1, None);
            }
        }
        r
    }

    /// Replace the contents by entries that are sorted by sequence, along a
    /// routing summary where it fits them.
    pub fn restore_sorted_entries_with_routing(
        &mut self,
        entries: Vec<IndexEntry>,
        allocator_hint: u64,
        routing: &RoutingSummary,
    ) -> (r: Result<(), StoreError>)
        requires
            old(self).wf(),
        ensures
            r is Ok,
            exists|base: RestoreBase| #[trigger]
                base.prepares(
                    entries@,
                    routed_chunks(routing.chunk_count),
                    Some(routing),
                ) && final(self).restored(&base, old(self)),
            final(self).opened(old(self), next_after(entries@, allocator_hint)),
    {
        let chunk_count: usize = match to_usize(routing.chunk_count) {
            Some(n) => if n > 1 {
                n
            } else {
                1
            },
            None => 1,
        };
        assert(chunk_count as int == routed_chunks(routing.chunk_count));
        self.restore_sorted_entries_impl(entries, allocator_hint, chunk_count, Some(routing))
    }

    /// Replace the contents by entries that are sorted by sequence, and call
    /// `before_publish` between the rebuild and the publish.
    pub fn restore_sorted_entries_with_before_publish(
        &mut self,
        entries: Vec<IndexEntry>,
        allocator_hint: u64,
        before_publish: impl FnOnce(&Self),
    ) -> (r: Result<(), StoreError>)
        requires
            old(self).wf(),
            forall|index: StoreIndex|
                index.wf() && index.sequence@ == super::gate::GateState::fresh(
                    old(self).sequence@.epoch,
                ) ==> #[trigger] call_requires(before_publish, (&index,)),
        ensures
            r is Ok,
            exists|base: RestoreBase| #[trigger]
                base.prepares(entries@, 1, None) && final(self).restored(&base, old(self)),
            final(self).opened(old(self), next_after(entries@, allocator_hint)),
            exists|index: StoreIndex|
                index.sequence@ == super::gate::GateState::fresh(old(self).sequence@.epoch)
                    && #[trigger] final(self).but_sequence(&index) && call_ensures(
                    before_publish,
                    (&index,),
                    (),
                ),
            ids_distinct(entries@) ==> final(self).coherent(),
    {
        let ghost given = entries@;
        let next: u64 = next_sequence(&entries, allocator_hint);
        let base = self.rebuild(entries, 1, None);
        let ghost mid = *self;
        before_publish(self);
        let r = self.open_gate(next);
        proof {
            lemma_restored_but_sequence(self, &mid, &base, old(self));
            assert(base.prepares(given, 1, None));
            assert(self.but_sequence(&mid));
            base.lemma_runs(given, 1, None);
            if ids_distinct(given) {
                law_restored_is_coherent(self, &base, old(self), given, 1, None);
            }
        }
        r
    }

    /// Advance the bound of what readers see.
    pub fn publish(&mut self, up_to: u64, operation: &'static str) -> (r: Result<(), StoreError>)
        ensures
            r is Ok <==> old(self).sequence@.may_publish(up_to),
            r is Ok ==> final(self).sequence@ == old(self).sequence@.published(up_to),
            r matches Err(e) ==> final(self).sequence@ == old(self).sequence@ && e
                == (StoreError::SequenceGateViolation {
                operation,
                requested: up_to,
                allocated: old(self).sequence@.allocated,
                visible: old(self).sequence@.visible,
            }),
            final(self).but_sequence(old(self)),
    {
        self.sequence.publish(up_to, operation)
    }

    /// Advance the global bound and the bounds of some lanes.
    pub fn publish_on_lanes(
        &mut self,
        up_to: u64,
        lanes: &[(u32, u64)],
        operation: &'static str,
    ) -> (r: Result<(), StoreError>)
        ensures
            r is Ok <==> old(self).sequence@.may_publish(up_to) && old(
                self,
            ).sequence@.may_publish_lanes(lanes@),
            r is Ok ==> final(self).sequence@ == old(self).sequence@.published_on_lanes(
                up_to,
                lanes@,
            ),
            r is Err ==> final(self).sequence@ == old(self).sequence@,
            r matches Err(e) ==> old(self).sequence@.refuses(up_to, lanes@, operation, e),
            final(self).but_sequence(old(self)),
    {
        self.sequence.publish_on_lanes(up_to, lanes, operation)
    }

    /// Copies of all events.
    pub fn all_entries(&self) -> (r: Vec<IndexEntry>)
        requires
            self.wf(),
        ensures
            super::restore::shares(self.id_rows(), r@),
    {
        let mut out: Vec<IndexEntry> = Vec::new();
        let mut i: usize = 0;
        while i < self.by_id.len()
            invariant
                self.wf(),
                i <= self.by_id.order().len(),
                out@.len() == i,
                forall|k: int| 0 <= k < i ==> (#[trigger] out@[k]).same(&self.id_rows()[k]),
            decreases self.by_id.order().len() - i,
        {
            out.push((**self.by_id.value_at(i)).clone());
            i += 1;
        }
        proof {
            assert forall|k: int| 0 <= k < self.id_rows().len() implies (
            #[trigger] self.id_rows()[k]).same(&out@[k]) by {
                assert(out@[k].same(&self.id_rows()[k]));
            }
        }
        out
    }

    /// `point` is the clock point of an event with a global sequence, where
    /// there is one.
    pub open spec fn point_is(&self, global_sequence: u64, point: Option<HlcPoint>) -> bool {
        match point {
            Some(point) => point.global_sequence == global_sequence && exists|i: int|
                0 <= i < self.id_rows().len() && (#[trigger] self.id_rows()[i]).global_sequence
                    == global_sequence && self.id_rows()[i].wall_ms == point.wall_ms,
            None => forall|i: int|
                0 <= i < self.id_rows().len() ==> (#[trigger] self.id_rows()[i]).global_sequence
                    != global_sequence,
        }
    }

    /// The clock point of the event with a global sequence.
    pub fn hlc_for_global_sequence(&self, global_sequence: u64) -> (r: Option<HlcPoint>)
        requires
            self.wf(),
        ensures
            self.point_is(global_sequence, r),
    {
        let mut i: usize = 0;
        while i < self.by_id.len()
            invariant
                self.wf(),
                i <= self.by_id.order().len(),
                forall|k: int|
                    0 <= k < i ==> (#[trigger] self.id_rows()[k]).global_sequence
                        != global_sequence,
            decreases self.by_id.order().len() - i,
        {
            let entry = self.by_id.value_at(i);
            assert(self.id_rows()[i as int] == *entry);
            if entry.global_sequence == global_sequence {
                return Some(HlcPoint { wall_ms: entry.wall_ms, global_sequence });
            }
            i += 1;
        }
        None
    }

    /// Next sequence to be assigned.
    pub fn global_sequence(&self) -> (r: u64)
        ensures
            r == self.sequence@.allocated,
    {
        self.sequence.allocated()
    }

    /// Exclusive upper bound of what readers see.
    pub fn visible_sequence(&self) -> (r: u64)
        ensures
            r == self.sequence@.visible,
    {
        self.sequence.visible()
    }

    /// Number of events.
    pub fn len(&self) -> (n: usize)
        ensures
            n == self.len,
    {
        self.len
    }

    /// This index is `before` after its contents were replaced by those of
    /// another: its bounds too, where the other's are in order.
    pub open spec fn replaced_by(
        &self,
        before: &StoreIndex,
        fresh: &StoreIndex,
        r: Result<(), StoreError>,
    ) -> bool {
        &&& self.streams == fresh.streams
        &&& self.by_id == fresh.by_id
        &&& self.latest == fresh.latest
        &&& self.interner.strings() == fresh.interner.strings()
        &&& exists|scans: Seq<ScanIndex>| #[trigger]
            is_filling(scans, before.scan, self.scan, fresh.id_rows())
        &&& r is Ok <==> fresh.sequence@.visible <= fresh.sequence@.allocated
        &&& r is Ok ==> self.len == fresh.by_id.order().len() && self.sequence@ == (
        super::gate::GateState {
            allocated: fresh.sequence@.allocated,
            visible: fresh.sequence@.visible,
            cancelled: super::visibility::with_ranges(Seq::empty(), fresh.sequence@.cancelled),
            lane_cancelled: super::visibility::merged_lanes(
                Map::empty(),
                fresh.sequence@.lane_cancelled,
            ),
            epoch: super::gate::next_count(before.sequence@.epoch),
            ..super::gate::GateState::fresh(before.sequence@.epoch)
        })
        &&& r matches Err(e) ==> self.len == 0 && self.sequence@ == (super::gate::GateState {
            allocated: fresh.sequence@.allocated,
            ..super::gate::GateState::fresh(before.sequence@.epoch)
        }) && e == (StoreError::SequenceGateViolation {
            operation: "replace_contents_from_fresh",
            requested: fresh.sequence@.visible,
            allocated: fresh.sequence@.allocated,
            visible: 0,
        })
    }

    /// Take over the contents of a freshly built index, keeping the own
    /// topology.
    pub fn replace_contents_from_fresh(&mut self, fresh: StoreIndex) -> (r: Result<
        (),
        StoreError,
    >)
        requires
            old(self).wf(),
            fresh.wf(),
        ensures
            final(self).wf(),
            final(self).replaced_by(old(self), &fresh, r),
            r is Ok && fresh.coherent() ==> final(self).coherent(),
    {
        let ghost before = *self;
        self.scan.clear();
        self.sequence.clear();
        self.len = 0;
        let strings = fresh.interner.to_snapshot();
        let mut full: Vec<String> = Vec::new();
        let sentinel: &str = "";
        proof {
            reveal_strlit("");
            assert(sentinel@ =~= Seq::<char>::empty());
            fresh.interner.lemma_strings();
        }
        full.push(sentinel.to_owned());
        let mut k: usize = 0;
        while k < strings.len()
            invariant
                super::interner::string_views(strings@) == fresh.interner.strings(),
                k <= strings@.len(),
                super::interner::string_views(full@) == seq![Seq::<char>::empty()]
                    + super::interner::string_views(strings@).take(k as int),
            decreases strings@.len() - k,
        {
            let ghost views = super::interner::string_views(strings@);
            let ghost so_far = full@;
            full.push(strings[k].clone());
            assert(views[k as int] == strings@[k as int]@);
            assert(super::interner::string_views(full@) =~= super::interner::string_views(
                so_far,
            ).push(views[k as int]));
            assert(super::interner::string_views(full@) =~= seq![Seq::<char>::empty()]
                + views.take(k + 1));
            k += 1;
        }
        proof {
            let views = super::interner::string_views(strings@);
            assert(views.take(views.len() as int) =~= views);
            let all = super::interner::string_views(full@);
            assert(all.len() == views.len() + 1);
            assert forall|i: int, j: int| 0 <= i < all.len() && 0 <= j < all.len() && i
                != j implies all[i] != all[j] by {
                if i == 0 {
                    assert(views.contains(views[j - 1]));
                } else if j == 0 {
                    assert(views.contains(views[i - 1]));
                } else {
                    assert(all[i] == views[i - 1] && all[j] == views[j - 1]);
                }
            }
            assert(all.skip(1) =~= views);
        }
        self.interner.replace_from_full_snapshot(&full);
        let fresh_allocated: u64 = fresh.sequence.allocated();
        let fresh_visible: u64 = fresh.sequence.visible();
        let fresh_cancelled = fresh.sequence.cancelled_ranges_snapshot();
        let ghost source = fresh;
        let ghost rows = fresh.id_rows();
        self.streams = fresh.streams;
        self.by_id = fresh.by_id;
        self.latest = fresh.latest;
        let ghost mut scans: Seq<ScanIndex> = seq![self.scan];
        let mut i: usize = 0;
        proof {
            self.by_id.lemma_order();
            lemma_cleared_scan_holds(&self.scan, &before.scan, rows.take(0));
        }
        while i < self.by_id.len()
            invariant
                self.by_id == source.by_id,
                self.streams == source.streams,
                self.latest == source.latest,
                self.interner.wf(),
                self.interner.strings() == source.interner.strings(),
                self.len == 0,
                source.wf(),
                self.sequence@ == super::gate::GateState::fresh(before.sequence@.epoch),
                rows == source.id_rows(),
                self.scan.wf(),
                i <= rows.len(),
                is_filling(scans, before.scan, self.scan, rows.take(i as int)),
                source.coherent() ==> scan_holds(&self.scan, rows.take(i as int)),
            decreases rows.len() - i,
        {
            let ghost prior = self.scan;
            let row = Arc::clone(self.by_id.value_at(i));
            self.scan.insert(&row);
            proof {
                assert(row == rows[i as int]);
                scans = scans.push(self.scan);
                let taken = rows.take(i + 1);
                assert(taken =~= rows.take(i as int).push(row));
                assert forall|j: int| 0 <= j < taken.len() implies #[trigger] filled(
                    scans[j],
                    scans[j + 1],
                    taken[j],
                ) by {
                    if j < i {
                        assert(filled(scans[j], scans[j + 1], rows.take(i as int)[j]));
                    }
                }
                if source.coherent() {
                    assert forall|j: int| 0 <= j < i implies (
                    #[trigger] rows.take(i as int)[j]).event_id != row.event_id by {
                        source.by_id.lemma_order();
                        let order = source.by_id.order();
                        assert(order[j] != order[i as int]);
                        assert(source.by_id.entries().contains_key(order[j]));
                        assert(source.by_id.entries().contains_key(order[i as int]));
                    }
                    lemma_scan_step(&self.scan, &prior, rows.take(i as int), row);
                }
            }
            i += 1;
        }
        assert(rows.take(rows.len() as int) =~= rows);
        assert(is_filling(scans, before.scan, self.scan, rows));
        self.sequence.restore_allocator(fresh_allocated);
        match self.sequence.publish(fresh_visible, "replace_contents_from_fresh") {
            Ok(()) => {},
            Err(e) => {
                return Err(e);
            },
        }
        self.sequence.restore_cancelled_ranges(&fresh_cancelled);
        self.len = self.by_id.len();
        proof {
            if source.coherent() {
                lemma_transferred_is_coherent(self, &source);
            }
        }
        Ok(())
    }

    /// Name of the topology.
    pub fn topology_name(&self) -> (name: &'static str)
        requires
            self.wf(),
        ensures
            name@ == super::scan::topology_label(self.scan.topology()),
    {
        self.scan.topology_name()
    }

    /// Number of tiles.
    pub fn tile_count(&self) -> (n: usize)
        requires
            self.wf(),
        ensures
            n == self.scan.tile_total(),
    {
        self.scan.tile_count()
    }

    /// Begin a visibility fence and return its token.
    pub fn begin_visibility_fence(&mut self) -> (r: Result<u64, StoreError>)
        ensures
            r is Ok <==> old(self).sequence@.fence == 0,
            r matches Ok(token) ==> token == old(self).sequence@.next_token && final(self).sequence@
                == (super::gate::GateState {
                fence: token,
                fence_start: u64::MAX,
                fence_end: 0,
                next_token: super::gate::next_count(token),
                ..old(self).sequence@
            }),
            r matches Err(e) ==> e == StoreError::VisibilityFenceActive && final(self).sequence@
                == (super::gate::GateState {
                next_token: super::gate::next_count(old(self).sequence@.next_token),
                ..old(self).sequence@
            }),
            final(self).but_sequence(old(self)),
    {
        self.sequence.begin_fence()
    }

    /// Token of the active fence.
    pub fn active_visibility_fence(&self) -> (r: Option<u64>)
        ensures
            r == (if self.sequence@.fence != 0 {
                Some(self.sequence@.fence)
            } else {
                None
            }),
    {
        self.sequence.active_fence_token()
    }

    /// End a fence, publishing what it staged where a bound is given.
    pub fn finish_visibility_fence(&mut self, token: u64, publish_to: Option<u64>) -> (r: Result<
        (),
        StoreError,
    >)
        ensures
            r is Ok <==> old(self).sequence@.fence == token && (publish_to matches Some(up_to)
                ==> old(self).sequence@.may_publish(up_to)),
            r is Ok ==> final(self).sequence@ == (match publish_to {
                Some(up_to) => old(self).sequence@.published(up_to).without_fence(),
                None => old(self).sequence@.without_fence(),
            }),
            r is Err ==> final(self).sequence@ == old(self).sequence@,
            r matches Err(e) ==> if old(self).sequence@.fence != token {
                e == StoreError::VisibilityFenceNotActive
            } else {
                e == (StoreError::SequenceGateViolation {
                    operation: "finish_visibility_fence",
                    requested: publish_to->0,
                    allocated: old(self).sequence@.allocated,
                    visible: old(self).sequence@.visible,
                })
            },
            final(self).but_sequence(old(self)),
    {
        let lanes: [(u32, u64); 0] = [];
        let r = self.sequence.finish_fence_on_lanes(token, publish_to, &lanes);
        assert(lanes@ =~= Seq::<(u32, u64)>::empty());
        r
    }

    /// Widen the range of the active fence.
    pub fn note_visibility_fence_progress(&mut self, token: u64, start: u64, end: u64) -> (r:
        Result<(), StoreError>)
        ensures
            r is Ok <==> old(self).sequence@.fence == token,
            r is Ok ==> final(self).sequence@ == (super::gate::GateState {
                fence_start: if start < old(self).sequence@.fence_start {
                    start
                } else {
                    old(self).sequence@.fence_start
                },
                fence_end: if end > old(self).sequence@.fence_end {
                    end
                } else {
                    old(self).sequence@.fence_end
                },
                ..old(self).sequence@
            }),
            r matches Err(e) ==> e == StoreError::VisibilityFenceNotActive && final(self).sequence@ == old(self).sequence@,
            final(self).but_sequence(old(self)),
    {
        self.sequence.note_fence_progress(token, start, end)
    }

    /// Cancel a fence: what it staged stays hidden, on every lane that it
    /// touched and globally.
    pub fn cancel_visibility_fence(&mut self, token: u64) -> (r: Result<(), StoreError>)
        requires
            old(self).wf(),
        ensures
            final(self).wf(),
            r is Ok <==> old(self).sequence@.fence == token,
            r is Ok ==> final(self).sequence@ == old(self).sequence@.fence_cancelled(
                match old(self).sequence@.fence_range() {
                    Some(range) => fenced_lanes(old(self).id_rows(), range.0, range.1),
                    None => Map::empty(),
                },
            ),
            r matches Err(e) ==> e == StoreError::VisibilityFenceNotActive && final(self).sequence@ == old(self).sequence@,
            final(self).but_sequence(old(self)),
    {
        let lanes = match self.sequence.active_fence_range() {
            Some(range) => self.fenced_lane_ranges(range.0, range.1),
            None => BTreeMap::new(),
        };
        proof {
            if self.sequence@.fence_range() is None {
                assert(super::visibility::lanes_view(lanes@) =~= Map::empty());
            }
        }
        self.sequence.cancel_fence(token, &lanes)
    }

    /// For each lane, the one-event ranges of its events in `[start, end)`.
    fn fenced_lane_ranges(&self, start: u64, end: u64) -> (lanes: BTreeMap<u32, Vec<(u64, u64)>>)
        requires
            self.wf(),
        ensures
            super::visibility::lanes_view(lanes@) == fenced_lanes(self.id_rows(), start, end),
    {
        broadcast use vstd::std_specs::btree::group_btree_axioms;

        let ghost rows = self.id_rows();
        let mut lanes: BTreeMap<u32, Vec<(u64, u64)>> = BTreeMap::new();
        let mut i: usize = 0;
        assert(super::visibility::lanes_view(lanes@) =~= fenced_lanes(rows.take(0), start, end));
        while i < self.by_id.len()
            invariant
                self.wf(),
                rows == self.id_rows(),
                i <= rows.len(),
                super::visibility::lanes_view(lanes@) == fenced_lanes(
                    rows.take(i as int),
                    start,
                    end,
                ),
            decreases rows.len() - i,
        {
            broadcast use vstd::std_specs::btree::group_btree_axioms;

            let entry = self.by_id.value_at(i);
            let ghost before = lanes@;
            proof {
                assert(*entry == rows[i as int]);
                assert(rows.take(i + 1).drop_last() =~= rows.take(i as int));
            }
            let sequence: u64 = entry.global_sequence;
            if start <= sequence && sequence < end {
                let lane: u32 = entry.dag_lane;
                let mut ranges: Vec<(u64, u64)> = match lanes.get(&lane) {
                    Some(ranges) => super::visibility::copy_ranges(ranges),
                    None => Vec::new(),
                };
                ranges.push((sequence, sequence + 1));
                lanes.insert(lane, ranges);
                proof {
                    let prior = fenced_lanes(rows.take(i as int), start, end);
                    assert(prior.contains_key(lane) == before.contains_key(lane));
                    assert(super::visibility::lanes_view(lanes@) =~= prior.insert(
                        lane,
                        super::visibility::lane_ranges_of(prior, lane).push(
                            (sequence, (sequence + 1) as u64),
                        ),
                    ));
                }
            }
            i += 1;
        }
        assert(rows.take(rows.len() as int) =~= rows);
        lanes
    }

    /// The hidden ranges.
    pub fn cancelled_visibility_ranges(&self) -> (r: CancelledVisibilityRanges)
        ensures
            r.global@ == self.sequence@.cancelled,
            super::visibility::lanes_view(r.lanes@) == self.sequence@.lane_cancelled,
    {
        self.sequence.cancelled_ranges_snapshot()
    }

    /// Replace the hidden ranges.
    pub fn restore_cancelled_visibility_ranges(&mut self, ranges: &CancelledVisibilityRanges)
        ensures
            final(self).sequence@.wf(),
            final(self).sequence@ == (super::gate::GateState {
                cancelled: super::visibility::with_ranges(Seq::empty(), ranges.global@),
                lane_cancelled: super::visibility::merged_lanes(
                    Map::empty(),
                    super::visibility::lanes_view(ranges.lanes@),
                ),
                ..old(self).sequence@
            }),
            final(self).but_sequence(old(self)),
    {
        self.sequence.restore_cancelled_ranges(ranges);
    }

    /// Every view holds the entries of a restore.
    pub open spec fn restored(&self, base: &RestoreBase, old: &StoreIndex) -> bool {
        &&& self.wf()
        &&& streams_from_runs(self, base.routing.entity_runs@, base.entries_by_entity@)
        &&& ids_from_rows(self.by_id.entries(), base.entries_by_sequence@)
        &&& self.scan.rebuilt_from(
            &old.scan,
            base.entries_by_sequence@,
            base.entries_by_entity@,
        )
        &&& self.len == base.entries_by_sequence@.len()
        &&& self.interner == old.interner
    }
}

/// One step of a batch: a row with the entry's value was taken.
pub open spec fn stepped(a: StoreIndex, b: StoreIndex, entry: IndexEntry) -> bool {
    exists|row: Arc<IndexEntry>| *row == entry && #[trigger] b.took(&a, row)
}

/// The states lead from one index to another, taking one entry at a time.
pub open spec fn is_batch(
    states: Seq<StoreIndex>,
    first: StoreIndex,
    last: StoreIndex,
    entries: Seq<IndexEntry>,
) -> bool {
    &&& states.len() == entries.len() + 1
    &&& states[0] == first
    &&& states[entries.len() as int] == last
    &&& forall|i: int|
        0 <= i < entries.len() ==> #[trigger] stepped(states[i], states[i + 1], entries[i])
}

/// The entries have ids of their own that the index does not hold.
pub open spec fn ids_fresh(index: &StoreIndex, entries: Seq<IndexEntry>) -> bool {
    &&& forall|i: int|
        0 <= i < entries.len() ==> !index.by_id.entries().contains_key(
            (#[trigger] entries[i]).event_id,
        )
    &&& forall|i: int, j: int|
        0 <= i < j < entries.len() ==> (#[trigger] entries[i]).event_id != (
        #[trigger] entries[j]).event_id
}

/// No later run has the entity of this one.
pub open spec fn is_last_run(runs: Seq<EntityRun>, i: int) -> bool {
    forall|j: int| i < j < runs.len() ==> (#[trigger] runs[j]).entity@ != runs[i].entity@
}

/// The rows of a run.
pub open spec fn run_rows(run: EntityRun, by_entity: Seq<Arc<IndexEntry>>) -> Seq<
    Arc<IndexEntry>,
> {
    by_entity.subrange(run.start as int, run.start + run.len)
}

/// The stream and the chain head of a run's entity are those of the run.
pub open spec fn run_restored(
    index: &StoreIndex,
    run: EntityRun,
    by_entity: Seq<Arc<IndexEntry>>,
) -> bool {
    &&& super::stream::keyed(index.stream_rows(run.entity@), run_rows(run, by_entity))
    &&& index.latest.entries()[run.entity@] == by_entity[run.start + run.len - 1]
}

/// Streams and chain heads are those of the runs, later runs first.
pub open spec fn streams_from_runs(
    index: &StoreIndex,
    runs: Seq<EntityRun>,
    by_entity: Seq<Arc<IndexEntry>>,
) -> bool {
    &&& forall|e: Seq<char>| #[trigger]
        index.has_stream(e) <==> exists|i: int|
            0 <= i < runs.len() && (#[trigger] runs[i]).entity@ == e
    &&& forall|e: Seq<char>| #[trigger]
        index.latest.entries().contains_key(e) <==> index.has_stream(e)
    &&& forall|i: int|
        0 <= i < runs.len() && is_last_run(runs, i) ==> #[trigger] run_restored(
            index,
            runs[i],
            by_entity,
        )
}

/// The sequence after the last entry, or the hint where that is greater.
pub open spec fn next_after(entries: Seq<IndexEntry>, hint: u64) -> u64 {
    if entries.len() == 0 {
        hint
    } else if entries.last().global_sequence == u64::MAX {
        u64::MAX
    } else if entries.last().global_sequence + 1 > hint {
        (entries.last().global_sequence + 1) as u64
    } else {
        hint
    }
}

/// Number of chunks that a summary asks for: at least one.
pub open spec fn routed_chunks(chunk_count: u64) -> int {
    if 1 <= chunk_count <= usize::MAX {
        chunk_count as int
    } else {
        1
    }
}

/// No two entries share an id.
pub open spec fn ids_distinct(entries: Seq<IndexEntry>) -> bool {
    forall|i: int, j: int|
        0 <= i < j < entries.len() ==> (#[trigger] entries[i]).event_id != (
        #[trigger] entries[j]).event_id
}

fn next_sequence(entries: &Vec<IndexEntry>, hint: u64) -> (next: u64)
    ensures
        next == next_after(entries@, hint),
{
    let n: usize = entries.len();
    if n == 0 {
        return hint;
    }
    let last: u64 = entries[n - 1].global_sequence;
    let tail: u64 = last.saturating_add(1);
    if tail > hint {
        tail
    } else {
        hint
    }
}

proof fn lemma_restored_but_sequence(
    new: &StoreIndex,
    mid: &StoreIndex,
    base: &RestoreBase,
    old: &StoreIndex,
)
    requires
        mid.restored(base, old),
        new.but_sequence(mid),
        new.sequence@.wf(),
    ensures
        new.restored(base, old),
{
    assert(forall|e: Seq<char>| #[trigger] new.has_stream(e) == mid.has_stream(e));
    assert(forall|e: Seq<char>| #[trigger] new.stream_rows(e) == mid.stream_rows(e));
    let runs = base.routing.entity_runs@;
    assert forall|i: int|
        0 <= i < runs.len() && is_last_run(runs, i) implies #[trigger] run_restored(
        new,
        runs[i],
        base.entries_by_entity@,
    ) by {
        assert(run_restored(mid, runs[i], base.entries_by_entity@));
    }
}

proof fn lemma_run_starts(runs: Seq<EntityRun>, by_entity: Seq<Arc<IndexEntry>>, i: int, j: int)
    requires
        super::restore::are_runs(runs, by_entity, by_entity.len() as int),
        0 <= i < j < runs.len(),
    ensures
        runs[i].start + runs[i].len <= runs[j].start,
    decreases j - i,
{
    assert(runs[j].start == runs[j - 1].start + runs[j - 1].len);
    if i < j - 1 {
        lemma_run_starts(runs, by_entity, i, j - 1);
    }
}

/// The runs of entries in entity order name distinct entities.
proof fn lemma_runs_distinct(runs: Seq<EntityRun>, by_entity: Seq<Arc<IndexEntry>>, i: int, j: int)
    requires
        super::restore::are_runs(runs, by_entity, by_entity.len() as int),
        crate::sort::ranked(by_entity),
        0 <= i < j < runs.len(),
    ensures
        runs[i].entity@ != runs[j].entity@,
{
    lemma_run_starts(runs, by_entity, i, i + 1);
    if i + 1 < j {
        lemma_run_starts(runs, by_entity, i + 1, j);
    }
    assert(super::restore::is_run(runs[i], by_entity));
    assert(super::restore::is_run(runs[i + 1], by_entity));
    assert(super::restore::is_run(runs[j], by_entity));
    assert(runs[i + 1].entity@ != runs[i].entity@);
    if runs[i].entity@ == runs[j].entity@ {
        let p = by_entity[runs[i].start as int];
        let q = by_entity[runs[i + 1].start as int];
        let r = by_entity[runs[j].start as int];
        assert(<Arc<IndexEntry> as crate::sort::Ranked>::rank_le(p, q));
        assert(<Arc<IndexEntry> as crate::sort::Ranked>::rank_le(q, r));
        assert(p.coord.entity_spec() == r.coord.entity_spec());
        if p.entity_bytes() == q.entity_bytes() {
            crate::text::law_utf8_injective(p.coord.entity_spec(), q.coord.entity_spec());
        }
        crate::text::lemma_bytes_before_asymmetric(p.entity_bytes(), q.entity_bytes());
    }
}

/// Every entry lies in a run.
proof fn lemma_runs_cover(
    runs: Seq<EntityRun>,
    by_entity: Seq<Arc<IndexEntry>>,
    k: int,
    n: int,
) -> (i: int)
    requires
        super::restore::are_runs(runs, by_entity, by_entity.len() as int),
        0 < n <= runs.len(),
        0 <= k < runs[n - 1].start + runs[n - 1].len,
    ensures
        0 <= i < runs.len(),
        runs[i].start <= k < runs[i].start + runs[i].len,
    decreases n,
{
    if runs[n - 1].start <= k {
        n - 1
    } else {
        assert(n > 1);
        assert(runs[n - 1].start == runs[n - 2].start + runs[n - 2].len);
        lemma_runs_cover(runs, by_entity, k, n - 1)
    }
}

/// No two rows share an id.
pub open spec fn row_ids_distinct(rows: Seq<Arc<IndexEntry>>) -> bool {
    forall|i: int, j: int|
        0 <= i < j < rows.len() ==> (#[trigger] rows[i]).event_id != (#[trigger] rows[j]).event_id
}

proof fn lemma_distinct_kind_rows(rows: Seq<Arc<IndexEntry>>, kind: EventKind)
    requires
        row_ids_distinct(rows),
    ensures
        row_ids_distinct(super::scan::kind_rows(rows, kind)),
        forall|x: Arc<IndexEntry>| #[trigger]
            super::scan::kind_rows(rows, kind).contains(x) <==> rows.contains(x) && x.kind == kind,
    decreases rows.len(),
{
    reveal(Seq::filter);
    if rows.len() > 0 {
        let head = rows.drop_last();
        let last = rows.last();
        assert(row_ids_distinct(head)) by {
            assert forall|i: int, j: int| 0 <= i < j < head.len() implies (
            #[trigger] head[i]).event_id != (#[trigger] head[j]).event_id by {
                assert(rows[i].event_id != rows[j].event_id);
            }
        }
        lemma_distinct_kind_rows(head, kind);
        let a = super::scan::kind_rows(head, kind);
        let b = super::scan::kind_rows(rows, kind);
        assert forall|x: Arc<IndexEntry>| rows.contains(x) <==> head.contains(x) || x == last by {
            if rows.contains(x) {
                let i = rows.index_of(x);
                if i < head.len() {
                    assert(head[i] == x);
                }
            }
            if head.contains(x) {
                let i = head.index_of(x);
                assert(rows[i] == x);
            }
            assert(rows[rows.len() - 1] == last);
        }
        if last.kind == kind {
            assert(b == a.push(last));
            assert forall|i: int, j: int| 0 <= i < j < b.len() implies (#[trigger] b[i]).event_id
                != (#[trigger] b[j]).event_id by {
                if j == a.len() {
                    assert(a.contains(b[i]));
                    let p = head.index_of(b[i]);
                    assert(rows[p].event_id != rows[rows.len() - 1].event_id);
                } else {
                    assert(a[i].event_id != a[j].event_id);
                }
            }
            assert forall|x: Arc<IndexEntry>| #[trigger]
                b.contains(x) <==> rows.contains(x) && x.kind == kind by {
                if b.contains(x) {
                    let i = b.index_of(x);
                    if i < a.len() {
                        assert(a[i] == x);
                        assert(a.contains(x));
                    }
                }
                if a.contains(x) {
                    let i = a.index_of(x);
                    assert(b[i] == x);
                }
                assert(b[a.len() as int] == last);
            }
        } else {
            assert(b == a);
        }
    }
}

/// A restore of entries with distinct ids leaves a coherent index, as long as
/// the runs that it followed are the runs of the entries.
pub proof fn law_restored_is_coherent(
    new: &StoreIndex,
    base: &RestoreBase,
    old: &StoreIndex,
    entries: Seq<IndexEntry>,
    chunk_count: int,
    routing_hint: Option<&RoutingSummary>,
)
    requires
        base.prepares(entries, chunk_count, routing_hint),
        new.restored(base, old),
        old.scan.wf(),
        ids_distinct(entries),
        super::restore::are_runs(
            base.routing.entity_runs@,
            base.entries_by_entity@,
            base.entries_by_entity@.len() as int,
        ),
    ensures
        new.coherent(),
        forall|x: Arc<IndexEntry>| #[trigger]
            new.holds(x) <==> base.entries_by_sequence@.contains(x),
{
    let rows = base.entries_by_sequence@;
    let by_entity = base.entries_by_entity@;
    assert forall|i: int, j: int| 0 <= i < j < rows.len() implies (#[trigger] rows[i]).event_id
        != (#[trigger] rows[j]).event_id by {
        assert(*rows[i] == entries[i]);
        assert(*rows[j] == entries[j]);
    }
    assert(settled(new, base, old));
    lemma_settled_holds(new, base, old);
    assert forall|e: Seq<char>, x: Arc<IndexEntry>| #[trigger]
        new.stream_rows(e).contains(x) <==> new.holds(x) && x.coord.entity_spec() == e by {
        lemma_settled_stream(new, base, old, e, x);
    }
    assert forall|e: Seq<char>| #[trigger] new.has_stream(e) implies new.stream_rows(e).len()
        > 0 by {
        lemma_settled_has_rows(new, base, old, e);
    }
    assert forall|k: EventKind, x: Arc<IndexEntry>| #[trigger]
        new.scan.facts(k).contains(x) <==> new.holds(x) && x.kind == k by {
        lemma_distinct_kind_rows(rows, k);
        assert(super::scan::rebuilt_stream(new.scan.facts(k), rows, k));
        super::stream::lemma_keyed_distinct(
            new.scan.facts(k),
            super::scan::kind_rows(rows, k),
        );
    }
    lemma_settled_scopes(new, base, old);
    rows.lemma_multiset_has_no_duplicates();
    lemma_overlay_restored(
        new,
        new.scan.flat_overlay(),
        old.scan.flat_overlay(),
        rows,
        by_entity,
    );
    lemma_overlay_restored(
        new,
        new.scan.group_overlay(),
        old.scan.group_overlay(),
        rows,
        by_entity,
    );
    lemma_overlay_restored(
        new,
        new.scan.tile_overlay(),
        old.scan.tile_overlay(),
        rows,
        by_entity,
    );
    lemma_overlay_restored(
        new,
        new.scan.mixed_overlay(),
        old.scan.mixed_overlay(),
        rows,
        by_entity,
    );
    new.scan.lemma_group_layout();
    lemma_settled_groups(new, base, old);
    assert forall|e: Seq<char>| #[trigger] new.latest.entries().contains_key(
        e,
    ) implies new.holds(new.latest.entries()[e]) && new.latest.entries()[e].coord.entity_spec()
        == e by {
        lemma_settled_head(new, base, old, e);
    }
    lemma_settled_count(new, base, old);
}

/// The groups of a restore hold every event of their entity once.
proof fn lemma_settled_groups(new: &StoreIndex, base: &RestoreBase, old: &StoreIndex)
    requires
        settled(new, base, old),
        new.scan.group_overlay() matches Some(groups) ==> groups.grouped(),
    ensures
        new.groups_coherent(new.scan.group_overlay()),
{
    let by_entity = base.entries_by_entity@;
    lemma_settled_holds(new, base, old);
    if let Some(n) = new.scan.group_overlay() {
        assert forall|e: Seq<char>, x: Arc<IndexEntry>| #[trigger]
            n.rows_of(e).contains(x) <==> new.holds(x) && x.coord.entity_spec() == e by {
            lemma_entity_rows(by_entity, e);
            assert(n.rows_of(e) == super::columnar::entity_rows(by_entity, e));
            assert(super::columnar::entity_rows(by_entity, e).contains(x) <==> by_entity.contains(x)
                && x.coord.entity_spec() == e);
            assert(new.holds(x) <==> base.entries_by_sequence@.contains(x));
        }
        assert forall|e: Seq<char>| (#[trigger] n.rows_of(e)).no_duplicates() by {
            lemma_entity_rows(by_entity, e);
        }
        assert forall|e: Seq<char>| #[trigger] n.has(e) <==> n.rows_of(e).len() > 0 by {
            assert(n.rows_of(e) == super::columnar::entity_rows(by_entity, e));
        }
    }
}

/// Rows that stand once stand once among those of their entity.
proof fn lemma_entity_rows(rows: Seq<Arc<IndexEntry>>, e: Seq<char>)
    requires
        rows.no_duplicates(),
    ensures
        super::columnar::entity_rows(rows, e).no_duplicates(),
        forall|x: Arc<IndexEntry>| #[trigger]
            super::columnar::entity_rows(rows, e).contains(x) <==> rows.contains(x)
                && x.coord.entity_spec() == e,
    decreases rows.len(),
{
    reveal(Seq::filter);
    if rows.len() > 0 {
        let head = rows.drop_last();
        let last = rows.last();
        assert(head.no_duplicates());
        lemma_entity_rows(head, e);
        super::columnar::lemma_entity_rows_push(head, last, e);
        assert(head.push(last) =~= rows);
        lemma_pushed_contains(head, last);
        assert(!head.contains(last));
        let own = super::columnar::entity_rows(head, e);
        lemma_pushed_contains(own, last);
        assert(own.contains(last) <==> head.contains(last) && last.coord.entity_spec() == e);
        if last.coord.entity_spec() == e {
            lemma_pushed_once(own, last);
        }
        assert forall|x: Arc<IndexEntry>| #[trigger]
            super::columnar::entity_rows(rows, e).contains(x) <==> rows.contains(x)
                && x.coord.entity_spec() == e by {
            assert(own.contains(x) <==> head.contains(x) && x.coord.entity_spec() == e);
            assert(head.push(last).contains(x) <==> head.contains(x) || x == last);
        }
    }
}

/// The chain head of a restored entity is one of its events.
proof fn lemma_settled_head(
    new: &StoreIndex,
    base: &RestoreBase,
    old: &StoreIndex,
    e: Seq<char>,
)
    requires
        settled(new, base, old),
        new.latest.entries().contains_key(e),
    ensures
        new.holds(new.latest.entries()[e]),
        new.latest.entries()[e].coord.entity_spec() == e,
{
    let by_entity = base.entries_by_entity@;
    let runs = base.routing.entity_runs@;
    lemma_settled_holds(new, base, old);
    assert(new.has_stream(e));
    let i = choose|i: int| 0 <= i < runs.len() && (#[trigger] runs[i]).entity@ == e;
    assert forall|j: int| i < j < runs.len() implies (#[trigger] runs[j]).entity@
        != runs[i].entity@ by {
        lemma_runs_distinct(runs, by_entity, i, j);
    }
    assert(is_last_run(runs, i));
    assert(run_restored(new, runs[i], by_entity));
    assert(super::restore::is_run(runs[i], by_entity));
    let k = runs[i].start + runs[i].len - 1;
    assert(by_entity[k].coord.entity_spec() == runs[i].entity@);
    assert(by_entity.contains(by_entity[k]));
    assert(base.entries_by_sequence@.contains(by_entity[k]));
}

/// A restore of rows with distinct ids along their own runs.
spec fn settled(new: &StoreIndex, base: &RestoreBase, old: &StoreIndex) -> bool {
    &&& new.restored(base, old)
    &&& crate::sort::ranked(base.entries_by_entity@)
    &&& base.entries_by_entity@.to_multiset() == base.entries_by_sequence@.to_multiset()
    &&& row_ids_distinct(base.entries_by_sequence@)
    &&& super::restore::are_runs(
        base.routing.entity_runs@,
        base.entries_by_entity@,
        base.entries_by_entity@.len() as int,
    )
}

proof fn lemma_settled_holds(new: &StoreIndex, base: &RestoreBase, old: &StoreIndex)
    requires
        settled(new, base, old),
    ensures
        base.entries_by_sequence@.no_duplicates(),
        base.entries_by_entity@.no_duplicates(),
        forall|x: Arc<IndexEntry>| #[trigger]
            new.holds(x) <==> base.entries_by_sequence@.contains(x),
        forall|x: Arc<IndexEntry>|
            base.entries_by_entity@.contains(x) <==> #[trigger]
                base.entries_by_sequence@.contains(x),
        base.entries_by_entity@.len() == base.entries_by_sequence@.len(),
{
    let rows = base.entries_by_sequence@;
    let by_entity = base.entries_by_entity@;
    rows.to_multiset_ensures();
    by_entity.to_multiset_ensures();
    assert(rows.no_duplicates());
    rows.lemma_multiset_has_no_duplicates();
    by_entity.lemma_multiset_has_no_duplicates_conv();
    assert forall|x: Arc<IndexEntry>| #[trigger] new.holds(x) <==> rows.contains(x) by {
        if rows.contains(x) {
            let i = rows.index_of(x);
            assert(rows[i] == x);
            let y = new.by_id.entries()[x.event_id];
            assert(new.by_id.entries().contains_key(x.event_id));
            let j = choose|j: int|
                0 <= j < rows.len() && #[trigger] rows[j] == y && forall|k: int|
                    j < k < rows.len() ==> (#[trigger] rows[k]).event_id != y.event_id;
            assert(y.event_id == x.event_id);
            assert(i == j);
        }
        if new.holds(x) {
            assert(new.by_id.entries().contains_key(x.event_id));
            let j = choose|j: int|
                0 <= j < rows.len() && #[trigger] rows[j] == x && forall|k: int|
                    j < k < rows.len() ==> (#[trigger] rows[k]).event_id != x.event_id;
            assert(rows[j] == x);
        }
    }
    assert forall|x: Arc<IndexEntry>| by_entity.contains(x) <==> #[trigger] rows.contains(x) by {
        assert(by_entity.to_multiset().count(x) > 0 <==> by_entity.contains(x));
        assert(rows.to_multiset().count(x) > 0 <==> rows.contains(x));
    }
}

proof fn lemma_settled_stream(
    new: &StoreIndex,
    base: &RestoreBase,
    old: &StoreIndex,
    e: Seq<char>,
    x: Arc<IndexEntry>,
)
    requires
        settled(new, base, old),
    ensures
        new.stream_rows(e).contains(x) <==> new.holds(x) && x.coord.entity_spec() == e,
{
    let by_entity = base.entries_by_entity@;
    let runs = base.routing.entity_runs@;
    lemma_settled_holds(new, base, old);
    assert(new.holds(x) <==> base.entries_by_sequence@.contains(x));
    if new.holds(x) && x.coord.entity_spec() == e {
        assert(by_entity.contains(x));
        let k = by_entity.index_of(x);
        let i = lemma_runs_cover(runs, by_entity, k, runs.len() as int);
        lemma_run_is_stream(new, base, old, i);
        assert(super::restore::is_run(runs[i], by_entity));
        assert(by_entity[k].coord.entity_spec() == runs[i].entity@);
        assert(run_rows(runs[i], by_entity)[k - runs[i].start] == x);
        assert(run_rows(runs[i], by_entity).contains(x));
    }
    if new.stream_rows(e).contains(x) {
        assert(new.has_stream(e));
        let i = choose|i: int| 0 <= i < runs.len() && (#[trigger] runs[i]).entity@ == e;
        lemma_run_is_stream(new, base, old, i);
        assert(run_rows(runs[i], by_entity).contains(x));
        let k = run_rows(runs[i], by_entity).index_of(x);
        assert(super::restore::is_run(runs[i], by_entity));
        assert(by_entity[runs[i].start + k] == x);
        assert(by_entity.contains(x));
    }
}

proof fn lemma_settled_has_rows(
    new: &StoreIndex,
    base: &RestoreBase,
    old: &StoreIndex,
    e: Seq<char>,
)
    requires
        settled(new, base, old),
        new.has_stream(e),
    ensures
        new.stream_rows(e).len() > 0,
{
    let by_entity = base.entries_by_entity@;
    let runs = base.routing.entity_runs@;
    lemma_settled_holds(new, base, old);
    let i = choose|i: int| 0 <= i < runs.len() && (#[trigger] runs[i]).entity@ == e;
    lemma_run_is_stream(new, base, old, i);
    assert(super::restore::is_run(runs[i], by_entity));
    assert(run_rows(runs[i], by_entity)[0] == by_entity[runs[i].start as int]);
    assert(run_rows(runs[i], by_entity).contains(by_entity[runs[i].start as int]));
    assert(new.stream_rows(e).contains(by_entity[runs[i].start as int]));
}

proof fn lemma_settled_scopes(new: &StoreIndex, base: &RestoreBase, old: &StoreIndex)
    requires
        settled(new, base, old),
    ensures
        forall|s: Seq<char>, e: Seq<char>| #[trigger]
            new.scan.scope_members(s).contains(e) <==> new.scope_holds(s, e),
        forall|s: Seq<char>|
            (exists|e: Seq<char>| #[trigger] new.scan.scope_members(s).contains(e))
                ==> #[trigger] new.scan.scope_has(s),
{
    let rows = base.entries_by_sequence@;
    lemma_settled_holds(new, base, old);
    assert forall|s: Seq<char>, e: Seq<char>| #[trigger]
        new.scan.scope_members(s).contains(e) <==> new.scope_holds(s, e) by {
        if new.scope_holds(s, e) {
            let x = choose|x: Arc<IndexEntry>| #[trigger]
                new.holds(x) && x.coord.scope_spec() == s && x.coord.entity_spec() == e;
            let i = rows.index_of(x);
            assert(rows[i] == x);
        }
        if new.scan.scope_members(s).contains(e) {
            let i = choose|i: int|
                0 <= i < rows.len() && (#[trigger] rows[i]).coord.scope_spec() == s
                    && rows[i].coord.entity_spec() == e;
            assert(rows.contains(rows[i]));
            assert(new.holds(rows[i]));
        }
    }
    assert forall|s: Seq<char>|
        (exists|e: Seq<char>| #[trigger]
            new.scan.scope_members(s).contains(e)) implies #[trigger] new.scan.scope_has(s) by {
        let e = choose|e: Seq<char>| #[trigger] new.scan.scope_members(s).contains(e);
        let i = choose|i: int|
            0 <= i < rows.len() && (#[trigger] rows[i]).coord.scope_spec() == s
                && rows[i].coord.entity_spec() == e;
        assert(rows[i].coord.scope_spec() == s);
    }
}

proof fn lemma_settled_count(new: &StoreIndex, base: &RestoreBase, old: &StoreIndex)
    requires
        settled(new, base, old),
    ensures
        new.len == new.by_id.order().len(),
{
    let rows = base.entries_by_sequence@;
    let ids = rows.map_values(|x: Arc<IndexEntry>| x.event_id);
    assert(ids.no_duplicates()) by {
        assert forall|i: int, j: int| 0 <= i < ids.len() && 0 <= j < ids.len() && i
            != j implies ids[i] != ids[j] by {
            if i < j {
                assert(rows[i].event_id != rows[j].event_id);
            } else {
                assert(rows[j].event_id != rows[i].event_id);
            }
        }
    }
    new.by_id.lemma_order();
    ids.unique_seq_to_set();
    assert(ids.to_set() =~= new.by_id.entries().dom()) by {
        assert forall|id: u128| ids.to_set().contains(id) <==> new.by_id.entries().dom().contains(
            id,
        ) by {
            if ids.contains(id) {
                let i = ids.index_of(id);
                assert(rows[i].event_id == id);
            }
            if new.by_id.entries().contains_key(id) {
                let y = new.by_id.entries()[id];
                let j = choose|j: int|
                    0 <= j < rows.len() && #[trigger] rows[j] == y && forall|k: int|
                        j < k < rows.len() ==> (#[trigger] rows[k]).event_id != y.event_id;
                assert(ids[j] == id);
            }
        }
    }
}

/// The stream of a run's entity holds exactly the rows of the run.
proof fn lemma_run_is_stream(new: &StoreIndex, base: &RestoreBase, old: &StoreIndex, i: int)
    requires
        new.restored(base, old),
        crate::sort::ranked(base.entries_by_entity@),
        base.entries_by_entity@.no_duplicates(),
        row_ids_distinct(base.entries_by_sequence@),
        base.entries_by_entity@.to_multiset() == base.entries_by_sequence@.to_multiset(),
        super::restore::are_runs(
            base.routing.entity_runs@,
            base.entries_by_entity@,
            base.entries_by_entity@.len() as int,
        ),
        0 <= i < base.routing.entity_runs@.len(),
    ensures
        forall|x: Arc<IndexEntry>| #[trigger]
            new.stream_rows(base.routing.entity_runs@[i].entity@).contains(x) <==> run_rows(
                base.routing.entity_runs@[i],
                base.entries_by_entity@,
            ).contains(x),
{
    let runs = base.routing.entity_runs@;
    let by_entity = base.entries_by_entity@;
    let rows = base.entries_by_sequence@;
    by_entity.to_multiset_ensures();
    rows.to_multiset_ensures();
    assert forall|j: int| i < j < runs.len() implies (#[trigger] runs[j]).entity@
        != runs[i].entity@ by {
        lemma_runs_distinct(runs, by_entity, i, j);
    }
    assert(is_last_run(runs, i));
    assert(run_restored(new, runs[i], by_entity));
    let part = run_rows(runs[i], by_entity);
    assert(super::restore::is_run(runs[i], by_entity));
    assert forall|p: int, q: int| 0 <= p < q < part.len() implies (#[trigger] part[p]).key() != (
    #[trigger] part[q]).key() by {
        let x = part[p];
        let y = part[q];
        assert(by_entity[runs[i].start + p] == x);
        assert(by_entity[runs[i].start + q] == y);
        assert(x != y);
        assert(by_entity.to_multiset().count(x) > 0 && by_entity.to_multiset().count(y) > 0);
        let m = rows.index_of(x);
        let n = rows.index_of(y);
        assert(rows[m] == x && rows[n] == y);
        assert(x.event_id != y.event_id);
    }
    super::stream::lemma_keyed_distinct(new.stream_rows(runs[i].entity@), part);
}

proof fn lemma_overlay_restored(
    new: &StoreIndex,
    rebuilt: Option<super::columnar::ColumnarIndex>,
    before: Option<super::columnar::ColumnarIndex>,
    rows: Seq<Arc<IndexEntry>>,
    by_entity: Seq<Arc<IndexEntry>>,
)
    requires
        super::scan::overlay_rebuilt(rebuilt, before, rows, by_entity),
        rows.to_multiset() == by_entity.to_multiset(),
        rows.no_duplicates(),
        forall|x: Arc<IndexEntry>| #[trigger] new.holds(x) <==> rows.contains(x),
    ensures
        new.overlay_coherent(rebuilt),
{
    if let (Some(n), Some(o)) = (rebuilt, before) {
        let a = n.listing();
        a.to_multiset_ensures();
        rows.to_multiset_ensures();
        rows.lemma_multiset_has_no_duplicates();
        a.lemma_multiset_has_no_duplicates_conv();
        assert forall|x: Arc<IndexEntry>| #[trigger] a.contains(x) <==> new.holds(x) by {
            assert(a.to_multiset().count(x) > 0 <==> rows.to_multiset().count(x) > 0);
        }
    }
}

/// For each lane, the one-event ranges of its rows in `[start, end)`, in
/// order.
pub open spec fn fenced_lanes(rows: Seq<Arc<IndexEntry>>, start: u64, end: u64) -> Map<
    u32,
    Seq<(u64, u64)>,
>
    decreases rows.len(),
{
    if rows.len() == 0 {
        Map::empty()
    } else {
        let lanes = fenced_lanes(rows.drop_last(), start, end);
        let row = rows.last();
        if start <= row.global_sequence < end {
            lanes.insert(
                row.dag_lane,
                super::visibility::lane_ranges_of(lanes, row.dag_lane).push(
                    (row.global_sequence, (row.global_sequence + 1) as u64),
                ),
            )
        } else {
            lanes
        }
    }
}

/// One step of a filling.
pub open spec fn filled(a: ScanIndex, b: ScanIndex, row: Arc<IndexEntry>) -> bool {
    b.grew(&a, row)
}

/// The scans lead from an emptied index to another, taking one row at a time.
pub open spec fn is_filling(
    scans: Seq<ScanIndex>,
    before: ScanIndex,
    last: ScanIndex,
    rows: Seq<Arc<IndexEntry>>,
) -> bool {
    &&& scans.len() == rows.len() + 1
    &&& scans[0].emptied_from(&before)
    &&& scans[rows.len() as int] == last
    &&& forall|i: int| 0 <= i < rows.len() ==> #[trigger] filled(scans[i], scans[i + 1], rows[i])
}

/// The overlay, where it exists, lists the rows once.
spec fn overlay_lists(
    overlay: Option<super::columnar::ColumnarIndex>,
    rows: Seq<Arc<IndexEntry>>,
) -> bool {
    overlay matches Some(o) ==> {
        &&& o.listing().no_duplicates()
        &&& forall|x: Arc<IndexEntry>| #[trigger] o.listing().contains(x) <==> rows.contains(x)
    }
}

/// A scope and an entity of some row.
spec fn row_scope(rows: Seq<Arc<IndexEntry>>, s: Seq<char>, e: Seq<char>) -> bool {
    exists|i: int|
        0 <= i < rows.len() && (#[trigger] rows[i]).coord.scope_spec() == s
            && rows[i].coord.entity_spec() == e
}

/// Every scan view holds the rows.
spec fn scan_holds(scan: &ScanIndex, rows: Seq<Arc<IndexEntry>>) -> bool {
    &&& forall|k: EventKind, x: Arc<IndexEntry>| #[trigger]
        scan.facts(k).contains(x) <==> rows.contains(x) && x.kind == k
    &&& forall|s: Seq<char>, e: Seq<char>| #[trigger]
        scan.scope_members(s).contains(e) <==> row_scope(rows, s, e)
    &&& forall|s: Seq<char>, e: Seq<char>|
        #![trigger scan.scope_members(s).contains(e)]
        scan.scope_members(s).contains(e) ==> scan.scope_has(s)
    &&& overlay_lists(scan.flat_overlay(), rows)
    &&& overlay_lists(scan.group_overlay(), rows)
    &&& overlay_lists(scan.tile_overlay(), rows)
    &&& overlay_lists(scan.mixed_overlay(), rows)
    &&& groups_list(scan.group_overlay(), rows)
}

/// The groups, where there are any, list the rows of their entity once.
spec fn groups_list(
    overlay: Option<super::columnar::ColumnarIndex>,
    rows: Seq<Arc<IndexEntry>>,
) -> bool {
    overlay matches Some(o) ==> {
        &&& forall|e: Seq<char>, x: Arc<IndexEntry>| #[trigger]
            o.rows_of(e).contains(x) <==> rows.contains(x) && x.coord.entity_spec() == e
        &&& forall|e: Seq<char>| (#[trigger] o.rows_of(e)).no_duplicates()
        &&& forall|e: Seq<char>| #[trigger] o.has(e) <==> o.rows_of(e).len() > 0
    }
}

proof fn lemma_groups_step(
    grown: Option<super::columnar::ColumnarIndex>,
    before: Option<super::columnar::ColumnarIndex>,
    rows: Seq<Arc<IndexEntry>>,
    row: Arc<IndexEntry>,
)
    requires
        super::scan::overlay_grew(grown, before, row),
        grown matches Some(groups) ==> groups.grouped(),
        groups_list(before, rows),
        !rows.contains(row),
    ensures
        groups_list(grown, rows.push(row)),
{
    lemma_pushed_contains(rows, row);
    if let (Some(n), Some(o)) = (grown, before) {
        assert forall|e: Seq<char>, x: Arc<IndexEntry>| #[trigger]
            n.rows_of(e).contains(x) <==> rows.push(row).contains(x) && x.coord.entity_spec()
                == e by {
            lemma_pushed_contains(o.rows_of(e), row);
            assert(o.rows_of(e).contains(x) <==> rows.contains(x) && x.coord.entity_spec() == e);
            assert(rows.push(row).contains(x) <==> rows.contains(x) || x == row);
            if e == row.coord.entity_spec() {
                assert(n.rows_of(e) == o.rows_of(e).push(row));
            }
        }
        assert forall|e: Seq<char>| (#[trigger] n.rows_of(e)).no_duplicates() by {
            assert(o.rows_of(e).no_duplicates());
            assert(!o.rows_of(e).contains(row));
            if e == row.coord.entity_spec() {
                lemma_pushed_once(o.rows_of(e), row);
            }
        }
        assert forall|e: Seq<char>| #[trigger] n.has(e) <==> n.rows_of(e).len() > 0 by {
            assert(o.has(e) <==> o.rows_of(e).len() > 0);
        }
    }
}

proof fn lemma_cleared_scan_holds(
    scan: &ScanIndex,
    before: &ScanIndex,
    rows: Seq<Arc<IndexEntry>>,
)
    requires
        scan.emptied_from(before),
        rows.len() == 0,
    ensures
        scan_holds(scan, rows),
{
    assert forall|s: Seq<char>, e: Seq<char>| !#[trigger] scan.scope_members(s).contains(e) by {
        scan.lemma_scope_members(s);
        assert(!scan.scope_has(s));
    }
    assert forall|k: EventKind, x: Arc<IndexEntry>| !#[trigger] scan.facts(k).contains(x) by {
        assert(scan.facts(k) == Seq::<Arc<IndexEntry>>::empty());
    }
}

proof fn lemma_pushed_contains(rows: Seq<Arc<IndexEntry>>, row: Arc<IndexEntry>)
    ensures
        forall|x: Arc<IndexEntry>| #[trigger]
            rows.push(row).contains(x) <==> rows.contains(x) || x == row,
{
    assert forall|x: Arc<IndexEntry>| #[trigger] rows.push(row).contains(x) <==> rows.contains(x)
        || x == row by {
        if rows.contains(x) {
            let i = rows.index_of(x);
            assert(rows.push(row)[i] == x);
        }
        assert(rows.push(row)[rows.len() as int] == row);
    }
}

proof fn lemma_scan_step(
    new: &ScanIndex,
    old: &ScanIndex,
    rows: Seq<Arc<IndexEntry>>,
    row: Arc<IndexEntry>,
)
    requires
        new.wf(),
        scan_holds(old, rows),
        new.grew(old, row),
        forall|j: int| 0 <= j < rows.len() ==> (#[trigger] rows[j]).event_id != row.event_id,
    ensures
        scan_holds(new, rows.push(row)),
{
    let now = rows.push(row);
    lemma_pushed_contains(rows, row);
    assert(!rows.contains(row));
    assert forall|k: EventKind, x: Arc<IndexEntry>| #[trigger]
        new.facts(k).contains(x) <==> now.contains(x) && x.kind == k by {
        if k == row.kind {
            assert(new.facts(k).contains(x) <==> x == row || (old.facts(k).contains(x) && x.key()
                != row.key()));
            if old.facts(k).contains(x) {
                assert(rows.contains(x));
                let j = rows.index_of(x);
                assert(rows[j].event_id != row.event_id);
            }
        } else {
            assert(new.facts(k) == old.facts(k));
        }
        assert(now.contains(x) <==> rows.contains(x) || x == row);
    }
    assert forall|s: Seq<char>, e: Seq<char>| #[trigger]
        new.scope_members(s).contains(e) <==> row_scope(now, s, e) by {
        assert(old.scope_members(s).contains(e) <==> row_scope(rows, s, e));
        if row_scope(rows, s, e) {
            let i = choose|i: int|
                0 <= i < rows.len() && (#[trigger] rows[i]).coord.scope_spec() == s
                    && rows[i].coord.entity_spec() == e;
            assert(now[i] == rows[i]);
        }
        if row_scope(now, s, e) {
            let i = choose|i: int|
                0 <= i < now.len() && (#[trigger] now[i]).coord.scope_spec() == s
                    && now[i].coord.entity_spec() == e;
            if i < rows.len() {
                assert(now[i] == rows[i]);
            }
        }
        assert(now[rows.len() as int] == row);
    }
    assert forall|s: Seq<char>, e: Seq<char>|
        #![trigger new.scope_members(s).contains(e)]
        new.scope_members(s).contains(e) implies new.scope_has(s) by {
        if s != row.coord.scope_spec() {
            assert(old.scope_members(s).contains(e));
        }
    }
    lemma_overlay_step(new.flat_overlay(), old.flat_overlay(), rows, row);
    lemma_overlay_step(new.group_overlay(), old.group_overlay(), rows, row);
    lemma_overlay_step(new.tile_overlay(), old.tile_overlay(), rows, row);
    lemma_overlay_step(new.mixed_overlay(), old.mixed_overlay(), rows, row);
    new.lemma_group_layout();
    lemma_groups_step(new.group_overlay(), old.group_overlay(), rows, row);
}

proof fn lemma_overlay_step(
    grown: Option<super::columnar::ColumnarIndex>,
    before: Option<super::columnar::ColumnarIndex>,
    rows: Seq<Arc<IndexEntry>>,
    row: Arc<IndexEntry>,
)
    requires
        super::scan::overlay_grew(grown, before, row),
        overlay_lists(before, rows),
        !rows.contains(row),
    ensures
        overlay_lists(grown, rows.push(row)),
{
    lemma_pushed_contains(rows, row);
    if let (Some(n), Some(o)) = (grown, before) {
        let a = n.listing();
        let b = o.listing();
        a.to_multiset_ensures();
        b.to_multiset_ensures();
        assert forall|x: Arc<IndexEntry>| #[trigger] a.contains(x) <==> rows.push(row).contains(
            x,
        ) by {
            assert(a.to_multiset().count(x) > 0 <==> b.to_multiset().count(x) > 0 || x == row);
            assert(b.contains(x) <==> rows.contains(x));
        }
        b.lemma_multiset_has_no_duplicates();
        assert forall|x: Arc<IndexEntry>| a.to_multiset().contains(
            x,
        ) implies #[trigger] a.to_multiset().count(x) == 1 by {
            assert(b.contains(row) <==> rows.contains(row));
            if x != row {
                assert(b.to_multiset().count(x) > 0);
                assert(b.to_multiset().contains(x));
            }
        }
        a.lemma_multiset_has_no_duplicates_conv();
    }
}

proof fn lemma_transferred_is_coherent(new: &StoreIndex, source: &StoreIndex)
    requires
        source.coherent(),
        new.wf(),
        new.streams == source.streams,
        new.by_id == source.by_id,
        new.latest == source.latest,
        new.len == new.by_id.order().len(),
        scan_holds(&new.scan, source.id_rows()),
    ensures
        new.coherent(),
{
    let rows = source.id_rows();
    source.by_id.lemma_order();
    assert forall|x: Arc<IndexEntry>| #[trigger] new.holds(x) <==> rows.contains(x) by {
        if new.holds(x) {
            let i = source.by_id.order().index_of(x.event_id);
            assert(source.by_id.order().contains(x.event_id));
            assert(rows[i] == x);
        }
        if rows.contains(x) {
            let i = rows.index_of(x);
            assert(source.by_id.entries().contains_key(source.by_id.order()[i]));
        }
    }
    assert(forall|e: Seq<char>| #[trigger] new.has_stream(e) == source.has_stream(e));
    assert(forall|e: Seq<char>| #[trigger] new.stream_rows(e) == source.stream_rows(e));
    assert(forall|x: Arc<IndexEntry>| #[trigger] new.holds(x) == source.holds(x));
    assert forall|s: Seq<char>, e: Seq<char>| #[trigger]
        new.scan.scope_members(s).contains(e) <==> new.scope_holds(s, e) by {
        if row_scope(rows, s, e) {
            let i = choose|i: int|
                0 <= i < rows.len() && (#[trigger] rows[i]).coord.scope_spec() == s
                    && rows[i].coord.entity_spec() == e;
            assert(rows.contains(rows[i]));
            assert(new.holds(rows[i]));
        }
        if new.scope_holds(s, e) {
            let x = choose|x: Arc<IndexEntry>| #[trigger]
                new.holds(x) && x.coord.scope_spec() == s && x.coord.entity_spec() == e;
            let i = rows.index_of(x);
            assert(rows[i] == x);
        }
    }
}

/// A row stands in `rows`, and no row of its id stands behind it.
pub open spec fn is_last_of_id(rows: Seq<Arc<IndexEntry>>, x: Arc<IndexEntry>) -> bool {
    exists|i: int|
        0 <= i < rows.len() && #[trigger] rows[i] == x && forall|j: int|
            i < j < rows.len() ==> (#[trigger] rows[j]).event_id != x.event_id
}

/// Each id maps to its last row.
pub open spec fn ids_from_rows(
    ids: Map<u128, Arc<IndexEntry>>,
    rows: Seq<Arc<IndexEntry>>,
) -> bool {
    &&& forall|id: u128| #[trigger]
        ids.contains_key(id) ==> ids[id].event_id == id && is_last_of_id(rows, ids[id])
    &&& forall|i: int| 0 <= i < rows.len() ==> ids.contains_key((#[trigger] rows[i]).event_id)
}

proof fn lemma_ids_push(
    ids: Map<u128, Arc<IndexEntry>>,
    rows: Seq<Arc<IndexEntry>>,
    row: Arc<IndexEntry>,
)
    requires
        ids_from_rows(ids, rows),
    ensures
        ids_from_rows(ids.insert(row.event_id, row), rows.push(row)),
{
    let new_ids = ids.insert(row.event_id, row);
    let new_rows = rows.push(row);
    assert forall|id: u128| #[trigger] new_ids.contains_key(id) implies new_ids[id].event_id == id
        && is_last_of_id(new_rows, new_ids[id]) by {
        if id == row.event_id {
            assert(new_rows[rows.len() as int] == row);
        } else {
            let x = ids[id];
            let i = choose|i: int|
                0 <= i < rows.len() && #[trigger] rows[i] == x && forall|j: int|
                    i < j < rows.len() ==> (#[trigger] rows[j]).event_id != x.event_id;
            assert(new_rows[i] == x);
            assert forall|j: int| i < j < new_rows.len() implies (#[trigger] new_rows[j]).event_id
                != x.event_id by {
                if j < rows.len() {
                    assert(new_rows[j] == rows[j]);
                }
            }
        }
    }
    assert forall|i: int| 0 <= i < new_rows.len() implies new_ids.contains_key(
        (#[trigger] new_rows[i]).event_id,
    ) by {
        if i < rows.len() {
            assert(new_rows[i] == rows[i]);
        }
    }
}

/// An empty index is coherent.
proof fn lemma_empty_is_coherent(r: &StoreIndex)
    requires
        r.wf(),
        r.streams.entries() == Map::<Seq<char>, ClockStream>::empty(),
        r.latest.entries() == Map::<Seq<char>, Arc<IndexEntry>>::empty(),
        r.by_id.entries() == Map::<u128, Arc<IndexEntry>>::empty(),
        r.by_id.order().len() == 0,
        r.scan.emptied_from(&r.scan),
        r.len == 0,
    ensures
        r.coherent(),
{
    assert forall|s: Seq<char>| !#[trigger] r.scan.scope_has(s) by {}
    assert forall|s: Seq<char>, e: Seq<char>| #[trigger]
        r.scan.scope_members(s).contains(e) <==> r.scope_holds(s, e) by {
        r.scan.lemma_scope_members(s);
    }
    assert forall|s: Seq<char>|
        (exists|e: Seq<char>| #[trigger]
            r.scan.scope_members(s).contains(e)) implies #[trigger] r.scan.scope_has(s) by {
        r.scan.lemma_scope_members(s);
    }
}

/// One more event with a fresh id keeps an index coherent.
pub proof fn lemma_took_is_coherent(new: &StoreIndex, old: &StoreIndex, row: Arc<IndexEntry>)
    requires
        old.coherent(),
        new.wf(),
        new.took(old, row),
        !old.by_id.entries().contains_key(row.event_id),
    ensures
        new.coherent(),
        forall|x: Arc<IndexEntry>| #[trigger] new.holds(x) <==> old.holds(x) || x == row,
{
    let entity = row.coord.entity_spec();
    assert forall|x: Arc<IndexEntry>| #[trigger] new.holds(x) <==> old.holds(x) || x == row by {}
    assert forall|e: Seq<char>, x: Arc<IndexEntry>| #[trigger]
        new.stream_rows(e).contains(x) <==> new.holds(x) && x.coord.entity_spec() == e by {
        if e == entity {
            assert(new.stream_rows(e).contains(x) <==> x == row || (old.stream_rows(e).contains(x)
                && x.key() != row.key()));
            if old.stream_rows(e).contains(x) {
                assert(old.holds(x));
                assert(x.event_id != row.event_id);
            }
        } else {
            assert(new.stream_rows(e) == old.stream_rows(e));
        }
    }
    assert forall|e: Seq<char>| #[trigger] new.has_stream(e) implies new.stream_rows(e).len()
        > 0 by {
        if e == entity {
            assert(new.stream_rows(e).contains(row));
        } else {
            assert(old.has_stream(e));
            assert(new.stream_rows(e) == old.stream_rows(e));
        }
    }
    assert forall|k: EventKind, x: Arc<IndexEntry>| #[trigger]
        new.scan.facts(k).contains(x) <==> new.holds(x) && x.kind == k by {
        if k == row.kind {
            assert(new.scan.facts(k).contains(x) <==> x == row || (old.scan.facts(k).contains(x)
                && x.key() != row.key()));
            if old.scan.facts(k).contains(x) {
                assert(old.holds(x));
                assert(x.event_id != row.event_id);
            }
        } else {
            assert(new.scan.facts(k) == old.scan.facts(k));
        }
    }
    assert forall|s: Seq<char>, e: Seq<char>| #[trigger]
        new.scan.scope_members(s).contains(e) <==> new.scope_holds(s, e) by {
        assert(old.scan.scope_members(s).contains(e) <==> old.scope_holds(s, e));
        if new.scope_holds(s, e) {
            let x = choose|x: Arc<IndexEntry>| #[trigger]
                new.holds(x) && x.coord.scope_spec() == s && x.coord.entity_spec() == e;
            if x != row {
                assert(old.holds(x));
            }
        }
        if old.scope_holds(s, e) {
            let x = choose|x: Arc<IndexEntry>| #[trigger]
                old.holds(x) && x.coord.scope_spec() == s && x.coord.entity_spec() == e;
            assert(new.holds(x));
        }
        assert(new.holds(row));
    }
    assert forall|s: Seq<char>|
        (exists|e: Seq<char>| #[trigger]
            new.scan.scope_members(s).contains(e)) implies #[trigger] new.scan.scope_has(s) by {
        if s != row.coord.scope_spec() {
            let e = choose|e: Seq<char>| #[trigger] new.scan.scope_members(s).contains(e);
            assert(old.scan.scope_members(s).contains(e));
            assert(old.scan.scope_has(s));
        }
    }
    lemma_overlay_took(new, old, row, new.scan.flat_overlay(), old.scan.flat_overlay());
    lemma_overlay_took(new, old, row, new.scan.group_overlay(), old.scan.group_overlay());
    lemma_overlay_took(new, old, row, new.scan.tile_overlay(), old.scan.tile_overlay());
    lemma_overlay_took(new, old, row, new.scan.mixed_overlay(), old.scan.mixed_overlay());
    new.scan.lemma_group_layout();
    lemma_groups_took(new, old, row);
    assert forall|e: Seq<char>| #[trigger] new.latest.entries().contains_key(
        e,
    ) implies new.holds(new.latest.entries()[e]) && new.latest.entries()[e].coord.entity_spec()
        == e by {
        if e != entity {
            assert(old.latest.entries().contains_key(e));
            assert(old.holds(old.latest.entries()[e]));
        }
        assert(new.holds(row));
    }
    new.by_id.lemma_order_bound();
}

proof fn lemma_groups_took(new: &StoreIndex, old: &StoreIndex, row: Arc<IndexEntry>)
    requires
        super::scan::overlay_grew(new.scan.group_overlay(), old.scan.group_overlay(), row),
        new.scan.group_overlay() matches Some(groups) ==> groups.grouped(),
        old.groups_coherent(old.scan.group_overlay()),
        !old.holds(row),
        forall|x: Arc<IndexEntry>| #[trigger] new.holds(x) <==> old.holds(x) || x == row,
    ensures
        new.groups_coherent(new.scan.group_overlay()),
{
    if let (Some(n), Some(o)) = (new.scan.group_overlay(), old.scan.group_overlay()) {
        assert forall|e: Seq<char>, x: Arc<IndexEntry>| #[trigger]
            n.rows_of(e).contains(x) <==> new.holds(x) && x.coord.entity_spec() == e by {
            lemma_pushed_contains(o.rows_of(e), row);
            assert(o.rows_of(e).contains(x) <==> old.holds(x) && x.coord.entity_spec() == e);
            assert(new.holds(x) <==> old.holds(x) || x == row);
            if e == row.coord.entity_spec() {
                assert(n.rows_of(e) == o.rows_of(e).push(row));
            }
        }
        assert forall|e: Seq<char>| (#[trigger] n.rows_of(e)).no_duplicates() by {
            assert(o.rows_of(e).no_duplicates());
            assert(!o.rows_of(e).contains(row));
            if e == row.coord.entity_spec() {
                lemma_pushed_once(o.rows_of(e), row);
            }
        }
        assert forall|e: Seq<char>| #[trigger] n.has(e) <==> n.rows_of(e).len() > 0 by {
            assert(o.has(e) <==> o.rows_of(e).len() > 0);
        }
    }
}

proof fn lemma_pushed_once(rows: Seq<Arc<IndexEntry>>, row: Arc<IndexEntry>)
    requires
        rows.no_duplicates(),
        !rows.contains(row),
    ensures
        rows.push(row).no_duplicates(),
{
    let now = rows.push(row);
    assert forall|i: int, j: int| 0 <= i < now.len() && 0 <= j < now.len() && i != j implies now[i]
        != now[j] by {
        if i < rows.len() {
            assert(rows.contains(rows[i]));
        }
        if j < rows.len() {
            assert(rows.contains(rows[j]));
        }
    }
}

proof fn lemma_overlay_took(
    new: &StoreIndex,
    old: &StoreIndex,
    row: Arc<IndexEntry>,
    grown: Option<super::columnar::ColumnarIndex>,
    before: Option<super::columnar::ColumnarIndex>,
)
    requires
        super::scan::overlay_grew(grown, before, row),
        old.overlay_coherent(before),
        !old.holds(row),
        forall|x: Arc<IndexEntry>| #[trigger] new.holds(x) <==> old.holds(x) || x == row,
    ensures
        new.overlay_coherent(grown),
{
    if let (Some(n), Some(o)) = (grown, before) {
        let a = n.listing();
        let b = o.listing();
        a.to_multiset_ensures();
        b.to_multiset_ensures();
        assert forall|x: Arc<IndexEntry>| #[trigger] a.contains(x) <==> new.holds(x) by {
            assert(a.to_multiset().count(x) > 0 <==> b.to_multiset().count(x) > 0 || x == row);
            assert(b.contains(x) <==> old.holds(x));
        }
        b.lemma_multiset_has_no_duplicates();
        assert forall|x: Arc<IndexEntry>| a.to_multiset().contains(
            x,
        ) implies #[trigger] a.to_multiset().count(x) == 1 by {
            assert(b.contains(row) <==> old.holds(row));
            if x != row {
                assert(b.to_multiset().count(x) > 0);
                assert(b.to_multiset().contains(x));
            }
        }
        a.lemma_multiset_has_no_duplicates_conv();
    }
}

/// An event with a new identifier that an index takes is held from then on, is the
/// newest of its entity and stands in the stream of its entity, which goes by wall
/// clock, clock and identifier. All that was held stays; no other entity changes; and
/// the count goes up by one.
pub proof fn law_insert_adds_one_event(
    before: &StoreIndex,
    after: &StoreIndex,
    row: Arc<IndexEntry>,
    id: u128,
    entity: Seq<char>,
)
    requires
        before.coherent(),
        !before.by_id.entries().contains_key(row.event_id),
        after.wf(),
        after.took(before, row),
    ensures
        after.coherent(),
        after.by_id.entries().contains_key(row.event_id) && after.by_id.entries()[row.event_id]
            == row,
        id != row.event_id ==> (after.by_id.entries().contains_key(id)
            <==> before.by_id.entries().contains_key(id)) && (before.by_id.entries().contains_key(
            id,
        ) ==> after.by_id.entries()[id] == before.by_id.entries()[id]),
        after.latest.entries().contains_key(row.coord.entity_spec())
            && after.latest.entries()[row.coord.entity_spec()] == row,
        entity != row.coord.entity_spec() ==> (after.latest.entries().contains_key(entity)
            <==> before.latest.entries().contains_key(entity)) && (
        before.latest.entries().contains_key(entity) ==> after.latest.entries()[entity]
            == before.latest.entries()[entity]) && after.stream_rows(entity) == before.stream_rows(
            entity,
        ),
        ({
            let rows = after.stream_rows(row.coord.entity_spec());
            let held = before.stream_rows(row.coord.entity_spec());
            &&& rows.contains(row)
            &&& forall|x: Arc<IndexEntry>| #[trigger]
                rows.contains(x) <==> x == row || held.contains(x)
            &&& forall|i: int, j: int|
                #![trigger rows[i], rows[j]]
                0 <= i < j < rows.len() ==> rows[i].wall_ms < rows[j].wall_ms || (rows[i].wall_ms
                    == rows[j].wall_ms && rows[i].clock < rows[j].clock) || (rows[i].wall_ms
                    == rows[j].wall_ms && rows[i].clock == rows[j].clock && rows[i].event_id
                    < rows[j].event_id)
        }),
        before.len < usize::MAX ==> after.len == before.len + 1,
{
    lemma_took_is_coherent(after, before, row);
    let own = row.coord.entity_spec();
    let rows = after.stream_rows(own);
    let held = before.stream_rows(own);
    assert(rows.contains(row) <==> row == row || (held.contains(row) && row.key() != row.key()));
    assert forall|x: Arc<IndexEntry>| #[trigger] rows.contains(x) <==> x == row || held.contains(
        x,
    ) by {
        if held.contains(x) {
            assert(before.holds(x));
            assert(x.event_id != row.event_id);
            assert(x.key() != row.key());
        }
    }
    assert forall|i: int, j: int|
        #![trigger rows[i], rows[j]]
        0 <= i < j < rows.len() implies rows[i].wall_ms < rows[j].wall_ms || (rows[i].wall_ms
        == rows[j].wall_ms && rows[i].clock < rows[j].clock) || (rows[i].wall_ms
        == rows[j].wall_ms && rows[i].clock == rows[j].clock && rows[i].event_id
        < rows[j].event_id) by {
        assert(rows[i].key().before_spec(rows[j].key()));
    }
}

/// A restored index shows all that it holds: everything up to the next sequence is
/// allocated and visible, nothing is hidden and no fence is active. The next sequence
/// is the one after the last entry or the hint, whichever is greater.
pub proof fn law_restored_index_shows_everything(
    new: &StoreIndex,
    old: &StoreIndex,
    entries: Seq<IndexEntry>,
    hint: u64,
)
    requires
        new.opened(old, next_after(entries, hint)),
    ensures
        new.sequence@.allocated == new.sequence@.visible,
        new.sequence@.allocated >= hint,
        new.sequence@.cancelled.len() == 0,
        new.sequence@.lanes == Map::<u32, u64>::empty(),
        new.sequence@.lane_cancelled == Map::<u32, Seq<(u64, u64)>>::empty(),
        new.sequence@.fence == 0,
        entries.len() == 0 ==> new.sequence@.allocated == hint,
        entries.len() > 0 && entries.last().global_sequence < u64::MAX
            ==> new.sequence@.allocated > entries.last().global_sequence && (
        new.sequence@.allocated == hint || new.sequence@.allocated == entries.last().global_sequence
            + 1),
        entries.len() > 0 && entries.last().global_sequence == u64::MAX
            ==> new.sequence@.allocated == u64::MAX,
{
}

/// A summary asks for as many chunks as it names, and for one where it names none.
pub proof fn law_at_least_one_chunk(chunk_count: u64)
    ensures
        routed_chunks(chunk_count) >= 1,
        1 <= chunk_count <= usize::MAX ==> routed_chunks(chunk_count) == chunk_count,
        chunk_count == 0 || chunk_count > usize::MAX ==> routed_chunks(chunk_count) == 1,
{
}

/// One of the rows is of a lane and has a sequence.
spec fn has_row(rows: Seq<Arc<IndexEntry>>, lane: u32, sequence: u64) -> bool {
    exists|k: int|
        0 <= k < rows.len() && (#[trigger] rows[k]).dag_lane == lane && rows[k].global_sequence
            == sequence
}

proof fn lemma_has_row_push(
    front: Seq<Arc<IndexEntry>>,
    row: Arc<IndexEntry>,
    lane: u32,
    sequence: u64,
)
    ensures
        has_row(front.push(row), lane, sequence) <==> has_row(front, lane, sequence) || (
        row.dag_lane == lane && row.global_sequence == sequence),
{
    let rows = front.push(row);
    assert(rows[front.len() as int] == row);
    if has_row(rows, lane, sequence) {
        let k = choose|k: int|
            0 <= k < rows.len() && (#[trigger] rows[k]).dag_lane == lane && rows[k].global_sequence
                == sequence;
        if k < front.len() {
            assert(front[k] == rows[k]);
        }
    }
    if has_row(front, lane, sequence) {
        let k = choose|k: int|
            0 <= k < front.len() && (#[trigger] front[k]).dag_lane == lane
                && front[k].global_sequence == sequence;
        assert(rows[k] == front[k]);
    }
}

proof fn lemma_range_push(ranges: Seq<(u64, u64)>, range: (u64, u64), x: u64)
    ensures
        super::visibility::covered(ranges.push(range), x) <==> super::visibility::covered(ranges, x)
            || range.0 <= x < range.1,
{
    let all = ranges.push(range);
    assert(all[ranges.len() as int] == range);
    if super::visibility::covered(ranges, x) {
        let i = choose|i: int|
            0 <= i < ranges.len() && (#[trigger] ranges[i]).0 <= x < ranges[i].1;
        assert(all[i] == ranges[i]);
    }
    if super::visibility::covered(all, x) {
        let i = choose|i: int| 0 <= i < all.len() && (#[trigger] all[i]).0 <= x < all[i].1;
        if i < ranges.len() {
            assert(ranges[i] == all[i]);
        }
    }
}

proof fn lemma_fenced(
    rows: Seq<Arc<IndexEntry>>,
    start: u64,
    end: u64,
    lane: u32,
    sequence: u64,
)
    ensures
        super::visibility::covered(
            super::visibility::lane_ranges_of(fenced_lanes(rows, start, end), lane),
            sequence,
        ) <==> start <= sequence < end && has_row(rows, lane, sequence),
    decreases rows.len(),
{
    if rows.len() == 0 {
        assert(!super::visibility::covered(Seq::<(u64, u64)>::empty(), sequence));
    } else {
        let front = rows.drop_last();
        let row = rows.last();
        lemma_fenced(front, start, end, lane, sequence);
        assert(rows =~= front.push(row));
        lemma_has_row_push(front, row, lane, sequence);
        lemma_range_push(
            super::visibility::lane_ranges_of(fenced_lanes(front, start, end), lane),
            (row.global_sequence, (row.global_sequence + 1) as u64),
            sequence,
        );
    }
}

/// The ranges of a lane that a fence touches hold the sequences of the rows of that
/// lane between its bounds, and nothing else.
pub proof fn law_fence_touches_its_lanes(
    rows: Seq<Arc<IndexEntry>>,
    start: u64,
    end: u64,
    lane: u32,
    sequence: u64,
)
    ensures
        super::visibility::covered(
            super::visibility::lane_ranges_of(fenced_lanes(rows, start, end), lane),
            sequence,
        ) <==> start <= sequence && sequence < end && exists|k: int|
            0 <= k < rows.len() && (#[trigger] rows[k]).dag_lane == lane && rows[k].global_sequence
                == sequence,
{
    lemma_fenced(rows, start, end, lane, sequence);
}

/// A cancelled fence hides its events, from readers of all lanes and from readers of
/// their own lane, and leaves every other held event as it was.
pub proof fn law_cancelled_fence_hides_its_events(
    before: &StoreIndex,
    after: &StoreIndex,
    id: u128,
)
    requires
        before.coherent(),
        before.sequence@.fence != 0,
        after.but_sequence(before),
        after.sequence@ == before.sequence@.fence_cancelled(
            match before.sequence@.fence_range() {
                Some(range) => fenced_lanes(before.id_rows(), range.0, range.1),
                None => Map::empty(),
            },
        ),
        before.by_id.entries().contains_key(id),
    ensures
        ({
            let x = before.by_id.entries()[id];
            let staged = before.sequence@.fence_start <= x.global_sequence && x.global_sequence
                < before.sequence@.fence_end;
            &&& staged ==> !after.sequence@.sees(x.global_sequence)
                && !after.sequence@.sees_on_lane(x.global_sequence, x.dag_lane)
            &&& !staged ==> (after.sequence@.sees(x.global_sequence) <==> before.sequence@.sees(
                x.global_sequence,
            )) && (after.sequence@.sees_on_lane(x.global_sequence, x.dag_lane)
                <==> before.sequence@.sees_on_lane(x.global_sequence, x.dag_lane))
        }),
{
    let x = before.by_id.entries()[id];
    let sequence = x.global_sequence;
    let lane = x.dag_lane;
    let s = before.sequence@;
    let ranges = match s.fence_range() {
        Some(range) => fenced_lanes(before.id_rows(), range.0, range.1),
        None => Map::empty(),
    };
    super::gate::law_cancel_hides_what_was_staged(s, ranges, sequence, lane);
    if let Some(range) = s.fence_range() {
        let rows = before.id_rows();
        law_fence_touches_its_lanes(rows, range.0, range.1, lane, sequence);
        before.by_id.lemma_order();
        let order = before.by_id.order();
        assert(order.contains(id));
        let k = choose|k: int| 0 <= k < order.len() && order[k] == id;
        assert(rows[k] == x);
        super::visibility::law_covered_lies_in_a_range(
            super::visibility::lane_ranges_of(ranges, lane),
            sequence,
        );
    }
    let t = after.sequence@;
    super::visibility::law_covered_lies_in_a_range(t.cancelled, sequence);
    super::visibility::law_covered_lies_in_a_range(s.cancelled, sequence);
    super::visibility::law_covered_lies_in_a_range(
        super::visibility::lane_ranges_of(t.lane_cancelled, lane),
        sequence,
    );
    super::visibility::law_covered_lies_in_a_range(
        super::visibility::lane_ranges_of(s.lane_cancelled, lane),
        sequence,
    );
}

/// The clock point of a sequence is that of an event with this sequence; there is none
/// exactly where no event has it.
pub proof fn law_point_is_of_the_event(index: &StoreIndex, sequence: u64, r: Option<HlcPoint>)
    requires
        index.wf(),
        call_ensures(StoreIndex::hlc_for_global_sequence, (index, sequence), r),
    ensures
        r is Some <==> exists|i: int|
            0 <= i < index.id_rows().len() && (#[trigger] index.id_rows()[i]).global_sequence
                == sequence,
        r matches Some(point) ==> point.global_sequence == sequence && exists|i: int|
            0 <= i < index.id_rows().len() && (#[trigger] index.id_rows()[i]).global_sequence
                == sequence && index.id_rows()[i].wall_ms == point.wall_ms,
{
}

/// An index that took over another's contents holds the same events, newest events and
/// streams, and shows up to the same bound but for what the other hides; it has no
/// fence. Where the other's bounds are out of order it shows nothing.
pub proof fn law_replaced_index_shows_what_the_other_shows(
    new: &StoreIndex,
    before: &StoreIndex,
    fresh: &StoreIndex,
    r: Result<(), StoreError>,
    sequence: u64,
)
    requires
        fresh.wf(),
        new.replaced_by(before, fresh, r),
    ensures
        new.by_id.entries() == fresh.by_id.entries(),
        new.latest.entries() == fresh.latest.entries(),
        new.streams.entries() == fresh.streams.entries(),
        r is Ok <==> fresh.sequence@.visible <= fresh.sequence@.allocated,
        r is Ok ==> {
            &&& new.sequence@.allocated == fresh.sequence@.allocated
            &&& new.sequence@.visible == fresh.sequence@.visible
            &&& new.sequence@.fence == 0
            &&& new.sequence@.cancelled == fresh.sequence@.cancelled
            &&& new.sequence@.lane_cancelled == fresh.sequence@.lane_cancelled
            &&& new.sequence@.sees(sequence) <==> fresh.sequence@.sees(sequence)
        },
        r is Err ==> new.sequence@.visible == 0 && !new.sequence@.sees(sequence),
{
    super::gate::law_hidden_ranges_round_trip(fresh.sequence@);
}

/// All events of an index are told, each whole and once.
pub proof fn law_all_entries_are_told_once(index: &StoreIndex, r: Vec<IndexEntry>, id: u128)
    requires
        index.coherent(),
        call_ensures(StoreIndex::all_entries, (index,), r),
    ensures
        r@.len() == index.by_id.entries().dom().len(),
        index.by_id.entries().contains_key(id) <==> exists|i: int|
            0 <= i < r@.len() && (#[trigger] r@[i]).event_id == id,
        forall|i: int|
            #![trigger r@[i]]
            0 <= i < r@.len() ==> index.by_id.entries().contains_key(r@[i].event_id) && r@[i].same(
                &index.by_id.entries()[r@[i].event_id],
            ),
        forall|i: int, j: int|
            #![trigger r@[i], r@[j]]
            0 <= i < j < r@.len() ==> r@[i].event_id != r@[j].event_id,
{
    index.by_id.lemma_order();
    let order = index.by_id.order();
    let rows = index.id_rows();
    assert forall|i: int| #![trigger r@[i]] 0 <= i < r@.len() implies r@[i].event_id == order[i]
        && index.by_id.entries().contains_key(order[i]) by {
        assert(rows[i].same(&r@[i]));
        assert(order.contains(order[i]));
        assert(index.by_id.entries().contains_key(order[i]));
    }
    assert forall|i: int|
        #![trigger r@[i]]
        0 <= i < r@.len() implies index.by_id.entries().contains_key(r@[i].event_id) && r@[i].same(
        &index.by_id.entries()[r@[i].event_id],
    ) by {
        assert(rows[i].same(&r@[i]));
    }
    if index.by_id.entries().contains_key(id) {
        let i = choose|i: int| 0 <= i < order.len() && order[i] == id;
        assert(r@[i].event_id == id);
    }
}

/// A batch of events with new identifiers leaves every one of them held, and whatever was
/// held before; nothing else is.
pub proof fn law_batch_holds_every_event(
    states: Seq<StoreIndex>,
    before: &StoreIndex,
    after: &StoreIndex,
    entries: Seq<IndexEntry>,
    k: int,
    id: u128,
)
    requires
        is_batch(states, *before, *after, entries),
        ids_fresh(before, entries),
    ensures
        0 <= k < entries.len() ==> after.by_id.entries().contains_key(entries[k].event_id)
            && *after.by_id.entries()[entries[k].event_id] == entries[k],
        before.by_id.entries().contains_key(id) ==> after.by_id.entries().contains_key(id)
            && after.by_id.entries()[id] == before.by_id.entries()[id],
        after.by_id.entries().contains_key(id) ==> before.by_id.entries().contains_key(id)
            || exists|i: int| 0 <= i < entries.len() && (#[trigger] entries[i]).event_id == id,
    decreases entries.len(),
{
    if entries.len() > 0 {
        let front = entries.drop_last();
        let n = front.len() as int;
        let mid = states[n];
        assert forall|i: int| 0 <= i < front.len() implies #[trigger] stepped(
            states.drop_last()[i],
            states.drop_last()[i + 1],
            front[i],
        ) by {
            assert(stepped(states[i], states[i + 1], entries[i]));
        }
        assert forall|i: int| 0 <= i < front.len() implies !before.by_id.entries().contains_key(
            (#[trigger] front[i]).event_id,
        ) by {
            assert(front[i] == entries[i]);
        }
        assert forall|i: int, j: int| 0 <= i < j < front.len() implies (
        #[trigger] front[i]).event_id != (#[trigger] front[j]).event_id by {
            assert(front[i] == entries[i] && front[j] == entries[j]);
        }
        law_batch_holds_every_event(states.drop_last(), before, &mid, front, k, id);
        assert(stepped(states[n], states[n + 1], entries[n]));
        let row = choose|row: Arc<IndexEntry>|
            *row == entries[n] && #[trigger] after.took(&mid, row);
        assert(after.took(&mid, row));
        if 0 <= k < n {
            assert(entries[k].event_id != entries[n].event_id);
            assert(front[k] == entries[k]);
        }
        assert(!before.by_id.entries().contains_key(entries[n].event_id));
        if after.by_id.entries().contains_key(id) && !before.by_id.entries().contains_key(id) {
            if id == entries[n].event_id {
                assert(entries[n].event_id == id);
            } else {
                let i = choose|i: int| 0 <= i < front.len() && (#[trigger] front[i]).event_id == id;
                assert(entries[i].event_id == id);
            }
        }
    }
}

/// A restore of entries with distinct identifiers leaves every one of them held, and no
/// other event. The newest event of an entity is then the last of its events by wall
/// clock, clock and identifier.
pub proof fn law_restored_index_holds_every_entry(
    new: &StoreIndex,
    base: &RestoreBase,
    old: &StoreIndex,
    entries: Seq<IndexEntry>,
    chunk_count: int,
    routing_hint: Option<&RoutingSummary>,
    k: int,
    id: u128,
)
    requires
        base.prepares(entries, chunk_count, routing_hint),
        new.restored(base, old),
        old.scan.wf(),
        ids_distinct(entries),
        super::restore::are_runs(
            base.routing.entity_runs@,
            base.entries_by_entity@,
            base.entries_by_entity@.len() as int,
        ),
    ensures
        0 <= k < entries.len() ==> new.by_id.entries().contains_key(entries[k].event_id)
            && *new.by_id.entries()[entries[k].event_id] == entries[k],
        new.by_id.entries().contains_key(id) ==> exists|i: int|
            0 <= i < entries.len() && (#[trigger] entries[i]).event_id == id,
        0 <= k < entries.len() ==> {
            let newest = new.latest.entries()[entries[k].coord.entity_spec()];
            &&& new.latest.entries().contains_key(entries[k].coord.entity_spec())
            &&& newest.coord.entity_spec() == entries[k].coord.entity_spec()
            &&& newest.wall_ms > entries[k].wall_ms || (newest.wall_ms == entries[k].wall_ms
                && newest.clock > entries[k].clock) || (newest.wall_ms == entries[k].wall_ms
                && newest.clock == entries[k].clock && newest.event_id >= entries[k].event_id)
        },
{
    law_restored_is_coherent(new, base, old, entries, chunk_count, routing_hint);
    let rows = base.entries_by_sequence@;
    if 0 <= k < entries.len() {
        let x = rows[k];
        assert(*x == entries[k]);
        assert(rows.contains(x));
        assert(new.holds(x));
        lemma_newest_is_last(new, base, old, x);
    }
    if new.by_id.entries().contains_key(id) {
        let x = new.by_id.entries()[id];
        assert(x.event_id == id);
        assert(new.holds(x));
        assert(rows.contains(x));
        let i = rows.index_of(x);
        assert(*rows[i] == entries[i]);
        assert(entries[i].event_id == id);
    }
}

/// The last run of an entity.
proof fn lemma_last_run(runs: Seq<EntityRun>, e: Seq<char>) -> (i: int)
    requires
        exists|i: int| 0 <= i < runs.len() && (#[trigger] runs[i]).entity@ == e,
    ensures
        0 <= i < runs.len(),
        runs[i].entity@ == e,
        is_last_run(runs, i),
    decreases runs.len(),
{
    if runs.last().entity@ == e {
        runs.len() - 1
    } else {
        let head = runs.drop_last();
        let w = choose|w: int| 0 <= w < runs.len() && (#[trigger] runs[w]).entity@ == e;
        assert(head[w].entity@ == e);
        let i = lemma_last_run(head, e);
        assert forall|j: int| i < j < runs.len() implies (#[trigger] runs[j]).entity@
            != runs[i].entity@ by {
            if j < head.len() {
                assert(head[j] == runs[j]);
            }
        }
        i
    }
}

proof fn lemma_newest_is_last(
    new: &StoreIndex,
    base: &RestoreBase,
    old: &StoreIndex,
    x: Arc<IndexEntry>,
)
    requires
        new.coherent(),
        new.restored(base, old),
        crate::sort::is_stable_sort(base.entries_by_entity@, base.entries_by_sequence@),
        super::restore::are_runs(
            base.routing.entity_runs@,
            base.entries_by_entity@,
            base.entries_by_entity@.len() as int,
        ),
        base.entries_by_sequence@.contains(x),
        new.holds(x),
    ensures
        new.latest.entries().contains_key(x.coord.entity_spec()),
        new.latest.entries()[x.coord.entity_spec()].coord.entity_spec() == x.coord.entity_spec(),
        !new.latest.entries()[x.coord.entity_spec()].key().before_spec(x.key()),
{
    let e = x.coord.entity_spec();
    let by_entity = base.entries_by_entity@;
    let runs = base.routing.entity_runs@;
    assert(new.stream_rows(e).contains(x));
    assert(new.has_stream(e));
    assert(new.latest.entries().contains_key(e));
    let i = lemma_last_run(runs, e);
    assert(run_restored(new, runs[i], by_entity));
    assert(super::restore::is_run(runs[i], by_entity));
    let q = runs[i].start + runs[i].len - 1;
    let newest = by_entity[q];
    assert(new.latest.entries()[e] == newest);
    assert(newest.coord.entity_spec() == e);
    by_entity.to_multiset_ensures();
    base.entries_by_sequence@.to_multiset_ensures();
    assert(base.entries_by_sequence@.to_multiset().count(x) > 0);
    assert(by_entity.contains(x));
    let p = by_entity.index_of(x);
    let bytes = x.entity_bytes();
    crate::text::lemma_bytes_before_irreflexive(bytes);
    if p <= q {
        assert(<Arc<IndexEntry> as crate::sort::Ranked>::rank_le(by_entity[p], by_entity[q]));
    } else {
        assert(i < runs.len() - 1) by {
            if i == runs.len() - 1 {
                assert(runs.last() == runs[i]);
            }
        }
        assert(runs[i + 1].start == q + 1);
        assert(super::restore::is_run(runs[i + 1], by_entity));
        let next = by_entity[q + 1];
        assert(next.coord.entity_spec() == runs[i + 1].entity@);
        assert(<Arc<IndexEntry> as crate::sort::Ranked>::rank_le(by_entity[q], by_entity[q + 1]));
        assert(<Arc<IndexEntry> as crate::sort::Ranked>::rank_le(by_entity[q + 1], by_entity[p]));
        if next.entity_bytes() == bytes {
            crate::text::law_utf8_injective(next.coord.entity_spec(), e);
        } else {
            assert(crate::text::bytes_before(bytes, next.entity_bytes()));
            crate::text::lemma_bytes_before_asymmetric(bytes, next.entity_bytes());
        }
    }
}

} // verus!
