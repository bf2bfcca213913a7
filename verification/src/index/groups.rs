//! Entity groups: rows of one entity together with its cached projections.

use super::entry::{IndexEntry, QueryHit};
use super::stream::{collect_matching, EntryQuery};
use crate::event::EventKind;
use crate::table::{NameTable, Table};
use std::sync::Arc;
use vstd::prelude::*;

verus! {

/// Identity of a projection type.
#[derive(Clone, Copy, Debug, PartialEq, Eq, Hash, Structural)]
pub struct ProjectionTypeId {
    /// Number of the type.
    pub id: u128,
}

/// Cached state of one projection of one entity.
#[derive(Debug, PartialEq, Eq)]
pub struct CachedProjectionSlot {
    /// Encoded state.
    pub bytes: Vec<u8>,
    /// Highest sequence that the state has seen.
    pub watermark: u64,
    /// Generation of the entity when the state was stored.
    pub generation: u64,
}

impl CachedProjectionSlot {
    /// The two slots hold the same values.
    pub open spec fn same(&self, other: &CachedProjectionSlot) -> bool {
        &&& self.bytes@ == other.bytes@
        &&& self.watermark == other.watermark
        &&& self.generation == other.generation
    }
}

/// A copy of a byte vector.
pub fn copy_bytes(bytes: &Vec<u8>) -> (copy: Vec<u8>)
    ensures
        copy@ == bytes@,
{
    let mut copy: Vec<u8> = Vec::new();
    let mut i: usize = 0;
    while i < bytes.len()
        invariant
            i <= bytes@.len(),
            copy@ == bytes@.take(i as int),
        decreases bytes@.len() - i,
    {
        copy.push(bytes[i]);
        i += 1;
        assert(copy@ =~= bytes@.take(i as int));
    }
    assert(copy@ =~= bytes@);
    copy
}

impl Clone for CachedProjectionSlot {
    fn clone(&self) -> (r: CachedProjectionSlot)
        ensures
            r.same(self),
    {
        CachedProjectionSlot {
            bytes: copy_bytes(&self.bytes),
            watermark: self.watermark,
            generation: self.generation,
        }
    }
}

/// A projection consumes a kind: it is among the relevant kinds, or none are
/// named.
pub open spec fn relevant(kinds: Seq<EventKind>, kind: EventKind) -> bool {
    kinds.len() == 0 || kinds.contains(kind)
}

/// Whether a projection with the given relevant kinds consumes `kind`.
pub fn projection_kind_matches(relevant_kinds: &[EventKind], kind: EventKind) -> (r: bool)
    ensures
        r == relevant(relevant_kinds@, kind),
{
    if relevant_kinds.len() == 0 {
        return true;
    }
    let mut i: usize = 0;
    while i < relevant_kinds.len()
        invariant
            relevant_kinds@.len() > 0,
            i <= relevant_kinds@.len(),
            forall|k: int| 0 <= k < i ==> relevant_kinds@[k] != kind,
        decreases relevant_kinds@.len() - i,
    {
        if relevant_kinds[i] == kind {
            assert(relevant_kinds@[i as int] == kind);
            return true;
        }
        i += 1;
    }
    false
}

/// The rows whose kind a projection consumes.
pub open spec fn relevant_rows(
    rows: Seq<Arc<IndexEntry>>,
    kinds: Seq<EventKind>,
) -> Seq<Arc<IndexEntry>> {
    rows.filter(|e: Arc<IndexEntry>| relevant(kinds, e.kind))
}

/// One more row.
pub proof fn lemma_relevant_push(
    rows: Seq<Arc<IndexEntry>>,
    row: Arc<IndexEntry>,
    kinds: Seq<EventKind>,
)
    ensures
        relevant_rows(rows.push(row), kinds) == (if relevant(kinds, row.kind) {
            relevant_rows(rows, kinds).push(row)
        } else {
            relevant_rows(rows, kinds)
        }),
{
    reveal(Seq::filter);
    assert(rows.push(row).drop_last() =~= rows);
}

/// Rows of one entity and its cached projections.
pub struct EntityGroup {
    rows: Vec<Arc<IndexEntry>>,
    slots: Table<CachedProjectionSlot>,
}

/// What a projection replay starts from: the highest sequence among the
/// candidates, the generation of the entity, and the candidates.
pub struct ProjectionCandidates {
    /// Sequence of the last candidate.
    pub watermark: u64,
    /// Generation of the entity.
    pub generation: u64,
    /// The candidates in row order.
    pub hits: Vec<QueryHit>,
}

/// Rows grouped by entity.
pub struct SoAoSInner {
    groups: NameTable<EntityGroup>,
}

impl SoAoSInner {
    /// Rows lie in the group of their entity.
    pub closed spec fn wf(&self) -> bool {
        &&& self.groups.wf()
        &&& forall|name: Seq<char>| #[trigger]
            self.groups.entries().contains_key(name) ==> {
                &&& self.groups.entries()[name].slots.wf()
                &&& forall|i: int|
                    0 <= i < self.groups.entries()[name].rows@.len() ==> (
                    #[trigger] self.groups.entries()[name].rows@[i]).coord.entity_spec() == name
            }
    }

    /// The rows of each group, in group order.
    pub closed spec fn parts(&self) -> Seq<Seq<Arc<IndexEntry>>> {
        self.groups.order().map_values(|name: Seq<char>| self.groups.entries()[name].rows@)
    }

    /// The rows in group order.
    pub open spec fn listing(&self) -> Seq<Arc<IndexEntry>> {
        super::layout::flat(self.parts())
    }

    /// The entity has a group.
    pub closed spec fn has(&self, entity: Seq<char>) -> bool {
        self.groups.entries().contains_key(entity)
    }

    /// The rows of an entity.
    pub closed spec fn rows_of(&self, entity: Seq<char>) -> Seq<Arc<IndexEntry>> {
        if self.groups.entries().contains_key(entity) {
            self.groups.entries()[entity].rows@
        } else {
            Seq::empty()
        }
    }

    /// The cached projections of an entity.
    pub closed spec fn slots_of(&self, entity: Seq<char>) -> Map<u128, CachedProjectionSlot> {
        if self.groups.entries().contains_key(entity) {
            self.groups.entries()[entity].slots.entries()
        } else {
            Map::empty()
        }
    }

    /// No rows.
    pub fn new() -> (s: SoAoSInner)
        ensures
            s.wf(),
            s.listing() == Seq::<Arc<IndexEntry>>::empty(),
            forall|entity: Seq<char>| !#[trigger] s.has(entity),
            forall|entity: Seq<char>| #[trigger]
                s.rows_of(entity) == Seq::<Arc<IndexEntry>>::empty(),
            forall|entity: Seq<char>| #[trigger]
                s.slots_of(entity) == Map::<u128, CachedProjectionSlot>::empty(),
    {
        SoAoSInner { groups: NameTable::new() }
    }

    /// Append a row to the group of its entity.
    pub fn push(&mut self, entry: &Arc<IndexEntry>)
        requires
            old(self).wf(),
        ensures
            final(self).wf(),
            final(self).listing().to_multiset() == old(self).listing().to_multiset().insert(
                *entry,
            ),
            final(self).listing().len() == old(self).listing().len() + 1,
            forall|entity: Seq<char>| #[trigger]
                final(self).has(entity) == (old(self).has(entity) || entity
                    == entry.coord.entity_spec()),
            forall|entity: Seq<char>| #[trigger]
                final(self).rows_of(entity) == (if entity == entry.coord.entity_spec() {
                    old(self).rows_of(entity).push(*entry)
                } else {
                    old(self).rows_of(entity)
                }),
            forall|entity: Seq<char>| #[trigger]
                final(self).slots_of(entity) == old(self).slots_of(entity),
    {
        let ghost before = *self;
        let ghost name = entry.coord.entity_spec();
        let entity = entry.coord.entity();
        proof {
            self.groups.lemma_order();
        }
        match self.groups.get_mut(entity) {
            Some(group) => {
                group.rows.push(Arc::clone(entry));
                proof {
                    let i = before.groups.order().index_of(name);
                    assert(before.groups.order().contains(name));
                    assert(before.groups.order()[i] == name);
                    assert(self.parts() =~= before.parts().update(
                        i,
                        before.parts()[i].push(*entry),
                    )) by {
                        assert forall|k: int| 0 <= k < self.parts().len() implies self.parts()[k]
                            == before.parts().update(i, before.parts()[i].push(*entry))[k] by {
                            if k != i {
                                assert(before.groups.order()[k] != name);
                            }
                        }
                    }
                    super::layout::lemma_flat_grow(before.parts(), i, *entry);
                }
            },
            None => {
                let mut rows: Vec<Arc<IndexEntry>> = Vec::new();
                rows.push(Arc::clone(entry));
                self.groups.insert(entity, EntityGroup { rows, slots: Table::new() });
                proof {
                    assert forall|k: int| 0 <= k < before.groups.order().len() implies (
                    #[trigger] before.groups.order()[k]) != name by {
                        assert(before.groups.entries().contains_key(before.groups.order()[k]));
                    }
                    assert(self.parts() =~= before.parts().push(seq![*entry])) by {
                        assert forall|k: int| 0 <= k < self.parts().len() implies self.parts()[k]
                            == before.parts().push(seq![*entry])[k] by {
                            if k < before.parts().len() {
                                assert(self.groups.order()[k] == before.groups.order()[k]);
                            }
                        }
                    }
                    super::layout::lemma_flat_push(before.parts(), seq![*entry]);
                    assert(self.listing() =~= before.listing().push(*entry));
                    before.listing().to_multiset_ensures();
                    assert(self.rows_of(name) =~= before.rows_of(name).push(*entry));
                    assert(self.slots_of(name) =~= before.slots_of(name));
                }
            },
        }
        proof {
            assert forall|n: Seq<char>| #[trigger] self.groups.entries().contains_key(n) implies {
                &&& self.groups.entries()[n].slots.wf()
                &&& forall|i: int|
                    0 <= i < self.groups.entries()[n].rows@.len() ==> (
                    #[trigger] self.groups.entries()[n].rows@[i]).coord.entity_spec() == n
            } by {
                if before.groups.entries().contains_key(n) {
                    assert(before.groups.entries()[n].slots.wf());
                    if n != name {
                        assert(self.groups.entries()[n] == before.groups.entries()[n]);
                    } else {
                        let rows = self.groups.entries()[n].rows@;
                        let old_rows = before.groups.entries()[n].rows@;
                        assert forall|i: int| 0 <= i < rows.len() implies (#[trigger] rows[i])
                            .coord.entity_spec() == n by {
                            if i < old_rows.len() {
                                assert(rows[i] == old_rows[i]);
                            }
                        }
                    }
                }
            }
        }
    }

    /// The hits of the rows that `query` admits.
    pub fn hits_candidates(&self, query: EntryQuery) -> (hits: Vec<QueryHit>)
        requires
            self.wf(),
        ensures
            hits@ == super::stream::matching(self.listing(), query),
    {
        let mut out: Vec<QueryHit> = Vec::new();
        let mut i: usize = 0;
        proof {
            super::stream::lemma_matching_none(
                super::layout::flat(self.parts().take(0)),
                query,
            );
        }
        while i < self.groups.len()
            invariant
                self.wf(),
                i <= self.groups.order().len(),
                self.parts().len() == self.groups.order().len(),
                out@ == super::stream::matching(
                    super::layout::flat(self.parts().take(i as int)),
                    query,
                ),
            decreases self.groups.order().len() - i,
        {
            proof {
                assert(self.parts().take(i + 1) =~= self.parts().take(i as int).push(
                    self.parts()[i as int],
                ));
                super::layout::lemma_flat_push(
                    self.parts().take(i as int),
                    self.parts()[i as int],
                );
                super::stream::lemma_matching_add(
                    super::layout::flat(self.parts().take(i as int)),
                    self.parts()[i as int],
                    query,
                );
            }
            let group = self.groups.value_at(i);
            collect_matching(&group.rows, query, &mut out);
            i += 1;
            assert(out@ =~= super::stream::matching(
                super::layout::flat(self.parts().take(i as int)),
                query,
            ));
        }
        assert(self.parts().take(self.parts().len() as int) =~= self.parts());
        out
    }

    /// Generation of an entity: the number of its rows.
    pub fn entity_generation(&self, entity: &str) -> (r: Option<u64>)
        requires
            self.wf(),
        ensures
            r == (if self.has(entity@) {
                Some(self.rows_of(entity@).len() as u64)
            } else {
                None
            }),
    {
        match self.groups.get(entity) {
            Some(group) => Some(group.rows.len() as u64),
            None => None,
        }
    }

    /// The cached state of a projection of an entity.
    pub fn cached_projection(&self, entity: &str, type_id: ProjectionTypeId) -> (r: Option<
        CachedProjectionSlot,
    >)
        requires
            self.wf(),
        ensures
            match r {
                Some(slot) => self.slots_of(entity@).contains_key(type_id.id) && slot.same(
                    &self.slots_of(entity@)[type_id.id],
                ),
                None => !self.slots_of(entity@).contains_key(type_id.id),
            },
    {
        match self.groups.get(entity) {
            Some(group) => match group.slots.get(type_id.id) {
                Some(slot) => Some(slot.clone()),
                None => None,
            },
            None => None,
        }
    }

    /// Store the state of a projection of an entity, stamped with the current
    /// generation of the entity. Nothing is stored for an unknown entity.
    pub fn store_cached_projection(
        &mut self,
        entity: &str,
        type_id: ProjectionTypeId,
        bytes: Vec<u8>,
        watermark: u64,
    ) -> (stored: bool)
        requires
            old(self).wf(),
        ensures
            final(self).wf(),
            stored == old(self).has(entity@),
            final(self).listing() == old(self).listing(),
            forall|e: Seq<char>| #[trigger] final(self).has(e) == old(self).has(e),
            forall|e: Seq<char>| #[trigger] final(self).rows_of(e) == old(self).rows_of(e),
            forall|e: Seq<char>| #[trigger]
                final(self).slots_of(e) == (if e == entity@ && stored {
                    old(self).slots_of(e).insert(
                        type_id.id,
                        CachedProjectionSlot {
                            bytes,
                            watermark,
                            generation: old(self).rows_of(e).len() as u64,
                        },
                    )
                } else {
                    old(self).slots_of(e)
                }),
    {
        let ghost before = *self;
        let stored = match self.groups.get_mut(entity) {
            Some(group) => {
                let generation: u64 = group.rows.len() as u64;
                group.slots.insert(
                    type_id.id,
                    CachedProjectionSlot { bytes, watermark, generation },
                );
                true
            },
            None => false,
        };
        assert(self.parts() =~= before.parts());
        proof {
            assert forall|n: Seq<char>| #[trigger] self.groups.entries().contains_key(n) implies {
                &&& self.groups.entries()[n].slots.wf()
                &&& forall|i: int|
                    0 <= i < self.groups.entries()[n].rows@.len() ==> (
                    #[trigger] self.groups.entries()[n].rows@[i]).coord.entity_spec() == n
            } by {
                assert(before.groups.entries().contains_key(n));
                assert(before.groups.entries()[n].slots.wf());
                assert(self.groups.entries()[n].rows@ == before.groups.entries()[n].rows@);
            }
        }
        stored
    }

    /// The rows of an entity that a projection consumes, where there are any.
    pub fn projection_candidates(&self, entity: &str, relevant_kinds: &[EventKind]) -> (r: Option<
        ProjectionCandidates,
    >)
        requires
            self.wf(),
        ensures
            r is Some <==> relevant_rows(self.rows_of(entity@), relevant_kinds@).len() > 0,
            r matches Some(c) ==> {
                let rows = relevant_rows(self.rows_of(entity@), relevant_kinds@);
                &&& c.hits@ == super::stream::hits(rows)
                &&& c.watermark == rows.last().global_sequence
                &&& c.generation == self.rows_of(entity@).len()
            },
    {
        let group = match self.groups.get(entity) {
            Some(group) => group,
            None => {
                reveal(Seq::filter);
                return None;
            },
        };
        let mut hits: Vec<QueryHit> = Vec::new();
        let mut watermark: Option<u64> = None;
        let mut i: usize = 0;
        let ghost rows = group.rows@;
        reveal(Seq::filter);
        assert(rows.take(0).filter(
            |e: Arc<IndexEntry>| relevant(relevant_kinds@, e.kind),
        ) =~= Seq::<Arc<IndexEntry>>::empty());
        assert(super::stream::hits(relevant_rows(rows.take(0), relevant_kinds@)) =~= hits@);
        while i < group.rows.len()
            invariant
                rows == group.rows@,
                i <= rows.len(),
                hits@ == super::stream::hits(
                    relevant_rows(rows.take(i as int), relevant_kinds@),
                ),
                watermark is Some <==> relevant_rows(
                    rows.take(i as int),
                    relevant_kinds@,
                ).len() > 0,
                watermark matches Some(w) ==> w == relevant_rows(
                    rows.take(i as int),
                    relevant_kinds@,
                ).last().global_sequence,
            decreases rows.len() - i,
        {
            proof {
                assert(rows.take(i + 1) =~= rows.take(i as int).push(rows[i as int]));
                lemma_relevant_push(rows.take(i as int), rows[i as int], relevant_kinds@);
            }
            if projection_kind_matches(relevant_kinds, group.rows[i].kind) {
                hits.push(QueryHit::from_entry(&group.rows[i]));
                watermark = Some(group.rows[i].global_sequence);
            }
            i += 1;
            assert(hits@ =~= super::stream::hits(
                relevant_rows(rows.take(i as int), relevant_kinds@),
            ));
        }
        assert(rows.take(rows.len() as int) =~= rows);
        match watermark {
            Some(watermark) => Some(
                ProjectionCandidates { watermark, generation: group.rows.len() as u64, hits },
            ),
            None => None,
        }
    }
}

/// A kind is relevant where it is one of those named, and every kind is where none are.
pub proof fn law_no_kinds_named_means_all(kinds: &[EventKind], kind: EventKind, r: bool)
    requires
        call_ensures(projection_kind_matches, (kinds, kind), r),
    ensures
        kinds@.len() == 0 ==> r,
        kinds@.len() > 0 ==> (r <==> exists|k: int|
            0 <= k < kinds@.len() && #[trigger] kinds@[k] == kind),
{
    if r && kinds@.len() > 0 {
        let k = choose|k: int| 0 <= k < kinds@.len() && kinds@[k] == kind;
        assert(kinds@[k] == kind);
    }
}

} // verus!
