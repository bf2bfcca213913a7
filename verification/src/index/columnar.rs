//! Columnar overlays: one interface over the storage layouts.

use super::entry::{IndexEntry, QueryHit};
use super::groups::{
    CachedProjectionSlot, ProjectionCandidates, ProjectionTypeId, SoAoSInner,
};
use super::layout::{AoSoA64SimdInner, AoSoAInner, SoAInner, Tile};
use super::stream::EntryQuery;
use crate::event::EventKind;
use crate::sort::{stable_sort, Ranked};
use std::sync::Arc;
use vstd::prelude::*;

verus! {

/// The stable sort of hits by global sequence.
pub open spec fn sorted_hits(hits: Seq<QueryHit>) -> Seq<QueryHit> {
    crate::sort::sorted_by_rank(hits)
}

/// The hits past a position: all of them before the first read.
pub open spec fn hits_past(hits: Seq<QueryHit>, after_seq: u64, started: bool) -> Seq<QueryHit> {
    hits.filter(|h: QueryHit| !started || h.global_sequence > after_seq)
}

/// At most `limit` of the hits, from the front.
pub open spec fn at_most(hits: Seq<QueryHit>, limit: usize) -> Seq<QueryHit> {
    if limit < hits.len() {
        hits.take(limit as int)
    } else {
        hits
    }
}

/// The first `limit` hits past a position, by global sequence.
pub open spec fn bounded_after(
    hits: Seq<QueryHit>,
    after_seq: u64,
    started: bool,
    limit: usize,
) -> Seq<QueryHit> {
    at_most(sorted_hits(hits_past(hits, after_seq, started)), limit)
}

/// Sort hits by global sequence.
pub fn sort_hits(hits: &mut Vec<QueryHit>)
    ensures
        final(hits)@ == sorted_hits(old(hits)@),
        crate::sort::is_stable_sort(final(hits)@, old(hits)@),
{
    let sorted = stable_sort(hits);
    *hits = sorted;
}

/// Keep the hits past a position, sort them, and cut them off at `limit`.
pub fn apply_after_bounds(v: &mut Vec<QueryHit>, after_seq: u64, started: bool, limit: usize)
    ensures
        final(v)@ == bounded_after(old(v)@, after_seq, started, limit),
{
    let ghost all = v@;
    let ghost keep = |h: QueryHit| !started || h.global_sequence > after_seq;
    let mut kept: Vec<QueryHit> = Vec::new();
    let mut i: usize = 0;
    reveal(Seq::filter);
    assert(all.take(0).filter(keep) =~= kept@);
    while i < v.len()
        invariant
            v@ == all,
            keep == (|h: QueryHit| !started || h.global_sequence > after_seq),
            i <= all.len(),
            kept@ == all.take(i as int).filter(keep),
        decreases all.len() - i,
    {
        proof {
            reveal(Seq::filter);
            assert(all.take(i + 1).drop_last() =~= all.take(i as int));
        }
        if !started || v[i].global_sequence > after_seq {
            kept.push(v[i]);
        }
        i += 1;
    }
    assert(all.take(all.len() as int) =~= all);
    sort_hits(&mut kept);
    kept.truncate(limit);
    *v = kept;
    proof {
        let s = sorted_hits(hits_past(all, after_seq, started));
        assert(v@ =~= at_most(s, limit));
    }
}

/// Whether a projection state was stored in the overlay.
#[derive(Clone, Copy, Debug, PartialEq, Eq, Structural)]
pub enum ProjectionCacheStoreStatus {
    /// The state was stored.
    Stored,
    /// The entity is unknown.
    MissingEntity,
    /// The layout keeps no projection states.
    UnsupportedTopology,
}

impl ProjectionCacheStoreStatus {
    /// Whether the state was stored.
    pub fn is_stored(self) -> (r: bool)
        ensures
            r == (self is Stored),
    {
        matches!(self, ProjectionCacheStoreStatus::Stored)
    }
}

/// The tile is sound and holds the rows.
pub open spec fn tile_holds<const N: usize>(tile: Tile<N>, rows: Seq<Arc<IndexEntry>>) -> bool {
    tile.wf() && tile.rows@ == rows
}

/// How an overlay lays out its rows.
#[derive(Clone, Copy, Debug, PartialEq, Eq, Structural)]
pub enum Layout {
    /// One row after the other.
    Flat,
    /// Tiles of 8 rows of one kind each.
    Tiles8,
    /// Tiles of 16 rows of one kind each.
    Tiles16,
    /// Tiles of 64 rows of one kind each.
    Tiles64,
    /// Tiles of 64 rows of any kind.
    Mixed64,
    /// One group for each entity.
    Groups,
}

/// The tiles of a layout with one more row.
pub open spec fn laid(
    layout: Layout,
    parts: Seq<Seq<Arc<IndexEntry>>>,
    row: Arc<IndexEntry>,
) -> Seq<Seq<Arc<IndexEntry>>> {
    match layout {
        Layout::Tiles8 => super::layout::tiled(parts, 8, row),
        Layout::Tiles16 => super::layout::tiled(parts, 16, row),
        Layout::Tiles64 => super::layout::tiled(parts, 64, row),
        Layout::Mixed64 => super::layout::mixed(parts, row),
        Layout::Flat | Layout::Groups => parts,
    }
}

/// The tiles of a layout for rows that are laid one after the other.
pub open spec fn laid_out(layout: Layout, rows: Seq<Arc<IndexEntry>>) -> Seq<
    Seq<Arc<IndexEntry>>,
>
    decreases rows.len(),
{
    if rows.len() == 0 {
        Seq::empty()
    } else {
        laid(layout, laid_out(layout, rows.drop_last()), rows.last())
    }
}

/// Storage variant of an overlay.
enum ColumnarVariant {
    SoA(SoAInner),
    AoSoA8(AoSoAInner<8>),
    AoSoA16(AoSoAInner<16>),
    AoSoA64(AoSoAInner<64>),
    AoSoA64Simd(AoSoA64SimdInner),
    SoAoS(SoAoSInner),
}

/// A scan overlay in one of the layouts.
pub struct ColumnarIndex {
    inner: ColumnarVariant,
}

impl ColumnarIndex {
    /// The layout is sound.
    pub closed spec fn wf(&self) -> bool {
        match self.inner {
            ColumnarVariant::SoA(inner) => inner.wf(),
            ColumnarVariant::AoSoA8(inner) => inner.wf(),
            ColumnarVariant::AoSoA16(inner) => inner.wf(),
            ColumnarVariant::AoSoA64(inner) => inner.wf(),
            ColumnarVariant::AoSoA64Simd(inner) => inner.wf(),
            ColumnarVariant::SoAoS(inner) => inner.wf(),
        }
    }

    /// The rows, in the order of the layout.
    pub closed spec fn listing(&self) -> Seq<Arc<IndexEntry>> {
        match self.inner {
            ColumnarVariant::SoA(inner) => inner.listing(),
            ColumnarVariant::AoSoA8(inner) => inner.listing(),
            ColumnarVariant::AoSoA16(inner) => inner.listing(),
            ColumnarVariant::AoSoA64(inner) => inner.listing(),
            ColumnarVariant::AoSoA64Simd(inner) => inner.listing(),
            ColumnarVariant::SoAoS(inner) => inner.listing(),
        }
    }

    /// How the rows are laid out.
    pub closed spec fn layout(&self) -> Layout {
        match self.inner {
            ColumnarVariant::SoA(_) => Layout::Flat,
            ColumnarVariant::AoSoA8(_) => Layout::Tiles8,
            ColumnarVariant::AoSoA16(_) => Layout::Tiles16,
            ColumnarVariant::AoSoA64(_) => Layout::Tiles64,
            ColumnarVariant::AoSoA64Simd(_) => Layout::Mixed64,
            ColumnarVariant::SoAoS(_) => Layout::Groups,
        }
    }

    /// The rows of each tile; none for layouts without tiles.
    pub closed spec fn parts(&self) -> Seq<Seq<Arc<IndexEntry>>> {
        match self.inner {
            ColumnarVariant::AoSoA8(inner) => inner.parts(),
            ColumnarVariant::AoSoA16(inner) => inner.parts(),
            ColumnarVariant::AoSoA64(inner) => inner.parts(),
            ColumnarVariant::AoSoA64Simd(inner) => inner.parts(),
            _ => Seq::empty(),
        }
    }

    /// Tiles of the production tile layouts; none for the others.
    pub open spec fn tiles(&self) -> Seq<Seq<Arc<IndexEntry>>> {
        if self.layout() is Tiles64 || self.layout() is Mixed64 {
            self.parts()
        } else {
            Seq::empty()
        }
    }

    /// Tiles of a layout of kind-homogeneous tiles of `n` rows; none for the
    /// others.
    pub open spec fn tiles_of_size(&self, n: int) -> Seq<Seq<Arc<IndexEntry>>> {
        if self.layout() is Tiles8 && n == 8 || self.layout() is Tiles16 && n == 16
            || self.layout() is Tiles64 && n == 64 {
            self.parts()
        } else {
            Seq::empty()
        }
    }

    /// The layout groups rows by entity.
    pub open spec fn grouped(&self) -> bool {
        self.layout() is Groups
    }

    /// An entity has a group.
    pub closed spec fn has(&self, entity: Seq<char>) -> bool {
        match self.inner {
            ColumnarVariant::SoAoS(inner) => inner.has(entity),
            _ => false,
        }
    }

    /// The grouped rows of an entity.
    pub closed spec fn rows_of(&self, entity: Seq<char>) -> Seq<Arc<IndexEntry>> {
        match self.inner {
            ColumnarVariant::SoAoS(inner) => inner.rows_of(entity),
            _ => Seq::empty(),
        }
    }

    /// The cached projections of an entity.
    pub closed spec fn slots_of(&self, entity: Seq<char>) -> Map<u128, CachedProjectionSlot> {
        match self.inner {
            ColumnarVariant::SoAoS(inner) => inner.slots_of(entity),
            _ => Map::empty(),
        }
    }

    /// The overlay holds nothing and has the layout of another.
    pub open spec fn emptied_from(&self, other: &ColumnarIndex) -> bool {
        &&& self.wf()
        &&& self.layout() == other.layout()
        &&& self.listing() == Seq::<Arc<IndexEntry>>::empty()
        &&& self.parts().len() == 0
        &&& forall|entity: Seq<char>| !#[trigger] self.has(entity)
        &&& forall|entity: Seq<char>| #[trigger]
            self.rows_of(entity) == Seq::<Arc<IndexEntry>>::empty()
        &&& forall|entity: Seq<char>| #[trigger]
            self.slots_of(entity) == Map::<u128, CachedProjectionSlot>::empty()
    }

    /// A flat overlay.
    pub fn new_soa() -> (r: ColumnarIndex)
        ensures
            r.emptied_from(&r),
            r.layout() is Flat,
    {
        ColumnarIndex { inner: ColumnarVariant::SoA(SoAInner::new()) }
    }

    /// An overlay of 8-row tiles.
    pub fn new_aosoa8() -> (r: ColumnarIndex)
        ensures
            r.emptied_from(&r),
            r.layout() is Tiles8,
    {
        ColumnarIndex { inner: ColumnarVariant::AoSoA8(AoSoAInner::new()) }
    }

    /// An overlay of 16-row tiles.
    pub fn new_aosoa16() -> (r: ColumnarIndex)
        ensures
            r.emptied_from(&r),
            r.layout() is Tiles16,
    {
        ColumnarIndex { inner: ColumnarVariant::AoSoA16(AoSoAInner::new()) }
    }

    /// An overlay of 64-row tiles.
    pub fn new_aosoa64() -> (r: ColumnarIndex)
        ensures
            r.emptied_from(&r),
            r.layout() is Tiles64,
    {
        ColumnarIndex { inner: ColumnarVariant::AoSoA64(AoSoAInner::new()) }
    }

    /// An overlay of 64-row tiles of mixed kinds.
    pub fn new_aosoa64_simd() -> (r: ColumnarIndex)
        ensures
            r.emptied_from(&r),
            r.layout() is Mixed64,
    {
        ColumnarIndex { inner: ColumnarVariant::AoSoA64Simd(AoSoA64SimdInner::new()) }
    }

    /// An overlay of entity groups.
    pub fn new_soaos() -> (r: ColumnarIndex)
        ensures
            r.emptied_from(&r),
            r.layout() is Groups,
    {
        ColumnarIndex { inner: ColumnarVariant::SoAoS(SoAoSInner::new()) }
    }

    /// Append `entry`.
    pub fn insert(&mut self, entry: &Arc<IndexEntry>)
        requires
            old(self).wf(),
        ensures
            final(self).wf(),
            final(self).layout() == old(self).layout(),
            final(self).listing().to_multiset() == old(self).listing().to_multiset().insert(
                *entry,
            ),
            final(self).listing().len() == old(self).listing().len() + 1,
            final(self).layout() is Flat ==> final(self).listing() == old(self).listing().push(
                *entry,
            ),
            final(self).parts() == laid(old(self).layout(), old(self).parts(), *entry),
            final(self).grouped() ==> forall|entity: Seq<char>| #[trigger]
                final(self).has(entity) == (old(self).has(entity) || entity
                    == entry.coord.entity_spec()),
            final(self).grouped() ==> forall|entity: Seq<char>| #[trigger]
                final(self).rows_of(entity) == (if entity == entry.coord.entity_spec() {
                    old(self).rows_of(entity).push(*entry)
                } else {
                    old(self).rows_of(entity)
                }),
            forall|entity: Seq<char>| #[trigger]
                final(self).slots_of(entity) == old(self).slots_of(entity),
    {
        proof {
            self.listing().to_multiset_ensures();
        }
        match &mut self.inner {
            ColumnarVariant::SoA(inner) => inner.push(entry),
            ColumnarVariant::AoSoA8(inner) => inner.push(entry),
            ColumnarVariant::AoSoA16(inner) => inner.push(entry),
            ColumnarVariant::AoSoA64(inner) => inner.push(entry),
            ColumnarVariant::AoSoA64Simd(inner) => inner.push(entry),
            ColumnarVariant::SoAoS(inner) => inner.push(entry),
        }
    }

    /// Discard all rows.
    pub fn clear(&mut self)
        ensures
            final(self).emptied_from(old(self)),
    {
        match &mut self.inner {
            ColumnarVariant::SoA(inner) => {
                *inner = SoAInner::new();
            },
            ColumnarVariant::AoSoA8(inner) => {
                *inner = AoSoAInner::new();
            },
            ColumnarVariant::AoSoA16(inner) => {
                *inner = AoSoAInner::new();
            },
            ColumnarVariant::AoSoA64(inner) => {
                *inner = AoSoAInner::new();
            },
            ColumnarVariant::AoSoA64Simd(inner) => {
                *inner = AoSoA64SimdInner::new();
            },
            ColumnarVariant::SoAoS(inner) => {
                *inner = SoAoSInner::new();
            },
        }
    }

    /// Replace all rows by those of a restore: grouped layouts take them in
    /// entity order, the others in sequence order. No cached projection outlives
    /// it.
    pub fn rebuild_from_restore_base(
        &mut self,
        entries_by_sequence: &Vec<Arc<IndexEntry>>,
        entries_by_entity: &Vec<Arc<IndexEntry>>,
    )
        ensures
            final(self).wf(),
            final(self).layout() == old(self).layout(),
            final(self).listing().to_multiset() == (if old(self).grouped() {
                entries_by_entity@.to_multiset()
            } else {
                entries_by_sequence@.to_multiset()
            }),
            final(self).layout() is Flat ==> final(self).listing() == entries_by_sequence@,
            final(self).parts() == laid_out(
                old(self).layout(),
                if old(self).grouped() {
                    entries_by_entity@
                } else {
                    entries_by_sequence@
                },
            ),
            final(self).grouped() ==> forall|entity: Seq<char>| #[trigger]
                final(self).rows_of(entity) == entity_rows(entries_by_entity@, entity),
            final(self).grouped() ==> forall|entity: Seq<char>| #[trigger]
                final(self).has(entity) == (entity_rows(entries_by_entity@, entity).len() > 0),
            forall|entity: Seq<char>| #[trigger]
                final(self).slots_of(entity) == Map::<u128, CachedProjectionSlot>::empty(),
    {
        self.clear();
        let grouped: bool = matches!(self.inner, ColumnarVariant::SoAoS(_));
        let rows: &Vec<Arc<IndexEntry>> = if grouped {
            entries_by_entity
        } else {
            entries_by_sequence
        };
        let mut i: usize = 0;
        reveal(Seq::filter);
        assert(rows@.take(0) =~= Seq::<Arc<IndexEntry>>::empty());
        assert(self.listing() =~= rows@.take(0));
        assert(self.parts() =~= laid_out(self.layout(), rows@.take(0)));
        while i < rows.len()
            invariant
                self.wf(),
                self.layout() == old(self).layout(),
                self.grouped() == grouped,
                i <= rows@.len(),
                self.parts() == laid_out(self.layout(), rows@.take(i as int)),
                self.listing().to_multiset() == rows@.take(i as int).to_multiset(),
                self.layout() is Flat ==> self.listing() == rows@.take(i as int),
                forall|entity: Seq<char>| #[trigger]
                    self.slots_of(entity) == Map::<u128, CachedProjectionSlot>::empty(),
                grouped ==> forall|entity: Seq<char>| #[trigger]
                    self.rows_of(entity) == entity_rows(rows@.take(i as int), entity),
                grouped ==> forall|entity: Seq<char>| #[trigger]
                    self.has(entity) == (entity_rows(rows@.take(i as int), entity).len() > 0),
            decreases rows@.len() - i,
        {
            let ghost before = *self;
            self.insert(&rows[i]);
            proof {
                assert(rows@.take(i + 1) =~= rows@.take(i as int).push(rows@[i as int]));
                assert(rows@.take(i + 1).drop_last() =~= rows@.take(i as int));
                rows@.take(i as int).to_multiset_ensures();
                assert forall|entity: Seq<char>| #[trigger]
                    entity_rows(rows@.take(i + 1), entity) == (if entity
                        == rows@[i as int].coord.entity_spec() {
                        entity_rows(rows@.take(i as int), entity).push(rows@[i as int])
                    } else {
                        entity_rows(rows@.take(i as int), entity)
                    }) by {
                    lemma_entity_rows_push(rows@.take(i as int), rows@[i as int], entity);
                }
            }
            i += 1;
        }
        assert(rows@.take(rows@.len() as int) =~= rows@);
    }

    /// The hits that `query` admits, by global sequence.
    fn query_hits_sorted(&self, query: EntryQuery) -> (r: Vec<QueryHit>)
        requires
            self.wf(),
        ensures
            r@ == sorted_hits(super::stream::matching(self.listing(), query)),
            crate::sort::is_stable_sort(
                r@,
                super::stream::matching(self.listing(), query),
            ),
    {
        let mut results = match &self.inner {
            ColumnarVariant::SoA(inner) => inner.hits_candidates(query),
            ColumnarVariant::AoSoA8(inner) => inner.hits_candidates(query),
            ColumnarVariant::AoSoA16(inner) => inner.hits_candidates(query),
            ColumnarVariant::AoSoA64(inner) => inner.hits_candidates(query),
            ColumnarVariant::AoSoA64Simd(inner) => inner.hits_candidates(query),
            ColumnarVariant::SoAoS(inner) => inner.hits_candidates(query),
        };
        sort_hits(&mut results);
        results
    }

    /// The first `limit` hits past a position that `query` admits.
    fn query_hits_sorted_after(
        &self,
        query: EntryQuery,
        after_seq: u64,
        started: bool,
        limit: usize,
    ) -> (r: Vec<QueryHit>)
        requires
            self.wf(),
        ensures
            r@ == bounded_after(
                super::stream::matching(self.listing(), query),
                after_seq,
                started,
                limit,
            ),
    {
        let mut v = match &self.inner {
            ColumnarVariant::SoA(inner) => inner.hits_candidates(query),
            ColumnarVariant::AoSoA8(inner) => inner.hits_candidates(query),
            ColumnarVariant::AoSoA16(inner) => inner.hits_candidates(query),
            ColumnarVariant::AoSoA64(inner) => inner.hits_candidates(query),
            ColumnarVariant::AoSoA64Simd(inner) => inner.hits_candidates(query),
            ColumnarVariant::SoAoS(inner) => inner.hits_candidates(query),
        };
        apply_after_bounds(&mut v, after_seq, started, limit);
        v
    }

    /// Hits of one kind.
    pub fn query_hits_by_kind(&self, target: EventKind) -> (r: Vec<QueryHit>)
        requires
            self.wf(),
        ensures
            r@ == sorted_hits(
                super::stream::matching(self.listing(), EntryQuery::Kind(target)),
            ),
            crate::sort::is_stable_sort(
                r@,
                super::stream::matching(self.listing(), EntryQuery::Kind(target)),
            ),
    {
        self.query_hits_sorted(EntryQuery::Kind(target))
    }

    /// Hits of one category.
    pub fn query_hits_by_category(&self, category: u8) -> (r: Vec<QueryHit>)
        requires
            self.wf(),
        ensures
            r@ == sorted_hits(
                super::stream::matching(self.listing(), EntryQuery::Category(category)),
            ),
            crate::sort::is_stable_sort(
                r@,
                super::stream::matching(self.listing(), EntryQuery::Category(category)),
            ),
    {
        self.query_hits_sorted(EntryQuery::Category(category))
    }

    /// Hits of one scope.
    pub fn query_hits_by_scope(&self, scope: &str) -> (r: Vec<QueryHit>)
        requires
            self.wf(),
        ensures
            r@ == sorted_hits(
                super::stream::matching(self.listing(), EntryQuery::Scope(scope)),
            ),
            crate::sort::is_stable_sort(
                r@,
                super::stream::matching(self.listing(), EntryQuery::Scope(scope)),
            ),
    {
        self.query_hits_sorted(EntryQuery::Scope(scope))
    }

    /// Hits of one kind past a position.
    pub fn query_hits_by_kind_after(
        &self,
        target: EventKind,
        after_seq: u64,
        started: bool,
        limit: usize,
    ) -> (r: Vec<QueryHit>)
        requires
            self.wf(),
        ensures
            r@ == bounded_after(
                super::stream::matching(self.listing(), EntryQuery::Kind(target)),
                after_seq,
                started,
                limit,
            ),
    {
        self.query_hits_sorted_after(EntryQuery::Kind(target), after_seq, started, limit)
    }

    /// Hits of one category past a position.
    pub fn query_hits_by_category_after(
        &self,
        category: u8,
        after_seq: u64,
        started: bool,
        limit: usize,
    ) -> (r: Vec<QueryHit>)
        requires
            self.wf(),
        ensures
            r@ == bounded_after(
                super::stream::matching(self.listing(), EntryQuery::Category(category)),
                after_seq,
                started,
                limit,
            ),
    {
        self.query_hits_sorted_after(EntryQuery::Category(category), after_seq, started, limit)
    }

    /// Hits of one scope past a position.
    pub fn query_hits_by_scope_after(
        &self,
        scope: &str,
        after_seq: u64,
        started: bool,
        limit: usize,
    ) -> (r: Vec<QueryHit>)
        requires
            self.wf(),
        ensures
            r@ == bounded_after(
                super::stream::matching(self.listing(), EntryQuery::Scope(scope)),
                after_seq,
                started,
                limit,
            ),
    {
        self.query_hits_sorted_after(EntryQuery::Scope(scope), after_seq, started, limit)
    }

    /// Number of tiles of the production tile layouts.
    pub fn tile_count(&self) -> (n: usize)
        requires
            self.wf(),
        ensures
            n == self.tiles().len(),
    {
        match &self.inner {
            ColumnarVariant::AoSoA64(inner) => inner.tile_count(),
            ColumnarVariant::AoSoA64Simd(inner) => inner.tile_count(),
            _ => 0,
        }
    }

    /// Call `f` on the 8-row tile at `idx`, where there is one.
    pub fn with_tile8<R>(&self, idx: usize, f: impl FnOnce(&Tile<8>) -> R) -> (r: Option<R>)
        requires
            self.wf(),
            forall|t: Tile<8>| call_requires(f, (&t,)),
        ensures
            r is Some <==> idx < self.tiles_of_size(8).len(),
            r matches Some(v) ==> exists|t: Tile<8>| #[trigger]
                tile_holds(t, self.tiles_of_size(8)[idx as int]) && call_ensures(f, (&t,), v),
    {
        match &self.inner {
            ColumnarVariant::AoSoA8(inner) => match inner.tile(idx) {
                Some(tile) => {
                    let ghost t = *tile;
                    let v = f(tile);
                    assert(tile_holds(t, self.tiles_of_size(8)[idx as int]));
                    Some(v)
                },
                None => None,
            },
            _ => None,
        }
    }

    /// Call `f` on the 16-row tile at `idx`, where there is one.
    pub fn with_tile16<R>(&self, idx: usize, f: impl FnOnce(&Tile<16>) -> R) -> (r: Option<R>)
        requires
            self.wf(),
            forall|t: Tile<16>| call_requires(f, (&t,)),
        ensures
            r is Some <==> idx < self.tiles_of_size(16).len(),
            r matches Some(v) ==> exists|t: Tile<16>| #[trigger]
                tile_holds(t, self.tiles_of_size(16)[idx as int]) && call_ensures(f, (&t,), v),
    {
        match &self.inner {
            ColumnarVariant::AoSoA16(inner) => match inner.tile(idx) {
                Some(tile) => {
                    let ghost t = *tile;
                    let v = f(tile);
                    assert(tile_holds(t, self.tiles_of_size(16)[idx as int]));
                    Some(v)
                },
                None => None,
            },
            _ => None,
        }
    }

    /// Call `f` on the 64-row tile at `idx`, where there is one.
    pub fn with_tile64<R>(&self, idx: usize, f: impl FnOnce(&Tile<64>) -> R) -> (r: Option<R>)
        requires
            self.wf(),
            forall|t: Tile<64>| call_requires(f, (&t,)),
        ensures
            r is Some <==> idx < self.tiles_of_size(64).len(),
            r matches Some(v) ==> exists|t: Tile<64>| #[trigger]
                tile_holds(t, self.tiles_of_size(64)[idx as int]) && call_ensures(f, (&t,), v),
    {
        match &self.inner {
            ColumnarVariant::AoSoA64(inner) => match inner.tile(idx) {
                Some(tile) => {
                    let ghost t = *tile;
                    let v = f(tile);
                    assert(tile_holds(t, self.tiles_of_size(64)[idx as int]));
                    Some(v)
                },
                None => None,
            },
            _ => None,
        }
    }

    /// Generation of an entity, where the layout groups rows.
    pub fn entity_generation(&self, entity: &str) -> (r: Option<u64>)
        requires
            self.wf(),
        ensures
            r == (if self.has(entity@) {
                Some(self.rows_of(entity@).len() as u64)
            } else {
                None
            }),
    {
        match &self.inner {
            ColumnarVariant::SoAoS(inner) => inner.entity_generation(entity),
            _ => None,
        }
    }

    /// Cached state of a projection of an entity.
    pub fn cached_projection(&self, entity: &str, type_id: ProjectionTypeId) -> (r: Option<
        CachedProjectionSlot,
    >)
        requires
            self.wf(),
        ensures
            match r {
                Some(slot) => self.slots_of(entity@).contains_key(type_id.id) && slot.same(
                    &self.slots_of(entity@)[type_id.id],
                ),
                None => !self.slots_of(entity@).contains_key(type_id.id),
            },
    {
        match &self.inner {
            ColumnarVariant::SoAoS(inner) => inner.cached_projection(entity, type_id),
            _ => None,
        }
    }

    /// Store the state of a projection of an entity.
    pub fn store_cached_projection(
        &mut self,
        entity: &str,
        type_id: ProjectionTypeId,
        bytes: Vec<u8>,
        watermark: u64,
    ) -> (r: ProjectionCacheStoreStatus)
        requires
            old(self).wf(),
        ensures
            final(self).wf(),
            final(self).layout() == old(self).layout(),
            final(self).listing() == old(self).listing(),
            final(self).parts() == old(self).parts(),
            r == (if !old(self).grouped() {
                ProjectionCacheStoreStatus::UnsupportedTopology
            } else if old(self).has(entity@) {
                ProjectionCacheStoreStatus::Stored
            } else {
                ProjectionCacheStoreStatus::MissingEntity
            }),
            forall|e: Seq<char>| #[trigger] final(self).has(e) == old(self).has(e),
            forall|e: Seq<char>| #[trigger] final(self).rows_of(e) == old(self).rows_of(e),
            forall|e: Seq<char>| #[trigger]
                final(self).slots_of(e) == (if e == entity@ && r is Stored {
                    old(self).slots_of(e).insert(
                        type_id.id,
                        CachedProjectionSlot {
                            bytes,
                            watermark,
                            generation: old(self).rows_of(e).len() as u64,
                        },
                    )
                } else {
                    old(self).slots_of(e)
                }),
    {
        match &mut self.inner {
            ColumnarVariant::SoAoS(inner) => {
                if inner.store_cached_projection(entity, type_id, bytes, watermark) {
                    ProjectionCacheStoreStatus::Stored
                } else {
                    ProjectionCacheStoreStatus::MissingEntity
                }
            },
            _ => ProjectionCacheStoreStatus::UnsupportedTopology,
        }
    }

    /// The rows of an entity that a projection consumes.
    pub fn projection_candidates(&self, entity: &str, relevant_kinds: &[EventKind]) -> (r: Option<
        ProjectionCandidates,
    >)
        requires
            self.wf(),
        ensures
            r is Some <==> super::groups::relevant_rows(
                self.rows_of(entity@),
                relevant_kinds@,
            ).len() > 0,
            r matches Some(c) ==> {
                let rows = super::groups::relevant_rows(self.rows_of(entity@), relevant_kinds@);
                &&& c.hits@ == super::stream::hits(rows)
                &&& c.watermark == rows.last().global_sequence
                &&& c.generation == self.rows_of(entity@).len()
            },
    {
        reveal(Seq::filter);
        match &self.inner {
            ColumnarVariant::SoAoS(inner) => inner.projection_candidates(entity, relevant_kinds),
            _ => None,
        }
    }
}

/// The rows of one entity, in order.
pub open spec fn entity_rows(rows: Seq<Arc<IndexEntry>>, entity: Seq<char>) -> Seq<
    Arc<IndexEntry>,
> {
    rows.filter(|e: Arc<IndexEntry>| e.coord.entity_spec() == entity)
}

/// One more row.
pub proof fn lemma_entity_rows_push(
    rows: Seq<Arc<IndexEntry>>,
    row: Arc<IndexEntry>,
    entity: Seq<char>,
)
    ensures
        entity_rows(rows.push(row), entity) == (if row.coord.entity_spec() == entity {
            entity_rows(rows, entity).push(row)
        } else {
            entity_rows(rows, entity)
        }),
{
    reveal(Seq::filter);
    assert(rows.push(row).drop_last() =~= rows);
}

/// No two hits share a global sequence.
pub open spec fn sequences_distinct(hits: Seq<QueryHit>) -> bool {
    forall|i: int, j: int|
        0 <= i < j < hits.len() ==> (#[trigger] hits[i]).global_sequence != (
        #[trigger] hits[j]).global_sequence
}

/// Overlays that hold the same rows answer every query alike, whatever their
/// layouts, as long as the matches have distinct sequences.
pub proof fn law_layouts_agree(a: &ColumnarIndex, b: &ColumnarIndex, query: EntryQuery)
    requires
        a.listing().to_multiset() == b.listing().to_multiset(),
        sequences_distinct(super::stream::matching(a.listing(), query)),
    ensures
        sorted_hits(super::stream::matching(a.listing(), query)) == sorted_hits(
            super::stream::matching(b.listing(), query),
        ),
{
    let ma = super::stream::matching(a.listing(), query);
    let mb = super::stream::matching(b.listing(), query);
    lemma_matching_multiset(a.listing(), b.listing(), query);
    lemma_sorted_by_contents(ma, mb);
}

/// The multiset of matches follows from the multiset of rows.
pub proof fn lemma_matching_multiset(
    a: Seq<Arc<IndexEntry>>,
    b: Seq<Arc<IndexEntry>>,
    query: EntryQuery,
)
    requires
        a.to_multiset() == b.to_multiset(),
    ensures
        super::stream::matching(a, query).to_multiset() == super::stream::matching(
            b,
            query,
        ).to_multiset(),
    decreases a.len(),
{
    a.to_multiset_ensures();
    b.to_multiset_ensures();
    if a.len() == 0 {
        assert(a =~= b);
    } else {
        let x = a.last();
        assert(a.contains(x));
        assert(b.to_multiset().count(x) > 0);
        assert(b.contains(x));
        let i = b.index_of(x);
        assert(b[i] == x);
        let ta = a.drop_last();
        let tb = b.remove(i);
        assert(a.remove(a.len() - 1) =~= ta);
        assert(ta.to_multiset() =~= tb.to_multiset());
        lemma_matching_multiset(ta, tb, query);
        super::stream::lemma_matching_push(ta, x, query);
        assert(ta.push(x) =~= a);
        let left = b.take(i);
        let right = b.skip(i + 1);
        assert(b =~= left.push(x) + right);
        assert(tb =~= left + right);
        super::stream::lemma_matching_add(left.push(x), right, query);
        super::stream::lemma_matching_add(left, right, query);
        super::stream::lemma_matching_push(left, x, query);
        let ml = super::stream::matching(left, query);
        let mr = super::stream::matching(right, query);
        let mta = super::stream::matching(ta, query);
        mta.to_multiset_ensures();
        if query.admits_spec(&x) {
            vstd::seq_lib::lemma_multiset_commutative(ml.push(x.hit()), mr);
            vstd::seq_lib::lemma_multiset_commutative(ml, mr);
            ml.to_multiset_ensures();
            assert(super::stream::matching(a, query).to_multiset()
                =~= super::stream::matching(b, query).to_multiset());
        }
    }
}

/// Hits with distinct sequences are sorted into one order.
pub proof fn lemma_sorted_by_contents(a: Seq<QueryHit>, b: Seq<QueryHit>)
    requires
        a.to_multiset() == b.to_multiset(),
        sequences_distinct(a),
    ensures
        sorted_hits(a) == sorted_hits(b),
{
    crate::sort::law_stable_sort_exists(a);
    crate::sort::law_stable_sort_exists(b);
    let s = sorted_hits(a);
    a.to_multiset_ensures();
    s.to_multiset_ensures();
    assert forall|x: QueryHit, y: QueryHit|
        s.contains(x) && s.contains(y) && x.global_sequence == y.global_sequence implies x
        == y by {
        assert(a.to_multiset().count(x) > 0 && a.to_multiset().count(y) > 0);
        let i = a.index_of(x);
        let j = a.index_of(y);
        assert(a[i] == x && a[j] == y);
    }
    lemma_ranked_contents_determine(s, sorted_hits(b));
}

proof fn lemma_ranked_contents_determine(a: Seq<QueryHit>, b: Seq<QueryHit>)
    requires
        crate::sort::ranked(a),
        crate::sort::ranked(b),
        a.to_multiset() == b.to_multiset(),
        forall|x: QueryHit, y: QueryHit|
            a.contains(x) && a.contains(y) && x.global_sequence == y.global_sequence ==> x == y,
    ensures
        a == b,
    decreases a.len(),
{
    a.to_multiset_ensures();
    b.to_multiset_ensures();
    if a.len() == 0 {
        assert(a =~= b);
    } else {
        let x = a.last();
        let y = b.last();
        assert(a.contains(x));
        assert(b.contains(y));
        assert(b.to_multiset().count(x) > 0);
        assert(a.to_multiset().count(y) > 0);
        let i = b.index_of(x);
        let j = a.index_of(y);
        assert(QueryHit::rank_le(b[i], b[b.len() - 1]));
        assert(QueryHit::rank_le(a[j], a[a.len() - 1]));
        assert(x.global_sequence == y.global_sequence);
        assert(x == y);
        let ta = a.drop_last();
        let tb = b.drop_last();
        assert(a.remove(a.len() - 1) =~= ta);
        assert(b.remove(b.len() - 1) =~= tb);
        assert(ta.to_multiset() =~= tb.to_multiset());
        assert(crate::sort::ranked(ta)) by {
            assert forall|p: int, q: int| 0 <= p <= q < ta.len() implies QueryHit::rank_le(
                #[trigger] ta[p],
                #[trigger] ta[q],
            ) by {
                assert(QueryHit::rank_le(a[p], a[q]));
            }
        }
        assert(crate::sort::ranked(tb)) by {
            assert forall|p: int, q: int| 0 <= p <= q < tb.len() implies QueryHit::rank_le(
                #[trigger] tb[p],
                #[trigger] tb[q],
            ) by {
                assert(QueryHit::rank_le(b[p], b[q]));
            }
        }
        assert forall|u: QueryHit, v: QueryHit|
            ta.contains(u) && ta.contains(v) && u.global_sequence
                == v.global_sequence implies u == v by {
            let p = ta.index_of(u);
            let q = ta.index_of(v);
            assert(a[p] == u && a[q] == v);
            assert(a.contains(u) && a.contains(v));
        }
        lemma_ranked_contents_determine(ta, tb);
        assert(a =~= ta.push(x));
        assert(b =~= tb.push(y));
    }
}

/// A page is the front of the hits past a position, by ascending sequence: no more than
/// the limit, only hits that are there and, once reading has started, past the position.
/// A hit that is left out has no smaller sequence than any on the page, which is full.
pub proof fn law_page_is_the_front_past_a_position(
    hits: Seq<QueryHit>,
    after_seq: u64,
    started: bool,
    limit: usize,
    h: QueryHit,
)
    ensures
        ({
            let page = bounded_after(hits, after_seq, started, limit);
            &&& page.len() <= limit
            &&& forall|i: int, j: int|
                #![trigger page[i], page[j]]
                0 <= i < j < page.len() ==> page[i].global_sequence <= page[j].global_sequence
            &&& page.contains(h) ==> hits.contains(h) && (started ==> h.global_sequence
                > after_seq)
            &&& hits.contains(h) && (started ==> h.global_sequence > after_seq) && !page.contains(h)
                ==> page.len() == limit && forall|i: int|
                0 <= i < page.len() ==> (#[trigger] page[i]).global_sequence <= h.global_sequence
        }),
{
    let past = |h: QueryHit| !started || h.global_sequence > after_seq;
    let f = hits_past(hits, after_seq, started);
    let t = sorted_hits(f);
    let page = bounded_after(hits, after_seq, started, limit);
    super::query::lemma_filter_contains(hits, past);
    crate::sort::law_stable_sort_exists(f);
    f.to_multiset_ensures();
    t.to_multiset_ensures();
    assert(f.contains(h) <==> hits.contains(h) && past(h));
    assert(t.contains(h) <==> f.contains(h)) by {
        assert(t.to_multiset().count(h) == f.to_multiset().count(h));
    }
    assert forall|i: int, j: int|
        #![trigger page[i], page[j]]
        0 <= i < j < page.len() implies page[i].global_sequence <= page[j].global_sequence by {
        assert(page[i] == t[i] && page[j] == t[j]);
        assert(<QueryHit as crate::sort::Ranked>::rank_le(t[i], t[j]));
    }
    if page.contains(h) {
        let i = choose|i: int| 0 <= i < page.len() && page[i] == h;
        assert(t[i] == h);
    }
    if t.contains(h) && !page.contains(h) {
        let q = choose|q: int| 0 <= q < t.len() && t[q] == h;
        if q < page.len() {
            assert(page[q] == h);
        }
        assert forall|i: int| 0 <= i < page.len() implies (#[trigger] page[i]).global_sequence
            <= h.global_sequence by {
            assert(page[i] == t[i]);
            assert(<QueryHit as crate::sort::Ranked>::rank_le(t[i], t[q]));
        }
    }
}

/// An overlay answers a query by kind, category or scope with the hits of exactly its
/// rows of that kind, category or scope, as many as there are and by ascending sequence.
pub proof fn law_overlay_answers_with_its_rows(
    index: &ColumnarIndex,
    query: EntryQuery,
    r: Vec<QueryHit>,
    h: QueryHit,
)
    requires
        index.wf(),
        match query {
            EntryQuery::Kind(kind) => call_ensures(
                ColumnarIndex::query_hits_by_kind,
                (index, kind),
                r,
            ),
            EntryQuery::Category(category) => call_ensures(
                ColumnarIndex::query_hits_by_category,
                (index, category),
                r,
            ),
            EntryQuery::Scope(scope) => call_ensures(
                ColumnarIndex::query_hits_by_scope,
                (index, scope),
                r,
            ),
        },
    ensures
        forall|i: int, j: int|
            #![trigger r@[i], r@[j]]
            0 <= i < j < r@.len() ==> r@[i].global_sequence <= r@[j].global_sequence,
        r@.contains(h) <==> exists|k: int|
            0 <= k < index.listing().len() && match query {
                EntryQuery::Kind(kind) => (#[trigger] index.listing()[k]).kind.raw() == kind.raw(),
                EntryQuery::Category(category) => index.listing()[k].kind.raw() / 4096
                    == category as u16,
                EntryQuery::Scope(scope) => index.listing()[k].coord.scope_spec() == scope@,
            } && index.listing()[k].event_id == h.event_id && index.listing()[k].global_sequence
                == h.global_sequence && index.listing()[k].disk_pos == h.disk_pos
                && index.listing()[k].kind == h.kind && index.listing()[k].clock == h.clock
                && index.listing()[k].dag_lane == h.dag_lane,
{
    let rows = index.listing();
    let m = super::stream::matching(rows, query);
    super::stream::lemma_matching_contains(rows, query, h);
    crate::sort::law_stable_sort_exists(m);
    m.to_multiset_ensures();
    r@.to_multiset_ensures();
    assert(r@.contains(h) <==> m.contains(h)) by {
        assert(r@.to_multiset().count(h) == m.to_multiset().count(h));
    }
    assert forall|i: int, j: int|
        #![trigger r@[i], r@[j]]
        0 <= i < j < r@.len() implies r@[i].global_sequence <= r@[j].global_sequence by {
        assert(<QueryHit as crate::sort::Ranked>::rank_le(r@[i], r@[j]));
    }
    assert forall|k: int| 0 <= k < rows.len() implies (query.admits_spec(&#[trigger] rows[k])
        <==> match query {
        EntryQuery::Kind(kind) => rows[k].kind.raw() == kind.raw(),
        EntryQuery::Category(category) => rows[k].kind.raw() / 4096 == category as u16,
        EntryQuery::Scope(scope) => rows[k].coord.scope_spec() == scope@,
    }) by {
        assert(rows[k].kind.raw() / 4096 < 16);
        if let EntryQuery::Kind(kind) = query {
            crate::event::law_kind_is_category_and_type(rows[k].kind, kind);
        }
    }
    if m.contains(h) {
        let k = choose|k: int|
            0 <= k < rows.len() && query.admits_spec(&#[trigger] rows[k]) && rows[k].hit() == h;
        assert(rows[k].event_id == h.event_id);
    }
    if exists|k: int|
        0 <= k < rows.len() && match query {
            EntryQuery::Kind(kind) => (#[trigger] rows[k]).kind.raw() == kind.raw(),
            EntryQuery::Category(category) => rows[k].kind.raw() / 4096 == category as u16,
            EntryQuery::Scope(scope) => rows[k].coord.scope_spec() == scope@,
        } && rows[k].event_id == h.event_id && rows[k].global_sequence == h.global_sequence
            && rows[k].disk_pos == h.disk_pos && rows[k].kind == h.kind && rows[k].clock == h.clock
            && rows[k].dag_lane == h.dag_lane {
        let k = choose|k: int|
            0 <= k < rows.len() && match query {
                EntryQuery::Kind(kind) => (#[trigger] rows[k]).kind.raw() == kind.raw(),
                EntryQuery::Category(category) => rows[k].kind.raw() / 4096 == category as u16,
                EntryQuery::Scope(scope) => rows[k].coord.scope_spec() == scope@,
            } && rows[k].event_id == h.event_id && rows[k].global_sequence == h.global_sequence
                && rows[k].disk_pos == h.disk_pos && rows[k].kind == h.kind && rows[k].clock
                == h.clock && rows[k].dag_lane == h.dag_lane;
        assert(rows[k].hit() == h);
        assert(query.admits_spec(&rows[k]));
    }
}

/// Rows that are laid out in tiles of a kind stand in tiles of the layout's size, of one
/// kind each, and all but the last tile of a kind are full; mixed tiles hold 64 rows, and
/// all but the last are full.
pub proof fn law_layouts_fill_their_tiles(layout: Layout, rows: Seq<Arc<IndexEntry>>)
    ensures
        ({
            let parts = laid_out(layout, rows);
            &&& layout is Tiles8 ==> super::layout::well_tiled(parts, 8)
            &&& layout is Tiles16 ==> super::layout::well_tiled(parts, 16)
            &&& layout is Tiles64 ==> super::layout::well_tiled(parts, 64)
            &&& layout is Mixed64 ==> forall|i: int|
                #![trigger parts[i]]
                0 <= i < parts.len() ==> 0 < parts[i].len() <= 64 && (i < parts.len() - 1
                    ==> parts[i].len() == 64)
            &&& layout is Mixed64 ==> super::layout::flat(parts) == rows
            &&& layout is Flat || layout is Groups ==> parts.len() == 0
        }),
    decreases rows.len(),
{
    if rows.len() > 0 {
        let front = rows.drop_last();
        law_layouts_fill_their_tiles(layout, front);
        let parts = laid_out(layout, front);
        let row = rows.last();
        match layout {
            Layout::Tiles8 => {
                super::layout::law_tiles_fill_up(parts, 8, row);
            },
            Layout::Tiles16 => {
                super::layout::law_tiles_fill_up(parts, 16, row);
            },
            Layout::Tiles64 => {
                super::layout::law_tiles_fill_up(parts, 64, row);
            },
            Layout::Mixed64 => {
                super::layout::law_mixed_tiles_fill_up(parts, row);
                assert(front.push(row) =~= rows);
            },
            _ => {},
        }
    } else {
        assert(super::layout::flat(laid_out(layout, rows)) =~= rows);
    }
}

} // verus!
