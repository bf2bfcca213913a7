//! Base scan maps plus optional overlays, and the routing of queries to them.

use super::columnar::{
    apply_after_bounds, sort_hits, ColumnarIndex, Layout, ProjectionCacheStoreStatus,
};
use super::entry::{IndexEntry, QueryHit};
use super::groups::{CachedProjectionSlot, ProjectionCandidates, ProjectionTypeId};
use super::stream::{collect_all, ClockStream, EntryQuery};
use crate::event::EventKind;
use crate::table::{NameTable, Table};
use std::sync::Arc;
use vstd::prelude::*;

verus! {

/// Which overlays an index keeps beside its base maps.
#[derive(Clone, Copy, Debug, PartialEq, Eq, Structural)]
pub struct IndexTopology {
    /// Keep the flat overlay.
    pub soa: bool,
    /// Keep the entity-group overlay.
    pub entity_groups: bool,
    /// Keep the tile overlay.
    pub tiles64: bool,
    /// Keep the mixed-tile overlay.
    pub tiles64_simd: bool,
}

impl IndexTopology {
    /// Base maps only.
    pub fn aos() -> (t: IndexTopology)
        ensures
            t == (IndexTopology {
                soa: false,
                entity_groups: false,
                tiles64: false,
                tiles64_simd: false,
            }),
    {
        IndexTopology { soa: false, entity_groups: false, tiles64: false, tiles64_simd: false }
    }

    /// The flat overlay.
    pub fn scan() -> (t: IndexTopology)
        ensures
            t == (IndexTopology {
                soa: true,
                entity_groups: false,
                tiles64: false,
                tiles64_simd: false,
            }),
    {
        IndexTopology { soa: true, entity_groups: false, tiles64: false, tiles64_simd: false }
    }

    /// The entity-group overlay.
    pub fn entity_local() -> (t: IndexTopology)
        ensures
            t == (IndexTopology {
                soa: false,
                entity_groups: true,
                tiles64: false,
                tiles64_simd: false,
            }),
    {
        IndexTopology { soa: false, entity_groups: true, tiles64: false, tiles64_simd: false }
    }

    /// The tile overlay.
    pub fn tiled() -> (t: IndexTopology)
        ensures
            t == (IndexTopology {
                soa: false,
                entity_groups: false,
                tiles64: true,
                tiles64_simd: false,
            }),
    {
        IndexTopology { soa: false, entity_groups: false, tiles64: true, tiles64_simd: false }
    }

    /// The mixed-tile overlay.
    pub fn tiled_simd() -> (t: IndexTopology)
        ensures
            t == (IndexTopology {
                soa: false,
                entity_groups: false,
                tiles64: false,
                tiles64_simd: true,
            }),
    {
        IndexTopology { soa: false, entity_groups: false, tiles64: false, tiles64_simd: true }
    }

    /// Every production overlay.
    pub fn all() -> (t: IndexTopology)
        ensures
            t == (IndexTopology {
                soa: true,
                entity_groups: true,
                tiles64: true,
                tiles64_simd: false,
            }),
    {
        IndexTopology { soa: true, entity_groups: true, tiles64: true, tiles64_simd: false }
    }
}

/// Configuration of the index.
#[derive(Clone, Copy, Debug, PartialEq, Eq, Structural)]
pub struct IndexConfig {
    /// Overlays to keep.
    pub topology: IndexTopology,
    /// Fold new events onto cached projection states.
    pub incremental_projection: bool,
    /// Write checkpoints.
    pub enable_checkpoint: bool,
    /// Write memory-mapped index artifacts.
    pub enable_mmap_index: bool,
}

impl Default for IndexConfig {
    fn default() -> (c: IndexConfig)
        ensures
            c == (IndexConfig {
                topology: IndexTopology {
                    soa: false,
                    entity_groups: false,
                    tiles64: false,
                    tiles64_simd: false,
                },
                incremental_projection: false,
                enable_checkpoint: true,
                enable_mmap_index: true,
            }),
    {
        IndexConfig {
            topology: IndexTopology::aos(),
            incremental_projection: false,
            enable_checkpoint: true,
            enable_mmap_index: true,
        }
    }
}

/// The view that a query is routed to.
#[derive(Clone, Copy, Debug, PartialEq, Eq, Structural)]
pub enum ScanRoute {
    /// The base maps.
    BaseAoS,
    /// The flat overlay.
    SoA,
    /// The entity-group overlay.
    SoAoS,
    /// The tile overlay.
    AoSoA64,
    /// The mixed-tile overlay.
    AoSoA64Simd,
}

/// Projection fast paths that the views offer.
#[derive(Clone, Copy, Debug, PartialEq, Eq, Structural)]
pub struct ProjectionSupport {
    /// Entity generations are kept.
    pub entity_generation_fast_path: bool,
    /// Projection states are cached.
    pub cached_projection: bool,
    /// Replay candidates are grouped by entity.
    pub projection_candidates: bool,
}

/// What the configured views can do, and where each query goes.
#[derive(Clone, Copy, Debug, PartialEq, Eq)]
pub struct ScanCapabilities {
    /// Route of queries by kind.
    pub by_kind: ScanRoute,
    /// Route of queries by scope.
    pub by_scope: ScanRoute,
    /// Route of queries by category.
    pub by_category: ScanRoute,
    /// Projection fast paths.
    pub projection: ProjectionSupport,
    /// Name of the topology.
    pub topology_name: &'static str,
    /// Number of tiles.
    pub tile_count: usize,
}

/// Route of a query by kind or category: flat first, then tiles, then groups.
pub open spec fn kind_route(t: IndexTopology) -> ScanRoute {
    if t.soa {
        ScanRoute::SoA
    } else if t.tiles64 {
        ScanRoute::AoSoA64
    } else if t.tiles64_simd {
        ScanRoute::AoSoA64Simd
    } else if t.entity_groups {
        ScanRoute::SoAoS
    } else {
        ScanRoute::BaseAoS
    }
}

/// Route of a query by scope: groups first, then flat, then tiles.
pub open spec fn scope_route(t: IndexTopology) -> ScanRoute {
    if t.entity_groups {
        ScanRoute::SoAoS
    } else if t.soa {
        ScanRoute::SoA
    } else if t.tiles64 {
        ScanRoute::AoSoA64
    } else if t.tiles64_simd {
        ScanRoute::AoSoA64Simd
    } else {
        ScanRoute::BaseAoS
    }
}

/// Name of a topology.
pub open spec fn topology_label(t: IndexTopology) -> Seq<char> {
    match (t.soa, t.entity_groups, t.tiles64, t.tiles64_simd) {
        (false, false, false, false) => "aos"@,
        (true, false, false, false) => "scan"@,
        (false, true, false, false) => "entity-local"@,
        (false, false, true, false) => "tiled"@,
        (false, false, false, true) => "tiled-simd"@,
        (true, true, true, false) => "all"@,
        _ => "hybrid"@,
    }
}

/// The entities that are active in a scope.
pub struct EntitySet {
    names: NameTable<()>,
}

impl EntitySet {
    /// The set is sound.
    pub closed spec fn wf(&self) -> bool {
        self.names.wf()
    }

    /// The members, in slot order.
    pub closed spec fn order(&self) -> Seq<Seq<char>> {
        self.names.order()
    }

    /// The members.
    pub closed spec fn members(&self) -> Set<Seq<char>> {
        self.names.entries().dom()
    }

    /// The slots hold every member once.
    pub proof fn lemma_order(&self)
        requires
            self.wf(),
        ensures
            self.order().no_duplicates(),
            forall|n: Seq<char>| #[trigger] self.members().contains(n) == self.order().contains(n),
    {
        self.names.lemma_order();
        assert forall|n: Seq<char>| #[trigger] self.members().contains(n) == self.order().contains(
            n,
        ) by {
            assert(self.names.entries().contains_key(n) == self.members().contains(n));
        }
    }

    fn new() -> (s: EntitySet)
        ensures
            s.wf(),
            s.members() == Set::<Seq<char>>::empty(),
    {
        let s = EntitySet { names: NameTable::new() };
        assert(s.members() =~= Set::<Seq<char>>::empty());
        s
    }

    fn insert(&mut self, name: &str)
        requires
            old(self).wf(),
        ensures
            final(self).wf(),
            final(self).members() == old(self).members().insert(name@),
    {
        self.names.insert(name, ());
        assert(self.members() =~= old(self).members().insert(name@));
    }

    /// Number of members.
    pub fn len(&self) -> (n: usize)
        ensures
            n == self.order().len(),
    {
        self.names.len()
    }

    /// The member in slot `i`.
    pub fn name_at(&self, i: usize) -> (name: &str)
        requires
            self.wf(),
            i < self.order().len(),
        ensures
            name@ == self.order()[i as int],
    {
        self.names.name_at(i)
    }

    /// Whether `name` is a member.
    pub fn contains(&self, name: &str) -> (r: bool)
        requires
            self.wf(),
        ensures
            r == self.members().contains(name@),
    {
        self.names.get(name).is_some()
    }
}

/// Base maps plus optional overlays.
pub struct ScanIndex {
    by_fact: Table<ClockStream>,
    scope_entities: NameTable<EntitySet>,
    soa: Option<ColumnarIndex>,
    entity_groups: Option<ColumnarIndex>,
    tiles64: Option<ColumnarIndex>,
    tiles64_simd: Option<ColumnarIndex>,
}

/// The overlay, where it exists, is sound and of the right shape.
pub open spec fn overlay_ok(overlay: Option<ColumnarIndex>, layout: Layout) -> bool {
    overlay matches Some(o) ==> o.wf() && o.layout() == layout
}

/// The overlay took one more row.
pub open spec fn overlay_grew(
    new: Option<ColumnarIndex>,
    old: Option<ColumnarIndex>,
    entry: Arc<IndexEntry>,
) -> bool {
    match (new, old) {
        (Some(n), Some(o)) => {
            &&& n.layout() == o.layout()
            &&& n.parts() == super::columnar::laid(o.layout(), o.parts(), entry)
            &&& n.listing().to_multiset() == o.listing().to_multiset().insert(entry)
            &&& n.listing().len() == o.listing().len() + 1
            &&& n.layout() is Flat ==> n.listing() == o.listing().push(entry)
            &&& n.grouped() ==> forall|e: Seq<char>| #[trigger]
                n.has(e) == (o.has(e) || e == entry.coord.entity_spec())
            &&& n.grouped() ==> forall|e: Seq<char>| #[trigger]
                n.rows_of(e) == (if e == entry.coord.entity_spec() {
                    o.rows_of(e).push(entry)
                } else {
                    o.rows_of(e)
                })
            &&& forall|e: Seq<char>| #[trigger] n.slots_of(e) == o.slots_of(e)
        },
        (None, None) => true,
        _ => false,
    }
}

/// The overlay, where it exists, is empty.
pub open spec fn overlay_emptied(new: Option<ColumnarIndex>, old: Option<ColumnarIndex>) -> bool {
    match (new, old) {
        (Some(n), Some(o)) => n.emptied_from(&o),
        (None, None) => true,
        _ => false,
    }
}

/// The overlay, where it exists, holds exactly the rows of a restore.
pub open spec fn overlay_rebuilt(
    new: Option<ColumnarIndex>,
    old: Option<ColumnarIndex>,
    by_sequence: Seq<Arc<IndexEntry>>,
    by_entity: Seq<Arc<IndexEntry>>,
) -> bool {
    match (new, old) {
        (Some(n), Some(o)) => {
            &&& n.layout() == o.layout()
            &&& n.parts() == super::columnar::laid_out(
                o.layout(),
                if o.grouped() {
                    by_entity
                } else {
                    by_sequence
                },
            )
            &&& n.listing().to_multiset() == (if o.grouped() {
                by_entity.to_multiset()
            } else {
                by_sequence.to_multiset()
            })
            &&& n.layout() is Flat ==> n.listing() == by_sequence
            &&& forall|e: Seq<char>| #[trigger]
                n.slots_of(e) == Map::<u128, CachedProjectionSlot>::empty()
            &&& n.grouped() ==> forall|e: Seq<char>| #[trigger]
                n.rows_of(e) == super::columnar::entity_rows(by_entity, e)
            &&& n.grouped() ==> forall|e: Seq<char>| #[trigger]
                n.has(e) == (super::columnar::entity_rows(by_entity, e).len() > 0)
        },
        (None, None) => true,
        _ => false,
    }
}

impl ScanIndex {
    /// Every view is sound; base rows lie under their kind, in key order.
    pub closed spec fn wf(&self) -> bool {
        &&& self.by_fact.wf()
        &&& self.scope_entities.wf()
        &&& forall|k: u128| #[trigger]
            self.by_fact.entries().contains_key(k) ==> super::stream::keys_ascend(
                self.by_fact.entries()[k]@,
            ) && forall|i: int|
                0 <= i < self.by_fact.entries()[k]@.len() ==> (
                #[trigger] self.by_fact.entries()[k]@[i]).kind.raw() == k
        &&& forall|k: u128| #[trigger] self.by_fact.entries().contains_key(k) ==> k <= u16::MAX
        &&& forall|n: Seq<char>| #[trigger]
            self.scope_entities.entries().contains_key(n)
                ==> self.scope_entities.entries()[n].wf()
        &&& overlay_ok(self.soa, Layout::Flat)
        &&& overlay_ok(self.entity_groups, Layout::Groups)
        &&& overlay_ok(self.tiles64, Layout::Tiles64)
        &&& overlay_ok(self.tiles64_simd, Layout::Mixed64)
    }

    /// The overlays that exist.
    pub closed spec fn topology(&self) -> IndexTopology {
        IndexTopology {
            soa: self.soa is Some,
            entity_groups: self.entity_groups is Some,
            tiles64: self.tiles64 is Some,
            tiles64_simd: self.tiles64_simd is Some,
        }
    }

    /// Base rows of a kind, in key order.
    pub closed spec fn facts(&self, kind: EventKind) -> Seq<Arc<IndexEntry>> {
        if self.by_fact.entries().contains_key(kind.raw() as u128) {
            self.by_fact.entries()[kind.raw() as u128]@
        } else {
            Seq::empty()
        }
    }

    /// Entities of each scope.
    pub closed spec fn scope_has(&self, scope: Seq<char>) -> bool {
        self.scope_entities.entries().contains_key(scope)
    }

    /// Entities of a scope.
    pub closed spec fn scope_members(&self, scope: Seq<char>) -> Set<Seq<char>> {
        if self.scope_entities.entries().contains_key(scope) {
            self.scope_entities.entries()[scope].members()
        } else {
            Set::empty()
        }
    }

    /// Entities of a scope, in slot order.
    pub closed spec fn scope_order(&self, scope: Seq<char>) -> Seq<Seq<char>> {
        if self.scope_entities.entries().contains_key(scope) {
            self.scope_entities.entries()[scope].order()
        } else {
            Seq::empty()
        }
    }

    /// Base rows of each kind, in slot order.
    pub closed spec fn base_parts(&self) -> Seq<Seq<Arc<IndexEntry>>> {
        self.by_fact.order().map_values(|k: u128| self.by_fact.entries()[k]@)
    }

    /// The flat overlay.
    pub closed spec fn flat_overlay(&self) -> Option<ColumnarIndex> {
        self.soa
    }

    /// The entity-group overlay.
    pub closed spec fn group_overlay(&self) -> Option<ColumnarIndex> {
        self.entity_groups
    }

    /// The tile overlay.
    pub closed spec fn tile_overlay(&self) -> Option<ColumnarIndex> {
        self.tiles64
    }

    /// The mixed-tile overlay.
    pub closed spec fn mixed_overlay(&self) -> Option<ColumnarIndex> {
        self.tiles64_simd
    }

    /// The overlay of a route.
    pub open spec fn route_overlay(&self, route: ScanRoute) -> Option<ColumnarIndex> {
        match route {
            ScanRoute::BaseAoS => None,
            ScanRoute::SoA => self.flat_overlay(),
            ScanRoute::SoAoS => self.group_overlay(),
            ScanRoute::AoSoA64 => self.tile_overlay(),
            ScanRoute::AoSoA64Simd => self.mixed_overlay(),
        }
    }

    /// The matches of a query on a route. Without an overlay the base maps
    /// answer; they do not answer queries by scope.
    pub open spec fn route_matches(&self, route: ScanRoute, query: EntryQuery) -> Seq<QueryHit> {
        match self.route_overlay(route) {
            Some(overlay) => super::stream::matching(overlay.listing(), query),
            None => match query {
                EntryQuery::Scope(_) => Seq::empty(),
                _ => super::stream::matching(
                    super::layout::flat(self.base_parts()),
                    query,
                ),
            },
        }
    }

    /// The matches of a scope where an overlay answers; none without overlays.
    pub open spec fn scope_matches(&self, scope: Seq<char>) -> Seq<QueryHit> {
        match self.route_overlay(scope_route(self.topology())) {
            Some(overlay) => super::stream::hits(scope_rows(overlay.listing(), scope)),
            None => Seq::empty(),
        }
    }

    /// Number of tiles of the first tile overlay.
    pub open spec fn tile_total(&self) -> int {
        match self.tile_overlay() {
            Some(o) => o.tiles().len() as int,
            None => match self.mixed_overlay() {
                Some(o) => o.tiles().len() as int,
                None => 0,
            },
        }
    }

    /// Every view is empty, and the topology is that of another index.
    pub open spec fn emptied_from(&self, other: &ScanIndex) -> bool {
        &&& self.wf()
        &&& self.topology() == other.topology()
        &&& forall|k: EventKind| #[trigger] self.facts(k) == Seq::<Arc<IndexEntry>>::empty()
        &&& forall|s: Seq<char>| !#[trigger] self.scope_has(s)
        &&& overlay_emptied(self.flat_overlay(), other.flat_overlay())
        &&& overlay_emptied(self.group_overlay(), other.group_overlay())
        &&& overlay_emptied(self.tile_overlay(), other.tile_overlay())
        &&& overlay_emptied(self.mixed_overlay(), other.mixed_overlay())
    }

    /// Every view took one more row.
    pub open spec fn grew(&self, other: &ScanIndex, entry: Arc<IndexEntry>) -> bool {
        &&& self.topology() == other.topology()
        &&& super::stream::is_put(self.facts(entry.kind), other.facts(entry.kind), entry)
        &&& forall|k: EventKind| k != entry.kind ==> #[trigger] self.facts(k) == other.facts(k)
        &&& forall|s: Seq<char>| #[trigger]
            self.scope_has(s) == (other.scope_has(s) || s == entry.coord.scope_spec())
        &&& forall|s: Seq<char>| #[trigger]
            self.scope_members(s) == (if s == entry.coord.scope_spec() {
                other.scope_members(s).insert(entry.coord.entity_spec())
            } else {
                other.scope_members(s)
            })
        &&& overlay_grew(self.flat_overlay(), other.flat_overlay(), entry)
        &&& overlay_grew(self.group_overlay(), other.group_overlay(), entry)
        &&& overlay_grew(self.tile_overlay(), other.tile_overlay(), entry)
        &&& overlay_grew(self.mixed_overlay(), other.mixed_overlay(), entry)
    }

    /// Every view holds exactly the rows of a restore.
    pub open spec fn rebuilt_from(
        &self,
        old: &ScanIndex,
        by_sequence: Seq<Arc<IndexEntry>>,
        by_entity: Seq<Arc<IndexEntry>>,
    ) -> bool {
        &&& self.topology() == old.topology()
        &&& forall|k: EventKind| #[trigger] rebuilt_stream(self.facts(k), by_sequence, k)
        &&& forall|s: Seq<char>| #[trigger]
            self.scope_has(s) <==> exists|i: int|
                0 <= i < by_sequence.len() && (#[trigger] by_sequence[i]).coord.scope_spec() == s
        &&& forall|s: Seq<char>, e: Seq<char>| #[trigger]
            self.scope_members(s).contains(e) <==> exists|i: int|
                0 <= i < by_sequence.len() && (#[trigger] by_sequence[i]).coord.scope_spec() == s
                    && by_sequence[i].coord.entity_spec() == e
        &&& overlay_rebuilt(self.flat_overlay(), old.flat_overlay(), by_sequence, by_entity)
        &&& overlay_rebuilt(self.group_overlay(), old.group_overlay(), by_sequence, by_entity)
        &&& overlay_rebuilt(self.tile_overlay(), old.tile_overlay(), by_sequence, by_entity)
        &&& overlay_rebuilt(self.mixed_overlay(), old.mixed_overlay(), by_sequence, by_entity)
    }

    /// An index with the configured overlays.
    pub fn for_config(config: &IndexConfig) -> (r: ScanIndex)
        ensures
            r.wf(),
            r.topology() == config.topology,
            r.emptied_from(&r),
    {
        let soa = if config.topology.soa {
            Some(ColumnarIndex::new_soa())
        } else {
            None
        };
        let entity_groups = if config.topology.entity_groups {
            Some(ColumnarIndex::new_soaos())
        } else {
            None
        };
        let tiles64 = if config.topology.tiles64 {
            Some(ColumnarIndex::new_aosoa64())
        } else {
            None
        };
        let tiles64_simd = if config.topology.tiles64_simd {
            Some(ColumnarIndex::new_aosoa64_simd())
        } else {
            None
        };
        let mut r = ScanIndex {
            by_fact: Table::new(),
            scope_entities: NameTable::new(),
            soa,
            entity_groups,
            tiles64,
            tiles64_simd,
        };
        r.clear();
        r
    }

    fn insert_base(&mut self, entry: &Arc<IndexEntry>)
        requires
            old(self).wf(),
        ensures
            final(self).wf(),
            final(self).soa == old(self).soa,
            final(self).entity_groups == old(self).entity_groups,
            final(self).tiles64 == old(self).tiles64,
            final(self).tiles64_simd == old(self).tiles64_simd,
            super::stream::is_put(
                final(self).facts(entry.kind),
                old(self).facts(entry.kind),
                *entry,
            ),
            forall|k: EventKind|
                k != entry.kind ==> #[trigger] final(self).facts(k) == old(self).facts(k),
            forall|s: Seq<char>| #[trigger]
                final(self).scope_has(s) == (old(self).scope_has(s) || s
                    == entry.coord.scope_spec()),
            forall|s: Seq<char>| #[trigger]
                final(self).scope_members(s) == (if s == entry.coord.scope_spec() {
                    old(self).scope_members(s).insert(entry.coord.entity_spec())
                } else {
                    old(self).scope_members(s)
                }),
    {
        let ghost before = *self;
        let key: u128 = entry.kind.as_raw_u16() as u128;
        match self.by_fact.get_mut(key) {
            Some(stream) => {
                stream.put(Arc::clone(entry));
            },
            None => {
                let mut stream = ClockStream::new();
                stream.put(Arc::clone(entry));
                self.by_fact.insert(key, stream);
            },
        }
        proof {
            let new = self.by_fact.entries();
            let old_e = before.by_fact.entries();
            assert(super::stream::is_put(new[key]@, before.facts(entry.kind), *entry));
            assert forall|k: u128| #[trigger] new.contains_key(k) implies k <= u16::MAX
                && super::stream::keys_ascend(new[k]@) && forall|i: int|
                0 <= i < new[k]@.len() ==> (#[trigger] new[k]@[i]).kind.raw() == k by {
                if k != key {
                    assert(old_e.contains_key(k));
                    assert(new[k] == old_e[k]);
                } else {
                    assert forall|i: int| 0 <= i < new[k]@.len() implies (#[trigger] new[k]@[i])
                        .kind.raw() == k by {
                        assert(new[k]@.contains(new[k]@[i]));
                        if new[k]@[i] != *entry {
                            assert(before.facts(entry.kind).contains(new[k]@[i]));
                            assert(old_e.contains_key(key));
                        }
                    }
                }
            }
        }
        let scope = entry.coord.scope();
        let entity = entry.coord.entity();
        match self.scope_entities.get_mut(scope) {
            Some(set) => {
                set.insert(entity);
            },
            None => {
                let mut set = EntitySet::new();
                set.insert(entity);
                self.scope_entities.insert(scope, set);
            },
        }
        proof {
            let new = self.scope_entities.entries();
            let old_e = before.scope_entities.entries();
            assert forall|n: Seq<char>| #[trigger] new.contains_key(n) implies new[n].wf() by {
                if n != scope@ {
                    assert(old_e.contains_key(n));
                    assert(new[n] == old_e[n]);
                }
            }
            assert forall|k: EventKind| k != entry.kind implies #[trigger] self.facts(k)
                == before.facts(k) by {
                crate::event::law_kind_is_category_and_type(k, entry.kind);
            }
        }
    }

    /// The entity-group overlay, where it exists, groups rows by entity.
    pub proof fn lemma_group_layout(&self)
        requires
            self.wf(),
        ensures
            self.group_overlay() matches Some(groups) ==> groups.wf() && groups.grouped(),
    {
    }

    /// A scope without an entry has no members.
    pub proof fn lemma_scope_members(&self, scope: Seq<char>)
        ensures
            !self.scope_has(scope) ==> self.scope_members(scope) == Set::<Seq<char>>::empty(),
    {
    }

    /// The order of a scope lists its members once.
    pub proof fn lemma_scope_order(&self, scope: Seq<char>)
        requires
            self.wf(),
        ensures
            !self.scope_has(scope) ==> self.scope_order(scope).len() == 0,
            self.scope_order(scope).no_duplicates(),
            forall|e: Seq<char>| #[trigger]
                self.scope_order(scope).contains(e) <==> self.scope_members(scope).contains(e),
    {
        if self.scope_has(scope) {
            self.scope_entities.entries()[scope].lemma_order();
        }
    }

    /// Insert an entry into every view.
    pub fn insert(&mut self, entry: &Arc<IndexEntry>)
        requires
            old(self).wf(),
        ensures
            final(self).wf(),
            final(self).grew(old(self), *entry),
    {
        self.insert_base(entry);
        let ghost mid = *self;
        if let Some(idx) = &mut self.soa {
            idx.insert(entry);
        }
        if let Some(idx) = &mut self.entity_groups {
            idx.insert(entry);
        }
        if let Some(idx) = &mut self.tiles64 {
            idx.insert(entry);
        }
        if let Some(idx) = &mut self.tiles64_simd {
            idx.insert(entry);
        }
        assert(forall|k: EventKind| #[trigger] self.facts(k) == mid.facts(k));
        assert(forall|s: Seq<char>| #[trigger] self.scope_has(s) == mid.scope_has(s));
        assert(forall|s: Seq<char>| #[trigger] self.scope_members(s) == mid.scope_members(s));
    }

    /// Discard all entries.
    pub fn clear(&mut self)
        requires
            old(self).wf(),
        ensures
            final(self).emptied_from(old(self)),
    {
        self.by_fact.clear();
        self.scope_entities.clear();
        if let Some(idx) = &mut self.soa {
            idx.clear();
        }
        if let Some(idx) = &mut self.entity_groups {
            idx.clear();
        }
        if let Some(idx) = &mut self.tiles64 {
            idx.clear();
        }
        if let Some(idx) = &mut self.tiles64_simd {
            idx.clear();
        }
    }

    /// The entities registered under `scope`.
    pub fn scope_entity_set(&self, scope: &str) -> (r: Option<&EntitySet>)
        requires
            self.wf(),
        ensures
            match r {
                Some(set) => self.scope_has(scope@) && set.wf() && set.members()
                    == self.scope_members(scope@) && set.order() == self.scope_order(scope@),
                None => !self.scope_has(scope@),
            },
    {
        self.scope_entities.get(scope)
    }

    /// Replace all rows by those of a restore.
    pub fn rebuild_from_restore_base(
        &mut self,
        entries_by_sequence: &Vec<Arc<IndexEntry>>,
        entries_by_entity: &Vec<Arc<IndexEntry>>,
    )
        requires
            old(self).wf(),
        ensures
            final(self).wf(),
            final(self).rebuilt_from(old(self), entries_by_sequence@, entries_by_entity@),
    {
        self.clear();
        let ghost rows = entries_by_sequence@;
        proof {
            assert forall|s: Seq<char>| #[trigger] self.scope_members(s)
                == Set::<Seq<char>>::empty() by {
                assert(!self.scope_has(s));
            }
        }
        let mut i: usize = 0;
        while i < entries_by_sequence.len()
            invariant
                i <= rows.len(),
                rows == entries_by_sequence@,
                self.wf(),
                self.topology() == old(self).topology(),
                self.flat_overlay() is Some == old(self).flat_overlay() is Some,
                self.group_overlay() is Some == old(self).group_overlay() is Some,
                self.tile_overlay() is Some == old(self).tile_overlay() is Some,
                self.mixed_overlay() is Some == old(self).mixed_overlay() is Some,
                forall|k: EventKind| #[trigger]
                    rebuilt_stream(self.facts(k), rows.take(i as int), k),
                forall|s: Seq<char>| #[trigger]
                    self.scope_has(s) <==> exists|j: int|
                        0 <= j < i && (#[trigger] rows[j]).coord.scope_spec() == s,
                forall|s: Seq<char>, e: Seq<char>| #[trigger]
                    self.scope_members(s).contains(e) <==> exists|j: int|
                        0 <= j < i && (#[trigger] rows[j]).coord.scope_spec() == s
                            && rows[j].coord.entity_spec() == e,
            decreases rows.len() - i,
        {
            let ghost before = *self;
            self.insert_base(&entries_by_sequence[i]);
            proof {
                let entry = rows[i as int];
                assert(rows.take(i + 1) =~= rows.take(i as int).push(entry));
                assert forall|k: EventKind| #[trigger]
                    rebuilt_stream(self.facts(k), rows.take(i + 1), k) by {
                    assert(rebuilt_stream(before.facts(k), rows.take(i as int), k));
                    reveal(Seq::filter);
                    assert(rows.take(i as int).push(entry).drop_last() =~= rows.take(i as int));
                    if k == entry.kind {
                        super::stream::lemma_keyed_put(
                            self.facts(k),
                            before.facts(k),
                            kind_rows(rows.take(i as int), k),
                            entry,
                        );
                    }
                }
            }
            i += 1;
        }
        assert(rows.take(rows.len() as int) =~= rows);
        let ghost mid = *self;
        if let Some(idx) = &mut self.soa {
            idx.rebuild_from_restore_base(entries_by_sequence, entries_by_entity);
        }
        if let Some(idx) = &mut self.entity_groups {
            idx.rebuild_from_restore_base(entries_by_sequence, entries_by_entity);
        }
        if let Some(idx) = &mut self.tiles64 {
            idx.rebuild_from_restore_base(entries_by_sequence, entries_by_entity);
        }
        if let Some(idx) = &mut self.tiles64_simd {
            idx.rebuild_from_restore_base(entries_by_sequence, entries_by_entity);
        }
        proof {
            assert forall|k: EventKind| #[trigger]
                rebuilt_stream(self.facts(k), rows, k) by {
                assert(self.facts(k) == mid.facts(k));
                assert(rebuilt_stream(mid.facts(k), rows, k));
            }
            assert(forall|s: Seq<char>| #[trigger] self.scope_has(s) == mid.scope_has(s));
            assert(forall|s: Seq<char>| #[trigger]
                self.scope_members(s) == mid.scope_members(s));
        }
    }

    /// What the configured views can do, and where each query goes.
    pub fn capabilities(&self) -> (r: ScanCapabilities)
        requires
            self.wf(),
        ensures
            r.by_kind == kind_route(self.topology()),
            r.by_scope == scope_route(self.topology()),
            r.by_category == kind_route(self.topology()),
            r.projection.entity_generation_fast_path == self.topology().entity_groups,
            r.projection.cached_projection == self.topology().entity_groups,
            r.projection.projection_candidates == self.topology().entity_groups,
            r.topology_name@ == topology_label(self.topology()),
            r.tile_count == self.tile_total(),
    {
        let has_soa: bool = self.soa.is_some();
        let has_entity_groups: bool = self.entity_groups.is_some();
        let has_tiles64: bool = self.tiles64.is_some();
        let has_tiles64_simd: bool = self.tiles64_simd.is_some();
        let topology_name = match (has_soa, has_entity_groups, has_tiles64, has_tiles64_simd) {
            (false, false, false, false) => "aos",
            (true, false, false, false) => "scan",
            (false, true, false, false) => "entity-local",
            (false, false, true, false) => "tiled",
            (false, false, false, true) => "tiled-simd",
            (true, true, true, false) => "all",
            _ => "hybrid",
        };
        let by_kind = if has_soa {
            ScanRoute::SoA
        } else if has_tiles64 {
            ScanRoute::AoSoA64
        } else if has_tiles64_simd {
            ScanRoute::AoSoA64Simd
        } else if has_entity_groups {
            ScanRoute::SoAoS
        } else {
            ScanRoute::BaseAoS
        };
        let by_scope = if has_entity_groups {
            ScanRoute::SoAoS
        } else if has_soa {
            ScanRoute::SoA
        } else if has_tiles64 {
            ScanRoute::AoSoA64
        } else if has_tiles64_simd {
            ScanRoute::AoSoA64Simd
        } else {
            ScanRoute::BaseAoS
        };
        let tile_count: usize = match &self.tiles64 {
            Some(tiles) => tiles.tile_count(),
            None => match &self.tiles64_simd {
                Some(tiles) => tiles.tile_count(),
                None => 0,
            },
        };
        ScanCapabilities {
            by_kind,
            by_scope,
            by_category: by_kind,
            projection: ProjectionSupport {
                entity_generation_fast_path: has_entity_groups,
                cached_projection: has_entity_groups,
                projection_candidates: has_entity_groups,
            },
            topology_name,
            tile_count,
        }
    }

    /// Base hits of one kind.
    fn query_base_hits_by_kind(&self, kind: EventKind) -> (r: Vec<QueryHit>)
        requires
            self.wf(),
        ensures
            r@ == super::columnar::sorted_hits(
                super::stream::matching(
                    super::layout::flat(self.base_parts()),
                    EntryQuery::Kind(kind),
                ),
            ),
            super::stream::matching(
                super::layout::flat(self.base_parts()),
                EntryQuery::Kind(kind),
            ) == super::stream::hits(self.facts(kind)),
    {
        let mut results: Vec<QueryHit> = Vec::new();
        if let Some(stream) = self.by_fact.get(kind.as_raw_u16() as u128) {
            collect_all(stream.rows(), &mut results);
        }
        proof {
            self.lemma_base_kind(kind);
            assert(results@ =~= super::stream::hits(self.facts(kind)));
        }
        sort_hits(&mut results);
        results
    }

    /// The base rows of a kind are those of its stream.
    pub proof fn lemma_base_kind(&self, kind: EventKind)
        requires
            self.wf(),
        ensures
            super::stream::matching(
                super::layout::flat(self.base_parts()),
                EntryQuery::Kind(kind),
            ) == super::stream::hits(self.facts(kind)),
    {
        let key = kind.raw() as u128;
        self.by_fact.lemma_order();
        let order = self.by_fact.order();
        let parts = self.base_parts();
        let query = EntryQuery::Kind(kind);
        assert forall|i: int, j: int|
            #![trigger parts[i][j]]
            0 <= i < parts.len() && 0 <= j < parts[i].len() implies (query.admits_spec(
            &parts[i][j],
        ) <==> order[i] == key) by {
            assert(order.contains(order[i]));
            assert(self.by_fact.entries().contains_key(order[i]));
            let row = self.by_fact.entries()[order[i]]@[j];
            assert(row.kind.raw() == order[i]);
            crate::event::law_kind_is_category_and_type(row.kind, kind);
        }
        if self.by_fact.entries().contains_key(key) {
            assert(order.contains(key));
            let at = order.index_of(key);
            assert forall|i: int| 0 <= i < order.len() && i != at implies #[trigger] order[i]
                != key by {}
            lemma_one_part_matches(parts, query, at);
            super::stream::lemma_matching_all(parts[at], query);
        } else {
            assert forall|i: int| 0 <= i < order.len() implies #[trigger] order[i] != key by {
                assert(order.contains(order[i]));
            }
            lemma_no_part_matches(parts, query);
            assert(super::stream::hits(self.facts(kind)) =~= Seq::<QueryHit>::empty());
        }
    }

    /// The base parts are the streams of distinct kinds.
    pub proof fn lemma_base_parts(&self)
        requires
            self.wf(),
        ensures
            forall|i: int, j: int|
                #![trigger self.base_parts()[i][j]]
                0 <= i < self.base_parts().len() && 0 <= j < self.base_parts()[i].len()
                    ==> self.base_parts()[i] == self.facts(self.base_parts()[i][j].kind),
            forall|k: EventKind|
                (#[trigger] self.facts(k)).len() > 0 ==> exists|i: int|
                    0 <= i < self.base_parts().len() && #[trigger] self.base_parts()[i]
                        == self.facts(k),
            super::layout::parts_unique(self.base_parts()),
    {
        let order = self.by_fact.order();
        let parts = self.base_parts();
        self.by_fact.lemma_order();
        assert forall|i: int, j: int|
            #![trigger parts[i][j]]
            0 <= i < parts.len() && 0 <= j < parts[i].len() implies parts[i] == self.facts(
            parts[i][j].kind,
        ) && parts[i][j].kind.raw() == order[i] by {
            assert(self.by_fact.entries().contains_key(order[i]));
            let row = self.by_fact.entries()[order[i]]@[j];
            assert(row.kind.raw() == order[i]);
        }
        assert forall|k: EventKind| (#[trigger] self.facts(k)).len() > 0 implies exists|i: int|
            0 <= i < parts.len() && #[trigger] parts[i] == self.facts(k) by {
            let key = k.raw() as u128;
            assert(order.contains(key));
            let i = order.index_of(key);
            assert(parts[i] == self.facts(k));
        }
        assert forall|i: int, j: int, p: int, q: int|
            #![trigger parts[i][j], parts[p][q]]
            0 <= i < parts.len() && 0 <= j < parts[i].len() && 0 <= p < parts.len() && 0 <= q
                < parts[p].len() && (i != p || j != q) implies parts[i][j] != parts[p][q] by {
            assert(parts[i][j].kind.raw() == order[i]);
            assert(parts[p][q].kind.raw() == order[p]);
            if i == p {
                assert(self.by_fact.entries().contains_key(order[i]));
                assert(super::stream::keys_ascend(parts[i]));
                if j < q {
                    assert(parts[i][j].key().before_spec(parts[i][q].key()));
                } else {
                    assert(parts[i][q].key().before_spec(parts[i][j].key()));
                }
            }
        }
    }

    /// Base hits of one category.
    fn query_base_hits_by_category(&self, category: u8) -> (r: Vec<QueryHit>)
        requires
            self.wf(),
        ensures
            r@ == super::columnar::sorted_hits(
                super::stream::matching(
                    super::layout::flat(self.base_parts()),
                    EntryQuery::Category(category),
                ),
            ),
    {
        let ghost query = EntryQuery::Category(category);
        let ghost parts = self.base_parts();
        let mut results: Vec<QueryHit> = Vec::new();
        let mut i: usize = 0;
        proof {
            self.by_fact.lemma_order();
            assert(parts.take(0) =~= Seq::<Seq<Arc<IndexEntry>>>::empty());
            super::stream::lemma_matching_none(super::layout::flat(parts.take(0)), query);
        }
        while i < self.by_fact.len()
            invariant
                self.wf(),
                i <= self.by_fact.order().len(),
                parts == self.base_parts(),
                query == EntryQuery::Category(category),
                results@ == super::stream::matching(
                    super::layout::flat(parts.take(i as int)),
                    query,
                ),
            decreases self.by_fact.order().len() - i,
        {
            proof {
                self.by_fact.lemma_order();
                let key = self.by_fact.order()[i as int];
                assert(self.by_fact.order().contains(key));
                assert(self.by_fact.entries().contains_key(key));
                assert(parts.take(i + 1) =~= parts.take(i as int).push(parts[i as int]));
                super::layout::lemma_flat_push(parts.take(i as int), parts[i as int]);
                super::stream::lemma_matching_add(
                    super::layout::flat(parts.take(i as int)),
                    parts[i as int],
                    query,
                );
            }
            let kind = EventKind::from_raw_u16(self.by_fact.key_at(i) as u16);
            let stream = self.by_fact.value_at(i);
            proof {
                assert(stream@ == parts[i as int]);
                assert forall|j: int| 0 <= j < stream@.len() implies (#[trigger] stream@[j]).kind
                    == kind by {
                    crate::event::law_kind_is_category_and_type(stream@[j].kind, kind);
                }
            }
            if kind.category() == category {
                proof {
                    super::stream::lemma_matching_all(stream@, query);
                }
                collect_all(stream.rows(), &mut results);
            } else {
                proof {
                    super::stream::lemma_matching_none(stream@, query);
                }
            }
            i += 1;
            assert(results@ =~= super::stream::matching(
                super::layout::flat(parts.take(i as int)),
                query,
            ));
        }
        assert(parts.take(parts.len() as int) =~= parts);
        sort_hits(&mut results);
        results
    }

    /// Base hits of a query; queries by scope have none.
    fn query_base_hits(&self, query: EntryQuery<'_>) -> (r: Vec<QueryHit>)
        requires
            self.wf(),
        ensures
            r@ == super::columnar::sorted_hits(self.route_matches(ScanRoute::BaseAoS, query)),
    {
        match query {
            EntryQuery::Kind(kind) => self.query_base_hits_by_kind(kind),
            EntryQuery::Category(category) => self.query_base_hits_by_category(category),
            EntryQuery::Scope(_) => {
                let mut none: Vec<QueryHit> = Vec::new();
                sort_hits(&mut none);
                none
            },
        }
    }

    /// The hits of a query on a route, by global sequence.
    pub fn query_hits_route(&self, route: ScanRoute, query: EntryQuery<'_>) -> (r: Vec<QueryHit>)
        requires
            self.wf(),
        ensures
            r@ == super::columnar::sorted_hits(self.route_matches(route, query)),
    {
        let overlay = match route {
            ScanRoute::BaseAoS => &None,
            ScanRoute::SoA => &self.soa,
            ScanRoute::SoAoS => &self.entity_groups,
            ScanRoute::AoSoA64 => &self.tiles64,
            ScanRoute::AoSoA64Simd => &self.tiles64_simd,
        };
        match (overlay, query) {
            (Some(index), EntryQuery::Kind(kind)) => index.query_hits_by_kind(kind),
            (Some(index), EntryQuery::Category(category)) => index.query_hits_by_category(
                category,
            ),
            (Some(index), EntryQuery::Scope(scope)) => index.query_hits_by_scope(scope),
            (None, _) => self.query_base_hits(query),
        }
    }

    /// Hits of one kind.
    pub fn query_hits_by_kind(&self, kind: EventKind) -> (r: Vec<QueryHit>)
        requires
            self.wf(),
        ensures
            r@ == super::columnar::sorted_hits(
                self.route_matches(kind_route(self.topology()), EntryQuery::Kind(kind)),
            ),
    {
        self.query_hits_route(self.capabilities().by_kind, EntryQuery::Kind(kind))
    }

    /// Hits of one category.
    pub fn query_hits_by_category(&self, category: u8) -> (r: Vec<QueryHit>)
        requires
            self.wf(),
        ensures
            r@ == super::columnar::sorted_hits(
                self.route_matches(kind_route(self.topology()), EntryQuery::Category(category)),
            ),
    {
        self.query_hits_route(self.capabilities().by_category, EntryQuery::Category(category))
    }

    /// Hits of one scope.
    pub fn query_hits_by_scope(&self, scope: &str) -> (r: Vec<QueryHit>)
        requires
            self.wf(),
        ensures
            r@ == super::columnar::sorted_hits(
                self.route_matches(scope_route(self.topology()), EntryQuery::Scope(scope)),
            ),
            r@ == super::columnar::sorted_hits(self.scope_matches(scope@)),
    {
        proof {
            let query = EntryQuery::Scope(scope);
            let f = |e: Arc<IndexEntry>| query.admits_spec(&e);
            let g = |e: Arc<IndexEntry>| e.coord.scope_spec() == scope@;
            assert(f =~= g);
        }
        self.query_hits_route(self.capabilities().by_scope, EntryQuery::Scope(scope))
    }

    /// The first `limit` hits past a position on a route.
    pub fn query_hits_route_after(
        &self,
        route: ScanRoute,
        query: EntryQuery<'_>,
        after_seq: u64,
        started: bool,
        limit: usize,
    ) -> (r: Vec<QueryHit>)
        requires
            self.wf(),
        ensures
            r@ == super::columnar::bounded_after(
                super::columnar::sorted_hits(self.route_matches(route, query)),
                after_seq,
                started,
                limit,
            ),
    {
        let mut v = self.query_hits_route(route, query);
        apply_after_bounds(&mut v, after_seq, started, limit);
        v
    }

    /// Hits of one kind past a position.
    pub fn query_hits_by_kind_after(
        &self,
        kind: EventKind,
        after_seq: u64,
        started: bool,
        limit: usize,
    ) -> (r: Vec<QueryHit>)
        requires
            self.wf(),
        ensures
            r@ == super::columnar::bounded_after(
                super::columnar::sorted_hits(
                    self.route_matches(kind_route(self.topology()), EntryQuery::Kind(kind)),
                ),
                after_seq,
                started,
                limit,
            ),
    {
        self.query_hits_route_after(
            self.capabilities().by_kind,
            EntryQuery::Kind(kind),
            after_seq,
            started,
            limit,
        )
    }

    /// Hits of one category past a position.
    pub fn query_hits_by_category_after(
        &self,
        category: u8,
        after_seq: u64,
        started: bool,
        limit: usize,
    ) -> (r: Vec<QueryHit>)
        requires
            self.wf(),
        ensures
            r@ == super::columnar::bounded_after(
                super::columnar::sorted_hits(
                    self.route_matches(
                        kind_route(self.topology()),
                        EntryQuery::Category(category),
                    ),
                ),
                after_seq,
                started,
                limit,
            ),
    {
        self.query_hits_route_after(
            self.capabilities().by_category,
            EntryQuery::Category(category),
            after_seq,
            started,
            limit,
        )
    }

    /// Hits of one scope past a position.
    pub fn query_hits_by_scope_after(
        &self,
        scope: &str,
        after_seq: u64,
        started: bool,
        limit: usize,
    ) -> (r: Vec<QueryHit>)
        requires
            self.wf(),
        ensures
            r@ == super::columnar::bounded_after(
                super::columnar::sorted_hits(
                    self.route_matches(scope_route(self.topology()), EntryQuery::Scope(scope)),
                ),
                after_seq,
                started,
                limit,
            ),
    {
        self.query_hits_route_after(
            self.capabilities().by_scope,
            EntryQuery::Scope(scope),
            after_seq,
            started,
            limit,
        )
    }

    /// Name of the topology.
    pub fn topology_name(&self) -> (name: &'static str)
        requires
            self.wf(),
        ensures
            name@ == topology_label(self.topology()),
    {
        self.capabilities().topology_name
    }

    /// Number of tiles.
    pub fn tile_count(&self) -> (n: usize)
        requires
            self.wf(),
        ensures
            n == self.tile_total(),
    {
        self.capabilities().tile_count
    }

    /// Generation of an entity, where rows are grouped by entity.
    pub fn entity_generation(&self, entity: &str) -> (r: Option<u64>)
        requires
            self.wf(),
        ensures
            r == match self.group_overlay() {
                Some(groups) => if groups.has(entity@) {
                    Some(groups.rows_of(entity@).len() as u64)
                } else {
                    None
                },
                None => None,
            },
    {
        match &self.entity_groups {
            Some(idx) => idx.entity_generation(entity),
            None => None,
        }
    }

    /// Cached state of a projection of an entity.
    pub fn cached_projection(&self, entity: &str, type_id: ProjectionTypeId) -> (r: Option<
        CachedProjectionSlot,
    >)
        requires
            self.wf(),
        ensures
            match r {
                Some(slot) => self.group_overlay() is Some
                    && self.group_overlay()->0.slots_of(entity@).contains_key(type_id.id)
                    && slot.same(&self.group_overlay()->0.slots_of(entity@)[type_id.id]),
                None => self.group_overlay() matches Some(groups) ==> !groups.slots_of(
                    entity@,
                ).contains_key(type_id.id),
            },
    {
        match &self.entity_groups {
            Some(idx) => idx.cached_projection(entity, type_id),
            None => None,
        }
    }

    /// Store the state of a projection of an entity.
    pub fn store_cached_projection(
        &mut self,
        entity: &str,
        type_id: ProjectionTypeId,
        bytes: Vec<u8>,
        watermark: u64,
    ) -> (r: ProjectionCacheStoreStatus)
        requires
            old(self).wf(),
        ensures
            final(self).wf(),
            r == match old(self).group_overlay() {
                Some(groups) => if groups.has(entity@) {
                    ProjectionCacheStoreStatus::Stored
                } else {
                    ProjectionCacheStoreStatus::MissingEntity
                },
                None => ProjectionCacheStoreStatus::UnsupportedTopology,
            },
            final(self).same_but_slots(old(self)),
            (final(self).group_overlay(), old(self).group_overlay()) matches (
                Some(n),
                Some(o),
            ) ==> forall|e: Seq<char>| #[trigger]
                n.slots_of(e) == (if e == entity@ && r is Stored {
                    o.slots_of(e).insert(
                        type_id.id,
                        CachedProjectionSlot {
                            bytes,
                            watermark,
                            generation: o.rows_of(e).len() as u64,
                        },
                    )
                } else {
                    o.slots_of(e)
                }),
    {
        let ghost before = *self;
        let r = match &mut self.entity_groups {
            Some(idx) => idx.store_cached_projection(entity, type_id, bytes, watermark),
            None => ProjectionCacheStoreStatus::UnsupportedTopology,
        };
        proof {
            assert(forall|k: EventKind| #[trigger] self.facts(k) == before.facts(k));
            assert(forall|s: Seq<char>| #[trigger] self.scope_has(s) == before.scope_has(s));
            assert(forall|s: Seq<char>| #[trigger]
                self.scope_members(s) == before.scope_members(s));
            assert(self.base_parts() =~= before.base_parts());
        }
        r
    }

    /// The rows of an entity that a projection consumes.
    pub fn projection_candidates(&self, entity: &str, relevant_kinds: &[EventKind]) -> (r: Option<
        ProjectionCandidates,
    >)
        requires
            self.wf(),
        ensures
            match self.group_overlay() {
                Some(groups) => {
                    let rows = super::groups::relevant_rows(
                        groups.rows_of(entity@),
                        relevant_kinds@,
                    );
                    &&& r is Some <==> rows.len() > 0
                    &&& r matches Some(c) ==> {
                        &&& c.hits@ == super::stream::hits(rows)
                        &&& c.watermark == rows.last().global_sequence
                        &&& c.generation == groups.rows_of(entity@).len()
                    }
                },
                None => r is None,
            },
    {
        match &self.entity_groups {
            Some(idx) => idx.projection_candidates(entity, relevant_kinds),
            None => None,
        }
    }

    /// Two indexes hold the same rows in every view; cached projection states
    /// may differ.
    pub open spec fn same_but_slots(&self, other: &ScanIndex) -> bool {
        &&& self.topology() == other.topology()
        &&& forall|k: EventKind| #[trigger] self.facts(k) == other.facts(k)
        &&& forall|s: Seq<char>| #[trigger] self.scope_has(s) == other.scope_has(s)
        &&& forall|s: Seq<char>| #[trigger] self.scope_members(s) == other.scope_members(s)
        &&& self.base_parts() == other.base_parts()
        &&& self.flat_overlay() == other.flat_overlay()
        &&& self.tile_overlay() == other.tile_overlay()
        &&& self.mixed_overlay() == other.mixed_overlay()
        &&& match (self.group_overlay(), other.group_overlay()) {
            (Some(n), Some(o)) => {
                &&& n.listing() == o.listing()
                &&& forall|e: Seq<char>| #[trigger] n.has(e) == o.has(e)
                &&& forall|e: Seq<char>| #[trigger] n.rows_of(e) == o.rows_of(e)
            },
            (None, None) => true,
            _ => false,
        }
    }
}

/// Where one part alone holds matches, the matches are those of that part.
proof fn lemma_one_part_matches(
    parts: Seq<Seq<Arc<IndexEntry>>>,
    query: EntryQuery,
    at: int,
)
    requires
        0 <= at < parts.len(),
        forall|i: int, j: int|
            #![trigger parts[i][j]]
            0 <= i < parts.len() && i != at && 0 <= j < parts[i].len()
                ==> !query.admits_spec(&parts[i][j]),
    ensures
        super::stream::matching(super::layout::flat(parts), query) == super::stream::matching(
            parts[at],
            query,
        ),
    decreases parts.len(),
{
    let head = parts.drop_last();
    let last = parts.last();
    super::stream::lemma_matching_add(super::layout::flat(head), last, query);
    if at == parts.len() - 1 {
        assert forall|i: int, j: int|
            #![trigger head[i][j]]
            0 <= i < head.len() && 0 <= j < head[i].len() implies !query.admits_spec(
            &head[i][j],
        ) by {
            assert(head[i] == parts[i]);
            assert(!query.admits_spec(&parts[i][j]));
        }
        lemma_no_part_matches(head, query);
        assert(super::stream::matching(super::layout::flat(parts), query)
            =~= super::stream::matching(parts[at], query));
    } else {
        assert forall|i: int, j: int|
            #![trigger head[i][j]]
            0 <= i < head.len() && i != at && 0 <= j < head[i].len() implies !query.admits_spec(&head[i][j]) by {
            assert(head[i] == parts[i]);
            assert(!query.admits_spec(&parts[i][j]));
        }
        lemma_one_part_matches(head, query, at);
        assert forall|j: int| 0 <= j < last.len() implies !query.admits_spec(
            &#[trigger] last[j],
        ) by {
            assert(!query.admits_spec(&parts[parts.len() - 1][j]));
        }
        super::stream::lemma_matching_none(last, query);
        assert(super::stream::matching(super::layout::flat(parts), query)
            =~= super::stream::matching(parts[at], query));
    }
}

/// Parts without matches have none together.
proof fn lemma_no_part_matches(parts: Seq<Seq<Arc<IndexEntry>>>, query: EntryQuery)
    requires
        forall|i: int, j: int|
            #![trigger parts[i][j]]
            0 <= i < parts.len() && 0 <= j < parts[i].len() ==> !query.admits_spec(
                &parts[i][j],
            ),
    ensures
        super::stream::matching(super::layout::flat(parts), query) == Seq::<QueryHit>::empty(),
{
    let all = super::layout::flat(parts);
    assert forall|k: int| 0 <= k < all.len() implies !query.admits_spec(&#[trigger] all[k]) by {
        assert(all.contains(all[k]));
        super::layout::lemma_flat_contains(parts, all[k]);
        let i = choose|i: int| 0 <= i < parts.len() && (#[trigger] parts[i]).contains(all[k]);
        let j = parts[i].index_of(all[k]);
        assert(!query.admits_spec(&parts[i][j]));
    }
    super::stream::lemma_matching_none(all, query);
}

/// The rows of one scope, in order.
pub open spec fn scope_rows(rows: Seq<Arc<IndexEntry>>, scope: Seq<char>) -> Seq<
    Arc<IndexEntry>,
> {
    rows.filter(|e: Arc<IndexEntry>| e.coord.scope_spec() == scope)
}

/// The rows of one kind, in order.
pub open spec fn kind_rows(rows: Seq<Arc<IndexEntry>>, kind: EventKind) -> Seq<Arc<IndexEntry>> {
    rows.filter(|e: Arc<IndexEntry>| e.kind == kind)
}

/// The stream holds, in key order, the last row of each key among the rows of
/// a kind.
pub open spec fn rebuilt_stream(
    stream: Seq<Arc<IndexEntry>>,
    rows: Seq<Arc<IndexEntry>>,
    kind: EventKind,
) -> bool {
    super::stream::keyed(stream, kind_rows(rows, kind))
}

/// A query goes to an overlay that is kept: by kind and category to the flat one
/// first, then the tiles, then the mixed tiles, then the groups; by scope to the
/// groups first. Without overlays it goes to the base maps. The fast paths of
/// projections are there where rows are grouped.
pub proof fn law_queries_go_to_what_is_kept(index: &ScanIndex, r: ScanCapabilities)
    requires
        index.wf(),
        call_ensures(ScanIndex::capabilities, (index,), r),
    ensures
        ({
            let t = index.topology();
            &&& r.by_category == r.by_kind
            &&& r.by_kind is SoA <==> t.soa
            &&& r.by_kind is AoSoA64 <==> !t.soa && t.tiles64
            &&& r.by_kind is AoSoA64Simd <==> !t.soa && !t.tiles64 && t.tiles64_simd
            &&& r.by_kind is SoAoS <==> !t.soa && !t.tiles64 && !t.tiles64_simd && t.entity_groups
            &&& r.by_kind is BaseAoS <==> !t.soa && !t.tiles64 && !t.tiles64_simd
                && !t.entity_groups
            &&& r.by_scope is SoAoS <==> t.entity_groups
            &&& r.by_scope is SoA <==> !t.entity_groups && t.soa
            &&& r.by_scope is AoSoA64 <==> !t.entity_groups && !t.soa && t.tiles64
            &&& r.by_scope is AoSoA64Simd <==> !t.entity_groups && !t.soa && !t.tiles64
                && t.tiles64_simd
            &&& r.by_scope is BaseAoS <==> !t.soa && !t.tiles64 && !t.tiles64_simd
                && !t.entity_groups
            &&& r.projection.entity_generation_fast_path <==> t.entity_groups
            &&& r.projection.cached_projection <==> t.entity_groups
            &&& r.projection.projection_candidates <==> t.entity_groups
        }),
{
}

/// Every named topology has its name, and any other is a hybrid.
pub proof fn law_topologies_have_their_names(index: &ScanIndex, name: &'static str)
    requires
        index.wf(),
        call_ensures(ScanIndex::topology_name, (index,), name),
    ensures
        ({
            let t = index.topology();
            let several = (t.soa && t.entity_groups) || (t.soa && t.tiles64) || (t.soa
                && t.tiles64_simd) || (t.entity_groups && t.tiles64) || (t.entity_groups
                && t.tiles64_simd) || (t.tiles64 && t.tiles64_simd);
            let all = t.soa && t.entity_groups && t.tiles64 && !t.tiles64_simd;
            &&& !t.soa && !t.entity_groups && !t.tiles64 && !t.tiles64_simd ==> name@ == "aos"@
            &&& t.soa && !several ==> name@ == "scan"@
            &&& t.entity_groups && !several ==> name@ == "entity-local"@
            &&& t.tiles64 && !several ==> name@ == "tiled"@
            &&& t.tiles64_simd && !several ==> name@ == "tiled-simd"@
            &&& all ==> name@ == "all"@
            &&& several && !all ==> name@ == "hybrid"@
        }),
{
}

} // verus!
