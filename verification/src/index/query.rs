//! Reads of the index: point lookups, streams and region queries.

use super::columnar::{apply_after_bounds, sort_hits};
use super::entry::{IndexEntry, QueryHit};
use super::gate::VisibilitySnapshot;
use super::store::StoreIndex;
use super::stream::collect_all;
use crate::coordinate::{KindFilter, Region};
use crate::text::str_equal;
use std::sync::Arc;
use vstd::prelude::*;

verus! {

impl StoreIndex {
    /// The streams of some entities, one after another.
    pub open spec fn name_rows(&self, names: Seq<Seq<char>>) -> Seq<Arc<IndexEntry>> {
        super::layout::flat(names.map_values(|n: Seq<char>| self.stream_rows(n)))
    }

    /// The entities of a region, in slot order.
    pub open spec fn region_names(&self, region: Region) -> Seq<Seq<char>> {
        self.streams.order().filter(|n: Seq<char>| region.entity_ok(n))
    }

    /// The hits that a region query looks at: by entity prefix, else by scope,
    /// else by kind, else all of them.
    pub open spec fn candidates(&self, region: Region) -> Seq<QueryHit> {
        let walked = super::stream::hits(self.name_rows(self.region_names(region)));
        if region.entity_prefix is Some {
            walked
        } else if region.scope is Some {
            let scope = region.scope->0@;
            let scanned = super::columnar::sorted_hits(self.scan.scope_matches(scope));
            if scanned.len() > 0 {
                scanned
            } else {
                super::stream::hits(self.name_rows(self.scan.scope_order(scope)))
            }
        } else {
            match region.fact {
                Some(KindFilter::Exact(kind)) => super::columnar::sorted_hits(
                    self.scan.route_matches(
                        super::scan::kind_route(self.scan.topology()),
                        super::stream::EntryQuery::Kind(kind),
                    ),
                ),
                Some(KindFilter::Category(category)) => super::columnar::sorted_hits(
                    self.scan.route_matches(
                        super::scan::kind_route(self.scan.topology()),
                        super::stream::EntryQuery::Category(category),
                    ),
                ),
                _ => walked,
            }
        }
    }

    /// Readers of a region see a sequence of a lane.
    pub open spec fn region_sees(&self, region: Region, sequence: u64, lane: u32) -> bool {
        match region.lane {
            Some(wanted) => lane == wanted && self.sequence@.sees_on_lane(sequence, wanted),
            None => self.sequence@.sees(sequence),
        }
    }

    /// A candidate passes every filter of a region.
    pub open spec fn keeps(&self, region: Region, hit: QueryHit) -> bool {
        &&& self.region_sees(region, hit.global_sequence, hit.dag_lane)
        &&& region.scope is Some ==> self.by_id.entries().contains_key(hit.event_id)
            && region.scope_ok(self.by_id.entries()[hit.event_id].coord.scope_spec())
        &&& region.kind_ok(hit.kind)
        &&& region.clock_ok(hit.clock)
    }

    /// The candidates that pass every filter of a region.
    pub open spec fn kept(&self, region: Region) -> Seq<QueryHit> {
        self.candidates(region).filter(|h: QueryHit| self.keeps(region, h))
    }

    /// The hits of a region, by global sequence.
    pub open spec fn region_hits(&self, region: Region) -> Seq<QueryHit> {
        super::columnar::sorted_hits(self.kept(region))
    }

    /// A hit leads to a visible event.
    pub open spec fn upgrades(&self, hit: QueryHit) -> bool {
        self.by_id.entries().contains_key(hit.event_id) && self.sequence@.sees(
            self.by_id.entries()[hit.event_id].global_sequence,
        )
    }

    /// The events of hits.
    pub open spec fn upgraded(&self, hits: Seq<QueryHit>) -> Seq<Arc<IndexEntry>> {
        hits.filter(|h: QueryHit| self.upgrades(h)).map_values(
            |h: QueryHit| self.by_id.entries()[h.event_id],
        )
    }

    /// The event with an id, where readers see it.
    pub fn get_by_id(&self, event_id: u128) -> (r: Option<IndexEntry>)
        requires
            self.wf(),
        ensures
            match r {
                Some(entry) => self.by_id.entries().contains_key(event_id) && self.sequence@.sees(
                    self.by_id.entries()[event_id].global_sequence,
                ) && entry.same(&self.by_id.entries()[event_id]),
                None => self.by_id.entries().contains_key(event_id) ==> !self.sequence@.sees(
                    self.by_id.entries()[event_id].global_sequence,
                ),
            },
    {
        let visibility = self.sequence.snapshot();
        proof {
            visibility.lemma_shows(self.sequence@);
        }
        match self.by_id.get(event_id) {
            Some(entry) => if visibility.is_visible(entry.global_sequence) {
                Some((**entry).clone())
            } else {
                None
            },
            None => None,
        }
    }

    /// The event of a hit, where readers see it now.
    pub fn upgrade_hit(&self, hit: QueryHit) -> (r: Option<IndexEntry>)
        requires
            self.wf(),
        ensures
            match r {
                Some(entry) => self.upgrades(hit) && entry.same(
                    &self.by_id.entries()[hit.event_id],
                ),
                None => !self.upgrades(hit),
            },
    {
        let visibility = self.sequence.snapshot();
        proof {
            visibility.lemma_shows(self.sequence@);
        }
        self.upgrade_hit_with_visibility(hit, &visibility)
    }

    /// The event of a hit, where a snapshot shows it. A hit without a backing
    /// event is dropped.
    pub fn upgrade_hit_with_visibility(&self, hit: QueryHit, visibility: &VisibilitySnapshot) -> (r:
        Option<IndexEntry>)
        requires
            self.wf(),
        ensures
            match r {
                Some(entry) => self.by_id.entries().contains_key(hit.event_id) && visibility.sees(
                    self.by_id.entries()[hit.event_id].global_sequence,
                ) && entry.same(&self.by_id.entries()[hit.event_id]),
                None => self.by_id.entries().contains_key(hit.event_id) ==> !visibility.sees(
                    self.by_id.entries()[hit.event_id].global_sequence,
                ),
            },
    {
        match self.by_id.get(hit.event_id) {
            Some(entry) => if visibility.is_visible(entry.global_sequence) {
                Some((**entry).clone())
            } else {
                None
            },
            None => None,
        }
    }

    /// The event of a hit, where a snapshot shows it on its lane.
    pub fn upgrade_hit_visible_on_lane(&self, hit: QueryHit, visibility: &VisibilitySnapshot) -> (r:
        Option<IndexEntry>)
        requires
            self.wf(),
        ensures
            match r {
                Some(entry) => self.by_id.entries().contains_key(hit.event_id)
                    && visibility.sees_on_lane(
                    self.by_id.entries()[hit.event_id].global_sequence,
                    self.by_id.entries()[hit.event_id].dag_lane,
                ) && entry.same(&self.by_id.entries()[hit.event_id]),
                None => self.by_id.entries().contains_key(hit.event_id)
                    ==> !visibility.sees_on_lane(
                    self.by_id.entries()[hit.event_id].global_sequence,
                    self.by_id.entries()[hit.event_id].dag_lane,
                ),
            },
    {
        match self.by_id.get(hit.event_id) {
            Some(entry) => if visibility.is_visible_on_lane(
                entry.global_sequence,
                entry.dag_lane,
            ) {
                Some((**entry).clone())
            } else {
                None
            },
            None => None,
        }
    }

    /// Walk the streams of a region's entities.
    fn walk_streams(&self, region: &Region) -> (out: Vec<QueryHit>)
        requires
            self.wf(),
        ensures
            out@ == super::stream::hits(self.name_rows(self.region_names(*region))),
    {
        let ghost order = self.streams.order();
        let ghost ok = |n: Seq<char>| region.entity_ok(n);
        let mut out: Vec<QueryHit> = Vec::new();
        let mut i: usize = 0;
        reveal(Seq::filter);
        proof {
            assert(order.take(0) =~= Seq::<Seq<char>>::empty());
            lemma_no_names(self, order.take(0).filter(ok));
        }
        while i < self.streams.len()
            invariant
                self.wf(),
                order == self.streams.order(),
                ok == |n: Seq<char>| region.entity_ok(n),
                i <= order.len(),
                out@ == super::stream::hits(self.name_rows(order.take(i as int).filter(ok))),
            decreases order.len() - i,
        {
            reveal(Seq::filter);
            let name = self.streams.name_at(i);
            proof {
                assert(order.take(i + 1).drop_last() =~= order.take(i as int));
                lemma_names_push(self, order.take(i as int).filter(ok), name@);
            }
            if region.matches_entity(name) {
                collect_all(self.streams.value_at(i).rows(), &mut out);
            }
            i += 1;
        }
        assert(order.take(order.len() as int) =~= order);
        out
    }

    /// The hits that a region query looks at.
    fn region_candidates(&self, region: &Region) -> (out: Vec<QueryHit>)
        requires
            self.wf(),
        ensures
            out@ == self.candidates(*region),
    {
        if region.entity_prefix.is_some() {
            return self.walk_streams(region);
        }
        match &region.scope {
            Some(scope) => {
                let scanned = self.scan.query_hits_by_scope(scope.as_str());
                if scanned.len() > 0 {
                    return scanned;
                }
                let mut out: Vec<QueryHit> = Vec::new();
                let ghost names = self.scan.scope_order(scope@);
                match self.scan.scope_entity_set(scope.as_str()) {
                    Some(entities) => {
                        let mut i: usize = 0;
                        proof {
                            assert(names.take(0) =~= Seq::<Seq<char>>::empty());
                            lemma_no_names(self, names.take(0));
                        }
                        while i < entities.len()
                            invariant
                                self.wf(),
                                entities.wf(),
                                names == entities.order(),
                                i <= names.len(),
                                out@ == super::stream::hits(
                                    self.name_rows(names.take(i as int)),
                                ),
                            decreases names.len() - i,
                        {
                            let name = entities.name_at(i);
                            proof {
                                assert(names.take(i + 1) =~= names.take(i as int).push(name@));
                                lemma_names_push(self, names.take(i as int), name@);
                            }
                            match self.streams.get(name) {
                                Some(stream) => collect_all(stream.rows(), &mut out),
                                None => {
                                    assert(out@ + super::stream::hits(self.stream_rows(name@))
                                        =~= out@);
                                },
                            }
                            i += 1;
                        }
                        assert(names.take(names.len() as int) =~= names);
                    },
                    None => {
                        proof {
                            self.scan.lemma_scope_order(scope@);
                            lemma_no_names(self, names);
                        }
                    },
                }
                out
            },
            None => match region.fact {
                Some(KindFilter::Exact(kind)) => self.scan.query_hits_by_kind(kind),
                Some(KindFilter::Category(category)) => self.scan.query_hits_by_category(category),
                _ => self.walk_streams(region),
            },
        }
    }

    /// Whether a candidate passes every filter of a region.
    fn hit_passes(&self, region: &Region, visibility: &VisibilitySnapshot, hit: &QueryHit) -> (r:
        bool)
        requires
            self.wf(),
            visibility.shows(self.sequence@),
        ensures
            r == self.keeps(*region, *hit),
    {
        proof {
            visibility.lemma_shows(self.sequence@);
        }
        let seen: bool = match region.lane {
            Some(lane) => hit.dag_lane == lane && visibility.is_visible_on_lane(
                hit.global_sequence,
                lane,
            ),
            None => visibility.is_visible(hit.global_sequence),
        };
        if !seen {
            return false;
        }
        if let Some(scope) = &region.scope {
            match self.by_id.get(hit.event_id) {
                Some(entry) => {
                    if !str_equal(entry.coord.scope(), scope.as_str()) {
                        return false;
                    }
                },
                None => {
                    return false;
                },
            }
        }
        if let Some(fact) = &region.fact {
            if !fact.admits(hit.kind) {
                return false;
            }
        }
        if let Some((min, max)) = region.clock_range {
            if hit.clock < min || hit.clock > max {
                return false;
            }
        }
        true
    }

    /// Keep the hits that pass every filter of a region.
    fn filter_region_hits(
        &self,
        hits: &mut Vec<QueryHit>,
        region: &Region,
        visibility: &VisibilitySnapshot,
    )
        requires
            self.wf(),
            visibility.shows(self.sequence@),
        ensures
            final(hits)@ == old(hits)@.filter(|h: QueryHit| self.keeps(*region, h)),
    {
        let ghost keep = |h: QueryHit| self.keeps(*region, h);
        let ghost all = hits@;
        let mut kept: Vec<QueryHit> = Vec::new();
        let mut i: usize = 0;
        reveal(Seq::filter);
        while i < hits.len()
            invariant
                self.wf(),
                visibility.shows(self.sequence@),
                keep == |h: QueryHit| self.keeps(*region, h),
                all == hits@,
                i <= all.len(),
                kept@ == all.take(i as int).filter(keep),
            decreases all.len() - i,
        {
            reveal(Seq::filter);
            assert(all.take(i + 1).drop_last() =~= all.take(i as int));
            if self.hit_passes(region, visibility, &hits[i]) {
                kept.push(hits[i]);
            }
            i += 1;
        }
        assert(all.take(all.len() as int) =~= all);
        *hits = kept;
    }

    fn query_hits_with_visibility(&self, region: &Region, visibility: &VisibilitySnapshot) -> (r:
        Vec<QueryHit>)
        requires
            self.wf(),
            visibility.shows(self.sequence@),
        ensures
            r@ == self.region_hits(*region),
    {
        let mut hits = self.region_candidates(region);
        self.filter_region_hits(&mut hits, region, visibility);
        sort_hits(&mut hits);
        hits
    }

    /// The hits of a region by global sequence, and the snapshot that they were
    /// filtered by.
    pub fn query_hits_with_snapshot(&self, region: &Region) -> (r: (
        Vec<QueryHit>,
        VisibilitySnapshot,
    ))
        requires
            self.wf(),
        ensures
            r.0@ == self.region_hits(*region),
            r.1.shows(self.sequence@),
    {
        let visibility = self.sequence.snapshot();
        let hits = self.query_hits_with_visibility(region, &visibility);
        (hits, visibility)
    }

    /// The first `limit` hits of a region past a position, by global sequence.
    pub fn query_hits_after(&self, region: &Region, after_seq: u64, started: bool, limit: usize) -> (r:
        Vec<QueryHit>)
        requires
            self.wf(),
        ensures
            r@ == super::columnar::bounded_after(self.kept(*region), after_seq, started, limit),
    {
        let visibility = self.sequence.snapshot();
        if region.entity_prefix.is_none() && region.scope.is_none() {
            if let Some(KindFilter::Any) = region.fact {
                return self.query_any_hits_after(region, &visibility, after_seq, started, limit);
            }
        }
        let mut hits = self.region_candidates(region);
        self.filter_region_hits(&mut hits, region, &visibility);
        apply_after_bounds(&mut hits, after_seq, started, limit);
        hits
    }

    /// Walk every stream, holding no more hits than a small multiple of `limit`.
    fn query_any_hits_after(
        &self,
        region: &Region,
        visibility: &VisibilitySnapshot,
        after_seq: u64,
        started: bool,
        limit: usize,
    ) -> (buf: Vec<QueryHit>)
        requires
            self.wf(),
            visibility.shows(self.sequence@),
            region.entity_prefix is None,
            region.scope is None,
            region.fact == Some(KindFilter::Any),
        ensures
            buf@ == super::columnar::bounded_after(self.kept(*region), after_seq, started, limit),
    {
        let doubled: usize = if limit <= usize::MAX / 2 {
            limit * 2
        } else {
            usize::MAX
        };
        let next: usize = limit.saturating_add(1);
        let wide: usize = if doubled > next {
            doubled
        } else {
            next
        };
        let trim_threshold: usize = if wide < 1048576 {
            wide
        } else {
            1048576
        };
        let mut buf: Vec<QueryHit> = Vec::new();
        let ghost order = self.streams.order();
        let ghost ok = |n: Seq<char>| region.entity_ok(n);
        let ghost keep = |h: QueryHit| self.keeps(*region, h);
        let ghost past = |h: QueryHit| !started || h.global_sequence > after_seq;
        let ghost mut seen: Seq<QueryHit> = Seq::empty();
        let mut i: usize = 0;
        reveal(Seq::filter);
        proof {
            assert(order.take(0) =~= Seq::<Seq<char>>::empty());
            lemma_no_names(self, order.take(0));
        }
        while i < self.streams.len()
            invariant
                self.wf(),
                visibility.shows(self.sequence@),
                region.entity_prefix is None,
                region.scope is None,
                region.fact == Some(KindFilter::Any),
                order == self.streams.order(),
                keep == |h: QueryHit| self.keeps(*region, h),
                past == |h: QueryHit| !started || h.global_sequence > after_seq,
                i <= order.len(),
                seen == super::stream::hits(self.name_rows(order.take(i as int))),
                same_front(buf@, seen.filter(keep).filter(past), limit),
            decreases order.len() - i,
        {
            let name = self.streams.name_at(i);
            let rows = self.streams.value_at(i).rows();
            let ghost before = seen;
            proof {
                assert(order.take(i + 1) =~= order.take(i as int).push(name@));
                lemma_names_push(self, order.take(i as int), name@);
            }
            let mut j: usize = 0;
            while j < rows.len()
                invariant
                    self.wf(),
                    visibility.shows(self.sequence@),
                    region.entity_prefix is None,
                    region.scope is None,
                    region.fact == Some(KindFilter::Any),
                    keep == |h: QueryHit| self.keeps(*region, h),
                    past == |h: QueryHit| !started || h.global_sequence > after_seq,
                    j <= rows@.len(),
                    seen == before + super::stream::hits(rows@.take(j as int)),
                    same_front(buf@, seen.filter(keep).filter(past), limit),
                decreases rows@.len() - j,
            {
                reveal(Seq::filter);
                let hit = QueryHit::from_entry(&rows[j]);
                let ghost prior = seen;
                proof {
                    assert(super::stream::hits(rows@.take(j + 1)) =~= super::stream::hits(
                        rows@.take(j as int),
                    ).push(hit));
                    seen = seen.push(hit);
                    assert(seen =~= before + super::stream::hits(rows@.take(j + 1)));
                    assert(seen.drop_last() =~= prior);
                    let a = prior.filter(keep);
                    assert(a.push(hit).drop_last() =~= a);
                }
                if (!started || hit.global_sequence > after_seq) && self.hit_passes(
                    region,
                    visibility,
                    &hit,
                ) {
                    proof {
                        crate::sort::lemma_front_after_push(
                            buf@,
                            prior.filter(keep).filter(past),
                            hit,
                            limit as int,
                        );
                    }
                    buf.push(hit);
                    if buf.len() >= trim_threshold {
                        trim(&mut buf, limit);
                    }
                }
                j += 1;
            }
            proof {
                assert(rows@.take(rows@.len() as int) =~= rows@);
            }
            i += 1;
        }
        proof {
            assert(order.take(order.len() as int) =~= order);
            lemma_filter_all(order, ok);
            assert(seen.filter(keep) == self.kept(*region));
        }
        trim(&mut buf, limit);
        buf
    }

    /// The newest event of an entity, where readers see it.
    pub fn get_latest(&self, entity: &str) -> (r: Option<IndexEntry>)
        requires
            self.wf(),
        ensures
            match r {
                Some(entry) => self.latest.entries().contains_key(entity@) && self.sequence@.sees(
                    self.latest.entries()[entity@].global_sequence,
                ) && entry.same(&self.latest.entries()[entity@]),
                None => self.latest.entries().contains_key(entity@) ==> !self.sequence@.sees(
                    self.latest.entries()[entity@].global_sequence,
                ),
            },
    {
        let visibility = self.sequence.snapshot();
        proof {
            visibility.lemma_shows(self.sequence@);
        }
        match self.latest.get(entity) {
            Some(entry) => if visibility.is_visible(entry.global_sequence) {
                Some((**entry).clone())
            } else {
                None
            },
            None => None,
        }
    }

    /// The visible events of an entity, in clock-key order.
    pub fn stream(&self, entity: &str) -> (r: Vec<IndexEntry>)
        requires
            self.wf(),
        ensures
            super::restore::shares(
                self.stream_rows(entity@).filter(
                    |x: Arc<IndexEntry>| self.sequence@.sees(x.global_sequence),
                ),
                r@,
            ),
    {
        let visibility = self.sequence.snapshot();
        let ghost state = self.sequence@;
        let ghost sees = |x: Arc<IndexEntry>| state.sees(x.global_sequence);
        proof {
            visibility.lemma_shows(state);
        }
        let mut out: Vec<IndexEntry> = Vec::new();
        reveal(Seq::filter);
        if let Some(stream) = self.streams.get(entity) {
            let rows = stream.rows();
            let mut i: usize = 0;
            while i < rows.len()
                invariant
                    forall|x: u64| #[trigger] visibility.sees(x) == state.sees(x),
                    sees == |x: Arc<IndexEntry>| state.sees(x.global_sequence),
                    i <= rows@.len(),
                    super::restore::shares(rows@.take(i as int).filter(sees), out@),
                decreases rows@.len() - i,
            {
                reveal(Seq::filter);
                let ghost before = out@;
                let ghost so_far = rows@.take(i as int).filter(sees);
                assert(rows@.take(i + 1).drop_last() =~= rows@.take(i as int));
                if visibility.is_visible(rows[i].global_sequence) {
                    out.push((*rows[i]).clone());
                    proof {
                        let now = so_far.push(rows@[i as int]);
                        assert forall|k: int| 0 <= k < now.len() implies (#[trigger] now[k]).same(
                            &out@[k],
                        ) by {
                            if k < so_far.len() {
                                assert(so_far[k].same(&before[k]));
                            }
                        }
                    }
                }
                i += 1;
            }
            assert(rows@.take(rows@.len() as int) =~= rows@);
        }
        out
    }

    /// The visible events of a region, by global sequence.
    pub fn query(&self, region: &Region) -> (r: Vec<IndexEntry>)
        requires
            self.wf(),
        ensures
            super::restore::shares(self.upgraded(self.region_hits(*region)), r@),
    {
        let (hits, visibility) = self.query_hits_with_snapshot(region);
        let ghost all = hits@;
        let ghost ok = |h: QueryHit| self.upgrades(h);
        let ghost up = |h: QueryHit| self.by_id.entries()[h.event_id];
        proof {
            visibility.lemma_shows(self.sequence@);
        }
        let mut out: Vec<IndexEntry> = Vec::new();
        let mut i: usize = 0;
        reveal(Seq::filter);
        while i < hits.len()
            invariant
                self.wf(),
                all == hits@,
                visibility.shows(self.sequence@),
                forall|x: u64| #[trigger] visibility.sees(x) == self.sequence@.sees(x),
                ok == |h: QueryHit| self.upgrades(h),
                up == |h: QueryHit| self.by_id.entries()[h.event_id],
                i <= all.len(),
                super::restore::shares(all.take(i as int).filter(ok).map_values(up), out@),
            decreases all.len() - i,
        {
            reveal(Seq::filter);
            let ghost before = out@;
            let ghost so_far = all.take(i as int).filter(ok).map_values(up);
            assert(all.take(i + 1).drop_last() =~= all.take(i as int));
            if let Some(entry) = self.upgrade_hit_with_visibility(hits[i], &visibility) {
                out.push(entry);
                proof {
                    let now = all.take(i + 1).filter(ok).map_values(up);
                    assert(now =~= so_far.push(up(all[i as int])));
                    assert forall|k: int| 0 <= k < now.len() implies (#[trigger] now[k]).same(
                        &out@[k],
                    ) by {
                        if k < so_far.len() {
                            assert(so_far[k].same(&before[k]));
                        }
                    }
                }
            } else {
                assert(all.take(i + 1).filter(ok).map_values(up) =~= so_far);
            }
            i += 1;
        }
        assert(all.take(all.len() as int) =~= all);
        out
    }
}

impl StoreIndex {
    /// A region admits an event, and readers of the region see it.
    pub open spec fn admits(&self, region: Region, x: Arc<IndexEntry>) -> bool {
        &&& region.entity_ok(x.coord.entity_spec())
        &&& region.scope_ok(x.coord.scope_spec())
        &&& region.kind_ok(x.kind)
        &&& region.clock_ok(x.clock)
        &&& self.region_sees(region, x.global_sequence, x.dag_lane)
    }

    /// Some held event has a hit.
    pub open spec fn backs(&self, hit: QueryHit, x: Arc<IndexEntry>) -> bool {
        self.holds(x) && x.hit() == hit
    }
}

/// On a coherent index exactly the entities that have an event have a chain head,
/// and what is answered for an entity is one of its own events, which readers see.
pub proof fn law_latest_is_an_own_event(
    index: &StoreIndex,
    entity: &str,
    r: Option<IndexEntry>,
)
    requires
        index.coherent(),
        call_ensures(StoreIndex::get_latest, (index, entity), r),
    ensures
        index.latest.entries().contains_key(entity@) <==> exists|x: Arc<IndexEntry>| #[trigger]
            index.holds(x) && x.coord.entity_spec() == entity@,
        r matches Some(entry) ==> exists|x: Arc<IndexEntry>| #[trigger]
            index.holds(x) && x.coord.entity_spec() == entity@ && index.sequence@.sees(
                x.global_sequence,
            ) && entry.same(&x),
        r is None ==> forall|x: Arc<IndexEntry>| #[trigger]
            index.holds(x) && x.coord.entity_spec() == entity@ ==> !index.sequence@.sees(
                index.latest.entries()[entity@].global_sequence,
            ),
{
    let head = index.latest.entries()[entity@];
    if index.latest.entries().contains_key(entity@) {
        assert(index.holds(head) && head.coord.entity_spec() == entity@);
    }
    assert forall|x: Arc<IndexEntry>| #[trigger]
        index.holds(x) && x.coord.entity_spec()
            == entity@ implies index.latest.entries().contains_key(entity@) by {
        assert(index.stream_rows(entity@).contains(x));
        assert(index.has_stream(entity@));
    }
}

/// A region query on a coherent index finds every event that the region admits
/// and readers see, nothing else, each of them once, and in sequence order;
/// whatever the topology.
pub proof fn law_region_hits_are_exact(index: &StoreIndex, region: Region)
    requires
        index.coherent(),
    ensures
        crate::sort::ranked(index.region_hits(region)),
        index.region_hits(region).no_duplicates(),
        forall|x: Arc<IndexEntry>|
            index.holds(x) && #[trigger] index.admits(region, x) ==> index.region_hits(
                region,
            ).contains(x.hit()),
        forall|h: QueryHit| #[trigger]
            index.region_hits(region).contains(h) ==> exists|x: Arc<IndexEntry>| #[trigger]
                index.backs(h, x) && index.admits(region, x),
{
    let c = index.candidates(region);
    let keep = |h: QueryHit| index.keeps(region, h);
    let k = index.kept(region);
    let r = index.region_hits(region);
    crate::sort::law_stable_sort_exists(k);
    lemma_candidates_unique(index, region);
    lemma_filter_unique(c, keep);
    lemma_filter_contains(c, keep);
    lemma_same_contents(r, k);
    assert forall|x: Arc<IndexEntry>|
        index.holds(x) && #[trigger] index.admits(region, x) implies r.contains(x.hit()) by {
        lemma_candidate_of(index, region, x);
        assert(index.keeps(region, x.hit()));
        assert(k.contains(x.hit()));
    }
    assert forall|h: QueryHit| #[trigger] r.contains(h) implies exists|x: Arc<IndexEntry>|
        #[trigger]
        index.backs(h, x) && index.admits(region, x) by {
        assert(k.contains(h));
        assert(c.contains(h) && keep(h));
        lemma_candidate_backed(index, region, h);
        let x = choose|x: Arc<IndexEntry>| #[trigger]
            index.backs(h, x) && region_axis(region, x);
        assert(index.by_id.entries()[h.event_id] == x);
        assert(index.backs(h, x) && index.admits(region, x));
    }
}

/// A query on a coherent index returns exactly the held events that the region
/// admits and readers see.
pub proof fn law_query_is_exact(index: &StoreIndex, region: Region)
    requires
        index.coherent(),
    ensures
        index.upgraded(index.region_hits(region)).no_duplicates(),
        forall|x: Arc<IndexEntry>| #[trigger]
            index.upgraded(index.region_hits(region)).contains(x) <==> index.holds(x)
                && index.admits(region, x) && index.sequence@.sees(x.global_sequence),
{
    law_region_hits_are_exact(index, region);
    let r = index.region_hits(region);
    let ok = |h: QueryHit| index.upgrades(h);
    let up = |h: QueryHit| index.by_id.entries()[h.event_id];
    let f = r.filter(ok);
    let u = index.upgraded(r);
    lemma_filter_unique(r, ok);
    lemma_filter_contains(r, ok);
    assert forall|h: QueryHit| f.contains(h) implies #[trigger] index.holds(up(h)) && up(h).hit()
        == h && index.admits(region, up(h)) by {
        assert(r.contains(h));
        let x = choose|x: Arc<IndexEntry>| #[trigger]
            index.backs(h, x) && index.admits(region, x);
        assert(x.event_id == h.event_id);
    }
    assert forall|i: int, j: int| 0 <= i < u.len() && 0 <= j < u.len() && i != j implies u[i]
        != u[j] by {
        assert(f.contains(f[i]) && f.contains(f[j]));
        assert(index.holds(up(f[i])) && index.holds(up(f[j])));
        assert(u[i] == up(f[i]) && u[j] == up(f[j]));
        assert(f[i] != f[j]);
    }
    assert forall|x: Arc<IndexEntry>| #[trigger]
        u.contains(x) <==> index.holds(x) && index.admits(region, x) && index.sequence@.sees(
            x.global_sequence,
        ) by {
        if u.contains(x) {
            let i = u.index_of(x);
            assert(f.contains(f[i]));
            assert(index.holds(up(f[i])));
            assert(u[i] == up(f[i]));
            assert(ok(f[i]));
        }
        if index.holds(x) && index.admits(region, x) && index.sequence@.sees(x.global_sequence) {
            assert(r.contains(x.hit()));
            assert(ok(x.hit()));
            assert(f.contains(x.hit()));
            let i = f.index_of(x.hit());
            assert(f[i] == x.hit());
            assert(u[i] == x);
        }
    }
}

/// Reading on from a position never skips or repeats a hit: the first `limit`
/// hits past it are the front of what a full query has past it.
pub proof fn law_page_is_front(
    index: &StoreIndex,
    region: Region,
    after_seq: u64,
    started: bool,
    limit: usize,
)
    requires
        index.coherent(),
    ensures
        ({
            let page = super::columnar::bounded_after(
                index.kept(region),
                after_seq,
                started,
                limit,
            );
            &&& page.len() <= limit
            &&& crate::sort::ranked(page)
            &&& page.no_duplicates()
            &&& forall|h: QueryHit| #[trigger]
                page.contains(h) ==> index.region_hits(region).contains(h) && (!started
                    || h.global_sequence > after_seq)
            &&& forall|h: QueryHit|
                index.region_hits(region).contains(h) && (!started || h.global_sequence
                    > after_seq) && !(#[trigger] page.contains(h)) ==> page.len() == limit
                    && forall|p: int| 0 <= p < page.len() ==> (
                #[trigger] page[p]).global_sequence <= h.global_sequence
        }),
{
    let k = index.kept(region);
    let past = |h: QueryHit| !started || h.global_sequence > after_seq;
    let f = super::columnar::hits_past(k, after_seq, started);
    let t = super::columnar::sorted_hits(f);
    let page = super::columnar::bounded_after(k, after_seq, started, limit);
    let r = index.region_hits(region);
    law_region_hits_are_exact(index, region);
    crate::sort::law_stable_sort_exists(k);
    crate::sort::law_stable_sort_exists(f);
    lemma_candidates_unique(index, region);
    lemma_filter_unique(index.candidates(region), |h: QueryHit| index.keeps(region, h));
    lemma_filter_unique(k, past);
    lemma_filter_contains(k, past);
    lemma_same_contents(r, k);
    lemma_same_contents(t, f);
    assert(forall|p: int| 0 <= p < page.len() ==> #[trigger] page[p] == t[p]);
    assert(page.no_duplicates());
    assert(crate::sort::ranked(page)) by {
        assert forall|p: int, q: int|
            0 <= p <= q < page.len() implies <QueryHit as crate::sort::Ranked>::rank_le(
            #[trigger] page[p],
            #[trigger] page[q],
        ) by {
            assert(page[p] == t[p] && page[q] == t[q]);
        }
    }
    assert forall|h: QueryHit| #[trigger] page.contains(h) implies r.contains(h) && past(h) by {
        let p = page.index_of(h);
        assert(t[p] == h);
        assert(t.contains(h));
        assert(f.contains(h));
        assert(k.contains(h));
    }
    assert forall|h: QueryHit| r.contains(h) && past(h) && !(#[trigger] page.contains(
        h,
    )) implies page.len() == limit && forall|p: int|
        0 <= p < page.len() ==> (#[trigger] page[p]).global_sequence <= h.global_sequence by {
        assert(k.contains(h));
        assert(f.contains(h));
        assert(t.contains(h));
        let q = t.index_of(h);
        assert(t[q] == h);
        if q < page.len() {
            assert(page[q] == h);
        }
        assert forall|p: int| 0 <= p < page.len() implies (#[trigger] page[p]).global_sequence
            <= h.global_sequence by {
            assert(<QueryHit as crate::sort::Ranked>::rank_le(t[p], t[q]));
        }
    }
}

/// What a region asks of an event, spelled out.
proof fn lemma_admission(index: &StoreIndex, region: &Region, x: Arc<IndexEntry>)
    ensures
        index.admits(*region, x) <==> ((region.entity_prefix matches Some(prefix) ==> {
                    let wanted = vstd::utf8::encode_utf8(prefix@);
                    let given = vstd::utf8::encode_utf8(x.coord.entity_spec());
                    wanted.len() <= given.len() && given.take(wanted.len() as int) == wanted
                }) && (region.scope matches Some(scope) ==> x.coord.scope_spec() == scope@) && (
                region.fact matches Some(KindFilter::Exact(kind)) ==> x.kind.raw()
                    == kind.raw()) && (region.fact matches Some(KindFilter::Category(category))
                    ==> x.kind.raw() / 4096 == category) && (
                region.clock_range matches Some(range) ==> range.0 <= x.clock && x.clock
                    <= range.1) && (region.lane matches Some(lane) ==> x.dag_lane == lane
                    && index.sequence@.lanes.contains_key(lane) && x.global_sequence
                    < index.sequence@.lanes[lane] && (forall|k: int|
                    #![trigger index.sequence@.lane_cancelled[lane][k]]
                    index.sequence@.lane_cancelled.contains_key(lane) && 0 <= k
                        < index.sequence@.lane_cancelled[lane].len() ==> !(
                    index.sequence@.lane_cancelled[lane][k].0 <= x.global_sequence
                        && x.global_sequence < index.sequence@.lane_cancelled[lane][k].1))) && (forall|k: int|
                    #![trigger index.sequence@.cancelled[k]]
                    0 <= k < index.sequence@.cancelled.len() ==> !(index.sequence@.cancelled[k].0
                        <= x.global_sequence && x.global_sequence
                        < index.sequence@.cancelled[k].1)) && (region.lane is None
                    ==> x.global_sequence < index.sequence@.visible)),
{
    let sequence = x.global_sequence;
    if let Some(prefix) = region.entity_prefix {
        let wanted = vstd::utf8::encode_utf8(prefix@);
        let given = vstd::utf8::encode_utf8(x.coord.entity_spec());
        if wanted.len() <= given.len() {
            assert(given.take(wanted.len() as int) =~= given.subrange(0, wanted.len() as int));
        }
    }
    if let Some(KindFilter::Exact(kind)) = region.fact {
        crate::event::law_kind_is_category_and_type(x.kind, kind);
    }
    crate::event::law_kind_is_category_and_type(x.kind, x.kind);
    if let Some(lane) = region.lane {
        let ranges = super::visibility::lane_ranges_of(index.sequence@.lane_cancelled, lane);
        if index.sequence@.lane_cancelled.contains_key(lane) {
            assert(super::visibility::covered(ranges, sequence) <==> exists|k: int|
                0 <= k < index.sequence@.lane_cancelled[lane].len() && (
                #[trigger] index.sequence@.lane_cancelled[lane][k]).0 <= sequence
                    < index.sequence@.lane_cancelled[lane][k].1);
        } else {
            assert(!super::visibility::covered(ranges, sequence));
        }
    }
}

/// A query answers with exactly the held events that its region asks for and readers
/// see, each of them whole and once, in order of their global sequence. Every filter
/// of the region counts: an entity starts with the prefix, the scope is the scope,
/// the kind is the kind or of the category, the clock lies between the bounds, both
/// of them included, and the lane is the lane, up to its own bound.
pub proof fn law_query_answers_the_region(
    index: &StoreIndex,
    region: &Region,
    r: Vec<IndexEntry>,
)
    requires
        index.coherent(),
        call_ensures(StoreIndex::query, (index, region), r),
    ensures
        forall|i: int, j: int|
            #![trigger r@[i], r@[j]]
            0 <= i < j < r@.len() ==> r@[i].global_sequence <= r@[j].global_sequence
                && r@[i].event_id != r@[j].event_id,
        forall|i: int|
            #![trigger r@[i]]
            0 <= i < r@.len() ==> index.by_id.entries().contains_key(r@[i].event_id) && r@[i].same(
                &index.by_id.entries()[r@[i].event_id],
            ),
        forall|id: u128| #[trigger]
            index.by_id.entries().contains_key(id) ==> {
                let x = index.by_id.entries()[id];
                (exists|i: int| 0 <= i < r@.len() && (#[trigger] r@[i]).event_id == id) <==> ((region.entity_prefix matches Some(prefix) ==> {
                    let wanted = vstd::utf8::encode_utf8(prefix@);
                    let given = vstd::utf8::encode_utf8(x.coord.entity_spec());
                    wanted.len() <= given.len() && given.take(wanted.len() as int) == wanted
                }) && (region.scope matches Some(scope) ==> x.coord.scope_spec() == scope@) && (
                region.fact matches Some(KindFilter::Exact(kind)) ==> x.kind.raw()
                    == kind.raw()) && (region.fact matches Some(KindFilter::Category(category))
                    ==> x.kind.raw() / 4096 == category) && (
                region.clock_range matches Some(range) ==> range.0 <= x.clock && x.clock
                    <= range.1) && (region.lane matches Some(lane) ==> x.dag_lane == lane
                    && index.sequence@.lanes.contains_key(lane) && x.global_sequence
                    < index.sequence@.lanes[lane] && (forall|k: int|
                    #![trigger index.sequence@.lane_cancelled[lane][k]]
                    index.sequence@.lane_cancelled.contains_key(lane) && 0 <= k
                        < index.sequence@.lane_cancelled[lane].len() ==> !(
                    index.sequence@.lane_cancelled[lane][k].0 <= x.global_sequence
                        && x.global_sequence < index.sequence@.lane_cancelled[lane][k].1)))
                    && (forall|k: int|
                    #![trigger index.sequence@.cancelled[k]]
                    0 <= k < index.sequence@.cancelled.len() ==> !(index.sequence@.cancelled[k].0
                        <= x.global_sequence && x.global_sequence
                        < index.sequence@.cancelled[k].1)) && x.global_sequence < index.sequence@.visible)
            },
{
    law_query_is_exact(index, *region);
    law_region_hits_are_exact(index, *region);
    let hits = index.region_hits(*region);
    let u = index.upgraded(hits);
    let ok = |h: QueryHit| index.upgrades(h);
    let f = hits.filter(ok);
    lemma_filter_ranked(hits, ok);
    lemma_filter_contains(hits, ok);
    assert forall|i: int| 0 <= i < u.len() implies (#[trigger] u[i]).global_sequence
        == f[i].global_sequence && index.holds(u[i]) by {
        assert(u.contains(u[i]));
        assert(f.contains(f[i]));
        assert(hits.contains(f[i]));
        let x = choose|x: Arc<IndexEntry>| #[trigger]
            index.backs(f[i], x) && index.admits(*region, x);
        assert(index.by_id.entries()[f[i].event_id] == x);
    }
    assert forall|i: int, j: int|
        #![trigger r@[i], r@[j]]
        0 <= i < j < r@.len() implies r@[i].global_sequence <= r@[j].global_sequence
        && r@[i].event_id != r@[j].event_id by {
        assert(u[i].same(&r@[i]) && u[j].same(&r@[j]));
        assert(<QueryHit as crate::sort::Ranked>::rank_le(f[i], f[j]));
        assert(u[i] != u[j]);
    }
    assert forall|i: int|
        #![trigger r@[i]]
        0 <= i < r@.len() implies index.by_id.entries().contains_key(r@[i].event_id) && r@[i].same(
        &index.by_id.entries()[r@[i].event_id],
    ) by {
        assert(u[i].same(&r@[i]));
    }
    assert forall|id: u128| #[trigger] index.by_id.entries().contains_key(id) implies {
        let x = index.by_id.entries()[id];
        (exists|i: int| 0 <= i < r@.len() && (#[trigger] r@[i]).event_id == id) <==> ((region.entity_prefix matches Some(prefix) ==> {
                    let wanted = vstd::utf8::encode_utf8(prefix@);
                    let given = vstd::utf8::encode_utf8(x.coord.entity_spec());
                    wanted.len() <= given.len() && given.take(wanted.len() as int) == wanted
                }) && (region.scope matches Some(scope) ==> x.coord.scope_spec() == scope@) && (
                region.fact matches Some(KindFilter::Exact(kind)) ==> x.kind.raw()
                    == kind.raw()) && (region.fact matches Some(KindFilter::Category(category))
                    ==> x.kind.raw() / 4096 == category) && (
                region.clock_range matches Some(range) ==> range.0 <= x.clock && x.clock
                    <= range.1) && (region.lane matches Some(lane) ==> x.dag_lane == lane
                    && index.sequence@.lanes.contains_key(lane) && x.global_sequence
                    < index.sequence@.lanes[lane] && (forall|k: int|
                    #![trigger index.sequence@.lane_cancelled[lane][k]]
                    index.sequence@.lane_cancelled.contains_key(lane) && 0 <= k
                        < index.sequence@.lane_cancelled[lane].len() ==> !(
                    index.sequence@.lane_cancelled[lane][k].0 <= x.global_sequence
                        && x.global_sequence < index.sequence@.lane_cancelled[lane][k].1)))
            && (forall|k: int|
                    #![trigger index.sequence@.cancelled[k]]
                    0 <= k < index.sequence@.cancelled.len() ==> !(index.sequence@.cancelled[k].0
                        <= x.global_sequence && x.global_sequence
                        < index.sequence@.cancelled[k].1)) && x.global_sequence < index.sequence@.visible)
    } by {
        let x = index.by_id.entries()[id];
        assert(index.holds(x));
        lemma_admission(index, region, x);
        if u.contains(x) {
            let i = u.index_of(x);
            assert(u[i].same(&r@[i]));
            assert(r@[i].event_id == id);
        }
        if exists|i: int| 0 <= i < r@.len() && (#[trigger] r@[i]).event_id == id {
            let i = choose|i: int| 0 <= i < r@.len() && (#[trigger] r@[i]).event_id == id;
            assert(u[i].same(&r@[i]));
            assert(u.contains(u[i]));
        }
    }
}

/// Dropping hits keeps the rest in order.
proof fn lemma_filter_ranked(s: Seq<QueryHit>, keep: spec_fn(QueryHit) -> bool)
    requires
        crate::sort::ranked(s),
    ensures
        crate::sort::ranked(s.filter(keep)),
    decreases s.len(),
{
    reveal(Seq::filter);
    if s.len() > 0 {
        let front = s.drop_last();
        assert(crate::sort::ranked(front)) by {
            assert forall|p: int, q: int|
                0 <= p <= q < front.len() implies <QueryHit as crate::sort::Ranked>::rank_le(
                #[trigger] front[p],
                #[trigger] front[q],
            ) by {
                assert(<QueryHit as crate::sort::Ranked>::rank_le(s[p], s[q]));
            }
        }
        lemma_filter_ranked(front, keep);
        lemma_filter_contains(front, keep);
        let kept = front.filter(keep);
        if keep(s.last()) {
            let more = kept.push(s.last());
            assert forall|p: int, q: int|
                0 <= p <= q < more.len() implies <QueryHit as crate::sort::Ranked>::rank_le(
                #[trigger] more[p],
                #[trigger] more[q],
            ) by {
                if q < kept.len() {
                    assert(<QueryHit as crate::sort::Ranked>::rank_le(kept[p], kept[q]));
                } else if p < kept.len() {
                    assert(kept.contains(kept[p]));
                    let k = front.index_of(kept[p]);
                    assert(<QueryHit as crate::sort::Ranked>::rank_le(s[k], s[s.len() - 1]));
                }
            }
        }
    }
}

/// A page holds the first hits of a region past a position: no more than the limit,
/// in order of their global sequence, each of them once and with the fields of its
/// event. A held event that the region asks for and readers see, and that lies past
/// the position, is left out only where the page is full of hits that are no later.
pub proof fn law_page_answers_the_region(
    index: &StoreIndex,
    region: &Region,
    after_seq: u64,
    started: bool,
    limit: usize,
    r: Vec<QueryHit>,
)
    requires
        index.coherent(),
        call_ensures(StoreIndex::query_hits_after, (index, region, after_seq, started, limit), r),
    ensures
        r@.len() <= limit,
        forall|i: int, j: int|
            #![trigger r@[i], r@[j]]
            0 <= i < j < r@.len() ==> r@[i].global_sequence <= r@[j].global_sequence
                && r@[i].event_id != r@[j].event_id,
        forall|i: int|
            #![trigger r@[i]]
            0 <= i < r@.len() ==> (started ==> r@[i].global_sequence > after_seq)
                && index.by_id.entries().contains_key(r@[i].event_id) && ({
                let x = index.by_id.entries()[r@[i].event_id];
                &&& x.global_sequence == r@[i].global_sequence
                &&& x.disk_pos == r@[i].disk_pos
                &&& x.kind == r@[i].kind
                &&& x.clock == r@[i].clock
                &&& x.dag_lane == r@[i].dag_lane
            }),
        forall|id: u128| #[trigger]
            index.by_id.entries().contains_key(id) ==> {
                let x = index.by_id.entries()[id];
                let asked = (region.entity_prefix matches Some(prefix) ==> {
                    let wanted = vstd::utf8::encode_utf8(prefix@);
                    let given = vstd::utf8::encode_utf8(x.coord.entity_spec());
                    wanted.len() <= given.len() && given.take(wanted.len() as int) == wanted
                }) && (region.scope matches Some(scope) ==> x.coord.scope_spec() == scope@) && (
                region.fact matches Some(KindFilter::Exact(kind)) ==> x.kind.raw()
                    == kind.raw()) && (region.fact matches Some(KindFilter::Category(category))
                    ==> x.kind.raw() / 4096 == category) && (
                region.clock_range matches Some(range) ==> range.0 <= x.clock && x.clock
                    <= range.1) && (region.lane matches Some(lane) ==> x.dag_lane == lane
                    && index.sequence@.lanes.contains_key(lane) && x.global_sequence
                    < index.sequence@.lanes[lane] && (forall|k: int|
                    #![trigger index.sequence@.lane_cancelled[lane][k]]
                    index.sequence@.lane_cancelled.contains_key(lane) && 0 <= k
                        < index.sequence@.lane_cancelled[lane].len() ==> !(
                    index.sequence@.lane_cancelled[lane][k].0 <= x.global_sequence
                        && x.global_sequence < index.sequence@.lane_cancelled[lane][k].1))) && (forall|k: int|
                    #![trigger index.sequence@.cancelled[k]]
                    0 <= k < index.sequence@.cancelled.len() ==> !(index.sequence@.cancelled[k].0
                        <= x.global_sequence && x.global_sequence
                        < index.sequence@.cancelled[k].1)) && (region.lane is None ==> x.global_sequence
                    < index.sequence@.visible) && (started ==> x.global_sequence > after_seq);
                let found = exists|i: int| 0 <= i < r@.len() && (#[trigger] r@[i]).event_id == id;
                &&& found ==> asked
                &&& asked && !found ==> r@.len() == limit && forall|i: int|
                    #![trigger r@[i]]
                    0 <= i < r@.len() ==> r@[i].global_sequence <= x.global_sequence
            },
{
    law_page_is_front(index, *region, after_seq, started, limit);
    law_region_hits_are_exact(index, *region);
    let page = r@;
    let hits = index.region_hits(*region);
    assert forall|i: int| 0 <= i < page.len() implies exists|x: Arc<IndexEntry>| #[trigger]
        index.backs(#[trigger] page[i], x) && index.admits(*region, x) by {
        assert(page.contains(page[i]));
    }
    assert forall|i: int, j: int|
        #![trigger page[i], page[j]]
        0 <= i < j < page.len() implies page[i].global_sequence <= page[j].global_sequence
        && page[i].event_id != page[j].event_id by {
        assert(<QueryHit as crate::sort::Ranked>::rank_le(page[i], page[j]));
        let x = choose|x: Arc<IndexEntry>| #[trigger]
            index.backs(page[i], x) && index.admits(*region, x);
        let y = choose|y: Arc<IndexEntry>| #[trigger]
            index.backs(page[j], y) && index.admits(*region, y);
        assert(page[i] != page[j]);
    }
    assert forall|i: int|
        #![trigger page[i]]
        0 <= i < page.len() implies (started ==> page[i].global_sequence > after_seq)
        && index.by_id.entries().contains_key(page[i].event_id) && ({
        let x = index.by_id.entries()[page[i].event_id];
        &&& x.global_sequence == page[i].global_sequence
        &&& x.disk_pos == page[i].disk_pos
        &&& x.kind == page[i].kind
        &&& x.clock == page[i].clock
        &&& x.dag_lane == page[i].dag_lane
    }) by {
        assert(page.contains(page[i]));
        let x = choose|x: Arc<IndexEntry>| #[trigger]
            index.backs(page[i], x) && index.admits(*region, x);
    }
    assert forall|id: u128| #[trigger] index.by_id.entries().contains_key(id) implies {
        let x = index.by_id.entries()[id];
        let asked = (region.entity_prefix matches Some(prefix) ==> {
                    let wanted = vstd::utf8::encode_utf8(prefix@);
                    let given = vstd::utf8::encode_utf8(x.coord.entity_spec());
                    wanted.len() <= given.len() && given.take(wanted.len() as int) == wanted
                }) && (region.scope matches Some(scope) ==> x.coord.scope_spec() == scope@) && (
                region.fact matches Some(KindFilter::Exact(kind)) ==> x.kind.raw()
                    == kind.raw()) && (region.fact matches Some(KindFilter::Category(category))
                    ==> x.kind.raw() / 4096 == category) && (
                region.clock_range matches Some(range) ==> range.0 <= x.clock && x.clock
                    <= range.1) && (region.lane matches Some(lane) ==> x.dag_lane == lane
                    && index.sequence@.lanes.contains_key(lane) && x.global_sequence
                    < index.sequence@.lanes[lane] && (forall|k: int|
                    #![trigger index.sequence@.lane_cancelled[lane][k]]
                    index.sequence@.lane_cancelled.contains_key(lane) && 0 <= k
                        < index.sequence@.lane_cancelled[lane].len() ==> !(
                    index.sequence@.lane_cancelled[lane][k].0 <= x.global_sequence
                        && x.global_sequence < index.sequence@.lane_cancelled[lane][k].1))) && (forall|k: int|
                    #![trigger index.sequence@.cancelled[k]]
                    0 <= k < index.sequence@.cancelled.len() ==> !(index.sequence@.cancelled[k].0
                        <= x.global_sequence && x.global_sequence
                        < index.sequence@.cancelled[k].1)) && (region.lane is None ==> x.global_sequence
            < index.sequence@.visible) && (started ==> x.global_sequence > after_seq);
        let found = exists|i: int| 0 <= i < page.len() && (#[trigger] page[i]).event_id == id;
        &&& found ==> asked
        &&& asked && !found ==> page.len() == limit && forall|i: int|
            #![trigger page[i]]
            0 <= i < page.len() ==> page[i].global_sequence <= x.global_sequence
    } by {
        let x = index.by_id.entries()[id];
        assert(index.holds(x));
        lemma_admission(index, region, x);
        if exists|i: int| 0 <= i < page.len() && (#[trigger] page[i]).event_id == id {
            let i = choose|i: int| 0 <= i < page.len() && (#[trigger] page[i]).event_id == id;
            assert(page.contains(page[i]));
            let y = choose|y: Arc<IndexEntry>| #[trigger]
                index.backs(page[i], y) && index.admits(*region, y);
            assert(y == x);
        } else if index.admits(*region, x) {
            assert(hits.contains(x.hit()));
            if page.contains(x.hit()) {
                let i = page.index_of(x.hit());
                assert(page[i].event_id == id);
            }
        }
    }
}

/// A query by an entity prefix and a range of clocks answers with a held and visible
/// event exactly where its entity starts with the prefix and its clock is no less
/// than the one bound and no greater than the other.
pub proof fn law_query_by_entity_and_clock(
    index: &StoreIndex,
    prefix: &str,
    min: u32,
    max: u32,
    of_entity: Region,
    region: Region,
    r: Vec<IndexEntry>,
    id: u128,
)
    requires
        index.coherent(),
        call_ensures(Region::entity, (prefix,), of_entity),
        call_ensures(Region::with_clock_range, (of_entity, min, max), region),
        call_ensures(StoreIndex::query, (index, &region), r),
        index.by_id.entries().contains_key(id),
        index.by_id.entries()[id].global_sequence < index.sequence@.visible,
        forall|k: int|
            #![trigger index.sequence@.cancelled[k]]
            0 <= k < index.sequence@.cancelled.len() ==> !(index.sequence@.cancelled[k].0
                <= index.by_id.entries()[id].global_sequence
                && index.by_id.entries()[id].global_sequence < index.sequence@.cancelled[k].1),
    ensures
        (exists|i: int| 0 <= i < r@.len() && (#[trigger] r@[i]).event_id == id) <==> {
            let wanted = vstd::utf8::encode_utf8(prefix@);
            let given = vstd::utf8::encode_utf8(index.by_id.entries()[id].coord.entity_spec());
            &&& wanted.len() <= given.len()
            &&& given.take(wanted.len() as int) == wanted
            &&& min <= index.by_id.entries()[id].clock
            &&& index.by_id.entries()[id].clock <= max
        },
{
    law_query_answers_the_region(index, &region, r);
}

/// A query by a scope, a kind, a category or a lane answers with a held event that
/// every reader sees exactly where the event is of that scope, of that kind, of that
/// category, or of that lane and below the lane's own bound.
pub proof fn law_query_by_one_filter(
    index: &StoreIndex,
    scope: &str,
    kind: crate::event::EventKind,
    category: u8,
    lane: u32,
    all: Region,
    regions: (Region, Region, Region, Region),
    answers: (Vec<IndexEntry>, Vec<IndexEntry>, Vec<IndexEntry>, Vec<IndexEntry>),
    id: u128,
)
    requires
        index.coherent(),
        call_ensures(Region::all, (), all),
        call_ensures(Region::scope, (scope,), regions.0),
        call_ensures(Region::with_fact, (all, KindFilter::Exact(kind)), regions.1),
        call_ensures(Region::with_fact, (all, KindFilter::Category(category)), regions.2),
        call_ensures(Region::with_lane, (all, lane), regions.3),
        call_ensures(StoreIndex::query, (index, &regions.0), answers.0),
        call_ensures(StoreIndex::query, (index, &regions.1), answers.1),
        call_ensures(StoreIndex::query, (index, &regions.2), answers.2),
        call_ensures(StoreIndex::query, (index, &regions.3), answers.3),
        index.by_id.entries().contains_key(id),
        index.by_id.entries()[id].global_sequence < index.sequence@.visible,
        index.sequence@.cancelled.len() == 0,
        !index.sequence@.lane_cancelled.contains_key(lane),
    ensures
        (exists|i: int| 0 <= i < answers.0@.len() && (#[trigger] answers.0@[i]).event_id == id)
            <==> index.by_id.entries()[id].coord.scope_spec() == scope@,
        (exists|i: int| 0 <= i < answers.1@.len() && (#[trigger] answers.1@[i]).event_id == id)
            <==> index.by_id.entries()[id].kind.raw() == kind.raw(),
        (exists|i: int| 0 <= i < answers.2@.len() && (#[trigger] answers.2@[i]).event_id == id)
            <==> index.by_id.entries()[id].kind.raw() / 4096 == category,
        (exists|i: int| 0 <= i < answers.3@.len() && (#[trigger] answers.3@[i]).event_id == id)
            <==> index.by_id.entries()[id].dag_lane == lane && index.sequence@.lanes.contains_key(
            lane,
        ) && index.by_id.entries()[id].global_sequence < index.sequence@.lanes[lane],
{
    law_query_answers_the_region(index, &regions.0, answers.0);
    law_query_answers_the_region(index, &regions.1, answers.1);
    law_query_answers_the_region(index, &regions.2, answers.2);
    law_query_answers_the_region(index, &regions.3, answers.3);
}

/// The condition that a region query picks its candidates by.
spec fn region_axis(region: Region, x: Arc<IndexEntry>) -> bool {
    if region.entity_prefix is Some {
        region.entity_ok(x.coord.entity_spec())
    } else {
        true
    }
}

proof fn lemma_same_contents(a: Seq<QueryHit>, b: Seq<QueryHit>)
    requires
        a.to_multiset() == b.to_multiset(),
    ensures
        forall|h: QueryHit| #[trigger] a.contains(h) <==> b.contains(h),
        forall|h: QueryHit| a.contains(h) <==> #[trigger] b.contains(h),
        a.no_duplicates() <==> b.no_duplicates(),
        a.len() == b.len(),
{
    a.to_multiset_ensures();
    b.to_multiset_ensures();
    assert forall|h: QueryHit| a.contains(h) <==> b.contains(h) by {
        assert(a.to_multiset().count(h) > 0 <==> a.contains(h));
        assert(b.to_multiset().count(h) > 0 <==> b.contains(h));
    }
    if a.no_duplicates() {
        a.lemma_multiset_has_no_duplicates();
        b.lemma_multiset_has_no_duplicates_conv();
    }
    if b.no_duplicates() {
        b.lemma_multiset_has_no_duplicates();
        a.lemma_multiset_has_no_duplicates_conv();
    }
}

pub proof fn lemma_filter_contains<A>(s: Seq<A>, f: spec_fn(A) -> bool)
    ensures
        forall|x: A| #[trigger] s.filter(f).contains(x) <==> s.contains(x) && f(x),
    decreases s.len(),
{
    reveal(Seq::filter);
    if s.len() > 0 {
        let head = s.drop_last();
        lemma_filter_contains(head, f);
        assert forall|x: A| #[trigger] s.filter(f).contains(x) <==> s.contains(x) && f(x) by {
            let a = head.filter(f);
            let b = s.filter(f);
            assert(a.contains(x) <==> head.contains(x) && f(x));
            assert(head.push(s.last()) =~= s);
            lemma_push_contains(head, s.last(), x);
            lemma_push_contains(a, s.last(), x);
        }
    }
}

proof fn lemma_push_contains<A>(s: Seq<A>, a: A, x: A)
    ensures
        s.push(a).contains(x) <==> s.contains(x) || x == a,
{
    if s.contains(x) {
        let i = s.index_of(x);
        assert(s.push(a)[i] == x);
    }
    if s.push(a).contains(x) && x != a {
        let i = s.push(a).index_of(x);
        assert(s[i] == x);
    }
    assert(s.push(a)[s.len() as int] == a);
}

pub proof fn lemma_filter_unique<A>(s: Seq<A>, f: spec_fn(A) -> bool)
    requires
        s.no_duplicates(),
    ensures
        s.filter(f).no_duplicates(),
    decreases s.len(),
{
    reveal(Seq::filter);
    if s.len() > 0 {
        let head = s.drop_last();
        lemma_filter_unique(head, f);
        lemma_filter_contains(head, f);
        let a = head.filter(f);
        if f(s.last()) {
            assert(!head.contains(s.last())) by {
                if head.contains(s.last()) {
                    let i = head.index_of(s.last());
                    assert(s[i] == s[s.len() - 1]);
                }
            }
            assert(!a.contains(s.last()));
            assert forall|i: int, j: int| 0 <= i < a.len() + 1 && 0 <= j < a.len() + 1 && i
                != j implies a.push(s.last())[i] != a.push(s.last())[j] by {
                if i < a.len() {
                    assert(a.contains(a[i]));
                }
                if j < a.len() {
                    assert(a.contains(a[j]));
                }
            }
        }
    }
}

/// Distinct held rows have distinct hits.
proof fn lemma_held_hits(index: &StoreIndex, rows: Seq<Arc<IndexEntry>>)
    requires
        rows.no_duplicates(),
        forall|x: Arc<IndexEntry>| #[trigger] rows.contains(x) ==> index.holds(x),
    ensures
        super::stream::hits(rows).no_duplicates(),
        forall|x: Arc<IndexEntry>| #[trigger]
            rows.contains(x) ==> super::stream::hits(rows).contains(x.hit()),
        forall|h: QueryHit| #[trigger]
            super::stream::hits(rows).contains(h) ==> exists|x: Arc<IndexEntry>| #[trigger]
                index.backs(h, x) && rows.contains(x),
{
    let hs = super::stream::hits(rows);
    assert forall|i: int, j: int| 0 <= i < hs.len() && 0 <= j < hs.len() && i != j implies hs[i]
        != hs[j] by {
        assert(rows.contains(rows[i]) && rows.contains(rows[j]));
        assert(index.holds(rows[i]) && index.holds(rows[j]));
        assert(rows[i] != rows[j]);
    }
    assert forall|x: Arc<IndexEntry>| #[trigger] rows.contains(x) implies hs.contains(
        x.hit(),
    ) by {
        let i = rows.index_of(x);
        assert(hs[i] == x.hit());
    }
    assert forall|h: QueryHit| #[trigger] hs.contains(h) implies exists|x: Arc<IndexEntry>|
        #[trigger]
        index.backs(h, x) && rows.contains(x) by {
        let i = hs.index_of(h);
        assert(rows.contains(rows[i]));
        assert(index.backs(h, rows[i]));
    }
}

/// The streams of distinct entities hold every event of those entities once.
proof fn lemma_name_rows(index: &StoreIndex, names: Seq<Seq<char>>)
    requires
        index.coherent(),
        names.no_duplicates(),
    ensures
        index.name_rows(names).no_duplicates(),
        forall|x: Arc<IndexEntry>| #[trigger]
            index.name_rows(names).contains(x) <==> index.holds(x) && names.contains(
                x.coord.entity_spec(),
            ),
    decreases names.len(),
{
    if names.len() > 0 {
        let head = names.drop_last();
        let last = names.last();
        assert(head.push(last) =~= names);
        lemma_name_rows(index, head);
        lemma_names_push(index, head, last);
        let a = index.name_rows(head);
        let b = index.stream_rows(last);
        assert(!head.contains(last)) by {
            if head.contains(last) {
                let i = head.index_of(last);
                assert(names[i] == names[names.len() - 1]);
            }
        }
        assert forall|i: int, j: int| 0 <= i < j < b.len() implies b[i] != b[j] by {
            if index.streams.entries().contains_key(last) {
                assert(super::stream::keys_ascend(b));
                assert(b[i].key().before_spec(b[j].key()));
            }
        }
        assert forall|i: int, j: int| 0 <= i < (a + b).len() && 0 <= j < (a + b).len() && i
            != j implies (a + b)[i] != (a + b)[j] by {
            if i < a.len() && j >= a.len() {
                assert(a.contains(a[i]));
                assert(b.contains(b[j - a.len()]));
            } else if j < a.len() && i >= a.len() {
                assert(a.contains(a[j]));
                assert(b.contains(b[i - a.len()]));
            } else if i >= a.len() {
                if i < j {
                    assert(b[i - a.len()] != b[j - a.len()]);
                } else {
                    assert(b[j - a.len()] != b[i - a.len()]);
                }
            }
        }
        assert forall|x: Arc<IndexEntry>| #[trigger] (a + b).contains(x) <==> index.holds(x)
            && names.contains(x.coord.entity_spec()) by {
            lemma_push_contains(head, last, x.coord.entity_spec());
            assert(a.contains(x) <==> index.holds(x) && head.contains(x.coord.entity_spec()));
            assert(b.contains(x) <==> index.holds(x) && x.coord.entity_spec() == last);
            if a.contains(x) {
                let i = a.index_of(x);
                assert((a + b)[i] == x);
            }
            if b.contains(x) {
                let i = b.index_of(x);
                assert((a + b)[a.len() + i] == x);
            }
            if (a + b).contains(x) {
                let i = (a + b).index_of(x);
                if i < a.len() {
                    assert(a[i] == x);
                } else {
                    assert(b[i - a.len()] == x);
                }
            }
        }
    }
}

/// What the walk over a region's entities finds.
proof fn lemma_walked(index: &StoreIndex, region: Region)
    requires
        index.coherent(),
    ensures
        index.name_rows(index.region_names(region)).no_duplicates(),
        forall|x: Arc<IndexEntry>| #[trigger]
            index.name_rows(index.region_names(region)).contains(x) <==> index.holds(x)
                && region.entity_ok(x.coord.entity_spec()),
{
    let order = index.streams.order();
    let ok = |n: Seq<char>| region.entity_ok(n);
    let names = index.region_names(region);
    index.streams.lemma_order();
    lemma_filter_unique(order, ok);
    lemma_filter_contains(order, ok);
    lemma_name_rows(index, names);
    assert forall|x: Arc<IndexEntry>| #[trigger]
        index.name_rows(names).contains(x) <==> index.holds(x) && region.entity_ok(
            x.coord.entity_spec(),
        ) by {
        if index.holds(x) {
            let e = x.coord.entity_spec();
            assert(index.stream_rows(e).contains(x));
            assert(index.streams.entries().contains_key(e));
            assert(order.contains(e));
            assert(names.contains(e) <==> order.contains(e) && ok(e));
        }
    }
}

/// What the streams of a scope's entities hold.
proof fn lemma_scope_walked(index: &StoreIndex, scope: Seq<char>)
    requires
        index.coherent(),
    ensures
        index.name_rows(index.scan.scope_order(scope)).no_duplicates(),
        forall|x: Arc<IndexEntry>| #[trigger]
            index.name_rows(index.scan.scope_order(scope)).contains(x) ==> index.holds(x),
        forall|x: Arc<IndexEntry>|
            index.holds(x) && x.coord.scope_spec() == scope ==> #[trigger] index.name_rows(
                index.scan.scope_order(scope),
            ).contains(x),
{
    index.scan.lemma_scope_order(scope);
    let names = index.scan.scope_order(scope);
    lemma_name_rows(index, names);
    assert forall|x: Arc<IndexEntry>|
        index.holds(x) && x.coord.scope_spec() == scope implies #[trigger] index.name_rows(
        names,
    ).contains(x) by {
        let e = x.coord.entity_spec();
        assert(index.scope_holds(scope, e));
        assert(index.scan.scope_members(scope).contains(e));
        assert(names.contains(e));
    }
}

/// What the matches of a listing hold.
proof fn lemma_listed(
    index: &StoreIndex,
    rows: Seq<Arc<IndexEntry>>,
    pick: spec_fn(Arc<IndexEntry>) -> bool,
)
    requires
        rows.no_duplicates(),
        forall|x: Arc<IndexEntry>| #[trigger] rows.contains(x) ==> index.holds(x),
    ensures
        super::stream::hits(rows.filter(pick)).no_duplicates(),
        forall|x: Arc<IndexEntry>|
            #[trigger] rows.contains(x) && pick(x) ==> super::stream::hits(
                rows.filter(pick),
            ).contains(x.hit()),
        forall|h: QueryHit| #[trigger]
            super::stream::hits(rows.filter(pick)).contains(h) ==> exists|x: Arc<IndexEntry>|
                #[trigger]
                index.backs(h, x) && pick(x),
{
    lemma_filter_unique(rows, pick);
    lemma_filter_contains(rows, pick);
    assert forall|x: Arc<IndexEntry>| #[trigger] rows.filter(pick).contains(
        x,
    ) implies index.holds(x) by {
        assert(rows.contains(x));
    }
    lemma_held_hits(index, rows.filter(pick));
    assert forall|x: Arc<IndexEntry>| #[trigger] rows.contains(x) && pick(
        x,
    ) implies super::stream::hits(rows.filter(pick)).contains(x.hit()) by {
        assert(rows.filter(pick).contains(x));
    }
    assert forall|h: QueryHit| #[trigger] super::stream::hits(rows.filter(pick)).contains(
        h,
    ) implies exists|x: Arc<IndexEntry>| #[trigger] index.backs(h, x) && pick(x) by {
        let x = choose|x: Arc<IndexEntry>| #[trigger]
            index.backs(h, x) && rows.filter(pick).contains(x);
        assert(index.backs(h, x) && pick(x));
    }
}

/// The base rows hold every event once.
proof fn lemma_base_rows(index: &StoreIndex)
    requires
        index.coherent(),
    ensures
        super::layout::flat(index.scan.base_parts()).no_duplicates(),
        forall|x: Arc<IndexEntry>| #[trigger]
            super::layout::flat(index.scan.base_parts()).contains(x) <==> index.holds(x),
{
    index.scan.lemma_base_parts();
    let parts = index.scan.base_parts();
    super::layout::lemma_flat_unique(parts);
    assert forall|x: Arc<IndexEntry>| #[trigger]
        super::layout::flat(parts).contains(x) <==> index.holds(x) by {
        super::layout::lemma_flat_contains(parts, x);
        if index.holds(x) {
            assert(index.scan.facts(x.kind).contains(x));
            let i = choose|i: int|
                0 <= i < parts.len() && #[trigger] parts[i] == index.scan.facts(x.kind);
            assert(parts[i].contains(x));
        }
        if super::layout::flat(parts).contains(x) {
            let i = choose|i: int| 0 <= i < parts.len() && (#[trigger] parts[i]).contains(x);
            let j = parts[i].index_of(x);
            assert(parts[i] == index.scan.facts(parts[i][j].kind));
            assert(index.scan.facts(x.kind).contains(x));
        }
    }
}

/// What a routed query by kind or category holds.
proof fn lemma_routed(
    index: &StoreIndex,
    route: super::scan::ScanRoute,
    query: super::stream::EntryQuery,
)
    requires
        index.coherent(),
        !(query is Scope),
    ensures
        super::columnar::sorted_hits(index.scan.route_matches(route, query)).no_duplicates(),
        forall|x: Arc<IndexEntry>|
            index.holds(x) && #[trigger] query.admits_spec(&x) ==> super::columnar::sorted_hits(
                index.scan.route_matches(route, query),
            ).contains(x.hit()),
        forall|h: QueryHit| #[trigger]
            super::columnar::sorted_hits(index.scan.route_matches(route, query)).contains(h)
                ==> exists|x: Arc<IndexEntry>| #[trigger]
                index.backs(h, x) && query.admits_spec(&x),
{
    let pick = |e: Arc<IndexEntry>| query.admits_spec(&e);
    let rows = match index.scan.route_overlay(route) {
        Some(overlay) => overlay.listing(),
        None => super::layout::flat(index.scan.base_parts()),
    };
    lemma_base_rows(index);
    assert(rows.no_duplicates());
    assert(forall|x: Arc<IndexEntry>| #[trigger] rows.contains(x) <==> index.holds(x));
    lemma_listed(index, rows, pick);
    let m = index.scan.route_matches(route, query);
    assert(m == super::stream::hits(rows.filter(pick)));
    crate::sort::law_stable_sort_exists(m);
    lemma_same_contents(super::columnar::sorted_hits(m), m);
    assert forall|x: Arc<IndexEntry>|
        index.holds(x) && #[trigger] query.admits_spec(&x) implies super::columnar::sorted_hits(
        m,
    ).contains(x.hit()) by {
        assert(rows.contains(x) && pick(x));
    }
    assert forall|h: QueryHit| #[trigger] super::columnar::sorted_hits(m).contains(
        h,
    ) implies exists|x: Arc<IndexEntry>| #[trigger]
        index.backs(h, x) && query.admits_spec(&x) by {
        let x = choose|x: Arc<IndexEntry>| #[trigger] index.backs(h, x) && pick(x);
        assert(index.backs(h, x) && query.admits_spec(&x));
    }
}

/// What the overlay of a scope holds.
proof fn lemma_scope_scanned(index: &StoreIndex, scope: Seq<char>)
    requires
        index.coherent(),
    ensures
        super::columnar::sorted_hits(index.scan.scope_matches(scope)).no_duplicates(),
        super::columnar::sorted_hits(index.scan.scope_matches(scope)).len() > 0 ==> forall|
            x: Arc<IndexEntry>,
        |
            index.holds(x) && #[trigger] x.coord.scope_spec() == scope
                ==> super::columnar::sorted_hits(index.scan.scope_matches(scope)).contains(
                x.hit(),
            ),
        forall|h: QueryHit| #[trigger]
            super::columnar::sorted_hits(index.scan.scope_matches(scope)).contains(h)
                ==> exists|x: Arc<IndexEntry>| #[trigger] index.backs(h, x),
{
    let m = index.scan.scope_matches(scope);
    crate::sort::law_stable_sort_exists(m);
    lemma_same_contents(super::columnar::sorted_hits(m), m);
    match index.scan.route_overlay(super::scan::scope_route(index.scan.topology())) {
        Some(overlay) => {
            let rows = overlay.listing();
            let pick = |e: Arc<IndexEntry>| e.coord.scope_spec() == scope;
            assert(rows.no_duplicates());
            assert(forall|x: Arc<IndexEntry>| #[trigger] rows.contains(x) <==> index.holds(x));
            lemma_listed(index, rows, pick);
            assert forall|x: Arc<IndexEntry>|
                index.holds(x) && #[trigger] x.coord.scope_spec()
                    == scope implies super::columnar::sorted_hits(m).contains(x.hit()) by {
                assert(rows.contains(x) && pick(x));
                assert(m.contains(x.hit()));
            }
            assert forall|h: QueryHit| #[trigger] super::columnar::sorted_hits(m).contains(
                h,
            ) implies exists|x: Arc<IndexEntry>| #[trigger] index.backs(h, x) by {
                assert(m.contains(h));
                let x = choose|x: Arc<IndexEntry>| #[trigger] index.backs(h, x) && pick(x);
                assert(index.backs(h, x));
            }
        },
        None => {},
    }
}

proof fn lemma_candidates_unique(index: &StoreIndex, region: Region)
    requires
        index.coherent(),
    ensures
        index.candidates(region).no_duplicates(),
{
    lemma_walked(index, region);
    lemma_held_hits(index, index.name_rows(index.region_names(region)));
    if region.scope is Some {
        lemma_scope_scanned(index, region.scope->0@);
        lemma_scope_walked(index, region.scope->0@);
        lemma_held_hits(index, index.name_rows(index.scan.scope_order(region.scope->0@)));
    }
    let route = super::scan::kind_route(index.scan.topology());
    match region.fact {
        Some(KindFilter::Exact(kind)) => {
            lemma_routed(index, route, super::stream::EntryQuery::Kind(kind));
        },
        Some(KindFilter::Category(category)) => {
            lemma_routed(index, route, super::stream::EntryQuery::Category(category));
        },
        _ => {},
    }
}

/// Every event that a region admits is a candidate.
proof fn lemma_candidate_of(index: &StoreIndex, region: Region, x: Arc<IndexEntry>)
    requires
        index.coherent(),
        index.holds(x),
        index.admits(region, x),
    ensures
        index.candidates(region).contains(x.hit()),
{
    lemma_walked(index, region);
    lemma_held_hits(index, index.name_rows(index.region_names(region)));
    assert(index.name_rows(index.region_names(region)).contains(x));
    if region.scope is Some {
        let scope = region.scope->0@;
        assert(x.coord.scope_spec() == scope);
        lemma_scope_scanned(index, scope);
        lemma_scope_walked(index, scope);
        lemma_held_hits(index, index.name_rows(index.scan.scope_order(scope)));
        assert(index.name_rows(index.scan.scope_order(scope)).contains(x));
    }
    let route = super::scan::kind_route(index.scan.topology());
    match region.fact {
        Some(KindFilter::Exact(kind)) => {
            let query = super::stream::EntryQuery::Kind(kind);
            lemma_routed(index, route, query);
            assert(query.admits_spec(&x));
        },
        Some(KindFilter::Category(category)) => {
            let query = super::stream::EntryQuery::Category(category);
            lemma_routed(index, route, query);
            assert(query.admits_spec(&x));
        },
        _ => {},
    }
}

/// Every candidate is backed by a held event.
proof fn lemma_candidate_backed(index: &StoreIndex, region: Region, h: QueryHit)
    requires
        index.coherent(),
        index.candidates(region).contains(h),
    ensures
        exists|x: Arc<IndexEntry>| #[trigger] index.backs(h, x) && region_axis(region, x),
{
    lemma_walked(index, region);
    lemma_held_hits(index, index.name_rows(index.region_names(region)));
    if region.entity_prefix is Some {
        let x = choose|x: Arc<IndexEntry>| #[trigger]
            index.backs(h, x) && index.name_rows(index.region_names(region)).contains(x);
        assert(index.backs(h, x) && region_axis(region, x));
    } else if region.scope is Some {
        let scope = region.scope->0@;
        lemma_scope_scanned(index, scope);
        lemma_scope_walked(index, scope);
        lemma_held_hits(index, index.name_rows(index.scan.scope_order(scope)));
        assert(exists|x: Arc<IndexEntry>| #[trigger] index.backs(h, x));
    } else {
        let route = super::scan::kind_route(index.scan.topology());
        match region.fact {
            Some(KindFilter::Exact(kind)) => {
                lemma_routed(index, route, super::stream::EntryQuery::Kind(kind));
            },
            Some(KindFilter::Category(category)) => {
                lemma_routed(index, route, super::stream::EntryQuery::Category(category));
            },
            _ => {},
        }
        assert(exists|x: Arc<IndexEntry>| #[trigger] index.backs(h, x));
    }
}

/// Sorted, the two start with the same `limit` hits.
spec fn same_front(a: Seq<QueryHit>, b: Seq<QueryHit>, limit: usize) -> bool {
    crate::sort::first_of(super::columnar::sorted_hits(a), limit as int) == crate::sort::first_of(
        super::columnar::sorted_hits(b),
        limit as int,
    )
}

/// Sort the hits and cut them off at `limit`.
fn trim(buf: &mut Vec<QueryHit>, limit: usize)
    ensures
        final(buf)@ == crate::sort::first_of(
            super::columnar::sorted_hits(old(buf)@),
            limit as int,
        ),
        same_front(final(buf)@, old(buf)@, limit),
{
    sort_hits(buf);
    let ghost sorted = buf@;
    if limit < buf.len() {
        buf.truncate(limit);
    }
    proof {
        crate::sort::law_stable_sort_exists(old(buf)@);
        assert(crate::sort::ranked(buf@)) by {
            assert forall|p: int, q: int|
                0 <= p <= q < buf@.len() implies <QueryHit as crate::sort::Ranked>::rank_le(
                #[trigger] buf@[p],
                #[trigger] buf@[q],
            ) by {
                assert(buf@[p] == sorted[p] && buf@[q] == sorted[q]);
            }
        }
        crate::sort::lemma_ranked_is_sorted(buf@);
    }
}

proof fn lemma_filter_all<A>(s: Seq<A>, f: spec_fn(A) -> bool)
    requires
        forall|i: int| 0 <= i < s.len() ==> f(#[trigger] s[i]),
    ensures
        s.filter(f) == s,
    decreases s.len(),
{
    reveal(Seq::filter);
    if s.len() > 0 {
        assert forall|i: int| 0 <= i < s.len() - 1 implies f(#[trigger] s.drop_last()[i]) by {
            assert(s.drop_last()[i] == s[i]);
        }
        lemma_filter_all(s.drop_last(), f);
        assert(s.drop_last().push(s.last()) =~= s);
    } else {
        assert(s.filter(f) =~= s);
    }
}

proof fn lemma_no_names(index: &StoreIndex, names: Seq<Seq<char>>)
    requires
        names.len() == 0,
    ensures
        super::stream::hits(index.name_rows(names)) == Seq::<QueryHit>::empty(),
{
    assert(super::stream::hits(index.name_rows(names)) =~= Seq::<QueryHit>::empty());
}

proof fn lemma_names_push(index: &StoreIndex, names: Seq<Seq<char>>, name: Seq<char>)
    ensures
        index.name_rows(names.push(name)) == index.name_rows(names) + index.stream_rows(name),
        super::stream::hits(index.name_rows(names.push(name))) == super::stream::hits(
            index.name_rows(names),
        ) + super::stream::hits(index.stream_rows(name)),
{
    let f = |n: Seq<char>| index.stream_rows(n);
    assert(names.push(name).map_values(f) =~= names.map_values(f).push(index.stream_rows(name)));
    super::layout::lemma_flat_push(names.map_values(f), index.stream_rows(name));
    assert(super::stream::hits(index.name_rows(names.push(name))) =~= super::stream::hits(
        index.name_rows(names),
    ) + super::stream::hits(index.stream_rows(name)));
}

/// An event is found by its identifier exactly where it is held and readers see it:
/// its sequence lies below the bound and in no cancelled range. What is found is the
/// event with every field.
pub proof fn law_event_is_found_by_its_id(index: &StoreIndex, id: u128, r: Option<IndexEntry>)
    requires
        index.coherent(),
        call_ensures(StoreIndex::get_by_id, (index, id), r),
    ensures
        r is Some <==> index.by_id.entries().contains_key(id) && ({
            let sequence = index.by_id.entries()[id].global_sequence;
            sequence < index.sequence@.visible && (forall|k: int|
                #![trigger index.sequence@.cancelled[k]]
                0 <= k < index.sequence@.cancelled.len() ==> !(index.sequence@.cancelled[k].0
                    <= sequence && sequence < index.sequence@.cancelled[k].1))
        }),
        r matches Some(entry) ==> entry.event_id == id && entry.same(&index.by_id.entries()[id]),
{
    let sequence = index.by_id.entries()[id].global_sequence;
    super::visibility::law_covered_lies_in_a_range(index.sequence@.cancelled, sequence);
}

/// The newest event of an entity is the one that was inserted last, and is told
/// exactly where readers see it: its sequence lies below the bound and in no
/// cancelled range.
pub proof fn law_latest_is_told_where_seen(
    index: &StoreIndex,
    entity: &str,
    r: Option<IndexEntry>,
)
    requires
        index.coherent(),
        call_ensures(StoreIndex::get_latest, (index, entity), r),
    ensures
        r is Some <==> index.latest.entries().contains_key(entity@) && ({
            let sequence = index.latest.entries()[entity@].global_sequence;
            sequence < index.sequence@.visible && (forall|k: int|
                #![trigger index.sequence@.cancelled[k]]
                0 <= k < index.sequence@.cancelled.len() ==> !(index.sequence@.cancelled[k].0
                    <= sequence && sequence < index.sequence@.cancelled[k].1))
        }),
        r matches Some(entry) ==> entry.same(&index.latest.entries()[entity@])
            && entry.coord.entity_spec() == entity@,
{
    let sequence = index.latest.entries()[entity@].global_sequence;
    super::visibility::law_covered_lies_in_a_range(index.sequence@.cancelled, sequence);
}

/// The stream of an entity holds every event of the entity that readers see, each
/// whole and once, and no other event. They go by wall clock, then by clock, then by
/// identifier.
pub proof fn law_stream_is_the_whole_entity(index: &StoreIndex, entity: &str, r: Vec<IndexEntry>)
    requires
        index.coherent(),
        call_ensures(StoreIndex::stream, (index, entity), r),
    ensures
        forall|i: int, j: int|
            #![trigger r@[i], r@[j]]
            0 <= i < j < r@.len() ==> r@[i].wall_ms < r@[j].wall_ms || (r@[i].wall_ms
                == r@[j].wall_ms && r@[i].clock < r@[j].clock) || (r@[i].wall_ms == r@[j].wall_ms
                && r@[i].clock == r@[j].clock && r@[i].event_id < r@[j].event_id),
        forall|i: int|
            #![trigger r@[i]]
            0 <= i < r@.len() ==> index.by_id.entries().contains_key(r@[i].event_id) && r@[i].same(
                &index.by_id.entries()[r@[i].event_id],
            ),
        forall|id: u128| #[trigger]
            index.by_id.entries().contains_key(id) ==> {
                let x = index.by_id.entries()[id];
                (exists|i: int| 0 <= i < r@.len() && (#[trigger] r@[i]).event_id == id)
                    <==> x.coord.entity_spec() == entity@ && x.global_sequence < index.sequence@.visible && (forall|k: int|
                #![trigger index.sequence@.cancelled[k]]
                0 <= k < index.sequence@.cancelled.len() ==> !(index.sequence@.cancelled[k].0
                    <= x.global_sequence && x.global_sequence < index.sequence@.cancelled[k].1))
            },
{
    let rows = index.stream_rows(entity@);
    let sees = |x: Arc<IndexEntry>| index.sequence@.sees(x.global_sequence);
    let kept = rows.filter(sees);
    lemma_filter_contains(rows, sees);
    lemma_filter_ascends(rows, sees);
    assert forall|i: int, j: int|
        #![trigger r@[i], r@[j]]
        0 <= i < j < r@.len() implies r@[i].wall_ms < r@[j].wall_ms || (r@[i].wall_ms
        == r@[j].wall_ms && r@[i].clock < r@[j].clock) || (r@[i].wall_ms == r@[j].wall_ms
        && r@[i].clock == r@[j].clock && r@[i].event_id < r@[j].event_id) by {
        assert(kept[i].same(&r@[i]) && kept[j].same(&r@[j]));
        assert(kept[i].key().before_spec(kept[j].key()));
    }
    assert forall|i: int|
        #![trigger r@[i]]
        0 <= i < r@.len() implies index.by_id.entries().contains_key(r@[i].event_id) && r@[i].same(
        &index.by_id.entries()[r@[i].event_id],
    ) by {
        assert(kept[i].same(&r@[i]));
        assert(kept.contains(kept[i]));
        assert(rows.contains(kept[i]));
        assert(index.holds(kept[i]));
    }
    assert forall|id: u128| #[trigger] index.by_id.entries().contains_key(id) implies {
        let x = index.by_id.entries()[id];
        (exists|i: int| 0 <= i < r@.len() && (#[trigger] r@[i]).event_id == id)
            <==> x.coord.entity_spec() == entity@ && x.global_sequence < index.sequence@.visible && (forall|k: int|
                #![trigger index.sequence@.cancelled[k]]
                0 <= k < index.sequence@.cancelled.len() ==> !(index.sequence@.cancelled[k].0
                    <= x.global_sequence && x.global_sequence < index.sequence@.cancelled[k].1))
    } by {
        let x = index.by_id.entries()[id];
        assert(index.holds(x));
        super::visibility::law_covered_lies_in_a_range(
            index.sequence@.cancelled,
            x.global_sequence,
        );
        if rows.contains(x) && sees(x) {
            assert(kept.contains(x));
            let i = kept.index_of(x);
            assert(kept[i].same(&r@[i]));
            assert(r@[i].event_id == id);
        }
        if exists|i: int| 0 <= i < r@.len() && (#[trigger] r@[i]).event_id == id {
            let i = choose|i: int| 0 <= i < r@.len() && (#[trigger] r@[i]).event_id == id;
            assert(kept[i].same(&r@[i]));
            assert(kept.contains(kept[i]));
            assert(rows.contains(kept[i]));
            assert(index.holds(kept[i]));
            assert(kept[i] == x);
        }
    }
}

/// Dropping events keeps the rest in order.
proof fn lemma_filter_ascends(rows: Seq<Arc<IndexEntry>>, keep: spec_fn(Arc<IndexEntry>) -> bool)
    requires
        super::stream::keys_ascend(rows),
    ensures
        forall|i: int, j: int|
            0 <= i < j < rows.filter(keep).len() ==> (#[trigger] rows.filter(
                keep,
            )[i]).key().before_spec((#[trigger] rows.filter(keep)[j]).key()),
    decreases rows.len(),
{
    reveal(Seq::filter);
    if rows.len() > 0 {
        let front = rows.drop_last();
        assert(super::stream::keys_ascend(front)) by {
            assert forall|i: int, j: int| 0 <= i < j < front.len() implies (
            #[trigger] front[i]).key().before_spec((#[trigger] front[j]).key()) by {
                assert(rows[i].key().before_spec(rows[j].key()));
            }
        }
        lemma_filter_ascends(front, keep);
        lemma_filter_contains(front, keep);
        let kept = front.filter(keep);
        let all = rows.filter(keep);
        assert forall|i: int, j: int| 0 <= i < j < all.len() implies (
        #[trigger] all[i]).key().before_spec((#[trigger] all[j]).key()) by {
            if j < kept.len() {
                assert(kept[i].key().before_spec(kept[j].key()));
            } else {
                assert(kept.contains(kept[i]));
                let k = front.index_of(kept[i]);
                assert(rows[k].key().before_spec(rows[rows.len() - 1].key()));
            }
        }
    }
}

/// The hits of a region are those of the held events that the region asks for and
/// readers see, each of them once, in order of their global sequence.
pub proof fn law_hits_answer_the_region(
    index: &StoreIndex,
    region: &Region,
    hits: Vec<QueryHit>,
    snapshot: VisibilitySnapshot,
    id: u128,
)
    requires
        index.coherent(),
        call_ensures(
            StoreIndex::query_hits_with_snapshot,
            (index, region),
            (hits, snapshot),
        ),
    ensures
        forall|i: int, j: int|
            #![trigger hits@[i], hits@[j]]
            0 <= i < j < hits@.len() ==> hits@[i].global_sequence <= hits@[j].global_sequence
                && hits@[i].event_id != hits@[j].event_id,
        forall|i: int|
            #![trigger hits@[i]]
            0 <= i < hits@.len() ==> index.by_id.entries().contains_key(hits@[i].event_id) && ({
                let x = index.by_id.entries()[hits@[i].event_id];
                &&& x.global_sequence == hits@[i].global_sequence
                &&& x.disk_pos == hits@[i].disk_pos
                &&& x.kind == hits@[i].kind
                &&& x.clock == hits@[i].clock
                &&& x.dag_lane == hits@[i].dag_lane
            }),
        index.by_id.entries().contains_key(id) ==> {
                let x = index.by_id.entries()[id];
                (exists|i: int| 0 <= i < hits@.len() && (#[trigger] hits@[i]).event_id == id) <==> ((
                region.entity_prefix matches Some(prefix) ==> {
                    let wanted = vstd::utf8::encode_utf8(prefix@);
                    let given = vstd::utf8::encode_utf8(x.coord.entity_spec());
                    wanted.len() <= given.len() && given.take(wanted.len() as int) == wanted
                }) && (region.scope matches Some(scope) ==> x.coord.scope_spec() == scope@) && (
                region.fact matches Some(KindFilter::Exact(kind)) ==> x.kind.raw()
                    == kind.raw()) && (region.fact matches Some(KindFilter::Category(category))
                    ==> x.kind.raw() / 4096 == category) && (
                region.clock_range matches Some(range) ==> range.0 <= x.clock && x.clock
                    <= range.1) && (region.lane matches Some(lane) ==> x.dag_lane == lane
                    && index.sequence@.lanes.contains_key(lane) && x.global_sequence
                    < index.sequence@.lanes[lane] && (forall|k: int|
                    #![trigger index.sequence@.lane_cancelled[lane][k]]
                    index.sequence@.lane_cancelled.contains_key(lane) && 0 <= k
                        < index.sequence@.lane_cancelled[lane].len() ==> !(
                    index.sequence@.lane_cancelled[lane][k].0 <= x.global_sequence
                        && x.global_sequence < index.sequence@.lane_cancelled[lane][k].1)))
                    && (forall|k: int|
                    #![trigger index.sequence@.cancelled[k]]
                    0 <= k < index.sequence@.cancelled.len() ==> !(index.sequence@.cancelled[k].0
                        <= x.global_sequence && x.global_sequence
                        < index.sequence@.cancelled[k].1)) && (region.lane is None
                    ==> x.global_sequence < index.sequence@.visible))
            },
{
    law_region_hits_are_exact(index, *region);
    let found = hits@;
    assert forall|i: int, j: int|
        #![trigger found[i], found[j]]
        0 <= i < j < found.len() implies found[i].global_sequence <= found[j].global_sequence
        && found[i].event_id != found[j].event_id by {
        assert(<QueryHit as crate::sort::Ranked>::rank_le(found[i], found[j]));
        assert(found.contains(found[i]));
        assert(found.contains(found[j]));
        let x = choose|x: Arc<IndexEntry>| #[trigger]
            index.backs(found[i], x) && index.admits(*region, x);
        let y = choose|y: Arc<IndexEntry>| #[trigger]
            index.backs(found[j], y) && index.admits(*region, y);
        assert(found[i] != found[j]);
    }
    assert forall|i: int|
        #![trigger found[i]]
        0 <= i < found.len() implies index.by_id.entries().contains_key(found[i].event_id) && ({
        let x = index.by_id.entries()[found[i].event_id];
        &&& x.global_sequence == found[i].global_sequence
        &&& x.disk_pos == found[i].disk_pos
        &&& x.kind == found[i].kind
        &&& x.clock == found[i].clock
        &&& x.dag_lane == found[i].dag_lane
    }) by {
        assert(found.contains(found[i]));
        let x = choose|x: Arc<IndexEntry>| #[trigger]
            index.backs(found[i], x) && index.admits(*region, x);
    }
    if index.by_id.entries().contains_key(id) {
        let x = index.by_id.entries()[id];
        assert(index.holds(x));
        lemma_admission(index, region, x);
        if exists|i: int| 0 <= i < found.len() && (#[trigger] found[i]).event_id == id {
            let i = choose|i: int| 0 <= i < found.len() && (#[trigger] found[i]).event_id == id;
            assert(found.contains(found[i]));
            let y = choose|y: Arc<IndexEntry>| #[trigger]
                index.backs(found[i], y) && index.admits(*region, y);
            assert(y == x);
        }
        if index.admits(*region, x) {
            assert(found.contains(x.hit()));
            let i = found.index_of(x.hit());
            assert(found[i].event_id == id);
        }
    }
}

/// The scan views of a coherent index answer a query by kind or category with the hits of
/// exactly the held events of that kind or category, each once and by ascending sequence,
/// whatever the topology.
pub proof fn law_scan_answers_with_the_held_events(
    index: &StoreIndex,
    query: super::stream::EntryQuery,
    r: Vec<QueryHit>,
    id: u128,
)
    requires
        index.coherent(),
        match query {
            super::stream::EntryQuery::Kind(kind) => call_ensures(
                super::scan::ScanIndex::query_hits_by_kind,
                (&index.scan, kind),
                r,
            ),
            super::stream::EntryQuery::Category(category) => call_ensures(
                super::scan::ScanIndex::query_hits_by_category,
                (&index.scan, category),
                r,
            ),
            super::stream::EntryQuery::Scope(_) => false,
        },
    ensures
        forall|i: int, j: int|
            #![trigger r@[i], r@[j]]
            0 <= i < j < r@.len() ==> r@[i].global_sequence <= r@[j].global_sequence
                && r@[i].event_id != r@[j].event_id,
        (exists|i: int| 0 <= i < r@.len() && (#[trigger] r@[i]).event_id == id)
            <==> index.by_id.entries().contains_key(id) && match query {
            super::stream::EntryQuery::Kind(kind) => index.by_id.entries()[id].kind.raw()
                == kind.raw(),
            super::stream::EntryQuery::Category(category) => index.by_id.entries()[id].kind.raw()
                / 4096 == category as u16,
            super::stream::EntryQuery::Scope(_) => false,
        },
{
    let route = super::scan::kind_route(index.scan.topology());
    let found = r@;
    lemma_routed(index, route, query);
    crate::sort::law_stable_sort_exists(index.scan.route_matches(route, query));
    assert forall|i: int| 0 <= i < found.len() implies exists|x: Arc<IndexEntry>| #[trigger]
        index.backs(#[trigger] found[i], x) && query.admits_spec(&x) by {
        assert(found.contains(found[i]));
    }
    assert forall|i: int, j: int|
        #![trigger found[i], found[j]]
        0 <= i < j < found.len() implies found[i].global_sequence <= found[j].global_sequence
        && found[i].event_id != found[j].event_id by {
        assert(<QueryHit as crate::sort::Ranked>::rank_le(found[i], found[j]));
        let x = choose|x: Arc<IndexEntry>| #[trigger]
            index.backs(found[i], x) && query.admits_spec(&x);
        let y = choose|y: Arc<IndexEntry>| #[trigger]
            index.backs(found[j], y) && query.admits_spec(&y);
        assert(found[i] != found[j]);
    }
    if exists|i: int| 0 <= i < found.len() && (#[trigger] found[i]).event_id == id {
        let i = choose|i: int| 0 <= i < found.len() && (#[trigger] found[i]).event_id == id;
        let x = choose|x: Arc<IndexEntry>| #[trigger]
            index.backs(found[i], x) && query.admits_spec(&x);
        assert(index.by_id.entries()[id] == x);
        assert(x.kind.raw() / 4096 < 16);
        if let super::stream::EntryQuery::Kind(kind) = query {
            crate::event::law_kind_is_category_and_type(x.kind, kind);
        }
    }
    if index.by_id.entries().contains_key(id) {
        let x = index.by_id.entries()[id];
        assert(index.holds(x));
        assert(x.kind.raw() / 4096 < 16);
        if let super::stream::EntryQuery::Kind(kind) = query {
            crate::event::law_kind_is_category_and_type(x.kind, kind);
        }
        if query.admits_spec(&x) {
            assert(found.contains(x.hit()));
            let i = found.index_of(x.hit());
            assert(found[i].event_id == id);
        }
    }
}

/// A hit leads to its event exactly where the event is held and readers see it now.
pub proof fn law_hit_leads_to_its_event(index: &StoreIndex, hit: QueryHit, r: Option<IndexEntry>)
    requires
        index.coherent(),
        call_ensures(StoreIndex::upgrade_hit, (index, hit), r),
    ensures
        r is Some <==> index.by_id.entries().contains_key(hit.event_id) && ({
            let sequence = index.by_id.entries()[hit.event_id].global_sequence;
            sequence < index.sequence@.visible && (forall|k: int|
                #![trigger index.sequence@.cancelled[k]]
                0 <= k < index.sequence@.cancelled.len() ==> !(index.sequence@.cancelled[k].0
                    <= sequence && sequence < index.sequence@.cancelled[k].1))
        }),
        r matches Some(entry) ==> entry.event_id == hit.event_id && entry.same(
            &index.by_id.entries()[hit.event_id],
        ),
{
    let sequence = index.by_id.entries()[hit.event_id].global_sequence;
    super::visibility::law_covered_lies_in_a_range(index.sequence@.cancelled, sequence);
}

} // verus!
