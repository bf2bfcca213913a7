//! Several projections of one entity over one pass of its events.

use crate::event::EventKind;
use crate::hlc::HlcPoint;
use crate::index::entry::IndexEntry;
use crate::index::groups::projection_kind_matches;
use crate::index::projection_bridge::{ProjectionReplayItem, ProjectionReplayPlan};
use crate::index::store::StoreIndex;
use super::lanes::LaneReach;
use std::sync::Arc;
use vstd::prelude::*;

verus! {

/// What several projections name as relevant.
pub open spec fn parts_of(slices: Seq<&[EventKind]>) -> Seq<Seq<EventKind>> {
    slices.map_values(|slice: &[EventKind]| slice@)
}

/// The kinds without later repetitions.
pub open spec fn deduped(kinds: Seq<EventKind>) -> Seq<EventKind>
    decreases kinds.len(),
{
    if kinds.len() == 0 {
        kinds
    } else {
        let before = deduped(kinds.drop_last());
        if before.contains(kinds.last()) {
            before
        } else {
            before.push(kinds.last())
        }
    }
}

/// The kinds that several projections consume together: none are named where
/// one of them names none, else each of theirs once, in order.
pub open spec fn fused_kinds(parts: Seq<Seq<EventKind>>) -> Seq<EventKind> {
    if exists|i: int| 0 <= i < parts.len() && (#[trigger] parts[i]).len() == 0 {
        Seq::empty()
    } else {
        deduped(parts.flatten())
    }
}

fn holds_kind(kinds: &Vec<EventKind>, kind: EventKind) -> (r: bool)
    ensures
        r == kinds@.contains(kind),
{
    let mut i: usize = 0;
    while i < kinds.len()
        invariant
            i <= kinds@.len(),
            forall|k: int| 0 <= k < i ==> kinds@[k] != kind,
        decreases kinds@.len() - i,
    {
        if kinds[i] == kind {
            assert(kinds@[i as int] == kind);
            return true;
        }
        i += 1;
    }
    false
}

/// The kinds that several projections consume together.
pub fn collect_relevant_kinds(slices: &[&[EventKind]]) -> (kinds: Vec<EventKind>)
    ensures
        kinds@ == fused_kinds(parts_of(slices@)),
{
    let ghost parts = parts_of(slices@);
    let mut i: usize = 0;
    while i < slices.len()
        invariant
            i <= slices@.len(),
            parts == parts_of(slices@),
            forall|k: int| 0 <= k < i ==> (#[trigger] parts[k]).len() > 0,
        decreases slices@.len() - i,
    {
        if slices[i].len() == 0 {
            assert(parts[i as int].len() == 0);
            return Vec::new();
        }
        i += 1;
    }
    let mut kinds: Vec<EventKind> = Vec::new();
    let mut i: usize = 0;
    assert(parts.take(0).flatten() =~= Seq::<EventKind>::empty());
    while i < slices.len()
        invariant
            i <= slices@.len(),
            parts == parts_of(slices@),
            kinds@ == deduped(parts.take(i as int).flatten()),
        decreases slices@.len() - i,
    {
        let slice: &[EventKind] = slices[i];
        let ghost before = parts.take(i as int).flatten();
        assert(parts[i as int] == slice@);
        let mut j: usize = 0;
        assert(before + slice@.take(0) =~= before);
        while j < slice.len()
            invariant
                j <= slice@.len(),
                kinds@ == deduped(before + slice@.take(j as int)),
            decreases slice@.len() - j,
        {
            let kind = slice[j];
            proof {
                let longer = before + slice@.take(j + 1);
                assert(longer.drop_last() =~= before + slice@.take(j as int));
                assert(longer.last() == kind);
            }
            if !holds_kind(&kinds, kind) {
                kinds.push(kind);
            }
            j += 1;
        }
        proof {
            assert(slice@.take(slice@.len() as int) =~= slice@);
            assert(parts.take(i + 1) =~= parts.take(i as int).push(parts[i as int]));
            parts.take(i as int).lemma_flatten_push(parts[i as int]);
        }
        i += 1;
    }
    assert(parts.take(parts.len() as int) =~= parts);
    kinds
}

/// The events that several projections of an entity replay together.
pub fn fused_plan(index: &StoreIndex, entity: &str, slices: &[&[EventKind]]) -> (r: Option<
    ProjectionReplayPlan,
>)
    requires
        index.wf(),
    ensures
        index.plan_is(entity@, fused_kinds(parts_of(slices@)), r),
{
    let kinds = collect_relevant_kinds(slices);
    index.projection_replay_plan(entity, kinds.as_slice())
}

/// Positions of the events that one of several projections consumes.
pub open spec fn own_positions(event_kinds: Seq<EventKind>, count: int, kinds: Seq<EventKind>) -> Seq<
    int,
> {
    Seq::new(count as nat, |i: int| i).filter(
        |i: int| crate::index::groups::relevant(kinds, event_kinds[i]),
    )
}

/// The smaller of two lengths.
pub open spec fn shorter(a: nat, b: nat) -> int {
    if a <= b {
        a as int
    } else {
        b as int
    }
}

/// Of the events that were read for several projections, the positions of
/// those that one of them consumes, and how far those reach on each lane.
pub fn filtered_projection_events(
    event_kinds: &[EventKind],
    items: &[ProjectionReplayItem],
    relevant_kinds: &[EventKind],
) -> (r: (Vec<usize>, Vec<(u32, HlcPoint)>))
    ensures
        r.0@.map_values(|i: usize| i as int) == own_positions(
            event_kinds@,
            shorter(event_kinds@.len(), items@.len()),
            relevant_kinds@,
        ),
        super::lanes::lists(
            r.1@,
            super::lanes::reach(
                own_positions(
                    event_kinds@,
                    shorter(event_kinds@.len(), items@.len()),
                    relevant_kinds@,
                ).map_values(|i: int| (items@[i].lane, items@[i].point)),
            ),
        ),
{
    let ghost number = |i: usize| i as int;
    let ghost point = |i: int| (items@[i].lane, items@[i].point);
    let ghost own = |i: int| crate::index::groups::relevant(relevant_kinds@, event_kinds@[i]);
    let ghost upto = |n: int| Seq::new(n as nat, |i: int| i);
    let mut positions: Vec<usize> = Vec::new();
    let mut lanes = LaneReach::new();
    let mut i: usize = 0;
    proof {
        reveal(Seq::filter);
        assert(positions@.map_values(number) =~= upto(0).filter(own));
        assert(lanes.noted() =~= upto(0).filter(own).map_values(point));
    }
    while i < event_kinds.len() && i < items.len()
        invariant
            i <= event_kinds@.len(),
            i <= items@.len(),
            lanes.wf(),
            number == |i: usize| i as int,
            point == |i: int| (items@[i].lane, items@[i].point),
            own == |i: int| crate::index::groups::relevant(relevant_kinds@, event_kinds@[i]),
            upto == |n: int| Seq::new(n as nat, |i: int| i),
            positions@.map_values(number) == upto(i as int).filter(own),
            lanes.noted() == upto(i as int).filter(own).map_values(point),
        decreases event_kinds@.len() - i,
    {
        proof {
            reveal(Seq::filter);
            assert(upto(i + 1).drop_last() =~= upto(i as int));
            assert(upto(i + 1).last() == i as int);
        }
        let ghost before = upto(i as int).filter(own);
        if projection_kind_matches(relevant_kinds, event_kinds[i]) {
            positions.push(i);
            lanes.note(items[i].lane, items[i].point);
            assert(upto(i + 1).filter(own) == before.push(i as int));
        }
        assert(positions@.map_values(number) =~= upto(i + 1).filter(own));
        assert(lanes.noted() =~= upto(i + 1).filter(own).map_values(point));
        i += 1;
    }
    proof {
        let n = shorter(event_kinds@.len(), items@.len());
        assert(i == n);
        assert(own_positions(event_kinds@, n, relevant_kinds@) == upto(n).filter(own));
    }
    (positions, lanes.into_rows())
}

/// Dropping repetitions drops no kind.
proof fn lemma_deduped_holds(kinds: Seq<EventKind>, kind: EventKind)
    ensures
        deduped(kinds).contains(kind) <==> kinds.contains(kind),
        deduped(kinds).len() == 0 <==> kinds.len() == 0,
    decreases kinds.len(),
{
    if kinds.len() > 0 {
        let front = kinds.drop_last();
        lemma_deduped_holds(front, kind);
        lemma_deduped_holds(front, kinds.last());
        let before = deduped(front);
        assert(kinds =~= front.push(kinds.last()));
        if kinds.contains(kind) {
            let i = choose|i: int| 0 <= i < kinds.len() && kinds[i] == kind;
            if i < front.len() {
                assert(front[i] == kind);
            }
        }
        if front.contains(kind) {
            let i = choose|i: int| 0 <= i < front.len() && front[i] == kind;
            assert(kinds[i] == kind);
        }
        assert(kinds[kinds.len() - 1] == kinds.last());
        if !before.contains(kinds.last()) {
            let after = before.push(kinds.last());
            if after.contains(kind) {
                let i = choose|i: int| 0 <= i < after.len() && after[i] == kind;
                if i < before.len() {
                    assert(before[i] == kind);
                }
            }
            if before.contains(kind) {
                let i = choose|i: int| 0 <= i < before.len() && before[i] == kind;
                assert(after[i] == kind);
            }
            assert(after[before.len() as int] == kinds.last());
        }
    }
}

/// What lists hold together, one of them holds.
proof fn lemma_flatten_holds(parts: Seq<Seq<EventKind>>, kind: EventKind)
    ensures
        parts.flatten().contains(kind) <==> exists|i: int|
            0 <= i < parts.len() && (#[trigger] parts[i]).contains(kind),
    decreases parts.len(),
{
    if parts.len() > 0 {
        let front = parts.drop_last();
        lemma_flatten_holds(front, kind);
        assert(parts =~= front.push(parts.last()));
        front.lemma_flatten_push(parts.last());
        let (a, b) = (front.flatten(), parts.last());
        if (a + b).contains(kind) {
            let i = choose|i: int| 0 <= i < (a + b).len() && (a + b)[i] == kind;
            if i < a.len() {
                assert(a[i] == kind);
                let k = choose|k: int| 0 <= k < front.len() && (#[trigger] front[k]).contains(kind);
                assert(parts[k].contains(kind));
            } else {
                assert(b[i - a.len()] == kind);
                assert(parts[parts.len() - 1].contains(kind));
            }
        }
        if exists|i: int| 0 <= i < parts.len() && (#[trigger] parts[i]).contains(kind) {
            let k = choose|k: int| 0 <= k < parts.len() && (#[trigger] parts[k]).contains(kind);
            if k < front.len() {
                assert(front[k].contains(kind));
                let i = choose|i: int| 0 <= i < a.len() && a[i] == kind;
                assert((a + b)[i] == kind);
            } else {
                let i = choose|i: int| 0 <= i < b.len() && b[i] == kind;
                assert((a + b)[a.len() + i] == kind);
            }
        }
    }
}

/// Projections consume together exactly what one of them consumes.
pub proof fn law_fusion_consumes_the_union(parts: Seq<Seq<EventKind>>, kind: EventKind)
    requires
        parts.len() > 0,
    ensures
        crate::index::groups::relevant(fused_kinds(parts), kind) <==> exists|i: int|
            0 <= i < parts.len() && crate::index::groups::relevant(#[trigger] parts[i], kind),
{
    if exists|i: int| 0 <= i < parts.len() && (#[trigger] parts[i]).len() == 0 {
        let i = choose|i: int| 0 <= i < parts.len() && (#[trigger] parts[i]).len() == 0;
        assert(crate::index::groups::relevant(parts[i], kind));
    } else {
        lemma_deduped_holds(parts.flatten(), kind);
        lemma_flatten_holds(parts, kind);
        assert(parts[0].len() > 0);
        lemma_flatten_holds(parts, parts[0][0]);
        assert(parts[0].contains(parts[0][0]));
        assert(parts.flatten().contains(parts[0][0]));
        assert(parts.flatten().len() > 0);
        if crate::index::groups::relevant(fused_kinds(parts), kind) {
            let i = choose|i: int| 0 <= i < parts.len() && (#[trigger] parts[i]).contains(kind);
            assert(crate::index::groups::relevant(parts[i], kind));
        }
        if exists|i: int|
            0 <= i < parts.len() && crate::index::groups::relevant(#[trigger] parts[i], kind) {
            let i = choose|i: int|
                0 <= i < parts.len() && crate::index::groups::relevant(#[trigger] parts[i], kind);
            assert(parts[i].contains(kind));
        }
    }
}

/// Each projection finds in the shared events exactly what it would find on its
/// own, in the same order.
pub proof fn law_fusion_loses_nothing(
    rows: Seq<Arc<IndexEntry>>,
    parts: Seq<Seq<EventKind>>,
    part: int,
)
    requires
        0 <= part < parts.len(),
    ensures
        crate::index::groups::relevant_rows(
            crate::index::groups::relevant_rows(rows, fused_kinds(parts)),
            parts[part],
        ) == crate::index::groups::relevant_rows(rows, parts[part]),
    decreases rows.len(),
{
    reveal(Seq::filter);
    let fused = fused_kinds(parts);
    if rows.len() > 0 {
        let front = rows.drop_last();
        law_fusion_loses_nothing(front, parts, part);
        let row = rows.last();
        law_fusion_consumes_the_union(parts, row.kind);
        let shared = crate::index::groups::relevant_rows(front, fused);
        if crate::index::groups::relevant(fused, row.kind) {
            assert(shared.push(row).drop_last() =~= shared);
        } else {
            assert(!crate::index::groups::relevant(parts[part], row.kind));
        }
    }
}

/// Several projections name together every kind that one of them names, each once; and
/// none, which stands for all, exactly where one of them names none or there are no
/// projections.
pub proof fn law_fused_kinds_are_the_union(
    slices: &[&[EventKind]],
    kinds: Vec<EventKind>,
    kind: EventKind,
)
    requires
        call_ensures(collect_relevant_kinds, (slices,), kinds),
    ensures
        kinds@.len() == 0 <==> slices@.len() == 0 || exists|i: int|
            0 <= i < slices@.len() && (#[trigger] slices@[i])@.len() == 0,
        kinds@.len() > 0 ==> (kinds@.contains(kind) <==> exists|i: int|
            0 <= i < slices@.len() && (#[trigger] slices@[i])@.contains(kind)),
        kinds@.no_duplicates(),
{
    let parts = parts_of(slices@);
    assert forall|i: int| 0 <= i < slices@.len() implies parts[i] == (#[trigger] slices@[i])@ by {}
    lemma_deduped_holds(parts.flatten(), kind);
    lemma_deduped_once(parts.flatten());
    lemma_flatten_holds(parts, kind);
    if exists|i: int| 0 <= i < parts.len() && (#[trigger] parts[i]).len() == 0 {
        let i = choose|i: int| 0 <= i < parts.len() && (#[trigger] parts[i]).len() == 0;
        assert(slices@[i]@.len() == 0);
    } else {
        if slices@.len() > 0 {
            assert(parts[0].len() > 0);
            lemma_flatten_holds(parts, parts[0][0]);
            assert(parts[0].contains(parts[0][0]));
            assert(parts.flatten().contains(parts[0][0]));
            assert forall|i: int| 0 <= i < slices@.len() implies (#[trigger] slices@[i])@.len()
                > 0 by {
                assert(parts[i].len() > 0);
            }
        } else {
            assert(parts.flatten() =~= Seq::<EventKind>::empty());
        }
        if kinds@.contains(kind) {
            let i = choose|i: int| 0 <= i < parts.len() && (#[trigger] parts[i]).contains(kind);
            assert(slices@[i]@.contains(kind));
        }
        if exists|i: int| 0 <= i < slices@.len() && (#[trigger] slices@[i])@.contains(kind) {
            let i = choose|i: int| 0 <= i < slices@.len() && (#[trigger] slices@[i])@.contains(kind);
            assert(parts[i].contains(kind));
        }
    }
}

proof fn lemma_deduped_once(kinds: Seq<EventKind>)
    ensures
        deduped(kinds).no_duplicates(),
    decreases kinds.len(),
{
    if kinds.len() > 0 {
        lemma_deduped_once(kinds.drop_last());
    }
}

/// Of the events that were read for several projections, one of them gets in order
/// exactly those of its kinds, or all where it names none. Each lane that such an event
/// is on has a row, and no other has.
pub proof fn law_projection_gets_its_own_events(
    event_kinds: &[EventKind],
    items: &[ProjectionReplayItem],
    relevant_kinds: &[EventKind],
    positions: Vec<usize>,
    rows: Vec<(u32, HlcPoint)>,
    k: int,
)
    requires
        event_kinds@.len() == items@.len(),
        call_ensures(
            filtered_projection_events,
            (event_kinds, items, relevant_kinds),
            (positions, rows),
        ),
        0 <= k < items@.len(),
    ensures
        (exists|i: int| 0 <= i < positions@.len() && #[trigger] positions@[i] == k)
            <==> relevant_kinds@.len() == 0 || relevant_kinds@.contains(event_kinds@[k]),
        forall|i: int, j: int|
            #![trigger positions@[i], positions@[j]]
            0 <= i < j < positions@.len() ==> positions@[i] < positions@[j],
        relevant_kinds@.len() == 0 || relevant_kinds@.contains(event_kinds@[k]) ==> exists|a: int|
            0 <= a < rows@.len() && (#[trigger] rows@[a]).0 == items@[k].lane
                && items@[k].point.global_sequence <= rows@[a].1.global_sequence,
        forall|a: int|
            0 <= a < rows@.len() ==> exists|i: int|
                0 <= i < positions@.len() && items@[(#[trigger] positions@[i]) as int].lane
                    == (#[trigger] rows@[a]).0 && items@[positions@[i] as int].point == rows@[a].1,
{
    let n = items@.len() as int;
    let own = |i: int| crate::index::groups::relevant(relevant_kinds@, event_kinds@[i]);
    let upto = Seq::new(n as nat, |i: int| i);
    let kept = own_positions(event_kinds@, n, relevant_kinds@);
    let numbers = positions@.map_values(|i: usize| i as int);
    let noted = kept.map_values(|i: int| (items@[i].lane, items@[i].point));
    crate::index::query::lemma_filter_contains(upto, own);
    lemma_filter_of_ascending(upto, own);
    assert(upto[k] == k);
    assert(upto.contains(k));
    assert(kept == numbers);
    assert forall|i: int| 0 <= i < positions@.len() implies #[trigger] positions@[i] == kept[i] by {
        assert(numbers[i] == positions@[i] as int);
    }
    if kept.contains(k) {
        let i = choose|i: int| 0 <= i < kept.len() && kept[i] == k;
        assert(positions@[i] == k);
        assert(noted[i] == (items@[k].lane, items@[k].point));
        super::lanes::law_reach_is_greatest(noted, items@[k].lane);
        assert(super::lanes::reach(noted).contains_key(items@[k].lane));
        let a = choose|a: int|
            0 <= a < rows@.len() && (#[trigger] rows@[a]).0 == items@[k].lane;
        assert(rows@[a].0 == items@[k].lane);
    }
    if exists|i: int| 0 <= i < positions@.len() && #[trigger] positions@[i] == k {
        let i = choose|i: int| 0 <= i < positions@.len() && #[trigger] positions@[i] == k;
        assert(kept[i] == k);
        assert(kept.contains(k));
    }
    assert forall|a: int| 0 <= a < rows@.len() implies exists|i: int|
        0 <= i < positions@.len() && items@[(#[trigger] positions@[i]) as int].lane == (
        #[trigger] rows@[a]).0 && items@[positions@[i] as int].point == rows@[a].1 by {
        super::lanes::law_reach_is_greatest(noted, rows@[a].0);
        let i = choose|i: int| 0 <= i < noted.len() && noted[i] == (rows@[a].0, rows@[a].1);
        assert(positions@[i] == kept[i]);
    }
}

proof fn lemma_filter_of_ascending(s: Seq<int>, keep: spec_fn(int) -> bool)
    requires
        forall|i: int, j: int| 0 <= i < j < s.len() ==> #[trigger] s[i] < #[trigger] s[j],
    ensures
        forall|i: int, j: int|
            0 <= i < j < s.filter(keep).len() ==> #[trigger] s.filter(keep)[i] < #[trigger] s.filter(
                keep,
            )[j],
    decreases s.len(),
{
    reveal(Seq::filter);
    if s.len() > 0 {
        let front = s.drop_last();
        assert forall|i: int, j: int| 0 <= i < j < front.len() implies #[trigger] front[i]
            < #[trigger] front[j] by {
            assert(s[i] < s[j]);
        }
        lemma_filter_of_ascending(front, keep);
        crate::index::query::lemma_filter_contains(front, keep);
        let kept = front.filter(keep);
        let all = s.filter(keep);
        assert forall|i: int, j: int| 0 <= i < j < all.len() implies #[trigger] all[i]
            < #[trigger] all[j] by {
            if j < kept.len() {
                assert(kept[i] < kept[j]);
            } else {
                assert(kept.contains(kept[i]));
                let k = front.index_of(kept[i]);
                assert(s[k] < s[s.len() - 1]);
            }
        }
    }
}

/// A held event of the entity that readers of its lane see is replayed for several
/// projections exactly where one of them names its kind or names none.
pub proof fn law_fused_plan_is_complete(
    index: &StoreIndex,
    entity: &str,
    slices: &[&[EventKind]],
    plan: Option<ProjectionReplayPlan>,
    id: u128,
)
    requires
        index.coherent(),
        slices@.len() > 0,
        call_ensures(fused_plan, (index, entity, slices), plan),
        index.by_id.entries().contains_key(id),
    ensures
        ({
            let x = index.by_id.entries()[id];
            let wanted = x.coord.entity_spec() == entity@ && exists|i: int|
                0 <= i < slices@.len() && ((#[trigger] slices@[i])@.len() == 0
                    || slices@[i]@.contains(x.kind));
            let seen = index.sequence@.lanes.contains_key(x.dag_lane) && x.global_sequence
                    < index.sequence@.lanes[x.dag_lane] && (forall|k: int|
                    #![trigger index.sequence@.cancelled[k]]
                    0 <= k < index.sequence@.cancelled.len() ==> !(index.sequence@.cancelled[k].0
                        <= x.global_sequence && x.global_sequence
                        < index.sequence@.cancelled[k].1)) && (
                index.sequence@.lane_cancelled.contains_key(x.dag_lane) ==> forall|k: int|
                    #![trigger index.sequence@.lane_cancelled[x.dag_lane][k]]
                    0 <= k < index.sequence@.lane_cancelled[x.dag_lane].len() ==> !(
                    index.sequence@.lane_cancelled[x.dag_lane][k].0 <= x.global_sequence
                        && x.global_sequence < index.sequence@.lane_cancelled[x.dag_lane][k].1));
            &&& wanted ==> plan is Some
            &&& wanted && seen ==> exists|j: int|
                0 <= j < plan->0.items@.len() && (#[trigger] plan->0.items@[j]).global_sequence
                    == x.global_sequence && plan->0.items@[j].lane == x.dag_lane
                    && plan->0.items@[j].point.wall_ms == x.wall_ms
                    && plan->0.items@[j].disk_pos == x.disk_pos
        }),
{
    let x = index.by_id.entries()[id];
    let parts = parts_of(slices@);
    let kinds = fused_kinds(parts);
    assert forall|i: int| 0 <= i < slices@.len() implies parts[i] == (#[trigger] slices@[i])@ by {}
    crate::index::projection_bridge::law_plan_replays_the_relevant_events(
        index,
        entity@,
        kinds,
        plan,
    );
    crate::index::projection_bridge::lemma_seen_on_lane(index, x);
    law_fusion_consumes_the_union(parts, x.kind);
    assert(index.holds(x));
    if exists|i: int|
        0 <= i < slices@.len() && ((#[trigger] slices@[i])@.len() == 0 || slices@[i]@.contains(
            x.kind,
        )) {
        let i = choose|i: int|
            0 <= i < slices@.len() && ((#[trigger] slices@[i])@.len() == 0 || slices@[i]@.contains(
                x.kind,
            ));
        assert(crate::index::groups::relevant(parts[i], x.kind));
    }
    if index.replays(entity@, kinds, x) {
        let item = crate::index::projection_bridge::item_of(&x);
        assert(plan->0.items@.contains(item));
        let j = choose|j: int| 0 <= j < plan->0.items@.len() && plan->0.items@[j] == item;
        assert(plan->0.items@[j].global_sequence == x.global_sequence);
    }
}

} // verus!
