//! How far each projection has come, and how far the slowest of them has.

use crate::hlc::HlcPoint;
use crate::text::str_equal;
use vstd::prelude::*;

verus! {

/// How far one projection has come, over all lanes or on one of them.
struct ProgressRow {
    projection: String,
    lane: Option<u32>,
    point: HlcPoint,
}

/// How far projections have come, by name, over all lanes (`None`) and on each.
pub struct ProjectionRegistry {
    rows: Vec<ProgressRow>,
}

/// Whose progress, and where.
pub type ProgressKey = (Seq<char>, Option<u32>);

spec fn key_of(row: ProgressRow) -> ProgressKey {
    (row.projection@, row.lane)
}

spec fn rows_unique(rows: Seq<ProgressRow>) -> bool {
    forall|i: int, j: int|
        #![trigger rows[i], rows[j]]
        0 <= i < j < rows.len() ==> key_of(rows[i]) != key_of(rows[j])
}

spec fn rows_map(rows: Seq<ProgressRow>) -> Map<ProgressKey, HlcPoint>
    decreases rows.len(),
{
    if rows.len() == 0 {
        Map::empty()
    } else {
        rows_map(rows.drop_last()).insert(key_of(rows.last()), rows.last().point)
    }
}

/// `point` is how far the slowest projection on a lane has come: some
/// projection is there, and none is behind it.
pub open spec fn is_slowest(
    progress: Map<ProgressKey, HlcPoint>,
    lane: Option<u32>,
    point: Option<HlcPoint>,
) -> bool {
    match point {
        Some(point) => {
            &&& exists|projection: Seq<char>|
                #![trigger progress.contains_key((projection, lane))]
                progress.contains_key((projection, lane)) && progress[(projection, lane)] == point
            &&& forall|projection: Seq<char>|
                #![trigger progress.contains_key((projection, lane))]
                progress.contains_key((projection, lane)) ==> point.global_sequence
                    <= progress[(projection, lane)].global_sequence
        },
        None => forall|projection: Seq<char>|
            #![trigger progress.contains_key((projection, lane))]
            !progress.contains_key((projection, lane)),
    }
}

/// Progress after a projection was seen at a point, with `start` as where it
/// was if it was not known.
pub open spec fn advanced(
    progress: Map<ProgressKey, HlcPoint>,
    key: ProgressKey,
    start: HlcPoint,
    point: HlcPoint,
) -> Map<ProgressKey, HlcPoint> {
    let before = if progress.contains_key(key) {
        progress[key]
    } else {
        start
    };
    progress.insert(key, before.max_by_sequence_spec(point))
}

proof fn lemma_rows_map(rows: Seq<ProgressRow>)
    requires
        rows_unique(rows),
    ensures
        forall|i: int|
            #![trigger rows[i]]
            0 <= i < rows.len() ==> rows_map(rows).contains_key(key_of(rows[i])) && rows_map(
                rows,
            )[key_of(rows[i])] == rows[i].point,
        forall|key: ProgressKey| #[trigger]
            rows_map(rows).contains_key(key) ==> exists|i: int|
                0 <= i < rows.len() && key_of(#[trigger] rows[i]) == key,
    decreases rows.len(),
{
    if rows.len() > 0 {
        let front = rows.drop_last();
        assert forall|i: int, j: int|
            #![trigger front[i], front[j]]
            0 <= i < j < front.len() implies key_of(front[i]) != key_of(front[j]) by {
            assert(rows[i] == front[i] && rows[j] == front[j]);
        }
        lemma_rows_map(front);
        let last = rows.len() - 1;
        assert forall|i: int|
            #![trigger rows[i]]
            0 <= i < rows.len() implies rows_map(rows).contains_key(key_of(rows[i])) && rows_map(
            rows,
        )[key_of(rows[i])] == rows[i].point by {
            if i < last {
                assert(front[i] == rows[i]);
                assert(key_of(rows[i]) != key_of(rows[last]));
            }
        }
        assert forall|key: ProgressKey| #[trigger] rows_map(rows).contains_key(key) implies exists|
            i: int,
        |
            0 <= i < rows.len() && key_of(#[trigger] rows[i]) == key by {
            if key == key_of(rows.last()) {
                assert(key_of(rows[last]) == key);
            } else {
                assert(rows_map(front).contains_key(key));
                let i = choose|i: int| 0 <= i < front.len() && key_of(#[trigger] front[i]) == key;
                assert(key_of(rows[i]) == key);
            }
        }
    }
}

/// The rows hold a map where each row does and nothing else is in it.
proof fn lemma_map_is(rows: Seq<ProgressRow>, map: Map<ProgressKey, HlcPoint>)
    requires
        rows_unique(rows),
        forall|i: int|
            #![trigger rows[i]]
            0 <= i < rows.len() ==> map.contains_key(key_of(rows[i])) && map[key_of(rows[i])]
                == rows[i].point,
        forall|key: ProgressKey| #[trigger]
            map.contains_key(key) ==> exists|i: int|
                0 <= i < rows.len() && key_of(#[trigger] rows[i]) == key,
    ensures
        rows_map(rows) == map,
{
    lemma_rows_map(rows);
    assert forall|key: ProgressKey|
        rows_map(rows).contains_key(key) == map.contains_key(key) && (map.contains_key(key)
            ==> rows_map(rows)[key] == map[key]) by {
        if map.contains_key(key) {
            let i = choose|i: int| 0 <= i < rows.len() && key_of(#[trigger] rows[i]) == key;
            assert(rows_map(rows).contains_key(key_of(rows[i])));
        }
        if rows_map(rows).contains_key(key) {
            let i = choose|i: int| 0 <= i < rows.len() && key_of(#[trigger] rows[i]) == key;
            assert(map.contains_key(key_of(rows[i])));
        }
    }
    assert(rows_map(rows) =~= map);
}

impl ProjectionRegistry {
    /// How far projections have come.
    pub closed spec fn progress(&self) -> Map<ProgressKey, HlcPoint> {
        rows_map(self.rows@)
    }

    /// No progress is kept twice.
    pub closed spec fn wf(&self) -> bool {
        rows_unique(self.rows@)
    }

    /// No projections.
    pub fn new() -> (r: ProjectionRegistry)
        ensures
            r.wf(),
            r.progress() == Map::<ProgressKey, HlcPoint>::empty(),
    {
        ProjectionRegistry { rows: Vec::new() }
    }

    /// The name of a projection of an entity: the name of its type, a colon and
    /// the entity.
    pub fn id_for_type(projection_type: &str, entity: &str) -> (id: String)
        ensures
            id@ == projection_type@ + ":"@ + entity@,
    {
        let mut id = projection_type.to_owned();
        id.append(":");
        id.append(entity);
        id
    }

    fn find(&self, projection: &str, lane: Option<u32>) -> (r: Option<usize>)
        requires
            self.wf(),
        ensures
            match r {
                Some(i) => i < self.rows@.len() && key_of(self.rows@[i as int]) == (
                    projection@,
                    lane,
                ),
                None => !self.progress().contains_key((projection@, lane)) && forall|i: int|
                    #![trigger self.rows@[i]]
                    0 <= i < self.rows@.len() ==> key_of(self.rows@[i]) != (projection@, lane),
            },
    {
        let mut i: usize = 0;
        while i < self.rows.len()
            invariant
                i <= self.rows@.len(),
                forall|k: int|
                    #![trigger self.rows@[k]]
                    0 <= k < i ==> key_of(self.rows@[k]) != (projection@, lane),
            decreases self.rows@.len() - i,
        {
            let here = match (self.rows[i].lane, lane) {
                (Some(a), Some(b)) => a == b,
                (None, None) => true,
                _ => false,
            };
            if here && str_equal(self.rows[i].projection.as_str(), projection) {
                return Some(i);
            }
            i += 1;
        }
        proof {
            lemma_rows_map(self.rows@);
        }
        None
    }

    /// Notes a projection at a point, from `start` where it is not known.
    fn advance(&mut self, projection: &str, lane: Option<u32>, start: HlcPoint, point: HlcPoint)
        requires
            old(self).wf(),
        ensures
            final(self).wf(),
            final(self).progress() == advanced(
                old(self).progress(),
                (projection@, lane),
                start,
                point,
            ),
    {
        let ghost before = self.rows@;
        let ghost key = (projection@, lane);
        let ghost goal = advanced(self.progress(), key, start, point);
        proof {
            lemma_rows_map(before);
        }
        match self.find(projection, lane) {
            Some(i) => {
                let grown = self.rows[i].point.max_by_sequence(point);
                let row = ProgressRow { projection: projection.to_owned(), lane, point: grown };
                self.rows.set(i, row);
                proof {
                    let after = self.rows@;
                    assert(key_of(before[i as int]) == key);
                    assert forall|a: int, b: int|
                        #![trigger after[a], after[b]]
                        0 <= a < b < after.len() implies key_of(after[a]) != key_of(after[b]) by {
                        assert(key_of(before[a]) != key_of(before[b]));
                        assert(key_of(after[a]) == key_of(before[a]));
                        assert(key_of(after[b]) == key_of(before[b]));
                    }
                    assert forall|k: int|
                        #![trigger after[k]]
                        0 <= k < after.len() implies goal.contains_key(key_of(after[k]))
                        && goal[key_of(after[k])] == after[k].point by {
                        if k != i {
                            assert(after[k] == before[k]);
                            if k < i {
                                assert(key_of(before[k]) != key_of(before[i as int]));
                            } else {
                                assert(key_of(before[i as int]) != key_of(before[k]));
                            }
                        }
                    }
                    assert forall|q: ProgressKey| #[trigger] goal.contains_key(q) implies exists|
                        k: int,
                    |
                        0 <= k < after.len() && key_of(#[trigger] after[k]) == q by {
                        if q == key {
                            assert(key_of(after[i as int]) == q);
                        } else {
                            let k = choose|k: int|
                                0 <= k < before.len() && key_of(#[trigger] before[k]) == q;
                            assert(key_of(after[k]) == q);
                        }
                    }
                    lemma_map_is(after, goal);
                }
            },
            None => {
                let row = ProgressRow {
                    projection: projection.to_owned(),
                    lane,
                    point: start.max_by_sequence(point),
                };
                self.rows.push(row);
                proof {
                    let after = self.rows@;
                    assert(after.drop_last() =~= before);
                    assert forall|a: int, b: int|
                        #![trigger after[a], after[b]]
                        0 <= a < b < after.len() implies key_of(after[a]) != key_of(after[b]) by {
                        assert(after[a] == before[a]);
                        if b < before.len() {
                            assert(after[b] == before[b]);
                        }
                    }
                }
            },
        }
    }

    /// How far the slowest projection on a lane has come.
    pub fn slowest(&self, lane: Option<u32>) -> (r: Option<HlcPoint>)
        requires
            self.wf(),
        ensures
            is_slowest(self.progress(), lane, r),
    {
        let ghost map = self.progress();
        proof {
            lemma_rows_map(self.rows@);
        }
        let mut slowest: Option<HlcPoint> = None;
        let mut i: usize = 0;
        while i < self.rows.len()
            invariant
                i <= self.rows@.len(),
                match slowest {
                    Some(point) => {
                        &&& exists|k: int|
                            0 <= k < i && (#[trigger] self.rows@[k]).lane == lane
                                && self.rows@[k].point == point
                        &&& forall|k: int|
                            #![trigger self.rows@[k]]
                            0 <= k < i && self.rows@[k].lane == lane ==> point.global_sequence
                                <= self.rows@[k].point.global_sequence
                    },
                    None => forall|k: int|
                        #![trigger self.rows@[k]]
                        0 <= k < i ==> self.rows@[k].lane != lane,
                },
            decreases self.rows@.len() - i,
        {
            let here = match (self.rows[i].lane, lane) {
                (Some(a), Some(b)) => a == b,
                (None, None) => true,
                _ => false,
            };
            if here {
                let point = self.rows[i].point;
                assert(self.rows@[i as int].lane == lane);
                slowest =
                match slowest {
                    Some(so_far) => Some(so_far.min_by_sequence(point)),
                    None => Some(point),
                };
            }
            i += 1;
        }
        proof {
            assert forall|projection: Seq<char>|
                #![trigger map.contains_key((projection, lane))]
                map.contains_key((projection, lane)) implies (slowest matches Some(point)
                && point.global_sequence <= map[(projection, lane)].global_sequence) by {
                let k = choose|k: int|
                    0 <= k < self.rows@.len() && key_of(#[trigger] self.rows@[k]) == (
                        projection,
                        lane,
                    );
                assert(self.rows@[k].lane == lane);
            }
            if let Some(point) = slowest {
                let k = choose|k: int|
                    0 <= k < self.rows@.len() && (#[trigger] self.rows@[k]).lane == lane
                        && self.rows@[k].point == point;
                let name = self.rows@[k].projection@;
                assert(key_of(self.rows@[k]) == (name, lane));
                assert(map.contains_key((name, lane)));
            }
        }
        slowest
    }

    /// Registers a projection, from the applied frontier where it is not known.
    /// The answer is the new applied frontier.
    pub fn register(&mut self, projection: &str, current_applied: HlcPoint) -> (r: Option<HlcPoint>)
        requires
            old(self).wf(),
        ensures
            final(self).wf(),
            final(self).progress() == (if old(self).progress().contains_key((projection@, None)) {
                old(self).progress()
            } else {
                old(self).progress().insert((projection@, None), current_applied)
            }),
            is_slowest(final(self).progress(), None, r),
    {
        match self.find(projection, None) {
            Some(i) => {
                proof {
                    lemma_rows_map(self.rows@);
                    assert(self.progress().contains_key(key_of(self.rows@[i as int])));
                }
            },
            None => {
                self.advance(projection, None, current_applied, current_applied);
            },
        }
        self.slowest(None)
    }

    /// Notes that a projection has applied everything up to a point. The answer
    /// is the new applied frontier.
    pub fn notify_applied(&mut self, projection: &str, point: HlcPoint) -> (r: Option<HlcPoint>)
        requires
            old(self).wf(),
        ensures
            final(self).wf(),
            final(self).progress() == advanced(
                old(self).progress(),
                (projection@, None),
                point,
                point,
            ),
            is_slowest(final(self).progress(), None, r),
    {
        self.advance(projection, None, point, point);
        self.slowest(None)
    }

    /// Notes that a projection has applied everything on a lane up to a point.
    /// A projection that is not known starts from the applied frontiers. The
    /// answer is the new applied frontier, over all lanes and on this one.
    pub fn notify_applied_on_lane(
        &mut self,
        projection: &str,
        lane: u32,
        point: HlcPoint,
        current_applied: HlcPoint,
        current_lane_applied: Option<HlcPoint>,
    ) -> (r: (Option<HlcPoint>, Option<HlcPoint>))
        requires
            old(self).wf(),
        ensures
            final(self).wf(),
            final(self).progress() == advanced(
                advanced(old(self).progress(), (projection@, None), current_applied, point),
                (projection@, Some(lane)),
                match current_lane_applied {
                    Some(applied) => applied,
                    None => (HlcPoint { wall_ms: 0, global_sequence: 0 }),
                },
                point,
            ),
            is_slowest(final(self).progress(), None, r.0),
            is_slowest(final(self).progress(), Some(lane), r.1),
    {
        let lane_start = match current_lane_applied {
            Some(applied) => applied,
            None => HlcPoint::origin(),
        };
        self.advance(projection, None, current_applied, point);
        self.advance(projection, Some(lane), lane_start, point);
        (self.slowest(None), self.slowest(Some(lane)))
    }

    /// Forgets a projection and its progress on every lane. The answer is the
    /// new applied frontier.
    pub fn unregister(&mut self, projection: &str) -> (r: Option<HlcPoint>)
        requires
            old(self).wf(),
        ensures
            final(self).wf(),
            final(self).progress() == old(self).progress().remove_keys(
                Set::new(|key: ProgressKey| key.0 == projection@),
            ),
            is_slowest(final(self).progress(), None, r),
    {
        let ghost before = self.rows@;
        let ghost keep = |row: ProgressRow| row.projection@ != projection@;
        let mut kept: Vec<ProgressRow> = Vec::new();
        reveal(Seq::filter);
        let mut i: usize = 0;
        while i < self.rows.len()
            invariant
                self.rows@ == before,
                i <= before.len(),
                keep == |row: ProgressRow| row.projection@ != projection@,
                kept@ == before.take(i as int).filter(keep),
            decreases before.len() - i,
        {
            reveal(Seq::filter);
            assert(before.take(i + 1).drop_last() =~= before.take(i as int));
            let row = &self.rows[i];
            if !str_equal(row.projection.as_str(), projection) {
                kept.push(
                    ProgressRow {
                        projection: row.projection.clone(),
                        lane: row.lane,
                        point: row.point,
                    },
                );
                assert(kept@.last() == *row);
            }
            i += 1;
        }
        proof {
            assert(before.take(before.len() as int) =~= before);
            let name = projection@;
            lemma_kept(before, name);
            assert(keep =~= (|row: ProgressRow| row.projection@ != name));
        }
        self.rows = kept;
        self.slowest(None)
    }
}

/// Dropping the rows of a projection drops its progress and nothing else.
proof fn lemma_kept(rows: Seq<ProgressRow>, projection: Seq<char>)
    requires
        rows_unique(rows),
    ensures
        rows_unique(rows.filter(|row: ProgressRow| row.projection@ != projection)),
        rows_map(rows.filter(|row: ProgressRow| row.projection@ != projection)) == rows_map(
            rows,
        ).remove_keys(Set::new(|key: ProgressKey| key.0 == projection)),
    decreases rows.len(),
{
    reveal(Seq::filter);
    let keep = |row: ProgressRow| row.projection@ != projection;
    let gone = Set::new(|key: ProgressKey| key.0 == projection);
    if rows.len() == 0 {
        assert(rows_map(rows.filter(keep)) =~= rows_map(rows).remove_keys(gone));
    } else {
        let front = rows.drop_last();
        let last = rows.last();
        assert forall|i: int, j: int|
            #![trigger front[i], front[j]]
            0 <= i < j < front.len() implies key_of(front[i]) != key_of(front[j]) by {
            assert(rows[i] == front[i] && rows[j] == front[j]);
        }
        lemma_kept(front, projection);
        let before = front.filter(keep);
        if keep(last) {
            let after = before.push(last);
            assert(after.drop_last() =~= before);
            lemma_rows_map(front);
            lemma_rows_map(before);
            assert(!rows_map(front).contains_key(key_of(last))) by {
                if rows_map(front).contains_key(key_of(last)) {
                    let i = choose|i: int|
                        0 <= i < front.len() && key_of(#[trigger] front[i]) == key_of(last);
                    assert(rows[i] == front[i]);
                    assert(rows[rows.len() - 1] == last);
                    assert(key_of(rows[i]) != key_of(rows[rows.len() - 1]));
                }
            }
            assert forall|i: int, j: int|
                #![trigger after[i], after[j]]
                0 <= i < j < after.len() implies key_of(after[i]) != key_of(after[j]) by {
                assert(after[i] == before[i]);
                if j < before.len() {
                    assert(after[j] == before[j]);
                } else {
                    assert(rows_map(before).contains_key(key_of(before[i])));
                }
            }
        }
        assert(rows_map(rows.filter(keep)) =~= rows_map(rows).remove_keys(gone));
    }
}

/// A projection that reports on a lane for the first time, from the frontier
/// that was applied there, never takes that frontier back.
pub proof fn law_first_report_never_regresses(
    progress: Map<ProgressKey, HlcPoint>,
    projection: Seq<char>,
    lane: Option<u32>,
    applied: HlcPoint,
    point: HlcPoint,
    slowest: Option<HlcPoint>,
)
    requires
        !progress.contains_key((projection, lane)),
        forall|other: Seq<char>|
            #![trigger progress.contains_key((other, lane))]
            progress.contains_key((other, lane)) ==> applied.global_sequence
                <= progress[(other, lane)].global_sequence,
        is_slowest(advanced(progress, (projection, lane), applied, point), lane, slowest),
    ensures
        slowest matches Some(frontier) && applied.global_sequence <= frontier.global_sequence,
{
    let after = advanced(progress, (projection, lane), applied, point);
    assert(after.contains_key((projection, lane)));
    if let Some(frontier) = slowest {
        let name = choose|name: Seq<char>|
            #![trigger after.contains_key((name, lane))]
            after.contains_key((name, lane)) && after[(name, lane)] == frontier;
        if name != projection {
            assert(progress.contains_key((name, lane)));
        }
    }
}

/// Reports never take a projection back: on every lane of every projection the
/// sequence after a report is at least the sequence before it.
pub proof fn law_progress_never_regresses(
    progress: Map<ProgressKey, HlcPoint>,
    key: ProgressKey,
    start: HlcPoint,
    point: HlcPoint,
    other: ProgressKey,
)
    requires
        progress.contains_key(other),
    ensures
        advanced(progress, key, start, point).contains_key(other),
        progress[other].global_sequence <= advanced(progress, key, start, point)[other].global_sequence,
{
}

/// After a report a projection stands at the point that was reported, or stays where it
/// was, or where it starts from, where that has no smaller sequence. Nothing else
/// changes.
pub proof fn law_report_moves_one_projection(
    progress: Map<ProgressKey, HlcPoint>,
    key: ProgressKey,
    start: HlcPoint,
    point: HlcPoint,
    other: ProgressKey,
)
    ensures
        ({
            let after = advanced(progress, key, start, point);
            &&& after.contains_key(key)
            &&& progress.contains_key(key) && point.global_sequence > progress[key].global_sequence
                ==> after[key] == point
            &&& progress.contains_key(key) && point.global_sequence
                <= progress[key].global_sequence ==> after[key] == progress[key]
            &&& !progress.contains_key(key) && point.global_sequence > start.global_sequence
                ==> after[key] == point
            &&& !progress.contains_key(key) && point.global_sequence <= start.global_sequence
                ==> after[key] == start
            &&& other != key ==> (after.contains_key(other) <==> progress.contains_key(other)) && (
            progress.contains_key(other) ==> after[other] == progress[other])
        }),
{
}

/// The slowest projection on a lane is one of those that are there, and no other is
/// behind it; there is none exactly where no projection is on the lane.
pub proof fn law_nobody_is_behind_the_slowest(
    registry: &ProjectionRegistry,
    lane: Option<u32>,
    r: Option<HlcPoint>,
    projection: Seq<char>,
)
    requires
        registry.wf(),
        call_ensures(ProjectionRegistry::slowest, (registry, lane), r),
    ensures
        registry.progress().contains_key((projection, lane)) ==> r is Some
            && r->0.global_sequence <= registry.progress()[(projection, lane)].global_sequence,
        r is Some ==> exists|name: Seq<char>|
            #![trigger registry.progress().contains_key((name, lane))]
            registry.progress().contains_key((name, lane)) && registry.progress()[(name, lane)]
                == r->0,
{
}

} // verus!
