//! How far the events of some lanes reach.

use crate::hlc::HlcPoint;
use vstd::prelude::*;

verus! {

/// Per lane, of the points that were noted on it, the one with the greatest
/// sequence: the earliest noted where several are equal.
pub open spec fn reach(noted: Seq<(u32, HlcPoint)>) -> Map<u32, HlcPoint>
    decreases noted.len(),
{
    if noted.len() == 0 {
        Map::empty()
    } else {
        let before = reach(noted.drop_last());
        let (lane, point) = noted.last();
        before.insert(
            lane,
            if before.contains_key(lane) {
                before[lane].max_by_sequence_spec(point)
            } else {
                point
            },
        )
    }
}

/// The rows list a map, in ascending order of lanes.
pub open spec fn lists(rows: Seq<(u32, HlcPoint)>, map: Map<u32, HlcPoint>) -> bool {
    &&& forall|i: int, j: int|
        #![trigger rows[i], rows[j]]
        0 <= i < j < rows.len() ==> rows[i].0 < rows[j].0
    &&& forall|i: int|
        #![trigger rows[i]]
        0 <= i < rows.len() ==> map.contains_key(rows[i].0) && map[rows[i].0] == rows[i].1
    &&& forall|lane: u32| #[trigger]
        map.contains_key(lane) ==> exists|i: int|
            0 <= i < rows.len() && (#[trigger] rows[i]).0 == lane
}

/// How far lanes reach.
pub struct LaneReach {
    rows: Vec<(u32, HlcPoint)>,
    noted: Ghost<Seq<(u32, HlcPoint)>>,
}

impl LaneReach {
    /// What was noted.
    pub closed spec fn noted(&self) -> Seq<(u32, HlcPoint)> {
        self.noted@
    }

    /// The rows list how far the noted points reach.
    pub closed spec fn wf(&self) -> bool {
        lists(self.rows@, reach(self.noted@))
    }

    /// Nothing noted.
    pub fn new() -> (r: LaneReach)
        ensures
            r.wf(),
            r.noted() == Seq::<(u32, HlcPoint)>::empty(),
    {
        LaneReach { rows: Vec::new(), noted: Ghost(Seq::empty()) }
    }

    /// Notes a point on a lane.
    pub fn note(&mut self, lane: u32, point: HlcPoint)
        requires
            old(self).wf(),
        ensures
            final(self).wf(),
            final(self).noted() == old(self).noted().push((lane, point)),
    {
        let ghost map = reach(self.noted@);
        let ghost noted = self.noted@.push((lane, point));
        proof {
            assert(noted.drop_last() =~= self.noted@);
        }
        let mut at: usize = 0;
        while at < self.rows.len() && self.rows[at].0 < lane
            invariant
                at <= self.rows.len(),
                lists(self.rows@, map),
                forall|i: int|
                    #![trigger self.rows@[i]]
                    0 <= i < at ==> self.rows@[i].0 < lane,
            decreases self.rows.len() - at,
        {
            at = at + 1;
        }
        let ghost before = self.rows@;
        if at < self.rows.len() && self.rows[at].0 == lane {
            let grown = self.rows[at].1.max_by_sequence(point);
            self.rows.set(at, (lane, grown));
            proof {
                assert(map.contains_key(before[at as int].0));
                let after = self.rows@;
                assert(reach(noted) == map.insert(lane, grown));
                assert forall|l: u32| #[trigger] reach(noted).contains_key(l) implies exists|i: int|
                    0 <= i < after.len() && (#[trigger] after[i]).0 == l by {
                    if l == lane {
                        assert(after[at as int].0 == l);
                    } else {
                        assert(map.contains_key(l));
                        let i = choose|i: int|
                            0 <= i < before.len() && (#[trigger] before[i]).0 == l;
                        assert(after[i].0 == l);
                    }
                }
            }
        } else {
            self.rows.insert(at, (lane, point));
            proof {
                assert(!map.contains_key(lane)) by {
                    if map.contains_key(lane) {
                        let i = choose|i: int|
                            0 <= i < before.len() && (#[trigger] before[i]).0 == lane;
                        if at < i {
                            assert(before[at as int].0 < before[i].0);
                        }
                        assert(false);
                    }
                }
                let after = self.rows@;
                assert(after == before.insert(at as int, (lane, point)));
                assert(reach(noted) == map.insert(lane, point));
                assert forall|i: int|
                    #![trigger after[i]]
                    0 <= i < after.len() implies reach(noted).contains_key(after[i].0)
                    && reach(noted)[after[i].0] == after[i].1 by {
                    if i < at {
                        assert(after[i] == before[i]);
                    } else if i > at {
                        assert(after[i] == before[i - 1]);
                    }
                }
                assert forall|i: int, j: int|
                    #![trigger after[i], after[j]]
                    0 <= i < j < after.len() implies after[i].0 < after[j].0 by {
                    if i < at && j < at {
                        assert(before[i].0 < before[j].0);
                    } else if i < at && j == at {
                        assert(before[i].0 < lane);
                    } else if i < at {
                        assert(before[i].0 < before[j - 1].0);
                    } else if i == at {
                        assert(before[at as int].0 > lane);
                        if j - 1 > at {
                            assert(before[at as int].0 < before[j - 1].0);
                        }
                    } else {
                        assert(before[i - 1].0 < before[j - 1].0);
                    }
                }
                assert forall|l: u32| #[trigger] reach(noted).contains_key(l) implies exists|i: int|
                    0 <= i < after.len() && (#[trigger] after[i]).0 == l by {
                    if l == lane {
                        assert(after[at as int].0 == l);
                    } else {
                        assert(map.contains_key(l));
                        let i = choose|i: int|
                            0 <= i < before.len() && (#[trigger] before[i]).0 == l;
                        if i < at {
                            assert(after[i].0 == l);
                        } else {
                            assert(after[i + 1].0 == l);
                        }
                    }
                }
            }
        }
        self.noted = Ghost(noted);
    }

    /// The lanes in ascending order, each with how far it reaches.
    pub fn into_rows(self) -> (rows: Vec<(u32, HlcPoint)>)
        requires
            self.wf(),
        ensures
            lists(rows@, reach(self.noted())),
    {
        self.rows
    }
}

/// On every lane, the point it reaches was noted on it, and no point that was
/// noted on it has a greater sequence; lanes on which nothing was noted reach
/// nowhere.
pub proof fn law_reach_is_greatest(noted: Seq<(u32, HlcPoint)>, lane: u32)
    ensures
        reach(noted).contains_key(lane) <==> exists|i: int|
            0 <= i < noted.len() && (#[trigger] noted[i]).0 == lane,
        reach(noted).contains_key(lane) ==> noted.contains((lane, reach(noted)[lane])),
        reach(noted).contains_key(lane) ==> forall|i: int|
            0 <= i < noted.len() && (#[trigger] noted[i]).0 == lane ==> noted[i].1.global_sequence
                <= reach(noted)[lane].global_sequence,
    decreases noted.len(),
{
    if noted.len() > 0 {
        let front = noted.drop_last();
        law_reach_is_greatest(front, lane);
        let last = noted.len() - 1;
        assert(forall|i: int| 0 <= i < last ==> front[i] == #[trigger] noted[i]);
        if reach(front).contains_key(lane) {
            let i = choose|i: int| 0 <= i < front.len() && (#[trigger] front[i]).0 == lane;
            assert(noted[i].0 == lane);
            let w = choose|w: int|
                0 <= w < front.len() && front[w] == (lane, reach(front)[lane]);
            assert(noted[w] == front[w]);
        }
        if noted.last().0 == lane {
            assert(noted[last].0 == lane);
        }
        if reach(noted).contains_key(lane) {
            if noted.last().0 == lane && reach(noted)[lane] == noted.last().1 {
                assert(noted[last] == (lane, reach(noted)[lane]));
            } else {
                let w = choose|w: int|
                    0 <= w < front.len() && front[w] == (lane, reach(front)[lane]);
                assert(noted[w] == (lane, reach(noted)[lane]));
            }
        }
        if exists|i: int| 0 <= i < noted.len() && (#[trigger] noted[i]).0 == lane {
            let i = choose|i: int| 0 <= i < noted.len() && (#[trigger] noted[i]).0 == lane;
            if i < last {
                assert(front[i].0 == lane);
            }
        }
    }
}

/// The point that a lane reaches is the first that was noted of those with the
/// greatest sequence.
proof fn lemma_reach_is_first(noted: Seq<(u32, HlcPoint)>, lane: u32) -> (at: int)
    requires
        reach(noted).contains_key(lane),
    ensures
        0 <= at < noted.len(),
        noted[at] == (lane, reach(noted)[lane]),
        forall|j: int|
            0 <= j < at && (#[trigger] noted[j]).0 == lane ==> noted[j].1.global_sequence
                < reach(noted)[lane].global_sequence,
        forall|j: int|
            0 <= j < noted.len() && (#[trigger] noted[j]).0 == lane ==> noted[j].1.global_sequence
                <= reach(noted)[lane].global_sequence,
    decreases noted.len(),
{
    let front = noted.drop_last();
    let last = noted.len() - 1;
    law_reach_is_greatest(noted, lane);
    assert(forall|j: int| 0 <= j < last ==> front[j] == #[trigger] noted[j]);
    if reach(front).contains_key(lane) && (noted.last().0 != lane
        || noted.last().1.global_sequence <= reach(front)[lane].global_sequence) {
        lemma_reach_is_first(front, lane)
    } else {
        law_reach_is_greatest(front, lane);
        assert forall|j: int| 0 <= j < last && (#[trigger] noted[j]).0 == lane implies noted[
            j
        ].1.global_sequence < reach(noted)[lane].global_sequence by {
            assert(front[j].0 == lane);
        }
        last
    }
}

/// Every lane on which a point was noted has one row, and no other lane has one. The
/// rows go by ascending lane. Each holds the first of the points with the greatest
/// sequence that were noted on its lane.
pub proof fn law_rows_tell_how_far_lanes_reach(
    lanes: LaneReach,
    rows: Vec<(u32, HlcPoint)>,
    i: int,
    k: int,
)
    requires
        lanes.wf(),
        call_ensures(LaneReach::into_rows, (lanes,), rows),
    ensures
        forall|a: int, b: int|
            #![trigger rows@[a], rows@[b]]
            0 <= a < b < rows@.len() ==> rows@[a].0 < rows@[b].0,
        0 <= k < lanes.noted().len() ==> exists|a: int|
            0 <= a < rows@.len() && (#[trigger] rows@[a]).0 == lanes.noted()[k].0
                && lanes.noted()[k].1.global_sequence <= rows@[a].1.global_sequence,
        0 <= i < rows@.len() ==> exists|at: int|
            0 <= at < lanes.noted().len() && #[trigger] lanes.noted()[at] == rows@[i] && forall|
                j: int,
            |
                0 <= j < at && (#[trigger] lanes.noted()[j]).0 == rows@[i].0
                    ==> lanes.noted()[j].1.global_sequence < rows@[i].1.global_sequence,
{
    let noted = lanes.noted();
    if 0 <= k < noted.len() {
        let lane = noted[k].0;
        law_reach_is_greatest(noted, lane);
        assert(reach(noted).contains_key(lane));
        let a = choose|a: int| 0 <= a < rows@.len() && (#[trigger] rows@[a]).0 == lane;
        assert(rows@[a].1 == reach(noted)[lane]);
    }
    if 0 <= i < rows@.len() {
        let at = lemma_reach_is_first(noted, rows@[i].0);
        assert(noted[at] == rows@[i]);
    }
}

} // verus!
