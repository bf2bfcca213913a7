//! The sequence gate: allocator, visibility bounds and visibility fences.

use super::visibility::{
    copy_ranges, insert_cancelled_range, insert_cancelled_ranges, merge_lane_ranges,
    range_contains,
};
use crate::error::StoreError;
use std::collections::BTreeMap;
use std::sync::Arc;
use vstd::prelude::*;

verus! {

broadcast use vstd::std_specs::btree::group_btree_axioms;

/// Coherent global and per-lane reader visibility bounds.
#[derive(Debug)]
struct PublishedVisibility {
    visible: u64,
    lane_visible: BTreeMap<u32, u64>,
}

/// Ranges that cancelled fences hide for good: over all lanes, and per lane.
#[derive(Clone, Debug)]
pub struct CancelledVisibilityRanges {
    /// Ranges hidden on every lane.
    pub global: Vec<(u64, u64)>,
    /// Ranges hidden on one lane.
    pub lanes: BTreeMap<u32, Vec<(u64, u64)>>,
}

/// What a sequence gate holds.
#[verifier::ext_equal]
pub struct GateState {
    /// Next sequence to be assigned.
    pub allocated: u64,
    /// Exclusive upper bound of what readers see.
    pub visible: u64,
    /// Exclusive upper bound of what readers see on each lane.
    pub lanes: Map<u32, u64>,
    /// Token of the active fence, or zero.
    pub fence: u64,
    /// Lowest sequence staged into the active fence, or `u64::MAX`.
    pub fence_start: u64,
    /// Exclusive upper bound of the sequences staged into the active fence.
    pub fence_end: u64,
    /// Next fence token.
    pub next_token: u64,
    /// Ranges hidden on every lane.
    pub cancelled: Seq<(u64, u64)>,
    /// Ranges hidden on one lane.
    pub lane_cancelled: Map<u32, Seq<(u64, u64)>>,
    /// Number of visibility changes so far.
    pub epoch: u64,
}

impl GateState {
    /// Hidden ranges are kept in normal form.
    pub open spec fn wf(&self) -> bool {
        &&& super::visibility::normalized(self.cancelled)
        &&& super::visibility::lanes_normalized(self.lane_cancelled)
    }

    /// The sequence gate of an empty index.
    pub open spec fn fresh(epoch: u64) -> GateState {
        GateState {
            allocated: 0,
            visible: 0,
            lanes: Map::empty(),
            fence: 0,
            fence_start: u64::MAX,
            fence_end: 0,
            next_token: 1,
            cancelled: Seq::empty(),
            lane_cancelled: Map::empty(),
            epoch,
        }
    }

    /// Visibility bound of a lane. A lane that was never published shows nothing.
    pub open spec fn lane_bound(&self, lane: u32) -> u64 {
        if self.lanes.contains_key(lane) {
            self.lanes[lane]
        } else {
            0
        }
    }

    /// Readers see a sequence: it is below the bound and not hidden.
    pub open spec fn sees(&self, sequence: u64) -> bool {
        sequence < self.visible && !super::visibility::covered(self.cancelled, sequence)
    }

    /// Readers of a lane see a sequence.
    pub open spec fn sees_on_lane(&self, sequence: u64, lane: u32) -> bool {
        &&& sequence < self.lane_bound(lane)
        &&& !super::visibility::covered(self.cancelled, sequence)
        &&& !super::visibility::covered(
            super::visibility::lane_ranges_of(self.lane_cancelled, lane),
            sequence,
        )
    }

    /// The global bound may move to `up_to`.
    pub open spec fn may_publish(&self, up_to: u64) -> bool {
        self.visible <= up_to <= self.allocated
    }

    /// The bound of a lane may move to `up_to`.
    pub open spec fn may_publish_lane(&self, lane: u32, up_to: u64) -> bool {
        self.lane_bound(lane) <= up_to <= self.allocated
    }

    /// Every lane bound of a request may be installed.
    pub open spec fn may_publish_lanes(&self, lanes: Seq<(u32, u64)>) -> bool {
        forall|i: int|
            0 <= i < lanes.len() ==> self.may_publish_lane((#[trigger] lanes[i]).0, lanes[i].1)
    }

    /// `e` is the refusal of a publish on lanes: it names the global bound where
    /// that is at fault, and else the first lane bound that is.
    pub open spec fn refuses(
        &self,
        up_to: u64,
        lanes: Seq<(u32, u64)>,
        operation: &'static str,
        e: StoreError,
    ) -> bool {
        if !self.may_publish(up_to) {
            e == (StoreError::SequenceGateViolation {
                operation,
                requested: up_to,
                allocated: self.allocated,
                visible: self.visible,
            })
        } else {
            exists|i: int|
                0 <= i < lanes.len() && !self.may_publish_lane(
                    (#[trigger] lanes[i]).0,
                    lanes[i].1,
                ) && self.may_publish_lanes(lanes.take(i)) && e
                    == (StoreError::SequenceGateViolation {
                    operation,
                    requested: lanes[i].1,
                    allocated: self.allocated,
                    visible: self.lane_bound(lanes[i].0),
                })
        }
    }

    /// The sequence gate after a publish of the global bound.
    pub open spec fn published(&self, up_to: u64) -> GateState {
        GateState { visible: up_to, epoch: next_count(self.epoch), ..*self }
    }

    /// The sequence gate after a publish of the global bound and some lane bounds.
    pub open spec fn published_on_lanes(
        &self,
        up_to: u64,
        lanes: Seq<(u32, u64)>,
    ) -> GateState {
        GateState {
            visible: up_to,
            lanes: installed(self.lanes, lanes),
            epoch: next_count(self.epoch),
            ..*self
        }
    }

    /// The range of the active fence, where it has staged anything.
    pub open spec fn fence_range(&self) -> Option<(u64, u64)> {
        if self.fence != 0 && self.fence_start != u64::MAX && self.fence_start
            < self.fence_end {
            Some((self.fence_start, self.fence_end))
        } else {
            None
        }
    }

    /// The sequence gate with no active fence.
    pub open spec fn without_fence(&self) -> GateState {
        GateState { fence: 0, fence_start: u64::MAX, fence_end: 0, ..*self }
    }

    /// The sequence gate after the active fence was cancelled.
    pub open spec fn fence_cancelled(
        &self,
        lane_ranges: Map<u32, Seq<(u64, u64)>>,
    ) -> GateState {
        GateState {
            cancelled: if self.fence_start != u64::MAX {
                super::visibility::with_range(self.cancelled, self.fence_start, self.fence_end)
            } else {
                self.cancelled
            },
            lane_cancelled: super::visibility::merged_lanes(self.lane_cancelled, lane_ranges),
            ..self.without_fence()
        }
    }
}

/// The count after `n`. Counters wrap around.
pub open spec fn next_count(n: u64) -> u64 {
    if n == u64::MAX {
        0
    } else {
        (n + 1) as u64
    }
}

/// `bounds` with the requested lane bounds installed, later requests last.
pub open spec fn installed(bounds: Map<u32, u64>, lanes: Seq<(u32, u64)>) -> Map<u32, u64>
    decreases lanes.len(),
{
    if lanes.len() == 0 {
        bounds
    } else {
        installed(bounds, lanes.drop_last()).insert(lanes.last().0, lanes.last().1)
    }
}

/// Visibility bounds and hidden ranges at one moment.
#[derive(Debug)]
pub struct VisibilitySnapshot {
    published: Arc<PublishedVisibility>,
    cancelled_ranges: Arc<Vec<(u64, u64)>>,
    lane_cancelled_ranges: Arc<BTreeMap<u32, Vec<(u64, u64)>>>,
}

impl VisibilitySnapshot {
    /// The snapshot shows what the state shows.
    pub closed spec fn shows(&self, state: GateState) -> bool {
        &&& self.published.visible == state.visible
        &&& self.published.lane_visible@ == state.lanes
        &&& self.cancelled_ranges@ == state.cancelled
        &&& super::visibility::lanes_view(self.lane_cancelled_ranges@) == state.lane_cancelled
    }

    /// Bound of the snapshot.
    pub closed spec fn bound(&self) -> u64 {
        self.published.visible
    }

    /// The snapshot shows a sequence.
    pub closed spec fn sees(&self, sequence: u64) -> bool {
        &&& sequence < self.published.visible
        &&& !super::visibility::covered(self.cancelled_ranges@, sequence)
    }

    /// The snapshot shows a sequence on a lane.
    pub closed spec fn sees_on_lane(&self, sequence: u64, lane: u32) -> bool {
        &&& self.published.lane_visible@.contains_key(lane)
        &&& sequence < self.published.lane_visible@[lane]
        &&& !super::visibility::covered(self.cancelled_ranges@, sequence)
        &&& self.lane_cancelled_ranges@.contains_key(lane) ==> !super::visibility::covered(
            self.lane_cancelled_ranges@[lane]@,
            sequence,
        )
    }

    /// A snapshot answers as the sequence gate that it was taken from.
    pub proof fn lemma_shows(&self, state: GateState)
        requires
            self.shows(state),
        ensures
            self.bound() == state.visible,
            forall|x: u64| #[trigger] self.sees(x) == state.sees(x),
            forall|x: u64, lane: u32| #[trigger]
                self.sees_on_lane(x, lane) == state.sees_on_lane(x, lane),
    {
        assert forall|x: u64, lane: u32| #[trigger] self.sees_on_lane(x, lane)
            == state.sees_on_lane(x, lane) by {
            assert(state.lane_cancelled.contains_key(lane)
                == self.lane_cancelled_ranges@.contains_key(lane));
            if state.lane_cancelled.contains_key(lane) {
                assert(state.lane_cancelled[lane] == self.lane_cancelled_ranges@[lane]@);
            } else {
                assert(!super::visibility::covered(Seq::<(u64, u64)>::empty(), x));
            }
        }
    }

    /// Whether the snapshot shows `sequence`.
    pub fn is_visible(&self, sequence: u64) -> (r: bool)
        ensures
            r == self.sees(sequence),
    {
        if sequence >= self.published.visible {
            return false;
        }
        !range_contains(&self.cancelled_ranges, sequence)
    }

    /// Whether the snapshot shows `sequence` on `lane`.
    pub fn is_visible_on_lane(&self, sequence: u64, lane: u32) -> (r: bool)
        ensures
            r == self.sees_on_lane(sequence, lane),
    {
        let visible: u64 = match self.published.lane_visible.get(&lane) {
            Some(bound) => *bound,
            None => 0,
        };
        if sequence >= visible {
            return false;
        }
        if range_contains(&self.cancelled_ranges, sequence) {
            return false;
        }
        match self.lane_cancelled_ranges.get(&lane) {
            Some(ranges) => !range_contains(ranges, sequence),
            None => true,
        }
    }

    /// Exclusive upper bound of the snapshot.
    pub fn visible_upper_bound(&self) -> (r: u64)
        ensures
            r == self.bound(),
    {
        self.published.visible
    }
}

/// Gated publish boundary for reader visibility.
///
/// Reserving sequences advances the allocator; publishing advances the bound
/// that readers filter against. A publish past the allocator, or below the
/// current bound, is refused.
#[derive(Debug)]
pub struct SequenceGate {
    allocated: u64,
    published: Arc<PublishedVisibility>,
    active_fence: u64,
    active_fence_start: u64,
    active_fence_end: u64,
    next_fence_token: u64,
    cancelled_ranges: Arc<Vec<(u64, u64)>>,
    lane_cancelled_ranges: Arc<BTreeMap<u32, Vec<(u64, u64)>>>,
    visibility_epoch: u64,
}

impl View for SequenceGate {
    type V = GateState;

    closed spec fn view(&self) -> GateState {
        GateState {
            allocated: self.allocated,
            visible: self.published.visible,
            lanes: self.published.lane_visible@,
            fence: self.active_fence,
            fence_start: self.active_fence_start,
            fence_end: self.active_fence_end,
            next_token: self.next_fence_token,
            cancelled: self.cancelled_ranges@,
            lane_cancelled: super::visibility::lanes_view(self.lane_cancelled_ranges@),
            epoch: self.visibility_epoch,
        }
    }
}

impl SequenceGate {
    /// A gate over an empty index.
    pub fn new() -> (gate: SequenceGate)
        ensures
            gate@ == GateState::fresh(0),
            gate@.wf(),
    {
        let gate = SequenceGate {
            allocated: 0,
            published: Arc::new(
                PublishedVisibility { visible: 0, lane_visible: BTreeMap::new() },
            ),
            active_fence: 0,
            active_fence_start: u64::MAX,
            active_fence_end: 0,
            next_fence_token: 1,
            cancelled_ranges: Arc::new(Vec::new()),
            lane_cancelled_ranges: Arc::new(BTreeMap::new()),
            visibility_epoch: 0,
        };
        assert(gate@ =~= GateState::fresh(0));
        gate
    }

    /// Number of visibility changes so far.
    pub fn visibility_epoch(&self) -> (r: u64)
        ensures
            r == self@.epoch,
    {
        self.visibility_epoch
    }

    fn signal_visibility_change(&mut self)
        ensures
            final(self)@ == (GateState { epoch: next_count(old(self)@.epoch), ..old(self)@ }),
    {
        self.visibility_epoch = self.visibility_epoch.wrapping_add(1);
    }

    /// Reserve `n` sequences and return the first of them.
    pub fn reserve(&mut self, n: u64) -> (first: u64)
        ensures
            first == old(self)@.allocated,
            old(self)@.allocated + n <= u64::MAX ==> final(self)@ == (GateState {
                allocated: (old(self)@.allocated + n) as u64,
                ..old(self)@
            }),
            old(self)@.allocated + n > u64::MAX ==> final(self)@ == (GateState {
                allocated: (old(self)@.allocated + n - 0x1_0000_0000_0000_0000) as u64,
                ..old(self)@
            }),
    {
        let first: u64 = self.allocated;
        self.allocated = self.allocated.wrapping_add(n);
        first
    }

    /// Move the global bound to `up_to`, so that readers see the sequences below it.
    pub fn publish(&mut self, up_to: u64, operation: &'static str) -> (r: Result<(), StoreError>)
        ensures
            r is Ok <==> old(self)@.may_publish(up_to),
            r is Ok <==> old(self)@.visible <= up_to <= old(self)@.allocated,
            r is Ok ==> final(self)@ == old(self)@.published(up_to),
            r is Ok ==> final(self)@.visible == up_to && final(self)@.lanes == old(self)@.lanes,
            final(self)@.allocated == old(self)@.allocated && final(self)@.cancelled == old(
                self,
            )@.cancelled && final(self)@.lane_cancelled == old(self)@.lane_cancelled && final(self)@.fence == old(self)@.fence,
            r matches Err(e) ==> final(self)@ == old(self)@ && e
                == (StoreError::SequenceGateViolation {
                operation,
                requested: up_to,
                allocated: old(self)@.allocated,
                visible: old(self)@.visible,
            }),
    {
        let visible: u64 = self.published.visible;
        if up_to > self.allocated || up_to < visible {
            return Err(
                StoreError::SequenceGateViolation {
                    operation,
                    requested: up_to,
                    allocated: self.allocated,
                    visible,
                },
            );
        }
        self.published = Arc::new(
            PublishedVisibility {
                visible: up_to,
                lane_visible: self.published.lane_visible.clone(),
            },
        );
        self.signal_visibility_change();
        Ok(())
    }

    fn lane_bound(&self, lane: u32) -> (bound: u64)
        ensures
            bound == self@.lane_bound(lane),
    {
        match self.published.lane_visible.get(&lane) {
            Some(bound) => *bound,
            None => 0,
        }
    }

    /// Move the global bound and some lane bounds together. Either every bound
    /// moves or none does.
    pub fn publish_on_lanes(
        &mut self,
        global_up_to: u64,
        lanes: &[(u32, u64)],
        operation: &'static str,
    ) -> (r: Result<(), StoreError>)
        ensures
            r is Ok <==> old(self)@.may_publish(global_up_to) && old(self)@.may_publish_lanes(
                lanes@,
            ),
            r is Ok <==> old(self)@.visible <= global_up_to <= old(self)@.allocated && forall|
                i: int,
            |
                0 <= i < lanes@.len() ==> (#[trigger] lanes@[i]).1 <= old(self)@.allocated && (old(
                    self,
                )@.lanes.contains_key(lanes@[i].0) ==> old(self)@.lanes[lanes@[i].0]
                    <= lanes@[i].1),
            r is Ok ==> final(self)@ == old(self)@.published_on_lanes(global_up_to, lanes@),
            r is Err ==> final(self)@ == old(self)@,
            r matches Err(e) ==> old(self)@.refuses(global_up_to, lanes@, operation, e),
    {
        let allocated: u64 = self.allocated;
        let visible: u64 = self.published.visible;
        if global_up_to > allocated || global_up_to < visible {
            return Err(
                StoreError::SequenceGateViolation {
                    operation,
                    requested: global_up_to,
                    allocated,
                    visible,
                },
            );
        }
        let mut i: usize = 0;
        while i < lanes.len()
            invariant
                i <= lanes@.len(),
                allocated == self@.allocated,
                self@ == old(self)@,
                old(self)@.may_publish(global_up_to),
                old(self)@.may_publish_lanes(lanes@.take(i as int)),
            decreases lanes@.len() - i,
        {
            let (lane, up_to) = lanes[i];
            let current_lane: u64 = self.lane_bound(lane);
            if up_to > allocated || up_to < current_lane {
                assert(!old(self)@.may_publish_lane(lanes@[i as int].0, lanes@[i as int].1));
                assert(!(lanes@[i as int].1 <= allocated && (old(self)@.lanes.contains_key(
                    lanes@[i as int].0,
                ) ==> old(self)@.lanes[lanes@[i as int].0] <= lanes@[i as int].1)));
                return Err(
                    StoreError::SequenceGateViolation {
                        operation,
                        requested: up_to,
                        allocated,
                        visible: current_lane,
                    },
                );
            }
            i += 1;
            assert(lanes@.take(i as int) =~= lanes@.take(i - 1).push(lanes@[i - 1]));
            assert(old(self)@.may_publish_lanes(lanes@.take(i as int))) by {
                assert forall|k: int| 0 <= k < i implies old(self)@.may_publish_lane(
                    (#[trigger] lanes@.take(i as int)[k]).0,
                    lanes@.take(i as int)[k].1,
                ) by {
                    if k < i - 1 {
                        assert(lanes@.take(i - 1)[k] == lanes@[k]);
                    }
                }
            }
        }
        assert(lanes@.take(lanes@.len() as int) =~= lanes@);
        proof {
            assert forall|j: int| 0 <= j < lanes@.len() implies (#[trigger] lanes@[j]).1
                <= allocated && (old(self)@.lanes.contains_key(lanes@[j].0) ==> old(
                self,
            )@.lanes[lanes@[j].0] <= lanes@[j].1) by {
                assert(old(self)@.may_publish_lane(lanes@[j].0, lanes@[j].1));
            }
        }
        let mut lane_visible = self.published.lane_visible.clone();
        let mut k: usize = 0;
        while k < lanes.len()
            invariant
                k <= lanes@.len(),
                lane_visible@ == installed(old(self)@.lanes, lanes@.take(k as int)),
            decreases lanes@.len() - k,
        {
            let (lane, up_to) = lanes[k];
            lane_visible.insert(lane, up_to);
            k += 1;
            assert(lanes@.take(k as int).drop_last() =~= lanes@.take(k - 1));
        }
        self.published = Arc::new(PublishedVisibility { visible: global_up_to, lane_visible });
        self.signal_visibility_change();
        Ok(())
    }

    /// Exclusive upper bound of what readers see.
    pub fn visible(&self) -> (r: u64)
        ensures
            r == self@.visible,
    {
        self.published.visible
    }

    /// The bounds of every lane.
    pub fn lane_visible_snapshot(&self) -> (r: BTreeMap<u32, u64>)
        ensures
            r@ == self@.lanes,
    {
        self.published.lane_visible.clone()
    }

    /// Replace the bounds of every lane.
    pub fn restore_lane_visible(&mut self, lanes: BTreeMap<u32, u64>)
        ensures
            final(self)@ == (GateState { lanes: lanes@, ..old(self)@ }),
    {
        let visible: u64 = self.published.visible;
        self.published = Arc::new(PublishedVisibility { visible, lane_visible: lanes });
    }

    /// Next sequence to be assigned.
    pub fn allocated(&self) -> (r: u64)
        ensures
            r == self@.allocated,
    {
        self.allocated
    }

    /// Advance the allocator by one.
    pub fn advance(&mut self)
        ensures
            final(self)@ == (GateState {
                allocated: next_count(old(self)@.allocated),
                ..old(self)@
            }),
    {
        self.allocated = self.allocated.wrapping_add(1);
    }

    /// Set the allocator.
    pub fn restore_allocator(&mut self, value: u64)
        ensures
            final(self)@ == (GateState { allocated: value, ..old(self)@ }),
    {
        self.allocated = value;
    }

    /// Reset everything but the count of visibility changes.
    pub fn clear(&mut self)
        ensures
            final(self)@ == GateState::fresh(old(self)@.epoch),
            final(self)@.wf(),
    {
        self.allocated = 0;
        self.published = Arc::new(
            PublishedVisibility { visible: 0, lane_visible: BTreeMap::new() },
        );
        self.active_fence = 0;
        self.active_fence_start = u64::MAX;
        self.active_fence_end = 0;
        self.next_fence_token = 1;
        self.cancelled_ranges = Arc::new(Vec::new());
        self.lane_cancelled_ranges = Arc::new(BTreeMap::new());
        assert(self@ =~= GateState::fresh(old(self)@.epoch));
    }

    /// Begin a visibility fence. Only one may be active. A refused request
    /// still uses up a token.
    pub fn begin_fence(&mut self) -> (r: Result<u64, StoreError>)
        ensures
            r is Ok <==> old(self)@.fence == 0,
            r matches Ok(token) ==> token == old(self)@.next_token && final(self)@ == (GateState {
                fence: token,
                fence_start: u64::MAX,
                fence_end: 0,
                next_token: next_count(token),
                ..old(self)@
            }),
            r matches Err(e) ==> e == StoreError::VisibilityFenceActive && final(self)@
                == (GateState { next_token: next_count(old(self)@.next_token), ..old(self)@ }),
    {
        let token: u64 = self.next_fence_token;
        self.next_fence_token = self.next_fence_token.wrapping_add(1);
        if self.active_fence != 0 {
            return Err(StoreError::VisibilityFenceActive);
        }
        self.active_fence = token;
        self.active_fence_start = u64::MAX;
        self.active_fence_end = 0;
        Ok(token)
    }

    /// Token of the active fence.
    pub fn active_fence_token(&self) -> (r: Option<u64>)
        ensures
            r == (if self@.fence != 0 {
                Some(self@.fence)
            } else {
                None
            }),
    {
        if self.active_fence != 0 {
            Some(self.active_fence)
        } else {
            None
        }
    }

    /// Range of the active fence, where it has staged anything.
    pub fn active_fence_range(&self) -> (r: Option<(u64, u64)>)
        ensures
            r == self@.fence_range(),
    {
        if self.active_fence == 0 {
            return None;
        }
        if self.active_fence_start != u64::MAX && self.active_fence_start
            < self.active_fence_end {
            Some((self.active_fence_start, self.active_fence_end))
        } else {
            None
        }
    }

    /// Widen the range of the active fence to include `[start, end)`.
    pub fn note_fence_progress(&mut self, token: u64, start: u64, end: u64) -> (r: Result<
        (),
        StoreError,
    >)
        ensures
            r is Ok <==> old(self)@.fence == token,
            r is Ok ==> final(self)@ == (GateState {
                fence_start: if start < old(self)@.fence_start {
                    start
                } else {
                    old(self)@.fence_start
                },
                fence_end: if end > old(self)@.fence_end {
                    end
                } else {
                    old(self)@.fence_end
                },
                ..old(self)@
            }),
            r matches Err(e) ==> e == StoreError::VisibilityFenceNotActive && final(self)@
                == old(self)@,
    {
        if self.active_fence != token {
            return Err(StoreError::VisibilityFenceNotActive);
        }
        if start < self.active_fence_start {
            self.active_fence_start = start;
        }
        if end > self.active_fence_end {
            self.active_fence_end = end;
        }
        Ok(())
    }

    /// End the active fence, publishing what it staged where `publish_to` asks
    /// for it. A refused publish leaves the fence active.
    pub fn finish_fence_on_lanes(
        &mut self,
        token: u64,
        publish_to: Option<u64>,
        lanes: &[(u32, u64)],
    ) -> (r: Result<(), StoreError>)
        ensures
            r is Ok <==> old(self)@.fence == token && (publish_to matches Some(up_to) ==> old(
                self,
            )@.may_publish(up_to) && old(self)@.may_publish_lanes(lanes@)),
            r is Ok ==> final(self)@ == (match publish_to {
                Some(up_to) => old(self)@.published_on_lanes(up_to, lanes@).without_fence(),
                None => old(self)@.without_fence(),
            }),
            r is Err ==> final(self)@ == old(self)@,
            r matches Err(e) ==> if old(self)@.fence != token {
                e == StoreError::VisibilityFenceNotActive
            } else {
                old(self)@.refuses(publish_to->0, lanes@, "finish_visibility_fence", e)
            },
    {
        if self.active_fence != token {
            return Err(StoreError::VisibilityFenceNotActive);
        }
        if let Some(up_to) = publish_to {
            match self.publish_on_lanes(up_to, lanes, "finish_visibility_fence") {
                Ok(()) => {},
                Err(e) => {
                    return Err(e);
                },
            }
        }
        self.active_fence = 0;
        self.active_fence_start = u64::MAX;
        self.active_fence_end = 0;
        Ok(())
    }

    /// Cancel the active fence: its range is hidden for good, and so are the
    /// given ranges of each lane.
    pub fn cancel_fence(
        &mut self,
        token: u64,
        lane_ranges: &BTreeMap<u32, Vec<(u64, u64)>>,
    ) -> (r: Result<(), StoreError>)
        requires
            old(self)@.wf(),
        ensures
            final(self)@.wf(),
            r is Ok <==> old(self)@.fence == token,
            r is Ok ==> final(self)@ == old(self)@.fence_cancelled(
                super::visibility::lanes_view(lane_ranges@),
            ),
            r matches Err(e) ==> e == StoreError::VisibilityFenceNotActive && final(self)@
                == old(self)@,
    {
        if self.active_fence != token {
            return Err(StoreError::VisibilityFenceNotActive);
        }
        let start: u64 = self.active_fence_start;
        let end: u64 = self.active_fence_end;
        let ghost before = self.cancelled_ranges@;
        if start != u64::MAX {
            let mut ranges = copy_ranges(&self.cancelled_ranges);
            insert_cancelled_range(&mut ranges, start, end);
            self.cancelled_ranges = Arc::new(ranges);
        }
        let merged = merge_lane_ranges(&self.lane_cancelled_ranges, lane_ranges);
        self.lane_cancelled_ranges = Arc::new(merged);
        self.active_fence = 0;
        self.active_fence_start = u64::MAX;
        self.active_fence_end = 0;
        Ok(())
    }

    /// What readers may see now.
    pub fn snapshot(&self) -> (r: VisibilitySnapshot)
        ensures
            r.shows(self@),
    {
        VisibilitySnapshot {
            published: Arc::clone(&self.published),
            cancelled_ranges: Arc::clone(&self.cancelled_ranges),
            lane_cancelled_ranges: Arc::clone(&self.lane_cancelled_ranges),
        }
    }

    /// The hidden ranges.
    pub fn cancelled_ranges_snapshot(&self) -> (r: CancelledVisibilityRanges)
        ensures
            r.global@ == self@.cancelled,
            super::visibility::lanes_view(r.lanes@) == self@.lane_cancelled,
    {
        let lanes: &BTreeMap<u32, Vec<(u64, u64)>> = &self.lane_cancelled_ranges;
        CancelledVisibilityRanges {
            global: copy_ranges(&self.cancelled_ranges),
            lanes: lanes.clone(),
        }
    }

    /// Replace the hidden ranges, bringing them into normal form.
    pub fn restore_cancelled_ranges(&mut self, ranges: &CancelledVisibilityRanges)
        ensures
            final(self)@.wf(),
            final(self)@ == (GateState {
                cancelled: super::visibility::with_ranges(Seq::empty(), ranges.global@),
                lane_cancelled: super::visibility::merged_lanes(
                    Map::empty(),
                    super::visibility::lanes_view(ranges.lanes@),
                ),
                ..old(self)@
            }),
    {
        let mut built: Vec<(u64, u64)> = Vec::new();
        insert_cancelled_ranges(&mut built, &ranges.global);
        self.cancelled_ranges = Arc::new(built);
        let none: BTreeMap<u32, Vec<(u64, u64)>> = BTreeMap::new();
        assert(super::visibility::lanes_view(none@) =~= Map::empty());
        let built_lanes = merge_lane_ranges(&none, &ranges.lanes);
        self.lane_cancelled_ranges = Arc::new(built_lanes);
    }
}

/// An installed bound is the last one requested for its lane, or the old one.
proof fn lemma_installed(bounds: Map<u32, u64>, lanes: Seq<(u32, u64)>, lane: u32)
    ensures
        installed(bounds, lanes).contains_key(lane) ==> (exists|i: int|
            0 <= i < lanes.len() && #[trigger] lanes[i] == (
                lane,
                installed(bounds, lanes)[lane],
            )) || (bounds.contains_key(lane) && installed(bounds, lanes)[lane] == bounds[lane]),
        bounds.contains_key(lane) ==> installed(bounds, lanes).contains_key(lane),
        (exists|i: int| 0 <= i < lanes.len() && (#[trigger] lanes[i]).0 == lane) ==> installed(
            bounds,
            lanes,
        ).contains_key(lane),
        (forall|i: int| 0 <= i < lanes.len() ==> (#[trigger] lanes[i]).0 != lane) ==> (installed(
            bounds,
            lanes,
        ).contains_key(lane) == bounds.contains_key(lane) && (bounds.contains_key(lane)
            ==> installed(bounds, lanes)[lane] == bounds[lane])),
    decreases lanes.len(),
{
    if lanes.len() > 0 {
        let head = lanes.drop_last();
        lemma_installed(bounds, head, lane);
        assert forall|i: int| 0 <= i < head.len() implies #[trigger] head[i] == lanes[i] by {}
        if lanes.last().0 == lane {
            assert(lanes[lanes.len() - 1] == (lane, installed(bounds, lanes)[lane]));
        } else if installed(bounds, head).contains_key(lane) {
            if exists|i: int|
                0 <= i < head.len() && #[trigger] head[i] == (
                    lane,
                    installed(bounds, head)[lane],
                ) {
                let i = choose|i: int|
                    0 <= i < head.len() && #[trigger] head[i] == (
                        lane,
                        installed(bounds, head)[lane],
                    );
                assert(lanes[i] == (lane, installed(bounds, lanes)[lane]));
            }
        }
        if exists|i: int| 0 <= i < lanes.len() && (#[trigger] lanes[i]).0 == lane {
            let i = choose|i: int| 0 <= i < lanes.len() && (#[trigger] lanes[i]).0 == lane;
            if i < head.len() {
                assert(head[i].0 == lane);
            }
        }
    }
}

/// A publish keeps every bound at or below the allocator, and no bound moves
/// backwards.
pub proof fn law_publish_is_bounded_and_monotone(
    s: GateState,
    up_to: u64,
    lanes: Seq<(u32, u64)>,
)
    requires
        s.visible <= s.allocated,
        forall|lane: u32| #[trigger] s.lane_bound(lane) <= s.allocated,
        s.may_publish(up_to),
        s.may_publish_lanes(lanes),
    ensures
        s.visible <= s.published_on_lanes(up_to, lanes).visible <= s.allocated,
        forall|lane: u32|
            s.lane_bound(lane) <= #[trigger] s.published_on_lanes(up_to, lanes).lane_bound(lane)
                <= s.allocated,
        s.visible <= s.published(up_to).visible <= s.allocated,
        s.published(up_to).lanes == s.lanes,
{
    let p = s.published_on_lanes(up_to, lanes);
    assert forall|lane: u32|
        s.lane_bound(lane) <= #[trigger] p.lane_bound(lane) <= s.allocated by {
        lemma_installed(s.lanes, lanes, lane);
        assert(s.lane_bound(lane) <= s.allocated);
        if p.lanes.contains_key(lane) && !(s.lanes.contains_key(lane) && p.lanes[lane]
            == s.lanes[lane]) {
            let i = choose|i: int|
                0 <= i < lanes.len() && #[trigger] lanes[i] == (lane, p.lanes[lane]);
            assert(s.may_publish_lane(lanes[i].0, lanes[i].1));
        }
    }
}

/// Lanes that a publish does not name keep their bound.
pub proof fn law_publish_keeps_other_lanes(
    s: GateState,
    up_to: u64,
    lanes: Seq<(u32, u64)>,
    lane: u32,
)
    requires
        forall|i: int| 0 <= i < lanes.len() ==> (#[trigger] lanes[i]).0 != lane,
    ensures
        s.published_on_lanes(up_to, lanes).lane_bound(lane) == s.lane_bound(lane),
{
    lemma_installed(s.lanes, lanes, lane);
}

/// What readers see stays seen when the bounds advance.
pub proof fn law_publish_only_reveals(
    s: GateState,
    up_to: u64,
    lanes: Seq<(u32, u64)>,
    x: u64,
    lane: u32,
)
    requires
        s.may_publish(up_to),
        s.may_publish_lanes(lanes),
    ensures
        s.sees(x) ==> s.published(up_to).sees(x),
        s.sees(x) ==> s.published_on_lanes(up_to, lanes).sees(x),
        s.sees_on_lane(x, lane) ==> s.published_on_lanes(up_to, lanes).sees_on_lane(x, lane),
{
    lemma_installed(s.lanes, lanes, lane);
    let p = s.published_on_lanes(up_to, lanes);
    if p.lanes.contains_key(lane) && !(s.lanes.contains_key(lane) && p.lanes[lane]
        == s.lanes[lane]) {
        let i = choose|i: int|
            0 <= i < lanes.len() && #[trigger] lanes[i] == (lane, p.lanes[lane]);
        assert(s.may_publish_lane(lanes[i].0, lanes[i].1));
    }
}

/// A cancelled fence hides exactly its own range from global readers, and
/// hides it on every lane.
pub proof fn law_cancel_hides_the_fence(
    s: GateState,
    lane_ranges: Map<u32, Seq<(u64, u64)>>,
    x: u64,
    lane: u32,
)
    requires
        s.wf(),
        s.fence != 0,
    ensures
        s.fence_cancelled(lane_ranges).sees(x) == (s.sees(x) && (s.fence_range() matches Some(r)
            ==> !(r.0 <= x < r.1))),
        s.fence_range() matches Some(r) ==> (r.0 <= x < r.1 ==> !s.fence_cancelled(
            lane_ranges,
        ).sees_on_lane(x, lane)),
{
    assert(s.cancelled =~= super::visibility::with_ranges(s.cancelled, Seq::empty()));
    super::visibility::law_with_ranges_is_union(
        s.cancelled,
        seq![(s.fence_start, s.fence_end)],
    );
    let one = seq![(s.fence_start, s.fence_end)];
    assert(one.drop_last() =~= Seq::empty());
    assert(super::visibility::with_ranges(s.cancelled, one)
        == super::visibility::with_range(s.cancelled, s.fence_start, s.fence_end));
    let w = super::visibility::with_range(s.cancelled, s.fence_start, s.fence_end);
    assert(super::visibility::covered(w, x) == (super::visibility::covered(s.cancelled, x)
        || super::visibility::covered(one, x)));
    assert(one[0] == (s.fence_start, s.fence_end));
    assert(super::visibility::covered(one, x) == (s.fence_start <= x < s.fence_end));
}

/// The ranges that a cancel names for a lane are hidden on that lane.
pub proof fn law_cancel_hides_lane_ranges(
    s: GateState,
    lane_ranges: Map<u32, Seq<(u64, u64)>>,
    x: u64,
    lane: u32,
)
    requires
        s.wf(),
        lane_ranges.contains_key(lane),
        super::visibility::covered(lane_ranges[lane], x),
    ensures
        !s.fence_cancelled(lane_ranges).sees_on_lane(x, lane),
{
    let base = super::visibility::lane_ranges_of(s.lane_cancelled, lane);
    super::visibility::law_with_ranges_is_union(base, lane_ranges[lane]);
    let f = s.fence_cancelled(lane_ranges);
    assert(f.lane_cancelled.contains_key(lane));
    assert(f.lane_cancelled[lane] == super::visibility::with_ranges(base, lane_ranges[lane]));
    assert(super::visibility::covered(f.lane_cancelled[lane], x));
}

/// What a cancelled fence hid stays hidden, whatever is published, finished or
/// cancelled afterwards.
pub proof fn law_cancelled_stays_hidden(
    s: GateState,
    up_to: u64,
    lanes: Seq<(u32, u64)>,
    lane_ranges: Map<u32, Seq<(u64, u64)>>,
    x: u64,
    lane: u32,
)
    requires
        s.wf(),
        super::visibility::covered(s.cancelled, x),
    ensures
        !s.published(up_to).sees(x),
        !s.published_on_lanes(up_to, lanes).sees(x),
        !s.published_on_lanes(up_to, lanes).sees_on_lane(x, lane),
        !s.without_fence().sees(x),
        s.fence != 0 ==> !s.fence_cancelled(lane_ranges).sees(x),
{
    if s.fence != 0 {
        law_cancel_hides_the_fence(s, lane_ranges, x, lane);
    }
}

/// Restoring the hidden ranges of a snapshot gives the same hidden ranges.
pub proof fn law_hidden_ranges_round_trip(s: GateState)
    requires
        s.wf(),
    ensures
        super::visibility::with_ranges(Seq::empty(), s.cancelled) == s.cancelled,
        super::visibility::merged_lanes(Map::empty(), s.lane_cancelled) == s.lane_cancelled,
{
    lemma_normal_round_trip(s.cancelled);
    let m = super::visibility::merged_lanes(Map::empty(), s.lane_cancelled);
    assert forall|lane: u32| #[trigger] s.lane_cancelled.contains_key(lane) implies m[lane]
        == s.lane_cancelled[lane] by {
        lemma_normal_round_trip(s.lane_cancelled[lane]);
    }
    assert(m =~= s.lane_cancelled);
}

proof fn lemma_normal_round_trip(ranges: Seq<(u64, u64)>)
    requires
        super::visibility::normalized(ranges),
    ensures
        super::visibility::with_ranges(Seq::empty(), ranges) == ranges,
{
    let none = Seq::<(u64, u64)>::empty();
    super::visibility::law_with_ranges_is_union(none, ranges);
    let w = super::visibility::with_ranges(none, ranges);
    assert forall|x: u64|
        super::visibility::covered(w, x) == super::visibility::covered(ranges, x) by {
        assert(!super::visibility::covered(none, x));
    }
    super::visibility::law_normal_form_is_unique(w, ranges);
}

/// A snapshot shows what lies below the bound and in no cancelled range; on a lane,
/// what lies below the bound of the lane and in no range cancelled for all lanes or
/// for this one. A lane that has no bound shows nothing.
pub proof fn law_snapshot_shows_what_is_published_and_not_cancelled(
    gate: &SequenceGate,
    snapshot: VisibilitySnapshot,
    sequence: u64,
    lane: u32,
    shown: bool,
    shown_on_lane: bool,
    upper: u64,
)
    requires
        call_ensures(SequenceGate::snapshot, (gate,), snapshot),
        call_ensures(VisibilitySnapshot::is_visible, (&snapshot, sequence), shown),
        call_ensures(
            VisibilitySnapshot::is_visible_on_lane,
            (&snapshot, sequence, lane),
            shown_on_lane,
        ),
        call_ensures(VisibilitySnapshot::visible_upper_bound, (&snapshot,), upper),
    ensures
        upper == gate@.visible,
        shown <==> sequence < gate@.visible && forall|i: int|
            0 <= i < gate@.cancelled.len() ==> !((#[trigger] gate@.cancelled[i]).0 <= sequence
                && sequence < gate@.cancelled[i].1),
        shown_on_lane <==> gate@.lanes.contains_key(lane) && sequence < gate@.lanes[lane] && (
        forall|i: int|
            0 <= i < gate@.cancelled.len() ==> !((#[trigger] gate@.cancelled[i]).0 <= sequence
                && sequence < gate@.cancelled[i].1)) && (gate@.lane_cancelled.contains_key(lane)
            ==> forall|i: int|
            0 <= i < gate@.lane_cancelled[lane].len() ==> !((
            #[trigger] gate@.lane_cancelled[lane][i]).0 <= sequence && sequence
                < gate@.lane_cancelled[lane][i].1)),
{
    snapshot.lemma_shows(gate@);
    assert(snapshot.sees(sequence) == gate@.sees(sequence));
    assert(snapshot.sees_on_lane(sequence, lane) == gate@.sees_on_lane(sequence, lane));
    let none = Seq::<(u64, u64)>::empty();
    assert(!super::visibility::covered(none, sequence));
    if !shown && sequence < gate@.visible {
        let i = choose|i: int|
            0 <= i < gate@.cancelled.len() && (#[trigger] gate@.cancelled[i]).0 <= sequence
                < gate@.cancelled[i].1;
        assert(gate@.cancelled[i].0 <= sequence && sequence < gate@.cancelled[i].1);
    }
}

/// A publish on lanes moves the bound for all lanes and, of each lane that it names,
/// the bound to the last one that it names; nothing else but the count of changes.
pub proof fn law_publish_moves_the_named_bounds(
    s: GateState,
    up_to: u64,
    lanes: Seq<(u32, u64)>,
    i: int,
    lane: u32,
)
    ensures
        ({
            let after = s.published_on_lanes(up_to, lanes);
            &&& after.visible == up_to
            &&& after.allocated == s.allocated
            &&& after.cancelled == s.cancelled
            &&& after.lane_cancelled == s.lane_cancelled
            &&& after.fence == s.fence
            &&& after.fence_start == s.fence_start
            &&& after.fence_end == s.fence_end
            &&& after.next_token == s.next_token
            &&& 0 <= i < lanes.len() && (forall|j: int|
                i < j < lanes.len() ==> (#[trigger] lanes[j]).0 != lanes[i].0)
                ==> after.lanes.contains_key(lanes[i].0) && after.lanes[lanes[i].0] == lanes[i].1
            &&& (forall|j: int| 0 <= j < lanes.len() ==> (#[trigger] lanes[j]).0 != lane) ==> (
            after.lanes.contains_key(lane) <==> s.lanes.contains_key(lane)) && (
            s.lanes.contains_key(lane) ==> after.lanes[lane] == s.lanes[lane])
        }),
    decreases lanes.len(),
{
    lemma_installed(s.lanes, lanes, lane);
    if 0 <= i < lanes.len() {
        let front = lanes.drop_last();
        if i < front.len() && (forall|j: int|
            i < j < lanes.len() ==> (#[trigger] lanes[j]).0 != lanes[i].0) {
            assert forall|j: int| i < j < front.len() implies (#[trigger] front[j]).0
                != front[i].0 by {
                assert(lanes[j].0 != lanes[i].0);
            }
            law_publish_moves_the_named_bounds(s, up_to, front, i, lane);
            assert(lanes[lanes.len() - 1].0 != lanes[i].0);
        }
    }
}

/// A cancelled fence leaves the bounds and hides, for all lanes, the sequences that
/// were staged under it, and of a lane those that the cancel names for it. What was
/// hidden stays hidden, nothing else is, and no fence is left.
pub proof fn law_cancel_hides_what_was_staged(
    s: GateState,
    lane_ranges: Map<u32, Seq<(u64, u64)>>,
    sequence: u64,
    lane: u32,
)
    requires
        s.wf(),
    ensures
        ({
            let after = s.fence_cancelled(lane_ranges);
            &&& after.visible == s.visible
            &&& after.allocated == s.allocated
            &&& after.lanes == s.lanes
            &&& after.fence == 0
            &&& after.fence_start == u64::MAX
            &&& after.fence_end == 0
            &&& after.next_token == s.next_token
            &&& (exists|i: int|
                0 <= i < after.cancelled.len() && (#[trigger] after.cancelled[i]).0 <= sequence
                    && sequence < after.cancelled[i].1) <==> (exists|i: int|
                0 <= i < s.cancelled.len() && (#[trigger] s.cancelled[i]).0 <= sequence && sequence
                    < s.cancelled[i].1) || (s.fence_start <= sequence && sequence < s.fence_end)
            &&& (after.lane_cancelled.contains_key(lane) && exists|i: int|
                0 <= i < after.lane_cancelled[lane].len() && (
                #[trigger] after.lane_cancelled[lane][i]).0 <= sequence && sequence
                    < after.lane_cancelled[lane][i].1) <==> (s.lane_cancelled.contains_key(lane)
                && exists|i: int|
                0 <= i < s.lane_cancelled[lane].len() && (#[trigger] s.lane_cancelled[lane][i]).0
                    <= sequence && sequence < s.lane_cancelled[lane][i].1) || (
            lane_ranges.contains_key(lane) && exists|i: int|
                0 <= i < lane_ranges[lane].len() && (#[trigger] lane_ranges[lane][i]).0 <= sequence
                    && sequence < lane_ranges[lane][i].1)
        }),
{
    let after = s.fence_cancelled(lane_ranges);
    let one = seq![(s.fence_start, s.fence_end)];
    super::visibility::law_with_ranges_is_union(s.cancelled, one);
    assert(one.drop_last() =~= Seq::empty());
    assert(super::visibility::with_ranges(s.cancelled, one.drop_last()) == s.cancelled);
    let w = super::visibility::with_range(s.cancelled, s.fence_start, s.fence_end);
    assert(super::visibility::with_ranges(s.cancelled, one) == w);
    assert(super::visibility::covered(w, sequence) == (super::visibility::covered(
        s.cancelled,
        sequence,
    ) || super::visibility::covered(one, sequence)));
    assert(one[0] == (s.fence_start, s.fence_end));
    assert(super::visibility::covered(one, sequence) == (s.fence_start <= sequence
        < s.fence_end));
    super::visibility::law_covered_lies_in_a_range(after.cancelled, sequence);
    super::visibility::law_covered_lies_in_a_range(s.cancelled, sequence);
    let base = super::visibility::lane_ranges_of(s.lane_cancelled, lane);
    if lane_ranges.contains_key(lane) {
        super::visibility::law_with_ranges_is_union(base, lane_ranges[lane]);
        assert(super::visibility::covered(after.lane_cancelled[lane], sequence) == (
        super::visibility::covered(base, sequence) || super::visibility::covered(
            lane_ranges[lane],
            sequence,
        )));
        super::visibility::law_covered_lies_in_a_range(lane_ranges[lane], sequence);
    }
    super::visibility::law_covered_lies_in_a_range(base, sequence);
    if after.lane_cancelled.contains_key(lane) {
        super::visibility::law_covered_lies_in_a_range(after.lane_cancelled[lane], sequence);
    }
}

/// A fence that is finished leaves no fence, and all else as it was.
pub proof fn law_finished_fence_is_gone(s: GateState)
    ensures
        ({
            let after = s.without_fence();
            &&& after.fence == 0
            &&& after.fence_start == u64::MAX
            &&& after.fence_end == 0
            &&& after.allocated == s.allocated
            &&& after.visible == s.visible
            &&& after.lanes == s.lanes
            &&& after.next_token == s.next_token
            &&& after.cancelled == s.cancelled
            &&& after.lane_cancelled == s.lane_cancelled
            &&& after.epoch == s.epoch
        }),
{
}

/// A fence has a range where one is active and something was staged under it: from
/// the lowest sequence that was staged up to past the highest.
pub proof fn law_fence_range_is_what_was_staged(gate: &SequenceGate, r: Option<(u64, u64)>)
    requires
        call_ensures(SequenceGate::active_fence_range, (gate,), r),
    ensures
        r is Some <==> gate@.fence != 0 && gate@.fence_start < gate@.fence_end,
        r matches Some(range) ==> range.0 == gate@.fence_start && range.1 == gate@.fence_end,
{
}

/// A new gate shows nothing, hides nothing, has no fence and starts at zero.
pub proof fn law_new_gate_shows_nothing(gate: SequenceGate)
    requires
        call_ensures(SequenceGate::new, (), gate),
    ensures
        gate@.allocated == 0,
        gate@.visible == 0,
        gate@.lanes == Map::<u32, u64>::empty(),
        gate@.fence == 0,
        gate@.fence_start == u64::MAX,
        gate@.fence_end == 0,
        gate@.next_token == 1,
        gate@.cancelled.len() == 0,
        gate@.lane_cancelled == Map::<u32, Seq<(u64, u64)>>::empty(),
        gate@.epoch == 0,
{
}

/// Counters go up by one, and from the highest number to zero.
pub proof fn law_counts_go_up_by_one(n: u64)
    ensures
        next_count(n) == (n + 1) % 0x1_0000_0000_0000_0000,
{
}

/// Ranges that are restored hide what they name and nothing else, for all lanes and
/// on each lane.
pub proof fn law_restored_ranges_hide_what_they_name(
    global: Seq<(u64, u64)>,
    lanes: Map<u32, Seq<(u64, u64)>>,
    sequence: u64,
    lane: u32,
)
    ensures
        ({
            let hidden = super::visibility::with_ranges(Seq::empty(), global);
            let on_lanes = super::visibility::merged_lanes(Map::empty(), lanes);
            &&& (exists|i: int|
                0 <= i < hidden.len() && (#[trigger] hidden[i]).0 <= sequence && sequence
                    < hidden[i].1) <==> (exists|i: int|
                0 <= i < global.len() && (#[trigger] global[i]).0 <= sequence && sequence
                    < global[i].1)
            &&& on_lanes.contains_key(lane) <==> lanes.contains_key(lane)
            &&& lanes.contains_key(lane) ==> ((exists|i: int|
                0 <= i < on_lanes[lane].len() && (#[trigger] on_lanes[lane][i]).0 <= sequence
                    && sequence < on_lanes[lane][i].1) <==> (exists|i: int|
                0 <= i < lanes[lane].len() && (#[trigger] lanes[lane][i]).0 <= sequence && sequence
                    < lanes[lane][i].1))
        }),
{
    let none = Seq::<(u64, u64)>::empty();
    let hidden = super::visibility::with_ranges(none, global);
    super::visibility::law_with_ranges_is_union(none, global);
    assert(!super::visibility::covered(none, sequence));
    assert(super::visibility::covered(hidden, sequence) == super::visibility::covered(
        global,
        sequence,
    ));
    super::visibility::law_covered_lies_in_a_range(hidden, sequence);
    super::visibility::law_covered_lies_in_a_range(global, sequence);
    if lanes.contains_key(lane) {
        let on_lane = super::visibility::with_ranges(none, lanes[lane]);
        super::visibility::law_with_ranges_is_union(none, lanes[lane]);
        assert(super::visibility::covered(on_lane, sequence) == super::visibility::covered(
            lanes[lane],
            sequence,
        ));
        super::visibility::law_covered_lies_in_a_range(on_lane, sequence);
        super::visibility::law_covered_lies_in_a_range(lanes[lane], sequence);
        let held = Map::<u32, Seq<(u64, u64)>>::empty();
        assert(super::visibility::lane_ranges_of(held, lane) == none);
        assert(super::visibility::merged_lanes(held, lanes)[lane] == on_lane);
    }
}

/// A refused publish names what was asked of the first bound that cannot be met: the
/// bound for all lanes, and else the first of the lanes, each with where it stands.
pub proof fn law_refusal_names_the_first_bound_at_fault(
    s: GateState,
    up_to: u64,
    lanes: Seq<(u32, u64)>,
    operation: &'static str,
    e: StoreError,
)
    requires
        s.refuses(up_to, lanes, operation, e),
    ensures
        up_to < s.visible || up_to > s.allocated ==> e == (StoreError::SequenceGateViolation {
            operation,
            requested: up_to,
            allocated: s.allocated,
            visible: s.visible,
        }),
        s.visible <= up_to <= s.allocated ==> exists|i: int|
            0 <= i < lanes.len() && ((#[trigger] lanes[i]).1 > s.allocated || (s.lanes.contains_key(
                lanes[i].0,
            ) && lanes[i].1 < s.lanes[lanes[i].0])) && (forall|j: int|
                0 <= j < i ==> (#[trigger] lanes[j]).1 <= s.allocated && (s.lanes.contains_key(
                    lanes[j].0,
                ) ==> s.lanes[lanes[j].0] <= lanes[j].1)) && e == (
            StoreError::SequenceGateViolation {
                operation,
                requested: lanes[i].1,
                allocated: s.allocated,
                visible: if s.lanes.contains_key(lanes[i].0) {
                    s.lanes[lanes[i].0]
                } else {
                    0
                },
            }),
{
    if s.visible <= up_to <= s.allocated {
        let i = choose|i: int|
            0 <= i < lanes.len() && !s.may_publish_lane((#[trigger] lanes[i]).0, lanes[i].1)
                && s.may_publish_lanes(lanes.take(i)) && e == (StoreError::SequenceGateViolation {
                operation,
                requested: lanes[i].1,
                allocated: s.allocated,
                visible: s.lane_bound(lanes[i].0),
            });
        assert forall|j: int| 0 <= j < i implies (#[trigger] lanes[j]).1 <= s.allocated && (
        s.lanes.contains_key(lanes[j].0) ==> s.lanes[lanes[j].0] <= lanes[j].1) by {
            assert(lanes.take(i)[j] == lanes[j]);
            assert(s.may_publish_lane(lanes.take(i)[j].0, lanes.take(i)[j].1));
        }
    }
}

} // verus!
