//! Points on the hybrid logical clock.

use vstd::prelude::*;

verus! {

/// A point on the hybrid logical clock.
#[derive(Clone, Copy, Debug, PartialEq, Eq, PartialOrd, Ord, Hash, Structural)]
pub struct HlcPoint {
    /// Wall clock milliseconds.
    pub wall_ms: u64,
    /// Global sequence.
    pub global_sequence: u64,
}

impl HlcPoint {
    /// This point comes before another: by wall clock, then by sequence.
    pub open spec fn before_spec(&self, other: HlcPoint) -> bool {
        ||| self.wall_ms < other.wall_ms
        ||| self.wall_ms == other.wall_ms && self.global_sequence < other.global_sequence
    }

    /// The later of two points.
    pub open spec fn latest_spec(self, other: HlcPoint) -> HlcPoint {
        if self.before_spec(other) {
            other
        } else {
            self
        }
    }

    /// Of two points the one with the greater sequence, this one where they
    /// are equal.
    pub open spec fn max_by_sequence_spec(self, other: HlcPoint) -> HlcPoint {
        if other.global_sequence > self.global_sequence {
            other
        } else {
            self
        }
    }

    /// Of two points the one with the smaller sequence, this one where they
    /// are equal.
    pub open spec fn min_by_sequence_spec(self, other: HlcPoint) -> HlcPoint {
        if other.global_sequence < self.global_sequence {
            other
        } else {
            self
        }
    }

    /// The point before every event.
    pub fn origin() -> (p: HlcPoint)
        ensures
            p == (HlcPoint { wall_ms: 0, global_sequence: 0 }),
    {
        HlcPoint { wall_ms: 0, global_sequence: 0 }
    }

    /// Whether this point comes before `other`.
    pub fn before(&self, other: &HlcPoint) -> (r: bool)
        ensures
            r == self.before_spec(*other),
    {
        self.wall_ms < other.wall_ms || (self.wall_ms == other.wall_ms && self.global_sequence
            < other.global_sequence)
    }

    /// The later of two points.
    pub fn latest(self, other: HlcPoint) -> (r: HlcPoint)
        ensures
            r == self.latest_spec(other),
    {
        if self.before(&other) {
            other
        } else {
            self
        }
    }

    /// The point with the greater sequence.
    pub fn max_by_sequence(self, other: HlcPoint) -> (r: HlcPoint)
        ensures
            r == self.max_by_sequence_spec(other),
    {
        if other.global_sequence > self.global_sequence {
            other
        } else {
            self
        }
    }

    /// The point with the smaller sequence.
    pub fn min_by_sequence(self, other: HlcPoint) -> (r: HlcPoint)
        ensures
            r == self.min_by_sequence_spec(other),
    {
        if other.global_sequence < self.global_sequence {
            other
        } else {
            self
        }
    }
}

/// A point comes before another by wall clock, and by sequence where the wall
/// clocks agree.
pub proof fn law_points_go_by_wall_clock_first(a: HlcPoint, b: HlcPoint, r: bool)
    requires
        call_ensures(HlcPoint::before, (&a, &b), r),
    ensures
        a.wall_ms < b.wall_ms ==> r,
        a.wall_ms > b.wall_ms ==> !r,
        a.wall_ms == b.wall_ms ==> (r <==> a.global_sequence < b.global_sequence),
{
}

/// The later of two points is one of them, and neither lies after it.
pub proof fn law_latest_is_no_earlier(a: HlcPoint, b: HlcPoint, r: HlcPoint)
    requires
        call_ensures(HlcPoint::latest, (a, b), r),
    ensures
        r == a || r == b,
        a.wall_ms <= r.wall_ms && b.wall_ms <= r.wall_ms,
        a.wall_ms == r.wall_ms ==> a.global_sequence <= r.global_sequence,
        b.wall_ms == r.wall_ms ==> b.global_sequence <= r.global_sequence,
{
}

/// Of two points the greater and the smaller by sequence are those two again, and
/// where the sequences are equal both are the first.
pub proof fn law_points_by_sequence(a: HlcPoint, b: HlcPoint, high: HlcPoint, low: HlcPoint)
    requires
        call_ensures(HlcPoint::max_by_sequence, (a, b), high),
        call_ensures(HlcPoint::min_by_sequence, (a, b), low),
    ensures
        (high == a && low == b) || (high == b && low == a) || (high == a && low == a),
        low.global_sequence <= a.global_sequence <= high.global_sequence,
        low.global_sequence <= b.global_sequence <= high.global_sequence,
        a.global_sequence == b.global_sequence <==> high == a && low == a,
{
}

} // verus!
