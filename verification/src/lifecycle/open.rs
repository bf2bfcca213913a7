//! Where the clock of a store stands when it opens.

use crate::error::{StoreError, StoreInvariant};
use crate::event::EventKind;
use crate::hlc::HlcPoint;
use crate::index::entry::IndexEntry;
use crate::index::store::StoreIndex;
use crate::platform::clock::wall_ms_from_timestamp_us;
use crate::sort::{stable_sort, Ranked};
use std::sync::Arc;
use vstd::prelude::*;

verus! {

/// The clock point of an event.
pub open spec fn point_of(entry: &IndexEntry) -> HlcPoint {
    HlcPoint { wall_ms: entry.wall_ms, global_sequence: entry.global_sequence }
}

/// The clock points of rows.
pub open spec fn points_of(rows: Seq<Arc<IndexEntry>>) -> Seq<HlcPoint> {
    rows.map_values(|row: Arc<IndexEntry>| point_of(&row))
}

/// The latest of some points: the origin where there are none.
pub open spec fn is_highest(points: Seq<HlcPoint>, highest: HlcPoint) -> bool {
    if points.len() == 0 {
        highest == (HlcPoint { wall_ms: 0, global_sequence: 0 })
    } else {
        &&& points.contains(highest)
        &&& forall|i: int| 0 <= i < points.len() ==> !highest.before_spec(#[trigger] points[i])
    }
}

/// The latest clock point in the index.
pub fn highest_index_hlc(index: &StoreIndex) -> (r: HlcPoint)
    requires
        index.wf(),
    ensures
        is_highest(points_of(index.id_rows()), r),
{
    let entries = index.all_entries();
    let ghost points = points_of(index.id_rows());
    let mut highest = HlcPoint::origin();
    let mut i: usize = 0;
    while i < entries.len()
        invariant
            i <= entries@.len(),
            points == points_of(index.id_rows()),
            crate::index::restore::shares(index.id_rows(), entries@),
            is_highest(points.take(i as int), highest),
        decreases entries@.len() - i,
    {
        let entry = &entries[i];
        let point = HlcPoint { wall_ms: entry.wall_ms, global_sequence: entry.global_sequence };
        proof {
            assert(index.id_rows()[i as int].same(&entries@[i as int]));
            assert(points[i as int] == point);
            let longer = points.take(i + 1);
            assert(longer =~= points.take(i as int).push(point));
            assert(longer[i as int] == point);
            if i > 0 {
                let w = choose|w: int|
                    0 <= w < points.take(i as int).len() && points.take(i as int)[w] == highest;
                assert(longer[w] == highest);
            }
            assert forall|k: int| 0 <= k < longer.len() implies (i > 0 ==> !highest.latest_spec(
                point,
            ).before_spec(#[trigger] longer[k])) && !(i == 0 && point.before_spec(longer[k])) by {
                if k < i {
                    assert(longer[k] == points.take(i as int)[k]);
                }
            }
        }
        highest = if i == 0 {
            point
        } else {
            highest.latest(point)
        };
        i += 1;
    }
    assert(points.take(points.len() as int) =~= points);
    highest
}

/// A close event's clock point, ranked by its sequence.
#[derive(Clone, Copy, Debug, PartialEq, Eq, Structural)]
pub struct ClosePoint {
    /// The point.
    pub point: HlcPoint,
}

impl Ranked for ClosePoint {
    open spec fn rank_le(a: ClosePoint, b: ClosePoint) -> bool {
        a.point.global_sequence <= b.point.global_sequence
    }

    proof fn rank_total(a: ClosePoint, b: ClosePoint) {
    }

    proof fn rank_transitive(a: ClosePoint, b: ClosePoint, c: ClosePoint) {
    }

    fn ranks_no_later(&self, other: &ClosePoint) -> (r: bool) {
        self.point.global_sequence <= other.point.global_sequence
    }

    fn dup(&self) -> (r: ClosePoint) {
        *self
    }
}

/// The close events among rows.
pub open spec fn close_points(rows: Seq<Arc<IndexEntry>>, close_kind: EventKind) -> Seq<
    ClosePoint,
> {
    rows.filter(|row: Arc<IndexEntry>| row.kind == close_kind).map_values(
        |row: Arc<IndexEntry>| ClosePoint { point: point_of(&row) },
    )
}

/// The close events in order of sequence.
pub open spec fn closes_in_order(rows: Seq<Arc<IndexEntry>>, close_kind: EventKind) -> Seq<
    ClosePoint,
> {
    crate::sort::sorted_by_rank(close_points(rows, close_kind))
}

/// None of the first `n` points lies before the one ahead of it.
pub open spec fn never_back(points: Seq<ClosePoint>, n: int) -> bool {
    forall|i: int, j: int|
        #![trigger points[i], points[j]]
        0 <= i && j == i + 1 && j < n ==> !points[j].point.before_spec(points[i].point)
}

/// The point of the last close event: the origin where there is none.
pub open spec fn last_of(closes: Seq<ClosePoint>) -> HlcPoint {
    if closes.len() == 0 {
        HlcPoint { wall_ms: 0, global_sequence: 0 }
    } else {
        closes.last().point
    }
}

/// A close event lies before the one ahead of it, none earlier does, and the
/// error names both.
pub open spec fn regressed(closes: Seq<ClosePoint>, e: StoreError) -> bool {
    exists|i: int|
        0 < i < closes.len() && #[trigger] never_back(closes, i)
            && closes[i].point.before_spec(closes[i - 1].point) && e == (
        StoreError::InvariantViolation {
            kind: StoreInvariant::CloseHlcRegression {
                previous: closes[i - 1].point,
                later: closes[i].point,
            },
        })
}

/// The clock point of the last close event: the origin where there is none. A
/// close event that lies before an earlier one is a violation.
pub fn last_close_hlc(index: &StoreIndex, close_kind: EventKind) -> (r: Result<
    HlcPoint,
    StoreError,
>)
    requires
        index.wf(),
    ensures
        ({
            let closes = closes_in_order(index.id_rows(), close_kind);
            match r {
                Ok(last) => never_back(closes, closes.len() as int) && last == last_of(closes),
                Err(e) => regressed(closes, e),
            }
        }),
{
    let entries = index.all_entries();
    let ghost rows = index.id_rows();
    let ghost is_close = |row: Arc<IndexEntry>| row.kind == close_kind;
    let ghost to_close = |row: Arc<IndexEntry>| ClosePoint { point: point_of(&row) };
    let mut found: Vec<ClosePoint> = Vec::new();
    let mut i: usize = 0;
    proof {
        reveal(Seq::filter);
        assert(rows.take(0).filter(is_close).map_values(to_close) =~= found@);
    }
    while i < entries.len()
        invariant
            i <= entries@.len(),
            rows == index.id_rows(),
            crate::index::restore::shares(rows, entries@),
            is_close == |row: Arc<IndexEntry>| row.kind == close_kind,
            to_close == (|row: Arc<IndexEntry>| (ClosePoint { point: point_of(&row) })),
            found@ == rows.take(i as int).filter(is_close).map_values(to_close),
        decreases entries@.len() - i,
    {
        proof {
            reveal(Seq::filter);
            assert(rows[i as int].same(&entries@[i as int]));
            assert(rows.take(i + 1).drop_last() =~= rows.take(i as int));
        }
        let entry = &entries[i];
        if entry.kind == close_kind {
            found.push(
                ClosePoint {
                    point: HlcPoint {
                        wall_ms: entry.wall_ms,
                        global_sequence: entry.global_sequence,
                    },
                },
            );
        }
        assert(found@ =~= rows.take(i + 1).filter(is_close).map_values(to_close));
        i += 1;
    }
    assert(rows.take(rows.len() as int) =~= rows);
    assert(found@ == close_points(rows, close_kind));
    let closes = stable_sort(&found);
    let mut latest = HlcPoint::origin();
    let mut i: usize = 0;
    while i < closes.len()
        invariant
            i <= closes@.len(),
            closes@ == closes_in_order(index.id_rows(), close_kind),
            never_back(closes@, i as int),
            latest == (if i == 0 {
                HlcPoint { wall_ms: 0, global_sequence: 0 }
            } else {
                closes@[i - 1].point
            }),
        decreases closes@.len() - i,
    {
        let point = closes[i].point;
        if point.before(&latest) {
            assert(i > 0);
            assert(never_back(closes@, i as int));
            return Err(
                StoreError::InvariantViolation {
                    kind: StoreInvariant::CloseHlcRegression { previous: latest, later: point },
                },
            );
        }
        latest = point;
        i += 1;
    }
    Ok(latest)
}

/// Where a store opens by its clock: at the latest of what it recovered, its
/// last close and the present, the last with the sequence that it recovered.
pub open spec fn open_candidate(
    now_us: i64,
    max_recovered_hlc: HlcPoint,
    last_close_hlc: HlcPoint,
) -> HlcPoint {
    max_recovered_hlc.latest_spec(last_close_hlc).latest_spec(
        HlcPoint {
            wall_ms: if now_us < 0 {
                0
            } else {
                (now_us as int / 1000) as u64
            },
            global_sequence: max_recovered_hlc.global_sequence,
        },
    )
}

/// Where a store opens by its clock. A clock before the Unix epoch counts as
/// the epoch.
pub fn lifecycle_open_candidate(
    now_us: i64,
    max_recovered_hlc: HlcPoint,
    last_close_hlc: HlcPoint,
) -> (r: HlcPoint)
    ensures
        r == open_candidate(now_us, max_recovered_hlc, last_close_hlc),
{
    let now_ms: u64 = match wall_ms_from_timestamp_us(now_us) {
        Ok(now_ms) => now_ms,
        Err(_) => 0,
    };
    max_recovered_hlc.latest(last_close_hlc).latest(
        HlcPoint { wall_ms: now_ms, global_sequence: max_recovered_hlc.global_sequence },
    )
}

/// A store must not open before what it recovered or before its last close.
pub fn validate_bootstrap_hlc(
    open_hlc: HlcPoint,
    max_recovered_hlc: HlcPoint,
    last_close_hlc: HlcPoint,
) -> (r: Result<(), StoreError>)
    ensures
        r is Ok <==> !open_hlc.before_spec(max_recovered_hlc) && !open_hlc.before_spec(
            last_close_hlc,
        ),
        r matches Err(e) ==> e == (StoreError::InvariantViolation {
            kind: StoreInvariant::BootstrapHlcOutOfOrder {
                open_hlc,
                max_recovered_hlc,
                last_close_hlc,
            },
        }),
{
    if open_hlc.before(&max_recovered_hlc) || open_hlc.before(&last_close_hlc) {
        return Err(
            StoreError::InvariantViolation {
                kind: StoreInvariant::BootstrapHlcOutOfOrder {
                    open_hlc,
                    max_recovered_hlc,
                    last_close_hlc,
                },
            },
        );
    }
    Ok(())
}

/// Where a store opens. It fails only where the close events go back.
pub fn bootstrap_open_hlc(index: &StoreIndex, now_us: i64, close_kind: EventKind) -> (r: Result<
    HlcPoint,
    StoreError,
>)
    requires
        index.wf(),
    ensures
        ({
            let closes = closes_in_order(index.id_rows(), close_kind);
            match r {
                Ok(open) => exists|highest: HlcPoint|
                    #[trigger] is_highest(points_of(index.id_rows()), highest) && never_back(
                        closes,
                        closes.len() as int,
                    ) && open == open_candidate(now_us, highest, last_of(closes)),
                Err(e) => regressed(closes, e),
            }
        }),
{
    let highest = highest_index_hlc(index);
    let last_close = match last_close_hlc(index, close_kind) {
        Ok(last_close) => last_close,
        Err(e) => {
            return Err(e);
        },
    };
    let open = lifecycle_open_candidate(now_us, highest, last_close);
    match validate_bootstrap_hlc(open, highest, last_close) {
        Ok(()) => Ok(open),
        Err(e) => {
            proof {
                law_candidate_is_in_order(now_us, highest, last_close);
            }
            Err(e)
        },
    }
}

/// Where a store opens is never before what it recovered, nor before its last
/// close, whatever its clock says.
pub proof fn law_candidate_is_in_order(
    now_us: i64,
    max_recovered_hlc: HlcPoint,
    last_close_hlc: HlcPoint,
)
    ensures
        !open_candidate(now_us, max_recovered_hlc, last_close_hlc).before_spec(max_recovered_hlc),
        !open_candidate(now_us, max_recovered_hlc, last_close_hlc).before_spec(last_close_hlc),
{
}

/// Where close events never go back, the last is the latest of them all.
pub proof fn law_last_close_is_latest(closes: Seq<ClosePoint>, i: int)
    requires
        never_back(closes, closes.len() as int),
        0 <= i < closes.len(),
    ensures
        !closes.last().point.before_spec(closes[i].point),
    decreases closes.len(),
{
    if i < closes.len() - 1 {
        let front = closes.drop_last();
        assert forall|a: int, b: int|
            #![trigger front[a], front[b]]
            0 <= a && b == a + 1 && b < front.len() implies !front[b].point.before_spec(
            front[a].point,
        ) by {
            assert(closes[a] == front[a] && closes[b] == front[b]);
        }
        law_last_close_is_latest(front, i);
        assert(front[i] == closes[i]);
        assert(front.last() == closes[closes.len() - 2]);
        assert(closes.last() == closes[closes.len() - 1]);
        assert(!closes[closes.len() - 1].point.before_spec(closes[closes.len() - 2].point));
    }
}

/// What is wrong with the microseconds of a wall clock reading.
pub open spec fn timestamp_fault(wall_ms: u64) -> Option<StoreInvariant> {
    if wall_ms * 1000 > u64::MAX {
        Some(StoreInvariant::OpenHlcWallMsOverflow { wall_ms })
    } else if wall_ms * 1000 > i64::MAX {
        Some(StoreInvariant::OpenHlcTimestampOutOfRange { wall_ms })
    } else {
        None
    }
}

/// The timestamp of a clock point, in microseconds.
pub fn timestamp_us_for_hlc(point: HlcPoint) -> (r: Result<i64, StoreError>)
    ensures
        match timestamp_fault(point.wall_ms) {
            None => r matches Ok(us) && us == point.wall_ms * 1000,
            Some(kind) => r is Err && r->Err_0 == (StoreError::InvariantViolation { kind }),
        },
{
    let us: u64 = match point.wall_ms.checked_mul(1000) {
        Some(us) => us,
        None => {
            return Err(
                StoreError::InvariantViolation {
                    kind: StoreInvariant::OpenHlcWallMsOverflow { wall_ms: point.wall_ms },
                },
            );
        },
    };
    if us > 0x7fff_ffff_ffff_ffff {
        return Err(
            StoreError::InvariantViolation {
                kind: StoreInvariant::OpenHlcTimestampOutOfRange { wall_ms: point.wall_ms },
            },
        );
    }
    Ok(us as i64)
}

/// The largest of some segment numbers.
pub fn latest_segment_id(ids: &[u64]) -> (r: Option<u64>)
    ensures
        match r {
            Some(latest) => ids@.contains(latest) && forall|i: int|
                0 <= i < ids@.len() ==> #[trigger] ids@[i] <= latest,
            None => ids@.len() == 0,
        },
{
    let mut latest: Option<u64> = None;
    let mut i: usize = 0;
    while i < ids.len()
        invariant
            i <= ids@.len(),
            match latest {
                Some(latest) => (exists|k: int| 0 <= k < i && ids@[k] == latest) && forall|k: int|
                    0 <= k < i ==> #[trigger] ids@[k] <= latest,
                None => i == 0,
            },
        decreases ids@.len() - i,
    {
        let id: u64 = ids[i];
        assert(ids@[i as int] == id);
        latest =
        match latest {
            Some(so_far) => if id > so_far {
                Some(id)
            } else {
                Some(so_far)
            },
            None => Some(id),
        };
        i += 1;
    }
    latest
}

/// The number of the segment that is written next: one past the largest there
/// is.
pub fn next_active_segment_id(ids: &[u64]) -> (r: u64)
    requires
        !ids@.contains(u64::MAX),
    ensures
        if ids@.len() == 0 {
            r == 1
        } else {
            r >= 1 && ids@.contains((r - 1) as u64) && forall|i: int|
                0 <= i < ids@.len() ==> #[trigger] ids@[i] < r
        },
{
    match latest_segment_id(ids) {
        Some(latest) => latest + 1,
        None => 1,
    }
}

/// What is done about payload types that share a kind.
#[derive(Clone, Copy, Debug, PartialEq, Eq, Structural)]
pub enum EventPayloadValidation {
    /// A warning, once.
    Warn,
    /// The store does not open.
    FailFast,
    /// Nothing.
    Silent,
}

/// Whether a store opens with the payload types as they are registered, and
/// whether to warn of them.
pub fn validate_payload_registry_for_open(
    validation: EventPayloadValidation,
    collisions: Option<String>,
    warned_before: bool,
) -> (r: Result<bool, StoreError>)
    ensures
        match collisions {
            None => r == Ok::<bool, StoreError>(false),
            Some(message) => match validation {
                EventPayloadValidation::Warn => r == Ok::<bool, StoreError>(!warned_before),
                EventPayloadValidation::FailFast => r is Err && r->Err_0 == (
                StoreError::EventPayloadRegistry { message }),
                EventPayloadValidation::Silent => r == Ok::<bool, StoreError>(false),
            },
        },
{
    let message = match collisions {
        Some(message) => message,
        None => return Ok(false),
    };
    match validation {
        EventPayloadValidation::Warn => Ok(!warned_before),
        EventPayloadValidation::FailFast => Err(StoreError::EventPayloadRegistry { message }),
        EventPayloadValidation::Silent => Ok(false),
    }
}

/// Where a store has opened, by the event that says so: it must be in the index
/// and not before where the store was to open, nor before its last close.
pub fn opened_hlc(
    index: &StoreIndex,
    event_id: u128,
    candidate: HlcPoint,
    close_kind: EventKind,
) -> (r: Result<HlcPoint, StoreError>)
    requires
        index.wf(),
    ensures
        ({
            let closes = closes_in_order(index.id_rows(), close_kind);
            let seen = index.by_id.entries().contains_key(event_id) && index.sequence@.sees(
                index.by_id.entries()[event_id].global_sequence,
            );
            let open = point_of(&index.by_id.entries()[event_id]);
            let last = last_of(closes);
            match r {
                Ok(p) => seen && p == open && never_back(closes, closes.len() as int)
                    && !open.before_spec(candidate) && !open.before_spec(last),
                Err(e) => if !seen {
                    e == (StoreError::InvariantViolation {
                        kind: StoreInvariant::OpenReceiptNotIndexed { event_id },
                    })
                } else if never_back(closes, closes.len() as int) {
                    (open.before_spec(candidate) || open.before_spec(last)) && e == (
                    StoreError::InvariantViolation {
                        kind: StoreInvariant::BootstrapHlcOutOfOrder {
                            open_hlc: open,
                            max_recovered_hlc: candidate,
                            last_close_hlc: last,
                        },
                    })
                } else {
                    regressed(closes, e)
                },
            }
        }),
{
    let open = match index.get_by_id(event_id) {
        Some(entry) => HlcPoint {
            wall_ms: entry.wall_ms,
            global_sequence: entry.global_sequence,
        },
        None => {
            return Err(
                StoreError::InvariantViolation {
                    kind: StoreInvariant::OpenReceiptNotIndexed { event_id },
                },
            );
        },
    };
    let last_close = match last_close_hlc(index, close_kind) {
        Ok(last_close) => last_close,
        Err(e) => {
            proof {
                let closes = closes_in_order(index.id_rows(), close_kind);
                let i = choose|i: int|
                    0 < i < closes.len() && #[trigger] never_back(closes, i)
                        && closes[i].point.before_spec(closes[i - 1].point);
                assert(closes[i].point.before_spec(closes[i - 1].point));
            }
            return Err(e);
        },
    };
    match validate_bootstrap_hlc(open, candidate, last_close) {
        Ok(()) => Ok(open),
        Err(e) => Err(e),
    }
}

/// The latest point of the index is that of one of its events, and no event lies
/// after it: neither by wall clock nor, at the same wall clock, by sequence.
/// Without events it is the origin.
pub proof fn law_highest_point_is_of_an_event(index: &StoreIndex, r: HlcPoint)
    requires
        index.wf(),
        call_ensures(highest_index_hlc, (index,), r),
    ensures
        index.id_rows().len() == 0 ==> r.wall_ms == 0 && r.global_sequence == 0,
        index.id_rows().len() > 0 ==> exists|i: int|
            0 <= i < index.id_rows().len() && (#[trigger] index.id_rows()[i]).wall_ms == r.wall_ms
                && index.id_rows()[i].global_sequence == r.global_sequence,
        forall|i: int|
            0 <= i < index.id_rows().len() ==> (#[trigger] index.id_rows()[i]).wall_ms < r.wall_ms
                || (index.id_rows()[i].wall_ms == r.wall_ms && index.id_rows()[i].global_sequence
                <= r.global_sequence),
{
    let rows = index.id_rows();
    let points = points_of(rows);
    if rows.len() > 0 {
        let i = choose|i: int| 0 <= i < points.len() && points[i] == r;
        assert(rows[i].wall_ms == r.wall_ms);
    }
    assert forall|i: int| 0 <= i < rows.len() implies (#[trigger] rows[i]).wall_ms < r.wall_ms || (
    rows[i].wall_ms == r.wall_ms && rows[i].global_sequence <= r.global_sequence) by {
        assert(!r.before_spec(points[i]));
    }
}

/// The close events in order are the close events of the index, in order of
/// sequence.
proof fn lemma_closes(rows: Seq<Arc<IndexEntry>>, close_kind: EventKind)
    ensures
        forall|i: int|
            #![trigger rows[i]]
            0 <= i < rows.len() && rows[i].kind == close_kind ==> closes_in_order(
                rows,
                close_kind,
            ).contains(ClosePoint { point: point_of(&rows[i]) }),
        forall|i: int, j: int|
            #![trigger closes_in_order(rows, close_kind)[i], closes_in_order(rows, close_kind)[j]]
            0 <= i <= j < closes_in_order(rows, close_kind).len() ==> closes_in_order(
                rows,
                close_kind,
            )[i].point.global_sequence <= closes_in_order(
                rows,
                close_kind,
            )[j].point.global_sequence,
{
    let is_close = |row: Arc<IndexEntry>| row.kind == close_kind;
    let kept = rows.filter(is_close);
    let points = close_points(rows, close_kind);
    let closes = closes_in_order(rows, close_kind);
    crate::sort::law_stable_sort_exists(points);
    points.to_multiset_ensures();
    closes.to_multiset_ensures();
    assert forall|i: int|
        #![trigger rows[i]]
        0 <= i < rows.len() && rows[i].kind == close_kind implies closes.contains(
        ClosePoint { point: point_of(&rows[i]) },
    ) by {
        rows.lemma_filter_contains(is_close, i);
        let k = choose|k: int| 0 <= k < kept.len() && kept[k] == rows[i];
        let x = ClosePoint { point: point_of(&rows[i]) };
        assert(points[k] == x);
        assert(points.to_multiset().count(x) > 0);
        assert(closes.to_multiset().count(x) > 0);
    }
    assert forall|i: int, j: int|
        #![trigger closes[i], closes[j]]
        0 <= i <= j < closes.len() implies closes[i].point.global_sequence
        <= closes[j].point.global_sequence by {
        assert(<ClosePoint as Ranked>::rank_le(closes[i], closes[j]));
    }
}

/// A close event in order is one of the index.
proof fn lemma_close_is_a_row(rows: Seq<Arc<IndexEntry>>, close_kind: EventKind, j: int) -> (i: int)
    requires
        0 <= j < closes_in_order(rows, close_kind).len(),
    ensures
        0 <= i < rows.len(),
        rows[i].kind == close_kind,
        point_of(&rows[i]) == closes_in_order(rows, close_kind)[j].point,
{
    let is_close = |row: Arc<IndexEntry>| row.kind == close_kind;
    let kept = rows.filter(is_close);
    let points = close_points(rows, close_kind);
    let closes = closes_in_order(rows, close_kind);
    crate::sort::law_stable_sort_exists(points);
    points.to_multiset_ensures();
    closes.to_multiset_ensures();
    assert(closes.to_multiset().count(closes[j]) > 0);
    assert(points.contains(closes[j]));
    let k = choose|k: int| 0 <= k < points.len() && points[k] == closes[j];
    rows.lemma_filter_pred(is_close, k);
    rows.lemma_filter_contains_rev(is_close, kept[k]);
    choose|i: int| 0 <= i < rows.len() && rows[i] == kept[k]
}

/// The wall clocks of close events that never go back never go back either.
proof fn lemma_walls_ascend(closes: Seq<ClosePoint>, i: int, j: int)
    requires
        never_back(closes, closes.len() as int),
        0 <= i <= j < closes.len(),
    ensures
        closes[i].point.wall_ms <= closes[j].point.wall_ms,
    decreases j - i,
{
    if i < j {
        lemma_walls_ascend(closes, i, j - 1);
        assert(!closes[j].point.before_spec(closes[j - 1].point));
    }
}

/// The last close is the point of the close event of the highest sequence, or the
/// origin where there is none. It is told exactly where no close event of a
/// higher sequence has an earlier wall clock; the error names two that do.
pub proof fn law_last_close_has_the_highest_sequence(
    index: &StoreIndex,
    close_kind: EventKind,
    r: Result<HlcPoint, StoreError>,
)
    requires
        index.wf(),
        call_ensures(last_close_hlc, (index, close_kind), r),
    ensures
        r matches Ok(last) ==> {
            &&& forall|i: int|
                0 <= i < index.id_rows().len() && (#[trigger] index.id_rows()[i]).kind == close_kind
                    ==> index.id_rows()[i].global_sequence <= last.global_sequence
                    && index.id_rows()[i].wall_ms <= last.wall_ms
            &&& (exists|i: int|
                0 <= i < index.id_rows().len() && (#[trigger] index.id_rows()[i]).kind == close_kind
                    && index.id_rows()[i].global_sequence == last.global_sequence
                    && index.id_rows()[i].wall_ms == last.wall_ms) || (last.wall_ms == 0
                && last.global_sequence == 0 && forall|i: int|
                0 <= i < index.id_rows().len() ==> (#[trigger] index.id_rows()[i]).kind
                    != close_kind)
            &&& forall|i: int, j: int|
                #![trigger index.id_rows()[i], index.id_rows()[j]]
                0 <= i < index.id_rows().len() && 0 <= j < index.id_rows().len()
                    && index.id_rows()[i].kind == close_kind && index.id_rows()[j].kind == close_kind
                    && index.id_rows()[i].global_sequence < index.id_rows()[j].global_sequence
                    ==> index.id_rows()[i].wall_ms <= index.id_rows()[j].wall_ms
        },
        r matches Err(e) ==> exists|i: int, j: int|
            #![trigger index.id_rows()[i], index.id_rows()[j]]
            0 <= i < index.id_rows().len() && 0 <= j < index.id_rows().len()
                && index.id_rows()[i].kind == close_kind && index.id_rows()[j].kind == close_kind
                && index.id_rows()[i].global_sequence <= index.id_rows()[j].global_sequence
                && index.id_rows()[i].wall_ms > index.id_rows()[j].wall_ms && e == (
            StoreError::InvariantViolation {
                kind: StoreInvariant::CloseHlcRegression {
                    previous: HlcPoint {
                        wall_ms: index.id_rows()[i].wall_ms,
                        global_sequence: index.id_rows()[i].global_sequence,
                    },
                    later: HlcPoint {
                        wall_ms: index.id_rows()[j].wall_ms,
                        global_sequence: index.id_rows()[j].global_sequence,
                    },
                },
            }),
{
    let rows = index.id_rows();
    let closes = closes_in_order(rows, close_kind);
    lemma_closes(rows, close_kind);
    match r {
        Ok(last) => {
            assert forall|i: int|
                0 <= i < rows.len() && (#[trigger] rows[i]).kind
                    == close_kind implies rows[i].global_sequence <= last.global_sequence
                && rows[i].wall_ms <= last.wall_ms by {
                let x = ClosePoint { point: point_of(&rows[i]) };
                let k = choose|k: int| 0 <= k < closes.len() && closes[k] == x;
                assert(closes[k].point.global_sequence
                    <= closes[closes.len() - 1].point.global_sequence);
                lemma_walls_ascend(closes, k, closes.len() - 1);
            }
            assert forall|i: int, j: int|
                #![trigger rows[i], rows[j]]
                0 <= i < rows.len() && 0 <= j < rows.len() && rows[i].kind == close_kind
                    && rows[j].kind == close_kind && rows[i].global_sequence
                    < rows[j].global_sequence implies rows[i].wall_ms <= rows[j].wall_ms by {
                let x = ClosePoint { point: point_of(&rows[i]) };
                let y = ClosePoint { point: point_of(&rows[j]) };
                let a = choose|k: int| 0 <= k < closes.len() && closes[k] == x;
                let b = choose|k: int| 0 <= k < closes.len() && closes[k] == y;
                if b < a {
                    assert(closes[b].point.global_sequence <= closes[a].point.global_sequence);
                }
                lemma_walls_ascend(closes, a, b);
            }
            if closes.len() > 0 {
                let j = closes.len() - 1;
                assert(closes[j].point == last);
                let i = lemma_close_is_a_row(rows, close_kind, j);
                assert(rows[i].kind == close_kind);
            }
        },
        Err(e) => {
            let k = choose|k: int|
                0 < k < closes.len() && #[trigger] never_back(closes, k)
                    && closes[k].point.before_spec(closes[k - 1].point) && e == (
                StoreError::InvariantViolation {
                    kind: StoreInvariant::CloseHlcRegression {
                        previous: closes[k - 1].point,
                        later: closes[k].point,
                    },
                });
            let i = lemma_close_is_a_row(rows, close_kind, k - 1);
            let j = lemma_close_is_a_row(rows, close_kind, k);
            assert(closes[k - 1].point.global_sequence <= closes[k].point.global_sequence);
            assert(rows[i].kind == close_kind && rows[j].kind == close_kind);
        },
    }
}

/// Where a store opens is one of what it recovered, its last close and the present
/// with the sequence that it recovered, and none of the three lies after it. A
/// clock before the epoch counts as the epoch.
pub proof fn law_store_opens_at_the_latest(
    now_us: i64,
    recovered: HlcPoint,
    last_close: HlcPoint,
    r: HlcPoint,
)
    requires
        call_ensures(lifecycle_open_candidate, (now_us, recovered, last_close), r),
    ensures
        r.wall_ms >= recovered.wall_ms && r.wall_ms >= last_close.wall_ms,
        r.wall_ms == recovered.wall_ms ==> r.global_sequence >= recovered.global_sequence,
        r.wall_ms == last_close.wall_ms ==> r.global_sequence >= last_close.global_sequence,
        now_us >= 0 ==> r.wall_ms >= now_us as int / 1000,
        r == recovered || r == last_close || (now_us >= 0 && r.wall_ms == now_us as int / 1000
            && r.global_sequence == recovered.global_sequence),
{
}

/// A store opens where it is not before what it recovered, nor before its last
/// close: by wall clock, and by sequence where the wall clocks agree.
pub proof fn law_store_never_opens_in_its_past(
    open: HlcPoint,
    recovered: HlcPoint,
    last_close: HlcPoint,
    r: Result<(), StoreError>,
)
    requires
        call_ensures(validate_bootstrap_hlc, (open, recovered, last_close), r),
    ensures
        r is Ok <==> {
            &&& open.wall_ms > recovered.wall_ms || (open.wall_ms == recovered.wall_ms
                && open.global_sequence >= recovered.global_sequence)
            &&& open.wall_ms > last_close.wall_ms || (open.wall_ms == last_close.wall_ms
                && open.global_sequence >= last_close.global_sequence)
        },
{
}

/// Where a store opens no event of it lies after, and its wall clock is no earlier
/// than the present.
pub proof fn law_store_opens_after_its_events(
    index: &StoreIndex,
    now_us: i64,
    close_kind: EventKind,
    open: HlcPoint,
    i: int,
)
    requires
        index.wf(),
        call_ensures(
            bootstrap_open_hlc,
            (index, now_us, close_kind),
            Ok::<HlcPoint, StoreError>(open),
        ),
        0 <= i < index.id_rows().len(),
    ensures
        index.id_rows()[i].wall_ms < open.wall_ms || (index.id_rows()[i].wall_ms == open.wall_ms
            && index.id_rows()[i].global_sequence <= open.global_sequence),
        now_us >= 0 ==> open.wall_ms >= now_us as int / 1000,
{
    let points = points_of(index.id_rows());
    let closes = closes_in_order(index.id_rows(), close_kind);
    let highest = choose|highest: HlcPoint| #[trigger]
        is_highest(points, highest) && open == open_candidate(now_us, highest, last_of(closes));
    assert(!highest.before_spec(points[i]));
}

/// A clock point has a timestamp exactly where its milliseconds in microseconds
/// fit, and that is the timestamp.
pub proof fn law_timestamp_is_in_microseconds(point: HlcPoint, r: Result<i64, StoreError>)
    requires
        call_ensures(timestamp_us_for_hlc, (point,), r),
    ensures
        r is Ok <==> point.wall_ms * 1000 <= i64::MAX,
        r matches Ok(us) ==> us == point.wall_ms * 1000,
        r matches Err(e) ==> (e matches StoreError::InvariantViolation { kind } && match kind {
            StoreInvariant::OpenHlcWallMsOverflow { wall_ms } => wall_ms == point.wall_ms
                && point.wall_ms * 1000 > u64::MAX,
            StoreInvariant::OpenHlcTimestampOutOfRange { wall_ms } => wall_ms == point.wall_ms
                && point.wall_ms * 1000 <= u64::MAX,
            _ => false,
        }),
{
}

/// Where a store has opened is the point of the event that says so. Readers see
/// that event, and it lies neither before where the store was to open nor before
/// any close event.
pub proof fn law_open_event_follows_every_close(
    index: &StoreIndex,
    event_id: u128,
    candidate: HlcPoint,
    close_kind: EventKind,
    p: HlcPoint,
    i: int,
)
    requires
        index.wf(),
        call_ensures(
            opened_hlc,
            (index, event_id, candidate, close_kind),
            Ok::<HlcPoint, StoreError>(p),
        ),
        0 <= i < index.id_rows().len(),
    ensures
        index.by_id.entries().contains_key(event_id),
        p.wall_ms == index.by_id.entries()[event_id].wall_ms,
        p.global_sequence == index.by_id.entries()[event_id].global_sequence,
        candidate.wall_ms < p.wall_ms || (candidate.wall_ms == p.wall_ms
            && candidate.global_sequence <= p.global_sequence),
        index.id_rows()[i].kind == close_kind ==> index.id_rows()[i].wall_ms < p.wall_ms || (
        index.id_rows()[i].wall_ms == p.wall_ms && index.id_rows()[i].global_sequence
            <= p.global_sequence),
{
    let rows = index.id_rows();
    let closes = closes_in_order(rows, close_kind);
    lemma_closes(rows, close_kind);
    if rows[i].kind == close_kind {
        let x = ClosePoint { point: point_of(&rows[i]) };
        let k = choose|k: int| 0 <= k < closes.len() && closes[k] == x;
        law_last_close_is_latest(closes, k);
    }
}

/// The timestamp of a clock point leads back to the point's milliseconds.
pub proof fn law_timestamp_leads_back_to_its_point(
    point: HlcPoint,
    us: i64,
    back: Result<u64, StoreError>,
)
    requires
        call_ensures(timestamp_us_for_hlc, (point,), Ok::<i64, StoreError>(us)),
        call_ensures(wall_ms_from_timestamp_us, (us,), back),
    ensures
        back == Ok::<u64, StoreError>(point.wall_ms),
{
}

/// The segment that is written next has a number above all that there are, and the one
/// below it is taken; the first segment of all has number one.
pub proof fn law_next_segment_is_new(ids: &[u64], latest: Option<u64>, next: u64, i: int)
    requires
        !ids@.contains(u64::MAX),
        call_ensures(latest_segment_id, (ids,), latest),
        call_ensures(next_active_segment_id, (ids,), next),
    ensures
        0 <= i < ids@.len() ==> ids@[i] < next && latest is Some && ids@[i] <= latest->0,
        latest is None <==> ids@.len() == 0,
        latest is None ==> next == 1,
        latest matches Some(n) ==> next == n + 1 && ids@.contains(n),
{
    if latest is Some {
        let n = latest->0;
        let k = choose|k: int| 0 <= k < ids@.len() && ids@[k] == n;
        assert(ids@[k] < next);
        let prior = (next - 1) as u64;
        let m = choose|m: int| 0 <= m < ids@.len() && ids@[m] == prior;
        assert(ids@[m] <= n);
    }
}

} // verus!
