//! The course of a close: what comes after what, and what the close event says.

use super::open::timestamp_us_for_hlc;
use crate::error::StoreError;
use crate::hlc::HlcPoint;
use vstd::prelude::*;

verus! {

/// What the close event says.
#[derive(Clone, Copy, Debug, PartialEq, Eq, Structural)]
pub struct CloseLifecyclePayload {
    /// Wall clock milliseconds of what readers saw last.
    pub wall_ms: u64,
    /// Sequence of what readers saw last.
    pub global_sequence: u64,
}

/// What the close event says of the point that readers saw last, and its
/// timestamp.
pub fn close_event(close_hlc: HlcPoint) -> (r: Result<(CloseLifecyclePayload, i64), StoreError>)
    ensures
        match super::open::timestamp_fault(close_hlc.wall_ms) {
            None => r matches Ok((payload, timestamp_us)) && payload.wall_ms == close_hlc.wall_ms
                && payload.global_sequence == close_hlc.global_sequence && timestamp_us
                == close_hlc.wall_ms * 1000,
            Some(kind) => r is Err && r->Err_0 == (StoreError::InvariantViolation { kind }),
        },
{
    match timestamp_us_for_hlc(close_hlc) {
        Ok(timestamp_us) => Ok(
            (
                CloseLifecyclePayload {
                    wall_ms: close_hlc.wall_ms,
                    global_sequence: close_hlc.global_sequence,
                },
                timestamp_us,
            ),
        ),
        Err(e) => Err(e),
    }
}

/// What came back from the writer: its answer, or that it is gone.
pub fn recv_writer_reply<T>(received: Option<Result<T, StoreError>>) -> (r: Result<T, StoreError>)
    ensures
        r == match received {
            Some(reply) => reply,
            None => Err(StoreError::WriterCrashed),
        },
{
    match received {
        Some(reply) => reply,
        None => Err(StoreError::WriterCrashed),
    }
}

/// What a close does next.
#[derive(Clone, Copy, Debug, PartialEq, Eq, Structural)]
pub enum ClosePhase {
    /// Appends the close event.
    AppendClosed,
    /// Asks the writer to drain what waits and to stop.
    ShutdownWriter,
    /// Waits for the writer.
    JoinWriter,
    /// Flushes the idempotency keys.
    FlushKeys,
    /// Refreshes what makes the next opening fast.
    WriteArtifacts,
    /// Nothing more: the store is closed, and dropping it does nothing.
    Closed,
    /// Nothing more: the caller is told why, and dropping the store drains the
    /// writer.
    Failed,
}

/// What comes after a phase that went well or not.
pub open spec fn after_close_phase(phase: ClosePhase, ok: bool) -> ClosePhase {
    match phase {
        ClosePhase::AppendClosed => ClosePhase::ShutdownWriter,
        ClosePhase::Closed => ClosePhase::Closed,
        _ => if !ok {
            ClosePhase::Failed
        } else {
            match phase {
                ClosePhase::ShutdownWriter => ClosePhase::JoinWriter,
                ClosePhase::JoinWriter => ClosePhase::FlushKeys,
                ClosePhase::FlushKeys => ClosePhase::WriteArtifacts,
                ClosePhase::WriteArtifacts => ClosePhase::Closed,
                _ => ClosePhase::Failed,
            }
        },
    }
}

/// What comes after a phase. A close event that could not be appended does not
/// keep the store from closing; every other failure does.
pub fn next_close_phase(phase: ClosePhase, ok: bool) -> (r: ClosePhase)
    ensures
        r == after_close_phase(phase, ok),
{
    match phase {
        ClosePhase::AppendClosed => ClosePhase::ShutdownWriter,
        ClosePhase::Closed => ClosePhase::Closed,
        ClosePhase::ShutdownWriter => if ok {
            ClosePhase::JoinWriter
        } else {
            ClosePhase::Failed
        },
        ClosePhase::JoinWriter => if ok {
            ClosePhase::FlushKeys
        } else {
            ClosePhase::Failed
        },
        ClosePhase::FlushKeys => if ok {
            ClosePhase::WriteArtifacts
        } else {
            ClosePhase::Failed
        },
        ClosePhase::WriteArtifacts => if ok {
            ClosePhase::Closed
        } else {
            ClosePhase::Failed
        },
        ClosePhase::Failed => ClosePhase::Failed,
    }
}

/// Whether dropping a store still drains its writer: but for a store that was
/// closed.
pub fn should_shutdown_on_drop(phase: ClosePhase) -> (r: bool)
    ensures
        r == !(phase is Closed),
{
    match phase {
        ClosePhase::Closed => false,
        _ => true,
    }
}

/// Where a close stands after phases that went well or not.
pub open spec fn close_stands_at(went: Seq<bool>) -> ClosePhase
    decreases went.len(),
{
    if went.len() == 0 {
        ClosePhase::AppendClosed
    } else {
        after_close_phase(close_stands_at(went.drop_last()), went.last())
    }
}

/// How many phases come before one.
pub open spec fn close_place(phase: ClosePhase) -> int {
    match phase {
        ClosePhase::AppendClosed => 0,
        ClosePhase::ShutdownWriter => 1,
        ClosePhase::JoinWriter => 2,
        ClosePhase::FlushKeys => 3,
        ClosePhase::WriteArtifacts => 4,
        ClosePhase::Closed => 5,
        ClosePhase::Failed => -1,
    }
}

/// A close that is under way stands where as many phases come before as it went
/// through, and each but the first went well. So the idempotency keys are
/// flushed only after the writer has stopped, and the artifacts of the next
/// opening, whose failure may be borne, are written only after the keys are
/// safe.
pub proof fn law_close_is_straight(went: Seq<bool>)
    requires
        !(close_stands_at(went) is Failed),
        !(close_stands_at(went) is Closed),
    ensures
        close_place(close_stands_at(went)) == went.len(),
        forall|i: int| 0 < i < went.len() ==> #[trigger] went[i],
    decreases went.len(),
{
    if went.len() > 0 {
        let front = went.drop_last();
        law_close_is_straight(front);
        assert forall|i: int| 0 < i < went.len() implies #[trigger] went[i] by {
            if i < front.len() {
                assert(front[i]);
            }
        }
    }
}

/// A store that is closed has stopped its writer, flushed its keys and written
/// its artifacts.
pub proof fn law_closed_means_flushed(went: Seq<bool>)
    requires
        close_stands_at(went) is Closed,
    ensures
        went.len() >= close_place(ClosePhase::Closed),
        forall|i: int| 0 < i < close_place(ClosePhase::Closed) ==> #[trigger] went[i],
    decreases went.len(),
{
    let front = went.drop_last();
    if close_stands_at(front) is Closed {
        law_closed_means_flushed(front);
    } else {
        law_close_is_straight(front);
    }
    assert forall|i: int| 0 < i < close_place(ClosePhase::Closed) implies #[trigger] went[i] by {
        if i < front.len() {
            assert(front[i]);
        }
    }
}

/// A close goes through its phases in this order, as long as each after the first
/// goes well. The first of these that does not go well is the last, and what is
/// over stays over.
pub proof fn law_close_follows_its_list(
    phases: Seq<ClosePhase>,
    i: int,
    ok: bool,
    next: ClosePhase,
)
    requires
        phases == seq![
            ClosePhase::AppendClosed,
            ClosePhase::ShutdownWriter,
            ClosePhase::JoinWriter,
            ClosePhase::FlushKeys,
            ClosePhase::WriteArtifacts,
            ClosePhase::Closed,
        ],
        0 <= i < phases.len(),
        call_ensures(next_close_phase, (phases[i], ok), next),
    ensures
        i + 1 < phases.len() && (ok || i == 0) ==> next == phases[i + 1],
        0 < i && i + 1 < phases.len() && !ok ==> next is Failed,
        i + 1 == phases.len() ==> next is Closed,
{
}

/// A close that failed has failed for good, and the writer is still drained when
/// the store is dropped. Nothing but a close that is done does away with that.
pub proof fn law_only_a_closed_store_leaves_its_writer(
    ok: bool,
    next: ClosePhase,
    phase: ClosePhase,
    drains: bool,
)
    requires
        call_ensures(next_close_phase, (ClosePhase::Failed, ok), next),
        call_ensures(should_shutdown_on_drop, (phase,), drains),
    ensures
        next is Failed,
        !drains <==> phase is Closed,
{
}

/// The close event says what readers saw last, and is stamped with its wall clock
/// in microseconds. Where that does not fit there is no event.
pub proof fn law_close_event_is_stamped(
    close_hlc: HlcPoint,
    r: Result<(CloseLifecyclePayload, i64), StoreError>,
)
    requires
        call_ensures(close_event, (close_hlc,), r),
    ensures
        r is Ok <==> close_hlc.wall_ms * 1000 <= i64::MAX,
        r matches Ok((payload, timestamp_us)) ==> payload.wall_ms == close_hlc.wall_ms
            && payload.global_sequence == close_hlc.global_sequence && timestamp_us
            == close_hlc.wall_ms * 1000,
        r matches Err(e) ==> e is InvariantViolation,
{
}

} // verus!
