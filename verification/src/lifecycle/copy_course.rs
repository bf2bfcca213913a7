//! The course of a snapshot and of a fork: what comes after what while a store
//! is copied.

use vstd::prelude::*;

verus! {

/// What a store is copied for.
#[derive(Clone, Copy, Debug, PartialEq, Eq, Structural)]
pub enum CopyKind {
    /// A snapshot: bytes alone.
    Snapshot,
    /// A fork, which shares what it can.
    Fork,
}

/// What a copy does next.
#[derive(Clone, Copy, Debug, PartialEq, Eq, Structural)]
pub enum CopyPhase {
    /// Begins a fence, which keeps what is written from readers.
    BeginFence,
    /// Flushes what was written.
    Sync,
    /// Flushes the idempotency keys.
    FlushKeys,
    /// Notes how far the segments reach.
    ReadWatermark,
    /// Refuses a destination that is a symlink.
    CheckDestination,
    /// Makes the destination.
    CreateDestination,
    /// Refuses the store's own directory. A fork only.
    CompareDirectories,
    /// Removes what is in the way.
    ClearDestination,
    /// Copies the files.
    CopyFiles,
    /// Cancels the fence.
    CancelFence,
    /// Nothing more: the store was copied.
    Copied,
    /// Nothing more: the caller is told why.
    Failed,
}

/// What comes after a phase that went well or not.
pub open spec fn after_phase(kind: CopyKind, phase: CopyPhase, ok: bool) -> CopyPhase {
    match phase {
        CopyPhase::Copied => CopyPhase::Copied,
        CopyPhase::Failed => CopyPhase::Failed,
        _ => if !ok {
            CopyPhase::Failed
        } else {
            match phase {
                CopyPhase::BeginFence => CopyPhase::Sync,
                CopyPhase::Sync => CopyPhase::FlushKeys,
                CopyPhase::FlushKeys => CopyPhase::ReadWatermark,
                CopyPhase::ReadWatermark => CopyPhase::CheckDestination,
                CopyPhase::CheckDestination => CopyPhase::CreateDestination,
                CopyPhase::CreateDestination => if kind is Fork {
                    CopyPhase::CompareDirectories
                } else {
                    CopyPhase::ClearDestination
                },
                CopyPhase::CompareDirectories => CopyPhase::ClearDestination,
                CopyPhase::ClearDestination => CopyPhase::CopyFiles,
                CopyPhase::CopyFiles => CopyPhase::CancelFence,
                _ => CopyPhase::Copied,
            }
        },
    }
}

/// What comes after a phase: the first failure ends the copy.
pub fn next_copy_phase(kind: CopyKind, phase: CopyPhase, ok: bool) -> (r: CopyPhase)
    ensures
        r == after_phase(kind, phase, ok),
{
    if phase == CopyPhase::Copied {
        return CopyPhase::Copied;
    }
    if !ok {
        return CopyPhase::Failed;
    }
    match phase {
        CopyPhase::BeginFence => CopyPhase::Sync,
        CopyPhase::Sync => CopyPhase::FlushKeys,
        CopyPhase::FlushKeys => CopyPhase::ReadWatermark,
        CopyPhase::ReadWatermark => CopyPhase::CheckDestination,
        CopyPhase::CheckDestination => CopyPhase::CreateDestination,
        CopyPhase::CreateDestination => match kind {
            CopyKind::Fork => CopyPhase::CompareDirectories,
            CopyKind::Snapshot => CopyPhase::ClearDestination,
        },
        CopyPhase::CompareDirectories => CopyPhase::ClearDestination,
        CopyPhase::ClearDestination => CopyPhase::CopyFiles,
        CopyPhase::CopyFiles => CopyPhase::CancelFence,
        CopyPhase::CancelFence => CopyPhase::Copied,
        CopyPhase::Copied => CopyPhase::Copied,
        CopyPhase::Failed => CopyPhase::Failed,
    }
}

/// Where a copy stands after phases that went well or not.
pub open spec fn copy_stands_at(kind: CopyKind, went: Seq<bool>) -> CopyPhase
    decreases went.len(),
{
    if went.len() == 0 {
        CopyPhase::BeginFence
    } else {
        after_phase(kind, copy_stands_at(kind, went.drop_last()), went.last())
    }
}

/// How many phases come before one.
pub open spec fn place(kind: CopyKind, phase: CopyPhase) -> int {
    let compared: int = if kind is Fork {
        1
    } else {
        0
    };
    match phase {
        CopyPhase::BeginFence => 0,
        CopyPhase::Sync => 1,
        CopyPhase::FlushKeys => 2,
        CopyPhase::ReadWatermark => 3,
        CopyPhase::CheckDestination => 4,
        CopyPhase::CreateDestination => 5,
        CopyPhase::CompareDirectories => 6,
        CopyPhase::ClearDestination => 6 + compared,
        CopyPhase::CopyFiles => 7 + compared,
        CopyPhase::CancelFence => 8 + compared,
        CopyPhase::Copied => 9 + compared,
        CopyPhase::Failed => -1,
    }
}

/// A copy that has not failed stands where as many phases come before as it
/// went through, and every one of them went well. So files are copied only
/// after the fence was begun, what was written and the idempotency keys were
/// flushed, and the destination was checked, made and cleared; and a copy is
/// done only after the fence was cancelled.
pub proof fn law_copy_is_straight(kind: CopyKind, went: Seq<bool>)
    requires
        !(copy_stands_at(kind, went) is Failed),
        !(copy_stands_at(kind, went) is Copied),
    ensures
        place(kind, copy_stands_at(kind, went)) == went.len(),
        forall|i: int| 0 <= i < went.len() ==> #[trigger] went[i],
        forall|i: int|
            0 <= i <= went.len() ==> place(kind, copy_stands_at(kind, #[trigger] went.take(i)))
                == i,
    decreases went.len(),
{
    assert(went.take(went.len() as int) =~= went);
    if went.len() > 0 {
        let front = went.drop_last();
        law_copy_is_straight(kind, front);
        law_no_comparison_in_a_snapshot(kind, front);
        assert forall|i: int| 0 <= i <= went.len() implies place(
            kind,
            copy_stands_at(kind, #[trigger] went.take(i)),
        ) == i by {
            if i < went.len() {
                assert(went.take(i) =~= front.take(i));
            }
        }
        assert forall|i: int| 0 <= i < went.len() implies #[trigger] went[i] by {
            if i < front.len() {
                assert(front[i]);
            }
        }
    }
}

/// Only a fork is held against the store's own directory.
pub proof fn law_no_comparison_in_a_snapshot(kind: CopyKind, went: Seq<bool>)
    ensures
        copy_stands_at(kind, went) is CompareDirectories ==> kind is Fork,
    decreases went.len(),
{
    if went.len() > 0 {
        law_no_comparison_in_a_snapshot(kind, went.drop_last());
    }
}

/// A copy that is done went through every phase, and each went well.
pub proof fn law_done_copy_went_well(kind: CopyKind, went: Seq<bool>)
    requires
        copy_stands_at(kind, went) is Copied,
    ensures
        went.len() >= place(kind, CopyPhase::Copied),
        forall|i: int| 0 <= i < place(kind, CopyPhase::Copied) ==> #[trigger] went[i],
    decreases went.len(),
{
    let front = went.drop_last();
    if copy_stands_at(kind, front) is Copied {
        law_done_copy_went_well(kind, front);
        assert forall|i: int| 0 <= i < place(kind, CopyPhase::Copied) implies #[trigger] went[i] by {
            assert(front[i]);
        }
    } else {
        law_copy_is_straight(kind, front);
        assert forall|i: int| 0 <= i < place(kind, CopyPhase::Copied) implies #[trigger] went[i] by {
            if i < front.len() {
                assert(front[i]);
            }
        }
    }
}

/// A copy goes through its phases in this order, as long as each goes well. The
/// first that does not go well is the last, and what is over stays over.
pub proof fn law_copy_follows_its_list(
    kind: CopyKind,
    phases: Seq<CopyPhase>,
    i: int,
    ok: bool,
    next: CopyPhase,
)
    requires
        phases == (if kind is Fork {
            seq![
                CopyPhase::BeginFence,
                CopyPhase::Sync,
                CopyPhase::FlushKeys,
                CopyPhase::ReadWatermark,
                CopyPhase::CheckDestination,
                CopyPhase::CreateDestination,
                CopyPhase::CompareDirectories,
                CopyPhase::ClearDestination,
                CopyPhase::CopyFiles,
                CopyPhase::CancelFence,
                CopyPhase::Copied,
            ]
        } else {
            seq![
                CopyPhase::BeginFence,
                CopyPhase::Sync,
                CopyPhase::FlushKeys,
                CopyPhase::ReadWatermark,
                CopyPhase::CheckDestination,
                CopyPhase::CreateDestination,
                CopyPhase::ClearDestination,
                CopyPhase::CopyFiles,
                CopyPhase::CancelFence,
                CopyPhase::Copied,
            ]
        }),
        0 <= i < phases.len(),
        call_ensures(next_copy_phase, (kind, phases[i], ok), next),
    ensures
        i + 1 < phases.len() && ok ==> next == phases[i + 1],
        i + 1 < phases.len() && !ok ==> next is Failed,
        i + 1 == phases.len() ==> next is Copied,
{
}

/// A copy that failed has failed for good.
pub proof fn law_failed_copy_stays_failed(kind: CopyKind, ok: bool, next: CopyPhase)
    requires
        call_ensures(next_copy_phase, (kind, CopyPhase::Failed, ok), next),
    ensures
        next is Failed,
{
}

} // verus!
