//! The course of a compaction: what comes after what, and what a failure leads
//! to.

use vstd::prelude::*;

verus! {

/// How a compaction ends.
#[derive(Clone, Copy, Debug, PartialEq, Eq, Structural)]
pub enum CompactEnd {
    /// The segments were merged.
    Performed,
    /// There were too few.
    Skipped,
    /// It failed before the index was swapped, and the files were put back.
    RolledBack,
    /// It failed, and the caller is told.
    Failed,
}

/// What a compaction does next.
#[derive(Clone, Copy, Debug, PartialEq, Eq, Structural)]
pub enum CompactPhase {
    /// Flushes what was written.
    Sync,
    /// Lists the segments and plans.
    List,
    /// Writes the marker of a compaction under way.
    Mark,
    /// Lets go of the segments that are open for reading.
    Evict,
    /// Moves the first segment aside and writes the merged one.
    Materialize,
    /// Builds an index from the files as they are now.
    Rebuild,
    /// Puts the built index in place of the live one.
    Swap,
    /// Removes the segments that were merged.
    RemoveSources,
    /// Removes the segment that was moved aside, if it is still there.
    RemoveAside,
    /// Removes the marker.
    ClearMarker,
    /// Holds the idempotency keys against the new index.
    SettleKeys,
    /// Flushes the idempotency keys.
    FlushKeys,
    /// Refreshes what makes the next opening fast.
    WriteArtifacts,
    /// Puts the files back.
    Rollback,
    /// Removes the marker after the files were put back.
    Unmark,
    /// Nothing more.
    Done(CompactEnd),
}

/// What comes after a phase that went well or not. `enough` tells whether there
/// are enough segments to merge.
pub open spec fn next_of(phase: CompactPhase, ok: bool, enough: bool) -> CompactPhase {
    match phase {
        CompactPhase::Done(end) => CompactPhase::Done(end),
        CompactPhase::Evict => CompactPhase::Materialize,
        CompactPhase::SettleKeys => CompactPhase::FlushKeys,
        CompactPhase::WriteArtifacts => CompactPhase::Done(CompactEnd::Performed),
        CompactPhase::Materialize => if ok {
            CompactPhase::Rebuild
        } else {
            CompactPhase::Rollback
        },
        CompactPhase::Rebuild => if ok {
            CompactPhase::Swap
        } else {
            CompactPhase::Rollback
        },
        _ => if !ok {
            CompactPhase::Done(CompactEnd::Failed)
        } else {
            match phase {
                CompactPhase::Sync => CompactPhase::List,
                CompactPhase::List => if enough {
                    CompactPhase::Mark
                } else {
                    CompactPhase::Done(CompactEnd::Skipped)
                },
                CompactPhase::Mark => CompactPhase::Evict,
                CompactPhase::Swap => CompactPhase::RemoveSources,
                CompactPhase::RemoveSources => CompactPhase::RemoveAside,
                CompactPhase::RemoveAside => CompactPhase::ClearMarker,
                CompactPhase::ClearMarker => CompactPhase::SettleKeys,
                CompactPhase::FlushKeys => CompactPhase::WriteArtifacts,
                CompactPhase::Rollback => CompactPhase::Unmark,
                _ => CompactPhase::Done(CompactEnd::RolledBack),
            }
        },
    }
}

/// What comes after a phase. Where writing or rebuilding fails the files are
/// put back; where the last phase fails nothing is lost; everywhere else a
/// failure ends the compaction.
pub fn next_phase(phase: CompactPhase, ok: bool, enough: bool) -> (r: CompactPhase)
    ensures
        r == next_of(phase, ok, enough),
{
    match phase {
        CompactPhase::Done(end) => CompactPhase::Done(end),
        CompactPhase::Evict => CompactPhase::Materialize,
        CompactPhase::SettleKeys => CompactPhase::FlushKeys,
        CompactPhase::WriteArtifacts => CompactPhase::Done(CompactEnd::Performed),
        CompactPhase::Materialize => if ok {
            CompactPhase::Rebuild
        } else {
            CompactPhase::Rollback
        },
        CompactPhase::Rebuild => if ok {
            CompactPhase::Swap
        } else {
            CompactPhase::Rollback
        },
        CompactPhase::Sync => if ok {
            CompactPhase::List
        } else {
            CompactPhase::Done(CompactEnd::Failed)
        },
        CompactPhase::List => if !ok {
            CompactPhase::Done(CompactEnd::Failed)
        } else if enough {
            CompactPhase::Mark
        } else {
            CompactPhase::Done(CompactEnd::Skipped)
        },
        CompactPhase::Mark => if ok {
            CompactPhase::Evict
        } else {
            CompactPhase::Done(CompactEnd::Failed)
        },
        CompactPhase::Swap => if ok {
            CompactPhase::RemoveSources
        } else {
            CompactPhase::Done(CompactEnd::Failed)
        },
        CompactPhase::RemoveSources => if ok {
            CompactPhase::RemoveAside
        } else {
            CompactPhase::Done(CompactEnd::Failed)
        },
        CompactPhase::RemoveAside => if ok {
            CompactPhase::ClearMarker
        } else {
            CompactPhase::Done(CompactEnd::Failed)
        },
        CompactPhase::ClearMarker => if ok {
            CompactPhase::SettleKeys
        } else {
            CompactPhase::Done(CompactEnd::Failed)
        },
        CompactPhase::FlushKeys => if ok {
            CompactPhase::WriteArtifacts
        } else {
            CompactPhase::Done(CompactEnd::Failed)
        },
        CompactPhase::Rollback => if ok {
            CompactPhase::Unmark
        } else {
            CompactPhase::Done(CompactEnd::Failed)
        },
        CompactPhase::Unmark => if ok {
            CompactPhase::Done(CompactEnd::RolledBack)
        } else {
            CompactPhase::Done(CompactEnd::Failed)
        },
    }
}

/// Where a compaction stands after phases that went well or not.
pub open spec fn stands_at(went: Seq<bool>, enough: bool) -> CompactPhase
    decreases went.len(),
{
    if went.len() == 0 {
        CompactPhase::Sync
    } else {
        next_of(stands_at(went.drop_last(), enough), went.last(), enough)
    }
}

/// The files are put back, or were.
pub open spec fn put_back(phase: CompactPhase) -> bool {
    phase is Rollback || phase is Unmark || phase == CompactPhase::Done(CompactEnd::RolledBack)
}

/// A compaction whose files are put back has not swapped the index.
pub proof fn law_rollback_means_no_swap(went: Seq<bool>, enough: bool, i: int)
    requires
        put_back(stands_at(went, enough)),
        0 <= i <= went.len(),
    ensures
        !(stands_at(went.take(i), enough) is Swap),
    decreases went.len(),
{
    if i == went.len() {
        assert(went.take(i) =~= went);
    } else {
        let front = went.drop_last();
        assert(front.take(i) =~= went.take(i));
        if put_back(stands_at(front, enough)) {
            law_rollback_means_no_swap(front, enough, i);
        } else {
            lemma_before_swap(front, enough, i);
        }
    }
}

/// A phase that comes before the swap.
pub open spec fn before_swap(phase: CompactPhase) -> bool {
    phase is Sync || phase is List || phase is Mark || phase is Evict || phase is Materialize
        || phase is Rebuild
}

proof fn lemma_before_swap(went: Seq<bool>, enough: bool, i: int)
    requires
        before_swap(stands_at(went, enough)),
        0 <= i <= went.len(),
    ensures
        !(stands_at(went.take(i), enough) is Swap),
    decreases went.len(),
{
    if i == went.len() {
        assert(went.take(i) =~= went);
    } else {
        assert(went.drop_last().take(i) =~= went.take(i));
        lemma_before_swap(went.drop_last(), enough, i);
    }
}

/// The segments that were merged are removed only after the index was swapped.
pub proof fn law_sources_outlive_the_swap(went: Seq<bool>, enough: bool)
    requires
        stands_at(went, enough) is RemoveSources,
    ensures
        exists|i: int|
            0 <= i < went.len() && stands_at(#[trigger] went.take(i), enough) is Swap && went[i],
{
    let i = went.len() - 1;
    assert(went.take(i) =~= went.drop_last());
    assert(stands_at(went.take(i), enough) is Swap);
}

/// A compaction ends as performed only if the idempotency keys were flushed.
pub proof fn law_performed_means_keys_flushed(went: Seq<bool>, enough: bool)
    requires
        stands_at(went, enough) == CompactPhase::Done(CompactEnd::Performed),
    ensures
        exists|i: int|
            0 <= i < went.len() && stands_at(#[trigger] went.take(i), enough) is FlushKeys
                && went[i],
    decreases went.len(),
{
    let front = went.drop_last();
    assert(went.take(went.len() - 1) =~= front);
    if stands_at(front, enough) is WriteArtifacts {
        let i = front.len() - 1;
        assert(front.take(i) =~= front.drop_last());
        assert(went.take(i) =~= front.drop_last());
        assert(stands_at(went.take(i), enough) is FlushKeys);
        assert(went[i] == front.last());
    } else {
        law_performed_means_keys_flushed(front, enough);
        let i = choose|i: int|
            0 <= i < front.len() && stands_at(#[trigger] front.take(i), enough) is FlushKeys
                && front[i];
        assert(went.take(i) =~= front.take(i));
        assert(went[i] == front[i]);
    }
}

/// A compaction ends as rolled back only if the marker was removed.
pub proof fn law_rolled_back_means_unmarked(went: Seq<bool>, enough: bool)
    requires
        stands_at(went, enough) == CompactPhase::Done(CompactEnd::RolledBack),
    ensures
        exists|i: int|
            0 <= i < went.len() && stands_at(#[trigger] went.take(i), enough) is Unmark && went[i],
    decreases went.len(),
{
    let front = went.drop_last();
    assert(went.take(went.len() - 1) =~= front);
    if !(stands_at(front, enough) is Unmark) {
        law_rolled_back_means_unmarked(front, enough);
        let i = choose|i: int|
            0 <= i < front.len() && stands_at(#[trigger] front.take(i), enough) is Unmark
                && front[i];
        assert(went.take(i) =~= front.take(i));
        assert(went[i] == front[i]);
    }
}

/// The marker is removed on the way back only after the files were put back.
pub proof fn law_marker_outlives_the_rollback(went: Seq<bool>, enough: bool)
    requires
        stands_at(went, enough) is Unmark,
    ensures
        went.len() > 0 && stands_at(went.drop_last(), enough) is Rollback && went.last(),
{
}

/// A compaction of enough segments goes through its phases in this order, as long
/// as each goes well. Letting go of open segments, holding the keys against the
/// index and refreshing what makes the next opening fast cannot fail it. Where
/// the merged segment cannot be written or the index not rebuilt the files are
/// put back; any other failure ends it.
pub proof fn law_compaction_follows_its_list(
    phases: Seq<CompactPhase>,
    i: int,
    ok: bool,
    next: CompactPhase,
)
    requires
        phases == seq![
            CompactPhase::Sync,
            CompactPhase::List,
            CompactPhase::Mark,
            CompactPhase::Evict,
            CompactPhase::Materialize,
            CompactPhase::Rebuild,
            CompactPhase::Swap,
            CompactPhase::RemoveSources,
            CompactPhase::RemoveAside,
            CompactPhase::ClearMarker,
            CompactPhase::SettleKeys,
            CompactPhase::FlushKeys,
            CompactPhase::WriteArtifacts,
            CompactPhase::Done(CompactEnd::Performed),
        ],
        0 <= i < phases.len(),
        call_ensures(next_phase, (phases[i], ok, true), next),
    ensures
        i + 1 < phases.len() && (ok || phases[i] is Evict || phases[i] is SettleKeys
            || phases[i] is WriteArtifacts) ==> next == phases[i + 1],
        !ok && (phases[i] is Materialize || phases[i] is Rebuild) ==> next is Rollback,
        !ok && (phases[i] is Sync || phases[i] is List || phases[i] is Mark || phases[i] is Swap
            || phases[i] is RemoveSources || phases[i] is RemoveAside || phases[i] is ClearMarker
            || phases[i] is FlushKeys) ==> next == CompactPhase::Done(CompactEnd::Failed),
        i + 1 == phases.len() ==> next == phases[i],
{
}

/// With too few segments a compaction is skipped once they are listed. Whether
/// there are enough matters nowhere else, what was put back is unmarked, and what
/// is over stays over.
pub proof fn law_compaction_ends_as_it_went(
    phase: CompactPhase,
    ok: bool,
    enough: bool,
    next: CompactPhase,
    other: CompactPhase,
)
    requires
        call_ensures(next_phase, (phase, ok, enough), next),
        call_ensures(next_phase, (phase, ok, !enough), other),
    ensures
        !(phase is List) ==> next == other,
        phase is List && ok && !enough ==> next == CompactPhase::Done(CompactEnd::Skipped),
        phase is List && !ok ==> next == CompactPhase::Done(CompactEnd::Failed),
        phase is Rollback && ok ==> next is Unmark,
        phase is Unmark && ok ==> next == CompactPhase::Done(CompactEnd::RolledBack),
        (phase is Rollback || phase is Unmark) && !ok ==> next == CompactPhase::Done(
            CompactEnd::Failed,
        ),
        phase is Done ==> next == phase,
{
}

} // verus!
