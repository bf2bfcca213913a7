//! A compaction as it runs: what it asks for next, and what it makes of the
//! reply. The files are moved, the index is rebuilt and the keys are flushed by
//! whoever runs it.

use super::compact::{
    list_segments, merge_steps, pending_compaction, plan_compaction, relocate_merged_source, removal_steps,
    rollback_steps, CompactionOutcome, CompactionPlan, CompactionResult, Disk, DiskStep, PendingCompaction, SegmentFile,
};
use super::compact_course::{next_phase, CompactEnd, CompactPhase};
use super::file_kind::StoreFileKind;
use crate::error::StoreError;
use vstd::prelude::*;

verus! {

/// What a compaction asks for.
#[derive(Debug)]
pub enum CompactAction {
    /// Make what was written durable.
    Sync,
    /// List the files of the store's directory.
    List,
    /// Say where the merged segment goes, and where its first source is moved.
    Locate {
        /// The number of the merged segment.
        merged_id: u64,
    },
    /// Write the marker of a compaction under way.
    Mark(PendingCompaction),
    /// Let go of these segments.
    Evict(Vec<u64>),
    /// Do this to the files.
    File(DiskStep),
    /// Write the merged segment and make it durable.
    Write {
        /// Its number.
        merged_id: u64,
        /// Where the segments are that are merged, in order.
        sources: Vec<String>,
    },
    /// Do this to a segment that was merged, and say how long it was.
    Source(DiskStep),
    /// Make what was written durable, and build an index from the files.
    Rebuild,
    /// Put the built index in place of the live one.
    Swap,
    /// Remove the marker.
    ClearMarker,
    /// Hold the idempotency keys against the index.
    SettleKeys,
    /// Flush the idempotency keys.
    FlushKeys,
    /// Refresh what makes the next opening fast.
    WriteArtifacts,
    /// Nothing.
    Finish,
}

/// What came of it.
#[derive(Debug)]
pub enum CompactReply {
    /// The files of the directory.
    Listed(Vec<(StoreFileKind, String)>),
    /// Where the merged segment goes, and where its first source is moved.
    Located {
        /// The place of the merged segment.
        merged_path: String,
        /// The place of the source.
        aside: String,
    },
    /// It went well.
    Done,
    /// A segment was removed.
    Removed {
        /// How long it was, if that could be told.
        length: Option<u64>,
    },
    /// It failed.
    Failed(StoreError),
}

/// A compaction at some point.
pub struct RunState {
    /// How many sealed segments it takes.
    pub min_segments: usize,
    /// What it does.
    pub phase: CompactPhase,
    /// How each phase before went.
    pub went: Seq<bool>,
    /// The segments that were listed.
    pub segments: Seq<SegmentFile>,
    /// Where the merged segment goes and its first source is moved, once known.
    pub places: Option<(Seq<char>, Seq<char>)>,
    /// The steps of the phase.
    pub steps: Seq<DiskStep>,
    /// How many of them were taken.
    pub at: nat,
    /// The steps that were taken before anything was put back.
    pub forward: Seq<DiskStep>,
    /// The steps that were taken to put things back.
    pub back: Seq<DiskStep>,
    /// How long the removed segments were.
    pub lengths: Seq<Option<u64>>,
    /// The last failure.
    pub error: Option<StoreError>,
}

/// Moves the first segment aside and writes the merged one: the first `n` of
/// four steps.
pub open spec fn builds(
    steps: Seq<DiskStep>,
    n: int,
    source: Seq<char>,
    merged_path: Seq<char>,
    aside: Seq<char>,
) -> bool {
    &&& steps.len() == n
    &&& n > 0 ==> (steps[0] matches DiskStep::RemoveIfPresent(path) && path@ == aside)
    &&& n > 1 ==> (steps[1] matches DiskStep::Rename { from, to } && from@ == source && to@
        == aside)
    &&& n > 2 ==> (steps[2] matches DiskStep::RemoveIfPresent(path) && path@ == merged_path)
    &&& n > 3 ==> (steps[3] matches DiskStep::WriteMerged(path) && path@ == merged_path)
}

/// Removes the segments that were merged: the first `n` of them, the first
/// where it was moved.
pub open spec fn removes(
    steps: Seq<DiskStep>,
    n: int,
    sealed: Seq<SegmentFile>,
    aside: Seq<char>,
) -> bool {
    &&& steps.len() == n
    &&& forall|i: int|
        #![trigger steps[i]]
        0 <= i < n ==> (steps[i] matches DiskStep::Remove(path) && path@ == (if i == 0 {
            aside
        } else {
            sealed[i].path@
        }))
}

impl RunState {
    /// The segments that are merged.
    pub open spec fn sealed(self) -> Seq<SegmentFile> {
        super::compact::sealed_segments(self.segments)
    }

    /// There are enough of them.
    pub open spec fn enough(self) -> bool {
        self.sealed().len() >= self.min_segments
    }

    /// Where the first of them was.
    pub open spec fn source(self) -> Seq<char> {
        self.sealed()[0].path@
    }

    /// Where the merged segment goes.
    pub open spec fn merged_path(self) -> Seq<char> {
        self.places.unwrap().0
    }

    /// Where the first source is moved.
    pub open spec fn aside(self) -> Seq<char> {
        self.places.unwrap().1
    }

    /// Nothing was done to the files.
    pub open spec fn untouched(self) -> bool {
        self.forward.len() == 0 && self.back.len() == 0 && self.lengths.len() == 0
    }

    /// There is something to merge, and it is known where.
    pub open spec fn merges(self) -> bool {
        self.enough() && self.sealed().len() > 0 && self.places is Some
    }

    /// The merged segment was written.
    pub open spec fn built(self, more: int) -> bool {
        &&& self.forward.len() == 4 + more
        &&& builds(self.forward.take(4), 4, self.source(), self.merged_path(), self.aside())
        &&& self.back.len() == 0
    }

    /// The sources were removed, the one moved aside twice.
    pub open spec fn cleared(self) -> bool {
        let n = self.sealed().len() as int;
        &&& self.merges()
        &&& self.built(n + 1)
        &&& removes(self.forward.subrange(4, 4 + n), n, self.sealed(), self.aside())
        &&& self.forward.last() matches DiskStep::RemoveIfPresent(path) && path@ == self.aside()
        &&& self.lengths.len() == n
    }

    /// Where the first source was moved, if it was.
    pub open spec fn moved(self) -> Option<Seq<char>> {
        if self.forward.len() >= 2 {
            Some(self.aside())
        } else {
            None
        }
    }

    /// A failure here finds the first source where it was: there is nothing to
    /// put back.
    pub open spec fn nothing_moved(self) -> bool {
        self.phase is Materialize && self.at < 2
    }

    /// Part of the merge was done.
    pub open spec fn partly_built(self) -> bool {
        &&& self.merges()
        &&& self.forward.len() <= 4
        &&& builds(
            self.forward,
            self.forward.len() as int,
            self.source(),
            self.merged_path(),
            self.aside(),
        )
        &&& self.lengths.len() == 0
        &&& self.error is Some
    }

    /// What was done to the files is what the phases before do to them, and the
    /// phases follow the course.
    pub open spec fn wf(self) -> bool {
        &&& self.phase == super::compact_course::stands_at(self.went, self.enough())
        &&& super::compact::total_length(self.lengths) <= u64::MAX
        &&& match self.phase {
            CompactPhase::Sync => self.untouched() && self.went.len() == 0,
            CompactPhase::List => self.untouched() && self.went.len() == 1,
            CompactPhase::Mark => self.untouched() && self.enough() && self.sealed().len() > 0,
            CompactPhase::Evict => self.untouched() && self.merges(),
            CompactPhase::Materialize => {
                &&& self.merges()
                &&& builds(self.steps, 4, self.source(), self.merged_path(), self.aside())
                &&& self.at < 4
                &&& self.forward == self.steps.take(self.at as int)
                &&& self.back.len() == 0
                &&& self.lengths.len() == 0
            },
            CompactPhase::Rebuild | CompactPhase::Swap => {
                &&& self.merges()
                &&& self.built(0)
                &&& self.lengths.len() == 0
            },
            CompactPhase::RemoveSources => {
                let n = self.sealed().len() as int;
                &&& self.merges()
                &&& removes(self.steps, n, self.sealed(), self.aside())
                &&& self.at < n
                &&& self.built(self.at as int)
                &&& self.forward.skip(4) == self.steps.take(self.at as int)
                &&& self.lengths.len() == self.at
            },
            CompactPhase::RemoveAside => {
                let n = self.sealed().len() as int;
                &&& self.merges()
                &&& self.built(n)
                &&& removes(self.forward.skip(4), n, self.sealed(), self.aside())
                &&& self.steps.len() == 1
                &&& self.steps[0] matches DiskStep::RemoveIfPresent(path) && path@ == self.aside()
                &&& self.at == 0
                &&& self.lengths.len() == n
            },
            CompactPhase::Rollback => {
                &&& self.partly_built()
                &&& super::compact::is_rollback(self.steps, self.merged_path(), self.moved())
                &&& self.at < self.steps.len()
                &&& self.back == self.steps.take(self.at as int)
            },
            CompactPhase::Unmark | CompactPhase::Done(CompactEnd::RolledBack) => {
                &&& self.partly_built()
                &&& super::compact::is_rollback(self.back, self.merged_path(), self.moved())
            },
            CompactPhase::Done(CompactEnd::Skipped) => self.untouched() && !self.enough(),
            CompactPhase::Done(CompactEnd::Failed) => self.error is Some,
            _ => self.cleared(),
        }
    }

    /// The phase is made of steps.
    pub open spec fn steps_along(self) -> bool {
        self.phase is Materialize || self.phase is RemoveSources || self.phase is RemoveAside
            || self.phase is Rollback
    }

    /// The reply is one to what was asked for.
    pub open spec fn fits(self, reply: CompactReply) -> bool {
        match reply {
            CompactReply::Listed(files) => self.phase is List && (self.min_segments > 0
                || super::compact::sealed_segments(super::compact::segments_of(files@)).len() > 0),
            CompactReply::Located { .. } => self.phase is Mark && self.places is None,
            CompactReply::Removed { length } => self.phase is RemoveSources
                && super::compact::total_length(self.lengths.push(length)) <= u64::MAX,
            CompactReply::Done => !(self.phase is List) && !(self.phase is RemoveSources) && !(
            self.phase is Done) && (self.phase is Mark ==> self.places is Some),
            CompactReply::Failed(_) => !(self.phase is Done),
        }
    }

    /// The phase goes on after a step that went well.
    pub open spec fn goes_on(self) -> bool {
        self.steps_along() && self.at + 1 < self.steps.len()
    }

    /// `after` is what the reply makes of this.
    pub open spec fn leads_to(self, reply: CompactReply, after: RunState) -> bool {
        &&& after.min_segments == self.min_segments
        &&& after.segments == (match reply {
            CompactReply::Listed(files) => super::compact::segments_of(files@),
            _ => self.segments,
        })
        &&& after.places == (match reply {
            CompactReply::Located { merged_path, aside } => Some((merged_path@, aside@)),
            _ => self.places,
        })
        &&& after.error == (match reply {
            CompactReply::Failed(error) => Some(error),
            _ => self.error,
        })
        &&& after.lengths == (match reply {
            CompactReply::Removed { length } => self.lengths.push(length),
            _ => self.lengths,
        })
        &&& match reply {
            CompactReply::Located { .. } => after.phase == self.phase && after.went == self.went,
            CompactReply::Failed(_) => if self.nothing_moved() {
                after.phase is Unmark && after.went == self.went.push(false).push(true)
            } else {
                after.phase == super::compact_course::next_of(self.phase, false, self.enough())
                    && after.went == self.went.push(false)
            },
            _ => if self.goes_on() {
                after.phase == self.phase && after.went == self.went
            } else {
                after.phase == super::compact_course::next_of(self.phase, true, after.enough())
                    && after.went == self.went.push(true)
            },
        }
        &&& if self.steps_along() && !(reply is Failed) {
            if self.phase is Rollback {
                after.forward == self.forward && after.back == self.back.push(
                    self.steps[self.at as int],
                )
            } else {
                after.forward == self.forward.push(self.steps[self.at as int]) && after.back
                    == self.back
            }
        } else {
            after.forward == self.forward && after.back == self.back
        }
    }

    /// What is asked for.
    pub open spec fn asks_for(self, action: CompactAction) -> bool {
        match self.phase {
            CompactPhase::Sync => action is Sync,
            CompactPhase::List => action is List,
            CompactPhase::Mark => match self.places {
                None => action matches CompactAction::Locate { merged_id } && merged_id
                    == self.sealed()[0].id,
                Some(_) => action matches CompactAction::Mark(pending) && pending.merged_id
                    == self.sealed()[0].id && pending.source_segment_ids@
                    == self.sealed().map_values(|s: SegmentFile| s.id),
            },
            CompactPhase::Evict => action matches CompactAction::Evict(ids) && ids@
                == self.sealed().map_values(|s: SegmentFile| s.id),
            CompactPhase::Materialize if self.at == 3 => {
                &&& action matches CompactAction::Write { merged_id, sources }
                &&& merged_id == self.sealed()[0].id
                &&& sources@.len() == self.sealed().len()
                &&& forall|i: int|
                    #![trigger sources@[i]]
                    0 <= i < sources@.len() ==> sources@[i]@ == (if i == 0 {
                        self.aside()
                    } else {
                        self.sealed()[i].path@
                    })
            },
            CompactPhase::Materialize | CompactPhase::RemoveAside | CompactPhase::Rollback => action
                == CompactAction::File(self.steps[self.at as int]),
            CompactPhase::RemoveSources => action == CompactAction::Source(
                self.steps[self.at as int],
            ),
            CompactPhase::Rebuild => action is Rebuild,
            CompactPhase::Swap => action is Swap,
            CompactPhase::ClearMarker | CompactPhase::Unmark => action is ClearMarker,
            CompactPhase::SettleKeys => action is SettleKeys,
            CompactPhase::FlushKeys => action is FlushKeys,
            CompactPhase::WriteArtifacts => action is WriteArtifacts,
            CompactPhase::Done(_) => action is Finish,
        }
    }
}

/// One step more of the same phase.
proof fn lemma_stepped(before: RunState, after: RunState)
    requires
        before.wf(),
        before.goes_on(),
        after == (RunState {
            at: before.at + 1,
            forward: after.forward,
            back: after.back,
            lengths: after.lengths,
            ..before
        }),
        before.phase is Rollback ==> after.forward == before.forward && after.back
            == before.back.push(before.steps[before.at as int]),
        !(before.phase is Rollback) ==> after.back == before.back && after.forward
            == before.forward.push(before.steps[before.at as int]),
        before.phase is RemoveSources ==> after.lengths.len() == before.lengths.len() + 1
            && super::compact::total_length(after.lengths) <= u64::MAX,
        !(before.phase is RemoveSources) ==> after.lengths == before.lengths,
    ensures
        after.wf(),
{
    let at = before.at as int;
    assert(before.steps.take(at + 1) =~= before.steps.take(at).push(before.steps[at]));
    if before.forward.len() >= 4 && !(before.phase is Rollback) {
        assert(after.forward.take(4) =~= before.forward.take(4));
        assert(after.forward.skip(4) =~= before.forward.skip(4).push(before.steps[at]));
    }
}

/// The first of the next phase.
proof fn lemma_entered(before: RunState, after: RunState, ok: bool)
    requires
        before.wf(),
        !(before.phase is Done),
        before.steps_along() && ok ==> before.at + 1 == before.steps.len(),
        after.phase == super::compact_course::next_of(before.phase, ok, after.enough()),
        after.phase == super::compact_course::stands_at(after.went, after.enough()),
        after.segments == before.segments || before.phase is List,
        after.places == before.places,
        after.min_segments == before.min_segments,
        before.steps_along() && ok ==> if before.phase is Rollback {
            after.forward == before.forward && after.back == before.back.push(
                before.steps[before.at as int],
            )
        } else {
            after.forward == before.forward.push(before.steps[before.at as int]) && after.back
                == before.back
        },
        !(before.steps_along() && ok) ==> after.forward == before.forward && after.back
            == before.back,
        before.phase is RemoveSources && ok ==> after.lengths.len() == before.lengths.len() + 1
            && super::compact::total_length(after.lengths) <= u64::MAX,
        !(before.phase is RemoveSources && ok) ==> after.lengths == before.lengths,
        ok ==> after.error == before.error,
        !ok ==> after.error is Some,
        after.phase is Mark ==> after.sealed().len() > 0,
        before.phase is Mark && ok ==> before.places is Some,
        after.phase is Materialize || after.phase is RemoveSources || after.phase is RemoveAside
            || after.phase is Rollback ==> after.at == 0,
        after.phase is Materialize ==> builds(
            after.steps,
            4,
            after.source(),
            after.merged_path(),
            after.aside(),
        ),
        after.phase is RemoveSources ==> removes(
            after.steps,
            after.sealed().len() as int,
            after.sealed(),
            after.aside(),
        ),
        after.phase is RemoveAside ==> after.steps.len() == 1 && (
        after.steps[0] matches DiskStep::RemoveIfPresent(path) && path@ == after.aside()),
        after.phase is Rollback ==> after.steps.len() > 0 && super::compact::is_rollback(
            after.steps,
            after.merged_path(),
            after.moved(),
        ),
        before.phase is Sync ==> after.went.len() == 1,
    ensures
        after.wf(),
{
    let at = before.at as int;
    let n = before.sealed().len() as int;
    assert(after.steps.take(0) =~= Seq::empty());
    if before.steps_along() && ok {
        assert(before.steps.take(at).push(before.steps[at]) =~= before.steps);
    }
    match after.phase {
        CompactPhase::Materialize => {
            assert(after.forward =~= after.steps.take(0));
        },
        CompactPhase::Rebuild => {
            assert(after.forward =~= before.steps);
            assert(after.forward.take(4) =~= after.forward);
        },
        CompactPhase::RemoveSources => {
            assert(after.forward.skip(4) =~= after.steps.take(0));
        },
        CompactPhase::RemoveAside => {
            assert(after.forward.take(4) =~= before.forward.take(4));
            assert(after.forward.skip(4) =~= before.steps);
        },
        CompactPhase::ClearMarker => {
            assert(after.forward.take(4) =~= before.forward.take(4));
            assert(after.forward.subrange(4, 4 + n) =~= before.forward.skip(4));
        },
        CompactPhase::Rollback => {
            assert(after.back =~= after.steps.take(0));
            if before.phase is Rebuild {
                assert(before.forward.take(4) =~= before.forward);
            } else {
                assert(forall|i: int| 0 <= i < at ==> #[trigger] after.forward[i] == before.steps[i]);
            }
        },
        _ => {},
    }
}

/// A failure before anything was moved: only the marker is left to remove.
proof fn lemma_nothing_put_back(before: RunState, after: RunState)
    requires
        before.wf(),
        before.nothing_moved(),
        after == (RunState {
            phase: CompactPhase::Unmark,
            went: before.went.push(false).push(true),
            error: after.error,
            ..before
        }),
        after.error is Some,
    ensures
        after.wf(),
{
    let went = before.went;
    assert(went.push(false).push(true).drop_last() =~= went.push(false));
    assert(went.push(false).drop_last() =~= went);
    reveal_with_fuel(super::compact_course::stands_at, 3);
}

/// A compaction that runs.
pub struct CompactionRun {
    min_segments: usize,
    phase: CompactPhase,
    went: Ghost<Seq<bool>>,
    segments: Ghost<Seq<SegmentFile>>,
    plan: Option<CompactionPlan>,
    places: Option<(String, String)>,
    steps: Vec<DiskStep>,
    at: usize,
    forward: Ghost<Seq<DiskStep>>,
    back: Ghost<Seq<DiskStep>>,
    lengths: Vec<Option<u64>>,
    error: Option<StoreError>,
}

impl View for CompactionRun {
    type V = RunState;

    closed spec fn view(&self) -> RunState {
        RunState {
            min_segments: self.min_segments,
            phase: self.phase,
            went: self.went@,
            segments: self.segments@,
            places: match self.places {
                Some((merged_path, aside)) => Some((merged_path@, aside@)),
                None => None,
            },
            steps: self.steps@,
            at: self.at as nat,
            forward: self.forward@,
            back: self.back@,
            lengths: self.lengths@,
            error: self.error,
        }
    }
}

impl CompactionRun {
    /// The run fits the plan that it holds.
    pub closed spec fn wf(&self) -> bool {
        &&& self@.wf()
        &&& match self.phase {
            CompactPhase::Sync | CompactPhase::List => true,
            CompactPhase::Mark | CompactPhase::Evict => self.plan matches Some(plan) && plan.sealed@
                == self@.sealed() && plan.merged_id == Some(self@.sealed()[0].id),
            CompactPhase::Materialize | CompactPhase::Rebuild | CompactPhase::Swap =>
                self.plan matches Some(plan) && plan.merged_id == Some(self@.sealed()[0].id)
                    && plan.sealed@.len() == self@.sealed().len() && plan.sealed@[0].path@ == self@.aside() && forall|i: int|
                #![trigger plan.sealed@[i]]
                0 < i < plan.sealed@.len() ==> plan.sealed@[i] == self@.sealed()[i],
            _ => true,
        }
    }

    /// A run that fits its plan stands at a sound point.
    pub proof fn lemma_state_wf(&self)
        requires
            self.wf(),
        ensures
            self@.wf(),
    {
    }

    /// A compaction that has not begun.
    pub fn begin(min_segments: usize) -> (run: CompactionRun)
        ensures
            run.wf(),
            run@.min_segments == min_segments,
            run@.phase is Sync,
            run@.places is None,
            run@.untouched(),
    {
        CompactionRun {
            min_segments,
            phase: CompactPhase::Sync,
            went: Ghost(Seq::empty()),
            segments: Ghost(Seq::empty()),
            plan: None,
            places: None,
            steps: Vec::new(),
            at: 0,
            forward: Ghost(Seq::empty()),
            back: Ghost(Seq::empty()),
            lengths: Vec::new(),
            error: None,
        }
    }

    /// Whether the run is over.
    pub fn is_over(&self) -> (r: bool)
        ensures
            r == self@.phase is Done,
    {
        matches!(self.phase, CompactPhase::Done(_))
    }

    /// What the run asks for next.
    pub fn action(&self) -> (action: CompactAction)
        requires
            self.wf(),
        ensures
            self@.asks_for(action),
    {
        match self.phase {
            CompactPhase::Sync => CompactAction::Sync,
            CompactPhase::List => CompactAction::List,
            CompactPhase::Mark | CompactPhase::Evict => {
                let plan = match &self.plan {
                    Some(plan) => plan,
                    None => return CompactAction::Finish,
                };
                let pending = match pending_compaction(plan) {
                    Some(pending) => pending,
                    None => return CompactAction::Finish,
                };
                if self.phase == CompactPhase::Evict {
                    CompactAction::Evict(pending.source_segment_ids)
                } else if self.places.is_none() {
                    CompactAction::Locate { merged_id: pending.merged_id }
                } else {
                    CompactAction::Mark(pending)
                }
            },
            CompactPhase::Materialize => if self.at == 3 {
                self.write()
            } else {
                CompactAction::File(self.steps[self.at].dup())
            },
            CompactPhase::RemoveAside | CompactPhase::Rollback => CompactAction::File(
                self.steps[self.at].dup(),
            ),
            CompactPhase::RemoveSources => CompactAction::Source(self.steps[self.at].dup()),
            CompactPhase::Rebuild => CompactAction::Rebuild,
            CompactPhase::Swap => CompactAction::Swap,
            CompactPhase::ClearMarker | CompactPhase::Unmark => CompactAction::ClearMarker,
            CompactPhase::SettleKeys => CompactAction::SettleKeys,
            CompactPhase::FlushKeys => CompactAction::FlushKeys,
            CompactPhase::WriteArtifacts => CompactAction::WriteArtifacts,
            CompactPhase::Done(_) => CompactAction::Finish,
        }
    }

    /// Asks for the merged segment.
    fn write(&self) -> (action: CompactAction)
        requires
            self.wf(),
            self@.phase is Materialize,
            self@.at == 3,
        ensures
            self@.asks_for(action),
    {
        let plan = match &self.plan {
            Some(plan) => plan,
            None => return CompactAction::Finish,
        };
        let merged_id: u64 = match plan.merged_id {
            Some(merged_id) => merged_id,
            None => return CompactAction::Finish,
        };
        let mut sources: Vec<String> = Vec::new();
        let mut i: usize = 0;
        while i < plan.sealed.len()
            invariant
                i <= plan.sealed@.len(),
                sources@.len() == i,
                forall|k: int|
                    #![trigger sources@[k]]
                    0 <= k < i ==> sources@[k]@ == plan.sealed@[k].path@,
            decreases plan.sealed@.len() - i,
        {
            sources.push(plan.sealed[i].path.clone());
            i += 1;
        }
        CompactAction::Write { merged_id, sources }
    }

    /// Takes the reply to what was asked for.
    pub fn took(&mut self, reply: CompactReply)
        requires
            old(self).wf(),
            old(self)@.fits(reply),
        ensures
            final(self).wf(),
            old(self)@.leads_to(reply, final(self)@),
    {
        let ghost before = self@;
        let mut ok = true;
        match reply {
            CompactReply::Located { merged_path, aside } => {
                self.places = Some((merged_path, aside));
                return;
            },
            CompactReply::Listed(files) => {
                let segments = list_segments(files);
                self.segments = Ghost(segments@);
                self.plan = Some(plan_compaction(segments, self.min_segments));
            },
            CompactReply::Failed(error) => {
                self.error = Some(error);
                ok = false;
            },
            CompactReply::Removed { length } => {
                self.lengths.push(length);
                if self.steps_on() {
                    proof {
                        lemma_stepped(before, self@);
                    }
                    return;
                }
            },
            CompactReply::Done => match self.phase {
                CompactPhase::Materialize | CompactPhase::RemoveAside | CompactPhase::Rollback => {
                    if self.steps_on() {
                        proof {
                            lemma_stepped(before, self@);
                        }
                        return;
                    }
                },
                _ => {},
            },
        }
        let enough = match &self.plan {
            Some(plan) => plan.merged_id.is_some(),
            None => false,
        };
        let next = next_phase(self.phase, ok, enough);
        let ghost went = self.went@;
        self.went = Ghost(went.push(ok));
        proof {
            assert(went.push(ok).drop_last() =~= went);
            reveal_with_fuel(super::compact_course::stands_at, 2);
            assert(went.len() == 1 ==> went.drop_last() =~= Seq::empty());
            assert(self@.phase == super::compact_course::stands_at(went, self@.enough()));
        }
        match next {
            CompactPhase::Materialize => {
                let (merged_path, aside) = self.located();
                if let Some(mut plan) = self.plan.take() {
                    if let Some(merged_id) = plan.merged_id {
                        let ghost sealed = plan.sealed@;
                        assert(sealed[0].id == merged_id);
                        if let Some(mut steps) = relocate_merged_source(
                            &mut plan.sealed,
                            merged_id,
                            aside,
                        ) {
                            let ghost moving = steps@;
                            assert(super::compact::is_relocation(moving, sealed[0].path@, aside@));
                            let mut merge = merge_steps(merged_path.as_str());
                            let ghost writing = merge@;
                            steps.append(&mut merge);
                            assert(steps@ =~= moving + writing);
                            self.steps = steps;
                        }
                    }
                    self.plan = Some(plan);
                }
                self.at = 0;
            },
            CompactPhase::RemoveSources => {
                if let Some(plan) = &self.plan {
                    self.steps = removal_steps(plan.sealed.as_slice());
                }
                self.at = 0;
            },
            CompactPhase::RemoveAside => {
                let (merged_path, aside) = self.located();
                let mut steps: Vec<DiskStep> = Vec::new();
                steps.push(DiskStep::RemoveIfPresent(aside));
                self.steps = steps;
                self.at = 0;
            },
            CompactPhase::Rollback => {
                let (merged_path, aside) = self.located();
                let moved = self.phase != CompactPhase::Materialize || self.at >= 2;
                let back = if moved {
                    rollback_steps(merged_path.as_str(), Some(aside.as_str()))
                } else {
                    rollback_steps(merged_path.as_str(), None)
                };
                if back.is_empty() {
                    self.phase = next_phase(next, true, enough);
                    self.went = Ghost(went.push(false).push(true));
                    proof {
                        lemma_nothing_put_back(before, self@);
                    }
                    return;
                }
                self.steps = back;
                self.at = 0;
            },
            _ => {},
        }
        self.phase = next;
        proof {
            lemma_entered(before, self@, ok);
        }
    }

    /// Where the merged segment goes and its first source is moved.
    fn located(&self) -> (places: (String, String))
        requires
            self.places is Some,
        ensures
            self.places == Some(places),
    {
        match &self.places {
            Some((merged_path, aside)) => (merged_path.clone(), aside.clone()),
            None => ("".to_owned(), "".to_owned()),
        }
    }

    /// Notes that a step was taken. Tells whether there are more.
    fn steps_on(&mut self) -> (more: bool)
        requires
            old(self).at < old(self).steps@.len(),
        ensures
            more == (old(self).at + 1 < old(self).steps@.len()),
            final(self).at == old(self).at + 1,
            *final(self) == (CompactionRun {
                at: final(self).at,
                forward: if old(self).phase is Rollback {
                    old(self).forward
                } else {
                    Ghost(old(self).forward@.push(old(self).steps@[old(self).at as int]))
                },
                back: if old(self).phase is Rollback {
                    Ghost(old(self).back@.push(old(self).steps@[old(self).at as int]))
                } else {
                    old(self).back
                },
                ..*old(self)
            }),
    {
        if self.phase == CompactPhase::Rollback {
            self.back = Ghost(self.back@.push(self.steps@[self.at as int]));
        } else {
            self.forward = Ghost(self.forward@.push(self.steps@[self.at as int]));
        }
        assert(self.steps.len() == self.steps@.len());
        self.at = self.at + 1;
        self.at < self.steps.len()
    }

    /// What came of a run that is over.
    pub fn result(self) -> (r: Result<CompactionResult, StoreError>)
        requires
            self.wf(),
            self@.phase is Done,
        ensures
            match self@.phase->Done_0 {
                CompactEnd::Performed => r matches Ok(result) && result.outcome is Performed
                    && result.segments_removed == self@.sealed().len() && result.bytes_reclaimed
                    == super::compact::total_length(self@.lengths),
                CompactEnd::Skipped => r matches Ok(result) && result.outcome is Skipped
                    && result.segments_removed == 0 && result.bytes_reclaimed == 0,
                CompactEnd::RolledBack => r matches Ok(result) && (
                result.outcome matches CompactionOutcome::Failed { reason } && reason@
                    == "compaction pre-swap phase failed"@ + "; disk layout rolled back: "@
                    + self@.error->0.text()) && result.segments_removed == 0
                    && result.bytes_reclaimed == 0,
                CompactEnd::Failed => r == Err::<CompactionResult, StoreError>(self@.error->0),
            },
    {
        match self.phase {
            CompactPhase::Done(CompactEnd::Skipped) => Ok(CompactionResult::skipped()),
            CompactPhase::Done(CompactEnd::RolledBack) => match &self.error {
                Some(error) => Ok(
                    CompactionResult::rolled_back("compaction pre-swap phase failed", error),
                ),
                None => Ok(CompactionResult::skipped()),
            },
            CompactPhase::Done(CompactEnd::Failed) => match self.error {
                Some(error) => Err(error),
                None => Ok(CompactionResult::skipped()),
            },
            _ => Ok(CompactionResult::performed(self.lengths.as_slice())),
        }
    }
}

/// What a write that broke off leaves at its place, if anything.
pub open spec fn torn_at(disk: Disk, path: Seq<char>, torn: Option<Seq<u8>>) -> Disk {
    match torn {
        Some(bytes) => disk.insert(path, bytes),
        None => disk,
    }
}

/// The files after a run that put them back. Where the merged segment was being
/// written, it may have been left half written.
pub open spec fn files_put_back(
    run: RunState,
    disk: Disk,
    merged: Seq<u8>,
    torn: Option<Seq<u8>>,
) -> Disk {
    super::compact::after_steps(
        torn_at(
            super::compact::after_steps(disk, run.forward, merged),
            run.merged_path(),
            if run.forward.len() >= 3 {
                torn
            } else {
                None
            },
        ),
        run.back,
        merged,
    )
}

/// A run that failed and put the files back leaves them as they were: wherever
/// it failed, and whatever was left of the merged segment. A leftover of an
/// earlier run at the place to which the first source is moved is gone, unless
/// the run failed to remove it.
pub proof fn law_rolled_back_run_restores_the_files(
    run: RunState,
    disk: Disk,
    merged: Seq<u8>,
    torn: Option<Seq<u8>>,
)
    requires
        run.wf(),
        run.phase == CompactPhase::Done(CompactEnd::RolledBack),
        run.source() == run.merged_path(),
        run.merged_path() != run.aside(),
        disk.contains_key(run.merged_path()),
    ensures
        files_put_back(run, disk, merged, torn) == (if run.forward.len() == 0 {
            disk
        } else {
            disk.remove(run.aside())
        }),
{
    reveal_with_fuel(super::compact::after_steps, 5);
    let (path, aside) = (run.merged_path(), run.aside());
    let (ahead, back) = (run.forward, run.back);
    if ahead.len() >= 2 {
        let moved = disk.remove(aside).remove(path).insert(aside, disk[path]);
        let reached = super::compact::after_steps(disk, ahead, merged);
        lemma_files_after_part(ahead, path, aside, disk, merged);
        let left = torn_at(
            reached,
            path,
            if ahead.len() >= 3 {
                torn
            } else {
                None
            },
        );
        assert(left.remove(path) =~= moved.remove(path));
        assert(back.drop_last().last() == back[0]);
        assert(back.drop_last().drop_last().len() == 0);
        assert(files_put_back(run, disk, merged, torn) =~= disk.remove(aside));
    }
}

/// However far a merge went after the first source was moved aside, the files
/// differ only at the place of the merged segment.
proof fn lemma_files_after_part(
    ahead: Seq<DiskStep>,
    path: Seq<char>,
    aside: Seq<char>,
    disk: Disk,
    merged: Seq<u8>,
)
    requires
        2 <= ahead.len() <= 4,
        builds(ahead, ahead.len() as int, path, path, aside),
        path != aside,
        disk.contains_key(path),
    ensures
        super::compact::after_steps(disk, ahead, merged).remove(path) == disk.remove(aside).remove(
            path,
        ).insert(aside, disk[path]),
        ahead.len() == 4 ==> super::compact::after_steps(disk, ahead, merged)
            == disk.insert(aside, disk[path]).insert(path, merged),
    decreases ahead.len(),
{
    reveal_with_fuel(super::compact::after_steps, 3);
    let front = ahead.drop_last();
    if ahead.len() == 2 {
        assert(front.last() == ahead[0]);
        assert(front.drop_last().len() == 0);
        assert(super::compact::after_steps(disk, ahead, merged).remove(path) =~= disk.remove(
            aside,
        ).remove(path).insert(aside, disk[path]));
    } else {
        lemma_files_after_part(front, path, aside, disk, merged);
        let before = super::compact::after_steps(disk, front, merged);
        assert(super::compact::after_steps(disk, ahead, merged).remove(path) =~= before.remove(path));
        if ahead.len() == 4 {
            assert(super::compact::after_steps(disk, ahead, merged) =~= before.remove(path).insert(
                path,
                merged,
            ));
            assert(before.remove(path).insert(path, merged) =~= disk.insert(
                aside,
                disk[path],
            ).insert(path, merged));
        }
    }
}

/// Removing the sources removes them and nothing else.
proof fn lemma_removed(
    disk: Disk,
    steps: Seq<DiskStep>,
    n: int,
    sealed: Seq<SegmentFile>,
    aside: Seq<char>,
    merged: Seq<u8>,
    name: Seq<char>,
)
    requires
        removes(steps, n, sealed, aside),
        n <= sealed.len(),
    ensures
        super::compact::after_steps(disk, steps, merged).get(name) == (if n > 0 && name == aside
            || exists|i: int| 0 < i < n && (#[trigger] sealed[i]).path@ == name {
            None
        } else {
            disk.get(name)
        }),
    decreases n,
{
    if n > 0 {
        let front = steps.drop_last();
        assert forall|i: int|
            #![trigger front[i]]
            0 <= i < n - 1 implies (front[i] matches DiskStep::Remove(path) && path@ == (if i
            == 0 {
            aside
        } else {
            sealed[i].path@
        })) by {
            assert(steps[i] == front[i]);
        }
        lemma_removed(disk, front, n - 1, sealed, aside, merged, name);
        let before = super::compact::after_steps(disk, front, merged);
        assert(steps[n - 1] == steps.last());
        if exists|i: int| 0 < i < n && (#[trigger] sealed[i]).path@ == name {
            let i = choose|i: int| 0 < i < n && (#[trigger] sealed[i]).path@ == name;
            assert(i < n - 1 || sealed[n - 1].path@ == name);
        }
        if exists|i: int| 0 < i < n - 1 && (#[trigger] sealed[i]).path@ == name {
            let i = choose|i: int| 0 < i < n - 1 && (#[trigger] sealed[i]).path@ == name;
            assert(0 < i < n && sealed[i].path@ == name);
        }
    }
}

/// A run that was performed leaves the merged segment in the place of the first
/// source. The other sources are gone, and so is what was moved aside. Every
/// other file is as it was.
pub proof fn law_performed_run_replaces_the_sources(
    run: RunState,
    disk: Disk,
    merged: Seq<u8>,
    name: Seq<char>,
)
    requires
        run.wf(),
        run.phase == CompactPhase::Done(CompactEnd::Performed),
        run.source() == run.merged_path(),
        run.merged_path() != run.aside(),
        disk.contains_key(run.merged_path()),
        forall|i: int|
            #![trigger run.sealed()[i]]
            0 < i < run.sealed().len() ==> run.sealed()[i].path@ != run.merged_path(),
    ensures
        super::compact::after_steps(disk, run.forward, merged).get(name) == (if name
            == run.merged_path() {
            Some(merged)
        } else if name == run.aside() || exists|i: int|
            0 <= i < run.sealed().len() && (#[trigger] run.sealed()[i]).path@ == name {
            None
        } else {
            disk.get(name)
        }),
{
    let n = run.sealed().len() as int;
    let (path, aside) = (run.merged_path(), run.aside());
    let building = run.forward.take(4);
    let removing = run.forward.subrange(4, 4 + n);
    let built = super::compact::after_steps(disk, building, merged);
    lemma_files_after_part(building, path, aside, disk, merged);
    assert(run.forward.drop_last() =~= building + removing);
    super::compact::lemma_steps_add(disk, building, removing, merged);
    lemma_removed(built, removing, n, run.sealed(), aside, merged, name);
    let almost = super::compact::after_steps(disk, building + removing, merged);
    assert(super::compact::after_steps(disk, run.forward, merged) == almost.remove(aside));
    if exists|i: int| 0 <= i < n && (#[trigger] run.sealed()[i]).path@ == name {
        let i = choose|i: int| 0 <= i < n && (#[trigger] run.sealed()[i]).path@ == name;
        if i == 0 {
            assert(name == path);
        }
    }
}

/// What a compaction asks for while it runs: in each phase what the phase is for, and
/// nothing once it is over. The marker and the files that are let go name every
/// segment that is merged; the merged segment takes the number of the first, and is
/// written from all of them in order, the first from where it was moved.
pub proof fn law_compaction_asks_phase_by_phase(run: &CompactionRun, action: CompactAction, i: int)
    requires
        run.wf(),
        call_ensures(CompactionRun::action, (run,), action),
    ensures
        run@.phase is Sync ==> action is Sync,
        run@.phase is List ==> action is List,
        run@.phase is Mark && run@.places is None ==> (action matches CompactAction::Locate {
            merged_id,
        } && merged_id == super::compact::sealed_segments(run@.segments)[0].id),
        run@.phase is Mark && run@.places is Some ==> (action matches CompactAction::Mark(pending)
            && pending.merged_id == super::compact::sealed_segments(run@.segments)[0].id
            && pending.source_segment_ids@.len() == super::compact::sealed_segments(
            run@.segments,
        ).len() && (0 <= i < pending.source_segment_ids@.len() ==> pending.source_segment_ids@[i]
            == super::compact::sealed_segments(run@.segments)[i].id)),
        run@.phase is Evict ==> (action matches CompactAction::Evict(ids) && ids@.len()
            == super::compact::sealed_segments(run@.segments).len() && (0 <= i < ids@.len()
            ==> ids@[i] == super::compact::sealed_segments(run@.segments)[i].id)),
        run@.phase is Materialize && run@.at < 3 ==> action is File,
        run@.phase is Materialize && run@.at == 3 ==> (action matches CompactAction::Write {
            merged_id,
            sources,
        } && merged_id == super::compact::sealed_segments(run@.segments)[0].id && sources@.len()
            == super::compact::sealed_segments(run@.segments).len() && sources@[0]@
            == (run@.places->0).1 && (0 < i < sources@.len() ==> sources@[i]@
            == super::compact::sealed_segments(run@.segments)[i].path@)),
        run@.phase is Rebuild ==> action is Rebuild,
        run@.phase is Swap ==> action is Swap,
        run@.phase is RemoveSources ==> action is Source,
        run@.phase is RemoveAside ==> action is File,
        run@.phase is Rollback ==> action is File,
        run@.phase is ClearMarker || run@.phase is Unmark ==> action is ClearMarker,
        run@.phase is SettleKeys ==> action is SettleKeys,
        run@.phase is FlushKeys ==> action is FlushKeys,
        run@.phase is WriteArtifacts ==> action is WriteArtifacts,
        run@.phase is Done ==> action is Finish,
{
    run.lemma_state_wf();
}

/// While segments are merged the files move in this order: what lies where the first
/// source goes is removed, the first source is moved there, what lies in the place of
/// the merged segment is removed, and the merged segment is written. Afterwards the
/// sources are removed, the first from where it was moved.
pub proof fn law_compaction_moves_files_in_order(run: &CompactionRun, action: CompactAction)
    requires
        run.wf(),
        call_ensures(CompactionRun::action, (run,), action),
    ensures
        run@.phase is Materialize && run@.at == 0 ==> (action matches CompactAction::File(
            DiskStep::RemoveIfPresent(path),
        ) && path@ == (run@.places->0).1),
        run@.phase is Materialize && run@.at == 1 ==> (action matches CompactAction::File(
            DiskStep::Rename { from, to },
        ) && from@ == super::compact::sealed_segments(run@.segments)[0].path@ && to@
            == (run@.places->0).1),
        run@.phase is Materialize && run@.at == 2 ==> (action matches CompactAction::File(
            DiskStep::RemoveIfPresent(path),
        ) && path@ == (run@.places->0).0),
        run@.phase is RemoveSources ==> (action matches CompactAction::Source(
            DiskStep::Remove(path),
        ) && path@ == (if run@.at == 0 {
            (run@.places->0).1
        } else {
            super::compact::sealed_segments(run@.segments)[run@.at as int].path@
        })),
        run@.phase is RemoveAside ==> (action matches CompactAction::File(
            DiskStep::RemoveIfPresent(path),
        ) && path@ == (run@.places->0).1),
        run@.phase is Rollback && run@.at == 0 ==> (action matches CompactAction::File(
            DiskStep::RemoveIfPresent(path),
        ) && path@ == (run@.places->0).0),
        run@.phase is Rollback && run@.at == 1 ==> (action matches CompactAction::File(
            DiskStep::Rename { from, to },
        ) && from@ == (run@.places->0).1 && to@ == (run@.places->0).0),
{
    run.lemma_state_wf();
}

/// A failure while segments are merged is put back, unless nothing was moved yet: then
/// only the marker goes. The last failure is kept, and no file is touched by it.
pub proof fn law_failed_merge_is_put_back(before: RunState, error: StoreError, after: RunState)
    requires
        before.leads_to(CompactReply::Failed(error), after),
    ensures
        after.error == Some(error),
        after.forward == before.forward && after.back == before.back && after.lengths
            == before.lengths,
        before.phase is Materialize && before.at < 2 ==> after.phase is Unmark,
        before.phase is Materialize && before.at >= 2 ==> after.phase is Rollback,
        before.phase is Rebuild ==> after.phase is Rollback,
        before.phase is Sync || before.phase is List || before.phase is Mark || before.phase is Swap
            || before.phase is RemoveSources || before.phase is RemoveAside
            || before.phase is ClearMarker || before.phase is FlushKeys || before.phase is Rollback
            || before.phase is Unmark ==> after.phase == CompactPhase::Done(CompactEnd::Failed),
{
}

/// What a run keeps of the replies: the segments that were listed, the places that were
/// told, and the lengths of what was removed, each as it came.
pub proof fn law_compaction_keeps_what_it_was_told(
    before: RunState,
    reply: CompactReply,
    after: RunState,
)
    requires
        before.leads_to(reply, after),
    ensures
        reply matches CompactReply::Located { merged_path, aside } ==> after.places == Some(
            (merged_path@, aside@),
        ),
        !(reply is Located) ==> after.places == before.places,
        reply matches CompactReply::Removed { length } ==> after.lengths == before.lengths.push(
            length,
        ),
        !(reply is Removed) ==> after.lengths == before.lengths,
        !(reply is Listed) ==> after.segments == before.segments,
        !(reply is Failed) ==> after.error == before.error,
        reply is Listed && before.phase is List ==> (after.phase is Mark
            <==> super::compact::sealed_segments(after.segments).len() >= after.min_segments) && (
        after.phase == CompactPhase::Done(CompactEnd::Skipped)
            <==> super::compact::sealed_segments(after.segments).len() < after.min_segments),
        after.min_segments == before.min_segments,
{
}

} // verus!
