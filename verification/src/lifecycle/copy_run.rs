//! A snapshot or a fork as it runs: what it asks for next, and what it makes of
//! the reply. The files are read, copied and removed by whoever runs it.

use super::copy_course::{next_copy_phase, CopyKind, CopyPhase};
use super::file_kind::{fork_clear_action, snapshot_clear_action, ClearAction, StoreFileKind};
use super::fork::{
    fork_action, refuse_own_directory, CopyPreference, CowStrategyUsed, ForkAccumulator,
    ForkAction, ForkEntry, ForkFinding, ForkOptions, ForkStrategyCounts,
};
use super::snapshot::{
    snapshot_source_file_kind, SnapshotFinding, SnapshotReportInput, SnapshotRun,
};
use crate::error::StoreError;
use vstd::multiset::Multiset;
use vstd::prelude::*;

verus! {

/// A file at the destination.
#[derive(Debug)]
pub struct DestinationFile {
    /// Its kind.
    pub kind: StoreFileKind,
    /// Its name.
    pub name: String,
    /// Whether it stands in the way.
    pub in_the_way: bool,
    /// Whether it is a directory.
    pub is_dir: bool,
}

/// What a copy asks for.
#[derive(Debug)]
pub enum CopyAction {
    /// Begin a fence.
    BeginFence,
    /// Make what was written durable.
    Sync,
    /// Flush the idempotency keys.
    FlushKeys,
    /// Say how far the segments reach.
    ReadWatermark,
    /// Refuse a destination that is a symlink.
    CheckDestination,
    /// Make the destination.
    CreateDestination,
    /// Resolve the destination and the store's directory.
    Resolve,
    /// List the files at the destination.
    ListDestination,
    /// Remove a file at the destination.
    RemoveFile(String),
    /// Remove a directory at the destination with all that is in it.
    RemoveDir(String),
    /// List the files of the store.
    ListSource,
    /// Refuse a symlink at the place of this file.
    CheckEntry(String),
    /// Refuse a symlink at the place of this file, and copy its bytes.
    CopyBytes(String),
    /// Refuse a symlink at the place of this file, and copy or share it.
    Share {
        /// Its name.
        name: String,
        /// How it may be copied.
        preference: CopyPreference,
    },
    /// Cancel the fence.
    CancelFence(u64),
    /// Nothing.
    Finish,
}

/// What came of it.
#[derive(Debug)]
pub enum CopyReply {
    /// It went well.
    Done,
    /// A fence was begun.
    Began(u64),
    /// The last segment, and how far it reaches.
    Reaches {
        /// Its number.
        segment_id: u64,
        /// The length that counts.
        offset: u64,
    },
    /// The two directories without links and dots.
    Resolved {
        /// The destination.
        dest: String,
        /// The store's directory.
        source: String,
    },
    /// The files at the destination.
    DestinationListed(Vec<DestinationFile>),
    /// Whether there was something to remove.
    Removed(bool),
    /// The files of the store.
    SourceListed(Vec<ForkEntry>),
    /// A file was copied or shared.
    Copied(CowStrategyUsed),
    /// It failed.
    Failed(StoreError),
}

/// What is done with a file at the destination.
pub open spec fn clears(copy: CopyKind, file: DestinationFile) -> ClearAction {
    match copy {
        CopyKind::Fork => if !file.in_the_way {
            ClearAction::Keep
        } else if file.is_dir {
            ClearAction::RemoveDir
        } else {
            ClearAction::RemoveFile
        },
        CopyKind::Snapshot => if file.in_the_way {
            ClearAction::RemoveFile
        } else if file.is_dir && file.kind is CursorDirectory {
            ClearAction::RemoveDir
        } else {
            ClearAction::Keep
        },
    }
}

/// The files at the destination that are removed.
pub open spec fn cleared_files(copy: CopyKind, files: Seq<DestinationFile>) -> Seq<
    DestinationFile,
> {
    files.filter(|file: DestinationFile| !(clears(copy, file) is Keep))
}

/// The files of the store that a copy looks at: all of them for a fork, and
/// those that a snapshot holds for a snapshot.
pub open spec fn looked_at(copy: CopyKind, files: Seq<ForkEntry>) -> Seq<ForkEntry> {
    match copy {
        CopyKind::Fork => files,
        CopyKind::Snapshot => files.filter(
            |file: ForkEntry| super::snapshot::snapshot_kind(file.source_kind) is Some,
        ),
    }
}

/// How many of the removals found something.
pub open spec fn count_true(removed: Seq<bool>) -> nat
    decreases removed.len(),
{
    if removed.len() == 0 {
        0
    } else {
        count_true(removed.drop_last()) + if removed.last() {
            1nat
        } else {
            0nat
        }
    }
}

/// The segments that a fork shares.
pub open spec fn shared_segments(files: Seq<ForkEntry>, used: Seq<Option<CowStrategyUsed>>) -> Multiset<
    u64,
>
    decreases used.len(),
{
    if used.len() == 0 {
        Multiset::empty()
    } else {
        super::fork::with_number(
            shared_segments(files, used.drop_last()),
            super::fork::shared_number(&files[used.len() - 1], used.last()),
        )
    }
}

/// The segments that a fork holds by bytes of its own.
pub open spec fn copied_segments(files: Seq<ForkEntry>, used: Seq<Option<CowStrategyUsed>>) -> Multiset<
    u64,
>
    decreases used.len(),
{
    if used.len() == 0 {
        Multiset::empty()
    } else {
        super::fork::with_number(
            copied_segments(files, used.drop_last()),
            super::fork::copied_number(&files[used.len() - 1], used.last()),
        )
    }
}

/// Among the first `n` files there is one of a kind that was copied by bytes.
pub open spec fn holds_kind(files: Seq<ForkEntry>, n: int, kind: StoreFileKind) -> bool {
    exists|i: int|
        0 <= i < n && (#[trigger] files[i]).strategy is DeepCopyAlways && files[i].source_kind
            == kind
}

/// How many files went which way.
pub open spec fn counted(
    files: Seq<ForkEntry>,
    options: ForkOptions,
    used: Seq<Option<CowStrategyUsed>>,
) -> ForkStrategyCounts
    decreases used.len(),
{
    if used.len() == 0 {
        ForkStrategyCounts {
            reflink: 0,
            hardlink: 0,
            deep_copy: 0,
            cache_regenerable: 0,
            excluded: 0,
        }
    } else {
        let before = counted(files, options, used.drop_last());
        match (super::fork::action_for(files[used.len() - 1].strategy, options), used.last()) {
            (ForkAction::Copy(_), Some(used)) => before.with_copy(super::fork::reported(used)),
            (ForkAction::LeaveCache, _) => ForkStrategyCounts {
                cache_regenerable: (before.cache_regenerable + 1) as u64,
                ..before
            },
            _ => ForkStrategyCounts { excluded: (before.excluded + 1) as u64, ..before },
        }
    }
}

/// The findings are that the destination was cleared, where it was, and one
/// about each file.
pub open spec fn found(
    findings: Seq<ForkFinding>,
    cleared: nat,
    files: Seq<ForkEntry>,
    options: ForkOptions,
    used: Seq<Option<CowStrategyUsed>>,
) -> bool {
    let first: int = if cleared > 0 {
        1
    } else {
        0
    };
    &&& findings.len() == first + used.len()
    &&& cleared > 0 ==> (findings[0] matches ForkFinding::DestinationCleared { artifact_count }
        && artifact_count == cleared)
    &&& forall|i: int|
        #![trigger used[i]]
        0 <= i < used.len() ==> super::fork::finding_is(
            findings[first + i],
            &files[i],
            options,
            used[i],
        )
}

/// The segments, the files of which there is one, and the counts are those of
/// the files so far.
pub open spec fn sorted_out(
    acc: ForkAccumulator,
    files: Seq<ForkEntry>,
    options: ForkOptions,
    used: Seq<Option<CowStrategyUsed>>,
) -> bool {
    &&& super::file_kind::ascending(acc.shared_segment_ids_sorted@)
    &&& super::file_kind::ascending(acc.deep_copied_segment_ids_sorted@)
    &&& acc.shared_segment_ids_sorted@.to_multiset() == shared_segments(files, used)
    &&& acc.deep_copied_segment_ids_sorted@.to_multiset() == copied_segments(files, used)
    &&& acc.copied_visibility_ranges_present == holds_kind(
        files,
        used.len() as int,
        StoreFileKind::VisibilityRanges,
    )
    &&& acc.copied_pending_compaction_marker_present == holds_kind(
        files,
        used.len() as int,
        StoreFileKind::PendingCompactionMarker,
    )
    &&& acc.copied_idempotency_store_present == holds_kind(
        files,
        used.len() as int,
        StoreFileKind::IdempotencyStore,
    )
    &&& acc.strategy_counts == counted(files, options, used)
}

/// The fork so far is what came of the files so far.
pub open spec fn forked(
    acc: ForkAccumulator,
    cleared: nat,
    files: Seq<ForkEntry>,
    options: ForkOptions,
    used: Seq<Option<CowStrategyUsed>>,
) -> bool {
    &&& acc.wf()
    &&& sorted_out(acc, files, options, used)
    &&& found(acc.findings@, cleared, files, options, used)
}

/// A copy at some point.
pub struct CopyState {
    /// What the store is copied for.
    pub kind: CopyKind,
    /// What a fork is asked for.
    pub options: ForkOptions,
    /// The destination.
    pub dest: Seq<char>,
    /// What the copy does.
    pub phase: CopyPhase,
    /// How each phase before went.
    pub went: Seq<bool>,
    /// Token of the fence.
    pub token: u64,
    /// The last segment, and how far it reaches.
    pub reach: (u64, u64),
    /// The files were listed that the phase goes through.
    pub listed: bool,
    /// The files that are removed from the destination.
    pub clearing: Seq<DestinationFile>,
    /// Which of the removals found something.
    pub removed: Seq<bool>,
    /// The files of the store that are looked at.
    pub files: Seq<ForkEntry>,
    /// How each of them so far was copied, if it was.
    pub used: Seq<Option<CowStrategyUsed>>,
    /// Why the copy failed.
    pub error: Option<StoreError>,
}

impl CopyState {
    /// The phases follow the course, and each goes through its files one by one.
    pub open spec fn wf(self) -> bool {
        &&& self.phase == super::copy_course::copy_stands_at(self.kind, self.went)
        &&& match self.phase {
            CopyPhase::ClearDestination => {
                &&& if self.listed {
                    self.removed.len() < self.clearing.len()
                } else {
                    self.removed.len() == 0
                }
                &&& self.used.len() == 0
            },
            CopyPhase::CopyFiles => {
                &&& self.removed.len() == self.clearing.len()
                &&& if self.listed {
                    self.used.len() < self.files.len()
                } else {
                    self.used.len() == 0
                }
            },
            CopyPhase::CancelFence | CopyPhase::Copied => self.removed.len() == self.clearing.len()
                && self.used.len() == self.files.len(),
            CopyPhase::Failed => self.error is Some,
            _ => self.removed.len() == 0 && self.used.len() == 0 && !self.listed,
        }
    }

    /// The file that is removed next.
    pub open spec fn doomed(self) -> DestinationFile {
        self.clearing[self.removed.len() as int]
    }

    /// The file that is copied or left out next.
    pub open spec fn file(self) -> ForkEntry {
        self.files[self.used.len() as int]
    }

    /// What a fork does with it.
    pub open spec fn way(self) -> ForkAction {
        super::fork::action_for(self.file().strategy, self.options)
    }

    /// What is asked for.
    pub open spec fn asks_for(self, action: CopyAction) -> bool {
        match self.phase {
            CopyPhase::BeginFence => action is BeginFence,
            CopyPhase::Sync => action is Sync,
            CopyPhase::FlushKeys => action is FlushKeys,
            CopyPhase::ReadWatermark => action is ReadWatermark,
            CopyPhase::CheckDestination => action is CheckDestination,
            CopyPhase::CreateDestination => action is CreateDestination,
            CopyPhase::CompareDirectories => action is Resolve,
            CopyPhase::ClearDestination => if !self.listed {
                action is ListDestination
            } else if clears(self.kind, self.doomed()) is RemoveDir {
                action == CopyAction::RemoveDir(self.doomed().name)
            } else {
                action == CopyAction::RemoveFile(self.doomed().name)
            },
            CopyPhase::CopyFiles => if !self.listed {
                action is ListSource
            } else if self.kind is Snapshot {
                action == CopyAction::CopyBytes(self.file().file_name)
            } else {
                match self.way() {
                    ForkAction::Copy(preference) => action == (CopyAction::Share {
                        name: self.file().file_name,
                        preference,
                    }),
                    _ => action == CopyAction::CheckEntry(self.file().file_name),
                }
            },
            CopyPhase::CancelFence => action == CopyAction::CancelFence(self.token),
            CopyPhase::Copied | CopyPhase::Failed => action is Finish,
        }
    }

    /// The reply is one to what was asked for.
    pub open spec fn fits(self, reply: CopyReply) -> bool {
        match reply {
            CopyReply::Began(_) => self.phase is BeginFence,
            CopyReply::Reaches { .. } => self.phase is ReadWatermark,
            CopyReply::Resolved { .. } => self.phase is CompareDirectories,
            CopyReply::DestinationListed(_) => self.phase is ClearDestination && !self.listed,
            CopyReply::Removed(_) => self.phase is ClearDestination && self.listed,
            CopyReply::SourceListed(files) => self.phase is CopyFiles && !self.listed
                && files@.len() < usize::MAX,
            CopyReply::Copied(_) => self.phase is CopyFiles && self.listed && self.kind is Fork
                && self.way() is Copy,
            CopyReply::Done => match self.phase {
                CopyPhase::Sync | CopyPhase::FlushKeys | CopyPhase::CheckDestination
                | CopyPhase::CreateDestination | CopyPhase::CancelFence => true,
                CopyPhase::CopyFiles => self.listed && (self.kind is Snapshot || !(
                self.way() is Copy)),
                _ => false,
            },
            CopyReply::Failed(_) => !(self.phase is Copied) && !(self.phase is Failed),
        }
    }

    /// The reply says that the destination is the store's own directory.
    pub open spec fn own_directory(reply: CopyReply) -> bool {
        reply matches CopyReply::Resolved { dest, source } && dest@ == source@
    }

    /// There is more to do in the phase after the reply.
    pub open spec fn goes_on(self, reply: CopyReply) -> bool {
        match reply {
            CopyReply::DestinationListed(files) => cleared_files(self.kind, files@).len() > 0,
            CopyReply::Removed(_) => self.removed.len() + 1 < self.clearing.len(),
            CopyReply::SourceListed(files) => looked_at(self.kind, files@).len() > 0,
            CopyReply::Copied(_) => self.used.len() + 1 < self.files.len(),
            CopyReply::Done => self.phase is CopyFiles && self.used.len() + 1 < self.files.len(),
            _ => false,
        }
    }

    /// `after` is what the reply makes of this.
    pub open spec fn leads_to(self, reply: CopyReply, after: CopyState) -> bool {
        &&& after.kind == self.kind
        &&& after.options == self.options
        &&& after.dest == self.dest
        &&& after.token == (match reply {
            CopyReply::Began(token) => token,
            _ => self.token,
        })
        &&& after.reach == (match reply {
            CopyReply::Reaches { segment_id, offset } => (segment_id, offset),
            _ => self.reach,
        })
        &&& after.clearing == (match reply {
            CopyReply::DestinationListed(files) => cleared_files(self.kind, files@),
            _ => self.clearing,
        })
        &&& after.removed == (match reply {
            CopyReply::Removed(was_there) => self.removed.push(was_there),
            _ => self.removed,
        })
        &&& after.files == (match reply {
            CopyReply::SourceListed(files) => looked_at(self.kind, files@),
            _ => self.files,
        })
        &&& after.used == (match reply {
            CopyReply::Copied(used) => self.used.push(Some(used)),
            CopyReply::Done => if self.phase is CopyFiles {
                self.used.push(None)
            } else {
                self.used
            },
            _ => self.used,
        })
        &&& match reply {
            CopyReply::Failed(error) => after.error == Some(error),
            CopyReply::Resolved { .. } if Self::own_directory(reply) => after.error matches Some(
                StoreError::Io { kind, message },
            ) && kind is InvalidInput && message@ == "fork destination "@ + self.dest
                + " resolves to the source data directory"@,
            _ => after.error == self.error,
        }
        &&& if self.goes_on(reply) {
            after.phase == self.phase && after.went == self.went && after.listed
        } else {
            let ok = !(reply is Failed) && !Self::own_directory(reply);
            after.phase == super::copy_course::after_phase(self.kind, self.phase, ok) && after.went
                == self.went.push(ok) && !after.listed
        }
    }
}

/// The kinds of the first `n` files.
pub open spec fn kinds_of(files: Seq<ForkEntry>, n: int) -> Seq<StoreFileKind> {
    files.take(n).map_values(|file: ForkEntry| file.source_kind)
}

proof fn lemma_count_bound(removed: Seq<bool>)
    ensures
        count_true(removed) <= removed.len(),
    decreases removed.len(),
{
    if removed.len() > 0 {
        lemma_count_bound(removed.drop_last());
    }
}

proof fn lemma_no_numbers(ids: Seq<u64>)
    requires
        ids.len() == 0,
    ensures
        ids.to_multiset() == Multiset::<u64>::empty(),
{
    ids.to_multiset_ensures();
    assert(ids.to_multiset() =~= Multiset::empty());
}

/// A copy looks at no more files than there are, and a snapshot only at those
/// that it holds.
proof fn lemma_looked_at(copy: CopyKind, files: Seq<ForkEntry>)
    ensures
        looked_at(copy, files).len() <= files.len(),
        copy is Snapshot ==> forall|i: int|
            #![trigger looked_at(copy, files)[i]]
            0 <= i < looked_at(copy, files).len() ==> super::snapshot::snapshot_kind(
                looked_at(copy, files)[i].source_kind,
            ) is Some,
{
    if copy is Snapshot {
        let held = |file: ForkEntry| super::snapshot::snapshot_kind(file.source_kind) is Some;
        files.lemma_filter_len(held);
        assert forall|i: int|
            #![trigger looked_at(copy, files)[i]]
            0 <= i < looked_at(copy, files).len() implies super::snapshot::snapshot_kind(
            looked_at(copy, files)[i].source_kind,
        ) is Some by {
            files.lemma_filter_pred(held, i);
        }
    }
}

/// A fork that has looked at no file has nothing to do with which there are.
proof fn lemma_none_forked(
    acc: ForkAccumulator,
    cleared: nat,
    files: Seq<ForkEntry>,
    others: Seq<ForkEntry>,
    options: ForkOptions,
    used: Seq<Option<CowStrategyUsed>>,
)
    requires
        used.len() == 0,
        forked(acc, cleared, files, options, used),
    ensures
        forked(acc, cleared, others, options, used),
{
}

/// One more file.
proof fn lemma_forked_on(
    acc: ForkAccumulator,
    after: ForkAccumulator,
    cleared: nat,
    files: Seq<ForkEntry>,
    options: ForkOptions,
    used: Seq<Option<CowStrategyUsed>>,
    last: Option<CowStrategyUsed>,
)
    requires
        used.len() < files.len(),
        forked(acc, cleared, files, options, used),
        after.wf(),
        ({
            let entry = files[used.len() as int];
            &&& after.shared_segment_ids_sorted@.to_multiset() == super::fork::with_number(
                acc.shared_segment_ids_sorted@.to_multiset(),
                super::fork::shared_number(&entry, last),
            )
            &&& after.deep_copied_segment_ids_sorted@.to_multiset() == super::fork::with_number(
                acc.deep_copied_segment_ids_sorted@.to_multiset(),
                super::fork::copied_number(&entry, last),
            )
            &&& after.copied_visibility_ranges_present == (acc.copied_visibility_ranges_present
                || (entry.strategy is DeepCopyAlways && entry.source_kind is VisibilityRanges))
            &&& after.copied_pending_compaction_marker_present == (
            acc.copied_pending_compaction_marker_present || (entry.strategy is DeepCopyAlways
                && entry.source_kind is PendingCompactionMarker))
            &&& after.copied_idempotency_store_present == (acc.copied_idempotency_store_present
                || (entry.strategy is DeepCopyAlways && entry.source_kind is IdempotencyStore))
            &&& after.findings@.len() == acc.findings@.len() + 1
            &&& after.findings@.drop_last() == acc.findings@
            &&& super::fork::finding_is(after.findings@.last(), &entry, options, last)
        }),
        after.strategy_counts == counted(files, options, used.push(last)),
    ensures
        forked(after, cleared, files, options, used.push(last)),
{
    let n = used.len() as int;
    let more = used.push(last);
    assert(more.drop_last() =~= used);
    lemma_holds_one_more(files, n, StoreFileKind::VisibilityRanges);
    lemma_holds_one_more(files, n, StoreFileKind::PendingCompactionMarker);
    lemma_holds_one_more(files, n, StoreFileKind::IdempotencyStore);
    let first: int = if cleared > 0 {
        1
    } else {
        0
    };
    assert forall|i: int|
        #![trigger more[i]]
        0 <= i < more.len() implies super::fork::finding_is(
        after.findings@[first + i],
        &files[i],
        options,
        more[i],
    ) by {
        if i < n {
            assert(used[i] == more[i]);
            assert(after.findings@[first + i] == after.findings@.drop_last()[first + i]);
        }
    }
    if cleared > 0 {
        assert(after.findings@[0] == after.findings@.drop_last()[0]);
    }
}

proof fn lemma_holds_one_more(files: Seq<ForkEntry>, n: int, kind: StoreFileKind)
    requires
        0 <= n < files.len(),
    ensures
        holds_kind(files, n + 1, kind) == (holds_kind(files, n, kind) || (files[n].strategy is DeepCopyAlways
            && files[n].source_kind == kind)),
{
    if holds_kind(files, n, kind) {
        let i = choose|i: int|
            0 <= i < n && (#[trigger] files[i]).strategy is DeepCopyAlways && files[i].source_kind
                == kind;
        assert(files[i].source_kind == kind);
    }
}

/// What a fork's report says.
#[derive(Debug)]
pub struct ForkReportInput {
    /// Token of the fence that held writers back.
    pub fence_token: u64,
    /// Segment up to which the store was written, which is the active one.
    pub source_watermark_segment_id: u64,
    /// Where in that segment.
    pub source_watermark_offset: u64,
    /// What became of the files.
    pub files: ForkAccumulator,
}

/// A copy that runs.
pub struct CopyRun {
    kind: CopyKind,
    options: ForkOptions,
    dest: String,
    phase: CopyPhase,
    went: Ghost<Seq<bool>>,
    token: u64,
    reach: (u64, u64),
    listed: bool,
    at: usize,
    clearing: Vec<DestinationFile>,
    removed: Ghost<Seq<bool>>,
    cleared: usize,
    files: Vec<ForkEntry>,
    used: Ghost<Seq<Option<CowStrategyUsed>>>,
    snapshot: SnapshotRun,
    fork: ForkAccumulator,
    error: Option<StoreError>,
}

impl View for CopyRun {
    type V = CopyState;

    closed spec fn view(&self) -> CopyState {
        CopyState {
            kind: self.kind,
            options: self.options,
            dest: self.dest@,
            phase: self.phase,
            went: self.went@,
            token: self.token,
            reach: self.reach,
            listed: self.listed,
            clearing: self.clearing@,
            removed: self.removed@,
            files: self.files@,
            used: self.used@,
            error: self.error,
        }
    }
}

impl CopyRun {
    /// What is kept is what came of the files so far.
    pub closed spec fn wf(&self) -> bool {
        &&& self@.wf()
        &&& self.cleared == count_true(self.removed@)
        &&& self.listed && self.phase is ClearDestination ==> self.at == self.removed@.len()
        &&& self.listed && self.phase is CopyFiles ==> self.at == self.used@.len()
            && self.files@.len() < usize::MAX
        &&& self.phase is CopyFiles || self.phase is CancelFence || self.phase is Copied ==> {
            &&& self.kind is Snapshot ==> {
                &&& self.snapshot.wf()
                &&& self.snapshot.cleared() == self.cleared
                &&& self.snapshot.copied() == kinds_of(self.files@, self.used@.len() as int)
            }
            &&& self.kind is Fork ==> forked(
                self.fork,
                self.cleared as nat,
                self.files@,
                self.options,
                self.used@,
            )
        }
        &&& self.phase is CopyFiles && self.listed && self.kind is Snapshot ==> forall|i: int|
            #![trigger self.files@[i]]
            0 <= i < self.files@.len() ==> super::snapshot::snapshot_kind(
                self.files@[i].source_kind,
            ) is Some
    }

    /// A run that fits what it holds stands at a sound point.
    pub proof fn lemma_state_wf(&self)
        requires
            self.wf(),
        ensures
            self@.wf(),
    {
    }

    /// A copy that has not begun. `dest` names the destination.
    pub fn begin(kind: CopyKind, options: ForkOptions, dest: String) -> (run: CopyRun)
        ensures
            run.wf(),
            run@.kind == kind,
            run@.options == options,
            run@.dest == dest@,
            run@.phase is BeginFence,
    {
        CopyRun {
            kind,
            options,
            dest,
            phase: CopyPhase::BeginFence,
            went: Ghost(Seq::empty()),
            token: 0,
            reach: (0, 0),
            listed: false,
            at: 0,
            clearing: Vec::new(),
            removed: Ghost(Seq::empty()),
            cleared: 0,
            files: Vec::new(),
            used: Ghost(Seq::empty()),
            snapshot: SnapshotRun::begin(0),
            fork: ForkAccumulator::begin(0),
            error: None,
        }
    }

    /// Whether the copy is over.
    pub fn is_over(&self) -> (r: bool)
        ensures
            r == (self@.phase is Copied || self@.phase is Failed),
    {
        self.phase == CopyPhase::Copied || self.phase == CopyPhase::Failed
    }

    /// What the copy asks for next.
    pub fn action(&self) -> (action: CopyAction)
        requires
            self.wf(),
        ensures
            self@.asks_for(action),
    {
        match self.phase {
            CopyPhase::BeginFence => CopyAction::BeginFence,
            CopyPhase::Sync => CopyAction::Sync,
            CopyPhase::FlushKeys => CopyAction::FlushKeys,
            CopyPhase::ReadWatermark => CopyAction::ReadWatermark,
            CopyPhase::CheckDestination => CopyAction::CheckDestination,
            CopyPhase::CreateDestination => CopyAction::CreateDestination,
            CopyPhase::CompareDirectories => CopyAction::Resolve,
            CopyPhase::ClearDestination => {
                if !self.listed {
                    return CopyAction::ListDestination;
                }
                let file = &self.clearing[self.at];
                match clear_action(self.kind, file) {
                    ClearAction::RemoveDir => CopyAction::RemoveDir(file.name.clone()),
                    _ => CopyAction::RemoveFile(file.name.clone()),
                }
            },
            CopyPhase::CopyFiles => {
                if !self.listed {
                    return CopyAction::ListSource;
                }
                let file = &self.files[self.at];
                let name = file.file_name.clone();
                if self.kind == CopyKind::Snapshot {
                    return CopyAction::CopyBytes(name);
                }
                match fork_action(file.strategy, &self.options) {
                    ForkAction::Copy(preference) => CopyAction::Share { name, preference },
                    _ => CopyAction::CheckEntry(name),
                }
            },
            CopyPhase::CancelFence => CopyAction::CancelFence(self.token),
            CopyPhase::Copied | CopyPhase::Failed => CopyAction::Finish,
        }
    }

    /// Notes how a file was forked. Tells whether there are more.
    fn forks_on(&mut self, used: Option<CowStrategyUsed>) -> (more: bool)
        requires
            old(self).wf(),
            old(self).phase is CopyFiles,
            old(self).listed,
            old(self).kind is Fork,
            used is Some <==> old(self)@.way() is Copy,
        ensures
            more == (old(self).used@.len() + 1 < old(self).files@.len()),
            final(self).at == old(self).at + 1,
            *final(self) == (CopyRun {
                at: final(self).at,
                used: Ghost(old(self).used@.push(used)),
                fork: final(self).fork,
                ..*old(self)
            }),
            forked(
                final(self).fork,
                final(self).cleared as nat,
                final(self).files@,
                final(self).options,
                final(self).used@,
            ),
    {
        let ghost before = self.fork;
        assert(self.files.len() == self.files@.len());
        let entry = self.files[self.at].dup();
        assert(self.used@.push(used).drop_last() =~= self.used@);
        self.fork.fork_entry(entry, &self.options, used);
        proof {
            lemma_forked_on(
                before,
                self.fork,
                self.cleared as nat,
                self.files@,
                self.options,
                self.used@,
                used,
            );
        }
        self.used = Ghost(self.used@.push(used));
        self.at = self.at + 1;
        self.at < self.files.len()
    }

    /// Notes that a file was copied into a snapshot. Tells whether there are
    /// more.
    fn records_on(&mut self) -> (more: bool)
        requires
            old(self).wf(),
            old(self).phase is CopyFiles,
            old(self).listed,
            old(self).kind is Snapshot,
        ensures
            more == (old(self).used@.len() + 1 < old(self).files@.len()),
            final(self).at == old(self).at + 1,
            *final(self) == (CopyRun {
                at: final(self).at,
                used: Ghost(old(self).used@.push(None)),
                snapshot: final(self).snapshot,
                ..*old(self)
            }),
            final(self).snapshot.wf(),
            final(self).snapshot.cleared() == final(self).cleared,
            final(self).snapshot.copied() == kinds_of(
                final(self).files@,
                final(self).used@.len() as int,
            ),
    {
        assert(self.files.len() == self.files@.len());
        let kind = self.files[self.at].source_kind;
        self.snapshot.record(kind);
        proof {
            let at = self.at as int;
            assert(kinds_of(self.files@, at + 1) =~= kinds_of(self.files@, at).push(kind));
        }
        self.used = Ghost(self.used@.push(None));
        self.at = self.at + 1;
        self.at < self.files.len()
    }

    /// Takes the reply to what was asked for.
    pub fn took(&mut self, reply: CopyReply)
        requires
            old(self).wf(),
            old(self)@.fits(reply),
        ensures
            final(self).wf(),
            old(self)@.leads_to(reply, final(self)@),
    {
        let ghost before = *self;
        let mut ok = true;
        match reply {
            CopyReply::Failed(error) => {
                self.error = Some(error);
                ok = false;
            },
            CopyReply::Began(token) => {
                self.token = token;
            },
            CopyReply::Reaches { segment_id, offset } => {
                self.reach = (segment_id, offset);
            },
            CopyReply::Resolved { dest, source } => {
                if let Err(error) = refuse_own_directory(
                    dest.as_str(),
                    source.as_str(),
                    self.dest.as_str(),
                ) {
                    self.error = Some(error);
                    ok = false;
                }
            },
            CopyReply::DestinationListed(files) => {
                self.clearing = select_cleared(self.kind, files);
                self.at = 0;
                if self.clearing.len() > 0 {
                    self.listed = true;
                    return;
                }
            },
            CopyReply::Removed(was_there) => {
                let ghost removed = self.removed@;
                proof {
                    lemma_count_bound(removed);
                    assert(removed.push(was_there).drop_last() =~= removed);
                    assert(self.clearing.len() == self.clearing@.len());
                }
                self.removed = Ghost(removed.push(was_there));
                if was_there {
                    self.cleared = self.cleared + 1;
                }
                self.at = self.at + 1;
                if self.at < self.clearing.len() {
                    return;
                }
            },
            CopyReply::SourceListed(files) => {
                let ghost listed = files@;
                self.files = select_files(self.kind, files);
                self.at = 0;
                proof {
                    lemma_looked_at(self.kind, listed);
                    if self.kind is Fork {
                        lemma_none_forked(
                            self.fork,
                            self.cleared as nat,
                            before.files@,
                            self.files@,
                            self.options,
                            self.used@,
                        );
                    }
                    assert(kinds_of(self.files@, 0) =~= kinds_of(before.files@, 0));
                }
                if self.files.len() > 0 {
                    self.listed = true;
                    return;
                }
            },
            CopyReply::Copied(used) => {
                if self.forks_on(Some(used)) {
                    return;
                }
            },
            CopyReply::Done => if self.phase == CopyPhase::CopyFiles {
                let more = if self.kind == CopyKind::Snapshot {
                    self.records_on()
                } else {
                    self.forks_on(None)
                };
                if more {
                    return;
                }
            },
        }
        let next = next_copy_phase(self.kind, self.phase, ok);
        let ghost went = self.went@;
        self.went = Ghost(went.push(ok));
        if next == CopyPhase::CopyFiles {
            self.snapshot = SnapshotRun::begin(self.cleared);
            self.fork = ForkAccumulator::begin(self.cleared);
        }
        self.listed = false;
        self.phase = next;
        proof {
            assert(went.push(ok).drop_last() =~= went);
            assert(kinds_of(self.files@, 0) =~= Seq::empty());
            if next is CopyFiles {
                lemma_no_numbers(self.fork.shared_segment_ids_sorted@);
                lemma_no_numbers(self.fork.deep_copied_segment_ids_sorted@);
            }
        }
    }

    /// What the report of a snapshot says that is done, or why it failed.
    pub fn snapshot_report(self) -> (r: Result<SnapshotReportInput, StoreError>)
        requires
            self.wf(),
            self@.kind is Snapshot,
            self@.phase is Copied || self@.phase is Failed,
        ensures
            self@.phase is Failed ==> r == Err::<SnapshotReportInput, StoreError>(self@.error->0),
            self@.phase is Copied ==> (r matches Ok(report) && {
                let kinds = kinds_of(self@.files, self@.files.len() as int);
                let cleared = count_true(self@.removed);
                let first: int = if cleared > 0 {
                    1
                } else {
                    0
                };
                &&& report.fence_token == self@.token
                &&& report.source_watermark_segment_id == self@.reach.0
                &&& report.source_watermark_offset == self@.reach.1
                &&& super::file_kind::ascending(report.copied_segment_ids_sorted@)
                &&& report.copied_segment_ids_sorted@.to_multiset() == super::snapshot::numbers(
                    kinds,
                ).to_multiset()
                &&& report.copied_visibility_ranges_present == kinds.contains(
                    StoreFileKind::VisibilityRanges,
                )
                &&& report.copied_pending_compaction_marker_present == kinds.contains(
                    StoreFileKind::PendingCompactionMarker,
                )
                &&& report.copied_idempotency_store_present == kinds.contains(
                    StoreFileKind::IdempotencyStore,
                )
                &&& report.findings@.len() == first + 2
                &&& cleared > 0 ==> report.findings@[0] == (SnapshotFinding::DestinationCleared {
                    artifact_count: cleared as usize,
                })
                &&& report.findings@[first] is FenceTokenCancelled
                &&& report.findings@[first + 1] matches SnapshotFinding::CopyByteHashUnavailable {
                    reason,
                    file_kind,
                } && file_kind is Segment && reason@
                    == "snapshot v1 records structural file identity; per-file byte hash table is out of scope"@
            }),
    {
        if self.phase == CopyPhase::Copied {
            return Ok(self.snapshot.finish(self.token, self.reach.0, self.reach.1));
        }
        match self.error {
            Some(error) => Err(error),
            None => Ok(self.snapshot.finish(self.token, self.reach.0, self.reach.1)),
        }
    }

    /// What the report of a fork says that is done, or why it failed.
    pub fn fork_report(self) -> (r: Result<ForkReportInput, StoreError>)
        requires
            self.wf(),
            self@.kind is Fork,
            self@.phase is Copied || self@.phase is Failed,
        ensures
            self@.phase is Failed ==> r == Err::<ForkReportInput, StoreError>(self@.error->0),
            self@.phase is Copied ==> (r matches Ok(report) && {
                &&& report.fence_token == self@.token
                &&& report.source_watermark_segment_id == self@.reach.0
                &&& report.source_watermark_offset == self@.reach.1
                &&& sorted_out(report.files, self@.files, self@.options, self@.used)
                &&& report.files.findings@.len() > 0
                &&& report.files.findings@.last() is FenceTokenCancelled
                &&& found(
                    report.files.findings@.drop_last(),
                    count_true(self@.removed),
                    self@.files,
                    self@.options,
                    self@.used,
                )
            }),
    {
        let mut run = self;
        if run.phase == CopyPhase::Failed {
            if let Some(error) = run.error {
                return Err(error);
            }
        }
        let ghost acc = run.fork;
        run.fork.finish();
        assert(run.fork.findings@.drop_last() =~= acc.findings@);
        Ok(
            ForkReportInput {
                fence_token: run.token,
                source_watermark_segment_id: run.reach.0,
                source_watermark_offset: run.reach.1,
                files: run.fork,
            },
        )
    }
}

/// What is done with a file at the destination.
fn clear_action(copy: CopyKind, file: &DestinationFile) -> (r: ClearAction)
    ensures
        r == clears(copy, *file),
{
    match copy {
        CopyKind::Fork => fork_clear_action(file.in_the_way, file.is_dir),
        CopyKind::Snapshot => snapshot_clear_action(file.kind, file.in_the_way, file.is_dir),
    }
}

/// The files at the destination that are removed.
fn select_cleared(copy: CopyKind, files: Vec<DestinationFile>) -> (r: Vec<DestinationFile>)
    ensures
        r@ == cleared_files(copy, files@),
{
    let ghost all = files@;
    let ghost goes = |file: DestinationFile| !(clears(copy, file) is Keep);
    let mut kept: Vec<DestinationFile> = Vec::new();
    reveal(Seq::filter);
    assert(all.take(0).filter(goes) =~= Seq::empty());
    for file in it: files.into_iter()
        invariant
            it.seq() == all,
            goes == |file: DestinationFile| !(clears(copy, file) is Keep),
            kept@ == all.take(it.index() as int).filter(goes),
    {
        reveal(Seq::filter);
        let ghost at = it.index() as int;
        assert(all.take(at + 1).drop_last() =~= all.take(at));
        if clear_action(copy, &file) != ClearAction::Keep {
            kept.push(file);
        }
    }
    assert(all.take(all.len() as int) =~= all);
    kept
}

/// The files of the store that a copy looks at.
fn select_files(copy: CopyKind, files: Vec<ForkEntry>) -> (r: Vec<ForkEntry>)
    ensures
        r@ == looked_at(copy, files@),
{
    if copy == CopyKind::Fork {
        return files;
    }
    let ghost all = files@;
    let ghost held = |file: ForkEntry|
        super::snapshot::snapshot_kind(file.source_kind) is Some;
    let mut kept: Vec<ForkEntry> = Vec::new();
    reveal(Seq::filter);
    assert(all.take(0).filter(held) =~= Seq::empty());
    for file in it: files.into_iter()
        invariant
            it.seq() == all,
            held == |file: ForkEntry| super::snapshot::snapshot_kind(file.source_kind) is Some,
            kept@ == all.take(it.index() as int).filter(held),
    {
        reveal(Seq::filter);
        let ghost at = it.index() as int;
        assert(all.take(at + 1).drop_last() =~= all.take(at));
        if snapshot_source_file_kind(file.source_kind).is_some() {
            kept.push(file);
        }
    }
    assert(all.take(all.len() as int) =~= all);
    kept
}

/// A file that stands in nobody's way stays at the destination, but for the
/// directory of cursors under a snapshot. What is removed was there.
pub proof fn law_only_what_is_in_the_way_goes(
    copy: CopyKind,
    files: Seq<DestinationFile>,
    file: DestinationFile,
)
    ensures
        cleared_files(copy, files).contains(file) <==> files.contains(file) && (file.in_the_way || (
        copy is Snapshot && file.is_dir && file.kind is CursorDirectory)),
{
    let goes = |file: DestinationFile| !(clears(copy, file) is Keep);
    if files.contains(file) && goes(file) {
        let i = choose|i: int| 0 <= i < files.len() && files[i] == file;
        files.lemma_filter_contains(goes, i);
    }
    if cleared_files(copy, files).contains(file) {
        let i = choose|i: int| 0 <= i < files.filter(goes).len() && files.filter(goes)[i] == file;
        files.lemma_filter_pred(goes, i);
        files.lemma_filter_contains_rev(goes, file);
    }
}

/// A snapshot copies exactly the files of the store that it holds, and a fork
/// looks at every file.
pub proof fn law_no_file_is_passed_over(copy: CopyKind, files: Seq<ForkEntry>, file: ForkEntry)
    ensures
        looked_at(copy, files).contains(file) <==> files.contains(file) && (copy is Fork
            || super::snapshot::snapshot_kind(file.source_kind) is Some),
{
    let held = |file: ForkEntry| super::snapshot::snapshot_kind(file.source_kind) is Some;
    if copy is Snapshot {
        if files.contains(file) && held(file) {
            let i = choose|i: int| 0 <= i < files.len() && files[i] == file;
            files.lemma_filter_contains(held, i);
        }
        if files.filter(held).contains(file) {
            let i = choose|i: int|
                0 <= i < files.filter(held).len() && files.filter(held)[i] == file;
            files.lemma_filter_pred(held, i);
            files.lemma_filter_contains_rev(held, file);
        }
    }
}

/// Every file that a fork looks at is counted once.
pub proof fn law_every_file_is_counted_once(
    files: Seq<ForkEntry>,
    options: ForkOptions,
    used: Seq<Option<CowStrategyUsed>>,
)
    requires
        used.len() <= files.len(),
        used.len() <= u64::MAX,
    ensures
        counted(files, options, used).total() == used.len(),
    decreases used.len(),
{
    if used.len() > 0 {
        law_every_file_is_counted_once(files, options, used.drop_last());
    }
}

/// The places of a list that pass, in order, are those that a filter keeps.
proof fn lemma_filter_places<A>(all: Seq<A>, keeps: spec_fn(A) -> bool) -> (at: Seq<int>)
    ensures
        at.len() == all.filter(keeps).len(),
        forall|i: int, j: int| 0 <= i < j < at.len() ==> #[trigger] at[i] < #[trigger] at[j],
        forall|i: int|
            #![trigger at[i]]
            0 <= i < at.len() ==> 0 <= at[i] < all.len() && keeps(all[at[i]])
                && all.filter(keeps)[i] == all[at[i]],
        forall|k: int|
            #![trigger all[k]]
            0 <= k < all.len() && keeps(all[k]) ==> at.contains(k),
    decreases all.len(),
{
    reveal(Seq::filter);
    if all.len() == 0 {
        Seq::empty()
    } else {
        let front = all.drop_last();
        let before = lemma_filter_places(front, keeps);
        let last = all.len() - 1;
        let at = if keeps(all.last()) {
            before.push(last)
        } else {
            before
        };
        assert forall|i: int|
            #![trigger at[i]]
            0 <= i < at.len() implies 0 <= at[i] < all.len() && keeps(all[at[i]]) && all.filter(
            keeps,
        )[i] == all[at[i]] by {
            if i < before.len() {
                assert(before[i] == at[i]);
                assert(front[before[i]] == all[at[i]]);
            }
        }
        assert forall|k: int|
            #![trigger all[k]]
            0 <= k < all.len() && keeps(all[k]) implies at.contains(k) by {
            if k < last {
                assert(front[k] == all[k]);
                let i = choose|i: int| 0 <= i < before.len() && before[i] == k;
                assert(at[i] == k);
            } else {
                assert(at[before.len() as int] == k);
            }
        }
        assert forall|i: int, j: int| 0 <= i < j < at.len() implies #[trigger] at[i]
            < #[trigger] at[j] by {
            assert(at[i] == before[i]);
            if j < before.len() {
                assert(at[j] == before[j]);
            }
        }
        at
    }
}

/// When the store was listed, a snapshot goes through the segments, the ranges of
/// cancelled events, the idempotency keys and the marker of a compaction, and
/// through no other file; a fork goes through all. They are gone through in the
/// order of the list, each once: `at` tells where in the list each stands.
pub proof fn law_copy_goes_through_the_listed_files(
    before: CopyState,
    files: Vec<ForkEntry>,
    after: CopyState,
) -> (at: Seq<int>)
    requires
        before.leads_to(CopyReply::SourceListed(files), after),
    ensures
        at.len() == after.files.len(),
        forall|i: int, j: int| 0 <= i < j < at.len() ==> #[trigger] at[i] < #[trigger] at[j],
        forall|i: int|
            #![trigger at[i]]
            0 <= i < at.len() ==> 0 <= at[i] < files@.len() && after.files[i] == files@[at[i]],
        forall|k: int|
            #![trigger files@[k]]
            0 <= k < files@.len() ==> (at.contains(k) <==> before.kind is Fork
                || files@[k].source_kind is Segment || files@[k].source_kind is VisibilityRanges
                || files@[k].source_kind is IdempotencyStore
                || files@[k].source_kind is PendingCompactionMarker),
{
    if before.kind is Fork {
        let at = Seq::new(files@.len(), |i: int| i);
        assert forall|k: int|
            #![trigger files@[k]]
            0 <= k < files@.len() implies at.contains(k) by {
            assert(at[k] == k);
        }
        at
    } else {
        let held = |file: ForkEntry| super::snapshot::snapshot_kind(file.source_kind) is Some;
        let at = lemma_filter_places(files@, held);
        assert forall|k: int|
            #![trigger files@[k]]
            0 <= k < files@.len() && at.contains(k) implies held(files@[k]) by {
            let i = choose|i: int| 0 <= i < at.len() && at[i] == k;
            assert(at[i] == k);
        }
        at
    }
}

/// When the destination was listed, what is in the way goes, and under a snapshot
/// the directory of cursors too; nothing else does. They go in the order of the
/// list, each once: `at` tells where in the list each stands.
pub proof fn law_copy_clears_the_destination(
    before: CopyState,
    files: Vec<DestinationFile>,
    after: CopyState,
) -> (at: Seq<int>)
    requires
        before.leads_to(CopyReply::DestinationListed(files), after),
    ensures
        at.len() == after.clearing.len(),
        forall|i: int, j: int| 0 <= i < j < at.len() ==> #[trigger] at[i] < #[trigger] at[j],
        forall|i: int|
            #![trigger at[i]]
            0 <= i < at.len() ==> 0 <= at[i] < files@.len() && after.clearing[i] == files@[at[i]],
        forall|k: int|
            #![trigger files@[k]]
            0 <= k < files@.len() ==> (at.contains(k) <==> files@[k].in_the_way || (
            before.kind is Snapshot && files@[k].is_dir && files@[k].kind is CursorDirectory)),
{
    let goes = |file: DestinationFile| !(clears(before.kind, file) is Keep);
    let at = lemma_filter_places(files@, goes);
    assert forall|k: int|
        #![trigger files@[k]]
        0 <= k < files@.len() && at.contains(k) implies goes(files@[k]) by {
        let i = choose|i: int| 0 <= i < at.len() && at[i] == k;
        assert(at[i] == k);
    }
    at
}

/// What a copy asks for while it goes through the files. A snapshot copies the
/// bytes of every file. A fork shares what may be shared, where it was asked to;
/// it copies the bytes of all else but what is left out, which is only held
/// against a symlink. A directory in the way is removed whole by a fork, and the
/// directory of cursors by a snapshot.
pub proof fn law_copy_asks_file_by_file(run: &CopyRun, action: CopyAction)
    requires
        run.wf(),
        run@.listed,
        call_ensures(CopyRun::action, (run,), action),
    ensures
        run@.phase is CopyFiles && run@.kind is Snapshot ==> action == CopyAction::CopyBytes(
            run@.files[run@.used.len() as int].file_name,
        ),
        run@.phase is CopyFiles && run@.kind is Fork ==> {
            let file = run@.files[run@.used.len() as int];
            match file.strategy {
                super::fork::ForkStrategy::ShareIfPossible => action == (CopyAction::Share {
                    name: file.file_name,
                    preference: run@.options.copy_preference,
                }),
                super::fork::ForkStrategy::DeepCopyAlways => action == (CopyAction::Share {
                    name: file.file_name,
                    preference: CopyPreference::DeepCopyOnly,
                }),
                super::fork::ForkStrategy::CacheRegenerable => action == (if run@.options.exclude_caches {
                    CopyAction::CheckEntry(file.file_name)
                } else {
                    CopyAction::Share {
                        name: file.file_name,
                        preference: CopyPreference::DeepCopyOnly,
                    }
                }),
                super::fork::ForkStrategy::Exclude => action == CopyAction::CheckEntry(file.file_name),
            }
        },
        run@.phase is ClearDestination ==> {
            let file = run@.clearing[run@.removed.len() as int];
            let whole = if run@.kind is Fork {
                file.in_the_way && file.is_dir
            } else {
                !file.in_the_way && file.is_dir && file.kind is CursorDirectory
            };
            action == if whole {
                CopyAction::RemoveDir(file.name)
            } else {
                CopyAction::RemoveFile(file.name)
            }
        },
{
}

/// The fence that a copy begins is the fence that it cancels, and how far the
/// store reached is noted as it was told: no other reply touches either.
pub proof fn law_copy_cancels_its_own_fence(
    before: CopyState,
    reply: CopyReply,
    after: CopyState,
    run: &CopyRun,
    action: CopyAction,
)
    requires
        before.leads_to(reply, after),
        run.wf(),
        call_ensures(CopyRun::action, (run,), action),
    ensures
        reply matches CopyReply::Began(token) ==> after.token == token,
        !(reply is Began) ==> after.token == before.token,
        reply matches CopyReply::Reaches { segment_id, offset } ==> after.reach == (
            segment_id,
            offset,
        ),
        !(reply is Reaches) ==> after.reach == before.reach,
        run@.phase is CancelFence ==> action == CopyAction::CancelFence(run@.token),
        action is CancelFence ==> run@.phase is CancelFence,
{
}

/// The report of a snapshot lists the segments that were copied, in ascending
/// order and each as often as there was a file of it, and tells of each of the
/// other files whether there was one.
pub proof fn law_snapshot_report_is_complete(run: CopyRun, report: SnapshotReportInput, id: u64)
    requires
        run.wf(),
        run@.kind is Snapshot,
        run@.phase is Copied,
        call_ensures(
            CopyRun::snapshot_report,
            (run,),
            Ok::<SnapshotReportInput, StoreError>(report),
        ),
    ensures
        report.copied_segment_ids_sorted@.to_multiset().count(id) == run@.files.filter(
            |file: ForkEntry| file.source_kind == StoreFileKind::Segment(id),
        ).len(),
        forall|i: int, j: int|
            #![trigger report.copied_segment_ids_sorted@[i], report.copied_segment_ids_sorted@[j]]
            0 <= i < j < report.copied_segment_ids_sorted@.len()
                ==> report.copied_segment_ids_sorted@[i] <= report.copied_segment_ids_sorted@[j],
        report.copied_visibility_ranges_present <==> exists|i: int|
            0 <= i < run@.files.len() && (#[trigger] run@.files[i]).source_kind is VisibilityRanges,
        report.copied_pending_compaction_marker_present <==> exists|i: int|
            0 <= i < run@.files.len() && (
            #[trigger] run@.files[i]).source_kind is PendingCompactionMarker,
        report.copied_idempotency_store_present <==> exists|i: int|
            0 <= i < run@.files.len() && (#[trigger] run@.files[i]).source_kind is IdempotencyStore,
        report.fence_token == run@.token,
        (report.source_watermark_segment_id, report.source_watermark_offset) == run@.reach,
{
    let files = run@.files;
    let kinds = kinds_of(files, files.len() as int);
    assert(files.take(files.len() as int) =~= files);
    super::snapshot::law_every_segment_is_listed(kinds, id);
    lemma_filter_of_kinds(files, id);
    lemma_kind_is_there(files, StoreFileKind::VisibilityRanges);
    lemma_kind_is_there(files, StoreFileKind::PendingCompactionMarker);
    lemma_kind_is_there(files, StoreFileKind::IdempotencyStore);
}

proof fn lemma_kind_is_there(files: Seq<ForkEntry>, kind: StoreFileKind)
    ensures
        kinds_of(files, files.len() as int).contains(kind) <==> exists|i: int|
            0 <= i < files.len() && (#[trigger] files[i]).source_kind == kind,
{
    let kinds = kinds_of(files, files.len() as int);
    if kinds.contains(kind) {
        let i = choose|i: int| 0 <= i < kinds.len() && kinds[i] == kind;
        assert(files[i].source_kind == kind);
    }
    if exists|i: int| 0 <= i < files.len() && (#[trigger] files[i]).source_kind == kind {
        let i = choose|i: int|
            0 <= i < files.len() && (#[trigger] files[i]).source_kind == kind;
        assert(kinds[i] == kind);
    }
}

proof fn lemma_filter_of_kinds(files: Seq<ForkEntry>, id: u64)
    ensures
        kinds_of(files, files.len() as int).filter(
            |kind: StoreFileKind| kind == StoreFileKind::Segment(id),
        ).len() == files.filter(
            |file: ForkEntry| file.source_kind == StoreFileKind::Segment(id),
        ).len(),
    decreases files.len(),
{
    reveal(Seq::filter);
    let kinds = kinds_of(files, files.len() as int);
    if files.len() > 0 {
        let front = files.drop_last();
        lemma_filter_of_kinds(front, id);
        assert(kinds.drop_last() =~= kinds_of(front, front.len() as int));
        assert(kinds.last() == files.last().source_kind);
    }
}

/// The report of a fork lists as shared the segments that share blocks or are the
/// same file, and as copied those that may never be shared or could not be; each
/// as often as there was a file of it, in ascending order. `pairs` are the files
/// with how each was copied, if it was.
pub proof fn law_fork_report_is_complete(
    run: CopyRun,
    report: ForkReportInput,
    id: u64,
    pairs: Seq<(ForkEntry, Option<CowStrategyUsed>)>,
)
    requires
        run.wf(),
        run@.kind is Fork,
        run@.phase is Copied,
        call_ensures(CopyRun::fork_report, (run,), Ok::<ForkReportInput, StoreError>(report)),
        pairs.len() == run@.files.len(),
        forall|i: int|
            0 <= i < pairs.len() ==> #[trigger] pairs[i] == (run@.files[i], run@.used[i]),
    ensures
        report.files.shared_segment_ids_sorted@.to_multiset().count(id) == pairs.filter(
            |p: (ForkEntry, Option<CowStrategyUsed>)|
                p.0.source_kind == StoreFileKind::Segment(id) && p.0.strategy is ShareIfPossible
                    && (p.1 == Some(CowStrategyUsed::Reflink) || p.1
                    == Some(CowStrategyUsed::Hardlink)),
        ).len(),
        report.files.deep_copied_segment_ids_sorted@.to_multiset().count(id) == pairs.filter(
            |p: (ForkEntry, Option<CowStrategyUsed>)|
                p.0.source_kind == StoreFileKind::Segment(id) && ((p.0.strategy is ShareIfPossible
                    && p.1 == Some(CowStrategyUsed::DeepCopy)) || (p.0.strategy is DeepCopyAlways
                    && p.1 is Some)),
        ).len(),
        forall|i: int, j: int|
            #![trigger report.files.shared_segment_ids_sorted@[i], report.files.shared_segment_ids_sorted@[j]]
            0 <= i < j < report.files.shared_segment_ids_sorted@.len()
                ==> report.files.shared_segment_ids_sorted@[i]
                <= report.files.shared_segment_ids_sorted@[j],
        forall|i: int, j: int|
            #![trigger report.files.deep_copied_segment_ids_sorted@[i], report.files.deep_copied_segment_ids_sorted@[j]]
            0 <= i < j < report.files.deep_copied_segment_ids_sorted@.len()
                ==> report.files.deep_copied_segment_ids_sorted@[i]
                <= report.files.deep_copied_segment_ids_sorted@[j],
        report.files.copied_visibility_ranges_present <==> exists|i: int|
            0 <= i < run@.files.len() && (#[trigger] run@.files[i]).strategy is DeepCopyAlways
                && run@.files[i].source_kind is VisibilityRanges,
        report.files.copied_pending_compaction_marker_present <==> exists|i: int|
            0 <= i < run@.files.len() && (#[trigger] run@.files[i]).strategy is DeepCopyAlways
                && run@.files[i].source_kind is PendingCompactionMarker,
        report.files.copied_idempotency_store_present <==> exists|i: int|
            0 <= i < run@.files.len() && (#[trigger] run@.files[i]).strategy is DeepCopyAlways
                && run@.files[i].source_kind is IdempotencyStore,
        report.fence_token == run@.token,
        (report.source_watermark_segment_id, report.source_watermark_offset) == run@.reach,
{
    lemma_shared_segments(run@.files, run@.used, pairs, id);
}

proof fn lemma_shared_segments(
    files: Seq<ForkEntry>,
    used: Seq<Option<CowStrategyUsed>>,
    pairs: Seq<(ForkEntry, Option<CowStrategyUsed>)>,
    id: u64,
)
    requires
        pairs.len() == used.len() <= files.len(),
        forall|i: int| 0 <= i < pairs.len() ==> #[trigger] pairs[i] == (files[i], used[i]),
    ensures
        shared_segments(files, used).count(id) == pairs.filter(
            |p: (ForkEntry, Option<CowStrategyUsed>)|
                p.0.source_kind == StoreFileKind::Segment(id) && p.0.strategy is ShareIfPossible
                    && (p.1 == Some(CowStrategyUsed::Reflink) || p.1
                    == Some(CowStrategyUsed::Hardlink)),
        ).len(),
        copied_segments(files, used).count(id) == pairs.filter(
            |p: (ForkEntry, Option<CowStrategyUsed>)|
                p.0.source_kind == StoreFileKind::Segment(id) && ((p.0.strategy is ShareIfPossible
                    && p.1 == Some(CowStrategyUsed::DeepCopy)) || (p.0.strategy is DeepCopyAlways
                    && p.1 is Some)),
        ).len(),
    decreases used.len(),
{
    reveal(Seq::filter);
    if used.len() > 0 {
        let front = pairs.drop_last();
        assert forall|i: int| 0 <= i < front.len() implies #[trigger] front[i] == (
            files[i],
            used.drop_last()[i],
        ) by {
            assert(front[i] == pairs[i]);
        }
        lemma_shared_segments(files, used.drop_last(), front, id);
        assert(pairs.last() == (files[used.len() - 1], used.last()));
    }
}

/// The counts of a fork tell how many files were shared by blocks, shared as
/// files and copied by bytes, and how many were left out because they can be made
/// again. `pairs` are the files with how each was copied, if it was.
pub proof fn law_fork_counts_each_way(
    run: CopyRun,
    report: ForkReportInput,
    pairs: Seq<(ForkEntry, Option<CowStrategyUsed>)>,
)
    requires
        run.wf(),
        run@.kind is Fork,
        run@.phase is Copied,
        call_ensures(CopyRun::fork_report, (run,), Ok::<ForkReportInput, StoreError>(report)),
        pairs.len() == run@.files.len(),
        forall|i: int|
            0 <= i < pairs.len() ==> #[trigger] pairs[i] == (run@.files[i], run@.used[i]),
    ensures
        ({
            let copied = |p: (ForkEntry, Option<CowStrategyUsed>)|
                p.0.strategy is ShareIfPossible || p.0.strategy is DeepCopyAlways || (
                p.0.strategy is CacheRegenerable && !run@.options.exclude_caches);
            let counts = report.files.strategy_counts;
            &&& counts.reflink == pairs.filter(
                |p: (ForkEntry, Option<CowStrategyUsed>)|
                    copied(p) && p.1 == Some(CowStrategyUsed::Reflink),
            ).len()
            &&& counts.hardlink == pairs.filter(
                |p: (ForkEntry, Option<CowStrategyUsed>)|
                    copied(p) && p.1 == Some(CowStrategyUsed::Hardlink),
            ).len()
            &&& counts.deep_copy == pairs.filter(
                |p: (ForkEntry, Option<CowStrategyUsed>)|
                    copied(p) && p.1 == Some(CowStrategyUsed::DeepCopy),
            ).len()
            &&& counts.cache_regenerable == pairs.filter(
                |p: (ForkEntry, Option<CowStrategyUsed>)|
                    p.0.strategy is CacheRegenerable && run@.options.exclude_caches,
            ).len()
            &&& counts.reflink + counts.hardlink + counts.deep_copy + counts.cache_regenerable
                + counts.excluded == run@.files.len()
        }),
{
    assert(run.files.len() == run.files@.len());
    lemma_counts(run@.files, run@.options, run@.used, pairs);
    law_every_file_is_counted_once(run@.files, run@.options, run@.used);
}

proof fn lemma_counts(
    files: Seq<ForkEntry>,
    options: ForkOptions,
    used: Seq<Option<CowStrategyUsed>>,
    pairs: Seq<(ForkEntry, Option<CowStrategyUsed>)>,
)
    requires
        pairs.len() == used.len() <= files.len(),
        used.len() <= u64::MAX,
        forall|i: int| 0 <= i < pairs.len() ==> #[trigger] pairs[i] == (files[i], used[i]),
    ensures
        ({
            let copied = |p: (ForkEntry, Option<CowStrategyUsed>)|
                p.0.strategy is ShareIfPossible || p.0.strategy is DeepCopyAlways || (
                p.0.strategy is CacheRegenerable && !options.exclude_caches);
            let counts = counted(files, options, used);
            &&& counts.reflink == pairs.filter(
                |p: (ForkEntry, Option<CowStrategyUsed>)|
                    copied(p) && p.1 == Some(CowStrategyUsed::Reflink),
            ).len()
            &&& counts.hardlink == pairs.filter(
                |p: (ForkEntry, Option<CowStrategyUsed>)|
                    copied(p) && p.1 == Some(CowStrategyUsed::Hardlink),
            ).len()
            &&& counts.deep_copy == pairs.filter(
                |p: (ForkEntry, Option<CowStrategyUsed>)|
                    copied(p) && p.1 == Some(CowStrategyUsed::DeepCopy),
            ).len()
            &&& counts.cache_regenerable == pairs.filter(
                |p: (ForkEntry, Option<CowStrategyUsed>)|
                    p.0.strategy is CacheRegenerable && options.exclude_caches,
            ).len()
        }),
    decreases used.len(),
{
    reveal(Seq::filter);
    if used.len() > 0 {
        let front = pairs.drop_last();
        assert forall|i: int| 0 <= i < front.len() implies #[trigger] front[i] == (
            files[i],
            used.drop_last()[i],
        ) by {
            assert(front[i] == pairs[i]);
        }
        lemma_counts(files, options, used.drop_last(), front);
        law_every_file_is_counted_once(files, options, used.drop_last());
        assert(pairs.last() == (files[used.len() - 1], used.last()));
    }
}

/// The report of a fork notes each file in turn: that it was copied and how, that
/// it was left out because it can be made again, or that it is no part of a fork.
/// Before them it notes that the destination was cleared, where something was,
/// and after them that the fence was cancelled.
pub proof fn law_fork_notes_every_file(run: CopyRun, report: ForkReportInput, i: int)
    requires
        run.wf(),
        run@.kind is Fork,
        run@.phase is Copied,
        call_ensures(CopyRun::fork_report, (run,), Ok::<ForkReportInput, StoreError>(report)),
        0 <= i < run@.files.len(),
    ensures
        ({
            let findings = report.files.findings@;
            let first: int = if run@.removed.contains(true) {
                1
            } else {
                0
            };
            let file = run@.files[i];
            let copied = file.strategy is ShareIfPossible || file.strategy is DeepCopyAlways || (
            file.strategy is CacheRegenerable && !run@.options.exclude_caches);
            &&& findings.len() == first + run@.files.len() + 1
            &&& findings.last() is FenceTokenCancelled
            &&& first == 1 ==> findings[0] is DestinationCleared
            &&& findings[first + i] is FileCopied <==> copied
            &&& findings[first + i] is FileExcluded <==> file.strategy is Exclude
            &&& findings[first + i] is CacheRegenerableExcluded
                <==> file.strategy is CacheRegenerable && run@.options.exclude_caches
            &&& findings[first + i] matches ForkFinding::FileCopied { file_name, strategy }
                ==> file_name@ == file.file_name@ && match run@.used[i] {
                Some(CowStrategyUsed::Reflink) => strategy is Reflink,
                Some(CowStrategyUsed::Hardlink) => strategy is Hardlink,
                Some(CowStrategyUsed::DeepCopy) => strategy is DeepCopy,
                None => false,
            }
            &&& findings[first + i] matches ForkFinding::FileExcluded { file_name, reason }
                ==> file_name@ == file.file_name@
            &&& findings[first + i] matches ForkFinding::CacheRegenerableExcluded { file_name }
                ==> file_name@ == file.file_name@
        }),
{
    lemma_none_true(run@.removed);
    let findings = report.files.findings@;
    let first: int = if run@.removed.contains(true) {
        1
    } else {
        0
    };
    let used = run@.used[i];
    assert(findings.drop_last()[first + i] == findings[first + i]);
    if first == 1 {
        assert(findings.drop_last()[0] == findings[0]);
    }
}

proof fn lemma_none_true(removed: Seq<bool>)
    ensures
        count_true(removed) > 0 <==> removed.contains(true),
    decreases removed.len(),
{
    if removed.len() > 0 {
        let front = removed.drop_last();
        lemma_none_true(front);
        if front.contains(true) {
            let i = choose|i: int| 0 <= i < front.len() && front[i] == true;
            assert(removed[i] == true);
        }
        if removed.last() {
            assert(removed[removed.len() - 1] == true);
        }
        if removed.contains(true) {
            let i = choose|i: int| 0 <= i < removed.len() && removed[i] == true;
            if i < front.len() {
                assert(front[i] == true);
            }
        }
    }
}

/// What a copy asks for while it goes through no files: in each phase what the phase
/// is for, and nothing once it is over.
pub proof fn law_copy_asks_phase_by_phase(run: &CopyRun, action: CopyAction)
    requires
        run.wf(),
        call_ensures(CopyRun::action, (run,), action),
    ensures
        run@.phase is BeginFence ==> action is BeginFence,
        run@.phase is Sync ==> action is Sync,
        run@.phase is FlushKeys ==> action is FlushKeys,
        run@.phase is ReadWatermark ==> action is ReadWatermark,
        run@.phase is CheckDestination ==> action is CheckDestination,
        run@.phase is CreateDestination ==> action is CreateDestination,
        run@.phase is CompareDirectories ==> action is Resolve,
        run@.phase is ClearDestination && !run@.listed ==> action is ListDestination,
        run@.phase is CopyFiles && !run@.listed ==> action is ListSource,
        run@.phase is CancelFence ==> action is CancelFence,
        run@.phase is Copied || run@.phase is Failed ==> action is Finish,
{
}

/// A fork into the store's own directory fails, and one into another goes on to clear it.
pub proof fn law_fork_refuses_its_own_directory(
    before: CopyState,
    dest: String,
    source: String,
    after: CopyState,
)
    requires
        before.phase is CompareDirectories,
        before.leads_to(CopyReply::Resolved { dest, source }, after),
    ensures
        after.phase is Failed <==> dest@ == source@,
        dest@ == source@ ==> (after.error matches Some(StoreError::Io { kind, .. })
            && kind is InvalidInput),
        dest@ != source@ ==> after.phase is ClearDestination && after.error == before.error,
{
}

/// A failure ends a copy that is under way, and is what the caller is told.
pub proof fn law_failure_ends_a_copy(before: CopyState, error: StoreError, after: CopyState)
    requires
        !(before.phase is Copied),
        before.leads_to(CopyReply::Failed(error), after),
    ensures
        after.phase is Failed,
        after.error == Some(error),
        after.files == before.files && after.used == before.used && after.clearing
            == before.clearing && after.removed == before.removed,
{
}

/// Files are gone through one by one until there are no more: each reply counts for one,
/// and only after the last the next phase comes.
pub proof fn law_copy_goes_on_until_the_last_file(
    before: CopyState,
    reply: CopyReply,
    after: CopyState,
)
    requires
        before.leads_to(reply, after),
        before.fits(reply),
    ensures
        reply matches CopyReply::Removed(was_there) ==> {
            &&& after.removed == before.removed.push(was_there)
            &&& after.clearing == before.clearing
            &&& after.removed.len() < after.clearing.len() ==> after.phase is ClearDestination
                && after.listed
            &&& after.removed.len() >= after.clearing.len() ==> after.phase is CopyFiles
                && !after.listed
        },
        reply matches CopyReply::Copied(used) ==> after.used == before.used.push(Some(used)),
        before.phase is CopyFiles && reply is Done ==> after.used == before.used.push(None),
        before.phase is CopyFiles && (reply is Copied || reply is Done) ==> {
            &&& after.files == before.files
            &&& after.used.len() < after.files.len() ==> after.phase is CopyFiles && after.listed
            &&& after.used.len() >= after.files.len() ==> after.phase is CancelFence
                && !after.listed
        },
        reply is DestinationListed && after.clearing.len() == 0 ==> after.phase is CopyFiles,
        reply is DestinationListed && after.clearing.len() > 0 ==> after.phase is ClearDestination,
        reply is SourceListed && after.files.len() == 0 ==> after.phase is CancelFence,
        reply is SourceListed && after.files.len() > 0 ==> after.phase is CopyFiles,
{
}

} // verus!
