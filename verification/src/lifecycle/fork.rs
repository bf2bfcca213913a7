//! Forks: how each file of a store goes into a copy that shares what it can,
//! and what the report says.

use super::file_kind::{insert_ascending, StoreFileKind};
use crate::error::StoreError;
use crate::platform::evidence::IoErrorKind;
use crate::text::str_equal;
use vstd::prelude::*;

verus! {

/// How a file was copied.
#[derive(Clone, Copy, Debug, PartialEq, Eq, Structural)]
pub enum CowStrategyUsed {
    /// Its blocks are shared.
    Reflink,
    /// The file is shared.
    Hardlink,
    /// Its bytes were copied.
    DeepCopy,
}

/// How a file was copied, for the report.
#[derive(Clone, Copy, Debug, PartialEq, Eq, Structural)]
pub enum ForkCopyStrategy {
    /// Its blocks are shared.
    Reflink,
    /// The file is shared.
    Hardlink,
    /// Its bytes were copied.
    DeepCopy,
}

/// How files may be copied.
#[derive(Clone, Copy, Debug, PartialEq, Eq, Structural)]
pub enum CopyPreference {
    /// Shared where that is possible.
    ShareIfPossible,
    /// By their bytes alone.
    DeepCopyOnly,
}

/// How a kind of file goes into a fork.
#[derive(Clone, Copy, Debug, PartialEq, Eq, Structural)]
pub enum ForkStrategy {
    /// Shared where that is possible.
    ShareIfPossible,
    /// By its bytes.
    DeepCopyAlways,
    /// By its bytes, or not at all: it can be made again.
    CacheRegenerable,
    /// Not at all.
    Exclude,
}

/// What a fork is asked for.
#[derive(Clone, Copy, Debug, PartialEq, Eq, Structural)]
pub struct ForkOptions {
    /// How shareable files may be copied.
    pub copy_preference: CopyPreference,
    /// Leave out what can be made again.
    pub exclude_caches: bool,
}

/// What is done with a file.
#[derive(Clone, Copy, Debug, PartialEq, Eq, Structural)]
pub enum ForkAction {
    /// It is copied.
    Copy(CopyPreference),
    /// It is left out: it can be made again.
    LeaveCache,
    /// It is left out.
    LeaveOut,
}

/// What is worth noting of a fork.
#[derive(Debug, PartialEq, Eq)]
pub enum ForkFinding {
    /// The destination held files that were removed.
    DestinationCleared {
        /// How many.
        artifact_count: usize,
    },
    /// A file was copied.
    FileCopied {
        /// Which.
        file_name: String,
        /// How.
        strategy: ForkCopyStrategy,
    },
    /// A file was left out: it can be made again.
    CacheRegenerableExcluded {
        /// Which.
        file_name: String,
    },
    /// A file was left out.
    FileExcluded {
        /// Which.
        file_name: String,
        /// Why.
        reason: String,
    },
    /// The fence that held writers back was cancelled.
    FenceTokenCancelled,
}

/// How many files went which way.
#[derive(Clone, Copy, Debug, PartialEq, Eq, Structural)]
pub struct ForkStrategyCounts {
    /// Shared by blocks.
    pub reflink: u64,
    /// Shared as files.
    pub hardlink: u64,
    /// Copied by bytes.
    pub deep_copy: u64,
    /// Left out: can be made again.
    pub cache_regenerable: u64,
    /// Left out.
    pub excluded: u64,
}

impl ForkStrategyCounts {
    /// Number of files.
    pub open spec fn total(&self) -> int {
        self.reflink + self.hardlink + self.deep_copy + self.cache_regenerable + self.excluded
    }

    /// One more file that was copied.
    pub open spec fn with_copy(self, strategy: ForkCopyStrategy) -> ForkStrategyCounts {
        match strategy {
            ForkCopyStrategy::Reflink => ForkStrategyCounts {
                reflink: (self.reflink + 1) as u64,
                ..self
            },
            ForkCopyStrategy::Hardlink => ForkStrategyCounts {
                hardlink: (self.hardlink + 1) as u64,
                ..self
            },
            ForkCopyStrategy::DeepCopy => ForkStrategyCounts {
                deep_copy: (self.deep_copy + 1) as u64,
                ..self
            },
        }
    }
}

/// What is done with a file.
pub open spec fn action_for(strategy: ForkStrategy, options: ForkOptions) -> ForkAction {
    match strategy {
        ForkStrategy::ShareIfPossible => ForkAction::Copy(options.copy_preference),
        ForkStrategy::DeepCopyAlways => ForkAction::Copy(CopyPreference::DeepCopyOnly),
        ForkStrategy::CacheRegenerable => if options.exclude_caches {
            ForkAction::LeaveCache
        } else {
            ForkAction::Copy(CopyPreference::DeepCopyOnly)
        },
        ForkStrategy::Exclude => ForkAction::LeaveOut,
    }
}

/// What is done with a file.
pub fn fork_action(strategy: ForkStrategy, options: &ForkOptions) -> (r: ForkAction)
    ensures
        r == action_for(strategy, *options),
{
    match strategy {
        ForkStrategy::ShareIfPossible => ForkAction::Copy(options.copy_preference),
        ForkStrategy::DeepCopyAlways => ForkAction::Copy(CopyPreference::DeepCopyOnly),
        ForkStrategy::CacheRegenerable => if options.exclude_caches {
            ForkAction::LeaveCache
        } else {
            ForkAction::Copy(CopyPreference::DeepCopyOnly)
        },
        ForkStrategy::Exclude => ForkAction::LeaveOut,
    }
}

/// How a file was copied, for the report.
pub open spec fn reported(used: CowStrategyUsed) -> ForkCopyStrategy {
    match used {
        CowStrategyUsed::Reflink => ForkCopyStrategy::Reflink,
        CowStrategyUsed::Hardlink => ForkCopyStrategy::Hardlink,
        CowStrategyUsed::DeepCopy => ForkCopyStrategy::DeepCopy,
    }
}

/// How a file was copied, for the report.
pub fn fork_copy_strategy(used: CowStrategyUsed) -> (r: ForkCopyStrategy)
    ensures
        r == reported(used),
{
    match used {
        CowStrategyUsed::Reflink => ForkCopyStrategy::Reflink,
        CowStrategyUsed::Hardlink => ForkCopyStrategy::Hardlink,
        CowStrategyUsed::DeepCopy => ForkCopyStrategy::DeepCopy,
    }
}

/// Refuses to fork a store into its own directory.
pub fn refuse_own_directory(dest_canonical: &str, source_canonical: &str, dest: &str) -> (r: Result<
    (),
    StoreError,
>)
    ensures
        r is Err <==> dest_canonical@ == source_canonical@,
        r matches Err(e) ==> (e matches StoreError::Io { kind, message } && kind
            == IoErrorKind::InvalidInput && message@ == "fork destination "@ + dest@
            + " resolves to the source data directory"@),
{
    if !str_equal(dest_canonical, source_canonical) {
        return Ok(());
    }
    let mut message = "fork destination ".to_owned();
    message.append(dest);
    message.append(" resolves to the source data directory");
    Err(StoreError::Io { kind: IoErrorKind::InvalidInput, message })
}

/// One file of a store.
#[derive(Debug)]
pub struct ForkEntry {
    /// Its kind.
    pub source_kind: StoreFileKind,
    /// Its name.
    pub file_name: String,
    /// How its kind goes into a fork.
    pub strategy: ForkStrategy,
}

impl ForkEntry {
    /// The same entry.
    pub fn dup(&self) -> (r: ForkEntry)
        ensures
            r == *self,
    {
        ForkEntry {
            source_kind: self.source_kind,
            file_name: self.file_name.clone(),
            strategy: self.strategy,
        }
    }
}

/// The segment that a file's entry adds to the shared ones.
pub open spec fn shared_number(entry: &ForkEntry, used: Option<CowStrategyUsed>) -> Option<u64> {
    match used {
        Some(used) => if entry.strategy is ShareIfPossible && !(reported(used) is DeepCopy) {
            entry.source_kind.number()
        } else {
            None
        },
        None => None,
    }
}

/// The segment that a file's entry adds to those that were copied by bytes.
pub open spec fn copied_number(entry: &ForkEntry, used: Option<CowStrategyUsed>) -> Option<u64> {
    match used {
        Some(used) => if entry.strategy is DeepCopyAlways || (entry.strategy is ShareIfPossible
            && reported(used) is DeepCopy) {
            entry.source_kind.number()
        } else {
            None
        },
        None => None,
    }
}

/// A collection of numbers with one more, where there is one.
pub open spec fn with_number(
    ids: vstd::multiset::Multiset<u64>,
    number: Option<u64>,
) -> vstd::multiset::Multiset<u64> {
    match number {
        Some(id) => ids.insert(id),
        None => ids,
    }
}

/// The finding about a file.
pub open spec fn finding_is(
    finding: ForkFinding,
    entry: &ForkEntry,
    options: ForkOptions,
    used: Option<CowStrategyUsed>,
) -> bool {
    match (action_for(entry.strategy, options), used) {
        (ForkAction::Copy(_), Some(used)) => finding matches ForkFinding::FileCopied {
            file_name,
            strategy,
        } && file_name@ == entry.file_name@ && strategy == reported(used),
        (ForkAction::LeaveCache, _) => finding matches ForkFinding::CacheRegenerableExcluded {
            file_name,
        } && file_name@ == entry.file_name@,
        (ForkAction::LeaveOut, _) => finding matches ForkFinding::FileExcluded { file_name, reason }
            && file_name@ == entry.file_name@ && reason@
            == "not part of the share-safe fork substrate"@,
        _ => false,
    }
}

/// A fork under way.
#[derive(Debug)]
pub struct ForkAccumulator {
    /// Segments that are shared.
    pub shared_segment_ids_sorted: Vec<u64>,
    /// Segments that were copied by bytes.
    pub deep_copied_segment_ids_sorted: Vec<u64>,
    /// Whether the ranges of cancelled events were copied.
    pub copied_visibility_ranges_present: bool,
    /// Whether the marker of a compaction was copied.
    pub copied_pending_compaction_marker_present: bool,
    /// Whether the idempotency keys were copied.
    pub copied_idempotency_store_present: bool,
    /// How many files went which way.
    pub strategy_counts: ForkStrategyCounts,
    /// What is worth noting.
    pub findings: Vec<ForkFinding>,
}

impl ForkAccumulator {
    /// The segments are in order, and every file was counted and noted once.
    pub open spec fn wf(&self) -> bool {
        &&& super::file_kind::ascending(self.shared_segment_ids_sorted@)
        &&& super::file_kind::ascending(self.deep_copied_segment_ids_sorted@)
        &&& self.strategy_counts.total() <= self.findings@.len()
    }

    /// Number of findings that are about no file.
    pub open spec fn other_findings(&self) -> int {
        self.findings@.len() - self.strategy_counts.total()
    }

    /// Starts a fork after the destination was cleared.
    pub fn begin(cleared: usize) -> (r: ForkAccumulator)
        ensures
            r.wf(),
            r.shared_segment_ids_sorted@.len() == 0,
            r.deep_copied_segment_ids_sorted@.len() == 0,
            !r.copied_visibility_ranges_present,
            !r.copied_pending_compaction_marker_present,
            !r.copied_idempotency_store_present,
            r.strategy_counts.total() == 0,
            r.findings@ == (if cleared > 0 {
                seq![ForkFinding::DestinationCleared { artifact_count: cleared }]
            } else {
                Seq::empty()
            }),
    {
        let mut findings: Vec<ForkFinding> = Vec::new();
        if cleared > 0 {
            findings.push(ForkFinding::DestinationCleared { artifact_count: cleared });
        }
        ForkAccumulator {
            shared_segment_ids_sorted: Vec::new(),
            deep_copied_segment_ids_sorted: Vec::new(),
            copied_visibility_ranges_present: false,
            copied_pending_compaction_marker_present: false,
            copied_idempotency_store_present: false,
            strategy_counts: ForkStrategyCounts {
                reflink: 0,
                hardlink: 0,
                deep_copy: 0,
                cache_regenerable: 0,
                excluded: 0,
            },
            findings,
        }
    }

    /// Notes which of the files there is one of was copied by its bytes.
    pub fn record_deep_copied_presence(&mut self, source_kind: StoreFileKind)
        ensures
            final(self).copied_visibility_ranges_present == (old(
                self,
            ).copied_visibility_ranges_present || source_kind is VisibilityRanges),
            final(self).copied_pending_compaction_marker_present == (old(
                self,
            ).copied_pending_compaction_marker_present || source_kind is PendingCompactionMarker),
            final(self).copied_idempotency_store_present == (old(
                self,
            ).copied_idempotency_store_present || source_kind is IdempotencyStore),
            final(self).shared_segment_ids_sorted == old(self).shared_segment_ids_sorted,
            final(self).deep_copied_segment_ids_sorted == old(self).deep_copied_segment_ids_sorted,
            final(self).strategy_counts == old(self).strategy_counts,
            final(self).findings == old(self).findings,
    {
        match source_kind {
            StoreFileKind::VisibilityRanges => {
                self.copied_visibility_ranges_present = true;
            },
            StoreFileKind::PendingCompactionMarker => {
                self.copied_pending_compaction_marker_present = true;
            },
            StoreFileKind::IdempotencyStore => {
                self.copied_idempotency_store_present = true;
            },
            _ => {},
        }
    }

    fn count_copy(&mut self, strategy: ForkCopyStrategy)
        requires
            old(self).strategy_counts.total() < u64::MAX,
        ensures
            final(self).strategy_counts == old(self).strategy_counts.with_copy(strategy),
            final(self).shared_segment_ids_sorted == old(self).shared_segment_ids_sorted,
            final(self).deep_copied_segment_ids_sorted == old(self).deep_copied_segment_ids_sorted,
            final(self).copied_visibility_ranges_present == old(
                self,
            ).copied_visibility_ranges_present,
            final(self).copied_pending_compaction_marker_present == old(
                self,
            ).copied_pending_compaction_marker_present,
            final(self).copied_idempotency_store_present == old(
                self,
            ).copied_idempotency_store_present,
            final(self).findings == old(self).findings,
    {
        match strategy {
            ForkCopyStrategy::Reflink => {
                self.strategy_counts.reflink = self.strategy_counts.reflink + 1;
            },
            ForkCopyStrategy::Hardlink => {
                self.strategy_counts.hardlink = self.strategy_counts.hardlink + 1;
            },
            ForkCopyStrategy::DeepCopy => {
                self.strategy_counts.deep_copy = self.strategy_counts.deep_copy + 1;
            },
        }
    }

    /// Notes what became of a file, which was copied (`used`) or left out.
    pub fn fork_entry(
        &mut self,
        entry: ForkEntry,
        options: &ForkOptions,
        used: Option<CowStrategyUsed>,
    )
        requires
            old(self).wf(),
            old(self).findings@.len() < usize::MAX,
            used is Some <==> action_for(entry.strategy, *options) is Copy,
        ensures
            final(self).wf(),
            final(self).other_findings() == old(self).other_findings(),
            final(self).shared_segment_ids_sorted@.to_multiset() == with_number(
                old(self).shared_segment_ids_sorted@.to_multiset(),
                shared_number(&entry, used),
            ),
            final(self).deep_copied_segment_ids_sorted@.to_multiset() == with_number(
                old(self).deep_copied_segment_ids_sorted@.to_multiset(),
                copied_number(&entry, used),
            ),
            final(self).copied_visibility_ranges_present == (old(
                self,
            ).copied_visibility_ranges_present || (entry.strategy is DeepCopyAlways
                && entry.source_kind is VisibilityRanges)),
            final(self).copied_pending_compaction_marker_present == (old(
                self,
            ).copied_pending_compaction_marker_present || (entry.strategy is DeepCopyAlways
                && entry.source_kind is PendingCompactionMarker)),
            final(self).copied_idempotency_store_present == (old(
                self,
            ).copied_idempotency_store_present || (entry.strategy is DeepCopyAlways
                && entry.source_kind is IdempotencyStore)),
            final(self).strategy_counts == match (action_for(entry.strategy, *options), used) {
                (ForkAction::Copy(_), Some(used)) => old(self).strategy_counts.with_copy(
                    reported(used),
                ),
                (ForkAction::LeaveCache, _) => ForkStrategyCounts {
                    cache_regenerable: (old(self).strategy_counts.cache_regenerable + 1) as u64,
                    ..old(self).strategy_counts
                },
                _ => ForkStrategyCounts {
                    excluded: (old(self).strategy_counts.excluded + 1) as u64,
                    ..old(self).strategy_counts
                },
            },
            final(self).findings@.len() == old(self).findings@.len() + 1,
            final(self).findings@.drop_last() == old(self).findings@,
            finding_is(final(self).findings@.last(), &entry, *options, used),
    {
        let ghost before = self.findings@;
        match (fork_action(entry.strategy, options), used) {
            (ForkAction::Copy(_), Some(used)) => {
                let strategy = fork_copy_strategy(used);
                self.count_copy(strategy);
                match entry.strategy {
                    ForkStrategy::ShareIfPossible => {
                        if let Some(id) = entry.source_kind.segment_id() {
                            match strategy {
                                ForkCopyStrategy::Reflink | ForkCopyStrategy::Hardlink => {
                                    insert_ascending(&mut self.shared_segment_ids_sorted, id);
                                },
                                ForkCopyStrategy::DeepCopy => {
                                    insert_ascending(
                                        &mut self.deep_copied_segment_ids_sorted,
                                        id,
                                    );
                                },
                            }
                        }
                    },
                    ForkStrategy::DeepCopyAlways => {
                        if let Some(id) = entry.source_kind.segment_id() {
                            insert_ascending(&mut self.deep_copied_segment_ids_sorted, id);
                        }
                        self.record_deep_copied_presence(entry.source_kind);
                    },
                    _ => {},
                }
                self.findings.push(
                    ForkFinding::FileCopied { file_name: entry.file_name, strategy },
                );
            },
            (ForkAction::LeaveCache, _) => {
                self.strategy_counts.cache_regenerable = self.strategy_counts.cache_regenerable
                    + 1;
                self.findings.push(
                    ForkFinding::CacheRegenerableExcluded { file_name: entry.file_name },
                );
            },
            _ => {
                self.strategy_counts.excluded = self.strategy_counts.excluded + 1;
                self.findings.push(
                    ForkFinding::FileExcluded {
                        file_name: entry.file_name,
                        reason: "not part of the share-safe fork substrate".to_owned(),
                    },
                );
            },
        }
        assert(self.findings@.drop_last() =~= before);
    }

    /// Notes that the fence was cancelled, which ends the fork.
    pub fn finish(&mut self)
        requires
            old(self).wf(),
        ensures
            final(self).wf(),
            final(self).findings@ == old(self).findings@.push(ForkFinding::FenceTokenCancelled),
            final(self).shared_segment_ids_sorted == old(self).shared_segment_ids_sorted,
            final(self).deep_copied_segment_ids_sorted == old(self).deep_copied_segment_ids_sorted,
            final(self).copied_visibility_ranges_present == old(
                self,
            ).copied_visibility_ranges_present,
            final(self).copied_pending_compaction_marker_present == old(
                self,
            ).copied_pending_compaction_marker_present,
            final(self).copied_idempotency_store_present == old(
                self,
            ).copied_idempotency_store_present,
            final(self).strategy_counts == old(self).strategy_counts,
    {
        self.findings.push(ForkFinding::FenceTokenCancelled);
    }
}

/// A segment goes to the shared ones or to those that were copied by bytes,
/// never to both.
pub proof fn law_segment_goes_one_way(entry: &ForkEntry, used: Option<CowStrategyUsed>)
    ensures
        shared_number(entry, used) is None || copied_number(entry, used) is None,
{
}

/// A fork copies by bytes what is never shared, copies what may be shared as it
/// was asked to, leaves out what can be made again where it was asked to and
/// copies it by bytes where not, and leaves out the rest.
pub proof fn law_fork_copies_by_strategy(
    strategy: ForkStrategy,
    options: ForkOptions,
    r: ForkAction,
)
    requires
        call_ensures(fork_action, (strategy, &options), r),
    ensures
        r is LeaveOut <==> strategy is Exclude,
        r is LeaveCache <==> strategy is CacheRegenerable && options.exclude_caches,
        r is Copy <==> strategy is ShareIfPossible || strategy is DeepCopyAlways || (
        strategy is CacheRegenerable && !options.exclude_caches),
        r == ForkAction::Copy(CopyPreference::ShareIfPossible) <==> strategy is ShareIfPossible
            && options.copy_preference is ShareIfPossible,
{
}

/// The report tells how a file was copied.
pub proof fn law_report_tells_how_a_file_was_copied(used: CowStrategyUsed, r: ForkCopyStrategy)
    requires
        call_ensures(fork_copy_strategy, (used,), r),
    ensures
        r is Reflink <==> used is Reflink,
        r is Hardlink <==> used is Hardlink,
        r is DeepCopy <==> used is DeepCopy,
{
}

} // verus!
