//! Snapshots: which files of a store are copied, and what the report says.

use super::file_kind::{insert_ascending, StoreFileKind};
use vstd::prelude::*;

verus! {

/// The kinds of files that a snapshot holds.
#[derive(Clone, Copy, Debug, PartialEq, Eq, Structural)]
pub enum SnapshotFileKind {
    /// A segment.
    Segment,
    /// The ranges of cancelled events.
    VisibilityRanges,
    /// The idempotency keys.
    IdempotencyStore,
    /// The marker of a compaction under way.
    PendingCompactionMarker,
}

/// What is worth noting of a snapshot.
#[derive(Debug, PartialEq, Eq)]
pub enum SnapshotFinding {
    /// The destination held files that were removed.
    DestinationCleared {
        /// How many.
        artifact_count: usize,
    },
    /// The fence that held writers back was cancelled.
    FenceTokenCancelled,
    /// The files were not hashed.
    CopyByteHashUnavailable {
        /// Why not.
        reason: String,
        /// Which files.
        file_kind: SnapshotFileKind,
    },
}

/// What a snapshot holds of a file: nothing of what can be made again.
pub open spec fn snapshot_kind(kind: StoreFileKind) -> Option<SnapshotFileKind> {
    match kind {
        StoreFileKind::Segment(_) => Some(SnapshotFileKind::Segment),
        StoreFileKind::VisibilityRanges => Some(SnapshotFileKind::VisibilityRanges),
        StoreFileKind::IdempotencyStore => Some(SnapshotFileKind::IdempotencyStore),
        StoreFileKind::PendingCompactionMarker => Some(SnapshotFileKind::PendingCompactionMarker),
        _ => None,
    }
}

/// What a snapshot holds of a file.
pub fn snapshot_source_file_kind(kind: StoreFileKind) -> (r: Option<SnapshotFileKind>)
    ensures
        r == snapshot_kind(kind),
        r is Some <==> kind is Segment || kind is VisibilityRanges || kind is IdempotencyStore
            || kind is PendingCompactionMarker,
{
    match kind {
        StoreFileKind::Segment(_) => Some(SnapshotFileKind::Segment),
        StoreFileKind::VisibilityRanges => Some(SnapshotFileKind::VisibilityRanges),
        StoreFileKind::IdempotencyStore => Some(SnapshotFileKind::IdempotencyStore),
        StoreFileKind::PendingCompactionMarker => Some(SnapshotFileKind::PendingCompactionMarker),
        StoreFileKind::MalformedSegment | StoreFileKind::Checkpoint | StoreFileKind::MmapIndex
        | StoreFileKind::CompactSource | StoreFileKind::CursorDirectory
        | StoreFileKind::Other => None,
    }
}

/// A snapshot holds the segments, the ranges of cancelled events, the idempotency
/// keys and the marker of a compaction under way, each as what it is, and no
/// other file.
pub proof fn law_snapshot_holds_what_cannot_be_made_again(
    kind: StoreFileKind,
    r: Option<SnapshotFileKind>,
)
    requires
        call_ensures(snapshot_source_file_kind, (kind,), r),
    ensures
        r == Some(SnapshotFileKind::Segment) <==> kind is Segment,
        r == Some(SnapshotFileKind::VisibilityRanges) <==> kind is VisibilityRanges,
        r == Some(SnapshotFileKind::IdempotencyStore) <==> kind is IdempotencyStore,
        r == Some(SnapshotFileKind::PendingCompactionMarker) <==> kind is PendingCompactionMarker,
        r is None <==> !(kind is Segment) && !(kind is VisibilityRanges) && !(
        kind is IdempotencyStore) && !(kind is PendingCompactionMarker),
{
}

/// The numbers of the segments among files.
pub open spec fn numbers(kinds: Seq<StoreFileKind>) -> Seq<u64>
    decreases kinds.len(),
{
    if kinds.len() == 0 {
        Seq::empty()
    } else {
        match kinds.last().number() {
            Some(id) => numbers(kinds.drop_last()).push(id),
            None => numbers(kinds.drop_last()),
        }
    }
}

/// What a snapshot's report says.
#[derive(Debug)]
pub struct SnapshotReportInput {
    /// Token of the fence that held writers back.
    pub fence_token: u64,
    /// Segment up to which the store was written.
    pub source_watermark_segment_id: u64,
    /// Where in that segment.
    pub source_watermark_offset: u64,
    /// The segments that were copied.
    pub copied_segment_ids_sorted: Vec<u64>,
    /// Whether the ranges of cancelled events were copied.
    pub copied_visibility_ranges_present: bool,
    /// Whether the marker of a compaction was copied.
    pub copied_pending_compaction_marker_present: bool,
    /// Whether the idempotency keys were copied.
    pub copied_idempotency_store_present: bool,
    /// What is worth noting.
    pub findings: Vec<SnapshotFinding>,
}

/// A snapshot under way.
pub struct SnapshotRun {
    segment_ids: Vec<u64>,
    visibility_ranges: bool,
    pending_compaction_marker: bool,
    idempotency_store: bool,
    cleared: usize,
    copied: Ghost<Seq<StoreFileKind>>,
}

impl SnapshotRun {
    /// The files that were copied.
    pub closed spec fn copied(&self) -> Seq<StoreFileKind> {
        self.copied@
    }

    /// Number of files that were removed from the destination.
    pub closed spec fn cleared(&self) -> usize {
        self.cleared
    }

    /// What is noted is what was copied.
    pub closed spec fn wf(&self) -> bool {
        &&& super::file_kind::ascending(self.segment_ids@)
        &&& self.segment_ids@.to_multiset() == numbers(self.copied@).to_multiset()
        &&& self.visibility_ranges == self.copied@.contains(StoreFileKind::VisibilityRanges)
        &&& self.pending_compaction_marker == self.copied@.contains(
            StoreFileKind::PendingCompactionMarker,
        )
        &&& self.idempotency_store == self.copied@.contains(StoreFileKind::IdempotencyStore)
    }

    /// Starts a snapshot after the destination was cleared.
    pub fn begin(cleared: usize) -> (r: SnapshotRun)
        ensures
            r.wf(),
            r.copied() == Seq::<StoreFileKind>::empty(),
            r.cleared() == cleared,
    {
        SnapshotRun {
            segment_ids: Vec::new(),
            visibility_ranges: false,
            pending_compaction_marker: false,
            idempotency_store: false,
            cleared,
            copied: Ghost(Seq::empty()),
        }
    }

    /// Notes that a file was copied.
    pub fn record(&mut self, kind: StoreFileKind)
        requires
            old(self).wf(),
            snapshot_kind(kind) is Some,
        ensures
            final(self).wf(),
            final(self).copied() == old(self).copied().push(kind),
            final(self).cleared() == old(self).cleared(),
    {
        let ghost before = self.copied@;
        let ghost after = before.push(kind);
        proof {
            assert(after.drop_last() =~= before);
            lemma_contains_push(before, kind, StoreFileKind::VisibilityRanges);
            lemma_contains_push(before, kind, StoreFileKind::PendingCompactionMarker);
            lemma_contains_push(before, kind, StoreFileKind::IdempotencyStore);
            if let Some(id) = kind.number() {
                numbers(before).to_multiset_ensures();
                vstd::seq_lib::to_multiset_build(numbers(before), id);
            }
        }
        match kind {
            StoreFileKind::Segment(id) => insert_ascending(&mut self.segment_ids, id),
            StoreFileKind::VisibilityRanges => {
                self.visibility_ranges = true;
            },
            StoreFileKind::PendingCompactionMarker => {
                self.pending_compaction_marker = true;
            },
            StoreFileKind::IdempotencyStore => {
                self.idempotency_store = true;
            },
            _ => {},
        }
        self.copied = Ghost(after);
    }

    /// What the report says, once the fence was cancelled.
    pub fn finish(
        self,
        fence_token: u64,
        source_watermark_segment_id: u64,
        source_watermark_offset: u64,
    ) -> (r: SnapshotReportInput)
        requires
            self.wf(),
        ensures
            r.fence_token == fence_token,
            r.source_watermark_segment_id == source_watermark_segment_id,
            r.source_watermark_offset == source_watermark_offset,
            super::file_kind::ascending(r.copied_segment_ids_sorted@),
            r.copied_segment_ids_sorted@.to_multiset() == numbers(self.copied()).to_multiset(),
            r.copied_visibility_ranges_present == self.copied().contains(
                StoreFileKind::VisibilityRanges,
            ),
            r.copied_pending_compaction_marker_present == self.copied().contains(
                StoreFileKind::PendingCompactionMarker,
            ),
            r.copied_idempotency_store_present == self.copied().contains(
                StoreFileKind::IdempotencyStore,
            ),
            ({
                let first: int = if self.cleared() > 0 {
                    1
                } else {
                    0
                };
                &&& r.findings@.len() == first + 2
                &&& self.cleared() > 0 ==> r.findings@[0] == (SnapshotFinding::DestinationCleared {
                    artifact_count: self.cleared(),
                })
                &&& r.findings@[first] is FenceTokenCancelled
                &&& r.findings@[first + 1] matches SnapshotFinding::CopyByteHashUnavailable {
                    reason,
                    file_kind,
                } && file_kind is Segment && reason@
                    == "snapshot v1 records structural file identity; per-file byte hash table is out of scope"@
            }),
    {
        let mut findings: Vec<SnapshotFinding> = Vec::new();
        if self.cleared > 0 {
            findings.push(SnapshotFinding::DestinationCleared { artifact_count: self.cleared });
        }
        findings.push(SnapshotFinding::FenceTokenCancelled);
        findings.push(
            SnapshotFinding::CopyByteHashUnavailable {
                reason:
                    "snapshot v1 records structural file identity; per-file byte hash table is out of scope".to_owned(),
                file_kind: SnapshotFileKind::Segment,
            },
        );
        SnapshotReportInput {
            fence_token,
            source_watermark_segment_id,
            source_watermark_offset,
            copied_segment_ids_sorted: self.segment_ids,
            copied_visibility_ranges_present: self.visibility_ranges,
            copied_pending_compaction_marker_present: self.pending_compaction_marker,
            copied_idempotency_store_present: self.idempotency_store,
            findings,
        }
    }
}

/// Each segment among files is listed as often as it is there.
pub proof fn law_every_segment_is_listed(kinds: Seq<StoreFileKind>, id: u64)
    ensures
        numbers(kinds).to_multiset().count(id) == kinds.filter(
            |kind: StoreFileKind| kind == StoreFileKind::Segment(id),
        ).len(),
        numbers(kinds).to_multiset().contains(id) <==> kinds.contains(StoreFileKind::Segment(id)),
    decreases kinds.len(),
{
    reveal(Seq::filter);
    numbers(kinds).to_multiset_ensures();
    if kinds.len() > 0 {
        let front = kinds.drop_last();
        law_every_segment_is_listed(front, id);
        assert(front.push(kinds.last()) =~= kinds);
        lemma_contains_push(front, kinds.last(), StoreFileKind::Segment(id));
        if let Some(last) = kinds.last().number() {
            vstd::seq_lib::to_multiset_build(numbers(front), last);
        }
    }
}

/// One more file.
proof fn lemma_contains_push(kinds: Seq<StoreFileKind>, kind: StoreFileKind, x: StoreFileKind)
    ensures
        kinds.push(kind).contains(x) == (kinds.contains(x) || kind == x),
{
    let after = kinds.push(kind);
    assert(after[kinds.len() as int] == kind);
    if kinds.contains(x) {
        let i = choose|i: int| 0 <= i < kinds.len() && kinds[i] == x;
        assert(after[i] == x);
    }
    if after.contains(x) {
        let i = choose|i: int| 0 <= i < after.len() && after[i] == x;
        if i < kinds.len() {
            assert(kinds[i] == x);
        }
    }
}

} // verus!
