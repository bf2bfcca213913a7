//! The kinds of files in a store's directory, and what copies do with them.

use vstd::prelude::*;

verus! {

/// The kind of a file in a store's directory.
#[derive(Clone, Copy, Debug, PartialEq, Eq, Structural)]
pub enum StoreFileKind {
    /// A segment, with its number.
    Segment(u64),
    /// A file that is named like a segment but carries no number.
    MalformedSegment,
    /// The ranges of cancelled events.
    VisibilityRanges,
    /// A checkpoint of the index.
    Checkpoint,
    /// A mapped index.
    MmapIndex,
    /// The idempotency keys.
    IdempotencyStore,
    /// The marker of a compaction under way.
    PendingCompactionMarker,
    /// A segment that was moved aside for compaction.
    CompactSource,
    /// The directory of cursors.
    CursorDirectory,
    /// Anything else.
    Other,
}

impl StoreFileKind {
    /// The number of a segment.
    pub open spec fn number(self) -> Option<u64> {
        match self {
            StoreFileKind::Segment(id) => Some(id),
            _ => None,
        }
    }

    /// The number of a segment.
    pub fn segment_id(self) -> (r: Option<u64>)
        ensures
            r == self.number(),
    {
        match self {
            StoreFileKind::Segment(id) => Some(id),
            _ => None,
        }
    }
}

/// What clearing a destination does with a file.
#[derive(Clone, Copy, Debug, PartialEq, Eq, Structural)]
pub enum ClearAction {
    /// It stays.
    Keep,
    /// It is removed.
    RemoveFile,
    /// It is removed with all that is in it.
    RemoveDir,
}

/// What clearing a fork's destination does with a file that is or is not in
/// the way.
pub fn fork_clear_action(in_the_way: bool, is_dir: bool) -> (r: ClearAction)
    ensures
        r == (if !in_the_way {
            ClearAction::Keep
        } else if is_dir {
            ClearAction::RemoveDir
        } else {
            ClearAction::RemoveFile
        }),
{
    if !in_the_way {
        ClearAction::Keep
    } else if is_dir {
        ClearAction::RemoveDir
    } else {
        ClearAction::RemoveFile
    }
}

/// What clearing a snapshot's destination does with a file: the directory of
/// cursors goes even where it is not in the way.
pub fn snapshot_clear_action(kind: StoreFileKind, in_the_way: bool, is_dir: bool) -> (r:
    ClearAction)
    ensures
        r == (if in_the_way {
            ClearAction::RemoveFile
        } else if is_dir && kind is CursorDirectory {
            ClearAction::RemoveDir
        } else {
            ClearAction::Keep
        }),
{
    if in_the_way {
        ClearAction::RemoveFile
    } else if is_dir && kind == StoreFileKind::CursorDirectory {
        ClearAction::RemoveDir
    } else {
        ClearAction::Keep
    }
}

/// Numbers in ascending order.
pub open spec fn ascending(ids: Seq<u64>) -> bool {
    forall|i: int, j: int|
        #![trigger ids[i], ids[j]]
        0 <= i < j < ids.len() ==> ids[i] <= ids[j]
}

/// Puts a number among ascending ones.
pub fn insert_ascending(ids: &mut Vec<u64>, id: u64)
    requires
        ascending(old(ids)@),
    ensures
        ascending(final(ids)@),
        final(ids)@.to_multiset() == old(ids)@.to_multiset().insert(id),
{
    let ghost before = ids@;
    let mut at: usize = ids.len();
    while at > 0 && ids[at - 1] > id
        invariant
            ids@ == before,
            at <= before.len(),
            forall|k: int| at <= k < before.len() ==> #[trigger] before[k] > id,
        decreases at,
    {
        at = at - 1;
    }
    ids.insert(at, id);
    proof {
        let after = ids@;
        assert(after == before.insert(at as int, id));
        vstd::seq_lib::to_multiset_insert(before, at as int, id);
        assert forall|i: int, j: int|
            #![trigger after[i], after[j]]
            0 <= i < j < after.len() implies after[i] <= after[j] by {
            if j < at {
                assert(before[i] <= before[j]);
            } else if i > at {
                assert(before[i - 1] <= before[j - 1]);
            } else if i < at && j > at {
                assert(before[i] <= before[j - 1]);
            } else if i == at {
                assert(before[j - 1] > id);
            } else if i < at - 1 {
                assert(before[i] <= before[at - 1]);
            }
        }
    }
}

/// A file that is not in the way stays, but for the directory of cursors under a
/// snapshot; what is in the way goes. A fork removes a directory that is in the way whole.
pub proof fn law_what_is_in_the_way_goes(
    kind: StoreFileKind,
    in_the_way: bool,
    is_dir: bool,
    of_fork: ClearAction,
    of_snapshot: ClearAction,
)
    requires
        call_ensures(fork_clear_action, (in_the_way, is_dir), of_fork),
        call_ensures(snapshot_clear_action, (kind, in_the_way, is_dir), of_snapshot),
    ensures
        of_fork is Keep <==> !in_the_way,
        of_fork is RemoveDir <==> in_the_way && is_dir,
        of_fork is RemoveFile <==> in_the_way && !is_dir,
        of_snapshot is RemoveFile <==> in_the_way,
        of_snapshot is RemoveDir <==> !in_the_way && is_dir && kind is CursorDirectory,
        of_snapshot is Keep <==> !in_the_way && !(is_dir && kind is CursorDirectory),
{
}

/// A file has a number exactly where it is a segment, and then its own.
pub proof fn law_only_segments_have_numbers(kind: StoreFileKind, r: Option<u64>)
    requires
        call_ensures(StoreFileKind::segment_id, (kind,), r),
    ensures
        r is Some <==> kind is Segment,
        r matches Some(id) ==> kind == StoreFileKind::Segment(id),
{
}

} // verus!
