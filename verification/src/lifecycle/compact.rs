//! Compaction: which segments are merged, what is left of their events, how the
//! files move, and how a failure puts them back.

use super::file_kind::StoreFileKind;
use crate::coordinate::{Coordinate, CoordinateError};
use crate::error::StoreError;
use crate::event::EventKind;
use crate::index::idemp::{EvictionReport, IdempotencyStore};
use crate::index::store::StoreIndex;
use crate::sort::{stable_sort, Ranked};
use crate::text::push_decimal;
use vstd::prelude::*;

verus! {

/// A segment in a store's directory.
#[derive(Debug)]
pub struct SegmentFile {
    /// Its number.
    pub id: u64,
    /// Where it is.
    pub path: String,
}

impl Ranked for SegmentFile {
    open spec fn rank_le(a: SegmentFile, b: SegmentFile) -> bool {
        a.id <= b.id
    }

    proof fn rank_total(a: SegmentFile, b: SegmentFile) {
    }

    proof fn rank_transitive(a: SegmentFile, b: SegmentFile, c: SegmentFile) {
    }

    fn ranks_no_later(&self, other: &SegmentFile) -> (r: bool) {
        self.id <= other.id
    }

    fn dup(&self) -> (r: SegmentFile) {
        SegmentFile { id: self.id, path: self.path.clone() }
    }
}

/// The segments among files, in the order of the files.
pub open spec fn segments_of(files: Seq<(StoreFileKind, String)>) -> Seq<SegmentFile>
    decreases files.len(),
{
    if files.len() == 0 {
        Seq::empty()
    } else {
        match files.last().0.number() {
            Some(id) => segments_of(files.drop_last()).push(
                SegmentFile { id, path: files.last().1 },
            ),
            None => segments_of(files.drop_last()),
        }
    }
}

/// The segments among the files of a directory. Files that are named like a
/// segment but carry no number are passed over, and so is everything else.
pub fn list_segments(files: Vec<(StoreFileKind, String)>) -> (segments: Vec<SegmentFile>)
    ensures
        segments@ == segments_of(files@),
{
    let ghost all = files@;
    let mut segments: Vec<SegmentFile> = Vec::new();
    assert(all.take(0) =~= Seq::empty());
    for file in it: files.into_iter()
        invariant
            it.seq() == all,
            segments@ == segments_of(all.take(it.index() as int)),
    {
        let ghost at = it.index() as int;
        assert(file == all[at]);
        assert(all.take(at + 1).drop_last() =~= all.take(at));
        let (kind, path) = file;
        if let Some(id) = kind.segment_id() {
            segments.push(SegmentFile { id, path });
        }
    }
    assert(all.take(all.len() as int) =~= all);
    segments
}

/// The number of the active segment: the largest, or zero where there is none.
pub open spec fn active_of(segments: Seq<SegmentFile>) -> u64 {
    let sorted = crate::sort::sorted_by_rank(segments);
    if sorted.len() == 0 {
        0
    } else {
        sorted.last().id
    }
}

/// The segments that are sealed: those before the active one, in order.
pub open spec fn sealed_segments(segments: Seq<SegmentFile>) -> Seq<SegmentFile> {
    crate::sort::sorted_by_rank(segments).filter(
        |segment: SegmentFile| segment.id < active_of(segments),
    )
}

/// What a compaction does.
#[derive(Debug)]
pub struct CompactionPlan {
    /// The segment that is being written, which is left alone.
    pub active_segment_id: u64,
    /// The sealed segments, in order.
    pub sealed: Vec<SegmentFile>,
    /// The number of the merged segment, where there are enough to merge.
    pub merged_id: Option<u64>,
}

/// Plans a compaction: all sealed segments are merged into one that takes the
/// number of the first, where there are enough of them.
pub fn plan_compaction(segments: Vec<SegmentFile>, min_segments: usize) -> (plan: CompactionPlan)
    requires
        min_segments > 0 || sealed_segments(segments@).len() > 0,
    ensures
        plan.active_segment_id == active_of(segments@),
        plan.sealed@ == sealed_segments(segments@),
        plan.merged_id == (if plan.sealed@.len() < min_segments {
            None
        } else {
            Some(plan.sealed@[0].id)
        }),
{
    let sorted = stable_sort(&segments);
    let active_segment_id: u64 = if sorted.len() == 0 {
        0
    } else {
        sorted[sorted.len() - 1].id
    };
    let ghost is_sealed = |segment: SegmentFile| segment.id < active_of(segments@);
    let mut sealed: Vec<SegmentFile> = Vec::new();
    reveal(Seq::filter);
    let mut i: usize = 0;
    while i < sorted.len()
        invariant
            i <= sorted@.len(),
            active_segment_id == active_of(segments@),
            is_sealed == |segment: SegmentFile| segment.id < active_of(segments@),
            sealed@ == sorted@.take(i as int).filter(is_sealed),
        decreases sorted@.len() - i,
    {
        reveal(Seq::filter);
        assert(sorted@.take(i + 1).drop_last() =~= sorted@.take(i as int));
        if sorted[i].id < active_segment_id {
            sealed.push(sorted[i].dup());
        }
        i += 1;
    }
    assert(sorted@.take(sorted@.len() as int) =~= sorted@);
    let merged_id = if sealed.len() < min_segments {
        None
    } else {
        Some(sealed[0].id)
    };
    CompactionPlan { active_segment_id, sealed, merged_id }
}

/// What the marker of a compaction under way says.
#[derive(Debug, PartialEq, Eq)]
pub struct PendingCompaction {
    /// The number of the merged segment.
    pub merged_id: u64,
    /// The numbers of the segments that are merged.
    pub source_segment_ids: Vec<u64>,
}

/// What the marker says, where there are enough segments to merge.
pub fn pending_compaction(plan: &CompactionPlan) -> (r: Option<PendingCompaction>)
    ensures
        r is Some <==> plan.merged_id is Some,
        r matches Some(pending) ==> Some(pending.merged_id) == plan.merged_id
            && pending.source_segment_ids@ == plan.sealed@.map_values(|s: SegmentFile| s.id),
{
    let merged_id: u64 = match plan.merged_id {
        Some(merged_id) => merged_id,
        None => return None,
    };
    let mut source_segment_ids: Vec<u64> = Vec::new();
    let mut i: usize = 0;
    while i < plan.sealed.len()
        invariant
            i <= plan.sealed@.len(),
            source_segment_ids@ == plan.sealed@.take(i as int).map_values(|s: SegmentFile| s.id),
        decreases plan.sealed@.len() - i,
    {
        source_segment_ids.push(plan.sealed[i].id);
        i += 1;
        assert(source_segment_ids@ =~= plan.sealed@.take(i as int).map_values(
            |s: SegmentFile| s.id,
        ));
    }
    assert(plan.sealed@.take(plan.sealed@.len() as int) =~= plan.sealed@);
    Some(PendingCompaction { merged_id, source_segment_ids })
}

/// The active segment is never among those that are merged, and the merged
/// segment takes the smallest number of them.
pub proof fn law_active_segment_is_left_alone(segments: Seq<SegmentFile>, i: int)
    requires
        0 <= i < sealed_segments(segments).len(),
    ensures
        sealed_segments(segments)[i].id < active_of(segments),
        sealed_segments(segments)[0].id <= sealed_segments(segments)[i].id,
{
    let sorted = crate::sort::sorted_by_rank(segments);
    let is_sealed = |segment: SegmentFile| segment.id < active_of(segments);
    crate::sort::law_stable_sort_exists(segments);
    sorted.lemma_filter_pred(is_sealed, i);
    lemma_filter_ranked(sorted, is_sealed);
}

/// Dropping values keeps the rest in rank order.
proof fn lemma_filter_ranked(s: Seq<SegmentFile>, keep: spec_fn(SegmentFile) -> bool)
    requires
        crate::sort::ranked(s),
    ensures
        crate::sort::ranked(s.filter(keep)),
    decreases s.len(),
{
    reveal(Seq::filter);
    if s.len() > 0 {
        let front = s.drop_last();
        assert forall|i: int, j: int| 0 <= i <= j < front.len() implies SegmentFile::rank_le(
            #[trigger] front[i],
            #[trigger] front[j],
        ) by {
            assert(SegmentFile::rank_le(s[i], s[j]));
        }
        lemma_filter_ranked(front, keep);
        let kept = front.filter(keep);
        if keep(s.last()) {
            let more = kept.push(s.last());
            assert forall|i: int, j: int| 0 <= i <= j < more.len() implies SegmentFile::rank_le(
                #[trigger] more[i],
                #[trigger] more[j],
            ) by {
                if j < kept.len() {
                    assert(SegmentFile::rank_le(kept[i], kept[j]));
                } else if i < kept.len() {
                    front.filter_lemma(keep);
                    assert(kept.contains(kept[i]));
                    lemma_kept_is_there(front, keep, i);
                    let k = choose|k: int| 0 <= k < front.len() && front[k] == kept[i];
                    assert(SegmentFile::rank_le(s[k], s[s.len() - 1]));
                }
            }
        }
    }
}

/// What is kept was there.
proof fn lemma_kept_is_there(s: Seq<SegmentFile>, keep: spec_fn(SegmentFile) -> bool, i: int)
    requires
        0 <= i < s.filter(keep).len(),
    ensures
        exists|k: int| 0 <= k < s.len() && s[k] == s.filter(keep)[i],
    decreases s.len(),
{
    reveal(Seq::filter);
    if s.len() > 0 {
        let front = s.drop_last();
        if i < front.filter(keep).len() {
            lemma_kept_is_there(front, keep, i);
            let k = choose|k: int| 0 <= k < front.len() && front[k] == front.filter(keep)[i];
            assert(s[k] == s.filter(keep)[i]);
        } else {
            assert(s[s.len() - 1] == s.filter(keep)[i]);
        }
    }
}

/// A number in decimal digits, with zeros in front up to a width.
pub open spec fn padded(n: nat, width: nat) -> Seq<char> {
    let digits = crate::text::decimal_text(n);
    if digits.len() >= width {
        digits
    } else {
        Seq::new((width - digits.len()) as nat, |i: int| '0') + digits
    }
}

/// The name under which the first segment is moved aside while its number is
/// taken by the merged one.
pub fn compact_source_name(merged_id: u64, extension: &str) -> (name: String)
    ensures
        name@ == padded(merged_id as nat, 6) + "."@ + extension@ + ".compact-src"@,
{
    let mut digits = "".to_owned();
    push_decimal(&mut digits, merged_id);
    let mut name = "".to_owned();
    proof {
        reveal_strlit("");
        reveal_strlit("0");
        assert(digits@ =~= crate::text::decimal_text(merged_id as nat));
    }
    let length: usize = digits.as_str().unicode_len();
    if length < 6 {
        let zeros: usize = 6 - length;
        let mut i: usize = 0;
        while i < zeros
            invariant
                i <= zeros,
                name@ == Seq::new(i as nat, |k: int| '0'),
                "0"@ == seq!['0'],
            decreases zeros - i,
        {
            name.append("0");
            i += 1;
            assert(name@ =~= Seq::new(i as nat, |k: int| '0'));
        }
    }
    name.append(digits.as_str());
    assert(name@ =~= padded(merged_id as nat, 6));
    name.append(".");
    name.append(extension);
    name.append(".compact-src");
    name
}

/// A change to the files of a store's directory.
#[derive(Debug, PartialEq, Eq)]
pub enum DiskStep {
    /// Removes a file. It fails where there is none.
    Remove(String),
    /// Removes a file, if it is there.
    RemoveIfPresent(String),
    /// Moves a file, over one that may be there.
    Rename {
        /// From here.
        from: String,
        /// To here.
        to: String,
    },
    /// Writes the merged segment.
    WriteMerged(String),
}

impl DiskStep {
    /// The same step.
    pub fn dup(&self) -> (r: DiskStep)
        ensures
            r == *self,
    {
        match self {
            DiskStep::Remove(path) => DiskStep::Remove(path.clone()),
            DiskStep::RemoveIfPresent(path) => DiskStep::RemoveIfPresent(path.clone()),
            DiskStep::Rename { from, to } => DiskStep::Rename {
                from: from.clone(),
                to: to.clone(),
            },
            DiskStep::WriteMerged(path) => DiskStep::WriteMerged(path.clone()),
        }
    }
}

/// The files of a directory: what is under each name.
pub type Disk = Map<Seq<char>, Seq<u8>>;

/// The files after a step. `merged` is what the merged segment holds.
pub open spec fn after_step(disk: Disk, step: DiskStep, merged: Seq<u8>) -> Disk {
    match step {
        DiskStep::Remove(path) => disk.remove(path@),
        DiskStep::RemoveIfPresent(path) => disk.remove(path@),
        DiskStep::Rename { from, to } => if disk.contains_key(from@) {
            disk.remove(from@).insert(to@, disk[from@])
        } else {
            disk
        },
        DiskStep::WriteMerged(path) => disk.insert(path@, merged),
    }
}

/// The files after some steps.
pub open spec fn after_steps(disk: Disk, steps: Seq<DiskStep>, merged: Seq<u8>) -> Disk
    decreases steps.len(),
{
    if steps.len() == 0 {
        disk
    } else {
        after_step(after_steps(disk, steps.drop_last(), merged), steps.last(), merged)
    }
}

/// Moves the first segment aside.
pub open spec fn is_relocation(
    steps: Seq<DiskStep>,
    source: Seq<char>,
    aside: Seq<char>,
) -> bool {
    &&& steps.len() == 2
    &&& steps[0] matches DiskStep::RemoveIfPresent(path) && path@ == aside
    &&& steps[1] matches DiskStep::Rename { from, to } && from@ == source && to@ == aside
}

/// Writes the merged segment.
pub open spec fn is_merge(steps: Seq<DiskStep>, merged_path: Seq<char>) -> bool {
    &&& steps.len() == 2
    &&& steps[0] matches DiskStep::RemoveIfPresent(path) && path@ == merged_path
    &&& steps[1] matches DiskStep::WriteMerged(path) && path@ == merged_path
}

/// Moves the segment that has the merged segment's number aside, and notes its
/// new place.
pub fn relocate_merged_source(sealed: &mut Vec<SegmentFile>, merged_id: u64, aside: String) -> (r:
    Option<Vec<DiskStep>>)
    ensures
        final(sealed)@.len() == old(sealed)@.len(),
        match r {
            Some(steps) => exists|i: int|
                0 <= i < old(sealed)@.len() && (#[trigger] old(sealed)@[i]).id == merged_id && (
                forall|k: int|
                    #![trigger old(sealed)@[k]]
                    0 <= k < i ==> old(sealed)@[k].id != merged_id) && is_relocation(
                    steps@,
                    old(sealed)@[i].path@,
                    aside@,
                ) && final(sealed)@ == old(sealed)@.update(
                    i,
                    SegmentFile { id: merged_id, path: aside },
                ),
            None => final(sealed)@ == old(sealed)@ && forall|k: int|
                #![trigger old(sealed)@[k]]
                0 <= k < old(sealed)@.len() ==> old(sealed)@[k].id != merged_id,
        },
{
    let mut i: usize = 0;
    while i < sealed.len()
        invariant
            sealed@ == old(sealed)@,
            i <= sealed@.len(),
            forall|k: int| #![trigger old(sealed)@[k]] 0 <= k < i ==> old(sealed)@[k].id != merged_id,
        decreases sealed@.len() - i,
    {
        if sealed[i].id == merged_id {
            let mut steps: Vec<DiskStep> = Vec::new();
            steps.push(DiskStep::RemoveIfPresent(aside.clone()));
            steps.push(
                DiskStep::Rename { from: sealed[i].path.clone(), to: aside.clone() },
            );
            assert(old(sealed)@[i as int].id == merged_id);
            sealed.set(i, SegmentFile { id: merged_id, path: aside });
            return Some(steps);
        }
        i += 1;
    }
    None
}

/// Writes the merged segment, in place of what is there.
pub fn merge_steps(merged_path: &str) -> (steps: Vec<DiskStep>)
    ensures
        is_merge(steps@, merged_path@),
{
    let mut steps: Vec<DiskStep> = Vec::new();
    steps.push(DiskStep::RemoveIfPresent(merged_path.to_owned()));
    steps.push(DiskStep::WriteMerged(merged_path.to_owned()));
    steps
}

/// Puts the files back: the merged segment goes, and the segment that was moved
/// aside comes back. Where nothing was moved, the first segment is still in the
/// place of the merged one, and no file is touched.
pub open spec fn is_rollback(
    steps: Seq<DiskStep>,
    merged_path: Seq<char>,
    aside: Option<Seq<char>>,
) -> bool {
    match aside {
        Some(aside) => {
            &&& steps.len() == 2
            &&& steps[0] matches DiskStep::RemoveIfPresent(path) && path@ == merged_path
            &&& steps[1] matches DiskStep::Rename { from, to } && from@ == aside && to@
                == merged_path
        },
        None => steps.len() == 0,
    }
}

/// Puts the files back after a failure.
pub fn rollback_steps(merged_path: &str, aside: Option<&str>) -> (steps: Vec<DiskStep>)
    ensures
        is_rollback(
            steps@,
            merged_path@,
            match aside {
                Some(aside) => Some(aside@),
                None => None,
            },
        ),
{
    let mut steps: Vec<DiskStep> = Vec::new();
    if let Some(aside) = aside {
        steps.push(DiskStep::RemoveIfPresent(merged_path.to_owned()));
        steps.push(DiskStep::Rename { from: aside.to_owned(), to: merged_path.to_owned() });
    }
    steps
}

/// Steps one after the other.
pub proof fn lemma_steps_add(disk: Disk, a: Seq<DiskStep>, b: Seq<DiskStep>, merged: Seq<u8>)
    ensures
        after_steps(disk, a + b, merged) == after_steps(after_steps(disk, a, merged), b, merged),
    decreases b.len(),
{
    if b.len() == 0 {
        assert(a + b =~= a);
    } else {
        lemma_steps_add(disk, a, b.drop_last(), merged);
        assert((a + b).drop_last() =~= a + b.drop_last());
        assert((a + b).last() == b.last());
    }
}

/// A failure anywhere before the index is swapped leaves the files as they were:
/// but for a leftover of an earlier compaction under the name to which the first
/// segment is moved, which the first step removes.
pub proof fn law_rollback_restores_the_files(
    disk: Disk,
    merged_path: Seq<char>,
    aside: Seq<char>,
    relocation: Seq<DiskStep>,
    merge: Seq<DiskStep>,
    done: int,
    rollback: Seq<DiskStep>,
    merged: Seq<u8>,
)
    requires
        disk.contains_key(merged_path),
        merged_path != aside,
        is_relocation(relocation, merged_path, aside),
        is_merge(merge, merged_path),
        0 <= done <= 4,
        is_rollback(
            rollback,
            merged_path,
            if done >= 2 {
                Some(aside)
            } else {
                None
            },
        ),
    ensures
        after_steps(disk, (relocation + merge).take(done) + rollback, merged) == (if done == 0 {
            disk
        } else {
            disk.remove(aside)
        }),
{
    reveal_with_fuel(after_steps, 3);
    if done < 2 {
        let part = (relocation + merge).take(done);
        assert(part + rollback =~= part);
        if done == 1 {
            assert(part.last() == relocation[0]);
            assert(part.drop_last().len() == 0);
        }
    } else {
        let part = merge.take(done - 2);
        assert((relocation + merge).take(done) =~= relocation + part);
        let moved = after_steps(disk, relocation, merged);
        assert(relocation.drop_last().len() == 1);
        assert(relocation.drop_last().last() == relocation[0]);
        assert(relocation.drop_last().drop_last().len() == 0);
        assert(moved =~= disk.remove(aside).remove(merged_path).insert(aside, disk[merged_path]));
        let reached = after_steps(moved, part, merged);
        if done == 3 {
            assert(part.last() == merge[0]);
            assert(part.drop_last().len() == 0);
        } else if done == 4 {
            assert(part.last() == merge[1]);
            assert(part.drop_last().len() == 1);
            assert(part.drop_last().last() == merge[0]);
            assert(part.drop_last().drop_last().len() == 0);
        }
        assert(reached.remove(merged_path) =~= moved.remove(merged_path));
        assert(rollback.drop_last().len() == 1);
        assert(rollback.drop_last().last() == rollback[0]);
        assert(rollback.drop_last().drop_last().len() == 0);
        let back = after_steps(reached, rollback, merged);
        assert(back =~= disk.remove(aside));
        lemma_steps_add(disk, relocation, part, merged);
        lemma_steps_add(disk, relocation + part, rollback, merged);
    }
}

/// Removes the sealed segments.
pub open spec fn is_removal(steps: Seq<DiskStep>, sealed: Seq<SegmentFile>) -> bool {
    &&& steps.len() == sealed.len()
    &&& forall|i: int|
        #![trigger steps[i]]
        0 <= i < steps.len() ==> (steps[i] matches DiskStep::Remove(path) && path@
            == sealed[i].path@)
}

/// Removes the sealed segments after they were merged.
pub fn removal_steps(sealed: &[SegmentFile]) -> (steps: Vec<DiskStep>)
    ensures
        is_removal(steps@, sealed@),
{
    let mut steps: Vec<DiskStep> = Vec::new();
    let mut i: usize = 0;
    while i < sealed.len()
        invariant
            i <= sealed@.len(),
            steps@.len() == i,
            forall|k: int|
                #![trigger steps@[k]]
                0 <= k < i ==> (steps@[k] matches DiskStep::Remove(path) && path@
                    == sealed@[k].path@),
        decreases sealed@.len() - i,
    {
        steps.push(DiskStep::Remove(sealed[i].path.clone()));
        i += 1;
    }
    steps
}

/// Removing the sealed segments removes them and nothing else: the merged
/// segment stays, and so does every file that is not one of them.
pub proof fn law_removal_removes_only_sources(
    disk: Disk,
    sealed: Seq<SegmentFile>,
    steps: Seq<DiskStep>,
    merged: Seq<u8>,
    name: Seq<char>,
)
    requires
        is_removal(steps, sealed),
    ensures
        after_steps(disk, steps, merged).contains_key(name) <==> disk.contains_key(name)
            && !exists|i: int| 0 <= i < sealed.len() && (#[trigger] sealed[i]).path@ == name,
        after_steps(disk, steps, merged).contains_key(name) ==> after_steps(disk, steps, merged)[name]
            == disk[name],
    decreases steps.len(),
{
    if steps.len() > 0 {
        let (front, before) = (sealed.drop_last(), steps.drop_last());
        assert forall|i: int|
            #![trigger before[i]]
            0 <= i < before.len() implies (before[i] matches DiskStep::Remove(path)
            && path@ == front[i].path@) by {
            assert(steps[i] == before[i]);
        }
        law_removal_removes_only_sources(disk, front, before, merged, name);
        let last = steps.len() - 1;
        assert(steps[last] == steps.last());
        if exists|i: int| 0 <= i < sealed.len() && (#[trigger] sealed[i]).path@ == name {
            let i = choose|i: int| 0 <= i < sealed.len() && (#[trigger] sealed[i]).path@ == name;
            if i < front.len() {
                assert(front[i].path@ == name);
            }
        }
        if exists|i: int| 0 <= i < front.len() && (#[trigger] front[i]).path@ == name {
            let i = choose|i: int| 0 <= i < front.len() && (#[trigger] front[i]).path@ == name;
            assert(sealed[i].path@ == name);
        }
        if sealed[last].path@ == name {
            assert(exists|i: int| 0 <= i < sealed.len() && (#[trigger] sealed[i]).path@ == name);
        }
    }
}

/// How a compaction ended.
#[derive(Debug, PartialEq, Eq)]
pub enum CompactionOutcome {
    /// The segments were merged.
    Performed,
    /// There were too few.
    Skipped,
    /// It failed, and the files were put back.
    Failed {
        /// Why.
        reason: String,
    },
}

/// What came of a compaction.
#[derive(Debug, PartialEq, Eq)]
pub struct CompactionResult {
    /// How it ended.
    pub outcome: CompactionOutcome,
    /// Number of segments that were removed.
    pub segments_removed: usize,
    /// Number of bytes that they held.
    pub bytes_reclaimed: u64,
}

/// The known lengths, added up.
pub open spec fn total_length(lengths: Seq<Option<u64>>) -> int
    decreases lengths.len(),
{
    if lengths.len() == 0 {
        0
    } else {
        total_length(lengths.drop_last()) + match lengths.last() {
            Some(n) => n as int,
            None => 0,
        }
    }
}

proof fn lemma_total_grows(lengths: Seq<Option<u64>>, i: int)
    requires
        0 <= i <= lengths.len(),
    ensures
        0 <= total_length(lengths.take(i)) <= total_length(lengths),
    decreases lengths.len(),
{
    if i == lengths.len() {
        assert(lengths.take(i) =~= lengths);
        if i > 0 {
            lemma_total_grows(lengths.drop_last(), i - 1);
            assert(lengths.drop_last().take(i - 1) =~= lengths.drop_last());
        }
    } else {
        lemma_total_grows(lengths.drop_last(), i);
        assert(lengths.drop_last().take(i) =~= lengths.take(i));
    }
}

impl CompactionResult {
    /// Too few segments.
    pub fn skipped() -> (r: CompactionResult)
        ensures
            r == (CompactionResult {
                outcome: CompactionOutcome::Skipped,
                segments_removed: 0,
                bytes_reclaimed: 0,
            }),
    {
        CompactionResult {
            outcome: CompactionOutcome::Skipped,
            segments_removed: 0,
            bytes_reclaimed: 0,
        }
    }

    /// Segments of some lengths, as far as those are known, were merged and
    /// removed.
    pub fn performed(lengths: &[Option<u64>]) -> (r: CompactionResult)
        requires
            total_length(lengths@) <= u64::MAX,
        ensures
            r.outcome is Performed,
            r.segments_removed == lengths@.len(),
            r.bytes_reclaimed == total_length(lengths@),
    {
        let mut bytes_reclaimed: u64 = 0;
        let mut i: usize = 0;
        while i < lengths.len()
            invariant
                i <= lengths@.len(),
                total_length(lengths@) <= u64::MAX,
                bytes_reclaimed == total_length(lengths@.take(i as int)),
            decreases lengths@.len() - i,
        {
            proof {
                lemma_total_grows(lengths@, i + 1);
                assert(lengths@.take(i + 1).drop_last() =~= lengths@.take(i as int));
            }
            if let Some(n) = lengths[i] {
                bytes_reclaimed = bytes_reclaimed + n;
            }
            i += 1;
        }
        assert(lengths@.take(lengths@.len() as int) =~= lengths@);
        CompactionResult {
            outcome: CompactionOutcome::Performed,
            segments_removed: lengths.len(),
            bytes_reclaimed,
        }
    }

    /// A failure, after which the files were put back.
    pub fn rolled_back(context: &str, error: &StoreError) -> (r: CompactionResult)
        ensures
            r.outcome matches CompactionOutcome::Failed { reason } && reason@ == context@
                + "; disk layout rolled back: "@ + error.text(),
            r.segments_removed == 0,
            r.bytes_reclaimed == 0,
    {
        let mut reason = context.to_owned();
        reason.append("; disk layout rolled back: ");
        let cause = error.message();
        reason.append(cause.as_str());
        CompactionResult {
            outcome: CompactionOutcome::Failed { reason },
            segments_removed: 0,
            bytes_reclaimed: 0,
        }
    }
}

/// What is left of events.
#[derive(Clone, Copy, Debug, PartialEq, Eq, Structural)]
pub enum Rewrite {
    /// Those that are to be kept.
    Retention,
    /// All, but those that are not to be kept become tombstones.
    Tombstone,
}

/// An event as it was read from a segment. The payload's bytes and everything
/// else that is stored go through a compaction as they are.
#[derive(Debug)]
pub struct ScannedEntry<H> {
    /// Its entity.
    pub entity: String,
    /// Its scope.
    pub scope: String,
    /// Its kind.
    pub event_kind: EventKind,
    /// The bytes of its payload.
    pub payload_bytes: Vec<u8>,
    /// Everything else.
    pub rest: H,
}

/// The event has a coordinate.
pub open spec fn placed<H>(entry: &ScannedEntry<H>) -> bool {
    entry.entity@.len() > 0 && entry.scope@.len() > 0
}

/// What is left of one event.
pub open spec fn left_of<H>(
    rewrite: Rewrite,
    entry: ScannedEntry<H>,
    keep: bool,
    tombstone: EventKind,
) -> Seq<ScannedEntry<H>> {
    match rewrite {
        Rewrite::Retention => if keep {
            seq![entry]
        } else {
            Seq::empty()
        },
        Rewrite::Tombstone => seq![
            ScannedEntry {
                event_kind: if keep {
                    entry.event_kind
                } else {
                    tombstone
                },
                ..entry
            },
        ],
    }
}

/// What is left of events, by whether each is to be kept.
pub open spec fn rewritten<H>(
    rewrite: Rewrite,
    entries: Seq<ScannedEntry<H>>,
    keeps: Seq<bool>,
    tombstone: EventKind,
) -> Seq<ScannedEntry<H>>
    decreases keeps.len(),
{
    if keeps.len() == 0 {
        Seq::empty()
    } else {
        rewritten(rewrite, entries, keeps.drop_last(), tombstone) + left_of(
            rewrite,
            entries[keeps.len() - 1],
            keeps.last(),
            tombstone,
        )
    }
}

/// An event has a coordinate, and was judged by it.
pub open spec fn judged_as<H, P: Fn(&Coordinate, &ScannedEntry<H>) -> bool>(
    predicate: P,
    entry: &ScannedEntry<H>,
    keep: bool,
) -> bool {
    placed(entry) && exists|coordinate: Coordinate|
        coordinate.entity_spec() == entry.entity@ && coordinate.scope_spec() == entry.scope@
            && #[trigger] call_ensures(predicate, (&coordinate, entry), keep)
}

/// The first events have coordinates and were judged.
pub open spec fn judged<H, P: Fn(&Coordinate, &ScannedEntry<H>) -> bool>(
    predicate: P,
    entries: Seq<ScannedEntry<H>>,
    keeps: Seq<bool>,
) -> bool {
    &&& keeps.len() <= entries.len()
    &&& forall|i: int|
        #![trigger keeps[i]]
        0 <= i < keeps.len() ==> judged_as(predicate, &entries[i], keeps[i])
}

/// The event has no coordinate, and the error says why.
pub open spec fn refused_as<H>(entry: &ScannedEntry<H>, e: StoreError) -> bool {
    !placed(entry) && e == StoreError::InvalidCoordinate(
        if entry.entity@.len() == 0 {
            CoordinateError::EmptyEntity
        } else {
            CoordinateError::EmptyScope
        },
    )
}

/// What is left of events. An event without a coordinate is an error.
pub fn rewrite_entries<H, P: Fn(&Coordinate, &ScannedEntry<H>) -> bool>(
    rewrite: Rewrite,
    entries: Vec<ScannedEntry<H>>,
    predicate: P,
    tombstone: EventKind,
) -> (r: Result<Vec<ScannedEntry<H>>, StoreError>)
    requires
        forall|coordinate: &Coordinate, entry: &ScannedEntry<H>| #[trigger]
            call_requires(predicate, (coordinate, entry)),
    ensures
        match r {
            Ok(left) => exists|keeps: Seq<bool>|
                keeps.len() == entries@.len() && #[trigger] judged(predicate, entries@, keeps)
                    && left@ == rewritten(rewrite, entries@, keeps, tombstone),
            Err(e) => exists|keeps: Seq<bool>|
                keeps.len() < entries@.len() && #[trigger] judged(predicate, entries@, keeps)
                    && refused_as(&entries@[keeps.len() as int], e),
        },
{
    let ghost all = entries@;
    let ghost mut keeps: Seq<bool> = Seq::empty();
    let mut left: Vec<ScannedEntry<H>> = Vec::new();
    for entry in it: entries.into_iter()
        invariant
            forall|coordinate: &Coordinate, entry: &ScannedEntry<H>| #[trigger]
                call_requires(predicate, (coordinate, entry)),
            it.seq() == all,
            keeps.len() == it.index(),
            judged(predicate, all, keeps),
            left@ == rewritten(rewrite, all, keeps, tombstone),
    {
        let ghost at = keeps.len() as int;
        assert(entry == all[at]);
        let coordinate = match Coordinate::new(entry.entity.as_str(), entry.scope.as_str()) {
            Ok(coordinate) => coordinate,
            Err(e) => {
                return Err(StoreError::InvalidCoordinate(e));
            },
        };
        let keep: bool = predicate(&coordinate, &entry);
        let ghost before = left@;
        proof {
            let longer = keeps.push(keep);
            assert(longer.drop_last() =~= keeps);
            assert(call_ensures(predicate, (&coordinate, &all[at]), keep));
            assert(judged_as(predicate, &all[at], keep));
            assert forall|i: int|
                #![trigger longer[i]]
                0 <= i < longer.len() implies judged_as(predicate, &all[i], longer[i]) by {
                if i < at {
                    assert(longer[i] == keeps[i]);
                }
            }
            keeps = longer;
        }
        match rewrite {
            Rewrite::Retention => {
                if keep {
                    left.push(entry);
                }
            },
            Rewrite::Tombstone => {
                let event_kind = if keep {
                    entry.event_kind
                } else {
                    tombstone
                };
                left.push(
                    ScannedEntry {
                        entity: entry.entity,
                        scope: entry.scope,
                        event_kind,
                        payload_bytes: entry.payload_bytes,
                        rest: entry.rest,
                    },
                );
            },
        }
        assert(left@ =~= before + left_of(rewrite, all[at], keep, tombstone));
    }
    Ok(left)
}

/// Tombstones keep every event in its place: all but the kinds of those that
/// are not kept stays as it was, the payload's bytes included.
pub proof fn law_tombstones_keep_everything_else<H>(
    entries: Seq<ScannedEntry<H>>,
    keeps: Seq<bool>,
    tombstone: EventKind,
    i: int,
)
    requires
        keeps.len() <= entries.len(),
        0 <= i < keeps.len(),
    ensures
        rewritten(Rewrite::Tombstone, entries, keeps, tombstone).len() == keeps.len(),
        ({
            let after = rewritten(Rewrite::Tombstone, entries, keeps, tombstone)[i];
            &&& after.entity == entries[i].entity
            &&& after.scope == entries[i].scope
            &&& after.payload_bytes == entries[i].payload_bytes
            &&& after.rest == entries[i].rest
            &&& after.event_kind == (if keeps[i] {
                entries[i].event_kind
            } else {
                tombstone
            })
        }),
    decreases keeps.len(),
{
    lemma_tombstone_len(entries, keeps, tombstone);
    lemma_tombstone_len(entries, keeps.drop_last(), tombstone);
    if i < keeps.len() - 1 {
        law_tombstones_keep_everything_else(entries, keeps.drop_last(), tombstone, i);
    }
}

proof fn lemma_tombstone_len<H>(
    entries: Seq<ScannedEntry<H>>,
    keeps: Seq<bool>,
    tombstone: EventKind,
)
    ensures
        rewritten(Rewrite::Tombstone, entries, keeps, tombstone).len() == keeps.len(),
    decreases keeps.len(),
{
    if keeps.len() > 0 {
        lemma_tombstone_len(entries, keeps.drop_last(), tombstone);
    }
}

/// Retention changes nothing of what it keeps, and keeps nothing else: what is
/// left is an event that was to be kept, as it was.
pub proof fn law_retention_keeps_events_as_they_are<H>(
    entries: Seq<ScannedEntry<H>>,
    keeps: Seq<bool>,
    tombstone: EventKind,
    i: int,
)
    requires
        keeps.len() <= entries.len(),
        0 <= i < rewritten(Rewrite::Retention, entries, keeps, tombstone).len(),
    ensures
        exists|k: int|
            0 <= k < keeps.len() && #[trigger] keeps[k] && rewritten(
                Rewrite::Retention,
                entries,
                keeps,
                tombstone,
            )[i] == entries[k],
    decreases keeps.len(),
{
    if keeps.len() > 0 {
        let front = keeps.drop_last();
        let before = rewritten(Rewrite::Retention, entries, front, tombstone);
        if i < before.len() {
            law_retention_keeps_events_as_they_are(entries, front, tombstone, i);
            let k = choose|k: int|
                0 <= k < front.len() && #[trigger] front[k] && before[i] == entries[k];
            assert(keeps[k]);
        } else {
            assert(keeps[keeps.len() - 1]);
        }
    }
}

/// Where what retention leaves of events stood among them.
proof fn lemma_retained_positions<H>(
    entries: Seq<ScannedEntry<H>>,
    keeps: Seq<bool>,
    tombstone: EventKind,
) -> (at: Seq<int>)
    requires
        keeps.len() <= entries.len(),
    ensures
        at.len() == rewritten(Rewrite::Retention, entries, keeps, tombstone).len(),
        at.len() == keeps.filter(|keep: bool| keep).len(),
        forall|i: int|
            #![trigger at[i]]
            0 <= i < at.len() ==> 0 <= at[i] < keeps.len() && keeps[at[i]] && rewritten(
                Rewrite::Retention,
                entries,
                keeps,
                tombstone,
            )[i] == entries[at[i]],
        forall|i: int, j: int|
            #![trigger at[i], at[j]]
            0 <= i < j < at.len() ==> at[i] < at[j],
        forall|k: int|
            #![trigger keeps[k]]
            0 <= k < keeps.len() && keeps[k] ==> at.contains(k),
    decreases keeps.len(),
{
    reveal(Seq::filter);
    if keeps.len() == 0 {
        Seq::empty()
    } else {
        let front = keeps.drop_last();
        let before = lemma_retained_positions(entries, front, tombstone);
        let last = keeps.len() - 1;
        let at = if keeps.last() {
            before.push(last)
        } else {
            before
        };
        assert forall|k: int|
            #![trigger keeps[k]]
            0 <= k < keeps.len() && keeps[k] implies at.contains(k) by {
            if k < last {
                assert(front[k]);
                let i = before.index_of(k);
                assert(at[i] == k);
            } else {
                assert(at[before.len() as int] == k);
            }
        }
        assert forall|i: int|
            #![trigger at[i]]
            0 <= i < at.len() implies 0 <= at[i] < keeps.len() && keeps[at[i]] && rewritten(
            Rewrite::Retention,
            entries,
            keeps,
            tombstone,
        )[i] == entries[at[i]] by {
            if i < before.len() {
                assert(before[i] == at[i]);
                assert(front[before[i]]);
            }
        }
        at
    }
}

/// What retention leaves is complete. Of each event there is what the predicate said
/// of it at its own coordinate, and there is a list of places: in ascending order, those
/// of exactly the events that the predicate keeps. Each of these is left as it was, in
/// its turn, and nothing else is left.
pub proof fn law_retention_is_complete<H, P: Fn(&Coordinate, &ScannedEntry<H>) -> bool>(
    entries: Vec<ScannedEntry<H>>,
    predicate: P,
    tombstone: EventKind,
    left: Vec<ScannedEntry<H>>,
) -> (r: (Seq<bool>, Seq<int>, Seq<Coordinate>))
    requires
        call_ensures(
            rewrite_entries::<H, P>,
            (Rewrite::Retention, entries, predicate, tombstone),
            Ok::<Vec<ScannedEntry<H>>, StoreError>(left),
        ),
    ensures
        ({
            let (keeps, at, by_coordinates) = r;
            &&& keeps.len() == entries@.len()
            &&& forall|k: int|
                #![trigger keeps[k]]
                0 <= k < keeps.len() ==> by_coordinates[k].entity_spec() == entries@[k].entity@
                    && by_coordinates[k].scope_spec() == entries@[k].scope@ && call_ensures(
                    predicate,
                    (&by_coordinates[k], &entries@[k]),
                    keeps[k],
                )
            &&& left@.len() == at.len()
            &&& left@.len() == keeps.filter(|keep: bool| keep).len()
            &&& forall|i: int, j: int|
                #![trigger at[i], at[j]]
                0 <= i < j < at.len() ==> at[i] < at[j]
            &&& forall|i: int|
                #![trigger at[i]]
                0 <= i < at.len() ==> 0 <= at[i] < keeps.len() && keeps[at[i]] && left@[i]
                    == entries@[at[i]]
            &&& forall|k: int|
                #![trigger keeps[k]]
                0 <= k < keeps.len() && keeps[k] ==> at.contains(k) && left@.contains(entries@[k])
        }),
{
    let keeps = choose|keeps: Seq<bool>|
        keeps.len() == entries@.len() && #[trigger] judged(predicate, entries@, keeps) && left@
            == rewritten(Rewrite::Retention, entries@, keeps, tombstone);
    let at = lemma_retained_positions(entries@, keeps, tombstone);
    let by_coordinates = Seq::new(
        keeps.len(),
        |k: int|
            choose|coordinate: Coordinate|
                coordinate.entity_spec() == entries@[k].entity@ && coordinate.scope_spec()
                    == entries@[k].scope@ && #[trigger] call_ensures(
                    predicate,
                    (&coordinate, &entries@[k]),
                    keeps[k],
                ),
    );
    assert forall|k: int|
        #![trigger keeps[k]]
        0 <= k < keeps.len() implies by_coordinates[k].entity_spec() == entries@[k].entity@
                    && by_coordinates[k].scope_spec() == entries@[k].scope@ && call_ensures(
                    predicate,
                    (&by_coordinates[k], &entries@[k]),
                    keeps[k],
                ) by {
        assert(judged_as(predicate, &entries@[k], keeps[k]));
        let coordinate = choose|coordinate: Coordinate|
            coordinate.entity_spec() == entries@[k].entity@ && coordinate.scope_spec()
                == entries@[k].scope@ && #[trigger] call_ensures(
                predicate,
                (&coordinate, &entries@[k]),
                keeps[k],
            );
        assert(by_coordinates[k] == coordinate);
    }
    assert forall|k: int|
        #![trigger keeps[k]]
        0 <= k < keeps.len() && keeps[k] implies at.contains(k) && left@.contains(entries@[k]) by {
        let i = at.index_of(k);
        assert(at[i] == k);
        assert(left@[i] == entries@[k]);
    }
    (keeps, at, by_coordinates)
}

/// What tombstones leave is complete: every event stands in its place with its entity,
/// its scope, its payload and all the rest, and its kind is its own where the predicate
/// keeps it and the tombstone's where not.
pub proof fn law_tombstones_are_complete<H, P: Fn(&Coordinate, &ScannedEntry<H>) -> bool>(
    entries: Vec<ScannedEntry<H>>,
    predicate: P,
    tombstone: EventKind,
    left: Vec<ScannedEntry<H>>,
) -> (r: (Seq<bool>, Seq<Coordinate>))
    requires
        call_ensures(
            rewrite_entries::<H, P>,
            (Rewrite::Tombstone, entries, predicate, tombstone),
            Ok::<Vec<ScannedEntry<H>>, StoreError>(left),
        ),
    ensures
        r.0.len() == entries@.len(),
        left@.len() == entries@.len(),
        forall|k: int|
            #![trigger r.0[k]]
            0 <= k < r.0.len() ==> r.1[k].entity_spec() == entries@[k].entity@
                    && r.1[k].scope_spec() == entries@[k].scope@ && call_ensures(
                    predicate,
                    (&r.1[k], &entries@[k]),
                    r.0[k],
                ),
        forall|k: int|
            #![trigger left@[k]]
            0 <= k < left@.len() ==> left@[k].entity == entries@[k].entity && left@[k].scope
                == entries@[k].scope && left@[k].payload_bytes == entries@[k].payload_bytes
                && left@[k].rest == entries@[k].rest && left@[k].event_kind == (if r.0[k] {
                entries@[k].event_kind
            } else {
                tombstone
            }),
{
    let keeps = choose|keeps: Seq<bool>|
        keeps.len() == entries@.len() && #[trigger] judged(predicate, entries@, keeps) && left@
            == rewritten(Rewrite::Tombstone, entries@, keeps, tombstone);
    lemma_tombstone_len(entries@, keeps, tombstone);
    let by_coordinates = Seq::new(
        keeps.len(),
        |k: int|
            choose|coordinate: Coordinate|
                coordinate.entity_spec() == entries@[k].entity@ && coordinate.scope_spec()
                    == entries@[k].scope@ && #[trigger] call_ensures(
                    predicate,
                    (&coordinate, &entries@[k]),
                    keeps[k],
                ),
    );
    assert forall|k: int|
        #![trigger keeps[k]]
        0 <= k < keeps.len() implies by_coordinates[k].entity_spec() == entries@[k].entity@
                    && by_coordinates[k].scope_spec() == entries@[k].scope@ && call_ensures(
                    predicate,
                    (&by_coordinates[k], &entries@[k]),
                    keeps[k],
                ) by {
        assert(judged_as(predicate, &entries@[k], keeps[k]));
        let coordinate = choose|coordinate: Coordinate|
            coordinate.entity_spec() == entries@[k].entity@ && coordinate.scope_spec()
                == entries@[k].scope@ && #[trigger] call_ensures(
                predicate,
                (&coordinate, &entries@[k]),
                keeps[k],
            );
        assert(by_coordinates[k] == coordinate);
    }
    assert forall|k: int|
        #![trigger left@[k]]
        0 <= k < left@.len() implies left@[k].entity == entries@[k].entity && left@[k].scope
        == entries@[k].scope && left@[k].payload_bytes == entries@[k].payload_bytes
        && left@[k].rest == entries@[k].rest && left@[k].event_kind == (if keeps[k] {
        entries@[k].event_kind
    } else {
        tombstone
    }) by {
        law_tombstones_keep_everything_else(entries@, keeps, tombstone, k);
    }
    (keeps, by_coordinates)
}

/// A rewrite fails exactly where an event has no entity or no scope, and names the
/// fault of the first such event: whatever is rewritten, and whatever the predicate
/// says.
pub proof fn law_rewrite_fails_on_a_missing_coordinate<
    H,
    P: Fn(&Coordinate, &ScannedEntry<H>) -> bool,
>(
    rewrite: Rewrite,
    entries: Vec<ScannedEntry<H>>,
    predicate: P,
    tombstone: EventKind,
    r: Result<Vec<ScannedEntry<H>>, StoreError>,
)
    requires
        call_ensures(rewrite_entries::<H, P>, (rewrite, entries, predicate, tombstone), r),
    ensures
        r is Ok <==> forall|k: int|
            #![trigger entries@[k]]
            0 <= k < entries@.len() ==> entries@[k].entity@.len() > 0 && entries@[k].scope@.len()
                > 0,
        r matches Err(e) ==> exists|n: int|
            0 <= n < entries@.len() && (forall|k: int|
                #![trigger entries@[k]]
                0 <= k < n ==> entries@[k].entity@.len() > 0 && entries@[k].scope@.len() > 0) && ((
            #[trigger] entries@[n]).entity@.len() == 0 && e == StoreError::InvalidCoordinate(
                CoordinateError::EmptyEntity,
            ) || entries@[n].entity@.len() > 0 && entries@[n].scope@.len() == 0 && e
                == StoreError::InvalidCoordinate(CoordinateError::EmptyScope)),
{
    match r {
        Ok(left) => {
            let keeps = choose|keeps: Seq<bool>|
                keeps.len() == entries@.len() && #[trigger] judged(predicate, entries@, keeps)
                    && left@ == rewritten(rewrite, entries@, keeps, tombstone);
            assert forall|k: int|
                #![trigger entries@[k]]
                0 <= k < entries@.len() implies entries@[k].entity@.len() > 0
                && entries@[k].scope@.len() > 0 by {
                assert(judged_as(predicate, &entries@[k], keeps[k]));
            }
        },
        Err(e) => {
            let keeps = choose|keeps: Seq<bool>|
                keeps.len() < entries@.len() && #[trigger] judged(predicate, entries@, keeps)
                    && refused_as(&entries@[keeps.len() as int], e);
            let n = keeps.len() as int;
            assert forall|k: int|
                #![trigger entries@[k]]
                0 <= k < n implies entries@[k].entity@.len() > 0 && entries@[k].scope@.len()
                > 0 by {
                assert(judged_as(predicate, &entries@[k], keeps[k]));
            }
            assert(refused_as(&entries@[n], e));
        },
    }
}

/// The keys after the events of a compacted index were held against them.
pub open spec fn settled_keys(
    before: Map<u128, crate::index::idemp::IdempEntry>,
    after: Map<u128, crate::index::idemp::IdempEntry>,
    live: Map<u128, std::sync::Arc<crate::index::entry::IndexEntry>>,
) -> bool {
    &&& after.dom() == before.dom()
    &&& forall|k: u128| #[trigger]
        after.contains_key(k) ==> after[k].same_tuple(&before[k]) && after[k].event_evicted == (
        before[k].event_evicted || !live.contains_key(before[k].event_id))
}

/// Holds the idempotency keys against the index after its contents were
/// replaced: keys of events that are gone are marked, then keys that have left
/// the window are dropped.
pub fn settle_keys(index: &StoreIndex, keys: &mut IdempotencyStore) -> (report: EvictionReport)
    requires
        index.wf(),
        old(keys).wf(),
    ensures
        final(keys).wf(),
        final(keys).same_policies(old(keys)),
        exists|marked: Map<u128, crate::index::idemp::IdempEntry>| #[trigger]
            settled_keys(old(keys).entries(), marked, index.by_id.entries()) && final(keys).entries() == crate::index::idemp::after_eviction(
                marked,
                old(keys).policy(),
                index.sequence@.allocated,
            ) && report.aged_out == (match old(keys).policy().window() {
                Some(keep) => crate::index::idemp::aged_keys(
                    marked,
                    crate::index::idemp::window_floor(index.sequence@.allocated, keep),
                ).len(),
                None => 0,
            }),
        report.cap_trimmed_out_of_window == 0,
        report.within_window_exceeds_cap == (old(keys).policy().cap() matches Some(max) && final(keys).entries().dom().len() > max),
        report.remaining == final(keys).entries().dom().len(),
        report.aged_out + report.remaining == old(keys).entries().dom().len(),
        forall|k: u128| #[trigger]
            final(keys).entries().contains_key(k) <==> old(keys).entries().contains_key(k)
                && match old(keys).policy() {
                crate::index::idemp::IdempotencyRetention::Unbounded => true,
                crate::index::idemp::IdempotencyRetention::Window { keep_sequences } => old(
                    keys,
                ).entries()[k].recorded_global_sequence + keep_sequences
                    >= index.sequence@.allocated,
                crate::index::idemp::IdempotencyRetention::Hybrid { keep_sequences, .. } => old(
                    keys,
                ).entries()[k].recorded_global_sequence + keep_sequences
                    >= index.sequence@.allocated,
            },
        forall|k: u128| #[trigger]
            final(keys).entries().contains_key(k) ==> {
                let was = old(keys).entries()[k];
                let now = final(keys).entries()[k];
                &&& now.same_tuple(&was)
                &&& now.event_evicted <==> was.event_evicted
                    || !index.by_id.entries().contains_key(was.event_id)
            },
{
    let frontier: u64 = index.global_sequence();
    let ghost before = keys.entries();
    let ghost live = index.by_id.entries();
    let by_id = &index.by_id;
    let is_live = |id: u128| -> (found: bool)
        requires
            by_id.wf(),
        ensures
            found == by_id.entries().contains_key(id),
    {
        by_id.contains_key(id)
    };
    keys.mark_evicted(is_live);
    let ghost marked = keys.entries();
    proof {
        assert(settled_keys(before, marked, live));
        assert forall|k: u128| #[trigger] before.contains_key(k) <==> marked.contains_key(k) by {
            assert(before.dom().contains(k) <==> marked.dom().contains(k));
        }
    }
    keys.evict(frontier)
}

/// The segments of a directory are its files with a number, each with its own number
/// and path, in the order of the files: `at` tells where each stands.
pub proof fn law_every_numbered_file_is_a_segment(
    files: Vec<(StoreFileKind, String)>,
    segments: Vec<SegmentFile>,
) -> (at: Seq<int>)
    requires
        call_ensures(list_segments, (files,), segments),
    ensures
        at.len() == segments@.len(),
        forall|i: int, j: int| 0 <= i < j < at.len() ==> #[trigger] at[i] < #[trigger] at[j],
        forall|i: int|
            #![trigger at[i]]
            0 <= i < at.len() ==> 0 <= at[i] < files@.len() && files@[at[i]].0
                == StoreFileKind::Segment(segments@[i].id) && files@[at[i]].1 == segments@[i].path,
        forall|k: int|
            #![trigger files@[k]]
            0 <= k < files@.len() && files@[k].0 is Segment ==> at.contains(k),
{
    lemma_segment_places(files@)
}

proof fn lemma_segment_places(files: Seq<(StoreFileKind, String)>) -> (at: Seq<int>)
    ensures
        at.len() == segments_of(files).len(),
        forall|i: int, j: int| 0 <= i < j < at.len() ==> #[trigger] at[i] < #[trigger] at[j],
        forall|i: int|
            #![trigger at[i]]
            0 <= i < at.len() ==> 0 <= at[i] < files.len() && files[at[i]].0
                == StoreFileKind::Segment(segments_of(files)[i].id) && files[at[i]].1
                == segments_of(files)[i].path,
        forall|k: int|
            #![trigger files[k]]
            0 <= k < files.len() && files[k].0 is Segment ==> at.contains(k),
    decreases files.len(),
{
    if files.len() == 0 {
        Seq::empty()
    } else {
        let front = files.drop_last();
        let before = lemma_segment_places(front);
        let last = files.len() - 1;
        let at = if files.last().0 is Segment {
            before.push(last)
        } else {
            before
        };
        assert forall|i: int|
            #![trigger at[i]]
            0 <= i < at.len() implies 0 <= at[i] < files.len() && files[at[i]].0
            == StoreFileKind::Segment(segments_of(files)[i].id) && files[at[i]].1 == segments_of(
            files,
        )[i].path by {
            if i < before.len() {
                assert(before[i] == at[i]);
                assert(front[before[i]] == files[at[i]]);
            }
        }
        assert forall|k: int|
            #![trigger files[k]]
            0 <= k < files.len() && files[k].0 is Segment implies at.contains(k) by {
            if k < last {
                assert(front[k] == files[k]);
                let i = choose|i: int| 0 <= i < before.len() && before[i] == k;
                assert(at[i] == k);
            } else {
                assert(at[before.len() as int] == k);
            }
        }
        assert forall|i: int, j: int| 0 <= i < j < at.len() implies #[trigger] at[i]
            < #[trigger] at[j] by {
            assert(at[i] == before[i]);
            if j < before.len() {
                assert(at[j] == before[j]);
            }
        }
        at
    }
}

/// How often a value is left of a sequence after some were dropped.
proof fn lemma_filter_count(
    s: Seq<SegmentFile>,
    keep: spec_fn(SegmentFile) -> bool,
    x: SegmentFile,
)
    ensures
        s.filter(keep).to_multiset().count(x) == (if keep(x) {
            s.to_multiset().count(x)
        } else {
            0
        }),
    decreases s.len(),
{
    reveal(Seq::filter);
    s.to_multiset_ensures();
    s.filter(keep).to_multiset_ensures();
    if s.len() > 0 {
        let front = s.drop_last();
        lemma_filter_count(front, keep, x);
        assert(s =~= front.push(s.last()));
        vstd::seq_lib::to_multiset_build(front, s.last());
        if keep(s.last()) {
            vstd::seq_lib::to_multiset_build(front.filter(keep), s.last());
        }
    }
}

/// A plan leaves alone the segments of the highest number, which are being written,
/// and merges all the others, each as often as it is there, by ascending number. It
/// merges where there are as many as asked for, and then under the lowest number of
/// them.
pub proof fn law_plan_merges_all_but_the_newest(
    segments: Vec<SegmentFile>,
    min_segments: usize,
    plan: CompactionPlan,
    x: SegmentFile,
)
    requires
        min_segments > 0 || sealed_segments(segments@).len() > 0,
        call_ensures(plan_compaction, (segments, min_segments), plan),
    ensures
        segments@.len() == 0 ==> plan.active_segment_id == 0,
        segments@.len() > 0 ==> exists|i: int|
            0 <= i < segments@.len() && (#[trigger] segments@[i]).id == plan.active_segment_id,
        forall|i: int|
            0 <= i < segments@.len() ==> (#[trigger] segments@[i]).id <= plan.active_segment_id,
        plan.sealed@.to_multiset().count(x) == (if x.id < plan.active_segment_id {
            segments@.to_multiset().count(x)
        } else {
            0
        }),
        forall|i: int, j: int|
            #![trigger plan.sealed@[i], plan.sealed@[j]]
            0 <= i < j < plan.sealed@.len() ==> plan.sealed@[i].id <= plan.sealed@[j].id,
        plan.merged_id is Some <==> plan.sealed@.len() >= min_segments,
        plan.merged_id matches Some(merged_id) ==> plan.sealed@.len() > 0 && plan.sealed@[0].id
            == merged_id && forall|i: int|
            0 <= i < plan.sealed@.len() ==> merged_id <= (#[trigger] plan.sealed@[i]).id,
{
    let all = segments@;
    let sorted = crate::sort::sorted_by_rank(all);
    let is_sealed = |segment: SegmentFile| segment.id < active_of(all);
    crate::sort::law_stable_sort_exists(all);
    all.to_multiset_ensures();
    sorted.to_multiset_ensures();
    lemma_filter_count(sorted, is_sealed, x);
    lemma_filter_ranked(sorted, is_sealed);
    if all.len() > 0 {
        let last = sorted[sorted.len() - 1];
        assert(sorted.to_multiset().count(last) > 0);
        assert(all.contains(last));
        let i = choose|i: int| 0 <= i < all.len() && all[i] == last;
        assert(all[i].id == plan.active_segment_id);
        assert forall|i: int| 0 <= i < all.len() implies (#[trigger] all[i]).id
            <= plan.active_segment_id by {
            assert(all.to_multiset().count(all[i]) > 0);
            assert(sorted.contains(all[i]));
            let k = choose|k: int| 0 <= k < sorted.len() && sorted[k] == all[i];
            assert(SegmentFile::rank_le(sorted[k], sorted[sorted.len() - 1]));
        }
    }
    assert forall|i: int, j: int|
        #![trigger plan.sealed@[i], plan.sealed@[j]]
        0 <= i <= j < plan.sealed@.len() implies plan.sealed@[i].id <= plan.sealed@[j].id by {
        assert(SegmentFile::rank_le(plan.sealed@[i], plan.sealed@[j]));
    }
}

/// The marker names the merged segment and every segment that is merged, in order.
pub proof fn law_marker_names_every_source(
    plan: &CompactionPlan,
    r: Option<PendingCompaction>,
    i: int,
)
    requires
        call_ensures(pending_compaction, (plan,), r),
    ensures
        r is Some <==> plan.merged_id is Some,
        r matches Some(pending) ==> plan.merged_id == Some(pending.merged_id)
            && pending.source_segment_ids@.len() == plan.sealed@.len(),
        r is Some && 0 <= i < plan.sealed@.len() ==> r->0.source_segment_ids@[i]
            == plan.sealed@[i].id,
{
}

/// One more segment that was removed counts as one, and adds its length where that is
/// known.
pub proof fn law_removed_segments_add_up(
    lengths: &[Option<u64>],
    more: &[Option<u64>],
    length: Option<u64>,
    r: CompactionResult,
    of_more: CompactionResult,
)
    requires
        more@ == lengths@.push(length),
        total_length(more@) <= u64::MAX,
        call_ensures(CompactionResult::performed, (lengths,), r),
        call_ensures(CompactionResult::performed, (more,), of_more),
    ensures
        r.outcome is Performed && of_more.outcome is Performed,
        of_more.segments_removed == r.segments_removed + 1,
        length is None ==> of_more.bytes_reclaimed == r.bytes_reclaimed,
        length matches Some(n) ==> of_more.bytes_reclaimed == r.bytes_reclaimed + n,
        lengths@.len() == 0 ==> r.segments_removed == 0 && r.bytes_reclaimed == 0,
{
    assert(more@.drop_last() =~= lengths@);
}

/// Segments of different numbers are moved aside under different names.
pub proof fn law_names_aside_differ(
    a: u64,
    b: u64,
    extension: &str,
    name_a: String,
    name_b: String,
)
    requires
        call_ensures(compact_source_name, (a, extension), name_a),
        call_ensures(compact_source_name, (b, extension), name_b),
    ensures
        name_a@ == name_b@ <==> a == b,
{
    if name_a@ == name_b@ {
        let tail = "."@ + extension@ + ".compact-src"@;
        let pa = padded(a as nat, 6);
        let pb = padded(b as nat, 6);
        assert(name_a@ =~= pa + tail);
        assert(name_b@ =~= pb + tail);
        assert(pa.len() == pb.len());
        assert(pa =~= (pa + tail).take(pa.len() as int));
        assert(pb =~= (pb + tail).take(pb.len() as int));
        lemma_padded_value(a as nat, 6);
        lemma_padded_value(b as nat, 6);
    }
}

/// The number that decimal digits stand for.
spec fn digits_value(s: Seq<char>) -> int
    decreases s.len(),
{
    if s.len() == 0 {
        0
    } else {
        10 * digits_value(s.drop_last()) + (s.last() as int - '0' as int)
    }
}

proof fn lemma_decimal_value(n: nat)
    ensures
        digits_value(crate::text::decimal_text(n)) == n,
    decreases n,
{
    crate::text::law_decimal_ends_in_the_last_digit(n);
    reveal_with_fuel(digits_value, 2);
    if n >= 10 {
        lemma_decimal_value(n / 10);
    }
}

proof fn lemma_zeros_in_front(zeros: nat, s: Seq<char>)
    ensures
        digits_value(Seq::new(zeros, |i: int| '0') + s) == digits_value(s),
    decreases zeros + s.len(),
{
    let front = Seq::new(zeros, |i: int| '0');
    let all = front + s;
    if s.len() > 0 {
        lemma_zeros_in_front(zeros, s.drop_last());
        assert(all.drop_last() =~= front + s.drop_last());
    } else if zeros > 0 {
        let fewer = Seq::new((zeros - 1) as nat, |i: int| '0');
        lemma_zeros_in_front((zeros - 1) as nat, s);
        assert(all.drop_last() =~= fewer + s);
    }
}

proof fn lemma_padded_value(n: nat, width: nat)
    ensures
        digits_value(padded(n, width)) == n,
{
    let digits = crate::text::decimal_text(n);
    lemma_decimal_value(n);
    if digits.len() < width {
        lemma_zeros_in_front((width - digits.len()) as nat, digits);
    }
}

} // verus!
