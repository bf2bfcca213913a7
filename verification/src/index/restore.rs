//! Restore-time routing: entity runs, chunk summaries and their validation.

use super::entry::IndexEntry;
use crate::error::StoreError;
use crate::sort::stable_sort;
use crate::text::str_equal;
use std::sync::Arc;
use vstd::prelude::*;

verus! {

/// One contiguous run of entries of the same entity in the entity order.
#[derive(Debug, PartialEq, Eq)]
pub struct EntityRun {
    /// Entity of the run.
    pub entity: String,
    /// Index of the first entry.
    pub start: u64,
    /// Number of entries.
    pub len: u64,
    /// Global sequence of the first entry.
    pub first_sequence: u64,
    /// Global sequence of the last entry.
    pub last_sequence: u64,
}

impl Clone for EntityRun {
    fn clone(&self) -> (r: EntityRun)
        ensures
            r == *self,
    {
        EntityRun {
            entity: self.entity.clone(),
            start: self.start,
            len: self.len,
            first_sequence: self.first_sequence,
            last_sequence: self.last_sequence,
        }
    }
}

/// One contiguous chunk of the entries in sequence order.
#[derive(Clone, Copy, Debug, PartialEq, Eq, Structural)]
pub struct RestoreChunkSummary {
    /// Index of the first entry.
    pub start: u64,
    /// Number of entries.
    pub len: u64,
    /// Global sequence of the first entry.
    pub first_sequence: u64,
    /// Global sequence of the last entry.
    pub last_sequence: u64,
}

/// Restore-time routing summary of a set of entries.
#[derive(Debug, PartialEq, Eq)]
pub struct RoutingSummary {
    /// Number of entries.
    pub entry_count: u64,
    /// Number of chunks.
    pub chunk_count: u64,
    /// Chunks of the sequence order.
    pub chunks: Vec<RestoreChunkSummary>,
    /// Runs of the entity order.
    pub entity_runs: Vec<EntityRun>,
}

/// Outcome of holding a routing summary against the entries.
#[derive(Clone, Copy, Debug, PartialEq, Eq, Structural)]
pub enum RoutingValidation {
    /// The summary fits the entries.
    Valid,
    /// The summary does not fit; the first fault found.
    Invalid(RoutingValidationError),
}

/// How a routing summary fails to fit the entries.
#[derive(Clone, Copy, Debug, PartialEq, Eq, Structural)]
pub enum RoutingValidationError {
    /// The entry count is wrong.
    EntryCountMismatch,
    /// The chunk count is not the number of chunks.
    ChunkCountMismatch,
    /// A chunk start does not fit the machine word.
    ChunkStartOverflow,
    /// A chunk length does not fit the machine word.
    ChunkLenOverflow,
    /// A chunk is empty.
    ChunkLenZero,
    /// A chunk end does not fit the machine word.
    ChunkEndOverflow,
    /// A chunk ends past the entries.
    ChunkEndOutOfBounds,
    /// A chunk names the wrong first sequence.
    ChunkFirstSequenceMismatch,
    /// A chunk names the wrong last sequence.
    ChunkLastSequenceMismatch,
    /// The chunks do not add up to the entries.
    ChunkTotalMismatch,
    /// A run start does not fit the machine word.
    EntityRunStartOverflow,
    /// A run length does not fit the machine word.
    EntityRunLenOverflow,
    /// A run is empty.
    EntityRunLenZero,
    /// A run end does not fit the machine word.
    EntityRunEndOverflow,
    /// A run ends past the entries.
    EntityRunEndOutOfBounds,
    /// The first or last entry of a run is of another entity.
    EntityRunEntityMismatch,
    /// A run names the wrong first sequence.
    EntityRunFirstSequenceMismatch,
    /// A run names the wrong last sequence.
    EntityRunLastSequenceMismatch,
    /// An inner entry of a run is of another entity.
    EntityRunInternalEntityMismatch,
    /// The runs do not add up to the entries.
    EntityRunTotalMismatch,
}

impl RoutingValidation {
    /// Whether the summary fits.
    pub fn is_valid(self) -> (r: bool)
        ensures
            r == (self is Valid),
    {
        matches!(self, RoutingValidation::Valid)
    }
}

/// `x` as a machine word, where it fits.
pub fn to_usize(x: u64) -> (r: Option<usize>)
    ensures
        r == (if x <= usize::MAX {
            Some(x as usize)
        } else {
            None
        }),
{
    if x <= usize::MAX as u64 {
        Some(x as usize)
    } else {
        None
    }
}

/// A corruption of the logical routing artifact, which has no segment.
fn corrupt_routing(detail: &str) -> (e: StoreError)
    ensures
        e matches StoreError::CorruptSegment { segment_id, detail: d } && segment_id == 0 && d@
            == detail@,
{
    StoreError::CorruptSegment { segment_id: 0, detail: detail.to_owned() }
}

impl EntityRun {
    /// The run as a range of machine-word indexes. A run that does not fit is
    /// corrupt.
    pub fn usize_range(&self) -> (r: Result<(usize, usize), StoreError>)
        ensures
            r is Ok <==> self.start + self.len <= usize::MAX,
            r matches Ok(range) ==> range.0 == self.start && range.1 == self.start + self.len,
            r matches Err(e) ==> e matches StoreError::CorruptSegment { segment_id, detail }
                && segment_id == 0 && detail@ == (if self.start > usize::MAX {
                "routing entity-run start exceeds usize"@
            } else if self.len > usize::MAX {
                "routing entity-run len exceeds usize"@
            } else {
                "routing entity-run start+len overflows usize"@
            }),
    {
        let start = match to_usize(self.start) {
            Some(start) => start,
            None => {
                return Err(corrupt_routing("routing entity-run start exceeds usize"));
            },
        };
        let len = match to_usize(self.len) {
            Some(len) => len,
            None => {
                return Err(corrupt_routing("routing entity-run len exceeds usize"));
            },
        };
        match start.checked_add(len) {
            Some(end) => Ok((start, end)),
            None => Err(corrupt_routing("routing entity-run start+len overflows usize")),
        }
    }
}

/// The fault of one chunk, where it has one.
pub open spec fn chunk_fault(
    chunk: RestoreChunkSummary,
    by_sequence: Seq<Arc<IndexEntry>>,
) -> Option<RoutingValidationError> {
    if chunk.start > usize::MAX {
        Some(RoutingValidationError::ChunkStartOverflow)
    } else if chunk.len > usize::MAX {
        Some(RoutingValidationError::ChunkLenOverflow)
    } else if chunk.start + chunk.len > usize::MAX {
        Some(RoutingValidationError::ChunkEndOverflow)
    } else if chunk.len == 0 {
        Some(RoutingValidationError::ChunkLenZero)
    } else if chunk.start + chunk.len > by_sequence.len() {
        Some(RoutingValidationError::ChunkEndOutOfBounds)
    } else if by_sequence[chunk.start as int].global_sequence != chunk.first_sequence {
        Some(RoutingValidationError::ChunkFirstSequenceMismatch)
    } else if by_sequence[chunk.start + chunk.len - 1].global_sequence != chunk.last_sequence {
        Some(RoutingValidationError::ChunkLastSequenceMismatch)
    } else {
        None
    }
}

/// The fault of one entity run, where it has one.
pub open spec fn run_fault(
    run: EntityRun,
    by_entity: Seq<Arc<IndexEntry>>,
) -> Option<RoutingValidationError> {
    if run.start > usize::MAX {
        Some(RoutingValidationError::EntityRunStartOverflow)
    } else if run.len > usize::MAX {
        Some(RoutingValidationError::EntityRunLenOverflow)
    } else if run.start + run.len > usize::MAX {
        Some(RoutingValidationError::EntityRunEndOverflow)
    } else if run.len == 0 {
        Some(RoutingValidationError::EntityRunLenZero)
    } else if run.start + run.len > by_entity.len() {
        Some(RoutingValidationError::EntityRunEndOutOfBounds)
    } else if by_entity[run.start as int].coord.entity_spec() != run.entity@
        || by_entity[run.start + run.len - 1].coord.entity_spec() != run.entity@ {
        Some(RoutingValidationError::EntityRunEntityMismatch)
    } else if by_entity[run.start as int].global_sequence != run.first_sequence {
        Some(RoutingValidationError::EntityRunFirstSequenceMismatch)
    } else if by_entity[run.start + run.len - 1].global_sequence != run.last_sequence {
        Some(RoutingValidationError::EntityRunLastSequenceMismatch)
    } else if exists|i: int|
        run.start <= i < run.start + run.len && (#[trigger] by_entity[i]).coord.entity_spec()
            != run.entity@ {
        Some(RoutingValidationError::EntityRunInternalEntityMismatch)
    } else {
        None
    }
}

/// The fault of the first chunk that has one.
pub open spec fn first_chunk_fault(
    chunks: Seq<RestoreChunkSummary>,
    by_sequence: Seq<Arc<IndexEntry>>,
) -> Option<RoutingValidationError>
    decreases chunks.len(),
{
    if chunks.len() == 0 {
        None
    } else {
        match first_chunk_fault(chunks.drop_last(), by_sequence) {
            Some(e) => Some(e),
            None => chunk_fault(chunks.last(), by_sequence),
        }
    }
}

/// The fault of the first run that has one.
pub open spec fn first_run_fault(
    runs: Seq<EntityRun>,
    by_entity: Seq<Arc<IndexEntry>>,
) -> Option<RoutingValidationError>
    decreases runs.len(),
{
    if runs.len() == 0 {
        None
    } else {
        match first_run_fault(runs.drop_last(), by_entity) {
            Some(e) => Some(e),
            None => run_fault(runs.last(), by_entity),
        }
    }
}

/// Number of entries that the chunks claim together.
pub open spec fn chunk_total(chunks: Seq<RestoreChunkSummary>) -> int
    decreases chunks.len(),
{
    if chunks.len() == 0 {
        0
    } else {
        chunk_total(chunks.drop_last()) + chunks.last().len
    }
}

/// Number of entries that the runs claim together.
pub open spec fn run_total(runs: Seq<EntityRun>) -> int
    decreases runs.len(),
{
    if runs.len() == 0 {
        0
    } else {
        run_total(runs.drop_last()) + runs.last().len
    }
}

impl RoutingSummary {
    /// The outcome of holding the summary against the entries: counts first,
    /// then the chunks in order, then the runs in order.
    pub open spec fn validation(
        &self,
        by_sequence: Seq<Arc<IndexEntry>>,
        by_entity: Seq<Arc<IndexEntry>>,
    ) -> RoutingValidation {
        if self.entry_count != by_sequence.len() || self.entry_count != by_entity.len() {
            RoutingValidation::Invalid(RoutingValidationError::EntryCountMismatch)
        } else if self.chunk_count != self.chunks@.len() {
            RoutingValidation::Invalid(RoutingValidationError::ChunkCountMismatch)
        } else if first_chunk_fault(self.chunks@, by_sequence) is Some {
            RoutingValidation::Invalid(first_chunk_fault(self.chunks@, by_sequence)->0)
        } else if chunk_total(self.chunks@) != by_sequence.len() {
            RoutingValidation::Invalid(RoutingValidationError::ChunkTotalMismatch)
        } else if first_run_fault(self.entity_runs@, by_entity) is Some {
            RoutingValidation::Invalid(first_run_fault(self.entity_runs@, by_entity)->0)
        } else if run_total(self.entity_runs@) != by_entity.len() {
            RoutingValidation::Invalid(RoutingValidationError::EntityRunTotalMismatch)
        } else {
            RoutingValidation::Valid
        }
    }

    /// The two summaries hold the same values.
    pub open spec fn same(&self, other: &RoutingSummary) -> bool {
        &&& self.entry_count == other.entry_count
        &&& self.chunk_count == other.chunk_count
        &&& self.chunks@ == other.chunks@
        &&& self.entity_runs@ == other.entity_runs@
    }

    /// Hold the summary against the entries and say whether it fits.
    pub fn validate(
        &self,
        entries_by_sequence: &Vec<Arc<IndexEntry>>,
        entries_by_entity: &Vec<Arc<IndexEntry>>,
    ) -> (r: bool)
        ensures
            r == (self.validation(entries_by_sequence@, entries_by_entity@) is Valid),
    {
        self.validate_detailed(entries_by_sequence, entries_by_entity).is_valid()
    }

    /// Hold the summary against the entries and say how it fails to fit.
    pub fn validate_detailed(
        &self,
        entries_by_sequence: &Vec<Arc<IndexEntry>>,
        entries_by_entity: &Vec<Arc<IndexEntry>>,
    ) -> (r: RoutingValidation)
        ensures
            r == self.validation(entries_by_sequence@, entries_by_entity@),
    {
        if self.entry_count != entries_by_sequence.len() as u64 || self.entry_count
            != entries_by_entity.len() as u64 {
            return RoutingValidation::Invalid(RoutingValidationError::EntryCountMismatch);
        }
        if self.chunk_count != self.chunks.len() as u64 {
            return RoutingValidation::Invalid(RoutingValidationError::ChunkCountMismatch);
        }
        let mut chunk_sum: u128 = 0;
        let mut i: usize = 0;
        while i < self.chunks.len()
            invariant
                i <= self.chunks@.len(),
                first_chunk_fault(self.chunks@.take(i as int), entries_by_sequence@) is None,
                chunk_sum == chunk_total(self.chunks@.take(i as int)),
                chunk_sum <= i * 0x1_0000_0000_0000_0000,
                self.entry_count == entries_by_sequence@.len(),
                self.entry_count == entries_by_entity@.len(),
                self.chunk_count == self.chunks@.len(),
            decreases self.chunks@.len() - i,
        {
            let ghost seen = self.chunks@.take(i + 1);
            assert(seen.drop_last() =~= self.chunks@.take(i as int));
            let fault = check_chunk(&self.chunks[i], entries_by_sequence);
            if let Some(error) = fault {
                proof {
                    lemma_first_chunk_fault_stays(self.chunks@, entries_by_sequence@, i + 1);
                }
                return RoutingValidation::Invalid(error);
            }
            chunk_sum = chunk_sum + self.chunks[i].len as u128;
            i += 1;
        }
        assert(self.chunks@.take(self.chunks@.len() as int) =~= self.chunks@);
        if chunk_sum != entries_by_sequence.len() as u128 {
            return RoutingValidation::Invalid(RoutingValidationError::ChunkTotalMismatch);
        }
        let mut run_sum: u128 = 0;
        let mut k: usize = 0;
        while k < self.entity_runs.len()
            invariant
                k <= self.entity_runs@.len(),
                first_chunk_fault(self.chunks@, entries_by_sequence@) is None,
                chunk_total(self.chunks@) == entries_by_sequence@.len(),
                first_run_fault(self.entity_runs@.take(k as int), entries_by_entity@) is None,
                run_sum == run_total(self.entity_runs@.take(k as int)),
                run_sum <= k * 0x1_0000_0000_0000_0000,
                self.entry_count == entries_by_sequence@.len(),
                self.entry_count == entries_by_entity@.len(),
                self.chunk_count == self.chunks@.len(),
            decreases self.entity_runs@.len() - k,
        {
            let ghost seen = self.entity_runs@.take(k + 1);
            assert(seen.drop_last() =~= self.entity_runs@.take(k as int));
            let fault = check_run(&self.entity_runs[k], entries_by_entity);
            if let Some(error) = fault {
                proof {
                    lemma_first_run_fault_stays(self.entity_runs@, entries_by_entity@, k + 1);
                }
                return RoutingValidation::Invalid(error);
            }
            run_sum = run_sum + self.entity_runs[k].len as u128;
            k += 1;
        }
        assert(self.entity_runs@.take(self.entity_runs@.len() as int) =~= self.entity_runs@);
        if run_sum == entries_by_entity.len() as u128 {
            RoutingValidation::Valid
        } else {
            RoutingValidation::Invalid(RoutingValidationError::EntityRunTotalMismatch)
        }
    }
}

proof fn lemma_first_chunk_fault_stays(
    chunks: Seq<RestoreChunkSummary>,
    by_sequence: Seq<Arc<IndexEntry>>,
    i: int,
)
    requires
        0 <= i <= chunks.len(),
        first_chunk_fault(chunks.take(i), by_sequence) is Some,
    ensures
        first_chunk_fault(chunks, by_sequence) == first_chunk_fault(chunks.take(i), by_sequence),
    decreases chunks.len() - i,
{
    if i == chunks.len() {
        assert(chunks.take(i) =~= chunks);
    } else {
        assert(chunks.take(i + 1).drop_last() =~= chunks.take(i));
        lemma_first_chunk_fault_stays(chunks, by_sequence, i + 1);
    }
}

proof fn lemma_first_run_fault_stays(
    runs: Seq<EntityRun>,
    by_entity: Seq<Arc<IndexEntry>>,
    i: int,
)
    requires
        0 <= i <= runs.len(),
        first_run_fault(runs.take(i), by_entity) is Some,
    ensures
        first_run_fault(runs, by_entity) == first_run_fault(runs.take(i), by_entity),
    decreases runs.len() - i,
{
    if i == runs.len() {
        assert(runs.take(i) =~= runs);
    } else {
        assert(runs.take(i + 1).drop_last() =~= runs.take(i));
        lemma_first_run_fault_stays(runs, by_entity, i + 1);
    }
}

/// The fault of one chunk, where it has one.
fn check_chunk(chunk: &RestoreChunkSummary, by_sequence: &Vec<Arc<IndexEntry>>) -> (r: Option<
    RoutingValidationError,
>)
    ensures
        r == chunk_fault(*chunk, by_sequence@),
{
    let start = match to_usize(chunk.start) {
        Some(start) => start,
        None => {
            return Some(RoutingValidationError::ChunkStartOverflow);
        },
    };
    let len = match to_usize(chunk.len) {
        Some(len) => len,
        None => {
            return Some(RoutingValidationError::ChunkLenOverflow);
        },
    };
    let end = match start.checked_add(len) {
        Some(end) => end,
        None => {
            return Some(RoutingValidationError::ChunkEndOverflow);
        },
    };
    if len == 0 {
        return Some(RoutingValidationError::ChunkLenZero);
    }
    if end > by_sequence.len() {
        return Some(RoutingValidationError::ChunkEndOutOfBounds);
    }
    if by_sequence[start].global_sequence != chunk.first_sequence {
        return Some(RoutingValidationError::ChunkFirstSequenceMismatch);
    }
    if by_sequence[end - 1].global_sequence != chunk.last_sequence {
        return Some(RoutingValidationError::ChunkLastSequenceMismatch);
    }
    None
}

/// The fault of one run, where it has one.
fn check_run(run: &EntityRun, by_entity: &Vec<Arc<IndexEntry>>) -> (r: Option<
    RoutingValidationError,
>)
    ensures
        r == run_fault(*run, by_entity@),
{
    let start = match to_usize(run.start) {
        Some(start) => start,
        None => {
            return Some(RoutingValidationError::EntityRunStartOverflow);
        },
    };
    let len = match to_usize(run.len) {
        Some(len) => len,
        None => {
            return Some(RoutingValidationError::EntityRunLenOverflow);
        },
    };
    let end = match start.checked_add(len) {
        Some(end) => end,
        None => {
            return Some(RoutingValidationError::EntityRunEndOverflow);
        },
    };
    if len == 0 {
        return Some(RoutingValidationError::EntityRunLenZero);
    }
    if end > by_entity.len() {
        return Some(RoutingValidationError::EntityRunEndOutOfBounds);
    }
    let entity = run.entity.as_str();
    if !str_equal(by_entity[start].coord.entity(), entity) || !str_equal(
        by_entity[end - 1].coord.entity(),
        entity,
    ) {
        return Some(RoutingValidationError::EntityRunEntityMismatch);
    }
    if by_entity[start].global_sequence != run.first_sequence {
        return Some(RoutingValidationError::EntityRunFirstSequenceMismatch);
    }
    if by_entity[end - 1].global_sequence != run.last_sequence {
        return Some(RoutingValidationError::EntityRunLastSequenceMismatch);
    }
    let mut i: usize = start;
    while i < end
        invariant
            start == run.start,
            end == run.start + run.len,
            start <= i <= end <= by_entity@.len(),
            entity@ == run.entity@,
            forall|k: int|
                start <= k < i ==> (#[trigger] by_entity@[k]).coord.entity_spec() == entity@,
            run.len > 0,
            run.start + run.len <= usize::MAX,
            by_entity@[run.start as int].coord.entity_spec() == run.entity@,
            by_entity@[run.start + run.len - 1].coord.entity_spec() == run.entity@,
            by_entity@[run.start as int].global_sequence == run.first_sequence,
            by_entity@[run.start + run.len - 1].global_sequence == run.last_sequence,
        decreases end - i,
    {
        if !str_equal(by_entity[i].coord.entity(), entity) {
            assert(by_entity@[i as int].coord.entity_spec() != run.entity@);
            return Some(RoutingValidationError::EntityRunInternalEntityMismatch);
        }
        i += 1;
    }
    None
}

/// Number of non-empty parts when `n` entries are split into `c` even parts.
pub open spec fn split_count(n: int, c: int) -> int {
    if n < c {
        n
    } else {
        c
    }
}

/// First index of part `i`: earlier parts take the remainder, one each.
pub open spec fn split_start(n: int, c: int, i: int) -> int {
    i * (n / c) + (if i < n % c {
        i
    } else {
        n % c
    })
}

/// Number of entries of part `i`.
pub open spec fn split_len(n: int, c: int, i: int) -> int {
    n / c + (if i < n % c {
        1int
    } else {
        0int
    })
}

/// An even split covers the entries without gap or overlap, and its lengths
/// differ by at most one.
pub proof fn law_even_split_partitions(n: int, c: int, i: int)
    requires
        0 <= n,
        0 < c,
        0 <= i < c,
    ensures
        split_start(n, c, 0) == 0,
        split_start(n, c, i + 1) == split_start(n, c, i) + split_len(n, c, i),
        split_start(n, c, split_count(n, c)) == n,
        i < split_count(n, c) ==> split_len(n, c, i) > 0,
        n / c <= split_len(n, c, i) <= n / c + 1,
        i < split_count(n, c) ==> 0 <= split_start(n, c, i) && split_start(n, c, i) + split_len(
            n,
            c,
            i,
        ) <= n,
    decreases c - i,
{
    let base = n / c;
    let rem = n % c;
    assert(n == c * base + rem && 0 <= rem < c && 0 <= base) by (nonlinear_arith)
        requires
            0 <= n,
            0 < c,
            base == n / c,
            rem == n % c,
    ;
    assert(0 * base == 0) by (nonlinear_arith);
    assert((i + 1) * base == i * base + base) by (nonlinear_arith);
    if n < c {
        assert(base == 0 && rem == n) by (nonlinear_arith)
            requires
                0 <= n < c,
                base == n / c,
                rem == n % c,
        ;
        assert(n * base == 0 && i * base == 0 && (i + 1) * base == 0) by (nonlinear_arith)
            requires
                base == 0,
        ;
    } else {
        assert(base >= 1) by (nonlinear_arith)
            requires
                n >= c,
                0 < c,
                base == n / c,
        ;
        assert((i + 1) * base <= c * base && 0 <= i * base) by (nonlinear_arith)
            requires
                0 <= i < c,
                0 <= base,
        ;
    }
}

/// Split `n` entries into `c` even parts and drop the empty ones.
fn even_split(n: usize, c: usize) -> (ranges: Vec<(usize, usize)>)
    requires
        c > 0,
    ensures
        ranges@.len() == split_count(n as int, c as int),
        forall|i: int|
            0 <= i < ranges@.len() ==> (#[trigger] ranges@[i]).0 == split_start(
                n as int,
                c as int,
                i,
            ) && ranges@[i].1 == split_len(n as int, c as int, i),
{
    let base: usize = n / c;
    let remainder: usize = n % c;
    let count: usize = if n < c {
        n
    } else {
        c
    };
    let mut ranges: Vec<(usize, usize)> = Vec::new();
    let mut start: usize = 0;
    let mut k: usize = 0;
    proof {
        law_even_split_partitions(n as int, c as int, 0);
    }
    while k < count
        invariant
            c > 0,
            base == n / c,
            remainder == n % c,
            count == split_count(n as int, c as int),
            k <= count,
            start == split_start(n as int, c as int, k as int),
            ranges@.len() == k,
            forall|i: int|
                0 <= i < k ==> (#[trigger] ranges@[i]).0 == split_start(n as int, c as int, i)
                    && ranges@[i].1 == split_len(n as int, c as int, i),
        decreases count - k,
    {
        proof {
            law_even_split_partitions(n as int, c as int, k as int);
        }
        let len: usize = if k < remainder {
            base + 1
        } else {
            base
        };
        ranges.push((start, len));
        start = start + len;
        k += 1;
    }
    ranges
}

/// The runs partition the first `upto` entries into maximal stretches of one
/// entity.
pub open spec fn are_runs(
    runs: Seq<EntityRun>,
    by_entity: Seq<Arc<IndexEntry>>,
    upto: int,
) -> bool {
    &&& forall|i: int| 0 <= i < runs.len() ==> is_run(#[trigger] runs[i], by_entity)
    &&& runs.len() == 0 ==> upto == 0
    &&& runs.len() > 0 ==> runs[0].start == 0 && runs.last().start + runs.last().len == upto
    &&& forall|i: int, j: int|
        #![trigger runs[i], runs[j]]
        0 <= i && j == i + 1 && j < runs.len() ==> runs[j].start == runs[i].start + runs[i].len
            && runs[j].entity@ != runs[i].entity@
}

/// The run names a non-empty stretch of one entity, and its bounding sequences.
pub open spec fn is_run(run: EntityRun, by_entity: Seq<Arc<IndexEntry>>) -> bool {
    &&& run.len > 0
    &&& run.start + run.len <= by_entity.len()
    &&& forall|k: int|
        run.start <= k < run.start + run.len ==> (#[trigger] by_entity[k]).coord.entity_spec()
            == run.entity@
    &&& run.first_sequence == by_entity[run.start as int].global_sequence
    &&& run.last_sequence == by_entity[run.start + run.len - 1].global_sequence
}

/// The chunks split the entries evenly into `c` parts.
pub open spec fn are_chunks(
    chunks: Seq<RestoreChunkSummary>,
    by_sequence: Seq<Arc<IndexEntry>>,
    c: int,
) -> bool {
    let n = by_sequence.len() as int;
    &&& chunks.len() == split_count(n, c)
    &&& forall|i: int|
        0 <= i < chunks.len() ==> {
            &&& (#[trigger] chunks[i]).start == split_start(n, c, i)
            &&& chunks[i].len == split_len(n, c, i)
            &&& chunks[i].first_sequence == by_sequence[split_start(n, c, i)].global_sequence
            &&& chunks[i].last_sequence == by_sequence[split_start(n, c, i) + split_len(
                n,
                c,
                i,
            ) - 1].global_sequence
        }
}

impl RoutingSummary {
    /// The summary of the entries, split into `chunk_count` chunks.
    pub open spec fn routes(
        &self,
        by_sequence: Seq<Arc<IndexEntry>>,
        by_entity: Seq<Arc<IndexEntry>>,
        chunk_count: int,
    ) -> bool {
        &&& self.entry_count == by_entity.len()
        &&& self.chunk_count == self.chunks@.len()
        &&& are_chunks(
            self.chunks@,
            by_sequence,
            if chunk_count < 1 {
                1
            } else {
                chunk_count
            },
        )
        &&& are_runs(self.entity_runs@, by_entity, by_entity.len() as int)
    }

    /// Summarise entries given in sequence order and in entity order.
    pub fn from_entries(
        entries_by_sequence: &Vec<Arc<IndexEntry>>,
        entries_by_entity: &Vec<Arc<IndexEntry>>,
        chunk_count: usize,
    ) -> (r: RoutingSummary)
        ensures
            r.routes(entries_by_sequence@, entries_by_entity@, chunk_count as int),
    {
        let chunk_count: usize = if chunk_count < 1 {
            1
        } else {
            chunk_count
        };
        let mut entity_runs: Vec<EntityRun> = Vec::new();
        let mut cursor: usize = 0;
        while cursor < entries_by_entity.len()
            invariant
                cursor <= entries_by_entity@.len(),
                are_runs(entity_runs@, entries_by_entity@, cursor as int),
                cursor > 0 && cursor < entries_by_entity@.len() ==> entity_runs@.last().entity@
                    != entries_by_entity@[cursor as int].coord.entity_spec(),
            decreases entries_by_entity@.len() - cursor,
        {
            let entity = entries_by_entity[cursor].coord.entity().to_owned();
            let start: usize = cursor;
            let first_sequence: u64 = entries_by_entity[cursor].global_sequence;
            cursor += 1;
            while cursor < entries_by_entity.len() && str_equal(
                entries_by_entity[cursor].coord.entity(),
                entity.as_str(),
            )
                invariant
                    start < cursor <= entries_by_entity@.len(),
                    forall|k: int|
                        start <= k < cursor ==> (#[trigger] entries_by_entity@[k])
                            .coord.entity_spec() == entity@,
                decreases entries_by_entity@.len() - cursor,
            {
                cursor += 1;
            }
            let last_sequence: u64 = entries_by_entity[cursor - 1].global_sequence;
            let ghost before = entity_runs@;
            entity_runs.push(
                EntityRun {
                    entity,
                    start: start as u64,
                    len: (cursor - start) as u64,
                    first_sequence,
                    last_sequence,
                },
            );
            proof {
                let run = entity_runs@.last();
                assert(is_run(run, entries_by_entity@));
                assert forall|i: int| 0 < i < entity_runs@.len() implies (
                #[trigger] entity_runs@[i]).start == entity_runs@[i - 1].start
                    + entity_runs@[i - 1].len && entity_runs@[i].entity@
                    != entity_runs@[i - 1].entity@ by {
                    if i < before.len() {
                        assert(entity_runs@[i] == before[i]);
                        assert(entity_runs@[i - 1] == before[i - 1]);
                    } else {
                        assert(entity_runs@[i - 1] == before.last());
                    }
                }
                assert forall|i: int| 0 <= i < entity_runs@.len() implies is_run(
                    #[trigger] entity_runs@[i],
                    entries_by_entity@,
                ) by {
                    if i < before.len() {
                        assert(entity_runs@[i] == before[i]);
                    }
                }
            }
        }
        let split = even_split(entries_by_sequence.len(), chunk_count);
        let mut chunks: Vec<RestoreChunkSummary> = Vec::new();
        let ghost n = entries_by_sequence@.len() as int;
        let ghost c = chunk_count as int;
        let mut k: usize = 0;
        while k < split.len()
            invariant
                n == entries_by_sequence@.len(),
                n <= usize::MAX,
                c == chunk_count,
                c > 0,
                k <= split@.len(),
                split@.len() == split_count(n, c),
                chunks@.len() == k,
                forall|i: int|
                    0 <= i < split@.len() ==> (#[trigger] split@[i]).0 == split_start(n, c, i)
                        && split@[i].1 == split_len(n, c, i),
                forall|i: int|
                    0 <= i < k ==> {
                        &&& (#[trigger] chunks@[i]).start == split_start(n, c, i)
                        &&& chunks@[i].len == split_len(n, c, i)
                        &&& chunks@[i].first_sequence == entries_by_sequence@[split_start(
                            n,
                            c,
                            i,
                        )].global_sequence
                        &&& chunks@[i].last_sequence == entries_by_sequence@[split_start(n, c, i)
                            + split_len(n, c, i) - 1].global_sequence
                    },
            decreases split@.len() - k,
        {
            let (start, len) = split[k];
            proof {
                law_even_split_partitions(n, c, k as int);
                assert(split@[k as int] == (start, len));
            }
            let end: usize = start + len;
            chunks.push(
                RestoreChunkSummary {
                    start: start as u64,
                    len: len as u64,
                    first_sequence: entries_by_sequence[start].global_sequence,
                    last_sequence: entries_by_sequence[end - 1].global_sequence,
                },
            );
            k += 1;
        }
        RoutingSummary {
            entry_count: entries_by_entity.len() as u64,
            chunk_count: chunks.len() as u64,
            chunks,
            entity_runs,
        }
    }

    /// Summarise entries given in sequence order.
    pub fn from_sorted_entries(entries: &Vec<IndexEntry>, chunk_count: usize) -> (r:
        RoutingSummary)
        ensures
            exists|by_sequence: Seq<Arc<IndexEntry>>, by_entity: Seq<Arc<IndexEntry>>|
                shares(by_sequence, entries@) && #[trigger] crate::sort::is_stable_sort(
                    by_entity,
                    by_sequence,
                ) && r.routes(by_sequence, by_entity, chunk_count as int),
    {
        let mut by_sequence: Vec<Arc<IndexEntry>> = Vec::new();
        let mut i: usize = 0;
        while i < entries.len()
            invariant
                i <= entries@.len(),
                by_sequence@.len() == i,
                forall|k: int| 0 <= k < i ==> (#[trigger] by_sequence@[k]).same(&entries@[k]),
            decreases entries@.len() - i,
        {
            by_sequence.push(Arc::new(entries[i].clone()));
            i += 1;
        }
        let by_entity = stable_sort(&by_sequence);
        RoutingSummary::from_entries(&by_sequence, &by_entity, chunk_count)
    }
}

/// The shared entries hold the same values as the entries, in order.
pub open spec fn shares(shared: Seq<Arc<IndexEntry>>, entries: Seq<IndexEntry>) -> bool {
    &&& shared.len() == entries.len()
    &&& forall|i: int| 0 <= i < shared.len() ==> (#[trigger] shared[i]).same(&entries[i])
}

impl Clone for RoutingSummary {
    fn clone(&self) -> (r: RoutingSummary)
        ensures
            r.same(self),
    {
        let mut chunks: Vec<RestoreChunkSummary> = Vec::new();
        let mut i: usize = 0;
        while i < self.chunks.len()
            invariant
                i <= self.chunks@.len(),
                chunks@ == self.chunks@.take(i as int),
            decreases self.chunks@.len() - i,
        {
            chunks.push(self.chunks[i]);
            i += 1;
            assert(chunks@ =~= self.chunks@.take(i as int));
        }
        let mut entity_runs: Vec<EntityRun> = Vec::new();
        let mut k: usize = 0;
        while k < self.entity_runs.len()
            invariant
                k <= self.entity_runs@.len(),
                entity_runs@ == self.entity_runs@.take(k as int),
            decreases self.entity_runs@.len() - k,
        {
            entity_runs.push(self.entity_runs[k].clone());
            k += 1;
            assert(entity_runs@ =~= self.entity_runs@.take(k as int));
        }
        assert(chunks@ =~= self.chunks@);
        assert(entity_runs@ =~= self.entity_runs@);
        RoutingSummary {
            entry_count: self.entry_count,
            chunk_count: self.chunk_count,
            chunks,
            entity_runs,
        }
    }
}

/// Sort shared entries by entity, and within one entity by clock key.
pub fn sort_entries_by_entity(entries: &mut Vec<Arc<IndexEntry>>)
    ensures
        crate::sort::is_stable_sort(final(entries)@, old(entries)@),
{
    let sorted = stable_sort(entries);
    *entries = sorted;
}

/// Everything that a restore rebuilds the index from.
pub struct RestoreBase {
    /// The entries in sequence order.
    pub entries_by_sequence: Vec<Arc<IndexEntry>>,
    /// The entries in entity order.
    pub entries_by_entity: Vec<Arc<IndexEntry>>,
    /// The routing of both orders.
    pub routing: RoutingSummary,
}

impl RestoreBase {
    /// The entries in both orders, and their routing: the hint where it fits,
    /// and else a summary made from the entries.
    pub open spec fn prepares(
        &self,
        entries: Seq<IndexEntry>,
        chunk_count: int,
        routing_hint: Option<&RoutingSummary>,
    ) -> bool {
        &&& self.entries_by_sequence@.len() == entries.len()
        &&& forall|i: int|
            0 <= i < entries.len() ==> *(#[trigger] self.entries_by_sequence@[i]) == entries[i]
        &&& crate::sort::is_stable_sort(self.entries_by_entity@, self.entries_by_sequence@)
        &&& if routing_hint is Some && routing_hint->0.validation(
            self.entries_by_sequence@,
            self.entries_by_entity@,
        ) is Valid {
            self.routing.same(routing_hint->0)
        } else {
            self.routing.routes(
                self.entries_by_sequence@,
                self.entries_by_entity@,
                chunk_count,
            )
        }
    }

    /// Every run names a stretch of one entity.
    pub proof fn lemma_runs(
        &self,
        entries: Seq<IndexEntry>,
        chunk_count: int,
        routing_hint: Option<&RoutingSummary>,
    )
        requires
            self.prepares(entries, chunk_count, routing_hint),
        ensures
            self.entries_by_entity@.len() == self.entries_by_sequence@.len(),
            forall|i: int|
                0 <= i < self.routing.entity_runs@.len() ==> is_run(
                    #[trigger] self.routing.entity_runs@[i],
                    self.entries_by_entity@,
                ),
    {
        self.entries_by_entity@.to_multiset_ensures();
        self.entries_by_sequence@.to_multiset_ensures();
        if routing_hint is Some && routing_hint->0.validation(
            self.entries_by_sequence@,
            self.entries_by_entity@,
        ) is Valid {
            lemma_faultless_runs(self.routing.entity_runs@, self.entries_by_entity@);
        }
    }

    /// Prepare a restore. A routing hint is used where it fits the entries, and
    /// is rebuilt otherwise.
    pub fn from_sorted_entries(
        entries: Vec<IndexEntry>,
        chunk_count: usize,
        routing_hint: Option<&RoutingSummary>,
    ) -> (r: RestoreBase)
        ensures
            r.prepares(entries@, chunk_count as int, routing_hint),
    {
        let mut entries_by_sequence: Vec<Arc<IndexEntry>> = Vec::new();
        let ghost all = entries@;
        for entry in it: entries.into_iter()
            invariant
                it.seq() == all,
                entries_by_sequence@.len() == it.index(),
                forall|i: int|
                    0 <= i < it.index() ==> *(#[trigger] entries_by_sequence@[i]) == all[i],
        {
            entries_by_sequence.push(Arc::new(entry));
        }
        let entries_by_entity = stable_sort(&entries_by_sequence);
        if let Some(hint) = routing_hint {
            if hint.validate_detailed(&entries_by_sequence, &entries_by_entity).is_valid() {
                return RestoreBase {
                    routing: hint.clone(),
                    entries_by_sequence,
                    entries_by_entity,
                };
            }
        }
        let routing = RoutingSummary::from_entries(
            &entries_by_sequence,
            &entries_by_entity,
            chunk_count,
        );
        RestoreBase { routing, entries_by_sequence, entries_by_entity }
    }
}

proof fn lemma_faultless_runs(runs: Seq<EntityRun>, by_entity: Seq<Arc<IndexEntry>>)
    requires
        first_run_fault(runs, by_entity) is None,
    ensures
        forall|i: int| 0 <= i < runs.len() ==> is_run(#[trigger] runs[i], by_entity),
    decreases runs.len(),
{
    if runs.len() > 0 {
        lemma_faultless_runs(runs.drop_last(), by_entity);
        assert forall|i: int| 0 <= i < runs.len() implies is_run(
            #[trigger] runs[i],
            by_entity,
        ) by {
            if i < runs.len() - 1 {
                assert(runs.drop_last()[i] == runs[i]);
            }
        }
    }
}

/// Number of chunks to split `n` entries into: one for each 65536 of them, at
/// least one and at most 32.
pub open spec fn recommended_chunks(n: int) -> int {
    let chunks = (n + 65535) / 65536;
    if chunks < 1 {
        1
    } else if chunks > 32 {
        32
    } else {
        chunks
    }
}

/// Number of chunks to split `entry_count` entries into.
pub fn recommended_restore_chunk_count(entry_count: usize) -> (r: usize)
    ensures
        r == recommended_chunks(entry_count as int),
        1 <= r <= 32,
{
    let whole: usize = entry_count / 65_536;
    let chunks: usize = if entry_count % 65_536 == 0 {
        whole
    } else {
        whole + 1
    };
    if chunks < 1 {
        1
    } else if chunks > 32 {
        32
    } else {
        chunks
    }
}

/// The chunks follow each other from zero, none is empty, and the last ends at
/// `upto`.
pub open spec fn chunks_chain(chunks: Seq<RestoreChunkSummary>, upto: int) -> bool
    decreases chunks.len(),
{
    if chunks.len() == 0 {
        upto == 0
    } else {
        &&& chunks.last().len > 0
        &&& chunks.last().start + chunks.last().len == upto
        &&& chunks_chain(chunks.drop_last(), chunks.last().start as int)
    }
}

/// The index ranges that decode work is split into: those of the summary where
/// they chain over the entries, and an even split otherwise.
pub fn restore_chunk_ranges(entry_count: usize, routing: &RoutingSummary) -> (ranges: Vec<
    (usize, usize),
>)
    ensures
        routing.chunks@.len() > 0 && chunks_chain(routing.chunks@, entry_count as int) ==> {
            &&& ranges@.len() == routing.chunks@.len()
            &&& forall|i: int|
                0 <= i < ranges@.len() ==> (#[trigger] ranges@[i]).0 == routing.chunks@[i].start
                    && ranges@[i].1 == routing.chunks@[i].len
        },
        !(routing.chunks@.len() > 0 && chunks_chain(routing.chunks@, entry_count as int)) ==> {
            let c = recommended_chunks(entry_count as int);
            &&& ranges@.len() == split_count(entry_count as int, c)
            &&& forall|i: int|
                0 <= i < ranges@.len() ==> (#[trigger] ranges@[i]).0 == split_start(
                    entry_count as int,
                    c,
                    i,
                ) && ranges@[i].1 == split_len(entry_count as int, c, i)
        },
{
    if routing.chunks.len() == 0 {
        return even_split(entry_count, recommended_restore_chunk_count(entry_count));
    }
    let mut ranges: Vec<(usize, usize)> = Vec::new();
    let mut expected_start: usize = 0;
    let mut i: usize = 0;
    while i < routing.chunks.len()
        invariant
            routing.chunks@.len() > 0,
            i <= routing.chunks@.len(),
            expected_start <= entry_count,
            chunks_chain(routing.chunks@.take(i as int), expected_start as int),
            ranges@.len() == i,
            forall|k: int|
                0 <= k < i ==> (#[trigger] ranges@[k]).0 == routing.chunks@[k].start
                    && ranges@[k].1 == routing.chunks@[k].len,
        decreases routing.chunks@.len() - i,
    {
        let chunk = routing.chunks[i];
        assert(routing.chunks@.take(i + 1).drop_last() =~= routing.chunks@.take(i as int));
        let range = match (to_usize(chunk.start), to_usize(chunk.len)) {
            (Some(start), Some(len)) => match start.checked_add(len) {
                Some(end) => if len == 0 || start != expected_start || end > entry_count {
                    None
                } else {
                    Some((start, len, end))
                },
                None => None,
            },
            _ => None,
        };
        match range {
            Some((start, len, end)) => {
                ranges.push((start, len));
                expected_start = end;
            },
            None => {
                proof {
                    if chunks_chain(routing.chunks@, entry_count as int) {
                        lemma_chain_prefix(routing.chunks@, entry_count as int, i + 1);
                        lemma_chain_prefix(routing.chunks@, entry_count as int, i as int);
                        let e = routing.chunks@.take(i + 1).last();
                        lemma_chain_end_unique(
                            routing.chunks@.take(i as int),
                            expected_start as int,
                            chunk.start as int,
                        );
                        assert(false);
                    }
                }
                return even_split(entry_count, recommended_restore_chunk_count(entry_count));
            },
        }
        i += 1;
    }
    assert(routing.chunks@.take(routing.chunks@.len() as int) =~= routing.chunks@);
    if expected_start == entry_count {
        ranges
    } else {
        proof {
            if chunks_chain(routing.chunks@, entry_count as int) {
                lemma_chain_end_unique(
                    routing.chunks@,
                    expected_start as int,
                    entry_count as int,
                );
            }
        }
        even_split(entry_count, recommended_restore_chunk_count(entry_count))
    }
}

/// A chain ends in one place.
proof fn lemma_chain_end_unique(chunks: Seq<RestoreChunkSummary>, a: int, b: int)
    requires
        chunks_chain(chunks, a),
        chunks_chain(chunks, b),
    ensures
        a == b,
{
}

/// Every non-empty prefix of a chain is a chain that ends inside.
proof fn lemma_chain_prefix(chunks: Seq<RestoreChunkSummary>, upto: int, i: int)
    requires
        chunks_chain(chunks, upto),
        0 <= i <= chunks.len(),
    ensures
        i > 0 ==> chunks_chain(
            chunks.take(i),
            chunks[i - 1].start + chunks[i - 1].len,
        ) && chunks[i - 1].start + chunks[i - 1].len <= upto && chunks[i - 1].len > 0,
        i < chunks.len() ==> chunks_chain(chunks.take(i), chunks[i].start as int),
    decreases chunks.len() - i,
{
    if i == chunks.len() {
        assert(chunks.take(i) =~= chunks);
    } else {
        lemma_chain_prefix(chunks, upto, i + 1);
        assert(chunks.take(i + 1).drop_last() =~= chunks.take(i));
        assert(chunks.take(i + 1).last() == chunks[i]);
        assert(chunks_chain(chunks.take(i), chunks[i].start as int));
        if i > 0 {
            assert(chunks.take(i).last() == chunks[i - 1]);
            assert(chunks[i - 1].start + chunks[i - 1].len == chunks[i].start);
        }
    }
}

/// A summary made from the entries always fits them.
pub proof fn law_built_summary_validates(
    summary: RoutingSummary,
    by_sequence: Seq<Arc<IndexEntry>>,
    by_entity: Seq<Arc<IndexEntry>>,
    chunk_count: int,
)
    requires
        summary.routes(by_sequence, by_entity, chunk_count),
        by_sequence.len() == by_entity.len(),
        by_entity.len() <= usize::MAX,
    ensures
        summary.validation(by_sequence, by_entity) is Valid,
{
    let c = if chunk_count < 1 {
        1
    } else {
        chunk_count
    };
    let n = by_sequence.len() as int;
    lemma_chunks_fit(summary.chunks@, by_sequence, c, summary.chunks@.len() as int);
    assert(summary.chunks@.take(summary.chunks@.len() as int) =~= summary.chunks@);
    law_even_split_partitions(n, c, 0);
    lemma_runs_fit(
        summary.entity_runs@,
        by_entity,
        by_entity.len() as int,
        summary.entity_runs@.len() as int,
    );
    assert(summary.entity_runs@.take(summary.entity_runs@.len() as int)
        =~= summary.entity_runs@);
}

proof fn lemma_chunks_fit(
    chunks: Seq<RestoreChunkSummary>,
    by_sequence: Seq<Arc<IndexEntry>>,
    c: int,
    i: int,
)
    requires
        c > 0,
        are_chunks(chunks, by_sequence, c),
        0 <= i <= chunks.len(),
        by_sequence.len() <= usize::MAX,
    ensures
        first_chunk_fault(chunks.take(i), by_sequence) is None,
        chunk_total(chunks.take(i)) == split_start(by_sequence.len() as int, c, i),
        chunks_chain(chunks.take(i), split_start(by_sequence.len() as int, c, i)),
    decreases i,
{
    let n = by_sequence.len() as int;
    if i > 0 {
        lemma_chunks_fit(chunks, by_sequence, c, i - 1);
        assert(chunks.take(i).drop_last() =~= chunks.take(i - 1));
        assert(chunks.take(i).last() == chunks[i - 1]);
        law_even_split_partitions(n, c, i - 1);
        assert(chunk_fault(chunks[i - 1], by_sequence) is None);
    } else {
        law_even_split_partitions(n, c, 0);
    }
}

proof fn lemma_runs_fit(
    runs: Seq<EntityRun>,
    by_entity: Seq<Arc<IndexEntry>>,
    upto: int,
    i: int,
)
    requires
        are_runs(runs, by_entity, upto),
        0 <= i <= runs.len(),
        by_entity.len() <= usize::MAX,
    ensures
        first_run_fault(runs.take(i), by_entity) is None,
        run_total(runs.take(i)) == (if i == 0 {
            0
        } else {
            runs[i - 1].start + runs[i - 1].len
        }),
    decreases i,
{
    if i > 0 {
        lemma_runs_fit(runs, by_entity, upto, i - 1);
        assert(runs.take(i).drop_last() =~= runs.take(i - 1));
        assert(runs.take(i).last() == runs[i - 1]);
        assert(is_run(runs[i - 1], by_entity));
        assert(run_fault(runs[i - 1], by_entity) is None);
        if i > 1 {
            assert(runs[i - 1].start == runs[i - 2].start + runs[i - 2].len);
        }
    }
}

/// The chunks of a summary made from the entries chain over them, so that decode
/// work follows the persisted chunks.
pub proof fn law_built_chunks_chain(
    summary: RoutingSummary,
    by_sequence: Seq<Arc<IndexEntry>>,
    by_entity: Seq<Arc<IndexEntry>>,
    chunk_count: int,
)
    requires
        summary.routes(by_sequence, by_entity, chunk_count),
        by_sequence.len() <= usize::MAX,
    ensures
        chunks_chain(summary.chunks@, by_sequence.len() as int),
{
    let c = if chunk_count < 1 {
        1
    } else {
        chunk_count
    };
    lemma_chunks_fit(summary.chunks@, by_sequence, c, summary.chunks@.len() as int);
    assert(summary.chunks@.take(summary.chunks@.len() as int) =~= summary.chunks@);
    law_even_split_partitions(by_sequence.len() as int, c, 0);
}

/// Chunks that chain over the entries place every entry in exactly one chunk.
pub proof fn law_chain_covers_once(chunks: Seq<RestoreChunkSummary>, upto: int, x: int)
    requires
        chunks_chain(chunks, upto),
        0 <= x < upto,
    ensures
        exists|i: int|
            0 <= i < chunks.len() && (#[trigger] chunks[i]).start <= x < chunks[i].start
                + chunks[i].len,
        forall|i: int, j: int|
            0 <= i < chunks.len() && 0 <= j < chunks.len() && (#[trigger] chunks[i]).start <= x
                < chunks[i].start + chunks[i].len && (#[trigger] chunks[j]).start <= x
                < chunks[j].start + chunks[j].len ==> i == j,
    decreases chunks.len(),
{
    let last = chunks.len() - 1;
    let head = chunks.drop_last();
    lemma_chain_within(chunks, upto);
    lemma_chain_within(head, chunks[last].start as int);
    if x >= chunks[last].start {
        assert(chunks[last].start <= x < chunks[last].start + chunks[last].len);
    } else {
        law_chain_covers_once(head, chunks[last].start as int, x);
        let i = choose|i: int|
            0 <= i < head.len() && (#[trigger] head[i]).start <= x < head[i].start + head[i].len;
        assert(chunks[i] == head[i]);
    }
    assert forall|i: int, j: int|
        0 <= i < chunks.len() && 0 <= j < chunks.len() && (#[trigger] chunks[i]).start <= x
            < chunks[i].start + chunks[i].len && (#[trigger] chunks[j]).start <= x
            < chunks[j].start + chunks[j].len implies i == j by {
        if i < last {
            assert(head[i] == chunks[i]);
        }
        if j < last {
            assert(head[j] == chunks[j]);
        }
    }
}

proof fn lemma_chain_within(chunks: Seq<RestoreChunkSummary>, upto: int)
    requires
        chunks_chain(chunks, upto),
    ensures
        upto >= 0,
        forall|i: int|
            0 <= i < chunks.len() ==> (#[trigger] chunks[i]).start + chunks[i].len <= upto,
    decreases chunks.len(),
{
    if chunks.len() > 0 {
        let head = chunks.drop_last();
        lemma_chain_within(head, chunks.last().start as int);
        assert forall|i: int| 0 <= i < chunks.len() implies (#[trigger] chunks[i]).start
            + chunks[i].len <= upto by {
            if i < head.len() {
                assert(head[i] == chunks[i]);
            }
        }
    }
}

/// There are as few chunks as hold 65536 entries each, but at least one and no more
/// than 32.
pub proof fn law_chunks_hold_what_they_should(entry_count: usize, r: usize)
    requires
        call_ensures(recommended_restore_chunk_count, (entry_count,), r),
    ensures
        1 <= r <= 32,
        r < 32 ==> entry_count <= r * 65536,
        r > 1 ==> entry_count > (r - 1) * 65536,
{
}

/// Chunks that chain follow each other.
proof fn lemma_chain_follows(chunks: Seq<RestoreChunkSummary>, upto: int)
    requires
        chunks_chain(chunks, upto),
    ensures
        chunks.len() > 0 ==> chunks[0].start == 0 && chunks.last().start + chunks.last().len
            == upto,
        forall|i: int| 0 <= i < chunks.len() ==> (#[trigger] chunks[i]).len > 0,
        forall|i: int, j: int|
            #![trigger chunks[i], chunks[j]]
            0 <= i && j == i + 1 && j < chunks.len() ==> chunks[j].start == chunks[i].start
                + chunks[i].len,
    decreases chunks.len(),
{
    if chunks.len() > 0 {
        let head = chunks.drop_last();
        lemma_chain_follows(head, chunks.last().start as int);
        assert forall|i: int| 0 <= i < chunks.len() implies (#[trigger] chunks[i]).len > 0 by {
            if i < head.len() {
                assert(head[i] == chunks[i]);
            }
        }
        assert forall|i: int, j: int|
            #![trigger chunks[i], chunks[j]]
            0 <= i && j == i + 1 && j < chunks.len() implies chunks[j].start == chunks[i].start
            + chunks[i].len by {
            assert(head[i] == chunks[i]);
            if j < head.len() {
                assert(head[j] == chunks[j]);
            } else {
                assert(head.last() == head[i]);
            }
        }
        if head.len() > 0 {
            assert(head[0] == chunks[0]);
        }
    }
}

/// Decode work covers the entries without gap or overlap: its ranges follow each other
/// from the first entry to the last, and none is empty.
pub proof fn law_decode_work_covers_the_entries(
    entry_count: usize,
    routing: &RoutingSummary,
    ranges: Vec<(usize, usize)>,
)
    requires
        call_ensures(restore_chunk_ranges, (entry_count, routing), ranges),
    ensures
        ranges@.len() == 0 <==> entry_count == 0,
        ranges@.len() > 0 ==> ranges@[0].0 == 0 && ranges@.last().0 + ranges@.last().1
            == entry_count,
        forall|i: int| 0 <= i < ranges@.len() ==> (#[trigger] ranges@[i]).1 > 0,
        forall|i: int, j: int|
            #![trigger ranges@[i], ranges@[j]]
            0 <= i && j == i + 1 && j < ranges@.len() ==> ranges@[j].0 == ranges@[i].0
                + ranges@[i].1,
{
    let n = entry_count as int;
    let chunks = routing.chunks@;
    if chunks.len() > 0 && chunks_chain(chunks, n) {
        lemma_chain_follows(chunks, n);
        assert(ranges@[0].0 == chunks[0].start);
        let last = ranges@.len() - 1;
        assert(ranges@[last].0 == chunks[last].start && ranges@[last].1 == chunks[last].len);
        assert forall|i: int| 0 <= i < ranges@.len() implies (#[trigger] ranges@[i]).1 > 0 by {
            assert(chunks[i].len > 0);
        }
        assert forall|i: int, j: int|
            #![trigger ranges@[i], ranges@[j]]
            0 <= i && j == i + 1 && j < ranges@.len() implies ranges@[j].0 == ranges@[i].0
            + ranges@[i].1 by {
            assert(chunks[j].start == chunks[i].start + chunks[i].len);
        }
    } else {
        let c = recommended_chunks(n);
        assert(1 <= c <= 32);
        law_even_split_partitions(n, c, 0);
        assert forall|i: int| 0 <= i < ranges@.len() implies (#[trigger] ranges@[i]).1 > 0 by {
            law_even_split_partitions(n, c, i);
        }
        assert forall|i: int, j: int|
            #![trigger ranges@[i], ranges@[j]]
            0 <= i && j == i + 1 && j < ranges@.len() implies ranges@[j].0 == ranges@[i].0
            + ranges@[i].1 by {
            law_even_split_partitions(n, c, i);
        }
        if ranges@.len() > 0 {
            let last = ranges@.len() - 1;
            law_even_split_partitions(n, c, last);
            assert(ranges@[last] == ranges@.last());
        }
    }
}

proof fn lemma_first_fault(
    chunks: Seq<RestoreChunkSummary>,
    runs: Seq<EntityRun>,
    by_sequence: Seq<Arc<IndexEntry>>,
    by_entity: Seq<Arc<IndexEntry>>,
)
    ensures
        first_chunk_fault(chunks, by_sequence) is None <==> forall|i: int|
            0 <= i < chunks.len() ==> chunk_fault(#[trigger] chunks[i], by_sequence) is None,
        first_run_fault(runs, by_entity) is None <==> forall|i: int|
            0 <= i < runs.len() ==> run_fault(#[trigger] runs[i], by_entity) is None,
    decreases chunks.len() + runs.len(),
{
    if chunks.len() > 0 {
        let head = chunks.drop_last();
        lemma_first_fault(head, runs, by_sequence, by_entity);
        if first_chunk_fault(chunks, by_sequence) is None {
            assert forall|i: int| 0 <= i < chunks.len() implies chunk_fault(
                #[trigger] chunks[i],
                by_sequence,
            ) is None by {
                if i < head.len() {
                    assert(head[i] == chunks[i]);
                }
            }
        }
        if forall|i: int|
            0 <= i < chunks.len() ==> chunk_fault(#[trigger] chunks[i], by_sequence) is None {
            assert forall|i: int| 0 <= i < head.len() implies chunk_fault(
                #[trigger] head[i],
                by_sequence,
            ) is None by {
                assert(head[i] == chunks[i]);
            }
            assert(chunk_fault(chunks[chunks.len() - 1], by_sequence) is None);
        }
    } else if runs.len() > 0 {
        let head = runs.drop_last();
        lemma_first_fault(chunks, head, by_sequence, by_entity);
        if first_run_fault(runs, by_entity) is None {
            assert forall|i: int| 0 <= i < runs.len() implies run_fault(
                #[trigger] runs[i],
                by_entity,
            ) is None by {
                if i < head.len() {
                    assert(head[i] == runs[i]);
                }
            }
        }
        if forall|i: int|
            0 <= i < runs.len() ==> run_fault(#[trigger] runs[i], by_entity) is None {
            assert forall|i: int| 0 <= i < head.len() implies run_fault(
                #[trigger] head[i],
                by_entity,
            ) is None by {
                assert(head[i] == runs[i]);
            }
            assert(run_fault(runs[runs.len() - 1], by_entity) is None);
        }
    }
}

proof fn lemma_totals(chunks: Seq<RestoreChunkSummary>, runs: Seq<EntityRun>)
    ensures
        chunk_total(chunks) == chunks.fold_left(
            0int,
            |sum: int, chunk: RestoreChunkSummary| sum + chunk.len,
        ),
        run_total(runs) == runs.fold_left(0int, |sum: int, run: EntityRun| sum + run.len),
    decreases chunks.len() + runs.len(),
{
    if chunks.len() > 0 {
        lemma_totals(chunks.drop_last(), runs);
    } else if runs.len() > 0 {
        lemma_totals(chunks, runs.drop_last());
    }
}

/// A summary fits the entries exactly where its counts are right, every chunk and run
/// is a stretch of the entries that is not empty and names its first and last sequence,
/// every run is of one entity, and the chunks and the runs each add up to the entries.
pub proof fn law_summary_fits_where_it_describes(
    summary: &RoutingSummary,
    by_sequence: Vec<Arc<IndexEntry>>,
    by_entity: Vec<Arc<IndexEntry>>,
    r: bool,
)
    requires
        call_ensures(RoutingSummary::validate, (summary, &by_sequence, &by_entity), r),
        by_sequence@.len() <= usize::MAX,
        by_entity@.len() <= usize::MAX,
    ensures
        r <==> {
            &&& summary.entry_count == by_sequence@.len()
            &&& summary.entry_count == by_entity@.len()
            &&& summary.chunk_count == summary.chunks@.len()
            &&& forall|i: int|
                #![trigger summary.chunks@[i]]
                0 <= i < summary.chunks@.len() ==> {
                    let chunk = summary.chunks@[i];
                    &&& chunk.len > 0
                    &&& chunk.start + chunk.len <= by_sequence@.len()
                    &&& by_sequence@[chunk.start as int].global_sequence == chunk.first_sequence
                    &&& by_sequence@[chunk.start + chunk.len - 1].global_sequence
                        == chunk.last_sequence
                }
            &&& summary.chunks@.fold_left(
                0int,
                |sum: int, chunk: RestoreChunkSummary| sum + chunk.len,
            ) == by_sequence@.len()
            &&& forall|i: int|
                #![trigger summary.entity_runs@[i]]
                0 <= i < summary.entity_runs@.len() ==> {
                    let run = summary.entity_runs@[i];
                    &&& run.len > 0
                    &&& run.start + run.len <= by_entity@.len()
                    &&& by_entity@[run.start as int].global_sequence == run.first_sequence
                    &&& by_entity@[run.start + run.len - 1].global_sequence == run.last_sequence
                    &&& forall|k: int|
                        run.start <= k < run.start + run.len ==> (
                        #[trigger] by_entity@[k]).coord.entity_spec() == run.entity@
                }
            &&& summary.entity_runs@.fold_left(0int, |sum: int, run: EntityRun| sum + run.len)
                == by_entity@.len()
        },
{
    let chunks = summary.chunks@;
    let runs = summary.entity_runs@;
    lemma_first_fault(chunks, runs, by_sequence@, by_entity@);
    lemma_totals(chunks, runs);
    assert forall|i: int| #![trigger chunks[i]] 0 <= i < chunks.len() implies (chunk_fault(
        chunks[i],
        by_sequence@,
    ) is None <==> {
        &&& chunks[i].len > 0
        &&& chunks[i].start + chunks[i].len <= by_sequence@.len()
        &&& by_sequence@[chunks[i].start as int].global_sequence == chunks[i].first_sequence
        &&& by_sequence@[chunks[i].start + chunks[i].len - 1].global_sequence
            == chunks[i].last_sequence
    }) by {}
    assert forall|i: int| #![trigger runs[i]] 0 <= i < runs.len() implies (run_fault(
        runs[i],
        by_entity@,
    ) is None <==> {
        &&& runs[i].len > 0
        &&& runs[i].start + runs[i].len <= by_entity@.len()
        &&& by_entity@[runs[i].start as int].global_sequence == runs[i].first_sequence
        &&& by_entity@[runs[i].start + runs[i].len - 1].global_sequence == runs[i].last_sequence
        &&& forall|k: int|
            runs[i].start <= k < runs[i].start + runs[i].len ==> (
            #[trigger] by_entity@[k]).coord.entity_spec() == runs[i].entity@
    }) by {
        if runs[i].len > 0 && runs[i].start + runs[i].len <= by_entity@.len() {
            assert(by_entity@[runs[i].start as int].coord.entity_spec()
                == by_entity@[runs[i].start as int].coord.entity_spec());
            assert(by_entity@[runs[i].start + runs[i].len - 1].coord.entity_spec()
                == by_entity@[runs[i].start + runs[i].len - 1].coord.entity_spec());
        }
    }
}

/// A restore takes the entries as they are, and in a second list the same entries by
/// entity. It follows a routing hint exactly where the hint fits the entries.
pub proof fn law_hint_is_followed_where_it_fits(
    entries: Vec<IndexEntry>,
    chunk_count: usize,
    hint: &RoutingSummary,
    base: RestoreBase,
    fits: bool,
)
    requires
        call_ensures(
            RestoreBase::from_sorted_entries,
            (entries, chunk_count, Some(hint)),
            base,
        ),
        call_ensures(
            RoutingSummary::validate,
            (hint, &base.entries_by_sequence, &base.entries_by_entity),
            fits,
        ),
    ensures
        base.entries_by_sequence@.len() == entries@.len(),
        forall|i: int|
            0 <= i < entries@.len() ==> *(#[trigger] base.entries_by_sequence@[i]) == entries@[i],
        base.entries_by_entity@.to_multiset() == base.entries_by_sequence@.to_multiset(),
        forall|i: int, j: int|
            #![trigger base.entries_by_entity@[i], base.entries_by_entity@[j]]
            0 <= i < j < base.entries_by_entity@.len() ==> !crate::text::bytes_before(
                base.entries_by_entity@[j].entity_bytes(),
                base.entries_by_entity@[i].entity_bytes(),
            ),
        fits ==> base.routing.entry_count == hint.entry_count && base.routing.chunk_count
            == hint.chunk_count && base.routing.chunks@ == hint.chunks@
            && base.routing.entity_runs@ == hint.entity_runs@,
        !fits ==> base.routing.entry_count == entries@.len(),
{
    let by_entity = base.entries_by_entity@;
    by_entity.to_multiset_ensures();
    base.entries_by_sequence@.to_multiset_ensures();
    assert forall|i: int, j: int|
        #![trigger by_entity[i], by_entity[j]]
        0 <= i < j < by_entity.len() implies !crate::text::bytes_before(
        by_entity[j].entity_bytes(),
        by_entity[i].entity_bytes(),
    ) by {
        assert(<Arc<IndexEntry> as crate::sort::Ranked>::rank_le(by_entity[i], by_entity[j]));
        let a = by_entity[i].entity_bytes();
        let b = by_entity[j].entity_bytes();
        if crate::text::bytes_before(a, b) {
            crate::text::lemma_bytes_before_asymmetric(a, b);
        }
        crate::text::lemma_bytes_before_irreflexive(a);
    }
}

/// A summary that is made from entries splits them into as many chunks as were asked
/// for, at least one and no more than there are entries, whose lengths differ by at most
/// one; and names its runs and chunks by their first and last sequences. Neighbouring
/// runs are of different entities.
pub proof fn law_summary_describes_the_entries(
    by_sequence: Vec<Arc<IndexEntry>>,
    by_entity: Vec<Arc<IndexEntry>>,
    chunk_count: usize,
    r: RoutingSummary,
    i: int,
    j: int,
)
    requires
        by_sequence@.len() == by_entity@.len(),
        by_entity@.len() <= usize::MAX,
        call_ensures(RoutingSummary::from_entries, (&by_sequence, &by_entity, chunk_count), r),
    ensures
        r.entry_count == by_entity@.len(),
        r.chunk_count == r.chunks@.len(),
        r.chunks@.len() <= by_sequence@.len(),
        chunk_count > 0 && chunk_count <= by_sequence@.len() ==> r.chunks@.len() == chunk_count,
        chunk_count == 0 && by_sequence@.len() > 0 ==> r.chunks@.len() == 1,
        chunk_count > by_sequence@.len() ==> r.chunks@.len() == by_sequence@.len(),
        0 <= i < r.chunks@.len() && 0 <= j < r.chunks@.len() ==> r.chunks@[i].len
            <= r.chunks@[j].len + 1,
        0 <= i < r.chunks@.len() - 1 ==> r.chunks@[i + 1].start == r.chunks@[i].start
            + r.chunks@[i].len,
        0 <= i < r.chunks@.len() ==> r.chunks@[i].len > 0 && r.chunks@[i].first_sequence
            == by_sequence@[r.chunks@[i].start as int].global_sequence && r.chunks@[i].last_sequence
            == by_sequence@[r.chunks@[i].start + r.chunks@[i].len - 1].global_sequence,
        0 <= i < r.entity_runs@.len() - 1 ==> r.entity_runs@[i + 1].start == r.entity_runs@[i].start
            + r.entity_runs@[i].len && r.entity_runs@[i + 1].entity@ != r.entity_runs@[i].entity@,
        0 <= i < r.entity_runs@.len() && r.entity_runs@[i].start <= j < r.entity_runs@[i].start
            + r.entity_runs@[i].len ==> by_entity@[j].coord.entity_spec()
            == r.entity_runs@[i].entity@,
{
    let c: int = if chunk_count < 1 {
        1
    } else {
        chunk_count as int
    };
    let n = by_sequence@.len() as int;
    if 0 <= i < r.chunks@.len() {
        law_even_split_partitions(n, c, i);
        assert(r.chunks@[i].start == split_start(n, c, i));
    }
    if 0 <= j < r.chunks@.len() {
        law_even_split_partitions(n, c, j);
        assert(r.chunks@[j].start == split_start(n, c, j));
    }
    if 0 <= i < r.chunks@.len() - 1 {
        assert(r.chunks@[i + 1].start == split_start(n, c, i + 1));
    }
    if 0 <= i < r.entity_runs@.len() {
        assert(is_run(r.entity_runs@[i], by_entity@));
    }
}

/// The counts are held against the entries first, and then the number of chunks: a wrong
/// count is told exactly where there is one, and a wrong number of chunks where there is
/// one and the counts are right.
pub proof fn law_counts_are_judged_first(
    summary: &RoutingSummary,
    by_sequence: Vec<Arc<IndexEntry>>,
    by_entity: Vec<Arc<IndexEntry>>,
    r: RoutingValidation,
)
    requires
        call_ensures(RoutingSummary::validate_detailed, (summary, &by_sequence, &by_entity), r),
    ensures
        ({
            let counts = summary.entry_count == by_sequence@.len() && summary.entry_count
                == by_entity@.len();
            let chunks = summary.chunk_count == summary.chunks@.len();
            &&& r == RoutingValidation::Invalid(RoutingValidationError::EntryCountMismatch)
                <==> !counts
            &&& r == RoutingValidation::Invalid(RoutingValidationError::ChunkCountMismatch)
                <==> counts && !chunks
        }),
{
    lemma_fault_is_of_a_part(summary.chunks@, summary.entity_runs@, by_sequence@, by_entity@);
}

proof fn lemma_fault_is_of_a_part(
    chunks: Seq<RestoreChunkSummary>,
    runs: Seq<EntityRun>,
    by_sequence: Seq<Arc<IndexEntry>>,
    by_entity: Seq<Arc<IndexEntry>>,
)
    ensures
        first_chunk_fault(chunks, by_sequence) matches Some(e) ==> !(e is EntryCountMismatch) && !(
        e is ChunkCountMismatch),
        first_run_fault(runs, by_entity) matches Some(e) ==> !(e is EntryCountMismatch) && !(
        e is ChunkCountMismatch),
    decreases chunks.len() + runs.len(),
{
    if chunks.len() > 0 {
        lemma_fault_is_of_a_part(chunks.drop_last(), runs, by_sequence, by_entity);
    } else if runs.len() > 0 {
        lemma_fault_is_of_a_part(chunks, runs.drop_last(), by_sequence, by_entity);
    }
}

} // verus!
