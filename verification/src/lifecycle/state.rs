//! The states of a store: open, closed and read-only. Only an open store has a
//! writer.

use crate::index::store::StoreIndex;
use crate::platform::evidence::PlatformEvidenceSummary;
use vstd::prelude::*;

verus! {

/// Marks the states of a store.
pub trait Sealed {

}

/// What a store's state knows of the writer.
pub trait StoreState: Sealed {
    /// Number of commands that wait for the writer, where there is one.
    spec fn waiting(&self) -> Option<usize>;

    /// The writer was told to drain and stop.
    spec fn stopping(&self) -> bool;

    /// Tells the writer, where there is one, to drain and stop: if it should.
    fn shutdown_writer(&mut self, should_shutdown: bool)
        ensures
            final(self).stopping() == (old(self).stopping() || (should_shutdown && old(
                self,
            ).waiting() is Some)),
            final(self).waiting() == old(self).waiting(),
    ;

    /// Number of commands that wait for the writer, where there is one.
    fn writer_queue_len(&self) -> (r: Option<usize>)
        ensures
            r == self.waiting(),
    ;
}

/// An open store.
#[derive(Debug)]
pub struct Open {
    queue_len: usize,
    stopping: bool,
}

/// A store that was closed.
#[derive(Debug)]
pub struct Closed;

/// A store that is read only.
#[derive(Debug)]
pub struct ReadOnly;

impl Open {
    /// An open store with commands waiting for its writer.
    pub fn new(queue_len: usize) -> (r: Open)
        ensures
            r.waiting() == Some(queue_len),
            !r.stopping(),
    {
        Open { queue_len, stopping: false }
    }

    /// Whether the writer was told to drain and stop.
    pub fn is_stopping(&self) -> (r: bool)
        ensures
            r == self.stopping(),
    {
        self.stopping
    }
}

impl Sealed for Open {

}

impl Sealed for Closed {

}

impl Sealed for ReadOnly {

}

impl StoreState for Open {
    closed spec fn waiting(&self) -> Option<usize> {
        Some(self.queue_len)
    }

    closed spec fn stopping(&self) -> bool {
        self.stopping
    }

    fn shutdown_writer(&mut self, should_shutdown: bool) {
        if !should_shutdown {
            return;
        }
        self.stopping = true;
    }

    fn writer_queue_len(&self) -> (r: Option<usize>) {
        Some(self.queue_len)
    }
}

impl StoreState for Closed {
    open spec fn waiting(&self) -> Option<usize> {
        None
    }

    open spec fn stopping(&self) -> bool {
        false
    }

    fn shutdown_writer(&mut self, should_shutdown: bool) {
    }

    fn writer_queue_len(&self) -> (r: Option<usize>) {
        None
    }
}

impl StoreState for ReadOnly {
    open spec fn waiting(&self) -> Option<usize> {
        None
    }

    open spec fn stopping(&self) -> bool {
        false
    }

    fn shutdown_writer(&mut self, should_shutdown: bool) {
    }

    fn writer_queue_len(&self) -> (r: Option<usize>) {
        None
    }
}

/// How much a store holds.
#[derive(Clone, Copy, Debug, PartialEq, Eq, Structural)]
pub struct StoreStats {
    /// Number of events.
    pub event_count: usize,
    /// The next sequence.
    pub global_sequence: u64,
}

/// How much a store holds.
pub fn stats(index: &StoreIndex) -> (r: StoreStats)
    ensures
        r.event_count == index.len,
        r.global_sequence == index.sequence@.allocated,
{
    StoreStats { event_count: index.len(), global_sequence: index.global_sequence() }
}

/// How busy the writer is.
#[derive(Clone, Copy, Debug, PartialEq, Eq, Structural)]
pub struct WriterPressure {
    /// Number of commands that wait.
    pub queue_len: usize,
    /// Number of commands that can wait.
    pub capacity: usize,
}

/// What a store is set up with.
#[derive(Debug)]
pub struct StoreSettings {
    /// Its directory.
    pub data_dir: String,
    /// Bytes after which a segment is sealed.
    pub segment_max_bytes: u64,
    /// Number of segments that are kept open.
    pub fd_budget: usize,
    /// Number of commands that can wait for the writer.
    pub channel_capacity: usize,
}

/// How a store is doing.
#[derive(Debug)]
pub struct StoreDiagnostics {
    /// Number of events.
    pub event_count: usize,
    /// The next sequence.
    pub global_sequence: u64,
    /// Exclusive upper bound of what readers see.
    pub visible_sequence: u64,
    /// Its directory.
    pub data_dir: String,
    /// Bytes after which a segment is sealed.
    pub segment_max_bytes: u64,
    /// Number of segments that are kept open.
    pub fd_budget: usize,
    /// How busy the writer is.
    pub writer_pressure: WriterPressure,
    /// Name of the index's layout.
    pub index_topology: &'static str,
    /// Number of tiles of the index.
    pub tile_count: usize,
    /// What was observed of the platform.
    pub platform_evidence: PlatformEvidenceSummary,
}

/// How a store is doing.
pub fn diagnostics<S: StoreState>(
    index: &StoreIndex,
    state: &S,
    settings: &StoreSettings,
    platform_evidence: PlatformEvidenceSummary,
) -> (r: StoreDiagnostics)
    requires
        index.wf(),
    ensures
        r.event_count == index.len,
        r.global_sequence == index.sequence@.allocated,
        r.visible_sequence == index.sequence@.visible,
        r.data_dir@ == settings.data_dir@,
        r.segment_max_bytes == settings.segment_max_bytes,
        r.fd_budget == settings.fd_budget,
        r.writer_pressure == pressure_of(state.waiting(), settings.channel_capacity),
        r.index_topology@ == crate::index::scan::topology_label(index.scan.topology()),
        r.tile_count == index.scan.tile_total(),
        r.platform_evidence == platform_evidence,
{
    StoreDiagnostics {
        event_count: index.len(),
        global_sequence: index.global_sequence(),
        visible_sequence: index.visible_sequence(),
        data_dir: settings.data_dir.clone(),
        segment_max_bytes: settings.segment_max_bytes,
        fd_budget: settings.fd_budget,
        writer_pressure: writer_pressure(state, settings.channel_capacity),
        index_topology: index.topology_name(),
        tile_count: index.tile_count(),
        platform_evidence,
    }
}

/// How busy a writer is for which commands wait.
pub open spec fn pressure_of(waiting: Option<usize>, capacity: usize) -> WriterPressure {
    match waiting {
        Some(queue_len) => WriterPressure { queue_len, capacity },
        None => WriterPressure { queue_len: 0, capacity: 0 },
    }
}

/// How busy the writer is. Without a writer nothing waits and nothing can.
pub fn writer_pressure<S: StoreState>(state: &S, capacity: usize) -> (r: WriterPressure)
    ensures
        r == pressure_of(state.waiting(), capacity),
{
    match state.writer_queue_len() {
        Some(queue_len) => WriterPressure { queue_len, capacity },
        None => WriterPressure { queue_len: 0, capacity: 0 },
    }
}

/// A store without a writer has no commands waiting and no room for any; one with
/// a writer tells how many wait and how many can.
pub proof fn law_pressure_is_that_of_the_writer<S: StoreState>(
    state: &S,
    capacity: usize,
    r: WriterPressure,
)
    requires
        call_ensures(writer_pressure::<S>, (state, capacity), r),
    ensures
        state.waiting() matches Some(queue_len) ==> r.queue_len == queue_len && r.capacity
            == capacity,
        state.waiting() is None ==> r.queue_len == 0 && r.capacity == 0,
{
}

/// Nothing waits for a writer in a store that was closed or is read only.
pub proof fn law_only_an_open_store_has_a_writer(
    open: Open,
    queue_len: usize,
    closed: &Closed,
    read_only: &ReadOnly,
    capacity: usize,
    of_open: WriterPressure,
    of_closed: WriterPressure,
    of_read_only: WriterPressure,
)
    requires
        call_ensures(Open::new, (queue_len,), open),
        call_ensures(writer_pressure::<Open>, (&open, capacity), of_open),
        call_ensures(writer_pressure::<Closed>, (closed, capacity), of_closed),
        call_ensures(writer_pressure::<ReadOnly>, (read_only, capacity), of_read_only),
    ensures
        of_open.queue_len == queue_len && of_open.capacity == capacity,
        of_closed.queue_len == 0 && of_closed.capacity == 0,
        of_read_only.queue_len == 0 && of_read_only.capacity == 0,
{
}

} // verus!
