//! Index entries, clock keys and query hits.

use crate::coordinate::Coordinate;
use crate::event::{EventId, EventKind, HashChain};
use crate::sort::Ranked;
use crate::text::bytes_precede;
use std::collections::BTreeMap;
use std::sync::Arc;
use vstd::prelude::*;

verus! {

/// Position of an event in its stream: wall clock first, then the logical
/// clock, then the event identity as tiebreak.
#[derive(Clone, Copy, Debug, PartialEq, Eq, PartialOrd, Ord, Structural)]
pub struct ClockKey {
    /// Wall clock milliseconds.
    pub wall_ms: u64,
    /// Logical counter within the entity.
    pub clock: u32,
    /// Event identity.
    pub uuid: u128,
}

impl ClockKey {
    /// This key comes strictly before another.
    pub open spec fn before_spec(&self, other: ClockKey) -> bool {
        ||| self.wall_ms < other.wall_ms
        ||| self.wall_ms == other.wall_ms && self.clock < other.clock
        ||| self.wall_ms == other.wall_ms && self.clock == other.clock && self.uuid < other.uuid
    }

    /// Whether this key comes strictly before `other`.
    pub fn before(&self, other: &ClockKey) -> (r: bool)
        ensures
            r == self.before_spec(*other),
    {
        if self.wall_ms != other.wall_ms {
            self.wall_ms < other.wall_ms
        } else if self.clock != other.clock {
            self.clock < other.clock
        } else {
            self.uuid < other.uuid
        }
    }
}

/// Clock keys are totally ordered.
pub proof fn law_clock_keys_are_totally_ordered(a: ClockKey, b: ClockKey, c: ClockKey)
    ensures
        !a.before_spec(a),
        a == b || a.before_spec(b) || b.before_spec(a),
        a.before_spec(b) ==> !b.before_spec(a) && a != b,
        a.before_spec(b) && b.before_spec(c) ==> a.before_spec(c),
{
}

/// Number of an interned string.
#[derive(Clone, Copy, Debug, PartialEq, Eq, PartialOrd, Ord, Hash, Structural)]
pub struct InternId {
    id: u32,
}

impl InternId {
    /// The number.
    pub closed spec fn number(&self) -> u32 {
        self.id
    }

    /// The reserved number that names no string.
    pub fn sentinel() -> (r: InternId)
        ensures
            r.number() == 0,
    {
        InternId { id: 0 }
    }

    /// The id of a number.
    pub fn from_u32(id: u32) -> (r: InternId)
        ensures
            r.number() == id,
    {
        InternId { id }
    }

    /// The number.
    pub fn as_u32(self) -> (r: u32)
        ensures
            r == self.number(),
    {
        self.id
    }
}

/// Name of a receipt extension.
#[derive(Clone, Debug, PartialEq, Eq, PartialOrd, Ord)]
pub struct ExtensionKey {
    /// The name.
    pub name: String,
}

/// Encoded payload of a receipt extension.
#[derive(Clone, Debug, PartialEq, Eq)]
pub struct EncodedBytes {
    /// The bytes.
    pub bytes: Vec<u8>,
}

/// Everything that index queries need of one event.
#[derive(Debug)]
pub struct IndexEntry {
    /// Unique ID of the event.
    pub event_id: u128,
    /// Correlation ID linking related events in a causal chain.
    pub correlation_id: u128,
    /// ID of the event that caused this one; `None` for root-cause events.
    pub causation_id: Option<u128>,
    /// Entity and scope of the event.
    pub coord: Coordinate,
    /// Interned entity string.
    pub entity_id: InternId,
    /// Interned scope string.
    pub scope_id: InternId,
    /// Event kind.
    pub kind: EventKind,
    /// Wall clock milliseconds.
    pub wall_ms: u64,
    /// Per-entity monotonic sequence number.
    pub clock: u32,
    /// Branch lane within the logical event DAG.
    pub dag_lane: u32,
    /// Branch depth within the logical event DAG.
    pub dag_depth: u32,
    /// Hash chain linking this event to its predecessor.
    pub hash_chain: HashChain,
    /// Location of the event frame on disk.
    pub disk_pos: DiskPos,
    /// Globally monotonic sequence number assigned at commit time.
    pub global_sequence: u64,
    /// Opaque receipt extensions committed with this event.
    pub receipt_extensions: BTreeMap<ExtensionKey, EncodedBytes>,
}

/// Where the frame of an event lies on disk.
#[derive(Clone, Copy, Debug, PartialEq, Eq, Structural)]
pub struct DiskPos {
    /// Segment file that holds the frame.
    pub segment_id: u64,
    /// Byte offset of the frame within the segment file.
    pub offset: u64,
    /// Byte length of the encoded frame.
    pub length: u32,
}

impl DiskPos {
    /// A frame location.
    pub fn new(segment_id: u64, offset: u64, length: u32) -> (pos: DiskPos)
        ensures
            pos == (DiskPos { segment_id, offset, length }),
    {
        DiskPos { segment_id, offset, length }
    }

    /// Segment file that holds the frame.
    pub fn segment_id(self) -> (r: u64)
        ensures
            r == self.segment_id,
    {
        self.segment_id
    }

    /// Byte offset of the frame within the segment file.
    pub fn offset(self) -> (r: u64)
        ensures
            r == self.offset,
    {
        self.offset
    }

    /// Byte length of the encoded frame.
    pub fn length(self) -> (r: u32)
        ensures
            r == self.length,
    {
        self.length
    }
}

/// Minimal result of a scan: enough to filter, order and look up the entry.
#[derive(Clone, Copy, Debug, PartialEq, Eq, Structural)]
pub struct QueryHit {
    /// Event identity.
    pub event_id: u128,
    /// Globally monotonic commit order.
    pub global_sequence: u64,
    /// Frame location.
    pub disk_pos: DiskPos,
    /// Event kind.
    pub kind: EventKind,
    /// Per-entity clock.
    pub clock: u32,
    /// Lane of the event.
    pub dag_lane: u32,
}

impl QueryHit {
    /// The hit of `entry`.
    pub fn from_entry(entry: &IndexEntry) -> (hit: QueryHit)
        ensures
            hit == entry.hit(),
    {
        QueryHit {
            event_id: entry.event_id,
            global_sequence: entry.global_sequence,
            disk_pos: entry.disk_pos,
            kind: entry.kind,
            clock: entry.clock,
            dag_lane: entry.dag_lane,
        }
    }
}

/// Hits rank by their global sequence.
impl Ranked for QueryHit {
    open spec fn rank_le(a: QueryHit, b: QueryHit) -> bool {
        a.global_sequence <= b.global_sequence
    }

    proof fn rank_total(a: QueryHit, b: QueryHit) {
    }

    proof fn rank_transitive(a: QueryHit, b: QueryHit, c: QueryHit) {
    }

    fn ranks_no_later(&self, other: &QueryHit) -> (r: bool) {
        self.global_sequence <= other.global_sequence
    }

    fn dup(&self) -> (r: QueryHit) {
        *self
    }
}

impl IndexEntry {
    /// Position of the event in its stream.
    pub open spec fn key(&self) -> ClockKey {
        ClockKey { wall_ms: self.wall_ms, clock: self.clock, uuid: self.event_id }
    }

    /// Bytes of the entity of the event.
    pub open spec fn entity_bytes(&self) -> Seq<u8> {
        crate::text::utf8(self.coord.entity_spec())
    }

    /// The hit of this entry.
    pub open spec fn hit(&self) -> QueryHit {
        QueryHit {
            event_id: self.event_id,
            global_sequence: self.global_sequence,
            disk_pos: self.disk_pos,
            kind: self.kind,
            clock: self.clock,
            dag_lane: self.dag_lane,
        }
    }

    /// Every field is the same.
    pub open spec fn same(&self, other: &IndexEntry) -> bool {
        &&& self.event_id == other.event_id
        &&& self.correlation_id == other.correlation_id
        &&& self.causation_id == other.causation_id
        &&& self.coord == other.coord
        &&& self.entity_id == other.entity_id
        &&& self.scope_id == other.scope_id
        &&& self.kind == other.kind
        &&& self.wall_ms == other.wall_ms
        &&& self.clock == other.clock
        &&& self.dag_lane == other.dag_lane
        &&& self.dag_depth == other.dag_depth
        &&& self.hash_chain == other.hash_chain
        &&& self.disk_pos == other.disk_pos
        &&& self.global_sequence == other.global_sequence
        &&& self.receipt_extensions@ == other.receipt_extensions@
    }

    /// Position of the event in its stream.
    pub fn clock_key(&self) -> (r: ClockKey)
        ensures
            r == self.key(),
    {
        ClockKey { wall_ms: self.wall_ms, clock: self.clock, uuid: self.event_id }
    }

    /// Unique ID of the event.
    #[must_use]
    pub fn event_id(&self) -> (r: u128)
        ensures
            r == self.event_id,
    {
        self.event_id
    }

    /// Correlation ID linking related events in a causal chain.
    #[must_use]
    pub fn correlation_id(&self) -> (r: u128)
        ensures
            r == self.correlation_id,
    {
        self.correlation_id
    }

    /// ID of the event that caused this one; `None` for root-cause events.
    #[must_use]
    pub fn causation_id(&self) -> (r: Option<u128>)
        ensures
            r == self.causation_id,
    {
        self.causation_id
    }

    /// Entity and scope of the event.
    #[must_use]
    pub fn coord(&self) -> (r: &Coordinate)
        ensures
            *r == self.coord,
    {
        &self.coord
    }

    /// Event kind.
    #[must_use]
    pub fn event_kind(&self) -> (r: EventKind)
        ensures
            r == self.kind,
    {
        self.kind
    }

    /// Wall clock milliseconds.
    #[must_use]
    pub fn wall_ms(&self) -> (r: u64)
        ensures
            r == self.wall_ms,
    {
        self.wall_ms
    }

    /// Per-entity monotonic sequence number.
    #[must_use]
    pub fn clock(&self) -> (r: u32)
        ensures
            r == self.clock,
    {
        self.clock
    }

    /// Branch lane within the logical event DAG.
    #[must_use]
    pub fn dag_lane(&self) -> (r: u32)
        ensures
            r == self.dag_lane,
    {
        self.dag_lane
    }

    /// Branch depth within the logical event DAG.
    #[must_use]
    pub fn dag_depth(&self) -> (r: u32)
        ensures
            r == self.dag_depth,
    {
        self.dag_depth
    }

    /// Hash chain linking this event to its predecessor.
    #[must_use]
    pub fn hash_chain(&self) -> (r: &HashChain)
        ensures
            *r == self.hash_chain,
    {
        &self.hash_chain
    }

    /// Location of the event frame on disk.
    #[must_use]
    pub fn disk_pos(&self) -> (r: DiskPos)
        ensures
            r == self.disk_pos,
    {
        self.disk_pos
    }

    /// Globally monotonic sequence number assigned at commit time.
    #[must_use]
    pub fn global_sequence(&self) -> (r: u64)
        ensures
            r == self.global_sequence,
    {
        self.global_sequence
    }

    /// Opaque receipt extensions committed with this event.
    #[must_use]
    pub fn receipt_extensions(&self) -> (r: &BTreeMap<ExtensionKey, EncodedBytes>)
        ensures
            *r == self.receipt_extensions,
    {
        &self.receipt_extensions
    }

    /// Whether this event is part of a causal chain: its correlation ID
    /// differs from its event ID.
    pub fn is_correlated(&self) -> (r: bool)
        ensures
            r == (self.event_id != self.correlation_id),
    {
        self.event_id != self.correlation_id
    }

    /// Whether this event was directly caused by the given event.
    pub fn is_caused_by(&self, event_id: EventId) -> (r: bool)
        ensures
            r == (self.causation_id == Some(event_id.number())),
    {
        match self.causation_id {
            Some(cause) => cause == event_id.as_u128(),
            None => false,
        }
    }

    /// Whether this event has no causation ID.
    pub fn is_root_cause(&self) -> (r: bool)
        ensures
            r == (self.causation_id is None),
    {
        self.causation_id.is_none()
    }
}

impl Clone for IndexEntry {
    fn clone(&self) -> (r: IndexEntry)
        ensures
            r.same(self),
    {
        IndexEntry {
            event_id: self.event_id,
            correlation_id: self.correlation_id,
            causation_id: self.causation_id,
            coord: self.coord.clone(),
            entity_id: self.entity_id,
            scope_id: self.scope_id,
            kind: self.kind,
            wall_ms: self.wall_ms,
            clock: self.clock,
            dag_lane: self.dag_lane,
            dag_depth: self.dag_depth,
            hash_chain: self.hash_chain,
            disk_pos: self.disk_pos,
            global_sequence: self.global_sequence,
            receipt_extensions: self.receipt_extensions.clone(),
        }
    }
}

/// Shared entries rank by entity, and within one entity by clock key.
impl Ranked for Arc<IndexEntry> {
    open spec fn rank_le(a: Arc<IndexEntry>, b: Arc<IndexEntry>) -> bool {
        ||| crate::text::bytes_before(a.entity_bytes(), b.entity_bytes())
        ||| a.entity_bytes() == b.entity_bytes() && !b.key().before_spec(a.key())
    }

    proof fn rank_total(a: Arc<IndexEntry>, b: Arc<IndexEntry>) {
        crate::text::lemma_bytes_before_total(a.entity_bytes(), b.entity_bytes());
    }

    proof fn rank_transitive(a: Arc<IndexEntry>, b: Arc<IndexEntry>, c: Arc<IndexEntry>) {
        if crate::text::bytes_before(a.entity_bytes(), b.entity_bytes())
            && crate::text::bytes_before(b.entity_bytes(), c.entity_bytes()) {
            crate::text::lemma_bytes_before_transitive(
                a.entity_bytes(),
                b.entity_bytes(),
                c.entity_bytes(),
            );
        }
    }

    fn ranks_no_later(&self, other: &Arc<IndexEntry>) -> (r: bool) {
        let left = self.coord.entity().as_bytes();
        let right = other.coord.entity().as_bytes();
        proof {
            crate::text::lemma_bytes_before_total(left@, right@);
            if crate::text::bytes_before(left@, right@) {
                crate::text::lemma_bytes_before_asymmetric(left@, right@);
            }
            if crate::text::bytes_before(right@, left@) {
                crate::text::lemma_bytes_before_asymmetric(right@, left@);
            }
        }
        if bytes_precede(left, right) {
            true
        } else if bytes_precede(right, left) {
            false
        } else {
            !other.clock_key().before(&self.clock_key())
        }
    }

    fn dup(&self) -> (r: Arc<IndexEntry>) {
        Arc::clone(self)
    }
}

/// Events of one stream go by wall clock, then by their clock, then by identifier.
pub proof fn law_stream_order_is_by_wall_clock_first(
    a: &IndexEntry,
    b: &IndexEntry,
    key_a: ClockKey,
    key_b: ClockKey,
    r: bool,
)
    requires
        call_ensures(IndexEntry::clock_key, (a,), key_a),
        call_ensures(IndexEntry::clock_key, (b,), key_b),
        call_ensures(ClockKey::before, (&key_a, &key_b), r),
    ensures
        a.wall_ms < b.wall_ms ==> r,
        a.wall_ms > b.wall_ms ==> !r,
        a.wall_ms == b.wall_ms && a.clock < b.clock ==> r,
        a.wall_ms == b.wall_ms && a.clock > b.clock ==> !r,
        a.wall_ms == b.wall_ms && a.clock == b.clock ==> (r <==> a.event_id < b.event_id),
{
}

/// A hit tells of an event its identifier, sequence, place, kind, clock and lane.
pub proof fn law_hit_tells_of_its_event(entry: &IndexEntry, hit: QueryHit)
    requires
        call_ensures(QueryHit::from_entry, (entry,), hit),
    ensures
        hit.event_id == entry.event_id,
        hit.global_sequence == entry.global_sequence,
        hit.disk_pos == entry.disk_pos,
        hit.kind == entry.kind,
        hit.clock == entry.clock,
        hit.dag_lane == entry.dag_lane,
{
}

/// Two entries are the same where they agree in every field.
pub proof fn law_same_entries_agree_in_every_field(a: &IndexEntry, b: &IndexEntry)
    ensures
        a.same(b) <==> {
            &&& a.event_id == b.event_id
            &&& a.correlation_id == b.correlation_id
            &&& a.causation_id == b.causation_id
            &&& a.coord == b.coord
            &&& a.entity_id == b.entity_id
            &&& a.scope_id == b.scope_id
            &&& a.kind == b.kind
            &&& a.wall_ms == b.wall_ms
            &&& a.clock == b.clock
            &&& a.dag_lane == b.dag_lane
            &&& a.dag_depth == b.dag_depth
            &&& a.hash_chain == b.hash_chain
            &&& a.disk_pos == b.disk_pos
            &&& a.global_sequence == b.global_sequence
            &&& a.receipt_extensions@ == b.receipt_extensions@
        },
{
}

/// Shared entries are ordered by the bytes of their entity; within one entity by wall
/// clock, then by clock, then by identifier.
pub proof fn law_entries_go_by_entity_first(a: Arc<IndexEntry>, b: Arc<IndexEntry>, r: bool)
    requires
        call_ensures(<Arc<IndexEntry> as Ranked>::ranks_no_later, (&a, &b), r),
    ensures
        crate::text::bytes_before(a.entity_bytes(), b.entity_bytes()) ==> r,
        crate::text::bytes_before(b.entity_bytes(), a.entity_bytes()) ==> !r,
        a.coord.entity_spec() == b.coord.entity_spec() ==> {
            &&& a.wall_ms < b.wall_ms ==> r
            &&& a.wall_ms > b.wall_ms ==> !r
            &&& a.wall_ms == b.wall_ms && a.clock < b.clock ==> r
            &&& a.wall_ms == b.wall_ms && a.clock > b.clock ==> !r
            &&& a.wall_ms == b.wall_ms && a.clock == b.clock ==> (r <==> a.event_id <= b.event_id)
        },
{
    if crate::text::bytes_before(b.entity_bytes(), a.entity_bytes()) {
        crate::text::lemma_bytes_before_asymmetric(b.entity_bytes(), a.entity_bytes());
    }
    crate::text::lemma_bytes_before_irreflexive(a.entity_bytes());
}

} // verus!
