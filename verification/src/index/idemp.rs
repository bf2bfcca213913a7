//! Durable idempotency keys.
//!
//! A keyed append that is retried must be a no-op even after the event itself
//! was compacted away. The store keeps, for each key, everything that is needed
//! to rebuild the original receipt. Keys inside the retention window are never
//! dropped; the cap on the number of keys only ever affects keys outside of it.

use super::entry::{DiskPos, EncodedBytes, ExtensionKey, IndexEntry};
use crate::bytes::{copy_range, push_all, push_le, read_le};
use crate::checksum::crc32;
use crate::error::StoreError;
use crate::event::EventKind;
use crate::table::Table;
use crate::text::{bytes_equal, push_decimal};
use std::collections::BTreeMap;
use vstd::prelude::*;

verus! {

/// Magic bytes at the start of an idempotency file.
pub const IDEMP_MAGIC: [u8; 6] = [0x46, 0x42, 0x41, 0x54, 0x49, 0x44];

/// Version of the idempotency file format.
pub const IDEMP_VERSION: u16 = 1;

/// Name of the idempotency file.
pub const IDEMP_FILENAME: &'static str = "index.idemp";

/// Length of the file header: magic, version and checksum.
pub const HEADER_LEN: usize = 12;

/// Window of the default retention, in sequences.
pub const DEFAULT_KEEP_SEQUENCES: u64 = 16_777_216;

/// Cap of the default retention, in keys.
pub const DEFAULT_MAX_KEYS: u64 = 67_108_864;

/// How the number of keys is bounded.
#[derive(Clone, Copy, Debug, PartialEq, Eq, Structural)]
#[non_exhaustive]
pub enum IdempotencyRetention {
    /// Never drop a key.
    Unbounded,
    /// Keep the keys that were recorded within a window of the frontier.
    Window {
        /// Size of the window, in sequences.
        keep_sequences: u64,
    },
    /// A window, and a cap that never reaches into it.
    Hybrid {
        /// Size of the window, in sequences.
        keep_sequences: u64,
        /// Cap on the number of keys.
        max_keys: u64,
    },
}

impl Default for IdempotencyRetention {
    fn default() -> (r: IdempotencyRetention)
        ensures
            r == (IdempotencyRetention::Hybrid {
                keep_sequences: DEFAULT_KEEP_SEQUENCES,
                max_keys: DEFAULT_MAX_KEYS,
            }),
    {
        IdempotencyRetention::Hybrid {
            keep_sequences: DEFAULT_KEEP_SEQUENCES,
            max_keys: DEFAULT_MAX_KEYS,
        }
    }
}

impl IdempotencyRetention {
    /// The window, where there is one.
    pub open spec fn window(&self) -> Option<u64> {
        match self {
            IdempotencyRetention::Unbounded => None,
            IdempotencyRetention::Window { keep_sequences } => Some(*keep_sequences),
            IdempotencyRetention::Hybrid { keep_sequences, .. } => Some(*keep_sequences),
        }
    }

    /// The cap, where there is one.
    pub open spec fn cap(&self) -> Option<u64> {
        match self {
            IdempotencyRetention::Hybrid { max_keys, .. } => Some(*max_keys),
            _ => None,
        }
    }

    /// The window, where there is one.
    pub fn keep_sequences(self) -> (r: Option<u64>)
        ensures
            r == self.window(),
    {
        match self {
            IdempotencyRetention::Unbounded => None,
            IdempotencyRetention::Window { keep_sequences } => Some(keep_sequences),
            IdempotencyRetention::Hybrid { keep_sequences, .. } => Some(keep_sequences),
        }
    }

    /// The cap, where there is one.
    pub fn max_keys(self) -> (r: Option<u64>)
        ensures
            r == self.cap(),
    {
        match self {
            IdempotencyRetention::Hybrid { max_keys, .. } => Some(max_keys),
            _ => None,
        }
    }
}

/// What happens to a new key when the window alone fills the cap.
#[derive(Clone, Copy, Debug, PartialEq, Eq, Structural)]
#[non_exhaustive]
pub enum OverflowPolicy {
    /// Take it, and exceed the cap for a while.
    Warn,
    /// Refuse it.
    FailClosed,
    /// Refuse it, as there is no channel to slow the writer down by.
    Backpressure,
}

impl Default for OverflowPolicy {
    fn default() -> (r: OverflowPolicy)
        ensures
            r == OverflowPolicy::Warn,
    {
        OverflowPolicy::Warn
    }
}

/// What is kept of one keyed append.
#[derive(Debug)]
pub struct IdempEntry {
    /// The key.
    pub key: u128,
    /// Id of the event.
    pub event_id: u128,
    /// Global sequence of the event.
    pub global_sequence: u64,
    /// Segment of the frame.
    pub disk_pos_segment: u64,
    /// Offset of the frame.
    pub disk_pos_offset: u64,
    /// Length of the frame.
    pub disk_pos_length: u32,
    /// Hash of the event.
    pub content_hash: [u8; 32],
    /// Hash of the preceding event.
    pub prev_hash: [u8; 32],
    /// Entity of the event.
    pub entity: String,
    /// Scope of the event.
    pub scope: String,
    /// Kind of the event.
    pub kind: EventKind,
    /// Frontier at which the key was recorded.
    pub recorded_global_sequence: u64,
    /// The frame was compacted away.
    pub event_evicted: bool,
    /// Receipt extensions of the event.
    pub receipt_extensions: BTreeMap<ExtensionKey, EncodedBytes>,
}

impl IdempEntry {
    /// Every field is the same, but for the eviction mark.
    pub open spec fn same_tuple(&self, other: &IdempEntry) -> bool {
        &&& self.key == other.key
        &&& self.event_id == other.event_id
        &&& self.global_sequence == other.global_sequence
        &&& self.disk_pos_segment == other.disk_pos_segment
        &&& self.disk_pos_offset == other.disk_pos_offset
        &&& self.disk_pos_length == other.disk_pos_length
        &&& self.content_hash == other.content_hash
        &&& self.prev_hash == other.prev_hash
        &&& self.entity@ == other.entity@
        &&& self.scope@ == other.scope@
        &&& self.kind == other.kind
        &&& self.recorded_global_sequence == other.recorded_global_sequence
        &&& self.receipt_extensions@ == other.receipt_extensions@
    }

    /// Every field is the same.
    pub open spec fn same(&self, other: &IdempEntry) -> bool {
        self.same_tuple(other) && self.event_evicted == other.event_evicted
    }

    /// What is kept of a committed event.
    pub fn from_index_entry(entry: &IndexEntry, recorded_global_sequence: u64) -> (r: IdempEntry)
        ensures
            r.key == entry.event_id,
            r.event_id == entry.event_id,
            r.global_sequence == entry.global_sequence,
            r.disk_pos_segment == entry.disk_pos.segment_id,
            r.disk_pos_offset == entry.disk_pos.offset,
            r.disk_pos_length == entry.disk_pos.length,
            r.content_hash == entry.hash_chain.event_hash,
            r.prev_hash == entry.hash_chain.prev_hash,
            r.entity@ == entry.coord.entity_spec(),
            r.scope@ == entry.coord.scope_spec(),
            r.kind == entry.kind,
            r.recorded_global_sequence == recorded_global_sequence,
            !r.event_evicted,
            r.receipt_extensions@ == entry.receipt_extensions@,
    {
        IdempEntry {
            key: entry.event_id,
            event_id: entry.event_id,
            global_sequence: entry.global_sequence,
            disk_pos_segment: entry.disk_pos.segment_id(),
            disk_pos_offset: entry.disk_pos.offset(),
            disk_pos_length: entry.disk_pos.length(),
            content_hash: entry.hash_chain.event_hash,
            prev_hash: entry.hash_chain.prev_hash,
            entity: entry.coord.entity().to_owned(),
            scope: entry.coord.scope().to_owned(),
            kind: entry.kind,
            recorded_global_sequence,
            event_evicted: false,
            receipt_extensions: entry.receipt_extensions.clone(),
        }
    }

    /// Location of the original frame.
    pub fn disk_pos(&self) -> (r: DiskPos)
        ensures
            r.segment_id == self.disk_pos_segment,
            r.offset == self.disk_pos_offset,
            r.length == self.disk_pos_length,
    {
        DiskPos::new(self.disk_pos_segment, self.disk_pos_offset, self.disk_pos_length)
    }

    /// Whether the frame was compacted away.
    pub fn is_event_evicted(&self) -> (r: bool)
        ensures
            r == self.event_evicted,
    {
        self.event_evicted
    }
}

impl Clone for IdempEntry {
    fn clone(&self) -> (r: IdempEntry)
        ensures
            r.same(self),
    {
        IdempEntry {
            key: self.key,
            event_id: self.event_id,
            global_sequence: self.global_sequence,
            disk_pos_segment: self.disk_pos_segment,
            disk_pos_offset: self.disk_pos_offset,
            disk_pos_length: self.disk_pos_length,
            content_hash: self.content_hash,
            prev_hash: self.prev_hash,
            entity: self.entity.clone(),
            scope: self.scope.clone(),
            kind: self.kind,
            recorded_global_sequence: self.recorded_global_sequence,
            event_evicted: self.event_evicted,
            receipt_extensions: self.receipt_extensions.clone(),
        }
    }
}

/// What one eviction did.
#[derive(Clone, Copy, Debug, PartialEq, Eq, Structural)]
pub struct EvictionReport {
    /// Keys that had left the window.
    pub aged_out: u64,
    /// Keys outside the window that the cap dropped.
    pub cap_trimmed_out_of_window: u64,
    /// The keys inside the window alone exceed the cap.
    pub within_window_exceeds_cap: bool,
    /// Keys that remain.
    pub remaining: u64,
}

/// The keys and what is kept of them.
pub struct IdempotencyStore {
    map: Table<IdempEntry>,
    retention: IdempotencyRetention,
    overflow: OverflowPolicy,
}

/// The first recorded sequence that lies in the window.
pub open spec fn window_floor(frontier: u64, keep: u64) -> u64 {
    if keep > frontier {
        0
    } else {
        (frontier - keep) as u64
    }
}

/// The entries in the window.
pub open spec fn in_window(m: Map<u128, IdempEntry>, floor: u64) -> Map<u128, IdempEntry> {
    Map::new(
        |k: u128| m.contains_key(k) && m[k].recorded_global_sequence >= floor,
        |k: u128| m[k],
    )
}

/// The keys outside the window.
pub open spec fn aged_keys(m: Map<u128, IdempEntry>, floor: u64) -> Set<u128> {
    m.dom().filter(|k: u128| m[k].recorded_global_sequence < floor)
}

/// What an eviction leaves.
pub open spec fn after_eviction(
    m: Map<u128, IdempEntry>,
    retention: IdempotencyRetention,
    frontier: u64,
) -> Map<u128, IdempEntry> {
    match retention.window() {
        Some(keep) => in_window(m, window_floor(frontier, keep)),
        None => m,
    }
}

/// `count` more keys go over the cap.
pub open spec fn over_cap(held: nat, count: u64, retention: IdempotencyRetention) -> bool {
    retention.cap() matches Some(max) && count > 0 && held + count > max && max < u64::MAX
}

/// The entries by key, later entries last.
pub open spec fn by_key(entries: Seq<IdempEntry>) -> Map<u128, IdempEntry>
    decreases entries.len(),
{
    if entries.len() == 0 {
        Map::empty()
    } else {
        by_key(entries.drop_last()).insert(entries.last().key, entries.last())
    }
}

impl IdempotencyStore {
    /// The table is sound, and every entry lies under its key.
    pub closed spec fn wf(&self) -> bool {
        &&& self.map.wf()
        &&& forall|k: u128| #[trigger]
            self.map.entries().contains_key(k) ==> self.map.entries()[k].key == k
    }

    /// The entries by key.
    pub closed spec fn entries(&self) -> Map<u128, IdempEntry> {
        self.map.entries()
    }

    /// The keys, in slot order.
    pub closed spec fn order(&self) -> Seq<u128> {
        self.map.order()
    }

    /// The growth bound.
    pub closed spec fn policy(&self) -> IdempotencyRetention {
        self.retention
    }

    /// The overflow policy.
    pub closed spec fn overflow_policy(&self) -> OverflowPolicy {
        self.overflow
    }

    /// The policies are those of another store.
    pub open spec fn same_policies(&self, other: &IdempotencyStore) -> bool {
        self.policy() == other.policy() && self.overflow_policy() == other.overflow_policy()
    }

    /// Every entry lies under its key, and every key has one slot.
    pub proof fn lemma_entries(&self)
        requires
            self.wf(),
        ensures
            self.entries().dom().finite(),
            self.order().no_duplicates(),
            self.order().len() == self.entries().dom().len(),
            forall|k: u128| #[trigger]
                self.entries().contains_key(k) ==> self.entries()[k].key == k,
            forall|k: u128| #[trigger]
                self.entries().contains_key(k) <==> self.order().contains(k),
    {
        self.map.lemma_order();
    }

    /// A store without keys.
    pub fn new(retention: IdempotencyRetention, overflow: OverflowPolicy) -> (r: IdempotencyStore)
        ensures
            r.wf(),
            r.entries() == Map::<u128, IdempEntry>::empty(),
            r.policy() == retention,
            r.overflow_policy() == overflow,
    {
        IdempotencyStore { map: Table::new(), retention, overflow }
    }

    /// Number of keys.
    pub fn len(&self) -> (n: usize)
        requires
            self.wf(),
        ensures
            n == self.entries().dom().len(),
    {
        self.map.len()
    }

    /// What is kept of a key.
    pub fn get(&self, key: u128) -> (r: Option<IdempEntry>)
        requires
            self.wf(),
        ensures
            match r {
                Some(entry) => self.entries().contains_key(key) && entry.same(
                    &self.entries()[key],
                ),
                None => !self.entries().contains_key(key),
            },
    {
        match self.map.get(key) {
            Some(entry) => Some(entry.clone()),
            None => None,
        }
    }

    /// Admit one new key. A known key is always admitted.
    pub fn admit_new_key(&mut self, key: u128, frontier: u64) -> (r: Result<(), StoreError>)
        requires
            old(self).wf(),
        ensures
            final(self).wf(),
            final(self).same_policies(old(self)),
            old(self).admitted(
                if old(self).entries().contains_key(key) {
                    0
                } else {
                    1
                },
                frontier,
                final(self).entries(),
                r,
            ),
            old(self).entries().contains_key(key) ==> r is Ok && final(self).entries() == old(
                self,
            ).entries(),
            old(self).overflow_policy() is Warn ==> r is Ok,
            r is Err ==> (old(self).policy() matches IdempotencyRetention::Hybrid { max_keys, .. }
                && final(self).entries().dom().len() >= max_keys),
    {
        if self.map.contains_key(key) {
            return Ok(());
        }
        self.admit_unique_new_count(1, frontier)
    }

    /// The outcome of admitting `count` new keys: under pressure the store
    /// first drops what has left the window, and then refuses the keys where
    /// they still go over the cap and the policy says so.
    pub open spec fn admitted(
        &self,
        count: u64,
        frontier: u64,
        after: Map<u128, IdempEntry>,
        r: Result<(), StoreError>,
    ) -> bool {
        if over_cap(self.entries().dom().len(), count, self.policy()) {
            let left = after_eviction(self.entries(), self.policy(), frontier);
            &&& after == left
            &&& r is Err <==> over_cap(left.dom().len(), count, self.policy())
                && self.overflow_policy() != OverflowPolicy::Warn
            &&& r matches Err(e) ==> e == (StoreError::IdempotencyOverflowFailClosed {
                len: left.dom().len() as u64,
                max_keys: self.policy().cap()->0,
            })
        } else {
            after == self.entries() && r is Ok
        }
    }

    /// The new keys of a batch, in order.
    pub open spec fn new_keys(&self, keys: Seq<u128>) -> Seq<u128> {
        keys.filter(|k: u128| !self.entries().contains_key(k))
    }

    /// Admit the new keys of a batch as a unit. A new key that occurs twice is
    /// refused.
    pub fn admit_new_keys(&mut self, keys: &[u128], frontier: u64) -> (r: Result<(), StoreError>)
        requires
            old(self).wf(),
        ensures
            final(self).wf(),
            final(self).same_policies(old(self)),
            if old(self).new_keys(keys@).no_duplicates() {
                old(self).admitted(
                    old(self).new_keys(keys@).len() as u64,
                    frontier,
                    final(self).entries(),
                    r,
                )
            } else {
                &&& final(self).entries() == old(self).entries()
                &&& r matches Err(e)
                &&& e matches StoreError::IdempotencyPartialBatch { reason }
                &&& reason@ == "duplicate idempotency key in batch"@
            },
    {
        let mut seen_new: Table<()> = Table::new();
        let mut unique_new: u64 = 0;
        let mut i: usize = 0;
        let ghost fresh = |k: u128| !self.entries().contains_key(k);
        reveal(Seq::filter);
        while i < keys.len()
            invariant
                self.wf(),
                *self == *old(self),
                fresh == |k: u128| !self.entries().contains_key(k),
                i <= keys@.len(),
                seen_new.wf(),
                keys@.take(i as int).filter(fresh).no_duplicates(),
                unique_new == keys@.take(i as int).filter(fresh).len(),
                unique_new <= i,
                forall|k: u128| #[trigger]
                    seen_new.entries().contains_key(k) <==> keys@.take(i as int).filter(
                        fresh,
                    ).contains(k),
            decreases keys@.len() - i,
        {
            reveal(Seq::filter);
            let key: u128 = keys[i];
            let ghost before = keys@.take(i as int).filter(fresh);
            assert(keys@.take(i + 1).drop_last() =~= keys@.take(i as int));
            if !self.map.contains_key(key) {
                let ghost now = before.push(key);
                assert(now == keys@.take(i + 1).filter(fresh));
                if seen_new.contains_key(key) {
                    proof {
                        let p = before.index_of(key);
                        lemma_repeated_stays(keys@, fresh, i + 1, p, before.len() as int);
                    }
                    return Err(
                        StoreError::IdempotencyPartialBatch {
                            reason: "duplicate idempotency key in batch".to_owned(),
                        },
                    );
                }
                proof {
                    assert(!before.contains(key));
                    assert forall|p: int, q: int|
                        0 <= p < now.len() && 0 <= q < now.len() && p != q implies now[p]
                        != now[q] by {
                        if p < before.len() {
                            assert(before.contains(before[p]));
                        }
                        if q < before.len() {
                            assert(before.contains(before[q]));
                        }
                    }
                    assert forall|k: u128| now.contains(k) <==> before.contains(k) || k
                        == key by {
                        if before.contains(k) {
                            assert(now[before.index_of(k)] == k);
                        }
                        assert(now[before.len() as int] == key);
                    }
                }
                seen_new.insert(key, ());
                unique_new = unique_new + 1;
            }
            i += 1;
        }
        assert(keys@.take(keys@.len() as int) =~= keys@);
        self.admit_unique_new_count(unique_new, frontier)
    }

    fn admit_unique_new_count(&mut self, unique_new: u64, frontier: u64) -> (r: Result<
        (),
        StoreError,
    >)
        requires
            old(self).wf(),
        ensures
            final(self).wf(),
            final(self).same_policies(old(self)),
            old(self).admitted(unique_new, frontier, final(self).entries(), r),
    {
        let max_keys: u64 = match self.retention.max_keys() {
            Some(max_keys) => max_keys,
            None => {
                return Ok(());
            },
        };
        if unique_new == 0 {
            return Ok(());
        }
        let len: u64 = self.map.len() as u64;
        if len.saturating_add(unique_new) <= max_keys {
            return Ok(());
        }
        let report = self.evict(frontier);
        let len: u64 = self.map.len() as u64;
        if len.saturating_add(unique_new) <= max_keys {
            return Ok(());
        }
        match self.overflow {
            OverflowPolicy::Warn => Ok(()),
            OverflowPolicy::FailClosed | OverflowPolicy::Backpressure => Err(
                StoreError::IdempotencyOverflowFailClosed { len, max_keys },
            ),
        }
    }

    /// Record an entry under its key, in place of what the key had.
    pub fn record(&mut self, entry: IdempEntry)
        requires
            old(self).wf(),
        ensures
            final(self).wf(),
            final(self).same_policies(old(self)),
            final(self).entries() == old(self).entries().insert(entry.key, entry),
    {
        self.map.insert(entry.key, entry);
    }

    /// Mark the entries whose events are no longer live. Nothing else of an
    /// entry changes.
    pub fn mark_evicted(&mut self, is_live: impl Fn(u128) -> bool)
        requires
            old(self).wf(),
            forall|id: u128| call_requires(is_live, (id,)),
        ensures
            final(self).wf(),
            final(self).same_policies(old(self)),
            final(self).entries().dom() == old(self).entries().dom(),
            forall|k: u128| #[trigger]
                final(self).entries().contains_key(k) ==> {
                    let was = old(self).entries()[k];
                    let now = final(self).entries()[k];
                    &&& now.same_tuple(&was)
                    &&& was.event_evicted ==> now.event_evicted
                    &&& !was.event_evicted ==> call_ensures(
                        is_live,
                        (was.event_id,),
                        !now.event_evicted,
                    )
                },
    {
        let ghost order = self.map.order();
        let ghost before = self.map.entries();
        proof {
            self.map.lemma_order();
        }
        let mut i: usize = 0;
        while i < self.map.len()
            invariant
                self.wf(),
                self.same_policies(old(self)),
                self.map.order() == order,
                order.no_duplicates(),
                forall|k: u128| #[trigger] before.contains_key(k) <==> order.contains(k),
                self.map.entries().dom() == before.dom(),
                i <= order.len(),
                forall|id: u128| call_requires(is_live, (id,)),
                forall|j: int|
                    i <= j < order.len() ==> self.map.entries()[#[trigger] order[j]]
                        == before[order[j]],
                forall|j: int|
                    0 <= j < i ==> marked(
                        before[#[trigger] order[j]],
                        self.map.entries()[order[j]],
                        is_live,
                    ),
            decreases order.len() - i,
        {
            let key: u128 = self.map.key_at(i);
            let ghost prior = self.map.entries();
            assert(before.contains_key(key)) by {
                assert(order.contains(order[i as int]));
            }
            if let Some(entry) = self.map.get_mut(key) {
                if !entry.event_evicted {
                    let live: bool = is_live(entry.event_id);
                    if !live {
                        entry.event_evicted = true;
                    }
                }
            }
            proof {
                assert(self.map.entries().dom() =~= before.dom());
                assert forall|j: int| 0 <= j < i + 1 implies marked(
                    before[#[trigger] order[j]],
                    self.map.entries()[order[j]],
                    is_live,
                ) by {
                    if j < i {
                        assert(order[j] != order[i as int]);
                    }
                }
                assert forall|j: int| i + 1 <= j < order.len() implies self.map.entries()[
                #[trigger] order[j]] == before[order[j]] by {
                    assert(order[j] != order[i as int]);
                }
                assert forall|k: u128| #[trigger]
                    self.map.entries().contains_key(k) implies self.map.entries()[k].key == k by {
                    if k != key {
                        assert(prior.contains_key(k));
                    }
                }
            }
            i += 1;
        }
        proof {
            assert forall|k: u128| #[trigger] self.entries().contains_key(k) implies marked(
                before[k],
                self.entries()[k],
                is_live,
            ) by {
                let j = order.index_of(k);
                assert(order[j] == k);
            }
        }
    }

    /// Replace everything by restored entries.
    pub fn restore(&mut self, entries: Vec<IdempEntry>)
        ensures
            final(self).wf(),
            final(self).same_policies(old(self)),
            final(self).entries() == by_key(entries@),
    {
        self.map.clear();
        let ghost all = entries@;
        assert(by_key(all.take(0)) =~= Map::<u128, IdempEntry>::empty());
        for entry in it: entries.into_iter()
            invariant
                it.seq() == all,
                self.wf(),
                self.same_policies(old(self)),
                self.entries() == by_key(all.take(it.index() as int)),
        {
            proof {
                let k = it.index() as int;
                assert(all.take(k + 1).drop_last() =~= all.take(k));
            }
            self.map.insert(entry.key, entry);
        }
        assert(all.take(all.len() as int) =~= all);
    }

    /// Copies of all entries.
    pub fn snapshot(&self) -> (r: Vec<IdempEntry>)
        requires
            self.wf(),
        ensures
            r@.len() == self.order().len(),
            forall|i: int|
                0 <= i < r@.len() ==> (#[trigger] r@[i]).same(&self.entries()[self.order()[i]]),
    {
        let mut out: Vec<IdempEntry> = Vec::new();
        let mut i: usize = 0;
        while i < self.map.len()
            invariant
                self.wf(),
                i <= self.order().len(),
                out@.len() == i,
                forall|k: int|
                    0 <= k < i ==> (#[trigger] out@[k]).same(&self.entries()[self.order()[k]]),
            decreases self.order().len() - i,
        {
            out.push(self.map.value_at(i).clone());
            i += 1;
        }
        out
    }

    /// Drop the keys that have left the window. A key inside the window is
    /// never dropped, whatever the cap.
    pub fn evict(&mut self, frontier: u64) -> (report: EvictionReport)
        requires
            old(self).wf(),
        ensures
            final(self).wf(),
            final(self).same_policies(old(self)),
            final(self).entries() == after_eviction(
                old(self).entries(),
                old(self).policy(),
                frontier,
            ),
            report.aged_out == (match old(self).policy().window() {
                Some(keep) => aged_keys(old(self).entries(), window_floor(frontier, keep)).len(),
                None => 0,
            }),
            report.cap_trimmed_out_of_window == 0,
            report.within_window_exceeds_cap == (old(self).policy().cap() matches Some(max)
                && final(self).entries().dom().len() > max),
            report.remaining == final(self).entries().dom().len(),
            report.aged_out + report.remaining == old(self).entries().dom().len(),
            forall|k: u128| #[trigger]
                final(self).entries().contains_key(k) <==> old(self).entries().contains_key(k)
                    && match old(self).policy() {
                    IdempotencyRetention::Unbounded => true,
                    IdempotencyRetention::Window { keep_sequences } => old(
                        self,
                    ).entries()[k].recorded_global_sequence + keep_sequences >= frontier,
                    IdempotencyRetention::Hybrid { keep_sequences, .. } => old(
                        self,
                    ).entries()[k].recorded_global_sequence + keep_sequences >= frontier,
                },
            forall|k: u128| #[trigger]
                final(self).entries().contains_key(k) ==> final(self).entries()[k] == old(
                    self,
                ).entries()[k],
            report.within_window_exceeds_cap <==> (old(
                self,
            ).policy() matches IdempotencyRetention::Hybrid { max_keys, .. } && report.remaining
                > max_keys),
    {
        proof {
            self.map.lemma_order();
        }
        let keep: u64 = match self.retention.keep_sequences() {
            None => {
                return EvictionReport {
                    aged_out: 0,
                    cap_trimmed_out_of_window: 0,
                    within_window_exceeds_cap: false,
                    remaining: self.map.len() as u64,
                };
            },
            Some(keep) => keep,
        };
        let floor: u64 = frontier.saturating_sub(keep);
        let ghost before = self.map.entries();
        let aged = self.collect_aged(floor);
        let ghost gone = aged@;
        let mut i: usize = 0;
        assert(gone.take(0).to_set() =~= Set::<u128>::empty());
        assert(before.remove_keys(gone.take(0).to_set()) =~= before);
        while i < aged.len()
            invariant
                gone == aged@,
                i <= gone.len(),
                self.map.wf(),
                self.same_policies(old(self)),
                self.map.entries() == before.remove_keys(gone.take(i as int).to_set()),
            decreases gone.len() - i,
        {
            self.map.remove(aged[i]);
            proof {
                let a = gone.take(i as int);
                let b = gone.take(i + 1);
                assert(b =~= a.push(gone[i as int]));
                assert forall|k: u128| b.contains(k) <==> a.contains(k) || k
                    == gone[i as int] by {
                    if a.contains(k) {
                        assert(b[a.index_of(k)] == k);
                    }
                    assert(b[i as int] == gone[i as int]);
                }
                assert(self.map.entries() =~= before.remove_keys(b.to_set()));
            }
            i += 1;
        }
        proof {
            assert(gone.take(gone.len() as int) =~= gone);
            assert(self.map.entries() =~= in_window(before, floor));
            assert(in_window(self.entries(), floor) =~= self.entries());
            gone.unique_seq_to_set();
            assert(before.dom() =~= self.map.entries().dom() + gone.to_set());
            assert(self.map.entries().dom().disjoint(gone.to_set()));
            self.map.lemma_order();
            vstd::seq_lib::seq_to_set_is_finite(gone);
            vstd::set_lib::lemma_set_disjoint_lens(self.map.entries().dom(), gone.to_set());
        }
        let remaining: u64 = self.map.len() as u64;
        let within_window_exceeds_cap: bool = match self.retention.max_keys() {
            Some(max_keys) => remaining > max_keys && self.count_in_window(floor) >= max_keys,
            None => false,
        };
        EvictionReport {
            aged_out: aged.len() as u64,
            cap_trimmed_out_of_window: 0,
            within_window_exceeds_cap,
            remaining,
        }
    }

    /// The keys outside the window.
    fn collect_aged(&self, floor: u64) -> (aged: Vec<u128>)
        requires
            self.wf(),
        ensures
            aged@.no_duplicates(),
            aged@.to_set() == aged_keys(self.entries(), floor),
            forall|k: u128|
                aged@.contains(k) <==> #[trigger] self.entries().contains_key(k)
                    && self.entries()[k].recorded_global_sequence < floor,
    {
        let mut aged: Vec<u128> = Vec::new();
        let ghost order = self.map.order();
        let ghost m = self.map.entries();
        proof {
            self.map.lemma_order();
        }
        let mut i: usize = 0;
        while i < self.map.len()
            invariant
                self.wf(),
                order == self.map.order(),
                m == self.map.entries(),
                order.no_duplicates(),
                i <= order.len(),
                aged@.no_duplicates(),
                forall|k: u128|
                    aged@.contains(k) <==> #[trigger] order.take(i as int).contains(k)
                        && m[k].recorded_global_sequence < floor,
            decreases order.len() - i,
        {
            let key: u128 = self.map.key_at(i);
            let ghost before = aged@;
            let ghost a = order.take(i as int);
            let ghost b = order.take(i + 1);
            proof {
                assert(b =~= a.push(key));
                assert(!a.contains(key)) by {
                    if a.contains(key) {
                        let p = a.index_of(key);
                        assert(order[p] == order[i as int]);
                    }
                }
                assert forall|k: u128| b.contains(k) <==> a.contains(k) || k == key by {
                    if a.contains(k) {
                        assert(b[a.index_of(k)] == k);
                    }
                    assert(b[i as int] == key);
                }
            }
            if self.map.value_at(i).recorded_global_sequence < floor {
                aged.push(key);
                proof {
                    assert(!before.contains(key));
                    assert forall|k: u128| aged@.contains(k) <==> before.contains(k) || k
                        == key by {
                        if before.contains(k) {
                            assert(aged@[before.index_of(k)] == k);
                        }
                        assert(aged@[before.len() as int] == key);
                    }
                    assert forall|p: int, q: int|
                        0 <= p < aged@.len() && 0 <= q < aged@.len() && p != q implies aged@[p]
                        != aged@[q] by {
                        if p < before.len() {
                            assert(before.contains(before[p]));
                        }
                        if q < before.len() {
                            assert(before.contains(before[q]));
                        }
                    }
                }
            }
            proof {
                assert forall|k: u128|
                    aged@.contains(k) <==> #[trigger] order.take(i + 1).contains(k)
                        && m[k].recorded_global_sequence < floor by {
                    assert(before.contains(k) <==> order.take(i as int).contains(k)
                        && m[k].recorded_global_sequence < floor);
                    assert(b.contains(k) <==> a.contains(k) || k == key);
                }
            }
            i += 1;
        }
        proof {
            assert(order.take(order.len() as int) =~= order);
            assert forall|k: u128|
                aged@.contains(k) <==> #[trigger] self.entries().contains_key(k)
                    && self.entries()[k].recorded_global_sequence < floor by {
                assert(m.contains_key(k) <==> order.contains(k));
            }
            assert(aged@.to_set() =~= aged_keys(self.entries(), floor));
        }
        aged
    }

    /// Number of keys in the window.
    fn count_in_window(&self, floor: u64) -> (n: u64)
        requires
            self.wf(),
        ensures
            n == in_window(self.entries(), floor).dom().len(),
    {
        let ghost m = self.entries();
        let ghost order = self.map.order();
        let ghost kept = |k: u128| m[k].recorded_global_sequence >= floor;
        let mut n: u64 = 0;
        let mut i: usize = 0;
        proof {
            self.map.lemma_order();
            reveal(Seq::filter);
        }
        while i < self.map.len()
            invariant
                self.wf(),
                m == self.entries(),
                order == self.map.order(),
                kept == |k: u128| m[k].recorded_global_sequence >= floor,
                i <= order.len(),
                n == order.take(i as int).filter(kept).len(),
                n <= i,
            decreases order.len() - i,
        {
            proof {
                reveal(Seq::filter);
                assert(order.take(i + 1).drop_last() =~= order.take(i as int));
            }
            let entry = self.map.value_at(i);
            if entry.recorded_global_sequence >= floor {
                n += 1;
            }
            i += 1;
        }
        proof {
            assert(order.take(order.len() as int) =~= order);
            lemma_window_keys(m, order, floor);
        }
        n
    }
}

/// The keys in the window are those that their entries put there.
proof fn lemma_window_keys(m: Map<u128, IdempEntry>, order: Seq<u128>, floor: u64)
    requires
        order.no_duplicates(),
        forall|k: u128| #[trigger] m.contains_key(k) <==> order.contains(k),
    ensures
        order.filter(|k: u128| m[k].recorded_global_sequence >= floor).len() == in_window(
            m,
            floor,
        ).dom().len(),
{
    let kept = |k: u128| m[k].recorded_global_sequence >= floor;
    let keys = order.filter(kept);
    super::query::lemma_filter_contains(order, kept);
    super::query::lemma_filter_unique(order, kept);
    keys.unique_seq_to_set();
    assert(keys.to_set() =~= in_window(m, floor).dom()) by {
        assert forall|k: u128| keys.to_set().contains(k) <==> in_window(m, floor).dom().contains(
            k,
        ) by {
            assert(keys.contains(k) <==> order.contains(k) && kept(k));
            assert(m.contains_key(k) <==> order.contains(k));
        }
    }
}

/// An entry with its eviction mark brought up to date.
pub open spec fn marked<F: Fn(u128) -> bool>(was: IdempEntry, now: IdempEntry, is_live: F) -> bool {
    &&& now.same_tuple(&was)
    &&& was.event_evicted ==> now.event_evicted
    &&& !was.event_evicted ==> call_ensures(is_live, (was.event_id,), !now.event_evicted)
}

/// A repetition in a filtered front stays in the whole.
proof fn lemma_repeated_stays(keys: Seq<u128>, f: spec_fn(u128) -> bool, n: int, p: int, q: int)
    requires
        0 <= n <= keys.len(),
        0 <= p < q < keys.take(n).filter(f).len(),
        keys.take(n).filter(f)[p] == keys.take(n).filter(f)[q],
    ensures
        !keys.filter(f).no_duplicates(),
{
    assert(keys =~= keys.take(n) + keys.skip(n));
    Seq::filter_distributes_over_add(keys.take(n), keys.skip(n), f);
    let a = keys.take(n).filter(f);
    assert(keys.filter(f)[p] == a[p] && keys.filter(f)[q] == a[q]);
}

/// An entry inside the window survives every eviction, whatever the cap.
pub proof fn law_window_is_inviolable(
    m: Map<u128, IdempEntry>,
    retention: IdempotencyRetention,
    frontier: u64,
    key: u128,
)
    requires
        m.contains_key(key),
        retention.window() matches Some(keep) ==> m[key].recorded_global_sequence + keep
            >= frontier,
    ensures
        after_eviction(m, retention, frontier).contains_key(key),
        after_eviction(m, retention, frontier)[key] == m[key],
{
}

/// New keys are taken without more where nothing caps the keys, there are no new
/// ones or they fit under the cap. Where they do not, exactly the keys are dropped
/// that were recorded more than the window before the frontier, and then the new
/// ones are refused where they still do not fit and keys over the cap are not put
/// up with. The error tells how many keys are held, and the cap.
pub proof fn law_admission_goes_by_the_cap(
    store: &IdempotencyStore,
    count: u64,
    frontier: u64,
    after: Map<u128, IdempEntry>,
    r: Result<(), StoreError>,
    key: u128,
)
    requires
        store.wf(),
        store.admitted(count, frontier, after, r),
    ensures
        match store.policy() {
            IdempotencyRetention::Unbounded => r is Ok && after == store.entries(),
            IdempotencyRetention::Window { .. } => r is Ok && after == store.entries(),
            IdempotencyRetention::Hybrid { keep_sequences, max_keys } => if count == 0
                || store.entries().dom().len() + count <= max_keys || max_keys == u64::MAX {
                r is Ok && after == store.entries()
            } else {
                &&& after.contains_key(key) <==> store.entries().contains_key(key)
                    && store.entries()[key].recorded_global_sequence + keep_sequences >= frontier
                &&& after.contains_key(key) ==> after[key] == store.entries()[key]
                &&& r is Err <==> after.dom().len() + count > max_keys && (
                store.overflow_policy() is FailClosed || store.overflow_policy() is Backpressure)
                &&& r matches Err(e) ==> e == (StoreError::IdempotencyOverflowFailClosed {
                    len: after.dom().len() as u64,
                    max_keys,
                })
            },
        },
{
}

/// The keys of a batch that are new are those that are not held, in order. A known
/// key is never new.
pub proof fn law_new_keys_are_those_not_held(store: &IdempotencyStore, keys: Seq<u128>, key: u128)
    requires
        store.wf(),
    ensures
        store.new_keys(keys).contains(key) <==> keys.contains(key) && !store.entries().contains_key(
            key,
        ),
        !store.entries().contains_key(key) ==> store.new_keys(keys).filter(
            |k: u128| k == key,
        ).len() == keys.filter(|k: u128| k == key).len(),
{
    let fresh = |k: u128| !store.entries().contains_key(k);
    super::query::lemma_filter_contains(keys, fresh);
    assert(store.new_keys(keys).contains(key) <==> keys.contains(key) && fresh(key));
    if !store.entries().contains_key(key) {
        lemma_filter_keeps_count(keys, fresh, key);
    }
}

proof fn lemma_filter_keeps_count(keys: Seq<u128>, kept: spec_fn(u128) -> bool, key: u128)
    requires
        kept(key),
    ensures
        keys.filter(kept).filter(|k: u128| k == key).len() == keys.filter(
            |k: u128| k == key,
        ).len(),
    decreases keys.len(),
{
    reveal(Seq::filter);
    if keys.len() > 0 {
        let front = keys.drop_last();
        lemma_filter_keeps_count(front, kept, key);
        if kept(keys.last()) {
            assert(keys.filter(kept).drop_last() =~= front.filter(kept));
        }
    }
}

/// The window and the cap of a policy are its own numbers; a policy without them
/// has none.
pub proof fn law_policies_have_their_numbers(
    policy: IdempotencyRetention,
    window: Option<u64>,
    cap: Option<u64>,
)
    requires
        call_ensures(IdempotencyRetention::keep_sequences, (policy,), window),
        call_ensures(IdempotencyRetention::max_keys, (policy,), cap),
    ensures
        policy is Unbounded ==> window is None && cap is None,
        policy matches IdempotencyRetention::Window { keep_sequences } ==> window == Some(
            keep_sequences,
        ) && cap is None,
        policy matches IdempotencyRetention::Hybrid { keep_sequences, max_keys } ==> window == Some(
            keep_sequences,
        ) && cap == Some(max_keys),
{
}

/// Two entries are the same where they agree in every field.
pub proof fn law_same_entries_agree_in_every_field(a: &IdempEntry, b: &IdempEntry)
    ensures
        a.same(b) <==> {
            &&& a.key == b.key
            &&& a.event_id == b.event_id
            &&& a.global_sequence == b.global_sequence
            &&& a.disk_pos_segment == b.disk_pos_segment
            &&& a.disk_pos_offset == b.disk_pos_offset
            &&& a.disk_pos_length == b.disk_pos_length
            &&& a.content_hash == b.content_hash
            &&& a.prev_hash == b.prev_hash
            &&& a.entity@ == b.entity@
            &&& a.scope@ == b.scope@
            &&& a.kind == b.kind
            &&& a.recorded_global_sequence == b.recorded_global_sequence
            &&& a.receipt_extensions@ == b.receipt_extensions@
            &&& a.event_evicted == b.event_evicted
        },
        a.same(b) <==> a.same_tuple(b) && a.event_evicted == b.event_evicted,
        a.same_tuple(b) ==> a.key == b.key && a.event_id == b.event_id && a.global_sequence
            == b.global_sequence && a.disk_pos_segment == b.disk_pos_segment && a.disk_pos_offset
            == b.disk_pos_offset && a.disk_pos_length == b.disk_pos_length && a.content_hash
            == b.content_hash && a.prev_hash == b.prev_hash && a.entity@ == b.entity@ && a.scope@
            == b.scope@ && a.kind == b.kind && a.recorded_global_sequence
            == b.recorded_global_sequence && a.receipt_extensions@ == b.receipt_extensions@,
{
}

/// Copies of all entries hold every key once.
pub proof fn law_copies_hold_every_key_once(
    store: &IdempotencyStore,
    copies: Vec<IdempEntry>,
    key: u128,
)
    requires
        store.wf(),
        call_ensures(IdempotencyStore::snapshot, (store,), copies),
    ensures
        copies@.len() == store.entries().dom().len(),
        store.entries().contains_key(key) <==> exists|i: int|
            0 <= i < copies@.len() && (#[trigger] copies@[i]).key == key,
        forall|i: int, j: int|
            0 <= i < j < copies@.len() ==> (#[trigger] copies@[i]).key != (
            #[trigger] copies@[j]).key,
        forall|i: int|
            0 <= i < copies@.len() ==> store.entries().contains_key((#[trigger] copies@[i]).key)
                && copies@[i].same(&store.entries()[copies@[i].key]),
{
    store.lemma_entries();
    let order = store.order();
    assert forall|i: int| 0 <= i < copies@.len() implies (#[trigger] copies@[i]).key == order[i]
        && store.entries().contains_key(order[i]) by {
        assert(order.contains(order[i]));
        assert(store.entries().contains_key(order[i]));
        assert(copies@[i].same(&store.entries()[order[i]]));
    }
    if store.entries().contains_key(key) {
        assert(order.contains(key));
        let i = choose|i: int| 0 <= i < order.len() && order[i] == key;
        assert(copies@[i].key == key);
    }
}

/// Of restored entries exactly the keys that they name are held, and of each its
/// last entry.
pub proof fn law_last_restored_entry_counts(entries: Seq<IdempEntry>, i: int, key: u128)
    ensures
        by_key(entries).contains_key(key) <==> exists|j: int|
            0 <= j < entries.len() && (#[trigger] entries[j]).key == key,
        0 <= i < entries.len() && (forall|j: int|
            i < j < entries.len() ==> (#[trigger] entries[j]).key != entries[i].key) ==> by_key(
            entries,
        ).contains_key(entries[i].key) && by_key(entries)[entries[i].key] == entries[i],
    decreases entries.len(),
{
    if entries.len() > 0 {
        let front = entries.drop_last();
        law_last_restored_entry_counts(front, i, key);
        if by_key(front).contains_key(key) {
            let j = choose|j: int| 0 <= j < front.len() && (#[trigger] front[j]).key == key;
            assert(entries[j].key == key);
        }
        if entries.last().key == key {
            assert(entries[entries.len() - 1].key == key);
        }
        if exists|j: int| 0 <= j < entries.len() && (#[trigger] entries[j]).key == key {
            let j = choose|j: int| 0 <= j < entries.len() && (#[trigger] entries[j]).key == key;
            if j < front.len() {
                assert(front[j].key == key);
            }
        }
        if 0 <= i < front.len() && (forall|j: int|
            i < j < entries.len() ==> (#[trigger] entries[j]).key != entries[i].key) {
            assert forall|j: int| i < j < front.len() implies (#[trigger] front[j]).key
                != front[i].key by {
                assert(entries[j].key != entries[i].key);
            }
            assert(entries[entries.len() - 1].key != entries[i].key);
        }
    }
}

/// An eviction drops nothing else, and a second one drops nothing more.
pub proof fn law_evict_is_idempotent(
    m: Map<u128, IdempEntry>,
    retention: IdempotencyRetention,
    frontier: u64,
)
    ensures
        after_eviction(m, retention, frontier).submap_of(m),
        after_eviction(after_eviction(m, retention, frontier), retention, frontier)
            == after_eviction(m, retention, frontier),
{
    let a = after_eviction(m, retention, frontier);
    assert(after_eviction(a, retention, frontier) =~= a);
}

/// Restoring copies of all entries brings back the same entries.
pub proof fn law_snapshot_restores(store: &IdempotencyStore, copies: Seq<IdempEntry>)
    requires
        store.wf(),
        copies.len() == store.order().len(),
        forall|i: int|
            0 <= i < copies.len() ==> (#[trigger] copies[i]).same(
                &store.entries()[store.order()[i]],
            ),
    ensures
        by_key(copies).dom() == store.entries().dom(),
        forall|k: u128| #[trigger]
            store.entries().contains_key(k) ==> by_key(copies)[k].same(&store.entries()[k]),
{
    store.lemma_entries();
    lemma_copies_front(store, copies, copies.len() as int);
    assert(copies.take(copies.len() as int) =~= copies);
    let order = store.order();
    assert(order.take(order.len() as int) =~= order);
    assert(by_key(copies).dom() =~= store.entries().dom()) by {
        assert forall|k: u128| by_key(copies).dom().contains(k)
            <==> store.entries().dom().contains(k) by {
            assert(store.entries().contains_key(k) <==> order.contains(k));
            assert(by_key(copies).contains_key(k) <==> order.contains(k));
        }
    }
    assert forall|k: u128| #[trigger] store.entries().contains_key(k) implies by_key(
        copies,
    )[k].same(&store.entries()[k]) by {
        assert(order.contains(k));
        assert(by_key(copies).contains_key(k));
    }
}

proof fn lemma_copies_front(store: &IdempotencyStore, copies: Seq<IdempEntry>, n: int)
    requires
        store.wf(),
        copies.len() == store.order().len(),
        forall|i: int|
            0 <= i < copies.len() ==> (#[trigger] copies[i]).same(
                &store.entries()[store.order()[i]],
            ),
        0 <= n <= copies.len(),
    ensures
        forall|k: u128| #[trigger]
            by_key(copies.take(n)).contains_key(k) <==> store.order().take(n).contains(k),
        forall|k: u128| #[trigger]
            by_key(copies.take(n)).contains_key(k) ==> by_key(copies.take(n))[k].same(
                &store.entries()[k],
            ),
    decreases n,
{
    let order = store.order();
    if n > 0 {
        lemma_copies_front(store, copies, n - 1);
        store.lemma_entries();
        assert(copies.take(n).drop_last() =~= copies.take(n - 1));
        assert(order.contains(order[n - 1]));
        assert(copies[n - 1].same(&store.entries()[order[n - 1]]));
        assert(store.entries().contains_key(order[n - 1]));
        assert(copies[n - 1].key == order[n - 1]);
        let a = order.take(n - 1);
        let b = order.take(n);
        assert(b =~= a.push(order[n - 1]));
        assert forall|k: u128| #[trigger] by_key(copies.take(n)).contains_key(k) <==> b.contains(
            k,
        ) by {
            assert(by_key(copies.take(n - 1)).contains_key(k) <==> a.contains(k));
            if a.contains(k) {
                assert(b[a.index_of(k)] == k);
            }
            assert(b[n - 1] == order[n - 1]);
        }
        assert forall|k: u128| #[trigger] by_key(copies.take(n)).contains_key(k) implies by_key(
            copies.take(n),
        )[k].same(&store.entries()[k]) by {
            if k != order[n - 1] {
                assert(by_key(copies.take(n - 1)).contains_key(k));
            }
        }
    }
}

/// What reading the idempotency file gave.
pub enum IdempRead {
    /// There is no file.
    Missing,
    /// The file could not be read, with the reason.
    Failed(String),
    /// The bytes of the file.
    Bytes(Vec<u8>),
}

/// What an idempotency file holds.
pub enum IdempFrame {
    /// A body that passed every check.
    Body(Vec<u8>),
    /// There is no file.
    Missing,
    /// The file cannot be used.
    Invalid {
        /// Why not.
        reason: String,
    },
}

/// What came of loading the idempotency file.
pub enum IdempLoad {
    /// The entries of the file.
    Loaded(Vec<IdempEntry>),
    /// There is no file.
    Missing,
    /// The file cannot be used.
    Invalid {
        /// Why not.
        reason: String,
    },
}

/// The bytes of an idempotency file with the given body: magic, version,
/// checksum, body.
pub open spec fn framed(body: Seq<u8>) -> Seq<u8> {
    IDEMP_MAGIC@ + crate::bytes::le_bytes(IDEMP_VERSION as nat, 2) + crate::bytes::le_bytes(
        crate::checksum::crc32_of(body) as nat,
        4,
    ) + body
}

/// Version that a header declares.
pub open spec fn declared_version(raw: Seq<u8>) -> nat {
    crate::bytes::le_value(raw.subrange(6, 8))
}

/// Checksum that a header declares.
pub open spec fn declared_crc(raw: Seq<u8>) -> nat {
    crate::bytes::le_value(raw.subrange(8, 12))
}

/// The body of a file.
pub open spec fn body_of(raw: Seq<u8>) -> Seq<u8> {
    raw.subrange(HEADER_LEN as int, raw.len() as int)
}

/// What is wrong with the bytes of a file, where something is and it is not
/// the version being from the future.
pub open spec fn frame_fault(raw: Seq<u8>) -> Option<Seq<char>> {
    if raw.len() < HEADER_LEN {
        Some("file too short: "@ + crate::text::decimal_text(raw.len()) + " bytes"@)
    } else if raw.subrange(0, 6) != IDEMP_MAGIC@ {
        Some("wrong magic bytes"@)
    } else if declared_version(raw) != IDEMP_VERSION {
        Some("unsupported version: "@ + crate::text::decimal_text(declared_version(raw)))
    } else if declared_crc(raw) != crate::checksum::crc32_of(body_of(raw)) {
        Some(
            "crc mismatch: stored "@ + crate::text::decimal_text(declared_crc(raw))
                + ", computed "@ + crate::text::decimal_text(
                crate::checksum::crc32_of(body_of(raw)) as nat,
            ),
        )
    } else {
        None
    }
}

/// The file comes from a later version of the format.
pub open spec fn from_future(raw: Seq<u8>) -> bool {
    raw.len() >= HEADER_LEN && raw.subrange(0, 6) == IDEMP_MAGIC@ && declared_version(raw)
        > IDEMP_VERSION
}

/// The bytes of an idempotency file with the given body.
pub fn frame_idemp_body(body: &[u8]) -> (raw: Vec<u8>)
    ensures
        raw@ == framed(body@),
{
    let mut raw: Vec<u8> = Vec::new();
    let magic: [u8; 6] = IDEMP_MAGIC;
    push_all(&mut raw, &magic);
    push_le(&mut raw, IDEMP_VERSION as u128, 2);
    push_le(&mut raw, crc32(body) as u128, 4);
    push_all(&mut raw, body);
    assert(raw@ =~= framed(body@));
    raw
}

/// Check what was read of an idempotency file. A file from a later version is
/// an error; any other fault makes the file count as unusable.
pub fn check_idemp_file(read: IdempRead) -> (r: Result<IdempFrame, StoreError>)
    ensures
        match read {
            IdempRead::Missing => r matches Ok(frame) && frame is Missing,
            IdempRead::Failed(error) => r matches Ok(frame) && (frame matches IdempFrame::Invalid {
                reason,
            } && reason@ == "read failed: "@ + error@),
            IdempRead::Bytes(raw) => if from_future(raw@) {
                r matches Err(e) && e == (StoreError::IdempotencyFutureVersion {
                    stored: declared_version(raw@) as u16,
                    current: IDEMP_VERSION,
                })
            } else {
                r matches Ok(frame) && match frame_fault(raw@) {
                    Some(fault) => frame matches IdempFrame::Invalid { reason } && reason@
                        == fault,
                    None => frame matches IdempFrame::Body(body) && body@ == body_of(raw@),
                }
            },
        },
{
    let raw = match read {
        IdempRead::Missing => {
            return Ok(IdempFrame::Missing);
        },
        IdempRead::Failed(error) => {
            let mut reason = "read failed: ".to_owned();
            reason.append(error.as_str());
            return Ok(IdempFrame::Invalid { reason });
        },
        IdempRead::Bytes(raw) => raw,
    };
    let bytes: &[u8] = raw.as_slice();
    if bytes.len() < HEADER_LEN {
        let mut reason = "file too short: ".to_owned();
        push_decimal(&mut reason, bytes.len() as u64);
        reason.append(" bytes");
        return Ok(IdempFrame::Invalid { reason });
    }
    let magic: [u8; 6] = IDEMP_MAGIC;
    let head = copy_range(bytes, 0, 6);
    if !bytes_equal(head.as_slice(), &magic) {
        return Ok(IdempFrame::Invalid { reason: "wrong magic bytes".to_owned() });
    }
    proof {
        crate::bytes::lemma_widths();
    }
    let version: u16 = read_le(bytes, 6, 2) as u16;
    if version > IDEMP_VERSION {
        return Err(
            StoreError::IdempotencyFutureVersion { stored: version, current: IDEMP_VERSION },
        );
    }
    if version != IDEMP_VERSION {
        let mut reason = "unsupported version: ".to_owned();
        push_decimal(&mut reason, version as u64);
        return Ok(IdempFrame::Invalid { reason });
    }
    let stored_crc: u32 = read_le(bytes, 8, 4) as u32;
    let body = copy_range(bytes, HEADER_LEN, bytes.len());
    let computed_crc: u32 = crc32(body.as_slice());
    if stored_crc != computed_crc {
        let mut reason = "crc mismatch: stored ".to_owned();
        push_decimal(&mut reason, stored_crc as u64);
        reason.append(", computed ");
        push_decimal(&mut reason, computed_crc as u64);
        return Ok(IdempFrame::Invalid { reason });
    }
    Ok(IdempFrame::Body(body))
}

/// What came of decoding a body that passed every check.
pub fn idemp_load(decoded: Result<Vec<IdempEntry>, String>) -> (r: IdempLoad)
    ensures
        match decoded {
            Ok(entries) => r == IdempLoad::Loaded(entries),
            Err(error) => r matches IdempLoad::Invalid { reason } && reason@ == "decode failed: "@
                + error@,
        },
{
    match decoded {
        Ok(entries) => IdempLoad::Loaded(entries),
        Err(error) => {
            let mut reason = "decode failed: ".to_owned();
            reason.append(error.as_str());
            IdempLoad::Invalid { reason }
        },
    }
}

/// A file that was written passes every check and gives its body back.
pub proof fn law_frame_reads_back(body: Seq<u8>)
    ensures
        !from_future(framed(body)),
        frame_fault(framed(body)) is None,
        body_of(framed(body)) == body,
{
    let raw = framed(body);
    let version = crate::bytes::le_bytes(IDEMP_VERSION as nat, 2);
    let crc = crate::bytes::le_bytes(crate::checksum::crc32_of(body) as nat, 4);
    crate::bytes::lemma_widths();
    crate::bytes::law_le_round_trip(IDEMP_VERSION as nat, 2);
    crate::bytes::law_le_round_trip(crate::checksum::crc32_of(body) as nat, 4);
    assert(raw.subrange(0, 6) =~= IDEMP_MAGIC@);
    assert(raw.subrange(6, 8) =~= version);
    assert(raw.subrange(8, 12) =~= crc);
    assert(body_of(raw) =~= body);
}

/// An idempotency file is twelve bytes of header and then the body: six bytes of
/// magic, the version in two and the checksum of the body in four, least
/// significant first.
pub proof fn law_idemp_file_is_laid_out(body: &[u8], raw: Vec<u8>)
    requires
        call_ensures(frame_idemp_body, (body,), raw),
    ensures
        raw@.len() == 12 + body@.len(),
        raw@.take(6) == seq![0x46u8, 0x42, 0x41, 0x54, 0x49, 0x44],
        raw@[6] == 1 && raw@[7] == 0,
        raw@[8] + 0x100 * raw@[9] + 0x1_0000 * raw@[10] + 0x100_0000 * raw@[11]
            == crate::checksum::crc32_of(body@),
        raw@.skip(12) == body@,
{
    let crc = crate::bytes::le_bytes(crate::checksum::crc32_of(body@) as nat, 4);
    let version = crate::bytes::le_bytes(1, 2);
    crate::bytes::lemma_widths();
    crate::bytes::law_le_round_trip(1, 2);
    crate::bytes::law_le_round_trip(crate::checksum::crc32_of(body@) as nat, 4);
    crate::bytes::law_le_value_of_four(crc);
    reveal_with_fuel(crate::bytes::le_bytes, 3);
    assert(version[0] == 1 && version[1] == 0);
    assert(raw@[6] == version[0]);
    assert(raw@[7] == version[1]);
    assert(raw@.subrange(8, 12) =~= crc);
    assert(raw@[8] == crc[0] && raw@[9] == crc[1] && raw@[10] == crc[2] && raw@[11] == crc[3]);
    assert(raw@.take(6) =~= seq![0x46u8, 0x42, 0x41, 0x54, 0x49, 0x44]);
    assert(raw@.skip(12) =~= body@);
}

/// A file is an error where it has a whole header, the magic and a version above
/// one. It gives a body, which is what comes after the header, exactly where it
/// has a whole header, the magic, version one and the checksum of that body; any
/// other file counts as unusable.
pub proof fn law_idemp_file_is_taken_where_in_order(
    raw: Vec<u8>,
    r: Result<IdempFrame, StoreError>,
)
    requires
        call_ensures(check_idemp_file, (IdempRead::Bytes(raw),), r),
    ensures
        ({
            let headed = raw@.len() >= 12 && raw@.take(6) == seq![
                0x46u8,
                0x42,
                0x41,
                0x54,
                0x49,
                0x44,
            ];
            &&& r is Err <==> headed && raw@[6] + 0x100 * raw@[7] > 1
            &&& r matches Err(e) ==> e == (StoreError::IdempotencyFutureVersion {
                stored: (raw@[6] + 0x100 * raw@[7]) as u16,
                current: 1,
            })
            &&& r matches Ok(frame) ==> (frame is Body <==> headed && raw@[6] == 1 && raw@[7] == 0
                && raw@[8] + 0x100 * raw@[9] + 0x1_0000 * raw@[10] + 0x100_0000 * raw@[11]
                == crate::checksum::crc32_of(raw@.skip(12)))
            &&& r matches Ok(frame) ==> !(frame is Missing)
            &&& r matches Ok(IdempFrame::Body(body)) ==> body@ == raw@.skip(12)
        }),
{
    assert(IDEMP_MAGIC@ =~= seq![0x46u8, 0x42, 0x41, 0x54, 0x49, 0x44]);
    if raw@.len() >= 12 {
        assert(raw@.take(6) =~= raw@.subrange(0, 6));
        assert(body_of(raw@) =~= raw@.skip(12));
        crate::bytes::law_le_value_of_four(raw@.subrange(8, 12));
        crate::bytes::law_le_value_of_two(raw@.subrange(6, 8));
    }
}

/// Two stores have the same policies where both the retention and what is done over the
/// cap are the same.
pub proof fn law_same_policies_agree(a: &IdempotencyStore, b: &IdempotencyStore)
    ensures
        a.same_policies(b) <==> a.policy() == b.policy() && a.overflow_policy()
            == b.overflow_policy(),
{
}

} // verus!
