//! Replay of events whose payloads may be encrypted. An event whose key was
//! destroyed has no payload any more; replay passes over it.

use crate::coordinate::Coordinate;
use crate::error::StoreError;
use crate::event::{EventId, EventKind};
use crate::keyscope::{payload_aad, scope_for, KeyStore};
use vstd::prelude::*;

verus! {

/// How a projection takes payloads.
pub trait ReplayInput {
    /// A payload as the projection takes it.
    type Payload;

    /// The payload of an event, from its bytes.
    fn payload_from_plaintext_bytes(bytes: Vec<u8>, event_kind: EventKind) -> Result<
        Self::Payload,
        StoreError,
    >;
}

/// A projection that takes the bytes of payloads as they are.
pub struct RawMsgpackInput;

impl ReplayInput for RawMsgpackInput {
    type Payload = Vec<u8>;

    fn payload_from_plaintext_bytes(bytes: Vec<u8>, event_kind: EventKind) -> (r: Result<
        Vec<u8>,
        StoreError,
    >)
        ensures
            r == Ok::<Vec<u8>, StoreError>(bytes),
    {
        Ok(bytes)
    }
}

/// An event as it was stored. Of its header and hash chain, replay reads what is
/// named here and carries the rest along.
#[derive(Debug)]
pub struct RawEntry<H> {
    /// Where it lives.
    pub coordinate: Coordinate,
    /// Its kind.
    pub event_kind: EventKind,
    /// Its id.
    pub event_id: EventId,
    /// The nonce of its payload, where the payload is encrypted.
    pub nonce: Option<[u8; 24]>,
    /// Its payload.
    pub payload: Vec<u8>,
    /// The header and hash chain.
    pub header: H,
}

/// An event for replay.
#[derive(Debug, PartialEq, Eq)]
pub struct ReplayedEvent<H, P> {
    /// The header and hash chain, as they were stored.
    pub header: H,
    /// The payload as the projection takes it.
    pub payload: P,
}

/// What is left of an encrypted payload.
#[derive(Debug, PartialEq, Eq)]
pub enum PayloadPlaintext {
    /// Its bytes.
    Plaintext(Vec<u8>),
    /// Nothing: the key was destroyed.
    Shredded,
}

/// What replay finds of a payload.
pub enum FoundPayload {
    /// Its bytes.
    Bytes(Seq<u8>),
    /// Nothing: the key was destroyed.
    Shredded,
    /// Bytes that the key does not open.
    Unreadable,
}

/// The scope of an entry's key.
pub open spec fn entry_scope<H>(keys: &KeyStore, entry: &RawEntry<H>) -> Seq<u8> {
    crate::keyscope::scope_bytes(
        keys.partition(),
        entry.coordinate.entity_spec(),
        entry.event_kind,
        entry.event_id.number(),
    )
}

/// What binds an entry's payload to the entry.
pub open spec fn entry_aad<H>(entry: &RawEntry<H>) -> Seq<u8> {
    crate::keyscope::aad_bytes(
        entry.coordinate.entity_spec(),
        entry.coordinate.scope_spec(),
        entry.event_kind,
        entry.event_id.number(),
    )
}

/// What replay finds of an entry's payload.
pub open spec fn found<H>(keys: &KeyStore, entry: &RawEntry<H>) -> FoundPayload {
    match entry.nonce {
        None => FoundPayload::Bytes(entry.payload@),
        Some(nonce) => if !keys.keys_by_scope().contains_key(entry_scope(keys, entry)) {
            FoundPayload::Shredded
        } else {
            match crate::keyscope::key::plaintext_of(
                keys.keys_by_scope()[entry_scope(keys, entry)],
                nonce@,
                entry_aad(entry),
                entry.payload@,
            ) {
                Some(bytes) => FoundPayload::Bytes(bytes),
                None => FoundPayload::Unreadable,
            }
        },
    }
}

/// What is left of an entry's payload that was encrypted with a nonce. A
/// payload that was sealed under its scope's key comes back.
pub fn open_encrypted_payload_bytes<H>(keys: &KeyStore, entry: &RawEntry<H>, nonce: &[u8; 24]) -> (r:
    Result<PayloadPlaintext, StoreError>)
    requires
        keys.wf(),
        entry.nonce == Some(*nonce),
    ensures
        match (found(keys, entry), r) {
            (FoundPayload::Bytes(bytes), Ok(PayloadPlaintext::Plaintext(plain))) => plain@ == bytes,
            (FoundPayload::Shredded, Ok(PayloadPlaintext::Shredded)) => true,
            (FoundPayload::Unreadable, Err(e)) => e == (StoreError::PayloadCipher {
                event_id: entry.event_id.number(),
            }),
            _ => false,
        },
        forall|plaintext: Seq<u8>|
            #![trigger crate::keyscope::key::sealed_of(
                keys.keys_by_scope()[entry_scope(keys, entry)],
                nonce@,
                entry_aad(entry),
                plaintext,
            )]
            keys.keys_by_scope().contains_key(entry_scope(keys, entry))
                && crate::keyscope::key::openable(entry.payload@)
                && crate::keyscope::key::sealable(plaintext)
                && crate::keyscope::key::sealed_of(
                keys.keys_by_scope()[entry_scope(keys, entry)],
                nonce@,
                entry_aad(entry),
                plaintext,
            ) == entry.payload@ ==> (r matches Ok(PayloadPlaintext::Plaintext(plain)) && plain@
                == plaintext),
{
    let scope = scope_for(
        keys.granularity(),
        &entry.coordinate,
        entry.event_kind,
        entry.event_id,
    );
    match keys.get(&scope) {
        None => Ok(PayloadPlaintext::Shredded),
        Some(key) => {
            let aad = payload_aad(&entry.coordinate, entry.event_kind, entry.event_id);
            match key.open(nonce, aad.as_slice(), entry.payload.as_slice()) {
                Ok(bytes) => Ok(PayloadPlaintext::Plaintext(bytes)),
                Err(_) => Err(
                    StoreError::PayloadCipher { event_id: entry.event_id.as_u128() },
                ),
            }
        },
    }
}

/// `r` is what replay makes of an entry: nothing of one whose key was
/// destroyed, else its header and hash chain, with what the projection makes of the
/// bytes.
pub open spec fn replays_as<I: ReplayInput, H>(
    keys: &KeyStore,
    entry: &RawEntry<H>,
    r: Result<Option<ReplayedEvent<H, I::Payload>>, StoreError>,
) -> bool {
    match found(keys, entry) {
        FoundPayload::Shredded => r is Ok && r->Ok_0 is None,
        FoundPayload::Unreadable => r is Err && r->Err_0 == (StoreError::PayloadCipher {
            event_id: entry.event_id.number(),
        }),
        FoundPayload::Bytes(bytes) => exists|plain: Vec<u8>, made: Result<I::Payload, StoreError>|
            plain@ == bytes && #[trigger] call_ensures(
                I::payload_from_plaintext_bytes,
                (plain, entry.event_kind),
                made,
            ) && match (made, r) {
                (Ok(payload), Ok(Some(event))) => event.payload == payload && event.header
                    == entry.header,
                (Err(a), Err(b)) => a == b,
                _ => false,
            },
    }
}

/// One event for replay: `None` where its key was destroyed.
pub fn read_one_key_aware<I: ReplayInput, H>(keys: &KeyStore, entry: RawEntry<H>) -> (r: Result<
    Option<ReplayedEvent<H, I::Payload>>,
    StoreError,
>)
    requires
        keys.wf(),
    ensures
        replays_as::<I, H>(keys, &entry, r),
{
    let nonce = match entry.nonce {
        Some(nonce) => nonce,
        None => {
            return match I::payload_from_plaintext_bytes(entry.payload, entry.event_kind) {
                Ok(payload) => Ok(Some(ReplayedEvent { header: entry.header, payload })),
                Err(e) => Err(e),
            };
        },
    };
    match open_encrypted_payload_bytes(keys, &entry, &nonce) {
        Err(e) => Err(e),
        Ok(PayloadPlaintext::Shredded) => Ok(None),
        Ok(PayloadPlaintext::Plaintext(plain)) => {
            match I::payload_from_plaintext_bytes(plain, entry.event_kind) {
                Ok(payload) => Ok(Some(ReplayedEvent { header: entry.header, payload })),
                Err(e) => Err(e),
            }
        },
    }
}

/// The values that are there, in order.
pub open spec fn present<P>(slots: Seq<Option<P>>) -> Seq<P>
    decreases slots.len(),
{
    if slots.len() == 0 {
        Seq::empty()
    } else {
        match slots.last() {
            Some(p) => present(slots.drop_last()).push(p),
            None => present(slots.drop_last()),
        }
    }
}

/// The first entries replay as the slots say.
pub open spec fn replay_slots<I: ReplayInput, H>(
    keys: &KeyStore,
    entries: Seq<RawEntry<H>>,
    slots: Seq<Option<ReplayedEvent<H, I::Payload>>>,
) -> bool {
    &&& slots.len() <= entries.len()
    &&& forall|i: int|
        0 <= i < slots.len() ==> replays_as::<I, H>(
            keys,
            &entries[i],
            Ok::<Option<ReplayedEvent<H, I::Payload>>, StoreError>(#[trigger] slots[i]),
        )
}

/// Events for replay, in order, without those whose keys were destroyed. The
/// first error ends it.
pub fn read_batch_key_aware<I: ReplayInput, H>(keys: &KeyStore, entries: Vec<RawEntry<H>>) -> (r: Result<
    Vec<ReplayedEvent<H, I::Payload>>,
    StoreError,
>)
    requires
        keys.wf(),
    ensures
        match r {
            Ok(events) => exists|slots: Seq<Option<ReplayedEvent<H, I::Payload>>>|
                slots.len() == entries@.len() && #[trigger] replay_slots::<I, H>(
                    keys,
                    entries@,
                    slots,
                ) && events@ == present(slots),
            Err(e) => exists|slots: Seq<Option<ReplayedEvent<H, I::Payload>>>|
                slots.len() < entries@.len() && #[trigger] replay_slots::<I, H>(
                    keys,
                    entries@,
                    slots,
                ) && replays_as::<I, H>(
                    keys,
                    &entries@[slots.len() as int],
                    Err::<Option<ReplayedEvent<H, I::Payload>>, StoreError>(e),
                ),
        },
{
    let ghost all = entries@;
    let ghost mut slots: Seq<Option<ReplayedEvent<H, I::Payload>>> = Seq::empty();
    let mut events: Vec<ReplayedEvent<H, I::Payload>> = Vec::new();
    for entry in it: entries.into_iter()
        invariant
            keys.wf(),
            it.seq() == all,
            slots.len() == it.index(),
            replay_slots::<I, H>(keys, all, slots),
            events@ == present(slots),
    {
        let ghost at = slots.len() as int;
        assert(entry == all[at]);
        match read_one_key_aware::<I, H>(keys, entry) {
            Err(e) => {
                return Err(e);
            },
            Ok(slot) => {
                proof {
                    let longer = slots.push(slot);
                    assert(longer.drop_last() =~= slots);
                    assert forall|i: int| 0 <= i < longer.len() implies replays_as::<I, H>(
                        keys,
                        &all[i],
                        Ok::<Option<ReplayedEvent<H, I::Payload>>, StoreError>(#[trigger] longer[i]),
                    ) by {
                        if i < at {
                            assert(longer[i] == slots[i]);
                        }
                    }
                    slots = longer;
                }
                if let Some(event) = slot {
                    events.push(event);
                }
            },
        }
    }
    Ok(events)
}

/// Destroying a key takes exactly the encrypted payloads of its scope out of
/// replay. Every other payload is found as before.
pub proof fn law_destroyed_keys_take_their_payloads<H>(
    before: &KeyStore,
    after: &KeyStore,
    scope: Seq<u8>,
    entry: &RawEntry<H>,
)
    requires
        after.partition() == before.partition(),
        after.keys_by_scope() == before.keys_by_scope().remove(scope),
    ensures
        entry.nonce is Some && entry_scope(before, entry) == scope ==> found(
            after,
            entry,
        ) is Shredded,
        !(entry.nonce is Some && entry_scope(before, entry) == scope) ==> found(after, entry)
            == found(before, entry),
{
}

/// What a fetch for delivery gives.
#[derive(Debug)]
pub enum DeliveryPayload<T> {
    /// An event with its payload.
    Readable(T),
    /// An event whose key was destroyed.
    Shredded {
        /// The event.
        event_id: u128,
    },
}

/// An event for delivery; one whose key was destroyed is an error, which the
/// delivery loop passes over.
pub fn fetch_raw_key_aware<T>(fetched: DeliveryPayload<T>) -> (r: Result<T, StoreError>)
    ensures
        match fetched {
            DeliveryPayload::Readable(stored) => r == Ok::<T, StoreError>(stored),
            DeliveryPayload::Shredded { event_id } => r is Err && r->Err_0 == (
            StoreError::PayloadShredded { event_id }),
        },
{
    match fetched {
        DeliveryPayload::Readable(stored) => Ok(stored),
        DeliveryPayload::Shredded { event_id } => Err(StoreError::PayloadShredded { event_id }),
    }
}

/// An encrypted payload is gone exactly where the store holds no key of the event's
/// scope. Where it holds one, the payload is what that key opens with the nonce and
/// the event's own associated data, or an error that names the event.
pub proof fn law_payload_goes_with_its_key<H>(
    keys: &KeyStore,
    entry: &RawEntry<H>,
    nonce: &[u8; 24],
    granularity: crate::keyscope::KeyScopeGranularity,
    scope: crate::keyscope::KeyScope,
    aad: Vec<u8>,
    r: Result<PayloadPlaintext, StoreError>,
)
    requires
        keys.wf(),
        entry.nonce == Some(*nonce),
        call_ensures(KeyStore::granularity, (keys,), granularity),
        call_ensures(
            scope_for,
            (granularity, &entry.coordinate, entry.event_kind, entry.event_id),
            scope,
        ),
        call_ensures(payload_aad, (&entry.coordinate, entry.event_kind, entry.event_id), aad),
        call_ensures(open_encrypted_payload_bytes::<H>, (keys, entry, nonce), r),
    ensures
        r == Ok::<PayloadPlaintext, StoreError>(PayloadPlaintext::Shredded)
            <==> !keys.keys_by_scope().contains_key(scope@),
        r matches Ok(PayloadPlaintext::Plaintext(plain)) ==> keys.keys_by_scope().contains_key(
            scope@,
        ) && crate::keyscope::key::plaintext_of(
            keys.keys_by_scope()[scope@],
            nonce@,
            aad@,
            entry.payload@,
        ) == Some(plain@),
        r matches Err(e) ==> keys.keys_by_scope().contains_key(scope@)
            && crate::keyscope::key::plaintext_of(
            keys.keys_by_scope()[scope@],
            nonce@,
            aad@,
            entry.payload@,
        ) is None && e == (StoreError::PayloadCipher { event_id: entry.event_id.number() }),
{
}

/// An event that was never encrypted replays with its payload and header as they were
/// stored, whatever keys there are. One that was encrypted and has no key is passed
/// over.
pub proof fn law_plain_events_replay_as_stored<H>(
    keys: &KeyStore,
    entry: RawEntry<H>,
    r: Result<Option<ReplayedEvent<H, Vec<u8>>>, StoreError>,
)
    requires
        keys.wf(),
        call_ensures(read_one_key_aware::<RawMsgpackInput, H>, (keys, entry), r),
    ensures
        entry.nonce is None ==> r is Ok && r->Ok_0 is Some && (r->Ok_0->0).header == entry.header
            && (r->Ok_0->0).payload@ == entry.payload@,
        r is Ok && r->Ok_0 is None ==> entry.nonce is Some
            && !keys.keys_by_scope().contains_key(entry_scope(keys, &entry)),
        entry.nonce is Some && !keys.keys_by_scope().contains_key(entry_scope(keys, &entry))
            ==> r is Ok && r->Ok_0 is None,
        r is Ok && r->Ok_0 is Some ==> (r->Ok_0->0).header == entry.header,
{
}

/// A batch replays in order: `at` tells, by ascending places, which entry each event is
/// of. Exactly those are passed over that were encrypted and have no key.
pub proof fn law_batch_replays_in_order<I: ReplayInput, H>(
    keys: &KeyStore,
    entries: Vec<RawEntry<H>>,
    events: Vec<ReplayedEvent<H, I::Payload>>,
) -> (at: Seq<int>)
    requires
        keys.wf(),
        call_ensures(
            read_batch_key_aware::<I, H>,
            (keys, entries),
            Ok::<Vec<ReplayedEvent<H, I::Payload>>, StoreError>(events),
        ),
    ensures
        at.len() == events@.len(),
        forall|i: int, j: int| 0 <= i < j < at.len() ==> #[trigger] at[i] < #[trigger] at[j],
        forall|i: int|
            #![trigger at[i]]
            0 <= i < at.len() ==> 0 <= at[i] < entries@.len() && events@[i].header
                == entries@[at[i]].header,
        forall|k: int|
            #![trigger entries@[k]]
            0 <= k < entries@.len() ==> (at.contains(k) <==> !(entries@[k].nonce is Some
                && !keys.keys_by_scope().contains_key(entry_scope(keys, &entries@[k])))),
{
    let slots = choose|slots: Seq<Option<ReplayedEvent<H, I::Payload>>>|
        slots.len() == entries@.len() && #[trigger] replay_slots::<I, H>(keys, entries@, slots)
            && events@ == present(slots);
    let at = lemma_present_places(slots);
    assert forall|i: int|
        #![trigger at[i]]
        0 <= i < at.len() implies 0 <= at[i] < entries@.len() && events@[i].header
        == entries@[at[i]].header by {
        assert(slots[at[i]] == Some(events@[i]));
    }
    assert forall|k: int|
        #![trigger entries@[k]]
        0 <= k < entries@.len() implies (at.contains(k) <==> !(entries@[k].nonce is Some
        && !keys.keys_by_scope().contains_key(entry_scope(keys, &entries@[k])))) by {
        assert(replays_as::<I, H>(
            keys,
            &entries@[k],
            Ok::<Option<ReplayedEvent<H, I::Payload>>, StoreError>(slots[k]),
        ));
        if at.contains(k) {
            let i = choose|i: int| 0 <= i < at.len() && at[i] == k;
            assert(slots[at[i]] is Some);
        }
    }
    at
}

proof fn lemma_present_places<P>(slots: Seq<Option<P>>) -> (at: Seq<int>)
    ensures
        at.len() == present(slots).len(),
        forall|i: int, j: int| 0 <= i < j < at.len() ==> #[trigger] at[i] < #[trigger] at[j],
        forall|i: int|
            #![trigger at[i]]
            0 <= i < at.len() ==> 0 <= at[i] < slots.len() && slots[at[i]] == Some(
                present(slots)[i],
            ),
        forall|k: int|
            #![trigger slots[k]]
            0 <= k < slots.len() && slots[k] is Some ==> at.contains(k),
    decreases slots.len(),
{
    if slots.len() == 0 {
        Seq::empty()
    } else {
        let front = slots.drop_last();
        let before = lemma_present_places(front);
        let last = slots.len() - 1;
        let at = if slots.last() is Some {
            before.push(last)
        } else {
            before
        };
        assert forall|i: int|
            #![trigger at[i]]
            0 <= i < at.len() implies 0 <= at[i] < slots.len() && slots[at[i]] == Some(
            present(slots)[i],
        ) by {
            if i < before.len() {
                assert(before[i] == at[i]);
                assert(front[before[i]] == slots[at[i]]);
            }
        }
        assert forall|k: int|
            #![trigger slots[k]]
            0 <= k < slots.len() && slots[k] is Some implies at.contains(k) by {
            if k < last {
                assert(front[k] == slots[k]);
                let i = choose|i: int| 0 <= i < before.len() && before[i] == k;
                assert(at[i] == k);
            } else {
                assert(at[before.len() as int] == k);
            }
        }
        assert forall|i: int, j: int| 0 <= i < j < at.len() implies #[trigger] at[i]
            < #[trigger] at[j] by {
            assert(at[i] == before[i]);
            if j < before.len() {
                assert(at[j] == before[j]);
            }
        }
        at
    }
}

} // verus!
