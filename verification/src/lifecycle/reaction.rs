//! What a reactor's handler wants appended, kept together until the handler has
//! succeeded.

use crate::coordinate::Coordinate;
use crate::error::StoreError;
use crate::event::EventKind;
use vstd::prelude::*;

verus! {

/// A payload of a fixed kind.
pub trait EventPayload {
    /// The kind.
    fn kind() -> EventKind;

    /// The payload's bytes, or why there are none.
    fn encode(&self) -> Result<Vec<u8>, String>;
}

/// What caused an event.
#[derive(Clone, Copy, Debug, PartialEq, Eq, Structural)]
pub enum CausationRef {
    /// Nothing in particular.
    Unspecified,
    /// An event.
    Absolute(u128),
    /// An event earlier in the same batch.
    PriorItem(usize),
}

/// How an event is appended.
#[derive(Clone, Copy, Debug, PartialEq, Eq, Structural)]
pub struct AppendOptions {
    /// The key under which it is appended once.
    pub idempotency_key: Option<u128>,
}

impl Default for AppendOptions {
    fn default() -> (r: AppendOptions)
        ensures
            r.idempotency_key is None,
    {
        AppendOptions { idempotency_key: None }
    }
}

/// An event to append.
#[derive(Debug, PartialEq, Eq)]
pub struct BatchAppendItem {
    /// Where.
    pub coordinate: Coordinate,
    /// Its kind.
    pub kind: EventKind,
    /// The bytes of its payload.
    pub payload: Vec<u8>,
    /// How.
    pub options: AppendOptions,
    /// What caused it.
    pub causation: CausationRef,
}

/// A batch to append as one.
#[derive(Debug, PartialEq, Eq)]
pub struct ReactionAppend {
    /// What the events belong to.
    pub correlation_id: u128,
    /// The events.
    pub items: Vec<BatchAppendItem>,
}

/// The event with its cause: the triggering event where none was named.
pub open spec fn caused(item: BatchAppendItem, causation_id: u128) -> BatchAppendItem {
    BatchAppendItem {
        causation: match item.causation {
            CausationRef::Unspecified => CausationRef::Absolute(causation_id),
            other => other,
        },
        ..item
    }
}

/// What a handler wants appended.
#[derive(Debug)]
pub struct ReactionBatch {
    items: Vec<BatchAppendItem>,
}

impl ReactionBatch {
    /// The events so far.
    pub closed spec fn items(&self) -> Seq<BatchAppendItem> {
        self.items@
    }

    /// Nothing yet.
    pub fn new() -> (r: ReactionBatch)
        ensures
            r.items().len() == 0,
    {
        ReactionBatch { items: Vec::new() }
    }

    /// One more event, of the payload's kind.
    pub fn push_typed<T: EventPayload>(
        &mut self,
        coordinate: Coordinate,
        payload: &T,
        causation: CausationRef,
    ) -> (r: Result<(), StoreError>)
        ensures
            pushed_from::<T>(
                final(self).items(),
                old(self).items(),
                coordinate,
                payload,
                AppendOptions { idempotency_key: None },
                causation,
                r,
            ),
    {
        self.push_typed_with_options(coordinate, payload, AppendOptions::default(), causation)
    }

    /// One more event, of the payload's kind, appended with options. Where the
    /// payload has no bytes the batch stays as it was.
    pub fn push_typed_with_options<T: EventPayload>(
        &mut self,
        coordinate: Coordinate,
        payload: &T,
        options: AppendOptions,
        causation: CausationRef,
    ) -> (r: Result<(), StoreError>)
        ensures
            pushed_from::<T>(
                final(self).items(),
                old(self).items(),
                coordinate,
                payload,
                options,
                causation,
                r,
            ),
    {
        let encoded = payload.encode();
        let kind = T::kind();
        match encoded {
            Ok(bytes) => {
                self.items.push(
                    BatchAppendItem { coordinate, kind, payload: bytes, options, causation },
                );
                Ok(())
            },
            Err(message) => Err(StoreError::Serialization { message }),
        }
    }

    /// Number of events.
    pub fn len(&self) -> (n: usize)
        ensures
            n == self.items().len(),
    {
        self.items.len()
    }

    /// Whether there are none.
    pub fn is_empty(&self) -> (r: bool)
        ensures
            r == (self.items().len() == 0),
    {
        self.items.len() == 0
    }

    /// What to append once the handler has succeeded: nothing where nothing was
    /// wanted. Events without a cause of their own are caused by the event that
    /// triggered the handler.
    pub fn flush(self, correlation_id: u128, causation_id: u128) -> (r: Option<ReactionAppend>)
        ensures
            match r {
                None => self.items().len() == 0,
                Some(append) => self.items().len() > 0 && append.correlation_id == correlation_id
                    && append.items@ == self.items().map_values(
                    |item: BatchAppendItem| caused(item, causation_id),
                ),
            },
    {
        if self.items.len() == 0 {
            return None;
        }
        let ghost all = self.items@;
        let ghost fill = |item: BatchAppendItem| caused(item, causation_id);
        let mut items: Vec<BatchAppendItem> = Vec::new();
        for item in it: self.items.into_iter()
            invariant
                it.seq() == all,
                fill == |item: BatchAppendItem| caused(item, causation_id),
                items@ == all.take(it.index() as int).map_values(fill),
        {
            let ghost at = it.index() as int;
            assert(item == all[at]);
            let causation = match item.causation {
                CausationRef::Unspecified => CausationRef::Absolute(causation_id),
                other => other,
            };
            items.push(
                BatchAppendItem {
                    coordinate: item.coordinate,
                    kind: item.kind,
                    payload: item.payload,
                    options: item.options,
                    causation,
                },
            );
            assert(items@ =~= all.take(at + 1).map_values(fill));
        }
        assert(all.take(all.len() as int) =~= all);
        Some(ReactionAppend { correlation_id, items })
    }
}

/// A batch has one more event, or stayed as it was where the payload had no
/// bytes.
pub open spec fn pushed_from<T: EventPayload>(
    after: Seq<BatchAppendItem>,
    before: Seq<BatchAppendItem>,
    coordinate: Coordinate,
    payload: &T,
    options: AppendOptions,
    causation: CausationRef,
    r: Result<(), StoreError>,
) -> bool {
    exists|encoded: Result<Vec<u8>, String>, kind: EventKind|
        #![trigger call_ensures(T::encode, (payload,), encoded), call_ensures(T::kind, (), kind)]
        call_ensures(T::encode, (payload,), encoded) && call_ensures(T::kind, (), kind) && match (
            encoded,
            r,
        ) {
            (Ok(bytes), Ok(_)) => after == before.push(
                BatchAppendItem { coordinate, kind, payload: bytes, options, causation },
            ),
            (Err(text), Err(StoreError::Serialization { message })) => after == before && message
                == text,
            _ => false,
        }
}

impl Default for ReactionBatch {
    fn default() -> (r: ReactionBatch)
        ensures
            r.items().len() == 0,
    {
        ReactionBatch::new()
    }
}

/// A typed push is the push with default options: for a payload that encodes one
/// way, both give the same result and leave the same events.
pub proof fn law_typed_push_takes_default_options<T: EventPayload>(
    before: Seq<BatchAppendItem>,
    typed: Seq<BatchAppendItem>,
    optioned: Seq<BatchAppendItem>,
    coordinate: Coordinate,
    payload: &T,
    options: AppendOptions,
    causation: CausationRef,
    typed_result: Result<(), StoreError>,
    optioned_result: Result<(), StoreError>,
)
    requires
        call_ensures(AppendOptions::default, (), options),
        pushed_from::<T>(
            typed,
            before,
            coordinate,
            payload,
            AppendOptions { idempotency_key: None },
            causation,
            typed_result,
        ),
        pushed_from::<T>(
            optioned,
            before,
            coordinate,
            payload,
            options,
            causation,
            optioned_result,
        ),
        forall|a: Result<Vec<u8>, String>, b: Result<Vec<u8>, String>| #[trigger]
            call_ensures(T::encode, (payload,), a) && #[trigger] call_ensures(
                T::encode,
                (payload,),
                b,
            ) ==> a == b,
        forall|a: EventKind, b: EventKind| #[trigger]
            call_ensures(T::kind, (), a) && #[trigger] call_ensures(T::kind, (), b) ==> a == b,
    ensures
        typed == optioned,
        typed_result == optioned_result,
{
    if typed_result is Ok {
        assert(typed_result->Ok_0 == optioned_result->Ok_0);
    }
}

/// Whatever a payload encodes to, a typed push may end in just the ways in which
/// the push with default options may.
pub proof fn law_typed_push_ends_like_default_push<T: EventPayload>(
    before: Seq<BatchAppendItem>,
    after: Seq<BatchAppendItem>,
    coordinate: Coordinate,
    payload: &T,
    options: AppendOptions,
    causation: CausationRef,
    r: Result<(), StoreError>,
)
    requires
        call_ensures(AppendOptions::default, (), options),
    ensures
        pushed_from::<T>(
            after,
            before,
            coordinate,
            payload,
            AppendOptions { idempotency_key: None },
            causation,
            r,
        ) == pushed_from::<T>(after, before, coordinate, payload, options, causation, r),
{
}

/// A cause that an event names for itself is never replaced by the triggering
/// event.
pub proof fn law_named_causes_stay(item: BatchAppendItem, causation_id: u128)
    ensures
        !(item.causation is Unspecified) ==> caused(item, causation_id) == item,
        !(caused(item, causation_id).causation is Unspecified),
{
}

/// A batch is flushed as it was pushed: one event for each, in order and with
/// everything it had, under the given correlation. An event that names its cause
/// keeps it; the others are caused by the event that triggered the handler.
/// Nothing is appended where nothing was pushed.
pub proof fn law_flush_appends_what_was_pushed(
    batch: ReactionBatch,
    correlation_id: u128,
    causation_id: u128,
    r: Option<ReactionAppend>,
    i: int,
)
    requires
        call_ensures(ReactionBatch::flush, (batch, correlation_id, causation_id), r),
    ensures
        r is None <==> batch.items().len() == 0,
        r matches Some(append) ==> append.correlation_id == correlation_id && append.items@.len()
            == batch.items().len(),
        r is Some && 0 <= i < batch.items().len() ==> {
            let before = batch.items()[i];
            let after = r->0.items@[i];
            &&& after.coordinate == before.coordinate
            &&& after.kind == before.kind
            &&& after.payload == before.payload
            &&& after.options == before.options
            &&& before.causation is Unspecified ==> after.causation == CausationRef::Absolute(
                causation_id,
            )
            &&& before.causation is Absolute ==> after.causation == before.causation
            &&& before.causation is PriorItem ==> after.causation == before.causation
        },
{
}

/// A push adds one event at the end, of the payload's kind and with its bytes,
/// and leaves the others; where the payload has no bytes it adds none.
pub proof fn law_push_adds_one_event<T: EventPayload>(
    before: Seq<BatchAppendItem>,
    after: Seq<BatchAppendItem>,
    coordinate: Coordinate,
    payload: &T,
    options: AppendOptions,
    causation: CausationRef,
    r: Result<(), StoreError>,
)
    requires
        pushed_from::<T>(after, before, coordinate, payload, options, causation, r),
    ensures
        r is Err ==> after == before && r->Err_0 is Serialization,
        r is Ok ==> {
            &&& after.len() == before.len() + 1
            &&& after.drop_last() == before
            &&& after.last().coordinate == coordinate
            &&& after.last().options == options
            &&& after.last().causation == causation
            &&& call_ensures(T::kind, (), after.last().kind)
            &&& call_ensures(T::encode, (payload,), Ok::<Vec<u8>, String>(after.last().payload))
        },
{
    if r is Ok {
        assert(after.drop_last() =~= before);
    }
}

} // verus!
