//! Keys for payload encryption, one for each scope.
//!
//! Destroying the key of a scope makes every payload that was sealed under it
//! unrecoverable. Which events share a key is a matter of the granularity alone.

pub mod key;
pub mod persist;

use self::key::PayloadKey;
use crate::bytes::{push_all, push_be, push_le};
use crate::coordinate::Coordinate;
use crate::event::{EventId, EventKind};
use crate::text::{bytes_equal, bytes_precede, push_hex};
use vstd::prelude::*;

verus! {

/// A failure of the key store or its cipher.
#[derive(Clone, Copy, Debug, PartialEq, Eq, Structural)]
pub enum KeyStoreError {
    /// The random source failed.
    Rng,
    /// The cipher rejected the length of the key.
    KeyInit,
    /// Encryption failed.
    Seal,
    /// Decryption failed. No more is said.
    Open,
}

impl KeyStoreError {
    /// The error in words.
    pub fn message(&self) -> (text: &'static str)
        ensures
            text@ == match self {
                KeyStoreError::Rng => "CSPRNG failed to produce key material"@,
                KeyStoreError::KeyInit => "AEAD key initialization rejected the key length"@,
                KeyStoreError::Seal => "authenticated encryption failed"@,
                KeyStoreError::Open => "authenticated decryption failed"@,
            },
    {
        match self {
            KeyStoreError::Rng => "CSPRNG failed to produce key material",
            KeyStoreError::KeyInit => "AEAD key initialization rejected the key length",
            KeyStoreError::Seal => "authenticated encryption failed",
            KeyStoreError::Open => "authenticated decryption failed",
        }
    }
}

/// Which events share a key.
#[derive(Clone, Copy, Debug, PartialEq, Eq, Hash, Structural)]
pub enum KeyScopeGranularity {
    /// One key for each entity.
    PerEntity,
    /// One key for each category of kinds.
    PerCategory,
    /// One key for each kind.
    PerTypeId,
    /// One key for each event.
    PerEvent,
}

impl Default for KeyScopeGranularity {
    fn default() -> (r: KeyScopeGranularity)
        ensures
            r == KeyScopeGranularity::PerEntity,
    {
        KeyScopeGranularity::PerEntity
    }
}

/// The identity that a key is filed under: opaque bytes.
#[derive(Clone, Debug, PartialEq, Eq, PartialOrd, Ord, Hash)]
pub struct KeyScope {
    bytes: Vec<u8>,
}

impl View for KeyScope {
    type V = Seq<u8>;

    closed spec fn view(&self) -> Seq<u8> {
        self.bytes@
    }
}

/// Scope bytes of an event: a byte for the granularity, then the one field that
/// it looks at.
pub open spec fn scope_bytes(
    granularity: KeyScopeGranularity,
    entity: Seq<char>,
    kind: EventKind,
    event_id: u128,
) -> Seq<u8> {
    match granularity {
        KeyScopeGranularity::PerEntity => seq![1u8] + crate::text::utf8(entity),
        KeyScopeGranularity::PerCategory => seq![2u8, kind.category_spec()],
        KeyScopeGranularity::PerTypeId => seq![3u8] + crate::bytes::be_bytes(kind.raw() as nat, 2),
        KeyScopeGranularity::PerEvent => seq![4u8] + crate::bytes::be_bytes(event_id as nat, 16),
    }
}

fn scope_per_entity(entity: &str) -> (scope: KeyScope)
    ensures
        scope@ == seq![1u8] + crate::text::utf8(entity@),
{
    let mut bytes: Vec<u8> = Vec::new();
    bytes.push(1);
    push_all(&mut bytes, entity.as_bytes());
    assert(bytes@ =~= seq![1u8] + crate::text::utf8(entity@));
    KeyScope { bytes }
}

fn scope_per_category(category: u8) -> (scope: KeyScope)
    ensures
        scope@ == seq![2u8, category],
{
    let mut bytes: Vec<u8> = Vec::new();
    bytes.push(2);
    bytes.push(category);
    assert(bytes@ =~= seq![2u8, category]);
    KeyScope { bytes }
}

fn scope_per_type_id(kind_raw: u16) -> (scope: KeyScope)
    ensures
        scope@ == seq![3u8] + crate::bytes::be_bytes(kind_raw as nat, 2),
{
    let mut bytes: Vec<u8> = Vec::new();
    bytes.push(3);
    push_be(&mut bytes, kind_raw as u128, 2);
    assert(bytes@ =~= seq![3u8] + crate::bytes::be_bytes(kind_raw as nat, 2));
    KeyScope { bytes }
}

fn scope_per_event(event_id: u128) -> (scope: KeyScope)
    ensures
        scope@ == seq![4u8] + crate::bytes::be_bytes(event_id as nat, 16),
{
    let mut bytes: Vec<u8> = Vec::new();
    bytes.push(4);
    push_be(&mut bytes, event_id, 16);
    assert(bytes@ =~= seq![4u8] + crate::bytes::be_bytes(event_id as nat, 16));
    KeyScope { bytes }
}

/// The scope that an event's payload key is filed under.
#[must_use]
pub fn scope_for(
    granularity: KeyScopeGranularity,
    coordinate: &Coordinate,
    event_kind: EventKind,
    event_id: EventId,
) -> (scope: KeyScope)
    ensures
        scope@ == scope_bytes(
            granularity,
            coordinate.entity_spec(),
            event_kind,
            event_id.number(),
        ),
{
    match granularity {
        KeyScopeGranularity::PerEntity => scope_per_entity(coordinate.entity()),
        KeyScopeGranularity::PerCategory => scope_per_category(event_kind.category()),
        KeyScopeGranularity::PerTypeId => scope_per_type_id(event_kind.as_raw_u16()),
        KeyScopeGranularity::PerEvent => scope_per_event(event_id.as_u128()),
    }
}

/// Two events share a scope exactly where they agree in the field that the
/// granularity looks at, and scopes of two granularities never meet.
pub proof fn law_scopes_partition(
    g1: KeyScopeGranularity,
    entity1: Seq<char>,
    kind1: EventKind,
    id1: u128,
    g2: KeyScopeGranularity,
    entity2: Seq<char>,
    kind2: EventKind,
    id2: u128,
)
    ensures
        scope_bytes(g1, entity1, kind1, id1) == scope_bytes(g2, entity2, kind2, id2) <==> g1 == g2
            && match g1 {
            KeyScopeGranularity::PerEntity => entity1 == entity2,
            KeyScopeGranularity::PerCategory => kind1.category_spec() == kind2.category_spec(),
            KeyScopeGranularity::PerTypeId => kind1 == kind2,
            KeyScopeGranularity::PerEvent => id1 == id2,
        },
{
    let a = scope_bytes(g1, entity1, kind1, id1);
    let b = scope_bytes(g2, entity2, kind2, id2);
    crate::bytes::lemma_widths();
    crate::event::law_kind_is_category_and_type(kind1, kind2);
    if a == b {
        assert(a[0] == b[0]);
        assert(g1 == g2);
        match g1 {
            KeyScopeGranularity::PerEntity => {
                assert(a.skip(1) =~= crate::text::utf8(entity1));
                assert(b.skip(1) =~= crate::text::utf8(entity2));
                crate::text::law_utf8_injective(entity1, entity2);
            },
            KeyScopeGranularity::PerCategory => {
                assert(a[1] == b[1]);
            },
            KeyScopeGranularity::PerTypeId => {
                assert(a.skip(1) =~= crate::bytes::be_bytes(kind1.raw() as nat, 2));
                assert(b.skip(1) =~= crate::bytes::be_bytes(kind2.raw() as nat, 2));
                crate::bytes::law_be_round_trip(kind1.raw() as nat, 2);
                crate::bytes::law_be_round_trip(kind2.raw() as nat, 2);
            },
            KeyScopeGranularity::PerEvent => {
                assert(a.skip(1) =~= crate::bytes::be_bytes(id1 as nat, 16));
                assert(b.skip(1) =~= crate::bytes::be_bytes(id2 as nat, 16));
                crate::bytes::law_be_round_trip(id1 as nat, 16);
                crate::bytes::law_be_round_trip(id2 as nat, 16);
            },
        }
    }
}

/// Two events get the same scope exactly where both are scoped by entity and
/// have one entity, by category and one category, by kind and one kind, or by
/// event and one identifier.
pub proof fn law_events_share_a_scope_where_they_agree(
    g1: KeyScopeGranularity,
    coordinate1: &Coordinate,
    kind1: EventKind,
    id1: EventId,
    scope1: KeyScope,
    g2: KeyScopeGranularity,
    coordinate2: &Coordinate,
    kind2: EventKind,
    id2: EventId,
    scope2: KeyScope,
)
    requires
        call_ensures(scope_for, (g1, coordinate1, kind1, id1), scope1),
        call_ensures(scope_for, (g2, coordinate2, kind2, id2), scope2),
    ensures
        scope1@ == scope2@ <==> {
            ||| g1 is PerEntity && g2 is PerEntity && coordinate1.entity_spec()
                == coordinate2.entity_spec()
            ||| g1 is PerCategory && g2 is PerCategory && kind1.raw() / 4096 == kind2.raw() / 4096
            ||| g1 is PerTypeId && g2 is PerTypeId && kind1.raw() == kind2.raw()
            ||| g1 is PerEvent && g2 is PerEvent && id1.number() == id2.number()
        },
{
    law_scopes_partition(
        g1,
        coordinate1.entity_spec(),
        kind1,
        id1.number(),
        g2,
        coordinate2.entity_spec(),
        kind2,
        id2.number(),
    );
    crate::event::law_kind_is_category_and_type(kind1, kind2);
    assert(kind1.raw() / 4096 < 16);
    assert(kind2.raw() / 4096 < 16);
}

/// What an erasure names.
#[derive(Clone, Copy)]
pub enum ShredScope<'a> {
    /// The scope of an entity.
    Entity(&'a Coordinate),
    /// The scope of a category or a kind.
    Kind(EventKind),
    /// The scope of an event.
    Event(EventId),
}

impl<'a> ShredScope<'a> {
    /// Name of the selector.
    pub fn label(&self) -> (text: &'static str)
        ensures
            text@ == match self {
                ShredScope::Entity(_) => "Entity"@,
                ShredScope::Kind(_) => "Kind"@,
                ShredScope::Event(_) => "Event"@,
            },
    {
        match self {
            ShredScope::Entity(_) => "Entity",
            ShredScope::Kind(_) => "Kind",
            ShredScope::Event(_) => "Event",
        }
    }
}

impl KeyScopeGranularity {
    /// A selector can address scopes of this granularity.
    pub open spec fn addressed_by(self, selector: ShredScope) -> bool {
        match self {
            KeyScopeGranularity::PerEntity => selector is Entity,
            KeyScopeGranularity::PerCategory => selector is Kind,
            KeyScopeGranularity::PerTypeId => selector is Kind,
            KeyScopeGranularity::PerEvent => selector is Event,
        }
    }

    /// The scope whose key an erasure destroys, where the selector can address
    /// scopes of this granularity. It is the scope of every event that the
    /// selector fits.
    pub fn resolve_shred_scope(self, selector: &ShredScope<'_>) -> (r: Option<KeyScope>)
        ensures
            r is Some <==> self.addressed_by(*selector),
            r is Some <==> (self is PerEntity && *selector is Entity) || (self is PerCategory
                && *selector is Kind) || (self is PerTypeId && *selector is Kind) || (
            self is PerEvent && *selector is Event),
            r matches Some(scope) ==> forall|entity: Seq<char>, kind: EventKind, id: u128|
                (match *selector {
                    ShredScope::Entity(coordinate) => coordinate.entity_spec() == entity,
                    ShredScope::Kind(k) => k == kind,
                    ShredScope::Event(event_id) => event_id.number() == id,
                }) ==> scope@ == #[trigger] scope_bytes(self, entity, kind, id),
    {
        match (self, selector) {
            (KeyScopeGranularity::PerEntity, ShredScope::Entity(coordinate)) => Some(
                scope_per_entity(coordinate.entity()),
            ),
            (KeyScopeGranularity::PerCategory, ShredScope::Kind(kind)) => Some(
                scope_per_category(kind.category()),
            ),
            (KeyScopeGranularity::PerTypeId, ShredScope::Kind(kind)) => Some(
                scope_per_type_id(kind.as_raw_u16()),
            ),
            (KeyScopeGranularity::PerEvent, ShredScope::Event(event_id)) => Some(
                scope_per_event(event_id.as_u128()),
            ),
            _ => None,
        }
    }
}

/// An erasure reaches a scope where it names an entity and keys are held by
/// entity, a kind and keys are held by category or by kind, or an event and keys
/// are held by event. What it reaches is the scope of exactly the events of that
/// entity, of that category, of that kind, or that event alone. Any other
/// selector reaches nothing.
pub proof fn law_erasure_reaches_what_it_names(
    granularity: KeyScopeGranularity,
    selector: ShredScope<'_>,
    r: Option<KeyScope>,
    coordinate: &Coordinate,
    kind: EventKind,
    event_id: EventId,
    scope: KeyScope,
)
    requires
        call_ensures(KeyScopeGranularity::resolve_shred_scope, (granularity, &selector), r),
        call_ensures(scope_for, (granularity, coordinate, kind, event_id), scope),
    ensures
        match (granularity, selector) {
            (KeyScopeGranularity::PerEntity, ShredScope::Entity(named)) => r is Some && (r->0@
                == scope@ <==> named.entity_spec() == coordinate.entity_spec()),
            (KeyScopeGranularity::PerCategory, ShredScope::Kind(named)) => r is Some && (r->0@
                == scope@ <==> named.raw() / 4096 == kind.raw() / 4096),
            (KeyScopeGranularity::PerTypeId, ShredScope::Kind(named)) => r is Some && (r->0@
                == scope@ <==> named.raw() == kind.raw()),
            (KeyScopeGranularity::PerEvent, ShredScope::Event(named)) => r is Some && (r->0@
                == scope@ <==> named.number() == event_id.number()),
            (KeyScopeGranularity::PerEntity, ShredScope::Kind(_)) => r is None,
            (KeyScopeGranularity::PerEntity, ShredScope::Event(_)) => r is None,
            (KeyScopeGranularity::PerCategory, ShredScope::Entity(_)) => r is None,
            (KeyScopeGranularity::PerCategory, ShredScope::Event(_)) => r is None,
            (KeyScopeGranularity::PerTypeId, ShredScope::Entity(_)) => r is None,
            (KeyScopeGranularity::PerTypeId, ShredScope::Event(_)) => r is None,
            (KeyScopeGranularity::PerEvent, ShredScope::Entity(_)) => r is None,
            (KeyScopeGranularity::PerEvent, ShredScope::Kind(_)) => r is None,
        },
{
    let (entity2, kind2, id2) = match selector {
        ShredScope::Entity(named) => (named.entity_spec(), kind, event_id.number()),
        ShredScope::Kind(named) => (coordinate.entity_spec(), named, event_id.number()),
        ShredScope::Event(named) => (coordinate.entity_spec(), kind, named.number()),
    };
    assert(r is Some ==> r->0@ == scope_bytes(granularity, entity2, kind2, id2));
    law_scopes_partition(
        granularity,
        entity2,
        kind2,
        id2,
        granularity,
        coordinate.entity_spec(),
        kind,
        event_id.number(),
    );
    crate::event::law_kind_is_category_and_type(kind2, kind);
    assert(kind2.raw() / 4096 < 16);
    assert(kind.raw() / 4096 < 16);
}

impl KeyScope {
    /// The scope bytes.
    #[must_use]
    pub fn as_bytes(&self) -> (bytes: &[u8])
        ensures
            bytes@ == self@,
    {
        self.bytes.as_slice()
    }

    /// The scope of the given bytes.
    #[must_use]
    pub fn from_bytes(bytes: Vec<u8>) -> (scope: KeyScope)
        ensures
            scope@ == bytes@,
    {
        KeyScope { bytes }
    }

    /// The scope bytes in hexadecimal.
    pub fn debug_text(&self) -> (text: String)
        ensures
            text@ == "KeyScope(0x"@ + hex_text(self@) + ")"@,
    {
        let mut text = "KeyScope(0x".to_owned();
        let mut i: usize = 0;
        assert(text@ + hex_text(self@.take(0)) =~= text@);
        while i < self.bytes.len()
            invariant
                i <= self@.len(),
                text@ == "KeyScope(0x"@ + hex_text(self@.take(i as int)),
            decreases self@.len() - i,
        {
            push_hex(&mut text, self.bytes[i] as u64, 2);
            assert(self@.take(i + 1).drop_last() =~= self@.take(i as int));
            i += 1;
            assert(text@ =~= "KeyScope(0x"@ + hex_text(self@.take(i as int)));
        }
        assert(self@.take(self@.len() as int) =~= self@);
        text.append(")");
        text
    }

    /// The same scope again.
    fn dup(&self) -> (r: KeyScope)
        ensures
            r@ == self@,
    {
        let mut bytes: Vec<u8> = Vec::new();
        push_all(&mut bytes, self.bytes.as_slice());
        assert(bytes@ =~= self@);
        KeyScope { bytes }
    }
}

/// Bytes in hexadecimal, two digits each.
pub open spec fn hex_text(bytes: Seq<u8>) -> Seq<char>
    decreases bytes.len(),
{
    if bytes.len() == 0 {
        Seq::empty()
    } else {
        hex_text(bytes.drop_last()) + crate::text::hex_digits(bytes.last() as nat, 2)
    }
}

/// Length prefix of some bytes.
pub open spec fn prefixed(bytes: Seq<u8>) -> Seq<u8> {
    crate::bytes::le_bytes(
        if bytes.len() <= u32::MAX {
            bytes.len()
        } else {
            u32::MAX as nat
        },
        4,
    ) + bytes
}

/// Associated data of an event's payload.
pub open spec fn aad_bytes(
    entity: Seq<char>,
    scope: Seq<char>,
    kind: EventKind,
    event_id: u128,
) -> Seq<u8> {
    seq![1u8] + prefixed(crate::text::utf8(entity)) + prefixed(crate::text::utf8(scope))
        + crate::bytes::le_bytes(kind.raw() as nat, 2) + crate::bytes::be_bytes(
        event_id as nat,
        16,
    )
}

fn push_prefixed(out: &mut Vec<u8>, bytes: &[u8])
    ensures
        final(out)@ == old(out)@ + prefixed(bytes@),
{
    let ghost before = out@;
    let len: u128 = if bytes.len() as u128 <= 4294967295 {
        bytes.len() as u128
    } else {
        4294967295
    };
    push_le(out, len, 4);
    push_all(out, bytes);
    assert(out@ =~= before + prefixed(bytes@));
}

/// The associated data that binds a sealed payload to the event it belongs to.
#[must_use]
pub fn payload_aad(coordinate: &Coordinate, event_kind: EventKind, event_id: EventId) -> (aad: Vec<
    u8,
>)
    ensures
        aad@ == aad_bytes(
            coordinate.entity_spec(),
            coordinate.scope_spec(),
            event_kind,
            event_id.number(),
        ),
{
    let mut aad: Vec<u8> = Vec::new();
    aad.push(1);
    push_prefixed(&mut aad, coordinate.entity().as_bytes());
    push_prefixed(&mut aad, coordinate.scope().as_bytes());
    push_le(&mut aad, event_kind.as_raw_u16() as u128, 2);
    push_be(&mut aad, event_id.as_u128(), 16);
    assert(aad@ =~= aad_bytes(
        coordinate.entity_spec(),
        coordinate.scope_spec(),
        event_kind,
        event_id.number(),
    ));
    aad
}

/// Associated data identifies the event: no two identities share it.
pub proof fn law_aad_binds_identity(
    entity1: Seq<char>,
    scope1: Seq<char>,
    kind1: EventKind,
    id1: u128,
    entity2: Seq<char>,
    scope2: Seq<char>,
    kind2: EventKind,
    id2: u128,
)
    requires
        crate::text::utf8(entity1).len() <= u32::MAX,
        crate::text::utf8(entity2).len() <= u32::MAX,
        crate::text::utf8(scope1).len() <= u32::MAX,
        crate::text::utf8(scope2).len() <= u32::MAX,
        aad_bytes(entity1, scope1, kind1, id1) == aad_bytes(entity2, scope2, kind2, id2),
    ensures
        entity1 == entity2,
        scope1 == scope2,
        kind1 == kind2,
        id1 == id2,
{
    let a = aad_bytes(entity1, scope1, kind1, id1);
    let b = aad_bytes(entity2, scope2, kind2, id2);
    let e1 = crate::text::utf8(entity1);
    let e2 = crate::text::utf8(entity2);
    let s1 = crate::text::utf8(scope1);
    let s2 = crate::text::utf8(scope2);
    let k1 = crate::bytes::le_bytes(kind1.raw() as nat, 2);
    let k2 = crate::bytes::le_bytes(kind2.raw() as nat, 2);
    let i1 = crate::bytes::be_bytes(id1 as nat, 16);
    let i2 = crate::bytes::be_bytes(id2 as nat, 16);
    crate::bytes::lemma_widths();
    crate::bytes::law_le_round_trip(kind1.raw() as nat, 2);
    crate::bytes::law_le_round_trip(kind2.raw() as nat, 2);
    crate::bytes::law_be_round_trip(id1 as nat, 16);
    crate::bytes::law_be_round_trip(id2 as nat, 16);
    let rest1 = prefixed(s1) + k1 + i1;
    let rest2 = prefixed(s2) + k2 + i2;
    assert(a =~= seq![1u8] + (prefixed(e1) + rest1));
    assert(b =~= seq![1u8] + (prefixed(e2) + rest2));
    assert(a.skip(1) =~= prefixed(e1) + rest1);
    assert(b.skip(1) =~= prefixed(e2) + rest2);
    lemma_prefix_splits(e1, rest1, e2, rest2);
    assert(rest1 =~= prefixed(s1) + (k1 + i1));
    assert(rest2 =~= prefixed(s2) + (k2 + i2));
    lemma_prefix_splits(s1, k1 + i1, s2, k2 + i2);
    assert((k1 + i1).take(2) =~= k1);
    assert((k2 + i2).take(2) =~= k2);
    assert((k1 + i1).skip(2) =~= i1);
    assert((k2 + i2).skip(2) =~= i2);
    crate::text::law_utf8_injective(entity1, entity2);
    crate::text::law_utf8_injective(scope1, scope2);
    crate::event::law_kind_is_category_and_type(kind1, kind2);
}

/// The associated data of two events is the same only where they have one entity,
/// one scope, one kind and one identifier.
pub proof fn law_sealed_payloads_do_not_move(
    coordinate1: &Coordinate,
    kind1: EventKind,
    id1: EventId,
    aad1: Vec<u8>,
    coordinate2: &Coordinate,
    kind2: EventKind,
    id2: EventId,
    aad2: Vec<u8>,
)
    requires
        crate::text::utf8(coordinate1.entity_spec()).len() <= u32::MAX,
        crate::text::utf8(coordinate1.scope_spec()).len() <= u32::MAX,
        crate::text::utf8(coordinate2.entity_spec()).len() <= u32::MAX,
        crate::text::utf8(coordinate2.scope_spec()).len() <= u32::MAX,
        call_ensures(payload_aad, (coordinate1, kind1, id1), aad1),
        call_ensures(payload_aad, (coordinate2, kind2, id2), aad2),
    ensures
        aad1@ == aad2@ <==> coordinate1.entity_spec() == coordinate2.entity_spec()
            && coordinate1.scope_spec() == coordinate2.scope_spec() && kind1.raw() == kind2.raw()
            && id1.number() == id2.number(),
{
    crate::event::law_kind_is_category_and_type(kind1, kind2);
    if aad1@ == aad2@ {
        law_aad_binds_identity(
            coordinate1.entity_spec(),
            coordinate1.scope_spec(),
            kind1,
            id1.number(),
            coordinate2.entity_spec(),
            coordinate2.scope_spec(),
            kind2,
            id2.number(),
        );
    }
}

proof fn lemma_prefix_splits(a: Seq<u8>, ra: Seq<u8>, b: Seq<u8>, rb: Seq<u8>)
    requires
        a.len() <= u32::MAX,
        b.len() <= u32::MAX,
        prefixed(a) + ra == prefixed(b) + rb,
    ensures
        a == b,
        ra == rb,
{
    let la = crate::bytes::le_bytes(a.len(), 4);
    let lb = crate::bytes::le_bytes(b.len(), 4);
    crate::bytes::lemma_widths();
    crate::bytes::law_le_round_trip(a.len(), 4);
    crate::bytes::law_le_round_trip(b.len(), 4);
    let x = prefixed(a) + ra;
    let y = prefixed(b) + rb;
    assert(x.take(4) =~= la);
    assert(y.take(4) =~= lb);
    assert(a.len() == b.len());
    assert(x.subrange(4, 4 + a.len() as int) =~= a);
    assert(y.subrange(4, 4 + b.len() as int) =~= b);
    assert(x.skip(4 + a.len() as int) =~= ra);
    assert(y.skip(4 + b.len() as int) =~= rb);
}

/// A scope and its key.
pub struct KeyEntry {
    /// The scope.
    pub scope: KeyScope,
    /// The key.
    pub key: PayloadKey,
}

/// Scopes strictly ascend.
spec fn scopes_ascend(keys: Seq<KeyEntry>) -> bool {
    forall|i: int, j: int|
        0 <= i < j < keys.len() ==> crate::text::bytes_before(
            (#[trigger] keys[i]).scope@,
            (#[trigger] keys[j]).scope@,
        )
}

/// Some entry has the scope.
spec fn scope_held(keys: Seq<KeyEntry>, scope: Seq<u8>) -> bool {
    exists|i: int| 0 <= i < keys.len() && (#[trigger] keys[i]).scope@ == scope
}

/// The keys of entries by scope.
spec fn key_map(keys: Seq<KeyEntry>) -> Map<Seq<u8>, Seq<u8>> {
    Map::new(
        |s: Seq<u8>| scope_held(keys, s),
        |s: Seq<u8>|
            {
                let i = choose|i: int| 0 <= i < keys.len() && (#[trigger] keys[i]).scope@ == s;
                keys[i].key@
            },
    )
}

/// The keys of the scopes, in scope order.
pub struct KeyStore {
    keys: Vec<KeyEntry>,
    granularity: KeyScopeGranularity,
    dirty: bool,
}

impl KeyStore {
    /// Scopes strictly ascend.
    pub closed spec fn wf(&self) -> bool {
        scopes_ascend(self.keys@)
    }

    /// Scopes and keys, in scope order.
    pub closed spec fn listing(&self) -> Seq<(Seq<u8>, Seq<u8>)> {
        self.keys@.map_values(|e: KeyEntry| (e.scope@, e.key@))
    }

    /// A scope has a key.
    pub closed spec fn holds(&self, scope: Seq<u8>) -> bool {
        scope_held(self.keys@, scope)
    }

    /// The keys by scope.
    pub closed spec fn keys_by_scope(&self) -> Map<Seq<u8>, Seq<u8>> {
        key_map(self.keys@)
    }

    /// The granularity.
    pub closed spec fn partition(&self) -> KeyScopeGranularity {
        self.granularity
    }

    /// The keys are ahead of the last flush.
    pub closed spec fn unflushed(&self) -> bool {
        self.dirty
    }

    /// The listing holds the keys by scope, in strictly ascending scope order.
    pub proof fn lemma_listing(&self)
        requires
            self.wf(),
        ensures
            forall|i: int, j: int|
                0 <= i < j < self.listing().len() ==> crate::text::bytes_before(
                    (#[trigger] self.listing()[i]).0,
                    (#[trigger] self.listing()[j]).0,
                ),
            forall|i: int|
                0 <= i < self.listing().len() ==> self.keys_by_scope().contains_key(
                    (#[trigger] self.listing()[i]).0,
                ) && self.keys_by_scope()[self.listing()[i].0] == self.listing()[i].1,
            forall|s: Seq<u8>| #[trigger]
                self.keys_by_scope().contains_key(s) ==> exists|i: int|
                    0 <= i < self.listing().len() && (#[trigger] self.listing()[i]).0 == s,
    {
        assert forall|i: int| 0 <= i < self.listing().len() implies self.keys_by_scope()
            .contains_key((#[trigger] self.listing()[i]).0) && self.keys_by_scope()[self.listing(
        )[i].0] == self.listing()[i].1 by {
            self.lemma_slot(i);
        }
        assert forall|s: Seq<u8>| #[trigger] self.keys_by_scope().contains_key(
            s,
        ) implies exists|i: int| 0 <= i < self.listing().len() && (
        #[trigger] self.listing()[i]).0 == s by {
            let i = choose|i: int|
                0 <= i < self.keys@.len() && (#[trigger] self.keys@[i]).scope@ == s;
            assert(self.listing()[i].0 == s);
        }
    }

    proof fn lemma_slot(&self, i: int)
        requires
            self.wf(),
            0 <= i < self.keys@.len(),
        ensures
            self.keys_by_scope().contains_key(self.keys@[i].scope@),
            self.keys_by_scope()[self.keys@[i].scope@] == self.keys@[i].key@,
    {
        let s = self.keys@[i].scope@;
        assert(self.keys@[i].scope@ == s);
        let j = choose|j: int| 0 <= j < self.keys@.len() && (#[trigger] self.keys@[j]).scope@ == s;
        if i != j {
            crate::text::lemma_bytes_before_irreflexive(s);
        }
    }

    /// A store without keys.
    #[must_use]
    pub fn new(granularity: KeyScopeGranularity) -> (r: KeyStore)
        ensures
            r.wf(),
            r.keys_by_scope() == Map::<Seq<u8>, Seq<u8>>::empty(),
            r.listing() == Seq::<(Seq<u8>, Seq<u8>)>::empty(),
            r.partition() == granularity,
            !r.unflushed(),
    {
        let r = KeyStore { keys: Vec::new(), granularity, dirty: false };
        assert(r.keys_by_scope() =~= Map::<Seq<u8>, Seq<u8>>::empty());
        r
    }

    /// Whether the keys are ahead of the last flush.
    #[must_use]
    pub fn is_dirty(&self) -> (r: bool)
        ensures
            r == self.unflushed(),
    {
        self.dirty
    }

    /// Note that the keys are ahead of the last flush.
    pub fn mark_dirty(&mut self)
        ensures
            final(self).unflushed(),
            final(self).wf() == old(self).wf(),
            final(self).listing() == old(self).listing(),
            final(self).keys_by_scope() == old(self).keys_by_scope(),
            final(self).partition() == old(self).partition(),
    {
        self.dirty = true;
    }

    /// The granularity.
    #[must_use]
    pub fn granularity(&self) -> (r: KeyScopeGranularity)
        ensures
            r == self.partition(),
    {
        self.granularity
    }

    /// Number of keys.
    #[must_use]
    pub fn key_count(&self) -> (n: usize)
        ensures
            n == self.listing().len(),
    {
        self.keys.len()
    }

    /// Where a scope stands, or would stand.
    fn slot_of(&self, scope: &KeyScope) -> (r: (usize, bool))
        requires
            self.wf(),
        ensures
            r.0 <= self.keys@.len(),
            r.1 ==> r.0 < self.keys@.len() && self.keys@[r.0 as int].scope@ == scope@,
            r.1 == self.holds(scope@),
            forall|i: int|
                0 <= i < r.0 ==> crate::text::bytes_before(
                    (#[trigger] self.keys@[i]).scope@,
                    scope@,
                ),
            !r.1 ==> forall|i: int|
                r.0 <= i < self.keys@.len() ==> crate::text::bytes_before(
                    scope@,
                    (#[trigger] self.keys@[i]).scope@,
                ),
    {
        let mut i: usize = 0;
        while i < self.keys.len() && bytes_precede(
            self.keys[i].scope.bytes.as_slice(),
            scope.bytes.as_slice(),
        )
            invariant
                i <= self.keys@.len(),
                forall|k: int|
                    0 <= k < i ==> crate::text::bytes_before(
                        (#[trigger] self.keys@[k]).scope@,
                        scope@,
                    ),
            decreases self.keys@.len() - i,
        {
            i += 1;
        }
        let found: bool = i < self.keys.len() && bytes_equal(
            self.keys[i].scope.bytes.as_slice(),
            scope.bytes.as_slice(),
        );
        proof {
            if found {
                assert(self.keys@[i as int].scope@ == scope@);
            } else {
                if i < self.keys@.len() {
                    crate::text::lemma_bytes_before_total(self.keys@[i as int].scope@, scope@);
                }
                assert forall|k: int| i <= k < self.keys@.len() implies crate::text::bytes_before(
                    scope@,
                    (#[trigger] self.keys@[k]).scope@,
                ) by {
                    if k > i {
                        crate::text::lemma_bytes_before_transitive(
                            scope@,
                            self.keys@[i as int].scope@,
                            self.keys@[k].scope@,
                        );
                    }
                }
                crate::text::lemma_bytes_before_irreflexive(scope@);
                assert(!self.holds(scope@));
            }
        }
        (i, found)
    }

    /// The key of a scope. One that has none gets a fresh random key: the bytes that
    /// one call of the system's random source left.
    pub fn get_or_create(&mut self, scope: &KeyScope) -> (r: Result<&PayloadKey, KeyStoreError>)
        requires
            old(self).wf(),
        ensures
            final(self).wf(),
            final(self).partition() == old(self).partition(),
            final(self).unflushed() == old(self).unflushed(),
            match r {
                Ok(key) => {
                    &&& final(self).keys_by_scope() == old(self).keys_by_scope().insert(
                        scope@,
                        key@,
                    )
                    &&& old(self).keys_by_scope().contains_key(scope@) ==> key@ == old(
                        self,
                    ).keys_by_scope()[scope@]
                    &&& key@.len() == 32 || old(self).keys_by_scope().contains_key(scope@)
                },
                Err(e) => {
                    &&& e == KeyStoreError::Rng
                    &&& !old(self).keys_by_scope().contains_key(scope@)
                    &&& final(self).keys_by_scope() == old(self).keys_by_scope()
                },
            },
            !old(self).keys_by_scope().contains_key(scope@) ==> exists|
                bytes: &mut [u8; 32],
                filled: Result<(), KeyStoreError>,
            | #[trigger]
                self::key::drew(bytes, filled) && match (r, filled) {
                    (Ok(key), Ok(_)) => final(bytes)@ == key@,
                    (Err(e), Err(f)) => e == f,
                    _ => false,
                },
    {
        let ghost before = *self;
        let (slot, found) = self.slot_of(scope);
        if !found {
            match PayloadKey::generate() {
                Ok(key) => {
                    let ghost fresh = key@;
                    self.keys.insert(slot, KeyEntry { scope: scope.dup(), key });
                    proof {
                        self.lemma_inserted(&before, slot as int, scope@, fresh);
                        assert(self.keys@[slot as int].key@ == fresh);
                    }
                },
                Err(e) => {
                    return Err(e);
                },
            }
        } else {
            proof {
                self.lemma_slot(slot as int);
                assert(self.keys_by_scope() =~= self.keys_by_scope().insert(
                    scope@,
                    self.keys@[slot as int].key@,
                ));
            }
        }
        Ok(&self.keys[slot].key)
    }

    proof fn lemma_inserted(&self, before: &KeyStore, slot: int, scope: Seq<u8>, key: Seq<u8>)
        requires
            before.wf(),
            0 <= slot <= before.keys@.len(),
            self.keys@.len() == before.keys@.len() + 1,
            forall|i: int| 0 <= i < slot ==> self.keys@[i] == #[trigger] before.keys@[i],
            forall|i: int|
                slot <= i < before.keys@.len() ==> self.keys@[i + 1] == #[trigger] before.keys@[i],
            self.keys@[slot].scope@ == scope,
            self.keys@[slot].key@ == key,
            forall|i: int|
                0 <= i < slot ==> crate::text::bytes_before(
                    (#[trigger] before.keys@[i]).scope@,
                    scope,
                ),
            forall|i: int|
                slot <= i < before.keys@.len() ==> crate::text::bytes_before(
                    scope,
                    (#[trigger] before.keys@[i]).scope@,
                ),
        ensures
            self.wf(),
            self.keys_by_scope() == before.keys_by_scope().insert(scope, key),
    {
        assert forall|i: int, j: int| 0 <= i < j < self.keys@.len() implies crate::text::bytes_before(
            (#[trigger] self.keys@[i]).scope@,
            (#[trigger] self.keys@[j]).scope@,
        ) by {
            let p = if i < slot {
                i
            } else {
                i - 1
            };
            let q = if j < slot {
                j
            } else {
                j - 1
            };
            if i != slot {
                assert(self.keys@[i] == before.keys@[p]);
            }
            if j != slot {
                assert(self.keys@[j] == before.keys@[q]);
            }
        }
        assert forall|s: Seq<u8>| #[trigger]
            scope_held(self.keys@, s) == (before.holds(s) || s == scope) by {
            if before.holds(s) {
                let i = choose|i: int|
                    0 <= i < before.keys@.len() && (#[trigger] before.keys@[i]).scope@ == s;
                if i < slot {
                    assert(self.keys@[i].scope@ == s);
                } else {
                    assert(self.keys@[i + 1].scope@ == s);
                }
            }
            if self.holds(s) && s != scope {
                let i = choose|i: int|
                    0 <= i < self.keys@.len() && (#[trigger] self.keys@[i]).scope@ == s;
                let p = if i < slot {
                    i
                } else {
                    i - 1
                };
                assert(before.keys@[p].scope@ == s);
            }
            assert(self.keys@[slot].scope@ == scope);
        }
        assert forall|s: Seq<u8>| #[trigger] self.keys_by_scope().contains_key(
            s,
        ) implies self.keys_by_scope()[s] == before.keys_by_scope().insert(scope, key)[s] by {
            let i = choose|i: int|
                0 <= i < self.keys@.len() && (#[trigger] self.keys@[i]).scope@ == s;
            self.lemma_slot(i);
            if s == scope {
                self.lemma_slot(slot);
            } else {
                let p = if i < slot {
                    i
                } else {
                    i - 1
                };
                assert(self.keys@[i] == before.keys@[p]);
                before.lemma_slot(p);
            }
        }
        assert(self.keys_by_scope() =~= before.keys_by_scope().insert(scope, key));
    }

    /// File a key under a scope, in place of what the scope had.
    pub(super) fn file_key(&mut self, scope: KeyScope, key: PayloadKey)
        requires
            old(self).wf(),
        ensures
            final(self).wf(),
            final(self).keys_by_scope() == old(self).keys_by_scope().insert(scope@, key@),
            final(self).partition() == old(self).partition(),
            final(self).unflushed() == old(self).unflushed(),
    {
        let ghost before = *self;
        let (slot, found) = self.slot_of(&scope);
        let ghost s = scope@;
        let ghost k = key@;
        if found {
            let gone = self.keys.remove(slot);
            proof {
                self.lemma_removed(&before, slot as int, s);
                assert forall|i: int| slot <= i < self.keys@.len() implies crate::text::bytes_before(
                    s,
                    (#[trigger] self.keys@[i]).scope@,
                ) by {
                    assert(self.keys@[i] == before.keys@[i + 1]);
                    assert(before.keys@[slot as int].scope@ == s);
                }
                assert forall|i: int| 0 <= i < slot implies crate::text::bytes_before(
                    (#[trigger] self.keys@[i]).scope@,
                    s,
                ) by {
                    assert(self.keys@[i] == before.keys@[i]);
                }
            }
        }
        let ghost mid = *self;
        self.keys.insert(slot, KeyEntry { scope, key });
        proof {
            self.lemma_inserted(&mid, slot as int, s, k);
            assert(self.keys_by_scope() =~= before.keys_by_scope().insert(s, k));
        }
    }

    /// Note that the keys are on disk.
    pub fn mark_flushed(&mut self)
        ensures
            !final(self).unflushed(),
            final(self).wf() == old(self).wf(),
            final(self).listing() == old(self).listing(),
            final(self).keys_by_scope() == old(self).keys_by_scope(),
            final(self).partition() == old(self).partition(),
    {
        self.dirty = false;
    }

    /// The scope and the key in slot `i`.
    pub(super) fn entry_at(&self, i: usize) -> (r: &KeyEntry)
        requires
            i < self.listing().len(),
        ensures
            (r.scope@, r.key@) == self.listing()[i as int],
    {
        &self.keys[i]
    }

    /// The key of a scope.
    #[must_use]
    pub fn get(&self, scope: &KeyScope) -> (r: Option<&PayloadKey>)
        requires
            self.wf(),
        ensures
            match r {
                Some(key) => self.keys_by_scope().contains_key(scope@) && key@
                    == self.keys_by_scope()[scope@],
                None => !self.keys_by_scope().contains_key(scope@),
            },
    {
        let (slot, found) = self.slot_of(scope);
        if found {
            proof {
                self.lemma_slot(slot as int);
            }
            Some(&self.keys[slot].key)
        } else {
            None
        }
    }

    /// Destroy the key of a scope, and tell whether there was one. The key is
    /// wiped from memory.
    pub fn destroy(&mut self, scope: &KeyScope) -> (removed: bool)
        requires
            old(self).wf(),
        ensures
            final(self).wf(),
            final(self).partition() == old(self).partition(),
            removed == old(self).keys_by_scope().contains_key(scope@),
            final(self).keys_by_scope() == old(self).keys_by_scope().remove(scope@),
            final(self).unflushed() == (old(self).unflushed() || removed),
    {
        let ghost before = *self;
        let (slot, found) = self.slot_of(scope);
        if found {
            let gone = self.keys.remove(slot);
            self.dirty = true;
            proof {
                self.lemma_removed(&before, slot as int, scope@);
            }
        } else {
            assert(self.keys_by_scope() =~= self.keys_by_scope().remove(scope@));
        }
        found
    }

    proof fn lemma_removed(&self, before: &KeyStore, slot: int, scope: Seq<u8>)
        requires
            before.wf(),
            0 <= slot < before.keys@.len(),
            self.keys@ == before.keys@.remove(slot),
            before.keys@[slot].scope@ == scope,
        ensures
            self.wf(),
            self.keys_by_scope() == before.keys_by_scope().remove(scope),
    {
        assert forall|i: int, j: int| 0 <= i < j < self.keys@.len() implies crate::text::bytes_before(
            (#[trigger] self.keys@[i]).scope@,
            (#[trigger] self.keys@[j]).scope@,
        ) by {
            let p = if i < slot {
                i
            } else {
                i + 1
            };
            let q = if j < slot {
                j
            } else {
                j + 1
            };
            assert(self.keys@[i] == before.keys@[p]);
            assert(self.keys@[j] == before.keys@[q]);
        }
        assert forall|s: Seq<u8>| #[trigger]
            scope_held(self.keys@, s) == (before.holds(s) && s != scope) by {
            if before.holds(s) && s != scope {
                let i = choose|i: int|
                    0 <= i < before.keys@.len() && (#[trigger] before.keys@[i]).scope@ == s;
                if i < slot {
                    assert(self.keys@[i].scope@ == s);
                } else {
                    assert(self.keys@[i - 1].scope@ == s);
                }
            }
            if self.holds(s) {
                let i = choose|i: int|
                    0 <= i < self.keys@.len() && (#[trigger] self.keys@[i]).scope@ == s;
                let p = if i < slot {
                    i
                } else {
                    i + 1
                };
                assert(before.keys@[p].scope@ == s);
                if s == scope {
                    crate::text::lemma_bytes_before_irreflexive(s);
                }
            }
        }
        assert forall|s: Seq<u8>| #[trigger] self.keys_by_scope().contains_key(
            s,
        ) implies self.keys_by_scope()[s] == before.keys_by_scope()[s] by {
            let i = choose|i: int|
                0 <= i < self.keys@.len() && (#[trigger] self.keys@[i]).scope@ == s;
            self.lemma_slot(i);
            let p = if i < slot {
                i
            } else {
                i + 1
            };
            assert(self.keys@[i] == before.keys@[p]);
            before.lemma_slot(p);
        }
        assert(self.keys_by_scope() =~= before.keys_by_scope().remove(scope));
    }
}

/// A scope is shown as two hexadecimal digits for each of its bytes, the higher first.
pub proof fn law_scope_is_shown_in_hex(bytes: Seq<u8>, i: int)
    requires
        0 <= i < bytes.len(),
    ensures
        hex_text(bytes).len() == 2 * bytes.len(),
        hex_text(bytes).subrange(2 * i, 2 * i + 2) == crate::text::hex_digits(bytes[i] as nat, 2),
    decreases bytes.len(),
{
    let front = bytes.drop_last();
    let last = crate::text::hex_digits(bytes.last() as nat, 2);
    crate::text::law_hex_ends_in_the_last_digit(bytes.last() as nat, 2);
    if front.len() > 0 {
        if i < front.len() {
            law_scope_is_shown_in_hex(front, i);
            assert(hex_text(bytes).subrange(2 * i, 2 * i + 2) =~= hex_text(front).subrange(
                2 * i,
                2 * i + 2,
            ));
        } else {
            law_scope_is_shown_in_hex(front, 0);
            assert(hex_text(bytes).subrange(2 * i, 2 * i + 2) =~= last);
        }
    } else {
        assert(hex_text(front).len() == 0);
        assert(hex_text(bytes).subrange(0, 2) =~= last);
    }
}

/// Associated data is a one, the entity and the scope with the length of each before it
/// in four bytes, then the kind's number, low byte first, and the event's number in 16
/// bytes, high byte first.
pub proof fn law_aad_is_laid_out(
    coordinate: &Coordinate,
    kind: EventKind,
    id: EventId,
    aad: Vec<u8>,
)
    requires
        crate::text::utf8(coordinate.entity_spec()).len() <= u32::MAX,
        crate::text::utf8(coordinate.scope_spec()).len() <= u32::MAX,
        call_ensures(payload_aad, (coordinate, kind, id), aad),
    ensures
        ({
            let entity = crate::text::utf8(coordinate.entity_spec());
            let scope = crate::text::utf8(coordinate.scope_spec());
            let at = 5 + entity.len() as int;
            let end = at + 4 + scope.len();
            &&& aad@.len() == end + 18
            &&& aad@[0] == 1
            &&& crate::bytes::le_value(aad@.subrange(1, 5)) == entity.len()
            &&& aad@.subrange(5, at) == entity
            &&& crate::bytes::le_value(aad@.subrange(at, at + 4)) == scope.len()
            &&& aad@.subrange(at + 4, end) == scope
            &&& aad@[end] + 256 * aad@[end + 1] == kind.raw()
            &&& crate::bytes::be_value(aad@.subrange(end + 2, end + 18)) == id.number()
        }),
{
    let entity = crate::text::utf8(coordinate.entity_spec());
    let scope = crate::text::utf8(coordinate.scope_spec());
    let le = crate::bytes::le_bytes(entity.len(), 4);
    let ls = crate::bytes::le_bytes(scope.len(), 4);
    let k = crate::bytes::le_bytes(kind.raw() as nat, 2);
    let n = crate::bytes::be_bytes(id.number() as nat, 16);
    let at = 5 + entity.len() as int;
    let end = at + 4 + scope.len();
    crate::bytes::lemma_widths();
    crate::bytes::law_le_round_trip(entity.len(), 4);
    crate::bytes::law_le_round_trip(scope.len(), 4);
    crate::bytes::law_le_round_trip(kind.raw() as nat, 2);
    crate::bytes::law_be_round_trip(id.number() as nat, 16);
    crate::bytes::law_le_value_of_two(k);
    assert(aad@ =~= seq![1u8] + le + entity + ls + scope + k + n);
    assert(aad@.subrange(1, 5) =~= le);
    assert(aad@.subrange(5, at) =~= entity);
    assert(aad@.subrange(at, at + 4) =~= ls);
    assert(aad@.subrange(at + 4, end) =~= scope);
    assert(aad@[end] == k[0] && aad@[end + 1] == k[1]);
    assert(aad@.subrange(end + 2, end + 18) =~= n);
}

} // verus!
