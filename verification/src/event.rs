//! Event kinds and hash chains.

use vstd::prelude::*;

verus! {

/// Event type discriminant: a category in the top four bits, a type in the rest.
#[derive(Clone, Copy, Debug, PartialEq, Eq, PartialOrd, Ord, Hash, Structural)]
pub struct EventKind {
    raw: u16,
}

impl EventKind {
    /// The canonical number of this kind.
    pub closed spec fn raw(&self) -> u16 {
        self.raw
    }

    /// The category of this kind.
    pub open spec fn category_spec(&self) -> u8 {
        (self.raw() / 4096) as u8
    }

    /// The type of this kind within its category.
    pub open spec fn type_id_spec(&self) -> u16 {
        (self.raw() % 4096) as u16
    }

    /// Build a kind from a four-bit category and a twelve-bit type.
    pub fn custom(category: u8, type_id: u16) -> (kind: EventKind)
        ensures
            kind.raw() == (category % 16) * 4096 + type_id % 4096,
    {
        EventKind { raw: (category as u16 % 16) * 4096 + type_id % 4096 }
    }

    /// Rebuild a kind from its canonical number.
    pub fn from_raw_u16(raw: u16) -> (kind: EventKind)
        ensures
            kind.raw() == raw,
    {
        EventKind { raw }
    }

    /// Canonical number: `(category << 12) | type_id`.
    pub fn as_raw_u16(self) -> (raw: u16)
        ensures
            raw == self.raw(),
    {
        self.raw
    }

    /// Category of this kind.
    pub fn category(self) -> (category: u8)
        ensures
            category == self.category_spec(),
    {
        (self.raw / 4096) as u8
    }

    /// Type of this kind within its category.
    pub fn type_id(self) -> (type_id: u16)
        ensures
            type_id == self.type_id_spec(),
    {
        self.raw % 4096
    }

    /// The generic data kind.
    pub fn data() -> (kind: EventKind)
        ensures
            kind.raw() == 0,
    {
        EventKind { raw: 0 }
    }

    /// The effect-error kind.
    pub fn effect_error() -> (kind: EventKind)
        ensures
            kind.raw() == 0xD001,
    {
        EventKind { raw: 0xD001 }
    }
}

/// A kind is determined by its category and its type.
pub proof fn law_kind_is_category_and_type(a: EventKind, b: EventKind)
    ensures
        a.raw() == a.category_spec() * 4096 + a.type_id_spec(),
        a == b <==> a.raw() == b.raw(),
        a == b <==> a.category_spec() == b.category_spec() && a.type_id_spec()
            == b.type_id_spec(),
{
    assert(a.raw() / 4096 < 16);
    assert(b.raw() / 4096 < 16);
    assert(a == b <==> a.raw == b.raw);
}

/// Hash chain of one event: its own hash and that of its predecessor.
#[derive(Clone, Copy, Debug, PartialEq, Eq)]
pub struct HashChain {
    /// Hash of the preceding event of the chain.
    pub prev_hash: [u8; 32],
    /// Hash of this event.
    pub event_hash: [u8; 32],
}

impl Default for HashChain {
    fn default() -> (chain: HashChain)
        ensures
            forall|i: int| 0 <= i < 32 ==> #[trigger] chain.prev_hash@[i] == 0u8,
            forall|i: int| 0 <= i < 32 ==> #[trigger] chain.event_hash@[i] == 0u8,
    {
        HashChain { prev_hash: [0u8; 32], event_hash: [0u8; 32] }
    }
}

/// Identity of one event.
#[derive(Clone, Copy, Debug, PartialEq, Eq, PartialOrd, Ord, Hash, Structural)]
pub struct EventId {
    id: u128,
}

impl EventId {
    /// The number of this identity.
    pub closed spec fn number(&self) -> u128 {
        self.id
    }

    /// The identity of a number.
    pub fn from_u128(id: u128) -> (r: EventId)
        ensures
            r.number() == id,
    {
        EventId { id }
    }

    /// The number of this identity.
    pub fn as_u128(self) -> (r: u128)
        ensures
            r == self.number(),
    {
        self.id
    }
}

/// The category of a kind is its number in steps of 4096, and its type what is over. A
/// kind that is built from a category and a type has both.
pub proof fn law_kind_has_what_it_is_built_from(
    category: u8,
    type_id: u16,
    kind: EventKind,
    of_category: u8,
    of_type: u16,
    raw: u16,
)
    requires
        call_ensures(EventKind::custom, (category, type_id), kind),
        call_ensures(EventKind::category, (kind,), of_category),
        call_ensures(EventKind::type_id, (kind,), of_type),
        call_ensures(EventKind::as_raw_u16, (kind,), raw),
    ensures
        raw == of_category * 4096 + of_type,
        of_type < 4096,
        of_category < 16,
        of_category == category % 16,
        of_type == type_id % 4096,
{
    assert(kind.raw() / 4096 < 16);
}

} // verus!
