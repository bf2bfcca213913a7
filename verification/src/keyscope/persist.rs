//! The keyset file.
//!
//! All keys lie in one file that is rewritten as a whole. A file that cannot be
//! used is an error: an empty key store in its place would mint every key anew,
//! and make everything that was sealed before unrecoverable.

use super::key::{wipe, PayloadKey};
use super::{KeyScope, KeyScopeGranularity, KeyStore};
use crate::bytes::{copy_range, push_all, push_le, read_le};
use crate::checksum::crc32;
use crate::error::StoreError;
use crate::text::{bytes_equal, push_decimal, push_hex};
use vstd::prelude::*;
use vstd::slice::slice_subrange;

verus! {

/// Magic bytes at the start of a keyset file.
pub const KEYSET_MAGIC: [u8; 6] = [0x46, 0x42, 0x41, 0x54, 0x4B, 0x53];

/// Version of the keyset file format.
pub const KEYSET_VERSION: u16 = 1;

/// Length of the file header: magic, version and checksum.
pub const HEADER_LEN: usize = 12;

/// Number of a granularity in the file.
pub open spec fn disc_of(granularity: KeyScopeGranularity) -> u8 {
    match granularity {
        KeyScopeGranularity::PerEntity => 1,
        KeyScopeGranularity::PerCategory => 2,
        KeyScopeGranularity::PerTypeId => 3,
        KeyScopeGranularity::PerEvent => 4,
    }
}

/// Number of a granularity in the file.
pub fn granularity_to_disc(granularity: KeyScopeGranularity) -> (disc: u8)
    ensures
        disc == disc_of(granularity),
{
    match granularity {
        KeyScopeGranularity::PerEntity => 1,
        KeyScopeGranularity::PerCategory => 2,
        KeyScopeGranularity::PerTypeId => 3,
        KeyScopeGranularity::PerEvent => 4,
    }
}

/// The granularity with a number, where there is one.
pub fn granularity_from_disc(disc: u8) -> (r: Option<KeyScopeGranularity>)
    ensures
        r is None <==> disc < 1 || disc > 4,
        r matches Some(granularity) ==> disc_of(granularity) == disc,
{
    if disc == 1 {
        Some(KeyScopeGranularity::PerEntity)
    } else if disc == 2 {
        Some(KeyScopeGranularity::PerCategory)
    } else if disc == 3 {
        Some(KeyScopeGranularity::PerTypeId)
    } else if disc == 4 {
        Some(KeyScopeGranularity::PerEvent)
    } else {
        None
    }
}

/// Name of a granularity.
pub open spec fn granularity_text(granularity: KeyScopeGranularity) -> Seq<char> {
    match granularity {
        KeyScopeGranularity::PerEntity => "PerEntity"@,
        KeyScopeGranularity::PerCategory => "PerCategory"@,
        KeyScopeGranularity::PerTypeId => "PerTypeId"@,
        KeyScopeGranularity::PerEvent => "PerEvent"@,
    }
}

fn granularity_name(granularity: KeyScopeGranularity) -> (name: &'static str)
    ensures
        name@ == granularity_text(granularity),
{
    match granularity {
        KeyScopeGranularity::PerEntity => "PerEntity",
        KeyScopeGranularity::PerCategory => "PerCategory",
        KeyScopeGranularity::PerTypeId => "PerTypeId",
        KeyScopeGranularity::PerEvent => "PerEvent",
    }
}

/// One scope and its key, as the file has them.
pub struct KeysetEntryWire {
    /// Scope bytes.
    pub scope: Vec<u8>,
    /// Key bytes.
    pub key: [u8; 32],
}

/// All scopes and keys, as the file has them.
pub struct KeysetWire {
    /// Number of the granularity.
    pub granularity: u8,
    /// The entries.
    pub entries: Vec<KeysetEntryWire>,
}

/// Scopes and keys of wire entries.
pub open spec fn wire_listing(entries: Seq<KeysetEntryWire>) -> Seq<(Seq<u8>, Seq<u8>)> {
    entries.map_values(|e: KeysetEntryWire| (e.scope@, e.key@))
}

/// The keys by scope, later entries last.
pub open spec fn by_scope(listing: Seq<(Seq<u8>, Seq<u8>)>) -> Map<Seq<u8>, Seq<u8>>
    decreases listing.len(),
{
    if listing.len() == 0 {
        Map::empty()
    } else {
        by_scope(listing.drop_last()).insert(listing.last().0, listing.last().1)
    }
}

/// The error of a keyset file that cannot be used.
pub fn corrupt(reason: String) -> (e: StoreError)
    ensures
        e == (StoreError::KeysetCorrupt { reason }),
{
    StoreError::KeysetCorrupt { reason }
}

/// The bytes of a keyset file with the given body.
pub open spec fn framed(body: Seq<u8>) -> Seq<u8> {
    KEYSET_MAGIC@ + crate::bytes::le_bytes(KEYSET_VERSION as nat, 2) + crate::bytes::le_bytes(
        crate::checksum::crc32_of(body) as nat,
        4,
    ) + body
}

/// Version that a header declares.
pub open spec fn declared_version(raw: Seq<u8>) -> nat {
    crate::bytes::le_value(raw.subrange(6, 8))
}

/// Checksum that a header declares.
pub open spec fn declared_crc(raw: Seq<u8>) -> nat {
    crate::bytes::le_value(raw.subrange(8, 12))
}

/// The body of a file.
pub open spec fn body_of(raw: Seq<u8>) -> Seq<u8> {
    raw.subrange(HEADER_LEN as int, raw.len() as int)
}

/// What is wrong with the bytes of a file.
pub open spec fn frame_fault(raw: Seq<u8>) -> Option<Seq<char>> {
    if raw.len() < HEADER_LEN {
        Some("file too short: "@ + crate::text::decimal_text(raw.len()) + " bytes"@)
    } else if raw.subrange(0, 6) != KEYSET_MAGIC@ {
        Some("wrong magic bytes"@)
    } else if declared_version(raw) != KEYSET_VERSION {
        Some(
            "unsupported keyset version "@ + crate::text::decimal_text(declared_version(raw))
                + "; this binary reads and writes version 1"@,
        )
    } else if declared_crc(raw) != crate::checksum::crc32_of(body_of(raw)) {
        Some(
            "crc mismatch: stored 0x"@ + crate::text::hex_digits(declared_crc(raw), 8)
                + ", computed 0x"@ + crate::text::hex_digits(
                crate::checksum::crc32_of(body_of(raw)) as nat,
                8,
            ),
        )
    } else {
        None
    }
}

/// The bytes of a keyset file with the given body.
pub fn frame_keyset(body: &[u8]) -> (raw: Vec<u8>)
    ensures
        raw@ == framed(body@),
{
    let mut raw: Vec<u8> = Vec::new();
    let magic: [u8; 6] = KEYSET_MAGIC;
    push_all(&mut raw, &magic);
    push_le(&mut raw, KEYSET_VERSION as u128, 2);
    push_le(&mut raw, crc32(body) as u128, 4);
    push_all(&mut raw, body);
    assert(raw@ =~= framed(body@));
    raw
}

/// The body of a keyset file whose header and checksum are in order.
pub fn validate_header_and_body(raw: &[u8]) -> (r: Result<&[u8], StoreError>)
    ensures
        match frame_fault(raw@) {
            Some(fault) => r matches Err(e) && (e matches StoreError::KeysetCorrupt { reason }
                && reason@ == fault),
            None => r matches Ok(body) && body@ == body_of(raw@),
        },
{
    if raw.len() < HEADER_LEN {
        let mut reason = "file too short: ".to_owned();
        push_decimal(&mut reason, raw.len() as u64);
        reason.append(" bytes");
        return Err(corrupt(reason));
    }
    let magic: [u8; 6] = KEYSET_MAGIC;
    let head = copy_range(raw, 0, 6);
    if !bytes_equal(head.as_slice(), &magic) {
        return Err(corrupt("wrong magic bytes".to_owned()));
    }
    proof {
        crate::bytes::lemma_widths();
    }
    let version: u16 = read_le(raw, 6, 2) as u16;
    if version != KEYSET_VERSION {
        let mut reason = "unsupported keyset version ".to_owned();
        push_decimal(&mut reason, version as u64);
        reason.append("; this binary reads and writes version 1");
        return Err(corrupt(reason));
    }
    let stored_crc: u32 = read_le(raw, 8, 4) as u32;
    let body = slice_subrange(raw, HEADER_LEN, raw.len());
    let computed_crc: u32 = crc32(body);
    if stored_crc != computed_crc {
        let mut reason = "crc mismatch: stored 0x".to_owned();
        push_hex(&mut reason, stored_crc as u64, 8);
        reason.append(", computed 0x");
        push_hex(&mut reason, computed_crc as u64, 8);
        return Err(corrupt(reason));
    }
    Ok(body)
}

/// What is wrong with decoded entries, for a store of a granularity.
pub open spec fn wire_fault(disc: u8, configured: KeyScopeGranularity) -> Option<Seq<char>> {
    if disc < 1 || disc > 4 {
        Some(
            "unknown key-scope granularity discriminant "@ + crate::text::decimal_text(
                disc as nat,
            ),
        )
    } else if disc != disc_of(configured) {
        let persisted = if disc == 1 {
            KeyScopeGranularity::PerEntity
        } else if disc == 2 {
            KeyScopeGranularity::PerCategory
        } else if disc == 3 {
            KeyScopeGranularity::PerTypeId
        } else {
            KeyScopeGranularity::PerEvent
        };
        Some(
            "configured key-scope granularity "@ + granularity_text(configured)
                + " does not match persisted keyset granularity "@ + granularity_text(persisted),
        )
    } else {
        None
    }
}

/// The key store of decoded entries.
pub fn rehydrate(wire: &KeysetWire, configured: KeyScopeGranularity) -> (r: Result<
    KeyStore,
    StoreError,
>)
    ensures
        match wire_fault(wire.granularity, configured) {
            Some(fault) => r matches Err(e) && (e matches StoreError::KeysetCorrupt { reason }
                && reason@ == fault),
            None => r matches Ok(store) && store.wf() && store.partition() == configured
                && !store.unflushed() && store.keys_by_scope() == by_scope(
                wire_listing(wire.entries@),
            ),
        },
{
    let persisted = match granularity_from_disc(wire.granularity) {
        Some(granularity) => granularity,
        None => {
            let mut reason = "unknown key-scope granularity discriminant ".to_owned();
            push_decimal(&mut reason, wire.granularity as u64);
            return Err(corrupt(reason));
        },
    };
    if persisted != configured {
        let mut reason = "configured key-scope granularity ".to_owned();
        reason.append(granularity_name(configured));
        reason.append(" does not match persisted keyset granularity ");
        reason.append(granularity_name(persisted));
        return Err(corrupt(reason));
    }
    let mut store = KeyStore::new(configured);
    let ghost all = wire_listing(wire.entries@);
    let mut i: usize = 0;
    assert(by_scope(all.take(0)) =~= Map::<Seq<u8>, Seq<u8>>::empty());
    while i < wire.entries.len()
        invariant
            all == wire_listing(wire.entries@),
            i <= all.len(),
            store.wf(),
            store.partition() == configured,
            !store.unflushed(),
            store.keys_by_scope() == by_scope(all.take(i as int)),
        decreases all.len() - i,
    {
        let entry = &wire.entries[i];
        let scope = KeyScope::from_bytes(
            copy_range(entry.scope.as_slice(), 0, entry.scope.len()),
        );
        let key = PayloadKey::from_bytes(entry.key);
        proof {
            assert(scope@ =~= entry.scope@);
            assert(all[i as int] == (entry.scope@, entry.key@));
            assert(all.take(i + 1).drop_last() =~= all.take(i as int));
        }
        store.file_key(scope, key);
        i += 1;
    }
    assert(all.take(all.len() as int) =~= all);
    Ok(store)
}

/// Wipe the key bytes of wire entries.
pub fn wipe_entries(wire: &mut KeysetWire)
    ensures
        final(wire).granularity == old(wire).granularity,
        final(wire).entries@.len() == old(wire).entries@.len(),
        forall|i: int|
            0 <= i < final(wire).entries@.len() ==> (#[trigger] final(wire).entries@[i]).key@
                == Seq::new(32, |j: int| 0u8) && final(wire).entries@[i].scope == old(
                wire,
            ).entries@[i].scope,
{
    let mut i: usize = 0;
    while i < wire.entries.len()
        invariant
            i <= wire.entries@.len(),
            wire.granularity == old(wire).granularity,
            wire.entries@.len() == old(wire).entries@.len(),
            forall|k: int|
                0 <= k < i ==> (#[trigger] wire.entries@[k]).key@ == Seq::new(32, |j: int| 0u8),
            forall|k: int|
                0 <= k < wire.entries@.len() ==> (#[trigger] wire.entries@[k]).scope == old(
                    wire,
                ).entries@[k].scope,
        decreases wire.entries@.len() - i,
    {
        let ghost before = wire.entries@;
        wipe(&mut wire.entries[i].key);
        proof {
            assert forall|k: int| 0 <= k < i + 1 implies (#[trigger] wire.entries@[k]).key@
                == Seq::new(32, |j: int| 0u8) by {
                if k < i {
                    assert(wire.entries@[k] == before[k]);
                }
            }
            assert forall|k: int| 0 <= k < wire.entries@.len() implies (
            #[trigger] wire.entries@[k]).scope == old(wire).entries@[k].scope by {
                assert(before[k].scope == old(wire).entries@[k].scope);
                if k != i {
                    assert(wire.entries@[k] == before[k]);
                }
            }
        }
        i += 1;
    }
}

/// The key store of a decoded body, or the error of one that did not decode.
/// The decoded key bytes are wiped.
pub fn decode_keyset(decoded: Result<KeysetWire, String>, configured: KeyScopeGranularity) -> (r:
    Result<KeyStore, StoreError>)
    ensures
        match decoded {
            Ok(wire) => match wire_fault(wire.granularity, configured) {
                Some(fault) => r matches Err(e) && (e matches StoreError::KeysetCorrupt {
                    reason,
                } && reason@ == fault),
                None => r matches Ok(store) && store.wf() && store.partition() == configured
                    && !store.unflushed() && store.keys_by_scope() == by_scope(
                    wire_listing(wire.entries@),
                ),
            },
            Err(error) => r matches Err(e) && (e matches StoreError::KeysetCorrupt { reason }
                && reason@ == "decode keyset body: "@ + error@),
        },
{
    match decoded {
        Ok(wire) => {
            let mut wire = wire;
            let r = rehydrate(&wire, configured);
            wipe_entries(&mut wire);
            r
        },
        Err(error) => {
            let mut reason = "decode keyset body: ".to_owned();
            reason.append(error.as_str());
            Err(corrupt(reason))
        },
    }
}

/// What is to be done about a keyset file.
pub enum KeysetOpen {
    /// There is no file: start with this store.
    Fresh(KeyStore),
    /// Decode this body.
    Decode(Vec<u8>),
}

/// What is to be done about the keyset file that was read. An absent file gives
/// an empty store; every fault is an error.
pub fn open_keyset(raw: Option<&Vec<u8>>, granularity: KeyScopeGranularity) -> (r: Result<
    KeysetOpen,
    StoreError,
>)
    ensures
        match raw {
            None => r matches Ok(KeysetOpen::Fresh(store)) && store.wf() && store.partition()
                == granularity && store.keys_by_scope() == Map::<Seq<u8>, Seq<u8>>::empty()
                && !store.unflushed(),
            Some(raw) => match frame_fault(raw@) {
                Some(fault) => r matches Err(e) && (e matches StoreError::KeysetCorrupt {
                    reason,
                } && reason@ == fault),
                None => r matches Ok(KeysetOpen::Decode(body)) && body@ == body_of(raw@),
            },
        },
{
    match raw {
        None => Ok(KeysetOpen::Fresh(KeyStore::new(granularity))),
        Some(raw) => match validate_header_and_body(raw.as_slice()) {
            Ok(body) => {
                let copy = copy_range(body, 0, body.len());
                assert(copy@ =~= body@);
                Ok(KeysetOpen::Decode(copy))
            },
            Err(e) => Err(e),
        },
    }
}

impl KeyStore {
    /// All scopes and keys, as the file has them: in scope order.
    pub fn to_wire(&self) -> (wire: KeysetWire)
        requires
            self.wf(),
        ensures
            wire.granularity == disc_of(self.partition()),
            wire_listing(wire.entries@) == self.listing(),
    {
        let mut entries: Vec<KeysetEntryWire> = Vec::new();
        let mut i: usize = 0;
        while i < self.key_count()
            invariant
                i <= self.listing().len(),
                entries@.len() == i,
                forall|k: int|
                    0 <= k < i ==> ((#[trigger] entries@[k]).scope@, entries@[k].key@)
                        == self.listing()[k],
            decreases self.listing().len() - i,
        {
            let entry = self.entry_at(i);
            let scope = copy_range(entry.scope.as_bytes(), 0, entry.scope.as_bytes().len());
            assert(scope@ =~= entry.scope@);
            entries.push(KeysetEntryWire { scope, key: entry.key.copy_bytes() });
            i += 1;
        }
        assert(wire_listing(entries@) =~= self.listing());
        KeysetWire { granularity: granularity_to_disc(self.granularity()), entries }
    }
}

/// A keyset file that was written passes every check and gives its body back.
pub proof fn law_frame_reads_back(body: Seq<u8>)
    ensures
        frame_fault(framed(body)) is None,
        body_of(framed(body)) == body,
{
    let raw = framed(body);
    let version = crate::bytes::le_bytes(KEYSET_VERSION as nat, 2);
    let crc = crate::bytes::le_bytes(crate::checksum::crc32_of(body) as nat, 4);
    crate::bytes::lemma_widths();
    crate::bytes::law_le_round_trip(KEYSET_VERSION as nat, 2);
    crate::bytes::law_le_round_trip(crate::checksum::crc32_of(body) as nat, 4);
    assert(raw.subrange(0, 6) =~= KEYSET_MAGIC@);
    assert(raw.subrange(6, 8) =~= version);
    assert(raw.subrange(8, 12) =~= crc);
    assert(body_of(raw) =~= body);
}

/// Writing all keys and reading them back restores every key, and no destroyed
/// key comes back.
pub proof fn law_keyset_round_trip(store: &KeyStore)
    requires
        store.wf(),
    ensures
        wire_fault(disc_of(store.partition()), store.partition()) is None,
        by_scope(store.listing()) == store.keys_by_scope(),
{
    store.lemma_listing();
    let listing = store.listing();
    lemma_by_scope(listing);
    assert forall|s: Seq<u8>| by_scope(listing).dom().contains(s)
        <==> store.keys_by_scope().dom().contains(s) by {
        if store.keys_by_scope().contains_key(s) {
            let i = choose|i: int| 0 <= i < listing.len() && (#[trigger] listing[i]).0 == s;
            assert(by_scope(listing).contains_key(listing[i].0));
        }
    }
    assert forall|s: Seq<u8>| by_scope(listing).contains_key(s) implies #[trigger] by_scope(
        listing,
    )[s] == store.keys_by_scope()[s] by {
        let i = choose|i: int| 0 <= i < listing.len() && (#[trigger] listing[i]).0 == s;
        assert(by_scope(listing)[listing[i].0] == listing[i].1);
    }
    assert(by_scope(listing) =~= store.keys_by_scope());
}

/// Loading gives back the keys that were flushed. The file passes every check, and
/// its body is what was written; where the body decodes to what was encoded, and
/// the granularity is the flushed store's, the loaded store lists the same scopes
/// and keys, and is not ahead of the file. For any other granularity loading is an
/// error, never an empty store.
pub proof fn law_load_gives_back_what_was_flushed(
    flushed: &KeyStore,
    wire: KeysetWire,
    body: &[u8],
    raw: Vec<u8>,
    configured: KeyScopeGranularity,
    opened: Result<KeysetOpen, StoreError>,
    decoded: KeysetWire,
    loaded: Result<KeyStore, StoreError>,
)
    requires
        flushed.wf(),
        call_ensures(KeyStore::to_wire, (flushed,), wire),
        call_ensures(frame_keyset, (body,), raw),
        call_ensures(open_keyset, (Some(&raw), configured), opened),
        decoded.granularity == wire.granularity,
        wire_listing(decoded.entries@) == wire_listing(wire.entries@),
        call_ensures(decode_keyset, (Ok(decoded), configured), loaded),
    ensures
        opened matches Ok(KeysetOpen::Decode(read)) && read@ == body@,
        match loaded {
            Ok(store) => configured == flushed.partition() && store.wf() && store.partition()
                == configured && !store.unflushed() && store.keys_by_scope()
                == flushed.keys_by_scope() && store.listing() == flushed.listing(),
            Err(e) => configured != flushed.partition() && e is KeysetCorrupt,
        },
{
    law_frame_reads_back(body@);
    law_keyset_round_trip(flushed);
    if let Ok(store) = loaded {
        law_keyset_round_trip(&store);
        flushed.lemma_listing();
        store.lemma_listing();
        lemma_listing_determined(store.listing(), flushed.listing());
    }
}

/// Each granularity has its number in the file, from one to four, and each of
/// these numbers gives its granularity back. No other number is one.
pub proof fn law_granularities_are_numbered(
    granularity: KeyScopeGranularity,
    disc: u8,
    number: u8,
    back: Option<KeyScopeGranularity>,
)
    requires
        call_ensures(granularity_to_disc, (granularity,), disc),
        call_ensures(granularity_from_disc, (number,), back),
    ensures
        disc == match granularity {
            KeyScopeGranularity::PerEntity => 1u8,
            KeyScopeGranularity::PerCategory => 2,
            KeyScopeGranularity::PerTypeId => 3,
            KeyScopeGranularity::PerEvent => 4,
        },
        number == disc ==> back == Some(granularity),
        back == Some(granularity) ==> number == disc,
        back is None <==> number == 0 || number > 4,
{
}

/// A keyset file is twelve bytes of header and then the body: six bytes of magic,
/// the version in two and the checksum of the body in four, least significant
/// first.
pub proof fn law_keyset_file_is_laid_out(body: &[u8], raw: Vec<u8>)
    requires
        call_ensures(frame_keyset, (body,), raw),
    ensures
        raw@.len() == 12 + body@.len(),
        raw@.take(6) == seq![0x46u8, 0x42, 0x41, 0x54, 0x4B, 0x53],
        raw@[6] == 1 && raw@[7] == 0,
        raw@[8] + 0x100 * raw@[9] + 0x1_0000 * raw@[10] + 0x100_0000 * raw@[11]
            == crate::checksum::crc32_of(body@),
        raw@.skip(12) == body@,
{
    let crc = crate::bytes::le_bytes(crate::checksum::crc32_of(body@) as nat, 4);
    let version = crate::bytes::le_bytes(1, 2);
    crate::bytes::lemma_widths();
    crate::bytes::law_le_round_trip(1, 2);
    crate::bytes::law_le_round_trip(crate::checksum::crc32_of(body@) as nat, 4);
    crate::bytes::law_le_value_of_four(crc);
    reveal_with_fuel(crate::bytes::le_bytes, 3);
    assert(version[0] == 1 && version[1] == 0);
    assert(raw@[6] == version[0]);
    assert(raw@[7] == version[1]);
    assert(raw@.subrange(8, 12) =~= crc);
    assert(raw@[8] == crc[0] && raw@[9] == crc[1] && raw@[10] == crc[2] && raw@[11] == crc[3]);
    assert(raw@.take(6) =~= seq![0x46u8, 0x42, 0x41, 0x54, 0x4B, 0x53]);
    assert(raw@.skip(12) =~= body@);
}

/// A keyset file is taken exactly where it has a whole header, the magic, version
/// one, and the checksum of what comes after the header; what is then decoded is
/// what comes after the header. No other file is ever read as an empty store.
pub proof fn law_keyset_file_is_taken_where_in_order(
    raw: Vec<u8>,
    granularity: KeyScopeGranularity,
    opened: Result<KeysetOpen, StoreError>,
)
    requires
        call_ensures(open_keyset, (Some(&raw), granularity), opened),
    ensures
        match opened {
            Ok(KeysetOpen::Decode(body)) => body@ == raw@.skip(12),
            Ok(KeysetOpen::Fresh(_)) => false,
            Err(e) => e is KeysetCorrupt,
        },
        opened is Ok <==> {
            &&& raw@.len() >= 12
            &&& raw@.take(6) == seq![0x46u8, 0x42, 0x41, 0x54, 0x4B, 0x53]
            &&& raw@[6] == 1 && raw@[7] == 0
            &&& raw@[8] + 0x100 * raw@[9] + 0x1_0000 * raw@[10] + 0x100_0000 * raw@[11]
                == crate::checksum::crc32_of(raw@.skip(12))
        },
{
    assert(KEYSET_MAGIC@ =~= seq![0x46u8, 0x42, 0x41, 0x54, 0x4B, 0x53]);
    if raw@.len() >= 12 {
        assert(raw@.take(6) =~= raw@.subrange(0, 6));
        assert(body_of(raw@) =~= raw@.skip(12));
        crate::bytes::law_le_value_of_four(raw@.subrange(8, 12));
        crate::bytes::law_le_value_of_two(raw@.subrange(6, 8));
    }
}

/// Decoded entries are taken exactly where their granularity is that of the
/// store, and then the store holds the scopes of the entries and no others. The
/// key of a scope is that of its last entry.
pub proof fn law_decoded_entries_are_all_held(
    wire: KeysetWire,
    configured: KeyScopeGranularity,
    loaded: Result<KeyStore, StoreError>,
    i: int,
    scope: Seq<u8>,
)
    requires
        call_ensures(decode_keyset, (Ok(wire), configured), loaded),
    ensures
        loaded is Ok <==> match configured {
            KeyScopeGranularity::PerEntity => wire.granularity == 1,
            KeyScopeGranularity::PerCategory => wire.granularity == 2,
            KeyScopeGranularity::PerTypeId => wire.granularity == 3,
            KeyScopeGranularity::PerEvent => wire.granularity == 4,
        },
        loaded matches Err(e) ==> e is KeysetCorrupt,
        loaded matches Ok(store) ==> {
            &&& store.partition() == configured
            &&& !store.unflushed()
            &&& 0 <= i < wire.entries@.len() && (forall|j: int|
                i < j < wire.entries@.len() ==> (#[trigger] wire.entries@[j]).scope@
                    != wire.entries@[i].scope@) ==> store.keys_by_scope().contains_key(
                wire.entries@[i].scope@,
            ) && store.keys_by_scope()[wire.entries@[i].scope@] == wire.entries@[i].key@
            &&& store.keys_by_scope().contains_key(scope) <==> exists|j: int|
                0 <= j < wire.entries@.len() && (#[trigger] wire.entries@[j]).scope@ == scope
        },
{
    if let Ok(store) = loaded {
        let listing = wire_listing(wire.entries@);
        assert forall|j: int| 0 <= j < wire.entries@.len() implies (
        #[trigger] wire.entries@[j]).scope@ == listing[j].0 && wire.entries@[j].key@
            == listing[j].1 by {}
        lemma_scope_is_listed(listing, scope);
        if 0 <= i < wire.entries@.len() && (forall|j: int|
            i < j < wire.entries@.len() ==> (#[trigger] wire.entries@[j]).scope@
                != wire.entries@[i].scope@) {
            assert forall|j: int| i < j < listing.len() implies (#[trigger] listing[j]).0
                != listing[i].0 by {
                assert(wire.entries@[j].scope@ != wire.entries@[i].scope@);
            }
            lemma_last_entry_counts(listing, i);
        }
        if exists|j: int|
            0 <= j < wire.entries@.len() && (#[trigger] wire.entries@[j]).scope@ == scope {
            let j = choose|j: int|
                0 <= j < wire.entries@.len() && (#[trigger] wire.entries@[j]).scope@ == scope;
            assert(listing[j].0 == scope);
        }
        if store.keys_by_scope().contains_key(scope) {
            let j = choose|j: int| 0 <= j < listing.len() && (#[trigger] listing[j]).0 == scope;
            assert(wire.entries@[j].scope@ == scope);
        }
    }
}

/// The scopes that a map of a listing has are those that the listing names.
proof fn lemma_scope_is_listed(listing: Seq<(Seq<u8>, Seq<u8>)>, scope: Seq<u8>)
    ensures
        by_scope(listing).contains_key(scope) <==> exists|j: int|
            0 <= j < listing.len() && (#[trigger] listing[j]).0 == scope,
    decreases listing.len(),
{
    if listing.len() > 0 {
        let head = listing.drop_last();
        lemma_scope_is_listed(head, scope);
        if by_scope(head).contains_key(scope) {
            let j = choose|j: int| 0 <= j < head.len() && (#[trigger] head[j]).0 == scope;
            assert(listing[j].0 == scope);
        }
        if listing.last().0 == scope {
            assert(listing[listing.len() - 1].0 == scope);
        }
        if exists|j: int| 0 <= j < listing.len() && (#[trigger] listing[j]).0 == scope {
            let j = choose|j: int| 0 <= j < listing.len() && (#[trigger] listing[j]).0 == scope;
            if j < head.len() {
                assert(head[j].0 == scope);
            }
        }
    }
}

/// The last entry of a scope has its key.
proof fn lemma_last_entry_counts(listing: Seq<(Seq<u8>, Seq<u8>)>, i: int)
    requires
        0 <= i < listing.len(),
        forall|j: int| i < j < listing.len() ==> (#[trigger] listing[j]).0 != listing[i].0,
    ensures
        by_scope(listing).contains_key(listing[i].0),
        by_scope(listing)[listing[i].0] == listing[i].1,
    decreases listing.len(),
{
    let head = listing.drop_last();
    if i < head.len() {
        assert forall|j: int| i < j < head.len() implies (#[trigger] head[j]).0 != head[i].0 by {
            assert(listing[j].0 != listing[i].0);
        }
        lemma_last_entry_counts(head, i);
        assert(listing[listing.len() - 1].0 != listing[i].0);
    }
}

/// Two listings in scope order with the same keys by scope are the same.
proof fn lemma_listing_determined(a: Seq<(Seq<u8>, Seq<u8>)>, b: Seq<(Seq<u8>, Seq<u8>)>)
    requires
        forall|i: int, j: int|
            0 <= i < j < a.len() ==> crate::text::bytes_before(
                (#[trigger] a[i]).0,
                (#[trigger] a[j]).0,
            ),
        forall|i: int, j: int|
            0 <= i < j < b.len() ==> crate::text::bytes_before(
                (#[trigger] b[i]).0,
                (#[trigger] b[j]).0,
            ),
        by_scope(a) == by_scope(b),
    ensures
        a == b,
    decreases a.len(),
{
    lemma_by_scope(a);
    lemma_by_scope(b);
    if a.len() == 0 {
        if b.len() > 0 {
            assert(by_scope(b).contains_key(b[0].0));
        }
        assert(a =~= b);
    } else {
        let m = a.len() - 1;
        assert(by_scope(a).contains_key(a[m].0));
        let j = choose|j: int| 0 <= j < b.len() && (#[trigger] b[j]).0 == a[m].0;
        let n = b.len() - 1;
        assert(by_scope(b).contains_key(b[n].0));
        let i = choose|i: int| 0 <= i < a.len() && (#[trigger] a[i]).0 == b[n].0;
        if j < n {
            assert(crate::text::bytes_before(b[j].0, b[n].0));
            crate::text::lemma_bytes_before_asymmetric(b[j].0, b[n].0);
            if i < m {
                assert(crate::text::bytes_before(a[i].0, a[m].0));
            }
        }
        assert(a[m] == b[n]);
        let (x, y) = (a.drop_last(), b.drop_last());
        lemma_last_scope_is_new(a);
        lemma_last_scope_is_new(b);
        assert(by_scope(x) =~= by_scope(a).remove(a[m].0));
        assert(by_scope(y) =~= by_scope(b).remove(b[n].0));
        lemma_listing_determined(x, y);
        assert(a =~= x.push(a[m]));
        assert(b =~= y.push(b[n]));
    }
}

/// The last scope of a listing in scope order is not among those before it.
proof fn lemma_last_scope_is_new(listing: Seq<(Seq<u8>, Seq<u8>)>)
    requires
        listing.len() > 0,
        forall|i: int, j: int|
            0 <= i < j < listing.len() ==> crate::text::bytes_before(
                (#[trigger] listing[i]).0,
                (#[trigger] listing[j]).0,
            ),
    ensures
        !by_scope(listing.drop_last()).contains_key(listing.last().0),
{
    let head = listing.drop_last();
    assert forall|i: int, j: int| 0 <= i < j < head.len() implies crate::text::bytes_before(
        (#[trigger] head[i]).0,
        (#[trigger] head[j]).0,
    ) by {
        assert(crate::text::bytes_before(listing[i].0, listing[j].0));
    }
    lemma_by_scope(head);
    if by_scope(head).contains_key(listing.last().0) {
        let i = choose|i: int| 0 <= i < head.len() && (#[trigger] head[i]).0 == listing.last().0;
        assert(crate::text::bytes_before(listing[i].0, listing[listing.len() - 1].0));
        crate::text::lemma_bytes_before_irreflexive(listing[i].0);
    }
}

proof fn lemma_by_scope(listing: Seq<(Seq<u8>, Seq<u8>)>)
    requires
        forall|i: int, j: int|
            0 <= i < j < listing.len() ==> crate::text::bytes_before(
                (#[trigger] listing[i]).0,
                (#[trigger] listing[j]).0,
            ),
    ensures
        forall|i: int|
            0 <= i < listing.len() ==> by_scope(listing).contains_key((#[trigger] listing[i]).0)
                && by_scope(listing)[listing[i].0] == listing[i].1,
        forall|s: Seq<u8>| #[trigger]
            by_scope(listing).contains_key(s) ==> exists|i: int|
                0 <= i < listing.len() && (#[trigger] listing[i]).0 == s,
    decreases listing.len(),
{
    if listing.len() > 0 {
        let head = listing.drop_last();
        assert forall|i: int, j: int| 0 <= i < j < head.len() implies crate::text::bytes_before(
            (#[trigger] head[i]).0,
            (#[trigger] head[j]).0,
        ) by {
            assert(crate::text::bytes_before(listing[i].0, listing[j].0));
        }
        lemma_by_scope(head);
        assert forall|i: int| 0 <= i < listing.len() implies by_scope(listing).contains_key(
            (#[trigger] listing[i]).0,
        ) && by_scope(listing)[listing[i].0] == listing[i].1 by {
            if i < head.len() {
                assert(head[i] == listing[i]);
                assert(crate::text::bytes_before(listing[i].0, listing[listing.len() - 1].0));
                crate::text::lemma_bytes_before_irreflexive(listing[i].0);
            }
        }
        assert forall|s: Seq<u8>| #[trigger] by_scope(listing).contains_key(
            s,
        ) implies exists|i: int| 0 <= i < listing.len() && (#[trigger] listing[i]).0 == s by {
            if s == listing.last().0 {
                assert(listing[listing.len() - 1].0 == s);
            } else {
                assert(by_scope(head).contains_key(s));
                let i = choose|i: int| 0 <= i < head.len() && (#[trigger] head[i]).0 == s;
                assert(listing[i].0 == s);
            }
        }
    }
}

/// A granularity has its own name.
pub proof fn law_granularity_has_its_name(granularity: KeyScopeGranularity)
    ensures
        granularity is PerEntity ==> granularity_text(granularity) == "PerEntity"@,
        granularity is PerCategory ==> granularity_text(granularity) == "PerCategory"@,
        granularity is PerTypeId ==> granularity_text(granularity) == "PerTypeId"@,
        granularity is PerEvent ==> granularity_text(granularity) == "PerEvent"@,
{
}

} // verus!
