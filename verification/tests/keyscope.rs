//! Key scopes, sealing, and the keyset file.

use batpak::coordinate::Coordinate;
use batpak::error::StoreError;
use batpak::event::{EventId, EventKind};
use batpak::keyscope::key::PayloadKey;
use batpak::keyscope::persist::{
    corrupt, decode_keyset, frame_keyset, open_keyset, wipe_entries, KeysetEntryWire, KeysetOpen,
    KeysetWire, KEYSET_MAGIC, KEYSET_VERSION,
};
use batpak::keyscope::{
    payload_aad, scope_for, KeyScope, KeyScopeGranularity, KeyStore, KeyStoreError, ShredScope,
};

fn coord(entity: &str) -> Coordinate {
    Coordinate::new(entity, "scope:test").expect("coordinate")
}

fn fixed_key(byte: u8) -> PayloadKey {
    PayloadKey::from_bytes([byte; 32])
}

#[test]
fn scope_for_is_deterministic_per_granularity() {
    let coordinate = coord("entity:a");
    let kind = EventKind::custom(0xF, 1);
    let id = EventId::from_u128(7u128);
    for granularity in [
        KeyScopeGranularity::PerEntity,
        KeyScopeGranularity::PerCategory,
        KeyScopeGranularity::PerTypeId,
        KeyScopeGranularity::PerEvent,
    ] {
        let first = scope_for(granularity, &coordinate, kind, id);
        let second = scope_for(granularity, &coordinate, kind, id);
        assert_eq!(first, second, "scope_for must be deterministic");
    }
}

#[test]
fn scope_for_distinguishes_by_the_relevant_field_only() {
    let kind = EventKind::custom(0xF, 1);
    let id = EventId::from_u128(7u128);

    // PerEntity keys off the entity, not the kind/id.
    let entity_a = scope_for(KeyScopeGranularity::PerEntity, &coord("a"), kind, id);
    let entity_b = scope_for(KeyScopeGranularity::PerEntity, &coord("b"), kind, id);
    assert_ne!(
        entity_a, entity_b,
        "distinct entities must not share a scope"
    );
    let entity_a_other_kind = scope_for(
        KeyScopeGranularity::PerEntity,
        &coord("a"),
        EventKind::custom(0xE, 2),
        EventId::from_u128(99u128),
    );
    assert_eq!(
        entity_a, entity_a_other_kind,
        "PerEntity ignores kind and id"
    );

    // PerCategory collapses type ids within a category but splits categories.
    let cat_f1 = scope_for(KeyScopeGranularity::PerCategory, &coord("a"), kind, id);
    let cat_f2 = scope_for(
        KeyScopeGranularity::PerCategory,
        &coord("a"),
        EventKind::custom(0xF, 2),
        id,
    );
    let cat_e1 = scope_for(
        KeyScopeGranularity::PerCategory,
        &coord("a"),
        EventKind::custom(0xE, 1),
        id,
    );
    assert_eq!(cat_f1, cat_f2, "same category shares a scope");
    assert_ne!(cat_f1, cat_e1, "distinct categories split");

    // PerTypeId splits on the full kind; PerEvent splits on the id.
    let type_f1 = scope_for(KeyScopeGranularity::PerTypeId, &coord("a"), kind, id);
    let type_f2 = scope_for(
        KeyScopeGranularity::PerTypeId,
        &coord("a"),
        EventKind::custom(0xF, 2),
        id,
    );
    assert_ne!(type_f1, type_f2, "distinct kinds split under PerTypeId");
    let evt_1 = scope_for(KeyScopeGranularity::PerEvent, &coord("a"), kind, id);
    let evt_2 = scope_for(
        KeyScopeGranularity::PerEvent,
        &coord("a"),
        kind,
        EventId::from_u128(8u128),
    );
    assert_ne!(evt_1, evt_2, "distinct ids split under PerEvent");

    // Different granularities never collide (distinct discriminants).
    assert_ne!(entity_a, cat_f1);
    assert_ne!(cat_f1, type_f1);
    assert_ne!(type_f1, evt_1);
}

#[test]
fn default_granularity_is_per_entity() {
    assert_eq!(
        KeyScopeGranularity::default(),
        KeyScopeGranularity::PerEntity
    );
}

#[test]
fn seal_then_open_round_trips() {
    let key = fixed_key(0x11);
    let nonce = [0x22u8; 24];
    let aad = b"associated";
    let plaintext = b"top secret payload";
    let ciphertext = key.seal(&nonce, aad, plaintext).expect("seal");
    assert_ne!(
        ciphertext.as_slice(),
        plaintext,
        "payload must be encrypted"
    );
    let recovered = key.open(&nonce, aad, &ciphertext).expect("open");
    assert_eq!(
        recovered.as_slice(),
        plaintext,
        "round-trip must recover plaintext"
    );
}

#[test]
fn open_fails_on_wrong_key_nonce_or_aad() {
    let key = fixed_key(0x11);
    let nonce = [0x22u8; 24];
    let aad = b"aad";
    let ciphertext = key.seal(&nonce, aad, b"payload").expect("seal");

    let wrong_key = fixed_key(0x33);
    assert_eq!(
        wrong_key.open(&nonce, aad, &ciphertext),
        Err(KeyStoreError::Open),
        "wrong key must fail"
    );

    let wrong_nonce = [0x44u8; 24];
    assert_eq!(
        key.open(&wrong_nonce, aad, &ciphertext),
        Err(KeyStoreError::Open),
        "wrong nonce must fail"
    );

    assert_eq!(
        key.open(&nonce, b"other", &ciphertext),
        Err(KeyStoreError::Open),
        "wrong aad must fail"
    );

    let mut tampered = ciphertext.clone();
    if let Some(first) = tampered.first_mut() {
        *first ^= 0xFF;
    }
    assert_eq!(
        key.open(&nonce, aad, &tampered),
        Err(KeyStoreError::Open),
        "tampered ciphertext must fail"
    );
}

#[test]
fn get_or_create_mints_once_and_returns_the_same_key() {
    let mut store = KeyStore::new(KeyScopeGranularity::PerEntity);
    let scope = scope_for(
        KeyScopeGranularity::PerEntity,
        &coord("entity:mint"),
        EventKind::custom(0xF, 1),
        EventId::from_u128(1u128),
    );
    let nonce = [0x01u8; 24];

    let ciphertext = {
        let key = store.get_or_create(&scope).expect("mint");
        key.seal(&nonce, b"", b"same-key?").expect("seal")
    };
    // A second get_or_create must return the SAME key: opening succeeds.
    let recovered = {
        let key = store.get_or_create(&scope).expect("reuse");
        key.open(&nonce, b"", &ciphertext)
            .expect("open with reused key")
    };
    assert_eq!(recovered.as_slice(), b"same-key?");
}

#[test]
fn destroy_removes_key_and_shreds_prior_ciphertext() {
    let mut store = KeyStore::new(KeyScopeGranularity::PerEvent);
    let scope = scope_for(
        KeyScopeGranularity::PerEvent,
        &coord("entity:shred"),
        EventKind::custom(0xF, 1),
        EventId::from_u128(5u128),
    );
    let nonce = [0x09u8; 24];

    let ciphertext = {
        let key = store.get_or_create(&scope).expect("mint");
        key.seal(&nonce, b"", b"shred me").expect("seal")
    };

    assert!(store.get(&scope).is_some(), "key exists before destroy");
    assert!(store.destroy(&scope), "destroy removes an existing key");
    assert!(store.get(&scope).is_none(), "get after destroy is None");
    assert!(
        !store.destroy(&scope),
        "destroying an absent scope is false"
    );

    // A freshly minted key for the same scope cannot open the old ciphertext.
    let fresh = store.get_or_create(&scope).expect("re-mint");
    assert_eq!(
        fresh.open(&nonce, b"", &ciphertext),
        Err(KeyStoreError::Open),
        "post-shred key must not recover the old payload"
    );
}

#[test]
fn generate_yields_distinct_keys() {
    let a = PayloadKey::generate().expect("key a");
    let b = PayloadKey::generate().expect("key b");
    let nonce = [0u8; 24];
    let ciphertext = a.seal(&nonce, b"", b"probe").expect("seal");
    // Two independently generated keys are (overwhelmingly) distinct: b
    // cannot open a's ciphertext.
    assert_eq!(
        b.open(&nonce, b"", &ciphertext),
        Err(KeyStoreError::Open),
        "independent keys must differ"
    );
}

#[test]
fn payload_key_debug_does_not_leak_bytes() {
    let key = fixed_key(0xAB);
    let rendered = key.debug_text();
    assert!(
        !rendered.contains("ab"),
        "debug must not print hex key bytes: {rendered}"
    );
    assert!(
        !rendered.contains("171"),
        "debug must not print decimal key bytes: {rendered}"
    );
    assert!(
        rendered.contains("PayloadKey"),
        "debug still names the type: {rendered}"
    );
}

#[test]
fn payload_aad_binds_ciphertext_to_event_identity() {
    // The AAD binds coordinate + kind + event id, so a ciphertext sealed under
    // one event's identity cannot be opened under another's (relocation/tamper),
    // even with the SAME key and SAME nonce.
    let mut store = KeyStore::new(KeyScopeGranularity::PerEntity);
    let coordinate = coord("entity:aad");
    let kind = EventKind::custom(0xF, 1);
    let scope = scope_for(
        KeyScopeGranularity::PerEntity,
        &coordinate,
        kind,
        EventId::from_u128(1u128),
    );
    let key = store.get_or_create(&scope).expect("mint");
    let nonce = [0x5u8; 24];

    let aad_event_1 = payload_aad(&coordinate, kind, EventId::from_u128(1u128));
    let ciphertext = key
        .seal(&nonce, &aad_event_1, b"bound secret")
        .expect("seal");

    // A DIFFERENT event id → different AAD → authentication fails (tamper).
    let aad_event_2 = payload_aad(&coordinate, kind, EventId::from_u128(2u128));
    assert_eq!(
        key.open(&nonce, &aad_event_2, &ciphertext),
        Err(KeyStoreError::Open),
        "relocating the ciphertext onto a different event id must fail to open"
    );
    // A DIFFERENT coordinate → different AAD → also fails.
    let other_coord = coord("entity:other");
    let aad_other = payload_aad(&other_coord, kind, EventId::from_u128(1u128));
    assert_eq!(
        key.open(&nonce, &aad_other, &ciphertext),
        Err(KeyStoreError::Open),
        "relocating the ciphertext onto a different coordinate must fail to open"
    );
    // The correct identity still opens.
    assert_eq!(
        key.open(&nonce, &aad_event_1, &ciphertext).expect("open"),
        b"bound secret".to_vec(),
    );
}

const GRAN: KeyScopeGranularity = KeyScopeGranularity::PerEntity;
const NONCE: [u8; 24] = [0x33; 24];

/// A keyset file in memory.
struct Disk {
    raw: Option<Vec<u8>>,
}

/// The granularity, then for each entry the length of its scope, the scope and
/// the key.
fn encode(wire: &KeysetWire) -> Vec<u8> {
    let mut body = vec![wire.granularity];
    for entry in &wire.entries {
        body.push(u8::try_from(entry.scope.len()).expect("short scope"));
        body.extend_from_slice(&entry.scope);
        body.extend_from_slice(&entry.key);
    }
    body
}

fn decode(body: &[u8]) -> Result<KeysetWire, String> {
    let (granularity, mut rest) = body.split_first().ok_or("empty body")?;
    let mut entries = Vec::new();
    while let Some((len, tail)) = rest.split_first() {
        let len = usize::from(*len);
        if tail.len() < len + 32 {
            return Err("torn entry".to_owned());
        }
        entries.push(KeysetEntryWire {
            scope: tail[..len].to_vec(),
            key: tail[len..len + 32].try_into().expect("32 bytes"),
        });
        rest = &tail[len + 32..];
    }
    Ok(KeysetWire {
        granularity: *granularity,
        entries,
    })
}

impl Disk {
    fn empty() -> Disk {
        Disk { raw: None }
    }

    fn flush(&mut self, store: &mut KeyStore) {
        let mut wire = store.to_wire();
        self.raw = Some(frame_keyset(&encode(&wire)));
        wipe_entries(&mut wire);
        assert!(wire.entries.iter().all(|entry| entry.key == [0u8; 32]));
        assert!(wire.entries.iter().zip(store.to_wire().entries.iter()).all(
            |(wiped, kept)| wiped.scope == kept.scope && kept.key != [0u8; 32]
        ));
        store.mark_flushed();
    }

    fn load(&self, granularity: KeyScopeGranularity) -> Result<KeyStore, StoreError> {
        match open_keyset(self.raw.as_ref(), granularity)? {
            KeysetOpen::Fresh(store) => Ok(store),
            KeysetOpen::Decode(body) => decode_keyset(decode(&body), granularity),
        }
    }
}

fn scope(entity: &str) -> KeyScope {
    let coord = Coordinate::new(entity, "scope:persist").expect("coordinate");
    scope_for(
        GRAN,
        &coord,
        EventKind::custom(0xF, 1),
        EventId::from_u128(1u128),
    )
}

#[test]
fn flush_then_load_recovers_keys_and_a_pre_flush_ciphertext_opens() {
    let mut dir = Disk::empty();
    let scope_a = scope("entity:a");
    let scope_b = scope("entity:b");

    let mut store = KeyStore::new(GRAN);
    let ciphertext = store
        .get_or_create(&scope_a)
        .expect("mint A")
        .seal(&NONCE, b"aad", b"secret payload")
        .expect("seal under A");
    let _ = store.get_or_create(&scope_b).expect("mint B");
    dir.flush(&mut store);

    // Reload from the same dir: both keys recover, and the ciphertext sealed
    // BEFORE the flush opens under the reloaded key A.
    let reloaded = dir.load(GRAN).expect("load keyset");
    assert_eq!(reloaded.granularity(), GRAN, "granularity round-trips");
    assert!(reloaded.get(&scope_b).is_some(), "key B recovered");
    let recovered = reloaded
        .get(&scope_a)
        .expect("key A recovered")
        .open(&NONCE, b"aad", &ciphertext)
        .expect("reloaded key A opens the pre-flush ciphertext");
    assert_eq!(recovered.as_slice(), b"secret payload");
}

#[test]
fn every_minted_key_is_drawn_anew() {
    let mut store = KeyStore::new(GRAN);
    let nonce = [1u8; 24];
    let mut sealed = Vec::new();
    for entity in ["entity:a", "entity:b", "entity:a"] {
        let key = store.get_or_create(&scope(entity)).expect("mint");
        sealed.push(key.seal(&nonce, b"", b"same").expect("seal"));
        if entity == "entity:b" {
            assert!(store.destroy(&scope("entity:a")));
        }
    }
    assert_ne!(sealed[0], sealed[1]);
    assert_ne!(sealed[0], sealed[2]);
    assert_ne!(sealed[1], sealed[2]);
}

#[test]
fn a_loaded_store_lists_what_was_flushed() {
    let mut dir = Disk::empty();
    let mut store = KeyStore::new(GRAN);
    for entity in ["entity:c", "entity:a", "entity:b"] {
        let _ = store.get_or_create(&scope(entity)).expect("mint");
    }
    assert!(store.destroy(&scope("entity:c")));
    dir.flush(&mut store);
    let loaded = dir.load(GRAN).expect("load keyset");
    assert_eq!(loaded.key_count(), 2);
    assert!(!loaded.is_dirty());
    assert!(loaded.get(&scope("entity:c")).is_none());
    assert_eq!(encode(&loaded.to_wire()), encode(&store.to_wire()));
    assert!(matches!(
        dir.load(KeyScopeGranularity::PerEvent),
        Err(StoreError::KeysetCorrupt { .. })
    ));
}

#[test]
fn absent_keyset_loads_an_empty_store_not_a_corruption() {
    let dir = Disk::empty();
    // First open: no keyset file yet → empty store, NOT an error.
    let loaded = dir.load(GRAN).expect("absent keyset → empty store");
    assert!(
        loaded.get(&scope("entity:none")).is_none(),
        "an absent keyset rehydrates empty"
    );
}

#[test]
fn shred_survives_restart_destroyed_key_is_absent_and_ciphertext_unrecoverable() {
    let mut dir = Disk::empty();
    let target = scope("entity:shred-me");
    let keep = scope("entity:keep");

    // Seal a ciphertext under the target scope, and mint a second key we keep.
    let mut store = KeyStore::new(GRAN);
    let ciphertext = store
        .get_or_create(&target)
        .expect("mint target")
        .seal(&NONCE, b"aad", b"data to shred")
        .expect("seal target");
    let _ = store.get_or_create(&keep).expect("mint keep");
    dir.flush(&mut store);

    // Crypto-shred: destroy the target key, then flush the shredded keyset.
    assert!(store.destroy(&target), "destroy removes the target key");
    dir.flush(&mut store);

    // Restart: reload from disk. The destroyed scope's key is ABSENT and its old
    // ciphertext is unrecoverable — the shred is durable across the restart. The
    // untouched key survives.
    let reloaded = dir.load(GRAN).expect("reload after shred");
    assert!(
        reloaded.get(&target).is_none(),
        "PROPERTY: the shredded scope's key is absent after restart"
    );
    assert!(
        reloaded.get(&keep).is_some(),
        "PROPERTY: an untouched key survives the shred flush"
    );
    // Even minting a fresh key for the same scope cannot open the old ciphertext.
    let mut reloaded = reloaded;
    let refreshed = reloaded.get_or_create(&target).expect("re-mint target");
    assert!(
        matches!(
            refreshed.open(&NONCE, b"aad", &ciphertext),
            Err(KeyStoreError::Open)
        ),
        "PROPERTY: post-shred ciphertext is permanently unrecoverable across restart"
    );
}

#[test]
fn corrupt_keyset_fails_closed_rather_than_starting_empty() {
    // (1) Garbage bytes (wrong magic) → hard error, NOT an empty store.
    let mut garbage_dir = Disk::empty();
    garbage_dir.raw = Some(b"not a real keyset file at all".to_vec());
    assert!(
        matches!(
            garbage_dir.load(GRAN),
            Err(StoreError::KeysetCorrupt { .. })
        ),
        "PROPERTY: a garbage keyset fails closed (KeysetCorrupt), never silently empty"
    );

    // (2) A truncated header (shorter than magic+version+crc) → fail closed.
    let mut short_dir = Disk::empty();
    short_dir.raw = Some(KEYSET_MAGIC[..3].to_vec());
    assert!(
        matches!(
            short_dir.load(GRAN),
            Err(StoreError::KeysetCorrupt { .. })
        ),
        "PROPERTY: a truncated keyset header fails closed"
    );

    // (3) A valid file body with a corrupted CRC → fail closed. Flush a real
    // keyset, then flip a byte inside the CRC field.
    let mut crc_dir = Disk::empty();
    let mut store = KeyStore::new(GRAN);
    let _ = store.get_or_create(&scope("entity:crc")).expect("mint");
    crc_dir.flush(&mut store);
    // CRC lies at bytes 8..12, after the magic and the version.
    crc_dir.raw.as_mut().expect("flushed keyset")[8] ^= 0xFF;
    assert!(
        matches!(
            crc_dir.load(GRAN),
            Err(StoreError::KeysetCorrupt { .. })
        ),
        "PROPERTY: a CRC mismatch fails closed"
    );

    // (4) A granularity mismatch (persisted under PerEntity, loaded as PerEvent)
    // → fail closed: every derived scope would differ, an effective silent shred.
    let mut gran_dir = Disk::empty();
    let mut store = KeyStore::new(GRAN);
    let _ = store.get_or_create(&scope("entity:gran")).expect("mint");
    gran_dir.flush(&mut store);
    assert!(
        matches!(
            gran_dir.load(KeyScopeGranularity::PerEvent),
            Err(StoreError::KeysetCorrupt { .. })
        ),
        "PROPERTY: a configured-vs-persisted granularity mismatch fails closed"
    );
}

#[test]
fn corrupt_helper_and_header_constants_are_stable() {
    // Format identity guard: magic + current version must not drift silently.
    assert_eq!(&KEYSET_MAGIC, b"FBATKS");
    assert_eq!(KEYSET_VERSION, 1);
    assert!(matches!(
        corrupt("x".to_owned()),
        StoreError::KeysetCorrupt { .. }
    ));
    // The rendered error must carry the reason and the fail-closed posture, never key material.
    let rendered = corrupt("boom-reason".to_owned()).message();
    assert!(
        rendered.contains("boom-reason") && rendered.contains("refusing to open"),
        "KeysetCorrupt Display must carry the reason and the fail-closed posture: {rendered}"
    );
}

#[test]
fn each_fault_of_a_keyset_file_is_named() {
    let reason = |disk: &Disk| match disk.load(GRAN) {
        Err(StoreError::KeysetCorrupt { reason }) => reason,
        _ => panic!("expected a corrupt keyset"),
    };
    let mut disk = Disk::empty();
    let mut store = KeyStore::new(GRAN);
    let _ = store.get_or_create(&scope("entity:fault")).expect("mint");
    disk.flush(&mut store);
    let good = disk.raw.clone().expect("flushed");

    disk.raw = Some(good[..11].to_vec());
    assert_eq!(reason(&disk), "file too short: 11 bytes");
    let mut later = good.clone();
    later[6] = 9;
    disk.raw = Some(later);
    assert_eq!(
        reason(&disk),
        "unsupported keyset version 9; this binary reads and writes version 1"
    );
    let mut crc = good.clone();
    crc[8..12].copy_from_slice(&[0x78, 0x56, 0x34, 0x12]);
    disk.raw = Some(crc);
    assert!(reason(&disk).starts_with("crc mismatch: stored 0x12345678, computed 0x"));
    disk.raw = Some(frame_keyset(&[1, 200]));
    assert_eq!(reason(&disk), "decode keyset body: torn entry");
    disk.raw = Some(frame_keyset(&[7]));
    assert_eq!(
        reason(&disk),
        "unknown key-scope granularity discriminant 7"
    );
    disk.raw = Some(frame_keyset(&[4]));
    assert_eq!(
        reason(&disk),
        "configured key-scope granularity PerEntity does not match persisted keyset granularity PerEvent"
    );
}

#[test]
fn what_was_marked_or_destroyed_is_unflushed() {
    let mut store = KeyStore::new(GRAN);
    assert!(!store.is_dirty());
    let target = scope("entity:dirty");
    let _ = store.get_or_create(&target).expect("mint");
    store.mark_dirty();
    assert!(store.is_dirty());
    store.mark_flushed();
    assert!(!store.is_dirty());
    assert!(store.destroy(&target));
    assert!(store.is_dirty());
    assert_eq!(store.key_count(), 0);
}

#[test]
fn a_shred_selector_addresses_its_own_granularity_only() {
    let target = coord("entity:selector");
    let kind = EventKind::custom(0xF, 3);
    let id = EventId::from_u128(9);
    let entity = ShredScope::Entity(&target);
    assert_eq!(
        KeyScopeGranularity::PerEntity.resolve_shred_scope(&entity),
        Some(scope_for(KeyScopeGranularity::PerEntity, &target, kind, id))
    );
    assert_eq!(
        KeyScopeGranularity::PerEvent.resolve_shred_scope(&entity),
        None
    );
    assert_eq!(
        KeyScopeGranularity::PerEvent.resolve_shred_scope(&ShredScope::Event(id)),
        Some(scope_for(KeyScopeGranularity::PerEvent, &target, kind, id))
    );
    assert_eq!(
        KeyScopeGranularity::PerTypeId.resolve_shred_scope(&ShredScope::Kind(kind)),
        Some(scope_for(KeyScopeGranularity::PerTypeId, &target, kind, id))
    );
    assert_eq!(entity.label(), "Entity");
}

#[test]
fn a_scope_is_a_discriminant_and_the_field() {
    let scope = scope_for(
        KeyScopeGranularity::PerEntity,
        &coord("ab"),
        EventKind::custom(0xF, 1),
        EventId::from_u128(1),
    );
    assert_eq!(&scope.as_bytes()[1..], b"ab");
    let shown = scope.debug_text();
    assert!(shown.starts_with("KeyScope(0x") && shown.ends_with("6162)"));
}
