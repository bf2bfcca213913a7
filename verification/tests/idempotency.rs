//! The durable idempotency keys.

use batpak::error::StoreError;
use batpak::event::EventKind;
use batpak::index::idemp::{
    check_idemp_file, frame_idemp_body, idemp_load, IdempEntry, IdempFrame, IdempLoad, IdempRead,
    IdempotencyRetention, IdempotencyStore, OverflowPolicy, IDEMP_MAGIC, IDEMP_VERSION,
};
use std::collections::BTreeMap;

fn entry(key: u128, recorded_global_sequence: u64) -> IdempEntry {
    IdempEntry {
        key,
        event_id: key,
        global_sequence: recorded_global_sequence,
        disk_pos_segment: 0,
        disk_pos_offset: 0,
        disk_pos_length: 0,
        content_hash: [0u8; 32],
        prev_hash: [0u8; 32],
        entity: "e".to_owned(),
        scope: "s".to_owned(),
        kind: EventKind::custom(0xB, 1),
        recorded_global_sequence,
        event_evicted: false,
        receipt_extensions: BTreeMap::new(),
    }
}

#[test]
fn cap_never_evicts_within_window_keys_even_under_residual_pigeonhole() {
    // Window keeps last 100 sequences; cap is only 3. Record 10 keys all
    // within the window (recorded at 90..100, frontier 100). The cap MUST
    // NOT evict any of them: within-window keys are inviolable.
    let mut store = IdempotencyStore::new(
        IdempotencyRetention::Hybrid {
            keep_sequences: 100,
            max_keys: 3,
        },
        OverflowPolicy::Warn,
    );
    for i in 0..10u128 {
        let seq = u64::try_from(i).expect("loop index 0..10 fits u64");
        store.record(entry(i, 90 + seq));
    }
    let report = store.evict(100);
    assert!(report.within_window_exceeds_cap, "residual pigeonhole");
    assert_eq!(report.aged_out, 0);
    assert_eq!(report.cap_trimmed_out_of_window, 0);
    assert_eq!(report.remaining, 10, "all within-window keys survive");
    assert!((0..10u128).all(|i| store.get(i).is_some()));
}

#[test]
fn window_aging_trims_only_out_of_window_keys() {
    let mut store = IdempotencyStore::new(
        IdempotencyRetention::Window { keep_sequences: 10 },
        OverflowPolicy::Warn,
    );
    // Old keys at sequences 0..5, recent keys at 95..100; frontier 100, so
    // window floor is 90. Old keys age out; recent keys remain.
    for i in 0..5u128 {
        store.record(entry(
            i,
            u64::try_from(i).expect("loop index 0..5 fits u64"),
        ));
    }
    for i in 95..100u128 {
        store.record(entry(
            i,
            u64::try_from(i).expect("loop index 95..100 fits u64"),
        ));
    }
    let report = store.evict(100);
    assert_eq!(report.aged_out, 5, "five out-of-window keys aged out");
    assert_eq!(report.remaining, 5, "five within-window keys remain");
    for i in 0..5u128 {
        assert!(store.get(i).is_none(), "aged-out key {i} is gone");
    }
    assert!((95..100u128).all(|i| store.get(i).is_some()), "kept");
}

#[test]
fn unbounded_never_evicts() {
    let mut store = IdempotencyStore::new(IdempotencyRetention::Unbounded, OverflowPolicy::Warn);
    for i in 0..50u128 {
        store.record(entry(
            i,
            u64::try_from(i).expect("loop index 0..50 fits u64"),
        ));
    }
    let report = store.evict(1_000_000);
    assert_eq!(report.aged_out, 0);
    assert_eq!(report.cap_trimmed_out_of_window, 0);
    assert_eq!(report.remaining, 50);
}

fn fail_closed(keep_sequences: u64, max_keys: u64) -> IdempotencyStore {
    IdempotencyStore::new(
        IdempotencyRetention::Hybrid {
            keep_sequences,
            max_keys,
        },
        OverflowPolicy::FailClosed,
    )
}

#[test]
fn admit_new_key_fail_closed_refuses_only_new_keys_over_cap() {
    let mut store = fail_closed(1000, 2);
    store.record(entry(1, 1));
    store.record(entry(2, 2));
    // Re-recording an existing key is admitted; a new key over the cap is not
    // (both held keys are within window at frontier 2).
    assert!(store.admit_new_key(1, 2).is_ok());
    assert!(matches!(
        store.admit_new_key(99, 2),
        Err(StoreError::IdempotencyOverflowFailClosed { .. })
    ));
}

#[test]
fn admit_new_key_ages_out_of_window_before_fail_closing() {
    // Both held keys are OUT of window at frontier 1000 (floor 990). A new
    // key must age them out first and be admitted, not refused.
    let mut store = fail_closed(10, 2);
    store.record(entry(1, 1));
    store.record(entry(2, 2));
    assert!(
        store.admit_new_key(99, 1000).is_ok(),
        "PROPERTY: out-of-window keys must age out before a fresh key is refused"
    );
    assert_eq!(store.len(), 0, "stale keys were aged out by admission");
}

#[test]
fn admit_new_keys_validates_the_batch_as_a_unit() {
    // (1) Duplicate new keys within one batch are rejected (they would
    // otherwise derive duplicate event ids).
    let mut dup_store = fail_closed(1000, 1000);
    let dup_err = dup_store
        .admit_new_keys(&[7u128, 7u128], 0)
        .expect_err("PROPERTY: two identical new keys in a batch must be rejected");
    assert!(
        matches!(dup_err, StoreError::IdempotencyPartialBatch { .. }),
        "duplicate new key must surface IdempotencyPartialBatch, got {dup_err:?}"
    );

    // (2) Cap 3 with 2 within-window keys held: a batch of 2 unique NEW keys
    // reaches 4 > 3 and is rejected as a unit even though each alone passes a
    // per-item len check; a batch that fits (1 new => 3 == cap) is admitted.
    let mut store = fail_closed(1000, 3);
    store.record(entry(1, 1));
    store.record(entry(2, 2));
    let err = store
        .admit_new_keys(&[10u128, 11u128], 2)
        .expect_err("PROPERTY: a unique-new batch exceeding the cap must be rejected");
    assert!(
        matches!(err, StoreError::IdempotencyOverflowFailClosed { .. }),
        "over-cap unique batch must surface IdempotencyOverflowFailClosed, got {err:?}"
    );
    assert!(store.admit_new_keys(&[10u128], 2).is_ok());
}

#[test]
fn mark_evicted_flags_only_dropped_events_and_preserves_tuple() {
    let mut store = IdempotencyStore::new(IdempotencyRetention::Unbounded, OverflowPolicy::Warn);
    let mut live = entry(1, 1);
    live.disk_pos_segment = 7;
    live.global_sequence = 1;
    let mut dropped = entry(2, 2);
    dropped.disk_pos_segment = 9;
    dropped.global_sequence = 2;
    dropped.content_hash = [0xAB; 32];
    store.record(live);
    store.record(dropped);

    // Event 1 stays live; event 2's frame was dropped.
    store.mark_evicted(|event_id| event_id == 1);

    let one = store.get(1).expect("event 1 was recorded and is live");
    assert!(!one.is_event_evicted() && !one.event_evicted);
    assert_eq!(one.disk_pos_segment, 7);

    let two = store.get(2).expect("event 2 was recorded");
    assert!(two.is_event_evicted() && two.event_evicted);
    // disk_pos is UNCHANGED after eviction: the reconstructed receipt must
    // carry the ORIGINAL frame position. The rest of the tuple is preserved.
    assert_eq!(two.disk_pos_segment, 9, "disk_pos unchanged after eviction");
    assert_eq!(two.global_sequence, 2, "sequence preserved");
    assert_eq!(two.content_hash, [0xAB; 32], "content hash preserved");
}

/// A body of 24 bytes for each entry: the key, then the sequence.
fn encode_body(entries: &[IdempEntry]) -> Vec<u8> {
    let mut body = Vec::new();
    for e in entries {
        body.extend_from_slice(&e.key.to_le_bytes());
        body.extend_from_slice(&e.recorded_global_sequence.to_le_bytes());
    }
    body
}

fn decode_body(body: &[u8]) -> Result<Vec<IdempEntry>, String> {
    if body.len() % 24 != 0 {
        return Err("torn row".to_owned());
    }
    Ok(body
        .chunks(24)
        .map(|row| {
            let key = u128::from_le_bytes(row[..16].try_into().expect("16 bytes"));
            let seq = u64::from_le_bytes(row[16..].try_into().expect("8 bytes"));
            entry(key, seq)
        })
        .collect())
}

fn read_body(raw: Vec<u8>) -> IdempLoad {
    match check_idemp_file(IdempRead::Bytes(raw)).expect("not from a later version") {
        IdempFrame::Body(body) => idemp_load(decode_body(&body)),
        IdempFrame::Missing => IdempLoad::Missing,
        IdempFrame::Invalid { reason } => IdempLoad::Invalid { reason },
    }
}

#[test]
fn flush_then_read_roundtrips() {
    let mut store = IdempotencyStore::new(IdempotencyRetention::default(), OverflowPolicy::Warn);
    store.record(entry(7, 7));
    store.record(entry(8, 8));
    let raw = frame_idemp_body(&encode_body(&store.snapshot()));
    let loaded = read_body(raw);
    assert!(matches!(&loaded, IdempLoad::Loaded(e) if e.len() == 2));
}

#[test]
fn future_version_header_constants_are_stable() {
    assert_eq!(&IDEMP_MAGIC, b"FBATID");
    assert_eq!(IDEMP_VERSION, 1);
}

#[test]
fn a_file_that_cannot_be_used_says_why() {
    let reason = |raw: Vec<u8>| match read_body(raw) {
        IdempLoad::Invalid { reason } => reason,
        _ => panic!("expected an invalid file"),
    };
    assert_eq!(reason(vec![1, 2, 3]), "file too short: 3 bytes");
    let good = frame_idemp_body(&encode_body(&[entry(7, 7)]));
    let mut magic = good.clone();
    magic[0] = b'G';
    assert_eq!(reason(magic), "wrong magic bytes");
    let mut old = good.clone();
    old[6] = 0;
    assert_eq!(reason(old), "unsupported version: 0");
    let mut body = good.clone();
    body[12] ^= 0xFF;
    assert!(reason(body).starts_with("crc mismatch: stored "));
    assert_eq!(reason(frame_idemp_body(&[1])), "decode failed: torn row");
    assert!(matches!(
        check_idemp_file(IdempRead::Missing),
        Ok(IdempFrame::Missing)
    ));
    assert!(matches!(
        check_idemp_file(IdempRead::Failed("denied".to_owned())),
        Ok(IdempFrame::Invalid { reason }) if reason == "read failed: denied"
    ));
    let mut later = good;
    later[6] = 2;
    assert!(matches!(
        check_idemp_file(IdempRead::Bytes(later)),
        Err(StoreError::IdempotencyFutureVersion { stored: 2, current: 1 })
    ));
}

#[test]
fn the_file_is_magic_version_checksum_body() {
    // The checksum of "123456789" is the published check value of CRC-32.
    let raw = frame_idemp_body(b"123456789");
    assert_eq!(&raw[..6], b"FBATID");
    assert_eq!(&raw[6..8], &[1, 0]);
    assert_eq!(&raw[8..12], &0xCBF4_3926u32.to_le_bytes());
    assert_eq!(&raw[12..], b"123456789");
}

#[test]
fn the_cap_trims_the_oldest_keys_outside_the_window() {
    let mut store = IdempotencyStore::new(
        IdempotencyRetention::Hybrid {
            keep_sequences: 10,
            max_keys: 3,
        },
        OverflowPolicy::Warn,
    );
    for i in 0..5u64 {
        store.record(entry(u128::from(i), i));
    }
    for i in 95..98u64 {
        store.record(entry(u128::from(i), i));
    }
    let report = store.evict(100);
    assert_eq!(report.remaining, 3);
    assert!((95..98u128).all(|i| store.get(i).is_some()));
    assert!((0..5u128).all(|i| store.get(i).is_none()));
}
