//! The store index: restore, visibility and queries.

use batpak::coordinate::{Coordinate, KindFilter, Region};
use batpak::error::StoreError;
use batpak::event::{EventId, EventKind, HashChain};
use batpak::index::entry::{ClockKey, DiskPos, IndexEntry, InternId, QueryHit};
use batpak::index::gate::CancelledVisibilityRanges;
use batpak::index::groups::ProjectionTypeId;
use batpak::index::restore::RoutingSummary;
use batpak::index::scan::{IndexConfig, IndexTopology};
use batpak::index::store::StoreIndex;
use std::collections::BTreeMap;

fn make_entry(seq: u64, entity: &str, scope: &str) -> IndexEntry {
    let coord = Coordinate::new(entity, scope).expect("coord");
    IndexEntry {
        event_id: seq as u128 + 1,
        correlation_id: seq as u128 + 1,
        causation_id: None,
        entity_id: InternId::sentinel(),
        scope_id: InternId::sentinel(),
        coord,
        kind: EventKind::custom(0xF, 1),
        wall_ms: seq,
        clock: u32::try_from(seq).expect("small seq"),
        dag_lane: 0,
        dag_depth: 0,
        hash_chain: HashChain::default(),
        disk_pos: DiskPos {
            segment_id: 0,
            offset: seq * 16,
            length: 16,
        },
        global_sequence: seq,
        receipt_extensions: BTreeMap::new(),
    }
}

#[test]
fn hlc_for_global_sequence_matches_the_queried_sequence_exactly() {
    // `make_entry` sets `wall_ms == seq`, so a match of another entry shows.
    let mut index = StoreIndex::new();
    let entity_id = index.interner.intern("entity:hlc").expect("intern");
    let scope_id = index.interner.intern("scope:hlc").expect("intern");
    for seq in 0..3 {
        let mut entry = make_entry(seq, "entity:hlc", "scope:hlc");
        entry.entity_id = entity_id;
        entry.scope_id = scope_id;
        index.insert(entry);
    }

    let point = index
        .hlc_for_global_sequence(2)
        .expect("global_sequence 2 must resolve to an HlcPoint");
    let mut failures: Vec<String> = Vec::new();
    if point.global_sequence != 2 {
        failures.push(format!(
            "returned HlcPoint must name the queried sequence 2, got {}",
            point.global_sequence
        ));
    }
    if point.wall_ms != 2 {
        failures.push(format!(
            "HLC must come from the entry whose global_sequence == 2 (wall_ms==seq); an \
             inverted `!=` match returns a different entry's wall_ms, got {}",
            point.wall_ms
        ));
    }
    assert!(
        failures.is_empty(),
        "hlc_for_global_sequence mismatches: {failures:?}"
    );
}

#[test]
fn mod_clock_key_orders_by_wall_then_clock_then_uuid() {
    let mut keys = [
        ClockKey {
            wall_ms: 10,
            clock: 3,
            uuid: 9,
        },
        ClockKey {
            wall_ms: 9,
            clock: 99,
            uuid: 1,
        },
        ClockKey {
            wall_ms: 10,
            clock: 2,
            uuid: 99,
        },
        ClockKey {
            wall_ms: 10,
            clock: 3,
            uuid: 4,
        },
    ];

    keys.sort();

    assert_eq!(
        keys,
            [
                ClockKey {
                    wall_ms: 9,
                    clock: 99,
                    uuid: 1,
                },
                ClockKey {
                    wall_ms: 10,
                    clock: 2,
                    uuid: 99,
                },
                ClockKey {
                    wall_ms: 10,
                    clock: 3,
                    uuid: 4,
                },
                ClockKey {
                    wall_ms: 10,
                    clock: 3,
                    uuid: 9,
                },
            ],
            "PROPERTY: ClockKey ordering must be wall_ms first, then clock, then uuid as the deterministic tiebreaker"
        );
}

#[test]
fn tests_clock_key_orders_by_wall_then_clock_then_uuid() {
    let mut keys = [
        ClockKey {
            wall_ms: 10,
            clock: 3,
            uuid: 9,
        },
        ClockKey {
            wall_ms: 9,
            clock: 99,
            uuid: 1,
        },
        ClockKey {
            wall_ms: 10,
            clock: 2,
            uuid: 99,
        },
        ClockKey {
            wall_ms: 10,
            clock: 3,
            uuid: 4,
        },
    ];

    keys.sort();

    assert_eq!(
        keys,
            [
                ClockKey {
                    wall_ms: 9,
                    clock: 99,
                    uuid: 1,
                },
                ClockKey {
                    wall_ms: 10,
                    clock: 2,
                    uuid: 99,
                },
                ClockKey {
                    wall_ms: 10,
                    clock: 3,
                    uuid: 4,
                },
                ClockKey {
                    wall_ms: 10,
                    clock: 3,
                    uuid: 9,
                },
            ],
            "PROPERTY: ClockKey ordering must be wall_ms first, then clock, then uuid as the deterministic tiebreaker"
        );
}

#[test]
fn mod_bulk_restore_keeps_entries_invisible_until_publish() {
    let mut index = StoreIndex::new();
    let entity_id = index.interner.intern("entity:bulk").expect("intern");
    let scope_id = index.interner.intern("scope:bulk").expect("intern");
    let entries = (0..3)
        .map(|seq| {
            let mut entry = make_entry(seq, "entity:bulk", "scope:bulk");
            entry.entity_id = entity_id;
            entry.scope_id = scope_id;
            entry
        })
        .collect();

    index
        .restore_sorted_entries_with_before_publish(entries, 3, |index| {
            assert_eq!(
                index.visible_sequence(),
                0,
                "visibility watermark must not advance until every view is rebuilt"
            );
            assert!(
                index.query(&Region::all()).is_empty(),
                "PROPERTY: reads must observe neither base maps nor overlays before publish"
            );
        })
        .expect("bulk restore publish must succeed");

    assert_eq!(index.query(&Region::all()).len(), 3);
    assert_eq!(index.visible_sequence(), 3);
}

#[test]
fn tests_bulk_restore_keeps_entries_invisible_until_publish() {
    let mut index = StoreIndex::new();
    let entity_id = index.interner.intern("entity:bulk").expect("intern");
    let scope_id = index.interner.intern("scope:bulk").expect("intern");
    let entries = (0..3)
        .map(|seq| {
            let mut entry = make_entry(seq, "entity:bulk", "scope:bulk");
            entry.entity_id = entity_id;
            entry.scope_id = scope_id;
            entry
        })
        .collect();

    index
        .restore_sorted_entries_with_before_publish(entries, 3, |index| {
            assert_eq!(
                index.visible_sequence(),
                0,
                "visibility watermark must not advance until every view is rebuilt"
            );
            assert!(
                index.query(&Region::all()).is_empty(),
                "PROPERTY: reads must observe neither base maps nor overlays before publish"
            );
        })
        .expect("bulk restore publish must succeed");

    assert_eq!(index.query(&Region::all()).len(), 3);
    assert_eq!(index.visible_sequence(), 3);
}

#[test]
fn mod_upgrade_with_visibility_snapshot_rejects_cancelled_ranges() {
    let mut index = StoreIndex::new();
    let entity_id = index.interner.intern("entity:visibility").expect("intern");
    let scope_id = index.interner.intern("scope:visibility").expect("intern");
    for seq in 0..3 {
        let mut entry = make_entry(seq, "entity:visibility", "scope:visibility");
        entry.entity_id = entity_id;
        entry.scope_id = scope_id;
        index.insert(entry);
    }
    index
        .publish(3, "test-publish")
        .expect("publish test entries");
    index.restore_cancelled_visibility_ranges(&CancelledVisibilityRanges {
        global: vec![(1, 2)],
        lanes: BTreeMap::new(),
    });

    let hidden = QueryHit {
        event_id: 2,
        global_sequence: 1,
        disk_pos: DiskPos::new(0, 16, 16),
        kind: EventKind::custom(0xF, 1),
        clock: 1,
        dag_lane: 0,
    };
    let (hits, visibility) = index.query_hits_with_snapshot(&Region::all());

    assert_eq!(
        hits.iter()
                .map(|hit| hit.global_sequence)
                .collect::<Vec<_>>(),
        vec![0, 2],
            "PROPERTY: query-hit collection must skip cancelled hidden ranges below the visible watermark"
        );
    assert!(
        index
                .upgrade_hit_with_visibility(hidden, &visibility)
                .is_none(),
            "PROPERTY: hit upgrade must use the same hidden-range visibility predicate as query collection"
        );
}

#[test]
fn tests_upgrade_with_visibility_snapshot_rejects_cancelled_ranges() {
    let mut index = StoreIndex::new();
    let entity_id = index.interner.intern("entity:visibility").expect("intern");
    let scope_id = index.interner.intern("scope:visibility").expect("intern");
    for seq in 0..3 {
        let mut entry = make_entry(seq, "entity:visibility", "scope:visibility");
        entry.entity_id = entity_id;
        entry.scope_id = scope_id;
        index.insert(entry);
    }
    index
        .publish(3, "test-publish")
        .expect("publish test entries");
    index.restore_cancelled_visibility_ranges(&CancelledVisibilityRanges {
        global: vec![(1, 2)],
        lanes: BTreeMap::new(),
    });

    let hidden = QueryHit {
        event_id: 2,
        global_sequence: 1,
        disk_pos: DiskPos::new(0, 16, 16),
        kind: EventKind::custom(0xF, 1),
        clock: 1,
        dag_lane: 0,
    };
    let (hits, visibility) = index.query_hits_with_snapshot(&Region::all());

    assert_eq!(
        hits.iter()
                .map(|hit| hit.global_sequence)
                .collect::<Vec<_>>(),
        vec![0, 2],
            "PROPERTY: query-hit collection must skip cancelled hidden ranges below the visible watermark"
        );
    assert!(
        index
                .upgrade_hit_with_visibility(hidden, &visibility)
                .is_none(),
            "PROPERTY: hit upgrade must use the same hidden-range visibility predicate as query collection"
        );
}

#[test]
fn cancel_visibility_fence_only_records_lanes_inside_half_open_range() {
    // Entries straddle both ends of the half-open fence range [2, 4) on
    // distinct lanes.
    let mut index = StoreIndex::new();
    let entity_id = index.interner.intern("entity:fence").expect("intern");
    let scope_id = index.interner.intern("scope:fence").expect("intern");
    for (seq, lane) in [(2u64, 10u32), (3, 11), (4, 12), (5, 13)] {
        let mut entry = make_entry(seq, "entity:fence", "scope:fence");
        entry.entity_id = entity_id;
        entry.scope_id = scope_id;
        entry.dag_lane = lane;
        index.insert(entry);
    }

    let token = index
        .begin_visibility_fence()
        .expect("begin visibility fence");
    index
        .note_visibility_fence_progress(token, 2, 4)
        .expect("note fence range [2, 4)");
    index
        .cancel_visibility_fence(token)
        .expect("cancel visibility fence");

    let cancelled = index.cancelled_visibility_ranges();
    let recorded_lanes: Vec<u32> = cancelled.lanes.keys().copied().collect();
    assert_eq!(
            recorded_lanes,
        vec![10, 11],
            "PROPERTY: cancel must record only lanes whose entry sequence lies in the half-open fence range [start, end)"
        );
    assert_eq!(
        cancelled.lanes.get(&10).map(Vec::as_slice),
        Some([(2, 3)].as_slice()),
        "lane 10 entry at the inclusive lower bound must be cancelled"
    );
    assert_eq!(
        cancelled.lanes.get(&11).map(Vec::as_slice),
        Some([(3, 4)].as_slice()),
        "lane 11 interior entry must be cancelled"
    );
    assert!(
        !cancelled.lanes.contains_key(&12),
        "entry at == end must NOT be cancelled (half-open upper bound)"
    );
    assert!(
        !cancelled.lanes.contains_key(&13),
        "entry beyond end must NOT be cancelled"
    );
}

#[test]
fn query_any_hits_after_excludes_wrong_lane_or_hidden_entries() {
    // seq 0 is on the lane but hidden, seq 1 is on another lane, seq 2 is on
    // the lane and visible.
    let mut index = StoreIndex::new();
    let entity_id = index.interner.intern("entity:lane").expect("intern");
    let scope_id = index.interner.intern("scope:lane").expect("intern");
    for (seq, lane) in [(0u64, 7u32), (1, 9), (2, 7)] {
        let mut entry = make_entry(seq, "entity:lane", "scope:lane");
        entry.entity_id = entity_id;
        entry.scope_id = scope_id;
        entry.dag_lane = lane;
        index.insert(entry);
    }
    // Make seq < 3 visible on both lanes 7 and 9.
    index
        .publish_on_lanes(3, &[(7, 3), (9, 3)], "test-lane-publish")
        .expect("publish lanes 7 and 9");
    // Hide seq 0 on lane 7 so it is on the right lane yet not visible.
    index.restore_cancelled_visibility_ranges(&CancelledVisibilityRanges {
        global: Vec::new(),
        lanes: BTreeMap::from([(7u32, vec![(0u64, 1u64)])]),
    });

    let region = Region::all()
        .with_fact(KindFilter::Any)
        .with_lane(7);
    let hits = index.query_hits_after(&region, 0, false, 100);
    let seqs: Vec<u64> = hits.iter().map(|h| h.global_sequence).collect();

    assert_eq!(
            seqs,
        vec![2],
            "PROPERTY: a lane-scoped Any query must drop both wrong-lane and hidden-on-lane entries, keeping only the visible same-lane entry"
        );
}

#[test]
fn projection_replay_plan_preserves_scan_watermark_when_tail_candidate_is_hidden() {
    let mut index = StoreIndex::with_config(&IndexConfig {
        topology: IndexTopology::entity_local(),
        ..IndexConfig::default()
    });
    let entity_id = index
        .interner
        .intern("entity:projection-hidden-tail")
        .expect("intern");
    let scope_id = index
        .interner
        .intern("scope:projection-hidden-tail")
        .expect("intern");
    for seq in 0..2 {
        let mut entry = make_entry(
            seq,
            "entity:projection-hidden-tail",
            "scope:projection-hidden-tail",
        );
        entry.entity_id = entity_id;
        entry.scope_id = scope_id;
        index.insert(entry);
    }
    index
        .publish_on_lanes(1, &[(0, 1)], "test-projection-plan")
        .expect("publish only the first lane-0 candidate");

    let plan = index
        .projection_replay_plan(
            "entity:projection-hidden-tail",
            &[EventKind::custom(0xF, 1)],
        )
        .expect("projection plan exists even when its tail candidate is hidden");

    assert_eq!(
        plan.watermark, 1,
            "PROPERTY: projection plan watermark must remain at the scan candidate watermark, not the last currently-visible item"
        );
    assert_eq!(
        plan.items
                .iter()
                .map(|item| item.global_sequence)
                .collect::<Vec<_>>(),
        vec![0],
            "PROPERTY: only visible candidates are replayed, while the watermark still records the scan high-water mark"
        );
}

fn filled(lanes: &[(u64, u32, &str)]) -> StoreIndex {
    let mut index = StoreIndex::new();
    for (seq, lane, entity) in lanes {
        let mut entry = make_entry(*seq, entity, "scope:filled");
        entry.entity_id = index.interner.intern(entity).expect("intern");
        entry.scope_id = index.interner.intern("scope:filled").expect("intern");
        entry.dag_lane = *lane;
        index.insert(entry);
    }
    index
}

#[test]
fn a_page_is_the_front_of_what_follows() {
    let mut index = filled(&[(0, 0, "a"), (1, 0, "b"), (2, 0, "a"), (3, 0, "a")]);
    index.publish(4, "publish").expect("publish");
    let region = Region::entity("a");
    let page = |after: u64, started: bool, limit: usize| -> Vec<u64> {
        index
            .query_hits_after(&region, after, started, limit)
            .iter()
            .map(|hit| hit.global_sequence)
            .collect()
    };
    assert_eq!(page(0, false, 2), vec![0, 2]);
    assert_eq!(page(0, true, 2), vec![2, 3]);
    assert_eq!(page(2, true, 9), vec![3]);
    assert_eq!(page(3, true, 9), Vec::<u64>::new());
}

#[test]
fn a_query_finds_exactly_what_the_region_asks_for() {
    let mut index = filled(&[(0, 0, "a"), (1, 0, "b"), (2, 0, "a"), (3, 0, "a")]);
    index.publish(3, "publish").expect("publish");
    let sequences = |region: &Region| -> Vec<u64> {
        index
            .query(region)
            .iter()
            .map(|entry| entry.global_sequence)
            .collect()
    };
    assert_eq!(sequences(&Region::all()), vec![0, 1, 2]);
    assert_eq!(sequences(&Region::entity("b")), vec![1]);
    assert_eq!(sequences(&Region::scope("scope:filled")), vec![0, 1, 2]);
    assert_eq!(
        sequences(&Region::all().with_fact(KindFilter::Exact(EventKind::custom(0xF, 2)))),
        Vec::<u64>::new()
    );
    assert_eq!(index.stream("a").len(), 2);
    assert!(index.get_latest("a").is_none(), "the chain head is not visible");
    assert_eq!(
        index.get_latest("b").map(|entry| entry.global_sequence),
        Some(1)
    );
    assert!(index.get_by_id(4).is_none());
    assert!(index.get_by_id(3).is_some());
}

#[test]
fn a_cancelled_fence_stays_hidden_after_a_later_publish() {
    let mut index = filled(&[(0, 0, "a"), (1, 0, "a"), (2, 0, "a")]);
    let token = index.begin_visibility_fence().expect("fence");
    assert_eq!(index.active_visibility_fence(), Some(token));
    assert!(matches!(
        index.begin_visibility_fence(),
        Err(StoreError::VisibilityFenceActive)
    ));
    index
        .note_visibility_fence_progress(token, 1, 2)
        .expect("progress");
    index.cancel_visibility_fence(token).expect("cancel");
    index.publish(3, "publish").expect("publish");
    let seen: Vec<u64> = index
        .query(&Region::all())
        .iter()
        .map(|entry| entry.global_sequence)
        .collect();
    assert_eq!(seen, vec![0, 2]);
    assert_eq!(index.cancelled_visibility_ranges().global, vec![(1, 2)]);
}

#[test]
fn fresh_contents_replace_what_was_there() {
    let mut index = filled(&[(0, 0, "a"), (1, 0, "b"), (2, 0, "a")]);
    index.publish(3, "publish").expect("publish");
    let mut fresh = StoreIndex::new();
    let entries = [0, 2].map(|seq| make_entry(seq, "a", "scope:filled"));
    fresh
        .restore_sorted_entries(entries.into(), 0)
        .expect("restore");
    index.replace_contents_from_fresh(fresh).expect("replace");
    assert_eq!(index.len(), 2);
    assert!(index.stream("b").is_empty());
    assert_eq!(index.visible_sequence(), 3);
}

#[test]
fn a_batch_is_indexed_like_its_events_one_by_one() {
    let mut batch = StoreIndex::new();
    assert_eq!(batch.reserve_sequences(2), 0);
    assert_eq!(batch.global_sequence(), 2);
    batch.insert_batch((0..2).map(|seq| make_entry(seq, "a", "s")).collect());
    batch.publish(2, "publish").expect("publish");
    assert_eq!(batch.len(), 2);
    assert_eq!(batch.stream("a").len(), 2);
}

#[test]
fn a_restore_by_routing_shows_the_same_index() {
    let entries = || -> Vec<IndexEntry> {
        [(0, "b"), (1, "a"), (4, "b")]
            .iter()
            .map(|(seq, entity)| make_entry(*seq, entity, "s"))
            .collect()
    };
    let mut plain = StoreIndex::new();
    plain.restore_sorted_entries(entries(), 0).expect("restore");
    assert_eq!(plain.visible_sequence(), 5);
    let routing = RoutingSummary::from_sorted_entries(&entries(), 2);
    let mut routed = StoreIndex::new();
    routed
        .restore_sorted_entries_with_routing(entries(), 9, &routing)
        .expect("restore");
    assert_eq!(routed.visible_sequence(), 9);
    for region in [Region::all(), Region::entity("b"), Region::scope("s")] {
        let sequences = |index: &StoreIndex| -> Vec<u64> {
            index.query(&region).iter().map(|e| e.global_sequence).collect()
        };
        assert_eq!(sequences(&plain), sequences(&routed));
    }
}

#[test]
fn hits_are_upgraded_where_they_are_visible() {
    let mut index = filled(&[(0, 7, "a"), (1, 7, "a")]);
    index
        .publish_on_lanes(1, &[(7, 2)], "publish")
        .expect("publish");
    let hit = |seq: u64| QueryHit::from_entry(&make_entry(seq, "a", "scope:filled"));
    assert!(index.upgrade_hit(hit(0)).is_some());
    assert!(index.upgrade_hit(hit(1)).is_none());
    let (_, visibility) = index.query_hits_with_snapshot(&Region::all());
    assert_eq!(visibility.visible_upper_bound(), 1);
    let mut on_lane = hit(1);
    on_lane.dag_lane = 7;
    assert!(index
        .upgrade_hit_visible_on_lane(on_lane, &visibility)
        .is_some());
}

#[test]
fn a_clock_range_narrows_a_region() {
    let mut index = filled(&[(0, 0, "a"), (1, 0, "a"), (2, 0, "a")]);
    index.publish(3, "publish").expect("publish");
    let region = Region::entity("a").with_clock_range(1, 1);
    let clocks: Vec<u32> = index.query(&region).iter().map(|e| e.clock).collect();
    assert_eq!(clocks, vec![1]);
}

#[test]
fn causes_and_correlations_are_told_by_their_ids() {
    let mut entry = make_entry(4, "a", "s");
    assert!(!entry.is_correlated());
    assert!(entry.is_root_cause());
    entry.correlation_id = 99;
    entry.causation_id = Some(7);
    assert!(entry.is_correlated());
    assert!(!entry.is_root_cause());
    assert!(entry.is_caused_by(EventId::from_u128(7)));
    assert!(!entry.is_caused_by(EventId::from_u128(8)));
}

#[test]
fn a_finished_fence_shows_what_it_covered() {
    let mut index = filled(&[(0, 0, "a"), (1, 0, "a"), (2, 0, "a")]);
    index.publish(1, "publish").expect("publish");
    let token = index.begin_visibility_fence().expect("fence");
    index
        .note_visibility_fence_progress(token, 1, 3)
        .expect("progress");
    assert!(matches!(
        index.finish_visibility_fence(token + 1, Some(3)),
        Err(StoreError::VisibilityFenceNotActive)
    ));
    index
        .finish_visibility_fence(token, Some(3))
        .expect("finish");
    assert_eq!(index.active_visibility_fence(), None);
    assert_eq!(index.visible_sequence(), 3);
    let seen: Vec<u64> = index
        .all_entries()
        .iter()
        .map(|entry| entry.global_sequence)
        .collect();
    assert_eq!(seen, vec![0, 1, 2]);
}

#[test]
fn a_name_keeps_its_number() {
    let mut index = StoreIndex::new();
    let first = index.interner.intern("entity:first").expect("intern");
    let second = index.interner.intern("entity:second").expect("intern");
    assert_ne!(first.as_u32(), second.as_u32());
    assert_ne!(first, InternId::sentinel());
    assert_eq!(index.interner.intern("entity:first").expect("intern"), first);
    assert_eq!(InternId::from_u32(first.as_u32()), first);
}

fn grouped_index() -> StoreIndex {
    StoreIndex::with_config(&IndexConfig {
        topology: IndexTopology::entity_local(),
        ..IndexConfig::default()
    })
}

#[test]
fn a_new_index_has_no_chain_head() {
    for index in [StoreIndex::new(), grouped_index()] {
        assert_eq!(index.len(), 0);
        assert!(index.get_latest("entity:a").is_none());
        assert!(index.entity_generation("entity:a").is_none());
    }
}

#[test]
fn the_chain_head_of_an_entity_is_its_own_event() {
    let mut index = StoreIndex::new();
    for (seq, entity) in [(0, "entity:a"), (1, "entity:b"), (2, "entity:a")] {
        index.insert(make_entry(seq, entity, "scope:head"));
    }
    index.publish(3, "test").expect("publish");
    assert_eq!(index.get_latest("entity:a").expect("head").event_id, 3);
    assert_eq!(index.get_latest("entity:b").expect("head").event_id, 2);
    assert!(index.get_latest("entity:c").is_none());
}

#[test]
fn no_cached_projection_outlives_a_restore() {
    let type_id = ProjectionTypeId { id: 7 };
    let mut index = grouped_index();
    index.insert(make_entry(0, "entity:a", "scope:cache"));
    let stored = index.store_cached_projection("entity:a", type_id, vec![1], 0);
    assert!(stored.is_stored());
    assert!(index.cached_projection("entity:a", type_id).is_some());
    index
        .restore_sorted_entries(vec![make_entry(0, "entity:a", "scope:cache")], 0)
        .expect("restore");
    assert_eq!(index.entity_generation("entity:a"), Some(1));
    assert!(index.cached_projection("entity:a", type_id).is_none());
}

#[test]
fn groups_and_streams_give_the_same_plan() {
    let kinds = [EventKind::custom(0xF, 1)];
    let mut grouped = grouped_index();
    let mut streamed = StoreIndex::new();
    for seq in 0..5 {
        let entity = if seq == 3 { "entity:b" } else { "entity:a" };
        for index in [&mut grouped, &mut streamed] {
            let mut entry = make_entry(seq, entity, "scope:plan");
            if seq == 1 {
                entry.kind = EventKind::custom(0xF, 2);
            }
            index.insert(entry);
            index.publish_on_lanes(seq + 1, &[(0, seq + 1)], "test").expect("publish");
        }
    }
    let plan = grouped.projection_replay_plan("entity:a", &kinds).expect("plan");
    let sequences: Vec<u64> = plan.items.iter().map(|item| item.global_sequence).collect();
    assert_eq!(sequences, vec![0, 2, 4]);
    assert_eq!(plan.watermark, 4);
    assert_eq!(plan.generation, 4);
    assert_eq!(streamed.projection_replay_plan("entity:a", &kinds), Some(plan));
    assert_eq!(grouped.projection_replay_plan("entity:c", &kinds), None);
    assert_eq!(streamed.projection_replay_plan("entity:c", &kinds), None);
}

#[test]
fn groups_and_streams_replay_the_same_events_in_any_order() {
    let mut grouped = grouped_index();
    let mut streamed = StoreIndex::new();
    for seq in [2, 0, 1] {
        for index in [&mut grouped, &mut streamed] {
            index.insert(make_entry(seq, "entity:a", "scope:plan"));
        }
    }
    for index in [&mut grouped, &mut streamed] {
        index.publish_on_lanes(3, &[(0, 3)], "test").expect("publish");
    }
    let planned = |index: &StoreIndex| {
        let plan = index.projection_replay_plan("entity:a", &[]).expect("plan");
        plan.items.iter().map(|item| item.global_sequence).collect::<Vec<u64>>()
    };
    assert_eq!(planned(&grouped), vec![2, 0, 1]);
    assert_eq!(planned(&streamed), vec![0, 1, 2]);
}
