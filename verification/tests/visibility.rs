//! The sequence gate: bounds, fences and the change counter.

use batpak::error::StoreError;
use batpak::index::gate::SequenceGate;
use std::collections::BTreeMap;

#[test]
fn publish_on_lanes_preserves_restored_lane_visibility() {
    let mut gate = SequenceGate::new();
    gate.reserve(16);
    gate.restore_lane_visible(BTreeMap::from([(7, 4)]));

    gate.publish_on_lanes(5, &[(1, 3)], "test_publish_on_lanes")
        .expect("PROPERTY: valid publish should advance visibility");

    let lanes = gate.lane_visible_snapshot();
    assert_eq!(
        lanes.get(&7).copied(),
        Some(4),
        "PROPERTY: publishing one lane must not drop lane visibility restored by compaction/bootstrap"
    );
    assert_eq!(
        lanes.get(&1).copied(),
        Some(3),
        "PROPERTY: publishing one lane must install that lane's visibility bound"
    );
}

#[test]
fn restore_lane_visibility_preserves_global_visibility() {
    let mut gate = SequenceGate::new();
    gate.reserve(16);
    gate.publish(6, "test_publish")
        .expect("PROPERTY: valid publish should advance global visibility");

    gate.restore_lane_visible(BTreeMap::from([(2, 5)]));

    assert_eq!(
        gate.visible(),
        6,
        "PROPERTY: restoring lane visibility must not regress or drop global visibility"
    );
    assert_eq!(
        gate.lane_visible_snapshot().get(&2).copied(),
        Some(5),
        "PROPERTY: restoring lane visibility must install the restored lane bound"
    );
}

#[test]
fn a_publish_changes_the_count_that_a_parked_reader_waits_on() {
    let mut gate = SequenceGate::new();
    gate.reserve(8);
    let before = gate.visibility_epoch();
    gate.publish(1, "publish").expect("publish advances visibility");
    assert_ne!(gate.visibility_epoch(), before);
}

#[test]
fn a_publish_outside_its_bounds_is_refused_and_changes_nothing() {
    let mut gate = SequenceGate::new();
    gate.reserve(4);
    gate.publish(3, "publish").expect("publish");
    for up_to in [2u64, 5] {
        let refused = gate.publish(up_to, "publish").expect_err("out of bounds");
        assert!(matches!(
            refused,
            StoreError::SequenceGateViolation { operation: "publish", requested, allocated: 4, visible: 3 }
                if requested == up_to
        ));
        assert_eq!(gate.visible(), 3);
    }
}

#[test]
fn one_fence_at_a_time() {
    let mut gate = SequenceGate::new();
    let token = gate.begin_fence().expect("first fence");
    assert!(matches!(
        gate.begin_fence(),
        Err(StoreError::VisibilityFenceActive)
    ));
    assert_eq!(gate.active_fence_token(), Some(token));
    assert!(matches!(
        gate.note_fence_progress(token + 1, 0, 1),
        Err(StoreError::VisibilityFenceNotActive)
    ));
    gate.note_fence_progress(token, 2, 4).expect("own fence");
    gate.note_fence_progress(token, 1, 3).expect("own fence");
    assert_eq!(gate.active_fence_range(), Some((1, 4)));
}
