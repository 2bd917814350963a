use rollback_core::session::{simulate_frame, InputSet, Session};
use rollback_core::snapshot::{Snapshot, SnapshotEngine};
use rollback_core::store::{ComponentKind, ComponentValue, Store};
use rollback_core::RollbackError;

fn triple(x: i64, y: i64, z: i64) -> ComponentValue {
    ComponentValue::Triple { x, y, z }
}

fn single_input(handle: u64, value: u8) -> InputSet {
    let mut input = InputSet::new();
    input.push(handle, value);
    input
}

/// A root marked for movement, with two transformed children, mirroring a
/// loaded scene: returns (store, root, first child, second child).
fn marked_scene() -> (Store, u64, u64, u64) {
    let mut store = Store::new();
    let a = store.create();
    let b = store.create();
    let c = store.create();
    store.attach(a, ComponentKind::Tag, ComponentValue::Flag(true)).unwrap();
    store.attach(b, ComponentKind::Transform, triple(1, 2, 3)).unwrap();
    store.attach(c, ComponentKind::Transform, triple(7, 8, 9)).unwrap();
    store.set_parent(b, a).unwrap();
    store.set_parent(c, a).unwrap();
    (store, a, b, c)
}

#[test]
fn capture_restore_scenario() {
    let (mut store, a, b, c) = marked_scene();
    let snapshot = Snapshot::capture(&store, 0);
    store.destroy(b).unwrap();
    simulate_frame(&mut store, &single_input(0, 5));
    assert_eq!(store.descendants_of(a), vec![c]);
    snapshot.restore_into(&mut store);
    assert_eq!(store.descendants_of(a), vec![b, c]);
    assert_eq!(store.get(b, ComponentKind::Transform), Some(triple(1, 2, 3)));
    assert_eq!(store.get(c, ComponentKind::Transform), Some(triple(7, 8, 9)));
}

#[test]
fn round_trip_preserves_descendants() {
    let (mut store, a, b, c) = marked_scene();
    let d = store.create();
    store.set_parent(d, b).unwrap();
    let before = store.descendants_of(a);
    let snapshot = Snapshot::capture(&store, 0);
    snapshot.restore_into(&mut store);
    assert_eq!(store.descendants_of(a), before);
    assert_eq!(before, vec![b, d, c]);
}

#[test]
fn restore_keeps_transient_state_of_survivors() {
    let (mut store, a, _b, c) = marked_scene();
    store.attach(c, ComponentKind::Derived, triple(100, 100, 100)).unwrap();
    let snapshot = Snapshot::capture(&store, 0);
    store.set(c, ComponentKind::Transform, triple(0, 0, 0)).unwrap();
    snapshot.restore_into(&mut store);
    // the rollback-tagged transform is restored, the transient value is not
    assert_eq!(store.get(c, ComponentKind::Transform), Some(triple(7, 8, 9)));
    assert_eq!(store.get(c, ComponentKind::Derived), Some(triple(100, 100, 100)));
    assert_eq!(store.get(a, ComponentKind::Derived), None);
}

#[test]
fn recreated_objects_have_no_transient_state() {
    let (mut store, _a, b, _c) = marked_scene();
    store.attach(b, ComponentKind::Derived, triple(50, 50, 50)).unwrap();
    let snapshot = Snapshot::capture(&store, 0);
    store.destroy(b).unwrap();
    snapshot.restore_into(&mut store);
    assert_eq!(store.get(b, ComponentKind::Transform), Some(triple(1, 2, 3)));
    assert_eq!(store.get(b, ComponentKind::Derived), None);
}

#[test]
fn simulation_moves_descendants_by_formula() {
    let (mut store, a, b, c) = marked_scene();
    simulate_frame(&mut store, &single_input(0, 5));
    // descendants of the marked root in depth-first order: b at offset 0, c at 1
    assert_eq!(store.get(b, ComponentKind::Transform), Some(triple(0, 0, 5)));
    assert_eq!(store.get(c, ComponentKind::Transform), Some(triple(5, 0, 5)));
    // the marked root itself holds no transform and does not move
    assert_eq!(store.get(a, ComponentKind::Transform), None);
}

#[test]
fn command_wraps_summed_inputs() {
    let mut input = InputSet::new();
    input.push(0, 200);
    input.push(1, 100);
    input.push(2, 7);
    // 200 + 100 + 7 = 307, wrapped to a byte: 51
    assert_eq!(input.command(), 51);
    assert_eq!(InputSet::new().command(), 0);
}

#[test]
fn simulation_is_deterministic() {
    let (mut first, _a, b, c) = marked_scene();
    let (mut second, _a2, b2, c2) = marked_scene();
    for frame in 0..10u8 {
        simulate_frame(&mut first, &single_input(0, frame));
        simulate_frame(&mut second, &single_input(0, frame));
    }
    assert_eq!(
        first.get(b, ComponentKind::Transform),
        second.get(b2, ComponentKind::Transform)
    );
    assert_eq!(
        first.get(c, ComponentKind::Transform),
        second.get(c2, ComponentKind::Transform)
    );
}

#[test]
fn rollback_replay_equals_direct_run() {
    let inputs: Vec<u8> = vec![3, 1, 4, 1, 5, 9, 2, 6, 5, 3];

    // straight run of frames 0..10
    let (mut direct, _a, b, c) = marked_scene();
    for &v in &inputs {
        simulate_frame(&mut direct, &single_input(0, v));
    }

    // frames 0..5, capture, restore, replay 6..10
    let (mut replayed, _a2, b2, c2) = marked_scene();
    for &v in &inputs[..5] {
        simulate_frame(&mut replayed, &single_input(0, v));
    }
    let snapshot = Snapshot::capture(&replayed, 5);
    snapshot.restore_into(&mut replayed);
    for &v in &inputs[5..] {
        simulate_frame(&mut replayed, &single_input(0, v));
    }

    assert_eq!(
        direct.get(b, ComponentKind::Transform),
        replayed.get(b2, ComponentKind::Transform)
    );
    assert_eq!(
        direct.get(c, ComponentKind::Transform),
        replayed.get(c2, ComponentKind::Transform)
    );
}

#[test]
fn failed_restore_changes_nothing() {
    let (store, a, b, _c) = marked_scene();
    let mut engine = SnapshotEngine::new(4);
    let mut store = store;
    engine.record(Snapshot::capture(&store, 0));
    store.set(b, ComponentKind::Transform, triple(11, 12, 13)).unwrap();
    let before_b = store.get(b, ComponentKind::Transform);
    let before_children = store.children_of(a);
    // frame 7 was never captured: the restore fails and nothing changes
    assert_eq!(
        engine.rollback_to(7, &mut store),
        Err(RollbackError::SnapshotNotFound)
    );
    assert_eq!(store.get(b, ComponentKind::Transform), before_b);
    assert_eq!(store.children_of(a), before_children);
    // the retained snapshot is still usable afterwards
    assert_eq!(engine.rollback_to(0, &mut store), Ok(()));
    assert_eq!(store.get(b, ComponentKind::Transform), Some(triple(1, 2, 3)));
}

#[test]
fn session_rollback_matches_corrected_run() {
    let predicted: Vec<u8> = vec![3, 1, 4, 1, 5, 9, 2, 6];
    let mut corrected = predicted.clone();
    corrected[3] = 200;

    // one session advances on predictions, then receives the correction
    let (store, _a, b, c) = marked_scene();
    let mut session = Session::new(store, 16);
    for &v in &predicted {
        session.advance(single_input(0, v));
    }
    assert_eq!(session.handle_confirmed(3, single_input(0, 200)), Ok(true));

    // another session knew the corrected inputs all along
    let (reference, _a2, b2, c2) = marked_scene();
    let mut reference_session = Session::new(reference, 16);
    for &v in &corrected {
        reference_session.advance(single_input(0, v));
    }

    assert_eq!(
        session.store.get(b, ComponentKind::Transform),
        reference_session.store.get(b2, ComponentKind::Transform)
    );
    assert_eq!(
        session.store.get(c, ComponentKind::Transform),
        reference_session.store.get(c2, ComponentKind::Transform)
    );
}

#[test]
fn confirming_the_used_input_does_nothing() {
    let (store, _a, b, _c) = marked_scene();
    let mut session = Session::new(store, 8);
    session.advance(single_input(0, 4));
    let before = session.store.get(b, ComponentKind::Transform);
    assert_eq!(session.handle_confirmed(0, single_input(0, 4)), Ok(false));
    assert_eq!(session.store.get(b, ComponentKind::Transform), before);
    // a frame beyond the frontier has used no input yet
    assert_eq!(session.handle_confirmed(5, single_input(0, 9)), Ok(false));
}

#[test]
fn deep_chain_descendants_survive_round_trip() {
    let mut store = Store::new();
    let mut ids: Vec<u64> = Vec::new();
    for _ in 0..6 {
        ids.push(store.create());
    }
    for w in ids.windows(2) {
        store.set_parent(w[1], w[0]).unwrap();
    }
    let expected: Vec<u64> = ids[1..].to_vec();
    assert_eq!(store.descendants_of(ids[0]), expected);
    let snapshot = Snapshot::capture(&store, 0);
    store.destroy(ids[3]).unwrap();
    assert_eq!(store.descendants_of(ids[0]), ids[1..3].to_vec());
    snapshot.restore_into(&mut store);
    assert_eq!(store.descendants_of(ids[0]), expected);
}

#[test]
fn session_continues_after_rollback() {
    let (store, _a, b, _c) = marked_scene();
    let mut session = Session::new(store, 16);
    for v in [1u8, 2, 3] {
        session.advance(single_input(0, v));
    }
    assert_eq!(session.handle_confirmed(1, single_input(0, 7)), Ok(true));
    session.advance(single_input(0, 4));

    let (reference, _a2, b2, _c2) = marked_scene();
    let mut reference_session = Session::new(reference, 16);
    for v in [1u8, 7, 3, 4] {
        reference_session.advance(single_input(0, v));
    }
    assert_eq!(
        session.store.get(b, ComponentKind::Transform),
        reference_session.store.get(b2, ComponentKind::Transform)
    );
}

#[test]
fn rollback_behind_retention_window_fails() {
    let (store, _a, _b, _c) = marked_scene();
    // a window of one snapshot: recording frame 1 evicts frame 0
    let mut session = Session::new(store, 1);
    session.advance(single_input(0, 3));
    assert_eq!(
        session.handle_confirmed(0, single_input(0, 9)),
        Err(RollbackError::SnapshotNotFound)
    );
}
