use rollback_core::store::{ComponentKind, ComponentValue, Store};
use rollback_core::RollbackError;

fn triple(x: i64, y: i64, z: i64) -> ComponentValue {
    ComponentValue::Triple { x, y, z }
}

#[test]
fn create_assigns_fresh_ids() {
    let mut store = Store::new();
    let a = store.create();
    let b = store.create();
    let c = store.create();
    assert_ne!(a, b);
    assert_ne!(b, c);
    assert!(store.contains(a));
    assert!(store.contains(b));
    assert!(store.contains(c));
    assert_eq!(store.object_count(), 3);
}

#[test]
fn attach_get_set_roundtrip() {
    let mut store = Store::new();
    let a = store.create();
    assert_eq!(store.get(a, ComponentKind::Transform), None);
    store.attach(a, ComponentKind::Transform, triple(1, 2, 3)).unwrap();
    assert_eq!(store.get(a, ComponentKind::Transform), Some(triple(1, 2, 3)));
    store.set(a, ComponentKind::Transform, triple(4, 5, 6)).unwrap();
    assert_eq!(store.get(a, ComponentKind::Transform), Some(triple(4, 5, 6)));
}

#[test]
fn set_fails_on_absent_component() {
    let mut store = Store::new();
    let a = store.create();
    assert_eq!(
        store.set(a, ComponentKind::Transform, triple(0, 0, 0)),
        Err(RollbackError::ComponentAbsent)
    );
    assert_eq!(store.get(a, ComponentKind::Transform), None);
}

#[test]
fn unknown_object_errors() {
    let mut store = Store::new();
    let a = store.create();
    let ghost_id = a + 100;
    assert_eq!(store.destroy(ghost_id), Err(RollbackError::UnknownObject));
    assert_eq!(
        store.attach(ghost_id, ComponentKind::Tag, ComponentValue::Flag(true)),
        Err(RollbackError::UnknownObject)
    );
    assert_eq!(
        store.set(ghost_id, ComponentKind::Tag, ComponentValue::Flag(true)),
        Err(RollbackError::UnknownObject)
    );
    assert_eq!(store.set_parent(a, ghost_id), Err(RollbackError::UnknownObject));
    assert_eq!(store.set_parent(ghost_id, a), Err(RollbackError::UnknownObject));
    assert_eq!(store.clear_parent(ghost_id), Err(RollbackError::UnknownObject));
}

#[test]
fn children_keep_insertion_order() {
    let mut store = Store::new();
    let a = store.create();
    let b = store.create();
    let c = store.create();
    let d = store.create();
    store.set_parent(c, a).unwrap();
    store.set_parent(b, a).unwrap();
    store.set_parent(d, a).unwrap();
    assert_eq!(store.children_of(a), vec![c, b, d]);
    assert_eq!(store.children_of(b), Vec::<u64>::new());
}

#[test]
fn descendants_are_depth_first() {
    let mut store = Store::new();
    let a = store.create();
    let b = store.create();
    let c = store.create();
    let d = store.create();
    let e = store.create();
    store.set_parent(b, a).unwrap();
    store.set_parent(c, a).unwrap();
    store.set_parent(d, b).unwrap();
    store.set_parent(e, b).unwrap();
    assert_eq!(store.descendants_of(a), vec![b, d, e, c]);
    assert_eq!(store.descendants_of(b), vec![d, e]);
    assert_eq!(store.descendants_of(e), Vec::<u64>::new());
}

#[test]
fn reparenting_overwrites_prior_parent() {
    let mut store = Store::new();
    let a = store.create();
    let b = store.create();
    let c = store.create();
    store.set_parent(c, a).unwrap();
    assert_eq!(store.parent_of(c), Some(a));
    store.set_parent(c, b).unwrap();
    assert_eq!(store.parent_of(c), Some(b));
    assert_eq!(store.children_of(a), Vec::<u64>::new());
    assert_eq!(store.children_of(b), vec![c]);
    store.clear_parent(c).unwrap();
    assert_eq!(store.parent_of(c), None);
    assert_eq!(store.children_of(b), Vec::<u64>::new());
}

#[test]
fn cycles_are_rejected() {
    let mut store = Store::new();
    let a = store.create();
    let b = store.create();
    let c = store.create();
    store.set_parent(b, a).unwrap();
    store.set_parent(c, b).unwrap();
    assert_eq!(store.set_parent(a, a), Err(RollbackError::CycleDetected));
    assert_eq!(store.set_parent(a, c), Err(RollbackError::CycleDetected));
    assert_eq!(store.set_parent(a, b), Err(RollbackError::CycleDetected));
    assert_eq!(store.parent_of(a), None);
    assert_eq!(store.descendants_of(a), vec![b, c]);
}

#[test]
fn destroy_leaves_no_orphans() {
    let mut store = Store::new();
    let a = store.create();
    let b = store.create();
    let c = store.create();
    let d = store.create();
    store.set_parent(b, a).unwrap();
    store.set_parent(c, b).unwrap();
    store.set_parent(d, a).unwrap();
    store.destroy(b).unwrap();
    assert!(!store.contains(b));
    assert!(!store.children_of(a).contains(&b));
    assert_eq!(store.children_of(a), vec![d]);
    assert_eq!(store.parent_of(c), None);
    assert_eq!(store.parent_of(b), None);
    for id in [a, c, d] {
        assert_ne!(store.parent_of(id), Some(b));
    }
}
