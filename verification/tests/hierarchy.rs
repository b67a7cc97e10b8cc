use chip_game::hierarchy::{Hierarchy, ParentError};
use chip_game::ids::ObjectId;

#[test]
fn children_are_listed_newest_first_then_depth() {
    let mut h = Hierarchy::default();
    assert_eq!(h.get_children(ObjectId(1)), None);
    assert_eq!(h.set_parent(ObjectId(2), ObjectId(1)), Ok(()));
    assert_eq!(h.set_parent(ObjectId(3), ObjectId(1)), Ok(()));
    assert_eq!(h.set_parent(ObjectId(4), ObjectId(2)), Ok(()));
    assert_eq!(
        h.get_children(ObjectId(1)),
        Some(vec![ObjectId(3), ObjectId(2), ObjectId(4)])
    );
    assert_eq!(h.get_children(ObjectId(4)), Some(vec![]));
}

#[test]
fn repeated_and_reversed_links_are_refused() {
    let mut h = Hierarchy::new();
    assert_eq!(h.set_parent(ObjectId(5), ObjectId(6)), Ok(()));
    assert_eq!(h.set_parent(ObjectId(5), ObjectId(6)), Err(ParentError::AlreadyParented));
    assert_eq!(h.set_parent(ObjectId(6), ObjectId(5)), Err(ParentError::ChildToParent));
    assert_eq!(h.get_children(ObjectId(6)), Some(vec![ObjectId(5)]));
}

#[test]
fn removing_below_keeps_the_object() {
    let mut h = Hierarchy::new();
    h.set_parent(ObjectId(2), ObjectId(1)).unwrap();
    h.set_parent(ObjectId(3), ObjectId(2)).unwrap();
    h.set_parent(ObjectId(9), ObjectId(8)).unwrap();
    assert_eq!(h.remove_recursively(ObjectId(7)), None);
    assert_eq!(
        h.remove_recursively(ObjectId(1)),
        Some(vec![ObjectId(2), ObjectId(3)])
    );
    assert_eq!(h.get_children(ObjectId(1)), Some(vec![]));
    assert_eq!(h.get_children(ObjectId(2)), None);
    assert_eq!(h.get_children(ObjectId(8)), Some(vec![ObjectId(9)]));
    // A removed object can come back as a fresh one.
    assert_eq!(h.set_parent(ObjectId(2), ObjectId(1)), Ok(()));
    assert_eq!(h.get_children(ObjectId(1)), Some(vec![ObjectId(2)]));
}

#[test]
fn children_stay_newest_first_when_edge_slots_are_reused() {
    let mut h = Hierarchy::new();
    h.set_parent(ObjectId(2), ObjectId(1)).unwrap();
    h.set_parent(ObjectId(3), ObjectId(9)).unwrap();
    assert_eq!(h.remove_recursively(ObjectId(9)), Some(vec![ObjectId(3)]));
    h.set_parent(ObjectId(4), ObjectId(1)).unwrap();
    assert_eq!(h.get_children(ObjectId(1)), Some(vec![ObjectId(4), ObjectId(2)]));
}
