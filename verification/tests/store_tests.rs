use storestest::records::Leaf;
use storestest::records::Mid;
use storestest::records::Root;
use storestest::store::Path;
use storestest::store::Store;

fn sample_store() -> Store {
    // two middle records: 10 with children [100, 101], 20 with child [200]
    let m1 = Mid::new(10, vec![Leaf::new(100), Leaf::new(101)]);
    let m2 = Mid::new(20, vec![Leaf::new(200)]);
    Store::new(Root::new(vec![m1, m2]))
}

#[test]
fn read_returns_current_values() {
    let mut s = sample_store();
    let items = s.read_items(1);
    assert_eq!(items.len(), 2);
    assert_eq!(items[0].id, 10);
    assert_eq!(items[1].id, 20);
    let m = s.read_mid(10, 2);
    assert_eq!(m.id, 10);
    assert_eq!(m.children.len(), 2);
    let c = s.read_children(10, 3);
    assert_eq!(c.len(), 2);
    assert_eq!(c[0].id, 100);
    assert_eq!(c[1].id, 101);
    let l = s.read_leaf(20, 200, 4);
    assert_eq!(l.id, 200);
}

#[test]
fn read_twice_is_idempotent() {
    let mut s = sample_store();
    let a = s.read_children(10, 7);
    let subs_after_first = s.subs.len();
    let b = s.read_children(10, 7);
    // equal values, and no duplicate subscription
    assert_eq!(a.len(), b.len());
    for i in 0..a.len() {
        assert_eq!(a[i].id, b[i].id);
    }
    assert_eq!(s.subs.len(), subs_after_first);
}

#[test]
fn distinct_scopes_subscribe_separately() {
    let mut s = sample_store();
    s.read_children(10, 1);
    s.read_children(10, 2);
    assert_eq!(s.subs.len(), 2);
}

#[test]
fn resolves_judges_paths() {
    let s = sample_store();
    assert!(s.resolves(Path::Root));
    assert!(s.resolves(Path::Mid { mid: 10 }));
    assert!(s.resolves(Path::Children { mid: 20 }));
    assert!(s.resolves(Path::Leaf { mid: 10, leaf: 101 }));
    assert!(!s.resolves(Path::Mid { mid: 30 }));
    assert!(!s.resolves(Path::Leaf { mid: 10, leaf: 200 }));
    assert!(!s.resolves(Path::Leaf { mid: 30, leaf: 100 }));
}

#[test]
fn push_leaf_notifies_own_subtree_and_root_only() {
    let mut s = sample_store();
    s.read_items(1); // scope 1 observes the root field
    s.read_mid(10, 2); // scope 2 observes record 10
    s.read_children(10, 3); // scope 3 observes record 10's children
    s.read_leaf(10, 100, 4); // scope 4 observes one child of record 10
    s.read_children(20, 5); // scope 5 observes the sibling's children
    let notified = s.write_push_leaf(10, Leaf::new(102));
    assert!(notified.contains(&1));
    assert!(notified.contains(&2));
    assert!(notified.contains(&3));
    // a write to the children field does not notify descendant fields,
    // and never a sibling subtree
    assert!(!notified.contains(&4));
    assert!(!notified.contains(&5));
    // the write landed, in order
    assert_eq!(s.root.items[0].children.len(), 3);
    assert_eq!(s.root.items[0].children[2].id, 102);
    assert_eq!(s.root.items[1].children.len(), 1);
}

#[test]
fn push_mid_notifies_root_subscribers_only() {
    let mut s = sample_store();
    s.read_items(1);
    s.read_mid(10, 2);
    s.read_children(20, 3);
    let notified = s.write_push_mid(Mid::new(30, vec![Leaf::new(300)]));
    assert!(notified.contains(&1));
    assert!(!notified.contains(&2));
    assert!(!notified.contains(&3));
    assert_eq!(s.root.items.len(), 3);
    assert_eq!(s.root.items[2].id, 30);
}

#[test]
fn unsubscribe_releases_one_scope() {
    let mut s = sample_store();
    s.read_items(1);
    s.read_children(10, 2);
    s.read_children(20, 2);
    s.unsubscribe_scope(2);
    assert_eq!(s.subs.len(), 1);
    let notified = s.write_push_leaf(10, Leaf::new(103));
    assert!(notified.contains(&1));
    assert!(!notified.contains(&2));
}

#[test]
fn try_push_rejects_taken_identifiers() {
    let mut s = sample_store();
    // a middle record whose identifier is already taken is refused
    assert!(s.try_push_mid(Mid::new(10, vec![Leaf::new(999)])).is_none());
    assert_eq!(s.root.items.len(), 2);
    // a child whose identifier is already taken under that record is refused
    assert!(s.try_push_leaf(10, Leaf::new(101)).is_none());
    assert_eq!(s.root.items[0].children.len(), 2);
    // fresh identifiers are accepted
    assert!(s.try_push_mid(Mid::new(30, vec![Leaf::new(999)])).is_some());
    assert_eq!(s.root.items.len(), 3);
    assert!(s.try_push_leaf(10, Leaf::new(102)).is_some());
    assert_eq!(s.root.items[0].children.len(), 3);
    // the same child identifier under a different record is no collision
    assert!(s.try_push_leaf(20, Leaf::new(102)).is_some());
}

#[test]
fn contains_mid_reports_membership() {
    let s = sample_store();
    assert!(s.contains_mid(10));
    assert!(s.contains_mid(20));
    assert!(!s.contains_mid(11));
}
