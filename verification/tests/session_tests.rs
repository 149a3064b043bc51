use storestest::session::Session;

#[test]
fn mount_renders_one_record_with_one_child() {
    let mut s = Session::mount();
    assert!(s.tree.fits(&s.store.root));
    let page = s.tree.render(&s.store.root);
    assert_eq!(page.len(), 1);
    assert_eq!(page[0].leaves.len(), 1);
    assert_eq!(page[0].mid_id, s.store.root.items[0].id);
    assert_eq!(page[0].leaves[0].leaf_id, s.store.root.items[0].children[0].id);
}

#[test]
fn scenario_add_record_then_add_child() {
    // mount: one record M1 with one child L1
    let mut s = Session::mount();
    let m1 = s.store.root.items[0].id;
    let l1 = s.store.root.items[0].children[0].id;
    let first = s.tree.render(&s.store.root);

    // "add a middle record": M2 with child L2 appears after M1;
    // M1's subtree is unchanged
    let (m2, _) = s.add_mid().expect("a fresh identifier should not collide");
    let second = s.tree.render(&s.store.root);
    assert_eq!(second.len(), 2);
    assert_eq!(second[0].mid_id, m1);
    assert_eq!(second[1].mid_id, m2);
    assert_eq!(second[0].inst, first[0].inst);
    assert_eq!(second[0].leaves[0].inst, first[0].leaves[0].inst);
    assert_eq!(second[0].leaves[0].leaf_id, l1);
    assert_eq!(second[1].leaves.len(), 1);

    // "add a child" under M1: L3 appears after L1; M2's subtree is unchanged
    let (l3, _) = s.add_leaf(m1).expect("a fresh identifier should not collide");
    let third = s.tree.render(&s.store.root);
    assert_eq!(third[0].leaves.len(), 2);
    assert_eq!(third[0].leaves[0].leaf_id, l1);
    assert_eq!(third[0].leaves[1].leaf_id, l3);
    assert_eq!(third[0].leaves[0].inst, second[0].leaves[0].inst);
    assert_eq!(third[0].inst, second[0].inst);
    assert_eq!(third[1].inst, second[1].inst);
    assert_eq!(third[1].leaves[0].inst, second[1].leaves[0].inst);
}

#[test]
fn add_child_notifies_only_the_affected_subtree() {
    let mut s = Session::mount();
    let m1 = s.store.root.items[0].id;
    let (m2, _) = s.add_mid().expect("a fresh identifier should not collide");
    s.store.read_items(1); // scope 1: the root field
    s.store.read_children(m1, 2); // scope 2: M1's children
    s.store.read_children(m2, 3); // scope 3: M2's children
    let (_, notified) = s.add_leaf(m1).expect("a fresh identifier should not collide");
    assert!(notified.contains(&1));
    assert!(notified.contains(&2));
    assert!(!notified.contains(&3));
}

#[test]
fn every_added_record_is_rendered_in_insertion_order() {
    let mut s = Session::mount();
    let mut expected = vec![s.store.root.items[0].id];
    for _ in 0..25 {
        let (id, _) = s.add_mid().expect("a fresh identifier should not collide");
        expected.push(id);
    }
    let page = s.tree.render(&s.store.root);
    assert_eq!(page.len(), expected.len());
    for i in 0..page.len() {
        assert_eq!(page[i].mid_id, expected[i]);
    }
}

#[test]
fn every_added_child_is_rendered_under_its_record_in_order() {
    let mut s = Session::mount();
    let m1 = s.store.root.items[0].id;
    let (m2, _) = s.add_mid().expect("a fresh identifier should not collide");
    let mut expected = vec![s.store.root.items[0].children[0].id];
    for _ in 0..10 {
        let (id, _) = s.add_leaf(m1).expect("a fresh identifier should not collide");
        expected.push(id);
    }
    let page = s.tree.render(&s.store.root);
    assert_eq!(page[0].leaves.len(), expected.len());
    for j in 0..expected.len() {
        assert_eq!(page[0].leaves[j].leaf_id, expected[j]);
    }
    // the sibling still has exactly its one child
    assert_eq!(page[1].mid_id, m2);
    assert_eq!(page[1].leaves.len(), 1);
}
