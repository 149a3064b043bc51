use storestest::records::Leaf;
use storestest::records::Mid;
use storestest::records::Root;
use storestest::render::check_keys_unique;
use storestest::render::reconcile;
use storestest::render::Entry;
use storestest::render::ViewTree;

const A: u128 = 1;
const B: u128 = 2;
const C: u128 = 3;
const D: u128 = 4;

fn insts(es: &Vec<Entry>) -> Vec<u64> {
    es.iter().map(|e| e.inst).collect()
}

#[test]
fn keys_unique_check() {
    assert!(check_keys_unique(&vec![]));
    assert!(check_keys_unique(&vec![A, B, C]));
    assert!(!check_keys_unique(&vec![A, B, A]));
}

#[test]
fn reconcile_keeps_instances_for_kept_keys() {
    // initial render of [A, B, C], then of [A, B, C, D]: the instances for
    // A, B and C are the same, and only D gets a new one
    let mut entries: Vec<Entry> = Vec::new();
    let mut next: u64 = 0;
    reconcile(&mut entries, &vec![A, B, C], &mut next);
    assert_eq!(entries.len(), 3);
    let first = insts(&entries);
    reconcile(&mut entries, &vec![A, B, C, D], &mut next);
    assert_eq!(entries.len(), 4);
    let second = insts(&entries);
    assert_eq!(&second[..3], &first[..]);
    assert!(!first.contains(&second[3]));
}

#[test]
fn reconcile_drops_absent_keys_and_recreates_fresh() {
    let mut entries: Vec<Entry> = Vec::new();
    let mut next: u64 = 0;
    reconcile(&mut entries, &vec![A, B, C], &mut next);
    let first = insts(&entries);
    // B disappears: its instance is dropped, A and C keep theirs
    reconcile(&mut entries, &vec![A, C], &mut next);
    assert_eq!(entries.len(), 2);
    assert_eq!(entries[0].key, A);
    assert_eq!(entries[1].key, C);
    assert_eq!(entries[0].inst, first[0]);
    assert_eq!(entries[1].inst, first[2]);
    // B comes back: it is a new record, so it gets a new instance
    reconcile(&mut entries, &vec![A, B, C], &mut next);
    assert_eq!(entries[1].key, B);
    assert_ne!(entries[1].inst, first[1]);
}

#[test]
fn reconcile_repositions_existing_keys() {
    let mut entries: Vec<Entry> = Vec::new();
    let mut next: u64 = 0;
    reconcile(&mut entries, &vec![A, B, C], &mut next);
    let first = insts(&entries);
    reconcile(&mut entries, &vec![C, A, B], &mut next);
    assert_eq!(insts(&entries), vec![first[2], first[0], first[1]]);
}

fn sample_root() -> Root {
    let m1 = Mid::new(10, vec![Leaf::new(100)]);
    let m2 = Mid::new(20, vec![Leaf::new(200), Leaf::new(201)]);
    Root::new(vec![m1, m2])
}

#[test]
fn render_mirrors_records_one_to_one() {
    let root = sample_root();
    let mut tree = ViewTree::new();
    assert!(tree.fits(&root));
    let page = tree.render(&root);
    assert_eq!(page.len(), 2);
    assert_eq!(page[0].mid_id, 10);
    assert_eq!(page[1].mid_id, 20);
    assert_eq!(page[0].leaves.len(), 1);
    assert_eq!(page[1].leaves.len(), 2);
    assert_eq!(page[0].leaves[0].leaf_id, 100);
    assert_eq!(page[1].leaves[0].leaf_id, 200);
    assert_eq!(page[1].leaves[1].leaf_id, 201);
    assert_ne!(page[0].inst, page[1].inst);
    assert_ne!(page[1].leaves[0].inst, page[1].leaves[1].inst);
}

#[test]
fn render_twice_reuses_every_instance() {
    let root = sample_root();
    let mut tree = ViewTree::new();
    let first = tree.render(&root);
    let second = tree.render(&root);
    assert_eq!(first.len(), second.len());
    for i in 0..first.len() {
        assert_eq!(first[i].mid_id, second[i].mid_id);
        assert_eq!(first[i].inst, second[i].inst);
        assert_eq!(first[i].leaves.len(), second[i].leaves.len());
        for j in 0..first[i].leaves.len() {
            assert_eq!(first[i].leaves[j].leaf_id, second[i].leaves[j].leaf_id);
            assert_eq!(first[i].leaves[j].inst, second[i].leaves[j].inst);
        }
    }
}

#[test]
fn render_after_append_touches_only_the_new_views() {
    let mut root = sample_root();
    let mut tree = ViewTree::new();
    let first = tree.render(&root);
    // append a child to record 10, then a new record 30
    root.items[0].children.push(Leaf::new(101));
    root.items.push(Mid::new(30, vec![Leaf::new(300)]));
    let second = tree.render(&root);
    assert_eq!(second.len(), 3);
    // old views keep their instances
    assert_eq!(second[0].inst, first[0].inst);
    assert_eq!(second[1].inst, first[1].inst);
    assert_eq!(second[0].leaves[0].inst, first[0].leaves[0].inst);
    assert_eq!(second[1].leaves[0].inst, first[1].leaves[0].inst);
    assert_eq!(second[1].leaves[1].inst, first[1].leaves[1].inst);
    // the new views are new instances
    let mut old_insts: Vec<u64> = Vec::new();
    for m in &first {
        old_insts.push(m.inst);
        for l in &m.leaves {
            old_insts.push(l.inst);
        }
    }
    assert!(!old_insts.contains(&second[0].leaves[1].inst));
    assert!(!old_insts.contains(&second[2].inst));
    assert!(!old_insts.contains(&second[2].leaves[0].inst));
    assert_eq!(second[0].leaves[1].leaf_id, 101);
    assert_eq!(second[2].mid_id, 30);
}
