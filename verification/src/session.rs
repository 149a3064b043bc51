//! The page session: the state created at page mount and the two controls
//! the page offers. Mounting seeds the store with one middle record holding
//! one innermost record, both freshly identified. One control appends a
//! freshly identified middle record (holding one fresh child) to the root;
//! the other appends a freshly identified child to one middle record.

use vstd::prelude::*;

use crate::ids::fresh_id;
use crate::records::Leaf;
use crate::records::Mid;
use crate::records::Root;
use crate::records::has_leaf;
use crate::records::has_mid;
use crate::records::mid_index;
use crate::render::ViewTree;
use crate::store::Path;
use crate::store::Store;

verus! {

/// One page session: the reactive store and the retained view tree. Both
/// live exactly as long as the page.
pub struct Session {
    pub store: Store,
    pub tree: ViewTree,
}

impl Session {
    /// Mount the page: a store seeded with one middle record holding one
    /// innermost record, both freshly identified, and an empty view tree.
    pub fn mount() -> (r: Session)
        ensures
            r.store.wf(),
            r.tree.wf(),
            r.store.subs@.len() == 0,
            r.store.root.items@.len() == 1,
            r.store.root.items@[0].children@.len() == 1,
            r.tree.mids@.len() == 0,
            r.tree.children@.len() == 0,
            r.tree.next_inst == 0,
    {
        let mid_id = fresh_id();
        let leaf_id = fresh_id();
        let mut children: Vec<Leaf> = Vec::new();
        children.push(Leaf::new(leaf_id));
        let mut items: Vec<Mid> = Vec::new();
        items.push(Mid::new(mid_id, children));
        let root = Root::new(items);
        Session { store: Store::new(root), tree: ViewTree::new() }
    }

    /// The "add a middle record" control: appends a freshly identified
    /// middle record holding one freshly identified child to the root's
    /// list, and returns the new identifier with the notified scopes.
    /// Identifiers are random, so in the vanishingly unlikely case that the
    /// one generated collides with an existing record's, nothing changes and
    /// None is returned.
    pub fn add_mid(&mut self) -> (r: Option<(u128, Vec<u64>)>)
        requires
            old(self).store.wf(),
        ensures
            final(self).tree == old(self).tree,
            final(self).store.wf(),
            final(self).store.subs@ == old(self).store.subs@,
            match r {
                Some(pair) => {
                    &&& !has_mid(old(self).store.root.items@, pair.0)
                    &&& final(self).store.root.items@.len() == old(self).store.root.items@.len()
                        + 1
                    &&& (forall|i: int|
                        0 <= i < old(self).store.root.items@.len()
                            ==> final(self).store.root.items@[i] == old(
                            self,
                        ).store.root.items@[i])
                    &&& final(self).store.root.items@.last().id == pair.0
                    &&& final(self).store.root.items@.last().children@.len() == 1
                    &&& (forall|s: u64|
                        pair.1@.contains(s) <==> old(self).store.notifies(Path::Root, s))
                },
                None => final(self).store == old(self).store,
            },
    {
        let id = fresh_id();
        let leaf_id = fresh_id();
        let mut children: Vec<Leaf> = Vec::new();
        children.push(Leaf::new(leaf_id));
        let m = Mid::new(id, children);
        match self.store.try_push_mid(m) {
            Some(notified) => Some((id, notified)),
            None => None,
        }
    }

    /// The "add a child" control on the middle record `mid`: appends a
    /// freshly identified child to that record's children, and returns the
    /// new identifier with the notified scopes. None, with nothing changed,
    /// in the vanishingly unlikely case that the generated identifier
    /// collides with one of that record's children.
    pub fn add_leaf(&mut self, mid: u128) -> (r: Option<(u128, Vec<u64>)>)
        requires
            old(self).store.wf(),
            has_mid(old(self).store.root.items@, mid),
        ensures
            final(self).tree == old(self).tree,
            final(self).store.wf(),
            final(self).store.subs@ == old(self).store.subs@,
            final(self).store.root.items@.len() == old(self).store.root.items@.len(),
            match r {
                Some(pair) => {
                    let k = mid_index(old(self).store.root.items@, mid);
                    &&& !has_leaf(old(self).store.root.items@[k].children@, pair.0)
                    &&& (forall|i: int|
                        0 <= i < old(self).store.root.items@.len() && i != k
                            ==> final(self).store.root.items@[i] == old(
                            self,
                        ).store.root.items@[i])
                    &&& final(self).store.root.items@[k].id == mid
                    &&& final(self).store.root.items@[k].children@ == old(
                        self,
                    ).store.root.items@[k].children@.push(Leaf { id: pair.0 })
                    &&& (forall|s: u64|
                        pair.1@.contains(s) <==> old(self).store.notifies(
                            (Path::Children { mid }),
                            s,
                        ))
                },
                None => final(self).store == old(self).store,
            },
    {
        let leaf_id = fresh_id();
        match self.store.try_push_leaf(mid, Leaf::new(leaf_id)) {
            Some(notified) => Some((leaf_id, notified)),
            None => None,
        }
    }
}

} // verus!
