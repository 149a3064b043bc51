//! The reactive store: it owns the root record and hands out path-addressed
//! fields. Reading a field subscribes the reading scope to that field;
//! writing a field (always an append) notifies exactly the scopes subscribed
//! to that field or one of its ancestors, so a write inside one subtree never
//! touches a sibling subtree.

use vstd::prelude::*;

use crate::records::Leaf;
use crate::records::Mid;
use crate::records::Root;
use crate::records::has_leaf;
use crate::records::has_mid;
use crate::records::lemma_mid_index;
use crate::records::mid_index;

verus! {

/// A path addressing one field of the nested structure. A field is a path,
/// not a live reference: children never point back at parents.
#[derive(Clone, Copy, PartialEq, Eq, Structural, Debug)]
pub enum Path {
    /// The root field: the ordered list of middle records.
    Root,
    /// The field of one middle record, addressed by its identifier.
    Mid { mid: u128 },
    /// The children field of one middle record.
    Children { mid: u128 },
    /// The field of one innermost record, addressed by its parent and itself.
    Leaf { mid: u128, leaf: u128 },
}

/// One subscription: a scope that observes a field.
#[derive(Clone, Copy, PartialEq, Eq, Structural, Debug)]
pub struct Sub {
    pub path: Path,
    pub scope: u64,
}

/// Whether `subs` holds a subscription of `scope` to `q`.
pub open spec fn subs_has(subs: Seq<Sub>, q: Path, scope: u64) -> bool {
    exists|j: int| 0 <= j < subs.len() && subs[j].path == q && subs[j].scope == scope
}

/// The subscription list after one read of `q` by `scope`: unchanged when
/// the subscription is already present, extended by it otherwise.
pub open spec fn subs_after_read(subs: Seq<Sub>, q: Path, scope: u64) -> Seq<Sub> {
    if subs_has(subs, q, scope) {
        subs
    } else {
        subs.push(Sub { path: q, scope })
    }
}

/// `q` observes a write at `w` when `q` is `w` itself or an ancestor of it:
/// the root stands above each middle record, which stands above its children
/// field, which stands above each child.
pub open spec fn observes(q: Path, w: Path) -> bool {
    q == w || match w {
        Path::Root => false,
        Path::Mid { .. } => q == Path::Root,
        Path::Children { mid } => q == Path::Root || q == (Path::Mid { mid }),
        Path::Leaf { mid, .. } => q == Path::Root || q == (Path::Mid { mid }) || q == (
        Path::Children { mid }),
    }
}

/// A path inside the subtree of the middle record `mid`: the record's own
/// field, its children field, or the field of one of its children.
pub open spec fn within_mid(q: Path, mid: u128) -> bool {
    match q {
        Path::Root => false,
        Path::Mid { mid: m } => m == mid,
        Path::Children { mid: m } => m == mid,
        Path::Leaf { mid: m, .. } => m == mid,
    }
}

fn path_observes(q: Path, w: Path) -> (r: bool)
    ensures
        r == observes(q, w),
{
    if q == w {
        true
    } else {
        match w {
            Path::Root => false,
            Path::Mid { .. } => q == Path::Root,
            Path::Children { mid } => q == Path::Root || q == (Path::Mid { mid }),
            Path::Leaf { mid, .. } => q == Path::Root || q == (Path::Mid { mid }) || q == (
            Path::Children { mid }),
        }
    }
}

/// Membership in a sequence extended by one element.
proof fn lemma_contains_push<A>(s: Seq<A>, x: A, y: A)
    ensures
        s.push(x).contains(y) <==> (s.contains(y) || y == x),
{
    if s.contains(y) {
        let k = choose|k: int| 0 <= k < s.len() && s[k] == y;
        assert(s.push(x)[k] == y);
    }
    if y == x {
        assert(s.push(x)[s.len() as int] == y);
    }
    if s.push(x).contains(y) {
        let k = choose|k: int| 0 <= k < s.push(x).len() && s.push(x)[k] == y;
        if k < s.len() {
            assert(s[k] == y);
        }
    }
}

/// The store: the root record and the per-field subscription list.
pub struct Store {
    pub root: Root,
    pub subs: Vec<Sub>,
}

impl Store {
    /// No subscription is recorded twice.
    pub open spec fn subs_wf(self) -> bool {
        forall|i: int, j: int| 0 <= i < j < self.subs@.len() ==> self.subs@[i] != self.subs@[j]
    }

    pub open spec fn wf(self) -> bool {
        self.root.wf() && self.subs_wf()
    }

    /// Whether `scope` is subscribed to the field `q`.
    pub open spec fn subscribed(self, q: Path, scope: u64) -> bool {
        subs_has(self.subs@, q, scope)
    }

    /// Whether `path` resolves within the current structure.
    pub open spec fn spec_resolves(self, path: Path) -> bool {
        match path {
            Path::Root => true,
            Path::Mid { mid } => has_mid(self.root.items@, mid),
            Path::Children { mid } => has_mid(self.root.items@, mid),
            Path::Leaf { mid, leaf } => has_mid(self.root.items@, mid) && has_leaf(
                self.root.items@[mid_index(self.root.items@, mid)].children@,
                leaf,
            ),
        }
    }

    /// Whether a write at `w` notifies `scope`: some subscription of `scope`
    /// observes `w`.
    pub open spec fn notifies(self, w: Path, scope: u64) -> bool {
        exists|q: Path| self.subscribed(q, scope) && observes(q, w)
    }

    pub fn new(root: Root) -> (r: Store)
        requires
            root.wf(),
        ensures
            r.wf(),
            r.root == root,
            r.subs@.len() == 0,
    {
        Store { root, subs: Vec::new() }
    }

    fn find_mid(&self, mid: u128) -> (r: Option<usize>)
        ensures
            match r {
                Some(i) => i < self.root.items@.len() && self.root.items@[i as int].id == mid,
                None => !has_mid(self.root.items@, mid),
            },
    {
        let mut i: usize = 0;
        while i < self.root.items.len()
            invariant
                i <= self.root.items@.len(),
                forall|j: int| 0 <= j < i ==> (#[trigger] self.root.items@[j]).id != mid,
            decreases self.root.items@.len() - i,
        {
            if self.root.items[i].id == mid {
                return Some(i);
            }
            i += 1;
        }
        None
    }

    /// Whether some middle record carries the identifier `mid`.
    pub fn contains_mid(&self, mid: u128) -> (r: bool)
        ensures
            r == has_mid(self.root.items@, mid),
    {
        match self.find_mid(mid) {
            Some(i) => {
                proof {
                    assert(has_mid(self.root.items@, mid));
                }
                true
            },
            None => false,
        }
    }

    /// Whether `path` resolves within the current structure. A field may only
    /// be obtained for a path that resolves: asking for any other path is a
    /// programming error.
    pub fn resolves(&self, path: Path) -> (r: bool)
        requires
            self.wf(),
        ensures
            r == self.spec_resolves(path),
    {
        match path {
            Path::Root => true,
            Path::Mid { mid } => self.contains_mid(mid),
            Path::Children { mid } => self.contains_mid(mid),
            Path::Leaf { mid, leaf } => {
                match self.find_mid(mid) {
                    Some(i) => {
                        proof {
                            lemma_mid_index(self.root.items@, mid, i as int);
                        }
                        match find_leaf(&self.root.items[i].children, leaf) {
                            Some(j) => {
                                proof {
                                    assert(has_leaf(self.root.items@[i as int].children@, leaf));
                                }
                                true
                            },
                            None => false,
                        }
                    },
                    None => false,
                }
            },
        }
    }

    fn has_sub(&self, q: Path, scope: u64) -> (r: bool)
        ensures
            r == self.subscribed(q, scope),
    {
        let mut i: usize = 0;
        while i < self.subs.len()
            invariant
                i <= self.subs@.len(),
                forall|j: int| 0 <= j < i
                    ==> !((#[trigger] self.subs@[j]).path == q && self.subs@[j].scope == scope),
            decreases self.subs@.len() - i,
        {
            let sub = self.subs[i];
            if sub.path == q && sub.scope == scope {
                return true;
            }
            i += 1;
        }
        false
    }

    fn subscribe(&mut self, q: Path, scope: u64)
        requires
            old(self).subs_wf(),
        ensures
            final(self).root == old(self).root,
            final(self).subs@ == subs_after_read(old(self).subs@, q, scope),
            final(self).subs_wf(),
            final(self).subscribed(q, scope),
    {
        let present = self.has_sub(q, scope);
        if !present {
            self.subs.push(Sub { path: q, scope });
            proof {
                let n = old(self).subs@.len() as int;
                assert(self.subs@[n] == (Sub { path: q, scope }));
                assert(self.subscribed(q, scope));
            }
        }
    }

    /// Read the root field: the ordered middle records, copied out.
    /// Subscribes `scope` to the root field; the value read is a function of
    /// the root alone, which the read leaves unchanged.
    pub fn read_items(&mut self, scope: u64) -> (r: Vec<Mid>)
        requires
            old(self).wf(),
        ensures
            final(self).wf(),
            final(self).root == old(self).root,
            final(self).subs@ == subs_after_read(old(self).subs@, Path::Root, scope),
            r@.len() == old(self).root.items@.len(),
            forall|i: int| 0 <= i < r@.len()
                ==> (#[trigger] r@[i]).id == old(self).root.items@[i].id
                    && r@[i].children@ == old(self).root.items@[i].children@,
    {
        let mut r: Vec<Mid> = Vec::new();
        let mut i: usize = 0;
        while i < self.root.items.len()
            invariant
                i <= self.root.items@.len(),
                r@.len() == i,
                forall|j: int| 0 <= j < i
                    ==> (#[trigger] r@[j]).id == self.root.items@[j].id
                        && r@[j].children@ == self.root.items@[j].children@,
            decreases self.root.items@.len() - i,
        {
            let m = copy_mid(&self.root.items[i]);
            r.push(m);
            i += 1;
        }
        self.subscribe(Path::Root, scope);
        r
    }

    /// Read the field of one middle record, copied out. Subscribes `scope`
    /// to that record's field.
    pub fn read_mid(&mut self, mid: u128, scope: u64) -> (r: Mid)
        requires
            old(self).wf(),
            old(self).spec_resolves(Path::Mid { mid }),
        ensures
            final(self).wf(),
            final(self).root == old(self).root,
            final(self).subs@ == subs_after_read(old(self).subs@, (Path::Mid { mid }), scope),
            r.id == mid,
            r.children@ == old(self).root.items@[mid_index(old(self).root.items@, mid)].children@,
    {
        let i = match self.find_mid(mid) {
            Some(i) => i,
            None => {
                proof {
                    assert(false);
                }
                0
            },
        };
        proof {
            lemma_mid_index(self.root.items@, mid, i as int);
        }
        let r = copy_mid(&self.root.items[i]);
        self.subscribe(Path::Mid { mid }, scope);
        r
    }

    /// Read the children field of one middle record, copied out. Subscribes
    /// `scope` to that children field.
    pub fn read_children(&mut self, mid: u128, scope: u64) -> (r: Vec<Leaf>)
        requires
            old(self).wf(),
            old(self).spec_resolves(Path::Children { mid }),
        ensures
            final(self).wf(),
            final(self).root == old(self).root,
            final(self).subs@ == subs_after_read(old(self).subs@, (Path::Children { mid }), scope),
            r@ == old(self).root.items@[mid_index(old(self).root.items@, mid)].children@,
    {
        let i = match self.find_mid(mid) {
            Some(i) => i,
            None => {
                proof {
                    assert(false);
                }
                0
            },
        };
        proof {
            lemma_mid_index(self.root.items@, mid, i as int);
        }
        let r = copy_leaves(&self.root.items[i].children);
        self.subscribe(Path::Children { mid }, scope);
        r
    }

    /// Read the field of one innermost record. Subscribes `scope` to it.
    pub fn read_leaf(&mut self, mid: u128, leaf: u128, scope: u64) -> (r: Leaf)
        requires
            old(self).wf(),
            old(self).spec_resolves(Path::Leaf { mid, leaf }),
        ensures
            final(self).wf(),
            final(self).root == old(self).root,
            final(self).subs@ == subs_after_read(old(self).subs@, (Path::Leaf { mid, leaf }), scope),
            r.id == leaf,
    {
        let i = match self.find_mid(mid) {
            Some(i) => i,
            None => {
                proof {
                    assert(false);
                }
                0
            },
        };
        proof {
            lemma_mid_index(self.root.items@, mid, i as int);
        }
        let j = match find_leaf(&self.root.items[i].children, leaf) {
            Some(j) => j,
            None => {
                proof {
                    assert(false);
                }
                0
            },
        };
        let r = self.root.items[i].children[j];
        self.subscribe(Path::Leaf { mid, leaf }, scope);
        r
    }
}

fn find_leaf(children: &Vec<Leaf>, id: u128) -> (r: Option<usize>)
    ensures
        match r {
            Some(j) => j < children@.len() && children@[j as int].id == id,
            None => !has_leaf(children@, id),
        },
{
    let mut j: usize = 0;
    while j < children.len()
        invariant
            j <= children@.len(),
            forall|k: int| 0 <= k < j ==> (#[trigger] children@[k]).id != id,
        decreases children@.len() - j,
    {
        if children[j].id == id {
            return Some(j);
        }
        j += 1;
    }
    None
}

fn copy_leaves(src: &Vec<Leaf>) -> (r: Vec<Leaf>)
    ensures
        r@ == src@,
{
    let mut r: Vec<Leaf> = Vec::new();
    let mut i: usize = 0;
    while i < src.len()
        invariant
            i <= src@.len(),
            r@ == src@.subrange(0, i as int),
        decreases src@.len() - i,
    {
        r.push(src[i]);
        proof {
            assert(r@ =~= src@.subrange(0, i as int + 1));
        }
        i += 1;
    }
    proof {
        assert(src@.subrange(0, src@.len() as int) =~= src@);
    }
    r
}

fn copy_mid(m: &Mid) -> (r: Mid)
    ensures
        r.id == m.id,
        r.children@ == m.children@,
{
    Mid { id: m.id, children: copy_leaves(&m.children) }
}

/// Membership in a subscription list extended by one subscription.
proof fn lemma_subs_has_push(subs: Seq<Sub>, x: Sub, q: Path, s: u64)
    ensures
        subs_has(subs.push(x), q, s) <==> (subs_has(subs, q, s) || (x.path == q && x.scope == s)),
{
    if subs_has(subs, q, s) {
        let j = choose|j: int| 0 <= j < subs.len() && subs[j].path == q && subs[j].scope == s;
        assert(subs.push(x)[j].path == q && subs.push(x)[j].scope == s);
    }
    if x.path == q && x.scope == s {
        assert(subs.push(x)[subs.len() as int] == x);
    }
    if subs_has(subs.push(x), q, s) {
        let j = choose|j: int|
            0 <= j < subs.push(x).len() && subs.push(x)[j].path == q && subs.push(x)[j].scope == s;
        if j < subs.len() {
            assert(subs[j].path == q && subs[j].scope == s);
        }
    }
}

impl Store {
    fn notified_scopes(&self, w: Path) -> (r: Vec<u64>)
        ensures
            forall|s: u64| r@.contains(s) <==> self.notifies(w, s),
    {
        let mut r: Vec<u64> = Vec::new();
        let mut i: usize = 0;
        while i < self.subs.len()
            invariant
                i <= self.subs@.len(),
                forall|s: u64| r@.contains(s) <==> exists|j: int|
                    0 <= j < i && (#[trigger] self.subs@[j]).scope == s && observes(
                        self.subs@[j].path,
                        w,
                    ),
            decreases self.subs@.len() - i,
        {
            let sub = self.subs[i];
            let ghost r0 = r@;
            let obs = path_observes(sub.path, w);
            if obs {
                r.push(sub.scope);
            }
            proof {
                assert forall|s: u64|
                    r@.contains(s) <==> exists|j: int|
                        0 <= j < i + 1 && (#[trigger] self.subs@[j]).scope == s && observes(
                            self.subs@[j].path,
                            w,
                        ) by {
                    lemma_contains_push(r0, sub.scope, s);
                    if r@.contains(s) {
                        if r0.contains(s) {
                            let j = choose|j: int|
                                0 <= j < i && (#[trigger] self.subs@[j]).scope == s && observes(
                                    self.subs@[j].path,
                                    w,
                                );
                            assert(self.subs@[j].scope == s && observes(self.subs@[j].path, w));
                        } else {
                            assert(obs && s == sub.scope);
                            assert(self.subs@[i as int].scope == s && observes(
                                self.subs@[i as int].path,
                                w,
                            ));
                        }
                    }
                    if exists|j: int|
                        0 <= j < i + 1 && (#[trigger] self.subs@[j]).scope == s && observes(
                            self.subs@[j].path,
                            w,
                        ) {
                        let j = choose|j: int|
                            0 <= j < i + 1 && (#[trigger] self.subs@[j]).scope == s && observes(
                                self.subs@[j].path,
                                w,
                            );
                        if j < i {
                            assert(r0.contains(s));
                            assert(r@.contains(s));
                        } else {
                            assert(obs && s == sub.scope);
                            assert(r@.contains(s));
                        }
                    }
                };
            }
            i += 1;
        }
        proof {
            assert forall|s: u64| r@.contains(s) <==> self.notifies(w, s) by {
                if r@.contains(s) {
                    let j = choose|j: int|
                        0 <= j < self.subs@.len() && (#[trigger] self.subs@[j]).scope == s
                            && observes(self.subs@[j].path, w);
                    assert(self.subscribed(self.subs@[j].path, s));
                }
                if self.notifies(w, s) {
                    let q = choose|q: Path| self.subscribed(q, s) && observes(q, w);
                    let j = choose|j: int|
                        0 <= j < self.subs@.len() && self.subs@[j].path == q && self.subs@[j].scope
                            == s;
                    assert(self.subs@[j].scope == s && observes(self.subs@[j].path, w));
                    assert(r@.contains(s));
                }
            };
        }
        r
    }

    /// Append a middle record to the root's list: the one mutation of the
    /// root field. Notifies exactly the scopes subscribed to a field that
    /// observes the root field (the root field itself; it has no ancestor).
    pub fn write_push_mid(&mut self, m: Mid) -> (notified: Vec<u64>)
        requires
            old(self).wf(),
            m.wf(),
            !has_mid(old(self).root.items@, m.id),
        ensures
            final(self).wf(),
            final(self).subs@ == old(self).subs@,
            final(self).root.items@ == old(self).root.items@.push(m),
            forall|s: u64| notified@.contains(s) <==> old(self).notifies(Path::Root, s),
    {
        let notified = self.notified_scopes(Path::Root);
        self.root.items.push(m);
        proof {
            let items = self.root.items@;
            let olditems = old(self).root.items@;
            let n = olditems.len() as int;
            assert forall|i: int, j: int|
                0 <= i < j < items.len() implies items[i].id != items[j].id by {
                if j < n {
                    assert(olditems[i].id != olditems[j].id);
                } else {
                    if items[i].id == m.id {
                        assert(olditems[i].id == m.id);
                        assert(has_mid(olditems, m.id));
                    }
                }
            };
            assert forall|i: int| 0 <= i < items.len() implies (#[trigger] items[i]).wf() by {
                if i < n {
                    assert(olditems[i].wf());
                }
            };
        }
        notified
    }

    /// Append a child to the addressed middle record's children: the one
    /// mutation of a children field. Notifies exactly the scopes subscribed
    /// to a field that observes it: the children field itself, its record's
    /// field, or the root field — never a sibling record's subtree.
    pub fn write_push_leaf(&mut self, mid: u128, l: Leaf) -> (notified: Vec<u64>)
        requires
            old(self).wf(),
            has_mid(old(self).root.items@, mid),
            !has_leaf(
                old(self).root.items@[mid_index(old(self).root.items@, mid)].children@,
                l.id,
            ),
        ensures
            final(self).wf(),
            final(self).subs@ == old(self).subs@,
            final(self).root.items@.len() == old(self).root.items@.len(),
            forall|i: int|
                0 <= i < old(self).root.items@.len() && i != mid_index(old(self).root.items@, mid)
                    ==> final(self).root.items@[i] == old(self).root.items@[i],
            final(self).root.items@[mid_index(old(self).root.items@, mid)].id == mid,
            final(self).root.items@[mid_index(old(self).root.items@, mid)].children@ == old(
                self,
            ).root.items@[mid_index(old(self).root.items@, mid)].children@.push(l),
            forall|s: u64| notified@.contains(s) <==> old(self).notifies((Path::Children { mid }), s),
    {
        let notified = self.notified_scopes(Path::Children { mid });
        let i = match self.find_mid(mid) {
            Some(i) => i,
            None => {
                proof {
                    assert(false);
                }
                0
            },
        };
        proof {
            lemma_mid_index(old(self).root.items@, mid, i as int);
        }
        let mut m = self.root.items.remove(i);
        m.children.push(l);
        let ghost m2 = m;
        self.root.items.insert(i, m);
        proof {
            let olditems = old(self).root.items@;
            let k = i as int;
            vstd::seq_lib::lemma_update_is_remove_insert(olditems, k, m2);
            assert(self.root.items@ == olditems.update(k, m2));
            assert(m2.id == mid);
            assert(m2.children@ == olditems[k].children@.push(l));
            let items = self.root.items@;
            assert forall|a: int, b: int|
                0 <= a < b < items.len() implies items[a].id != items[b].id by {
                assert(olditems[a].id != olditems[b].id);
                assert(items[a].id == olditems[a].id);
                assert(items[b].id == olditems[b].id);
            };
            assert forall|a: int| 0 <= a < items.len() implies (#[trigger] items[a]).wf() by {
                assert(olditems[a].wf());
                if a == k {
                    let oldc = olditems[k].children@;
                    assert forall|x: int, y: int|
                        0 <= x < y < items[a].children@.len() implies items[a].children@[x].id
                        != items[a].children@[y].id by {
                        if y < oldc.len() {
                            assert(oldc[x].id != oldc[y].id);
                        } else {
                            if items[a].children@[x].id == l.id {
                                assert(oldc[x].id == l.id);
                                assert(has_leaf(oldc, l.id));
                            }
                        }
                    };
                }
            };
        }
        notified
    }

    /// The checked form of `write_push_mid`, for callers that do not already
    /// know the identifier to be unused: appends exactly when no middle
    /// record carries `m.id`, and returns the notified scopes on success.
    pub fn try_push_mid(&mut self, m: Mid) -> (r: Option<Vec<u64>>)
        requires
            old(self).wf(),
            m.wf(),
        ensures
            final(self).wf(),
            final(self).subs@ == old(self).subs@,
            match r {
                Some(notified) => {
                    &&& !has_mid(old(self).root.items@, m.id)
                    &&& final(self).root.items@ == old(self).root.items@.push(m)
                    &&& (forall|s: u64|
                        notified@.contains(s) <==> old(self).notifies(Path::Root, s))
                },
                None => has_mid(old(self).root.items@, m.id) && *final(self) == *old(self),
            },
    {
        if self.contains_mid(m.id) {
            None
        } else {
            Some(self.write_push_mid(m))
        }
    }

    /// The checked form of `write_push_leaf`: appends exactly when no child
    /// of the addressed record carries `l.id`, and returns the notified
    /// scopes on success.
    pub fn try_push_leaf(&mut self, mid: u128, l: Leaf) -> (r: Option<Vec<u64>>)
        requires
            old(self).wf(),
            has_mid(old(self).root.items@, mid),
        ensures
            final(self).wf(),
            final(self).subs@ == old(self).subs@,
            match r {
                Some(notified) => {
                    let k = mid_index(old(self).root.items@, mid);
                    &&& !has_leaf(old(self).root.items@[k].children@, l.id)
                    &&& final(self).root.items@.len() == old(self).root.items@.len()
                    &&& (forall|i: int|
                        0 <= i < old(self).root.items@.len() && i != k
                            ==> final(self).root.items@[i] == old(self).root.items@[i])
                    &&& final(self).root.items@[k].id == mid
                    &&& final(self).root.items@[k].children@ == old(
                        self,
                    ).root.items@[k].children@.push(l)
                    &&& (forall|s: u64|
                        notified@.contains(s) <==> old(self).notifies((Path::Children { mid }), s))
                },
                None => has_leaf(
                    old(self).root.items@[mid_index(old(self).root.items@, mid)].children@,
                    l.id,
                ) && *final(self) == *old(self),
            },
    {
        if self.resolves(Path::Leaf { mid, leaf: l.id }) {
            None
        } else {
            Some(self.write_push_leaf(mid, l))
        }
    }

    /// Release every subscription held by one scope: what the renderer does
    /// for a destroyed view instance.
    pub fn unsubscribe_scope(&mut self, scope: u64)
        requires
            old(self).wf(),
        ensures
            final(self).wf(),
            final(self).root == old(self).root,
            forall|q: Path, s: u64| #[trigger]
                final(self).subscribed(q, s) <==> (old(self).subscribed(q, s) && s != scope),
    {
        let mut kept: Vec<Sub> = Vec::new();
        let mut i: usize = 0;
        while i < self.subs.len()
            invariant
                i <= self.subs@.len(),
                self.subs_wf(),
                forall|a: int| 0 <= a < kept@.len() ==> exists|j: int|
                    0 <= j < i && #[trigger] kept@[a] == self.subs@[j],
                forall|a: int, b: int| 0 <= a < b < kept@.len() ==> kept@[a] != kept@[b],
                forall|q: Path, s: u64| #[trigger]
                    subs_has(kept@, q, s) <==> (exists|j: int|
                        0 <= j < i && (#[trigger] self.subs@[j]).path == q && self.subs@[j].scope
                            == s && s != scope),
            decreases self.subs@.len() - i,
        {
            let sub = self.subs[i];
            let ghost kept0 = kept@;
            let keep = sub.scope != scope;
            if keep {
                kept.push(sub);
            }
            proof {
                if keep {
                    assert forall|a: int, b: int|
                        0 <= a < b < kept@.len() implies kept@[a] != kept@[b] by {
                        if b == kept0.len() as int {
                            let j = choose|j: int|
                                0 <= j < i && #[trigger] kept0[a] == self.subs@[j];
                            assert(self.subs@[j] != self.subs@[i as int]);
                            assert(kept@[a] == kept0[a]);
                            assert(kept@[b] == sub);
                        } else {
                            assert(kept0[a] != kept0[b]);
                        }
                    };
                    assert forall|a: int| 0 <= a < kept@.len() implies exists|j: int|
                        0 <= j < i + 1 && #[trigger] kept@[a] == self.subs@[j] by {
                        if a < kept0.len() {
                            let j = choose|j: int|
                                0 <= j < i && #[trigger] kept0[a] == self.subs@[j];
                            assert(kept@[a] == self.subs@[j]);
                        } else {
                            assert(kept@[a] == self.subs@[i as int]);
                        }
                    };
                }
                assert forall|q: Path, s: u64| #[trigger]
                    subs_has(kept@, q, s) <==> (exists|j: int|
                        0 <= j < i + 1 && (#[trigger] self.subs@[j]).path == q
                            && self.subs@[j].scope == s && s != scope) by {
                    lemma_subs_has_push(kept0, sub, q, s);
                    if subs_has(kept@, q, s) {
                        if subs_has(kept0, q, s) {
                            let j = choose|j: int|
                                0 <= j < i && (#[trigger] self.subs@[j]).path == q
                                    && self.subs@[j].scope == s && s != scope;
                            assert(self.subs@[j].path == q && self.subs@[j].scope == s);
                        } else {
                            assert(keep && sub.path == q && sub.scope == s);
                            assert(self.subs@[i as int].path == q && self.subs@[i as int].scope
                                == s && s != scope);
                        }
                    }
                    if exists|j: int|
                        0 <= j < i + 1 && (#[trigger] self.subs@[j]).path == q
                            && self.subs@[j].scope == s && s != scope {
                        let j = choose|j: int|
                            0 <= j < i + 1 && (#[trigger] self.subs@[j]).path == q
                                && self.subs@[j].scope == s && s != scope;
                        if j < i {
                            assert(subs_has(kept0, q, s));
                            assert(subs_has(kept@, q, s));
                        } else {
                            assert(keep && sub.path == q && sub.scope == s);
                            assert(subs_has(kept@, q, s));
                        }
                    }
                };
            }
            i += 1;
        }
        self.subs = kept;
        proof {
            assert forall|q: Path, s: u64| #[trigger]
                self.subscribed(q, s) <==> (old(self).subscribed(q, s) && s != scope) by {
                if self.subscribed(q, s) {
                    let j = choose|j: int|
                        0 <= j < old(self).subs@.len() && (#[trigger] old(self).subs@[j]).path == q
                            && old(self).subs@[j].scope == s && s != scope;
                    assert(old(self).subscribed(q, s));
                }
                if old(self).subscribed(q, s) && s != scope {
                    let j = choose|j: int|
                        0 <= j < old(self).subs@.len() && old(self).subs@[j].path == q && old(
                            self,
                        ).subs@[j].scope == s;
                    assert(old(self).subs@[j].path == q && old(self).subs@[j].scope == s && s
                        != scope);
                    assert(subs_has(self.subs@, q, s));
                }
            };
        }
    }
}

/// Appending inside one middle record's subtree never notifies a scope whose
/// subscriptions all lie inside a different middle record's subtree, and
/// appending a new middle record to the root notifies no scope subscribed
/// inside any record's subtree: sibling subtrees are unaffected.
pub proof fn lemma_sibling_isolation(s: Store, m1: u128, m2: u128, scope: u64)
    requires
        m1 != m2,
        forall|q: Path| #[trigger] s.subscribed(q, scope) ==> within_mid(q, m2),
    ensures
        !s.notifies((Path::Children { mid: m1 }), scope),
        !s.notifies(Path::Root, scope),
{
    if s.notifies((Path::Children { mid: m1 }), scope) {
        let q = choose|q: Path| s.subscribed(q, scope) && observes(q, (Path::Children { mid: m1 }));
        assert(within_mid(q, m2));
        assert(false);
    }
    if s.notifies(Path::Root, scope) {
        let q = choose|q: Path| s.subscribed(q, scope) && observes(q, Path::Root);
        assert(within_mid(q, m2));
        assert(false);
    }
}

/// Reading the same field twice without an intervening write is idempotent.
/// Here `s1` is any state one read of `path` by `scope` can leave behind,
/// per the read contracts: the root unchanged, the subscription recorded.
/// A second read of the same field then changes nothing — it records no
/// duplicate subscription — and, the root being unchanged and every read's
/// result being a function of the root and the path alone, it returns a
/// value equal to the first.
pub proof fn lemma_read_idempotent(s0: Store, s1: Store, path: Path, scope: u64)
    requires
        s1.root == s0.root,
        s1.subs@ == subs_after_read(s0.subs@, path, scope),
    ensures
        subs_after_read(s1.subs@, path, scope) == s1.subs@,
        s1.spec_resolves(path) == s0.spec_resolves(path),
{
    if !subs_has(s0.subs@, path, scope) {
        assert(s1.subs@[s0.subs@.len() as int] == (Sub { path, scope }));
        assert(subs_has(s1.subs@, path, scope));
    }
}

} // verus!
