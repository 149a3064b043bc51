//! The keyed list renderer and the view tree. The renderer keeps a stable
//! one-to-one mapping from keys to view instances across renders: a key seen
//! before keeps exactly its instance, a new key gets a fresh instance, an
//! absent key's instance is dropped. The view tree retains one keyed list
//! for the middle records and one per rendered middle record's children, and
//! renders them into plain page descriptions.

use vstd::prelude::*;

use crate::records::Root;
use crate::records::Mid;

verus! {

/// One slot of a keyed list: the element's key and the identity of the view
/// instance rendering it.
#[derive(Clone, Copy, PartialEq, Eq, Structural, Debug)]
pub struct Entry {
    pub key: u128,
    pub inst: u64,
}

/// The keys of the entries are pairwise distinct.
pub open spec fn entry_keys_unique(es: Seq<Entry>) -> bool {
    forall|i: int, j: int| 0 <= i < j < es.len() ==> es[i].key != es[j].key
}

/// The instances of the entries are pairwise distinct.
pub open spec fn entry_insts_unique(es: Seq<Entry>) -> bool {
    forall|i: int, j: int| 0 <= i < j < es.len() ==> es[i].inst != es[j].inst
}

/// Every instance was allocated below the counter value `next`.
pub open spec fn insts_below(es: Seq<Entry>, next: u64) -> bool {
    forall|i: int| 0 <= i < es.len() ==> (#[trigger] es[i]).inst < next
}

/// A well-formed keyed list: keys and instances pairwise distinct, all
/// instances allocated below the counter.
pub open spec fn entries_wf(es: Seq<Entry>, next: u64) -> bool {
    entry_keys_unique(es) && entry_insts_unique(es) && insts_below(es, next)
}

/// Some entry carries the key `k`.
pub open spec fn has_key(es: Seq<Entry>, k: u128) -> bool {
    exists|i: int| 0 <= i < es.len() && es[i].key == k
}

/// Some entry maps the key `k` to the instance `inst`; under unique keys
/// this pins the instance rendering `k`.
pub open spec fn maps_to(es: Seq<Entry>, k: u128, inst: u64) -> bool {
    exists|i: int| 0 <= i < es.len() && es[i].key == k && es[i].inst == inst
}

/// The keys are pairwise distinct. Handing the renderer a duplicate key is a
/// programming error (it would break the key-to-instance mapping), so
/// reconciliation requires this.
pub open spec fn keys_unique(keys: Seq<u128>) -> bool {
    forall|i: int, j: int| 0 <= i < j < keys.len() ==> keys[i] != keys[j]
}

/// Under unique keys and unique instances, distinct keys map to distinct
/// instances.
proof fn lemma_maps_to_injective(es: Seq<Entry>, k1: u128, n1: u64, k2: u128, n2: u64)
    requires
        entry_keys_unique(es),
        entry_insts_unique(es),
        maps_to(es, k1, n1),
        maps_to(es, k2, n2),
        k1 != k2,
    ensures
        n1 != n2,
{
    let i1 = choose|i: int| 0 <= i < es.len() && es[i].key == k1 && es[i].inst == n1;
    let i2 = choose|i: int| 0 <= i < es.len() && es[i].key == k2 && es[i].inst == n2;
    assert(i1 != i2);
    if i1 < i2 {
        assert(es[i1].inst != es[i2].inst);
    } else {
        assert(es[i2].inst != es[i1].inst);
    }
}

/// A mapped instance lies below any counter the list is well formed for.
proof fn lemma_maps_to_below(es: Seq<Entry>, k: u128, n: u64, next: u64)
    requires
        insts_below(es, next),
        maps_to(es, k, n),
    ensures
        n < next,
{
    let i = choose|i: int| 0 <= i < es.len() && es[i].key == k && es[i].inst == n;
    assert(es[i].inst < next);
}

/// Runtime test that a key sequence is free of duplicates, for callers that
/// do not already know it.
pub fn check_keys_unique(keys: &Vec<u128>) -> (r: bool)
    ensures
        r == keys_unique(keys@),
{
    let mut i: usize = 0;
    while i < keys.len()
        invariant
            i <= keys@.len(),
            forall|a: int, b: int| 0 <= a < b < i ==> keys@[a] != keys@[b],
        decreases keys@.len() - i,
    {
        let mut j: usize = 0;
        while j < i
            invariant
                j <= i < keys@.len(),
                forall|a: int| 0 <= a < j ==> keys@[a] != keys@[i as int],
            decreases i - j,
        {
            if keys[j] == keys[i] {
                return false;
            }
            j += 1;
        }
        i += 1;
    }
    true
}

fn find_entry(es: &Vec<Entry>, k: u128) -> (r: Option<u64>)
    ensures
        match r {
            Some(inst) => maps_to(es@, k, inst),
            None => !has_key(es@, k),
        },
{
    let mut i: usize = 0;
    while i < es.len()
        invariant
            i <= es@.len(),
            forall|j: int| 0 <= j < i ==> (#[trigger] es@[j]).key != k,
        decreases es@.len() - i,
    {
        if es[i].key == k {
            return Some(es[i].inst);
        }
        i += 1;
    }
    None
}

/// One reconciliation of a keyed list against the keys now present, in
/// order. For each position, a key already rendered keeps exactly its
/// instance; a new key gets a fresh instance, allocated from the counter;
/// the instance of a key no longer present is dropped. Repositioning an
/// existing key keeps its instance: reuse goes by key, not by position.
pub fn reconcile(entries: &mut Vec<Entry>, keys: &Vec<u128>, next: &mut u64)
    requires
        entries_wf(old(entries)@, *old(next)),
        keys_unique(keys@),
        *old(next) + keys@.len() <= u64::MAX,
    ensures
        entries_wf(final(entries)@, *final(next)),
        *old(next) <= *final(next) <= *old(next) + keys@.len(),
        final(entries)@.len() == keys@.len(),
        forall|i: int| 0 <= i < keys@.len() ==> (#[trigger] final(entries)@[i]).key == keys@[i],
        forall|i: int|
            0 <= i < keys@.len() && has_key(old(entries)@, keys@[i]) ==> maps_to(
                old(entries)@,
                keys@[i],
                final(entries)@[i].inst,
            ),
        forall|i: int|
            0 <= i < keys@.len() && !has_key(old(entries)@, keys@[i])
                ==> (#[trigger] final(entries)@[i]).inst >= *old(next),
{
    let mut fresh: Vec<Entry> = Vec::new();
    let mut i: usize = 0;
    while i < keys.len()
        invariant
            i <= keys@.len(),
            entries@ == old(entries)@,
            entries_wf(entries@, *old(next)),
            keys_unique(keys@),
            *old(next) + keys@.len() <= u64::MAX,
            *old(next) <= *next,
            *next <= *old(next) + i,
            fresh@.len() == i,
            forall|j: int| 0 <= j < i ==> (#[trigger] fresh@[j]).key == keys@[j],
            forall|j: int|
                0 <= j < i && has_key(entries@, keys@[j]) ==> maps_to(
                    entries@,
                    keys@[j],
                    fresh@[j].inst,
                ),
            forall|j: int|
                0 <= j < i && !has_key(entries@, keys@[j])
                    ==> (#[trigger] fresh@[j]).inst >= *old(next),
            insts_below(fresh@, *next),
            entry_insts_unique(fresh@),
        decreases keys@.len() - i,
    {
        let k = keys[i];
        let ghost pre = fresh@;
        let ghost next0 = *next;
        let found = find_entry(entries, k);
        match found {
            Some(inst) => {
                fresh.push(Entry { key: k, inst });
                proof {
                    lemma_maps_to_below(entries@, k, inst, next0);
                    assert forall|a: int, b: int|
                        0 <= a < b < fresh@.len() implies fresh@[a].inst != fresh@[b].inst by {
                        if b == pre.len() as int {
                            if has_key(entries@, keys@[a]) {
                                lemma_maps_to_injective(
                                    entries@,
                                    keys@[a],
                                    pre[a].inst,
                                    k,
                                    inst,
                                );
                            } else {
                                lemma_maps_to_below(entries@, k, inst, *old(next));
                            }
                        } else {
                            assert(pre[a].inst != pre[b].inst);
                        }
                    };
                }
            },
            None => {
                let inst = *next;
                *next = *next + 1;
                fresh.push(Entry { key: k, inst });
                proof {
                    assert forall|a: int, b: int|
                        0 <= a < b < fresh@.len() implies fresh@[a].inst != fresh@[b].inst by {
                        if b == pre.len() as int {
                            assert(pre[a].inst < next0);
                        } else {
                            assert(pre[a].inst != pre[b].inst);
                        }
                    };
                }
            },
        }
        i += 1;
    }
    *entries = fresh;
    proof {
        assert forall|a: int, b: int|
            0 <= a < b < entries@.len() implies entries@[a].key != entries@[b].key by {
            assert(keys@[a] != keys@[b]);
        };
    }
}

/// Key stability: when an earlier reconciliation produced `before` and a
/// later one renders the same keys, in order, followed by one new key, every
/// earlier key keeps exactly its instance, and the new key is rendered by an
/// instance that no earlier key had. The hypotheses on `after` are the
/// reconciliation contract, so this holds of any two such successive renders.
pub proof fn lemma_key_stability(
    before: Seq<Entry>,
    before_next: u64,
    after: Seq<Entry>,
    keys: Seq<u128>,
)
    requires
        entries_wf(before, before_next),
        keys_unique(keys),
        keys.len() == before.len() + 1,
        forall|i: int| 0 <= i < before.len() ==> keys[i] == (#[trigger] before[i]).key,
        after.len() == keys.len(),
        forall|i: int| 0 <= i < keys.len() ==> (#[trigger] after[i]).key == keys[i],
        forall|i: int|
            0 <= i < keys.len() && has_key(before, keys[i]) ==> maps_to(
                before,
                keys[i],
                after[i].inst,
            ),
        forall|i: int|
            0 <= i < keys.len() && !has_key(before, keys[i])
                ==> (#[trigger] after[i]).inst >= before_next,
    ensures
        forall|i: int| 0 <= i < before.len() ==> (#[trigger] after[i]).inst == before[i].inst,
        forall|i: int|
            0 <= i < before.len() ==> after[before.len() as int].inst != (#[trigger] before[i]).inst,
{
    let n = before.len() as int;
    assert forall|i: int| 0 <= i < n implies (#[trigger] after[i]).inst == before[i].inst by {
        assert(before[i].key == keys[i]);
        assert(has_key(before, keys[i]));
        assert(maps_to(before, keys[i], after[i].inst));
        let j = choose|j: int|
            0 <= j < before.len() && before[j].key == keys[i] && before[j].inst == after[i].inst;
        if j != i {
            if j < i {
                assert(before[j].key != before[i].key);
            } else {
                assert(before[i].key != before[j].key);
            }
            assert(false);
        }
    };
    if has_key(before, keys[n]) {
        let j = choose|j: int| 0 <= j < before.len() && before[j].key == keys[n];
        assert(keys[j] == keys[n]);
        assert(false);
    }
    assert(after[n].inst >= before_next);
    assert forall|i: int| 0 <= i < n implies after[n].inst != (#[trigger] before[i]).inst by {
        assert(before[i].inst < before_next);
    };
}

/// One rendered innermost view: the child's identifier it displays and the
/// identity of the instance rendering it.
#[derive(Clone, Copy, PartialEq, Eq, Structural, Debug)]
pub struct LeafViewDesc {
    pub leaf_id: u128,
    pub inst: u64,
}

/// One rendered middle view: the record's identifier it displays, the
/// identity of the instance rendering it, and the views of its children,
/// in order.
#[derive(Debug)]
pub struct MidViewDesc {
    pub mid_id: u128,
    pub inst: u64,
    pub leaves: Vec<LeafViewDesc>,
}

/// The keyed list retained for one rendered middle record's children.
#[derive(Debug)]
pub struct ChildList {
    pub mid: u128,
    pub entries: Vec<Entry>,
}

/// The middle records' identifiers in the retained child lists are pairwise
/// distinct.
pub open spec fn child_mids_unique(cs: Seq<ChildList>) -> bool {
    forall|i: int, j: int| 0 <= i < j < cs.len() ==> cs[i].mid != cs[j].mid
}

/// The keyed entries retained for the middle record `mid`, if that record
/// was rendered: the first matching list (the only one, under uniqueness).
pub open spec fn spec_child(cs: Seq<ChildList>, mid: u128) -> Option<Seq<Entry>>
    decreases cs.len(),
{
    if cs.len() == 0 {
        None
    } else if cs[0].mid == mid {
        Some(cs[0].entries@)
    } else {
        spec_child(cs.drop_first(), mid)
    }
}

proof fn lemma_spec_child_at(cs: Seq<ChildList>, mid: u128, k: int)
    requires
        child_mids_unique(cs),
        0 <= k < cs.len(),
        cs[k].mid == mid,
    ensures
        spec_child(cs, mid) == Some(cs[k].entries@),
    decreases k,
{
    if k == 0 {
    } else {
        let t = cs.drop_first();
        assert(cs[0].mid != mid);
        assert forall|a: int, b: int| 0 <= a < b < t.len() implies t[a].mid != t[b].mid by {
            assert(cs[a + 1].mid != cs[b + 1].mid);
        };
        assert(t[k - 1] == cs[k]);
        lemma_spec_child_at(t, mid, k - 1);
    }
}

proof fn lemma_spec_child_none(cs: Seq<ChildList>, mid: u128)
    requires
        forall|i: int| 0 <= i < cs.len() ==> (#[trigger] cs[i]).mid != mid,
    ensures
        spec_child(cs, mid) is None,
    decreases cs.len(),
{
    if cs.len() > 0 {
        let t = cs.drop_first();
        assert forall|i: int| 0 <= i < t.len() implies (#[trigger] t[i]).mid != mid by {
            assert(cs[i + 1].mid != mid);
        };
        lemma_spec_child_none(t, mid);
    }
}

/// The total number of innermost records under `items`.
pub open spec fn count_leaves(items: Seq<Mid>) -> nat
    decreases items.len(),
{
    if items.len() == 0 {
        0
    } else {
        items[0].children@.len() + count_leaves(items.drop_first())
    }
}

proof fn lemma_count_leaves_skip(items: Seq<Mid>, i: int)
    requires
        0 <= i < items.len(),
    ensures
        count_leaves(items.skip(i)) == items[i].children@.len() + count_leaves(items.skip(i + 1)),
    decreases i,
{
    if i == 0 {
        assert(items.skip(0) =~= items);
        assert(items.drop_first() =~= items.skip(1));
    } else {
        let t = items.drop_first();
        lemma_count_leaves_skip(t, i - 1);
        assert(items.skip(i) =~= t.skip(i - 1));
        assert(items.skip(i + 1) =~= t.skip(i));
    }
}

proof fn lemma_entries_wf_monotone(es: Seq<Entry>, a: u64, b: u64)
    requires
        entries_wf(es, a),
        a <= b,
    ensures
        entries_wf(es, b),
{
    assert forall|i: int| 0 <= i < es.len() implies (#[trigger] es[i]).inst < b by {
        assert(es[i].inst < a);
    };
}

fn find_child(cs: &Vec<ChildList>, mid: u128) -> (r: Option<usize>)
    ensures
        match r {
            Some(k) => k < cs@.len() && cs@[k as int].mid == mid,
            None => forall|j: int| 0 <= j < cs@.len() ==> (#[trigger] cs@[j]).mid != mid,
        },
{
    let mut i: usize = 0;
    while i < cs.len()
        invariant
            i <= cs@.len(),
            forall|j: int| 0 <= j < i ==> (#[trigger] cs@[j]).mid != mid,
        decreases cs@.len() - i,
    {
        if cs[i].mid == mid {
            return Some(i);
        }
        i += 1;
    }
    None
}

fn copy_entries(src: &Vec<Entry>) -> (r: Vec<Entry>)
    ensures
        r@ == src@,
{
    let mut r: Vec<Entry> = Vec::new();
    let mut i: usize = 0;
    while i < src.len()
        invariant
            i <= src@.len(),
            r@ == src@.subrange(0, i as int),
        decreases src@.len() - i,
    {
        r.push(src[i]);
        proof {
            assert(r@ =~= src@.subrange(0, i as int + 1));
        }
        i += 1;
    }
    proof {
        assert(src@.subrange(0, src@.len() as int) =~= src@);
    }
    r
}

/// The retained view tree: the keyed list of the middle views, the keyed
/// child list of each rendered middle record, and the counter allocating
/// instance identities.
pub struct ViewTree {
    pub mids: Vec<Entry>,
    pub children: Vec<ChildList>,
    pub next_inst: u64,
}

impl ViewTree {
    pub open spec fn wf(self) -> bool {
        entries_wf(self.mids@, self.next_inst) && child_mids_unique(self.children@) && (forall|
            i: int,
        |
            0 <= i < self.children@.len() ==> entries_wf(
                (#[trigger] self.children@[i]).entries@,
                self.next_inst,
            ))
    }

    /// Whether the instance counter has room to render `root`, even if every
    /// record were new. A machine limit, not a design one: the counter never
    /// wraps.
    pub open spec fn spec_fits(self, root: Root) -> bool {
        self.next_inst + root.items@.len() + count_leaves(root.items@) <= u64::MAX
    }

    pub fn new() -> (r: ViewTree)
        ensures
            r.wf(),
            r.mids@.len() == 0,
            r.children@.len() == 0,
            r.next_inst == 0,
    {
        ViewTree { mids: Vec::new(), children: Vec::new(), next_inst: 0 }
    }

    /// Runtime test of `spec_fits`, for callers that do not already know it.
    pub fn fits(&self, root: &Root) -> (r: bool)
        ensures
            r == self.spec_fits(*root),
    {
        let n = root.items.len();
        let mut total: u128 = (self.next_inst as u128) + (n as u128);
        proof {
            assert(root.items@.skip(0) =~= root.items@);
        }
        if total > u64::MAX as u128 {
            return false;
        }
        let mut i: usize = 0;
        while i < n
            invariant
                i <= n,
                n == root.items@.len(),
                total <= u64::MAX as u128,
                self.spec_fits(*root) <==> total + count_leaves(root.items@.skip(i as int))
                    <= u64::MAX,
            decreases n - i,
        {
            let c = root.items[i].children.len();
            proof {
                lemma_count_leaves_skip(root.items@, i as int);
            }
            total = total + (c as u128);
            if total > u64::MAX as u128 {
                return false;
            }
            i += 1;
        }
        proof {
            assert(root.items@.skip(n as int) =~= Seq::<Mid>::empty());
        }
        true
    }

    /// Render the page: reconcile the list of middle views against the
    /// root's records, and each retained child list against its record's
    /// children. A record rendered before keeps exactly its instance; a new
    /// record gets an instance fresh against everything rendered before; the
    /// rendered views mirror the records one to one, in insertion order.
    pub fn render(&mut self, root: &Root) -> (page: Vec<MidViewDesc>)
        requires
            old(self).wf(),
            root.wf(),
            old(self).spec_fits(*root),
        ensures
            final(self).wf(),
            final(self).next_inst >= old(self).next_inst,
            page@.len() == root.items@.len(),
            forall|i: int|
                0 <= i < page@.len() ==> (#[trigger] page@[i]).mid_id == root.items@[i].id,
            forall|i: int|
                0 <= i < page@.len() ==> (#[trigger] page@[i]).leaves@.len()
                    == root.items@[i].children@.len(),
            forall|i: int, j: int|
                0 <= i < page@.len() && 0 <= j < page@[i].leaves@.len()
                    ==> (#[trigger] page@[i].leaves@[j]).leaf_id == root.items@[i].children@[j].id,
            forall|i: int|
                0 <= i < page@.len() && has_key(old(self).mids@, root.items@[i].id) ==> maps_to(
                    old(self).mids@,
                    root.items@[i].id,
                    (#[trigger] page@[i]).inst,
                ),
            forall|i: int|
                0 <= i < page@.len() && !has_key(old(self).mids@, root.items@[i].id)
                    ==> (#[trigger] page@[i]).inst >= old(self).next_inst,
            forall|i: int, j: int|
                0 <= i < j < page@.len() ==> page@[i].inst != page@[j].inst,
            forall|i: int, j: int|
                0 <= i < page@.len() && 0 <= j < page@[i].leaves@.len() ==> match spec_child(
                    old(self).children@,
                    root.items@[i].id,
                ) {
                    Some(es) => {
                        if has_key(es, root.items@[i].children@[j].id) {
                            maps_to(
                                es,
                                root.items@[i].children@[j].id,
                                (#[trigger] page@[i].leaves@[j]).inst,
                            )
                        } else {
                            page@[i].leaves@[j].inst >= old(self).next_inst
                        }
                    },
                    None => page@[i].leaves@[j].inst >= old(self).next_inst,
                },
            forall|i: int, j1: int, j2: int|
                0 <= i < page@.len() && 0 <= j1 < j2 < page@[i].leaves@.len()
                    ==> page@[i].leaves@[j1].inst != page@[i].leaves@[j2].inst,
    {
        let ghost old_next = self.next_inst;
        let n = root.items.len();

        let mut keys: Vec<u128> = Vec::new();
        let mut i: usize = 0;
        while i < n
            invariant
                i <= n,
                n == root.items@.len(),
                keys@.len() == i,
                forall|j: int| 0 <= j < i ==> keys@[j] == (#[trigger] root.items@[j]).id,
            decreases n - i,
        {
            keys.push(root.items[i].id);
            i += 1;
        }
        proof {
            assert forall|a: int, b: int| 0 <= a < b < keys@.len() implies keys@[a] != keys@[b] by {
                assert(root.items@[a].id != root.items@[b].id);
            };
            assert(root.items@.skip(0) =~= root.items@);
        }
        reconcile(&mut self.mids, &keys, &mut self.next_inst);
        let ghost mids_now = self.mids@;

        let mut page: Vec<MidViewDesc> = Vec::new();
        let mut new_children: Vec<ChildList> = Vec::new();
        let mut i: usize = 0;
        while i < n
            invariant
                i <= n,
                n == root.items@.len(),
                root.wf(),
                self.mids@ == mids_now,
                mids_now.len() == n,
                self.children@ == old(self).children@,
                old(self).wf(),
                old_next == old(self).next_inst,
                old_next <= self.next_inst,
                entries_wf(self.mids@, self.next_inst),
                self.next_inst + count_leaves(root.items@.skip(i as int)) <= u64::MAX,
                page@.len() == i,
                new_children@.len() == i,
                forall|j: int|
                    0 <= j < i ==> (#[trigger] new_children@[j]).mid == root.items@[j].id,
                forall|j: int|
                    0 <= j < i ==> entries_wf(
                        (#[trigger] new_children@[j]).entries@,
                        self.next_inst,
                    ),
                forall|j: int|
                    0 <= j < i ==> (#[trigger] page@[j]).mid_id == root.items@[j].id && page@[
                        j
                    ].inst == mids_now[j].inst,
                forall|j: int|
                    0 <= j < i ==> (#[trigger] page@[j]).leaves@.len()
                        == root.items@[j].children@.len(),
                forall|j: int, l: int|
                    0 <= j < i && 0 <= l < page@[j].leaves@.len()
                        ==> (#[trigger] page@[j].leaves@[l]).leaf_id
                            == root.items@[j].children@[l].id,
                forall|j: int, l: int|
                    0 <= j < i && 0 <= l < page@[j].leaves@.len() ==> match spec_child(
                        old(self).children@,
                        root.items@[j].id,
                    ) {
                        Some(es) => {
                            if has_key(es, root.items@[j].children@[l].id) {
                                maps_to(
                                    es,
                                    root.items@[j].children@[l].id,
                                    (#[trigger] page@[j].leaves@[l]).inst,
                                )
                            } else {
                                page@[j].leaves@[l].inst >= old_next
                            }
                        },
                        None => page@[j].leaves@[l].inst >= old_next,
                    },
                forall|j: int, l1: int, l2: int|
                    0 <= j < i && 0 <= l1 < l2 < page@[j].leaves@.len()
                        ==> page@[j].leaves@[l1].inst != page@[j].leaves@[l2].inst,
            decreases n - i,
        {
            let m_id = root.items[i].id;
            proof {
                lemma_count_leaves_skip(root.items@, i as int);
            }

            let found = find_child(&self.children, m_id);
            let mut entries: Vec<Entry> = match found {
                Some(k) => copy_entries(&self.children[k].entries),
                None => Vec::new(),
            };
            let ghost es0 = entries@;
            proof {
                match found {
                    Some(k) => {
                        lemma_spec_child_at(self.children@, m_id, k as int);
                        lemma_entries_wf_monotone(es0, old_next, self.next_inst);
                    },
                    None => {
                        lemma_spec_child_none(self.children@, m_id);
                    },
                }
            }

            let mut ckeys: Vec<u128> = Vec::new();
            let mut c: usize = 0;
            let clen = root.items[i].children.len();
            while c < clen
                invariant
                    c <= clen,
                    0 <= i < root.items@.len(),
                    clen == root.items@[i as int].children@.len(),
                    ckeys@.len() == c,
                    forall|l: int|
                        0 <= l < c ==> ckeys@[l] == (#[trigger] root.items@[i as int].children@[
                            l
                        ]).id,
                decreases clen - c,
            {
                ckeys.push(root.items[i].children[c].id);
                c += 1;
            }
            proof {
                assert(root.items@[i as int].wf());
                assert forall|a: int, b: int|
                    0 <= a < b < ckeys@.len() implies ckeys@[a] != ckeys@[b] by {
                    assert(root.items@[i as int].children@[a].id != root.items@[i as int].children@[
                        b
                    ].id);
                };
            }

            let ghost next_b = self.next_inst;
            reconcile(&mut entries, &ckeys, &mut self.next_inst);

            let mut leaves: Vec<LeafViewDesc> = Vec::new();
            let mut l: usize = 0;
            while l < entries.len()
                invariant
                    l <= entries@.len(),
                    leaves@.len() == l,
                    forall|x: int|
                        0 <= x < l ==> (#[trigger] leaves@[x]).leaf_id == entries@[x].key
                            && leaves@[x].inst == entries@[x].inst,
                decreases entries@.len() - l,
            {
                let e = entries[l];
                leaves.push(LeafViewDesc { leaf_id: e.key, inst: e.inst });
                l += 1;
            }

            let m_inst = self.mids[i].inst;
            let ghost pre_children = new_children@;
            page.push(MidViewDesc { mid_id: m_id, inst: m_inst, leaves });
            new_children.push(ChildList { mid: m_id, entries });
            proof {
                let ii = i as int;
                assert forall|j: int|
                    0 <= j < ii + 1 implies entries_wf(
                        (#[trigger] new_children@[j]).entries@,
                        self.next_inst,
                    ) by {
                    if j < ii {
                        lemma_entries_wf_monotone(pre_children[j].entries@, next_b, self.next_inst);
                    }
                };
                lemma_entries_wf_monotone(mids_now, next_b, self.next_inst);
            }
            i += 1;
        }
        self.children = new_children;
        proof {
            assert forall|a: int, b: int|
                0 <= a < b < self.children@.len() implies self.children@[a].mid
                != self.children@[b].mid by {
                assert(root.items@[a].id != root.items@[b].id);
            };
            assert forall|a: int, b: int|
                0 <= a < b < page@.len() implies page@[a].inst != page@[b].inst by {
                assert(mids_now[a].inst != mids_now[b].inst);
            };
        }
        page
    }
}

} // verus!
