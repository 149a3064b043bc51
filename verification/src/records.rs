//! The record model: a root collection of middle records, each owning an
//! ordered collection of innermost records. Records are only ever created
//! and appended, never edited, reordered or removed.

use vstd::prelude::*;

use crate::ids::id_text;
use crate::ids::render_id;

verus! {

/// An innermost record: an identifier, immutable once created.
#[derive(Clone, Copy, PartialEq, Eq, Structural, Debug)]
pub struct Leaf {
    pub id: u128,
}

/// A middle record: an identifier and the ordered children it owns.
/// No child is shared between two middle records.
#[derive(Debug)]
pub struct Mid {
    pub id: u128,
    pub children: Vec<Leaf>,
}

/// The root: the ordered collection of middle records it owns.
#[derive(Debug)]
pub struct Root {
    pub items: Vec<Mid>,
}

/// The identifiers of a child collection are pairwise distinct.
pub open spec fn leaves_unique(children: Seq<Leaf>) -> bool {
    forall|i: int, j: int|
        0 <= i < j < children.len() ==> children[i].id != children[j].id
}

/// The identifiers of the middle records are pairwise distinct.
pub open spec fn mids_unique(items: Seq<Mid>) -> bool {
    forall|i: int, j: int| 0 <= i < j < items.len() ==> items[i].id != items[j].id
}

/// Some middle record in `items` carries the identifier `id`.
pub open spec fn has_mid(items: Seq<Mid>, id: u128) -> bool {
    exists|i: int| 0 <= i < items.len() && items[i].id == id
}

/// Some child in `children` carries the identifier `id`.
pub open spec fn has_leaf(children: Seq<Leaf>, id: u128) -> bool {
    exists|i: int| 0 <= i < children.len() && children[i].id == id
}

/// The index of the middle record carrying `id`; meaningful when
/// `has_mid(items, id)` holds and `mids_unique(items)` pins it down.
pub open spec fn mid_index(items: Seq<Mid>, id: u128) -> int {
    choose|i: int| 0 <= i < items.len() && items[i].id == id
}

/// Under uniqueness, any index whose record carries `id` is `mid_index`.
pub proof fn lemma_mid_index(items: Seq<Mid>, id: u128, i: int)
    requires
        mids_unique(items),
        0 <= i < items.len(),
        items[i].id == id,
    ensures
        has_mid(items, id),
        mid_index(items, id) == i,
{
    assert(has_mid(items, id));
    let j = mid_index(items, id);
    assert(0 <= j < items.len() && items[j].id == id);
    if i != j {
        assert(items[i].id != items[j].id);
    }
}

impl Leaf {
    pub fn new(id: u128) -> (r: Leaf)
        ensures
            r.id == id,
    {
        Leaf { id }
    }

    /// The record's identifier in its hyphenated text form.
    pub fn show(&self) -> (r: String)
        ensures
            r@ == id_text(self.id),
            r@.len() == 36,
    {
        render_id(self.id)
    }
}

impl Mid {
    /// A middle record is well formed when its children's identifiers are
    /// pairwise distinct.
    pub open spec fn wf(self) -> bool {
        leaves_unique(self.children@)
    }

    pub fn new(id: u128, children: Vec<Leaf>) -> (r: Mid)
        ensures
            r.id == id,
            r.children@ == children@,
    {
        Mid { id, children }
    }

    /// The record's identifier in its hyphenated text form.
    pub fn show(&self) -> (r: String)
        ensures
            r@ == id_text(self.id),
            r@.len() == 36,
    {
        render_id(self.id)
    }
}

impl Root {
    /// The root is well formed when its middle records carry pairwise
    /// distinct identifiers and each of them is itself well formed.
    pub open spec fn wf(self) -> bool {
        mids_unique(self.items@)
            && (forall|i: int| 0 <= i < self.items@.len() ==> (#[trigger] self.items@[i]).wf())
    }

    pub fn new(items: Vec<Mid>) -> (r: Root)
        ensures
            r.items@ == items@,
    {
        Root { items }
    }
}

} // verus!
