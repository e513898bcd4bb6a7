//! A list that tracks modifications, and a list view over it.

use vstd::prelude::*;

use crate::id::{Id, IdSource};

verus! {

/// One element of a `ListData`: its value, an id that stays with it for
/// its whole life, and an id that changes on each modification.
pub struct ListItem<T> {
    pub stable_id: Id,
    pub rev_id: Id,
    pub val: T,
}

/// A vector that tracks modifications.
///
/// Each element carries a stable id, for tracking insertions and
/// deletions, and a revision id, for tracking updates. Stable ids are
/// distinct, and every id was issued by the list's own id source.
pub struct ListData<T> {
    items: Vec<ListItem<T>>,
    ids: IdSource,
}

/// A list view component: the selection, and what the view showed last.
pub struct List {
    selected: Option<Id>,
    old_selected: Option<Id>,
    items: Vec<(Id, Id)>,
}

impl<T> ListItem<T> {
    /// A new item, whose stable and revision ids are one fresh id.
    pub fn new(val: T, ids: &mut IdSource) -> (r: ListItem<T>)
        requires
            old(ids).next < u64::MAX,
        ensures
            r.stable_id.0 == old(ids).next,
            r.rev_id == r.stable_id,
            r.val == val,
            final(ids).next == old(ids).next + 1,
    {
        let id = Id::new(ids);
        ListItem { stable_id: id, rev_id: id, val }
    }
}

impl<T> View for ListData<T> {
    type V = Seq<ListItem<T>>;

    closed spec fn view(&self) -> Seq<ListItem<T>> {
        self.items@
    }
}

impl<T> ListData<T> {
    /// The value the list's id source will issue next.
    pub closed spec fn next_id(&self) -> nat {
        self.ids.next as nat
    }

    /// Stable ids are distinct, and all ids are below `next_id`.
    pub open spec fn wf(&self) -> bool {
        &&& forall|i: int, j: int|
            0 <= i < j < self@.len() ==> self@[i].stable_id != self@[j].stable_id
        &&& forall|i: int|
            0 <= i < self@.len() ==> (#[trigger] self@[i]).stable_id.value() < self.next_id()
                && self@[i].rev_id.value() < self.next_id()
    }

    /// An empty list.
    pub fn new() -> (r: ListData<T>)
        ensures
            r.wf(),
            r@.len() == 0,
            r.next_id() == 0,
    {
        ListData { items: Vec::new(), ids: IdSource::new() }
    }

    /// Whether another element can be added or modified.
    pub fn can_issue(&self) -> (r: bool)
        ensures
            r == (self.next_id() < u64::MAX),
    {
        self.ids.can_issue()
    }

    pub fn len(&self) -> (r: usize)
        ensures
            r == self@.len(),
    {
        self.items.len()
    }

    /// Append a value, with a fresh id.
    pub fn push(&mut self, val: T)
        requires
            old(self).wf(),
            old(self).next_id() < u64::MAX,
        ensures
            final(self).wf(),
            final(self).next_id() == old(self).next_id() + 1,
            final(self)@ == old(self)@.push(
                ListItem { stable_id: Id(old(self).next_id() as u64), rev_id: Id(old(self).next_id() as u64), val },
            ),
    {
        let item = ListItem::new(val, &mut self.ids);
        self.items.push(item);
        proof {
            let s = self@;
            assert forall|i: int| 0 <= i < s.len() implies (#[trigger] s[i]).stable_id.value()
                < self.next_id() && s[i].rev_id.value() < self.next_id() by {
                if i < s.len() - 1 {
                    assert(s[i] == old(self)@[i]);
                }
            }
        }
    }

    /// Insert a value at `ix`, with a fresh id.
    pub fn insert_at_ix(&mut self, ix: usize, val: T)
        requires
            old(self).wf(),
            old(self).next_id() < u64::MAX,
            ix <= old(self)@.len(),
        ensures
            final(self).wf(),
            final(self).next_id() == old(self).next_id() + 1,
            final(self)@ == old(self)@.insert(
                ix as int,
                ListItem { stable_id: Id(old(self).next_id() as u64), rev_id: Id(old(self).next_id() as u64), val },
            ),
    {
        let item = ListItem::new(val, &mut self.ids);
        self.items.insert(ix, item);
        proof {
            let s = self@;
            assert forall|i: int, j: int| 0 <= i < j < s.len() implies s[i].stable_id
                != s[j].stable_id by {
                if i == ix || j == ix {
                } else {
                    let oi = if i < ix { i } else { i - 1 };
                    let oj = if j < ix { j } else { j - 1 };
                    assert(s[i] == old(self)@[oi]);
                    assert(s[j] == old(self)@[oj]);
                }
            }
            assert forall|i: int| 0 <= i < s.len() implies (#[trigger] s[i]).stable_id.value()
                < self.next_id() && s[i].rev_id.value() < self.next_id() by {
                if i < ix {
                    assert(s[i] == old(self)@[i]);
                } else if i > ix {
                    assert(s[i] == old(self)@[i - 1]);
                }
            }
        }
    }

    /// Remove the value at `ix`.
    pub fn remove_at_ix(&mut self, ix: usize)
        requires
            old(self).wf(),
            ix < old(self)@.len(),
        ensures
            final(self).wf(),
            final(self).next_id() == old(self).next_id(),
            final(self)@ == old(self)@.remove(ix as int),
    {
        let _ = self.items.remove(ix);
        proof {
            let s = self@;
            assert forall|i: int, j: int| 0 <= i < j < s.len() implies s[i].stable_id
                != s[j].stable_id by {
                let oi = if i < ix { i } else { i + 1 };
                let oj = if j < ix { j } else { j + 1 };
                assert(s[i] == old(self)@[oi]);
                assert(s[j] == old(self)@[oj]);
            }
            assert forall|i: int| 0 <= i < s.len() implies (#[trigger] s[i]).stable_id.value()
                < self.next_id() && s[i].rev_id.value() < self.next_id() by {
                let oi = if i < ix { i } else { i + 1 };
                assert(s[i] == old(self)@[oi]);
            }
        }
    }

    /// Replace the value at `ix`; it gets a fresh revision id.
    pub fn set_at_ix(&mut self, ix: usize, val: T)
        requires
            old(self).wf(),
            old(self).next_id() < u64::MAX,
            ix < old(self)@.len(),
        ensures
            final(self).wf(),
            final(self).next_id() == old(self).next_id() + 1,
            final(self)@ == old(self)@.update(
                ix as int,
                ListItem { stable_id: old(self)@[ix as int].stable_id, rev_id: Id(old(self).next_id() as u64), val },
            ),
    {
        let rev_id = Id::new(&mut self.ids);
        let stable_id = self.items[ix].stable_id;
        self.items.set(ix, ListItem { stable_id, rev_id, val });
        proof {
            let s = self@;
            assert forall|i: int, j: int| 0 <= i < j < s.len() implies s[i].stable_id
                != s[j].stable_id by {
                assert(s[i].stable_id == old(self)@[i].stable_id);
                assert(s[j].stable_id == old(self)@[j].stable_id);
            }
            assert forall|i: int| 0 <= i < s.len() implies (#[trigger] s[i]).stable_id.value()
                < self.next_id() && s[i].rev_id.value() < self.next_id() by {
                if i != ix {
                    assert(s[i] == old(self)@[i]);
                }
            }
        }
    }

    pub fn stable_id_at_ix(&self, ix: usize) -> (r: Id)
        requires
            ix < self@.len(),
        ensures
            r == self@[ix as int].stable_id,
    {
        self.items[ix].stable_id
    }

    pub fn rev_id_at_ix(&self, ix: usize) -> (r: Id)
        requires
            ix < self@.len(),
        ensures
            r == self@[ix as int].rev_id,
    {
        self.items[ix].rev_id
    }

    pub fn get_at_ix(&self, ix: usize) -> (r: &T)
        requires
            ix < self@.len(),
        ensures
            *r == self@[ix as int].val,
    {
        &self.items[ix].val
    }

    /// The position of the element with stable id `id`.
    pub fn find_id(&self, id: Id) -> (r: Option<usize>)
        requires
            self.wf(),
        ensures
            match r {
                Some(i) => i < self@.len() && self@[i as int].stable_id == id,
                None => forall|i: int| 0 <= i < self@.len() ==> self@[i].stable_id != id,
            },
    {
        let mut i: usize = 0;
        while i < self.items.len()
            invariant
                i <= self@.len(),
                forall|k: int| 0 <= k < i ==> self@[k].stable_id != id,
            decreases self.items.len() - i,
        {
            if self.items[i].stable_id == id {
                return Some(i);
            }
            i = i + 1;
        }
        None
    }

    /// Exchange the elements at `ix_a` and `ix_b`.
    pub fn swap(&mut self, ix_a: usize, ix_b: usize)
        requires
            old(self).wf(),
            ix_a < old(self)@.len(),
            ix_b < old(self)@.len(),
        ensures
            final(self).wf(),
            final(self).next_id() == old(self).next_id(),
            final(self)@ == old(self)@.update(ix_a as int, old(self)@[ix_b as int]).update(
                ix_b as int,
                old(self)@[ix_a as int],
            ),
    {
        if ix_a == ix_b {
            assert(self@ =~= old(self)@.update(ix_a as int, old(self)@[ix_b as int]).update(
                ix_b as int,
                old(self)@[ix_a as int],
            ));
            return;
        }
        let (lo, hi) = if ix_a < ix_b {
            (ix_a, ix_b)
        } else {
            (ix_b, ix_a)
        };
        let b = self.items.remove(hi);
        let a = self.items.remove(lo);
        self.items.insert(lo, b);
        self.items.insert(hi, a);
        proof {
            let o = old(self)@;
            let goal = o.update(ix_a as int, o[ix_b as int]).update(ix_b as int, o[ix_a as int]);
            assert(self@ =~= goal);
            let s = self@;
            assert forall|i: int, j: int| 0 <= i < j < s.len() implies s[i].stable_id
                != s[j].stable_id by {
                let oi = if i == lo { hi as int } else if i == hi { lo as int } else { i };
                let oj = if j == lo { hi as int } else if j == hi { lo as int } else { j };
                assert(s[i] == o[oi]);
                assert(s[j] == o[oj]);
            }
            assert forall|i: int| 0 <= i < s.len() implies (#[trigger] s[i]).stable_id.value()
                < self.next_id() && s[i].rev_id.value() < self.next_id() by {
                let oi = if i == lo { hi as int } else if i == hi { lo as int } else { i };
                assert(s[i] == o[oi]);
            }
        }
    }
}

impl<T> Default for ListData<T> {
    fn default() -> (r: ListData<T>)
        ensures
            r.wf(),
            r@.len() == 0,
            r.next_id() == 0,
    {
        ListData::new()
    }
}

impl Default for List {
    fn default() -> (r: List)
        ensures
            r.selected_spec() is None,
    {
        List::new()
    }
}

impl List {
    /// A list view with nothing selected and nothing shown yet.
    pub fn new() -> (r: List)
        ensures
            r.selected_spec() is None,
    {
        List { selected: None, old_selected: None, items: Vec::new() }
    }

    pub closed spec fn selected_spec(&self) -> Option<Id> {
        self.selected
    }

    /// Select the element with stable id `id`, or nothing.
    pub fn select(&mut self, id: Option<Id>)
        ensures
            final(self).selected_spec() == id,
    {
        self.selected = id;
    }

    /// The current selected element, if any.
    pub fn selected(&self) -> (r: Option<Id>)
        ensures
            r == self.selected_spec(),
    {
        self.selected
    }
}

} // verus!
