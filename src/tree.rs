//! A tree of items, stored as a flat list of slots.

use vstd::prelude::*;

use crate::id::{Id, IdSource};
use crate::key::Key;
use crate::payload::Payload;

verus! {

/// One node of the tree.
#[derive(Debug)]
pub struct Item {
    pub key: Key,
    pub id: Id,
    pub body: Payload,
}

/// One flat element of a tree: the start of a node, or its end.
#[derive(Debug)]
pub enum Slot {
    Begin(Item),
    End,
}

/// A tree of items.
///
/// Conceptually a tree is a sequence of elements, each a `Begin` carrying
/// an item, its children, and an `End`. It is stored as that flat list of
/// slots. The slots are always balanced, and every id in them was issued
/// by `ids`.
pub struct Tree {
    pub(crate) slots: Vec<Slot>,
    pub(crate) ids: IdSource,
}

/// The change of nesting depth that a slot makes.
pub open spec fn delta(s: Slot) -> int {
    match s {
        Slot::Begin(_) => 1,
        Slot::End => -1,
    }
}

/// The nesting depth at the end of a run of slots.
pub open spec fn level(s: Seq<Slot>) -> int
    decreases s.len(),
{
    if s.len() == 0 {
        0
    } else {
        level(s.drop_last()) + delta(s.last())
    }
}

/// No prefix of the run closes more nodes than it opened.
pub open spec fn never_below(s: Seq<Slot>) -> bool {
    forall|i: int| 0 <= i <= s.len() ==> level(#[trigger] s.take(i)) >= 0
}

/// The run is properly nested: every `Begin` has its matching `End`.
pub open spec fn balanced(s: Seq<Slot>) -> bool {
    never_below(s) && level(s) == 0
}

/// The element starting at `ix` takes exactly `n` slots.
pub open spec fn closes_at(s: Seq<Slot>, ix: int, n: int) -> bool {
    &&& 0 <= ix
    &&& 0 < n
    &&& ix + n <= s.len()
    &&& s[ix] is Begin
    &&& level(s.subrange(ix, ix + n)) == 0
    &&& forall|k: int| 0 < k < n ==> level(#[trigger] s.subrange(ix, ix + k)) > 0
}

/// The id carried by a slot, if it begins a node.
pub open spec fn slot_id(s: Slot) -> Option<Id> {
    match s {
        Slot::Begin(item) => Some(item.id),
        Slot::End => None,
    }
}

/// The ids of the nodes that begin in a run of slots, in order.
pub open spec fn ids_of(s: Seq<Slot>) -> Seq<Id>
    decreases s.len(),
{
    if s.len() == 0 {
        Seq::empty()
    } else {
        ids_of(s.drop_last()) + match s.last() {
            Slot::Begin(item) => seq![item.id],
            Slot::End => Seq::empty(),
        }
    }
}

/// Every id in the run is below `next`.
pub open spec fn ids_below(s: Seq<Slot>, next: nat) -> bool {
    forall|i: int|
        0 <= i < s.len() ==> (#[trigger] slot_id(s[i]) matches Some(id) ==> id.value() < next)
}

pub proof fn lemma_level_push(s: Seq<Slot>, x: Slot)
    ensures
        level(s.push(x)) == level(s) + delta(x),
{
    assert(s.push(x).drop_last() =~= s);
}

pub proof fn lemma_level_concat(a: Seq<Slot>, b: Seq<Slot>)
    ensures
        level(a + b) == level(a) + level(b),
    decreases b.len(),
{
    if b.len() == 0 {
        assert(a + b =~= a);
    } else {
        lemma_level_concat(a, b.drop_last());
        assert((a + b).drop_last() =~= a + b.drop_last());
    }
}

/// Appending a run that never goes below zero to one that does not either.
pub proof fn lemma_never_below_concat(a: Seq<Slot>, b: Seq<Slot>)
    requires
        never_below(a),
        never_below(b),
    ensures
        never_below(a + b),
        level(a + b) == level(a) + level(b),
{
    lemma_level_concat(a, b);
    assert(a.take(a.len() as int) =~= a);
    assert forall|i: int| 0 <= i <= (a + b).len() implies level(#[trigger] (a + b).take(i))
        >= 0 by {
        if i <= a.len() {
            assert((a + b).take(i) =~= a.take(i));
        } else {
            assert((a + b).take(i) =~= a + b.take(i - a.len()));
            lemma_level_concat(a, b.take(i - a.len()));
        }
    }
}

pub proof fn lemma_never_below_begin(a: Seq<Slot>, x: Slot)
    requires
        never_below(a),
        x is Begin,
    ensures
        never_below(a.push(x)),
        level(a.push(x)) == level(a) + 1,
{
    lemma_level_push(a, x);
    assert(a.take(a.len() as int) =~= a);
    assert forall|i: int| 0 <= i <= a.push(x).len() implies level(#[trigger] a.push(x).take(i))
        >= 0 by {
        if i <= a.len() {
            assert(a.push(x).take(i) =~= a.take(i));
        } else {
            assert(a.push(x).take(i) =~= a.push(x));
        }
    }
}

pub proof fn lemma_never_below_end(a: Seq<Slot>)
    requires
        never_below(a),
        level(a) >= 1,
    ensures
        never_below(a.push(Slot::End)),
        level(a.push(Slot::End)) == level(a) - 1,
{
    lemma_level_push(a, Slot::End);
    assert forall|i: int| 0 <= i <= a.push(Slot::End).len() implies level(
        #[trigger] a.push(Slot::End).take(i),
    ) >= 0 by {
        if i <= a.len() {
            assert(a.push(Slot::End).take(i) =~= a.take(i));
        } else {
            assert(a.push(Slot::End).take(i) =~= a.push(Slot::End));
        }
    }
}

/// The element that starts at `ix` is itself balanced.
pub proof fn lemma_closes_at_balanced(s: Seq<Slot>, ix: int, n: int)
    requires
        closes_at(s, ix, n),
    ensures
        balanced(s.subrange(ix, ix + n)),
{
    let t = s.subrange(ix, ix + n);
    assert forall|i: int| 0 <= i <= t.len() implies level(#[trigger] t.take(i)) >= 0 by {
        if i == 0 {
            assert(t.take(i).len() == 0);
        } else if i == n {
            assert(t.take(i) =~= t);
        } else {
            assert(t.take(i) =~= s.subrange(ix, ix + i));
        }
    }
}

impl View for Tree {
    type V = Seq<Slot>;

    closed spec fn view(&self) -> Seq<Slot> {
        self.slots@
    }
}

/// The number of slots taken by the element starting at `ix` of a balanced
/// run, or `None` if no element starts there.
pub(crate) fn element_len(s: &Vec<Slot>, ix: usize) -> (r: Option<usize>)
    requires
        balanced(s@),
    ensures
        match r {
            Some(n) => closes_at(s@, ix as int, n as int),
            None => ix >= s@.len() || s@[ix as int] is End,
        },
{
    if ix >= s.len() {
        return None;
    }
    if let Slot::End = &s[ix] {
        return None;
    }
    let mut j: usize = ix;
    let mut nest: usize = 0;
    while j < s.len()
        invariant
            ix < s@.len(),
            s@[ix as int] is Begin,
            ix <= j <= s@.len(),
            nest == level(s@.subrange(ix as int, j as int)),
            nest <= j - ix,
            j > ix ==> nest > 0,
            forall|k: int| 0 < k <= j - ix ==> level(#[trigger] s@.subrange(ix as int, ix + k)) > 0,
        decreases s.len() - j,
    {
        proof {
            lemma_level_push(s@.subrange(ix as int, j as int), s@[j as int]);
            assert(s@.subrange(ix as int, j as int).push(s@[j as int]) =~= s@.subrange(ix as int, j + 1));
        }
        match &s[j] {
            Slot::Begin(_) => {
                nest = nest + 1;
            },
            Slot::End => {
                nest = nest - 1;
                if nest == 0 {
                    return Some(j + 1 - ix);
                }
            },
        }
        j = j + 1;
    }
    proof {
        let pre = s@.subrange(0, ix as int);
        let post = s@.subrange(ix as int, s@.len() as int);
        lemma_level_concat(pre, post);
        assert(pre + post =~= s@);
        assert(s@.take(ix as int) =~= pre);
    }
    None
}

impl Default for Tree {
    fn default() -> (r: Tree)
        ensures
            r.wf(),
            r@.len() == 0,
            r.next_id() == 0,
    {
        Tree::new()
    }
}

/// What the views of a tree are made of.
pub(crate) proof fn lemma_tree_view(t: &Tree)
    ensures
        t@ == t.slots@,
        t.next_id() == t.ids.next as nat,
{
}

impl Tree {
    /// The value the tree's id source will issue next.
    pub closed spec fn next_id(&self) -> nat {
        self.ids.next as nat
    }

    /// Balanced slots, all of whose ids were issued by this tree's source.
    pub open spec fn wf(&self) -> bool {
        balanced(self@) && ids_below(self@, self.next_id())
    }

    /// An empty tree.
    pub fn new() -> (r: Tree)
        ensures
            r.wf(),
            r@.len() == 0,
            r.next_id() == 0,
    {
        let r = Tree { slots: Vec::new(), ids: IdSource::new() };
        assert(r@.take(0) =~= r@);
        r
    }

    /// The slots of the tree.
    pub fn slots(&self) -> (r: &Vec<Slot>)
        ensures
            r@ == self@,
    {
        &self.slots
    }

    /// The number of slots taken by the element starting at `ix`, or `None`
    /// if no element starts there (`ix` is an `End` or past the end).
    pub fn count_slots(&self, ix: usize) -> (r: Option<usize>)
        requires
            balanced(self@),
        ensures
            match r {
                Some(n) => closes_at(self@, ix as int, n as int),
                None => ix >= self@.len() || self@[ix as int] is End,
            },
    {
        element_len(&self.slots, ix)
    }

    /// The ids of all nodes in the element starting at `ix`, in tree order;
    /// none if no element starts there.
    pub fn descendant_ids(&self, ix: usize) -> (r: Vec<Id>)
        requires
            balanced(self@),
        ensures
            r@ == match self.count_slots_spec(ix as int) {
                Some(n) => ids_of(self@.subrange(ix as int, ix + n)),
                None => Seq::empty(),
            },
    {
        let mut r: Vec<Id> = Vec::new();
        match self.count_slots(ix) {
            None => {
                proof {
                    self.lemma_count_slots_spec(ix as int);
                }
                assert(r@ =~= Seq::<Id>::empty());
                r
            },
            Some(n) => {
                proof {
                    self.lemma_count_slots_spec(ix as int);
                    lemma_closes_at_unique(self@, ix as int, n as int, self.count_slots_spec(ix as int)->Some_0);
                }
                let s = &self.slots;
                let len = s.len();
                assert(ix + n <= len);
                let end = ix + n;
                let mut k: usize = ix;
                assert(r@ =~= ids_of(self@.subrange(ix as int, ix as int)));
                while k < end
                    invariant
                        s@ == self@,
                        end == ix + n,
                        ix <= k <= ix + n <= s@.len(),
                        r@ == ids_of(self@.subrange(ix as int, k as int)),
                    decreases end - k,
                {
                    assert(self@.subrange(ix as int, k + 1).drop_last() =~= self@.subrange(ix as int, k as int));
                    match &s[k] {
                        Slot::Begin(item) => {
                            r.push(item.id);
                        },
                        Slot::End => {},
                    }
                    assert(r@ =~= ids_of(self@.subrange(ix as int, k + 1)));
                    k = k + 1;
                }
                r
            },
        }
    }

    /// The length of the element starting at `ix`, if one does.
    pub open spec fn count_slots_spec(&self, ix: int) -> Option<int> {
        if 0 <= ix < self@.len() && self@[ix] is Begin && exists|n: int| closes_at(self@, ix, n) {
            Some(choose|n: int| closes_at(self@, ix, n))
        } else {
            None
        }
    }

    pub proof fn lemma_count_slots_spec(&self, ix: int)
        requires
            balanced(self@),
            0 <= ix,
        ensures
            match self.count_slots_spec(ix) {
                Some(n) => closes_at(self@, ix, n),
                None => ix >= self@.len() || self@[ix] is End,
            },
    {
        if 0 <= ix < self@.len() && self@[ix] is Begin {
            lemma_element_closes(self@, ix);
        }
    }
}

/// The element starting at `ix` of a balanced run has a length.
pub proof fn lemma_element_closes(s: Seq<Slot>, ix: int)
    requires
        balanced(s),
        0 <= ix < s.len(),
        s[ix] is Begin,
    ensures
        exists|n: int| closes_at(s, ix, n),
{
    lemma_element_closes_from(s, ix, ix);
}

proof fn lemma_element_closes_from(s: Seq<Slot>, ix: int, j: int)
    requires
        balanced(s),
        0 <= ix < j <= s.len() || (0 <= ix == j < s.len()),
        s[ix] is Begin,
        j > ix ==> level(s.subrange(ix, j)) > 0,
        forall|k: int| 0 < k <= j - ix ==> level(#[trigger] s.subrange(ix, ix + k)) > 0,
    ensures
        exists|n: int| closes_at(s, ix, n),
    decreases s.len() - j,
{
    if j == s.len() {
        let pre = s.subrange(0, ix);
        let post = s.subrange(ix, s.len() as int);
        lemma_level_concat(pre, post);
        assert(pre + post =~= s);
        assert(s.take(ix) =~= pre);
        assert(s.take(s.len() as int) =~= s);
    } else {
        lemma_level_push(s.subrange(ix, j), s[j]);
        assert(s.subrange(ix, j).push(s[j]) =~= s.subrange(ix, j + 1));
        if j > ix && level(s.subrange(ix, j + 1)) == 0 {
            assert(closes_at(s, ix, j + 1 - ix));
        } else {
            if j == ix {
                assert(s.subrange(ix, j) =~= Seq::<Slot>::empty());
            }
            lemma_element_closes_from(s, ix, j + 1);
        }
    }
}

/// The element starting at `ix` takes only one length.
pub proof fn lemma_closes_at_unique(t: Seq<Slot>, ix: int, n: int, m: int)
    requires
        closes_at(t, ix, n),
        closes_at(t, ix, m),
    ensures
        n == m,
{
    if n < m {
        assert(level(t.subrange(ix, ix + n)) > 0);
    } else if m < n {
        assert(level(t.subrange(ix, ix + m)) > 0);
    }
}

} // verus!
