//! Reading out a tree mutation, one level at a time.

use vstd::prelude::*;

use crate::id::Id;
use crate::mutation::{consumed, op_consumed, ops_shape, op_ok, MutOp, Mutation, MutationItem};
use crate::payload::Payload;
use crate::tree::{
    balanced, closes_at, element_len, lemma_closes_at_unique, lemma_tree_view, Slot, Tree,
};

verus! {

/// The position of a mutation iterator, as a mathematical value.
///
/// `tree_ix` is a slot of the old tree; `mut_ix` the operation that
/// covers it; `consumed` the slots of that operation already passed.
pub struct IterState {
    pub tree_ix: nat,
    pub mut_ix: nat,
    pub consumed: nat,
}

/// The old slot that a position of the operations stands at. Inside an
/// insert, that is the old slot after the operations before it.
pub open spec fn old_pos(ops: Seq<MutOp>, mut_ix: nat, within: nat) -> int {
    consumed(ops.take(mut_ix as int)) + if mut_ix < ops.len() && ops[mut_ix as int] is Insert {
        0
    } else {
        within as int
    }
}

/// The invariant of an iterator over the mutation `ops` of the tree `t`.
pub open spec fn iter_inv(t: Seq<Slot>, ops: Seq<MutOp>, s: IterState) -> bool {
    &&& balanced(t)
    &&& t.len() <= usize::MAX
    &&& consumed(ops) == t.len()
    &&& ops_shape(ops, 0)
    &&& s.mut_ix <= ops.len()
    &&& s.tree_ix <= t.len()
    &&& old_pos(ops, s.mut_ix, s.consumed) == s.tree_ix
    &&& s.mut_ix < ops.len() ==> match ops[s.mut_ix as int] {
        MutOp::Insert(v) => s.consumed < v.len(),
        op => s.consumed < op_consumed(op),
    }
    &&& s.mut_ix == ops.len() ==> s.consumed == 0
}

/// Where the operation cursor `(mut_ix, within)` stands after passing
/// `left` more old slots: inserts on the way are passed over, and an
/// operation that is used up exactly is left behind.
pub open spec fn adv_ops(ops: Seq<MutOp>, mut_ix: nat, within: nat, left: nat) -> (nat, nat)
    decreases left, ops.len() - mut_ix,
{
    if left == 0 || mut_ix >= ops.len() {
        (mut_ix, within)
    } else {
        match ops[mut_ix as int] {
            MutOp::Insert(_) => adv_ops(ops, mut_ix + 1, within, left),
            op => {
                let rest: nat = if op_consumed(op) > within {
                    (op_consumed(op) - within) as nat
                } else {
                    0
                };
                if rest <= left {
                    adv_ops(ops, mut_ix + 1, 0, (left - rest) as nat)
                } else {
                    (mut_ix, within + left)
                }
            },
        }
    }
}

/// The state after passing `n` old slots.
pub open spec fn advanced(ops: Seq<MutOp>, s: IterState, n: nat) -> IterState {
    let (m, w) = adv_ops(ops, s.mut_ix, s.consumed, n);
    IterState { tree_ix: s.tree_ix + n, mut_ix: m, consumed: w }
}

/// The length of the element that starts at `p`.
pub open spec fn elem_len(s: Seq<Slot>, p: int) -> int {
    choose|n: int| closes_at(s, p, n)
}

/// Whether an element starts at `p`.
pub open spec fn elem_at(s: Seq<Slot>, p: int) -> bool {
    0 <= p < s.len() && s[p] is Begin
}

/// What `next` yields at a state.
pub enum NextItem {
    Done,
    Skip,
    Delete,
    Insert,
    UpdateKept,
    UpdateNew,
}

/// The kind of item `next` yields at state `s`.
pub open spec fn next_item(t: Seq<Slot>, ops: Seq<MutOp>, s: IterState) -> NextItem {
    if s.mut_ix >= ops.len() {
        NextItem::Done
    } else {
        match ops[s.mut_ix as int] {
            MutOp::Skip(n) => {
                if !elem_at(t, s.tree_ix as int) {
                    NextItem::Done
                } else if elem_len(t, s.tree_ix as int) + s.consumed <= n {
                    NextItem::Skip
                } else {
                    NextItem::UpdateKept
                }
            },
            MutOp::Delete(_) => {
                if elem_at(t, s.tree_ix as int) {
                    NextItem::Delete
                } else {
                    NextItem::Done
                }
            },
            MutOp::Insert(v) => {
                if v[s.consumed as int] is Begin {
                    NextItem::Insert
                } else {
                    NextItem::Done
                }
            },
            MutOp::Update(v) => {
                if v[s.consumed as int] is Begin && elem_at(t, s.tree_ix as int) {
                    NextItem::UpdateNew
                } else {
                    NextItem::Done
                }
            },
        }
    }
}

/// The state after `next` at state `s`.
pub open spec fn next_state(t: Seq<Slot>, ops: Seq<MutOp>, s: IterState) -> IterState {
    match next_item(t, ops, s) {
        NextItem::Done => s,
        NextItem::Insert => {
            let v = ops[s.mut_ix as int]->Insert_0;
            let c = s.consumed + elem_len(v, s.consumed as int);
            if c == v.len() {
                IterState { mut_ix: s.mut_ix + 1, consumed: 0, ..s }
            } else {
                IterState { consumed: c as nat, ..s }
            }
        },
        _ => advanced(ops, s, elem_len(t, s.tree_ix as int) as nat),
    }
}

/// One item in a mutation for a single node.
pub enum MutIterItem<'a> {
    /// No change for the next n children.
    Skip(usize),
    /// Delete the next n children.
    Delete(usize),
    /// Insert a new child.
    Insert(Id, &'a Payload, MutationIter<'a>),
    /// Update the child: with a new payload, or only below it.
    Update(Option<&'a Payload>, MutationIter<'a>),
}

/// An iterator for reading out a tree mutation against the tree it was
/// made for.
#[derive(Clone, Copy)]
pub struct MutationIter<'a> {
    tree: &'a Tree,
    mutation: &'a Vec<MutationItem>,
    // An index to the slot number in the tree.
    tree_ix: usize,
    // An index to the item in the mutation.
    mut_ix: usize,
    // The number of slots already consumed in the currently open item.
    consumed: usize,
}

impl<'a> View for MutationIter<'a> {
    type V = IterState;

    closed spec fn view(&self) -> IterState {
        IterState {
            tree_ix: self.tree_ix as nat,
            mut_ix: self.mut_ix as nat,
            consumed: self.consumed as nat,
        }
    }
}

proof fn lemma_consumed_step(ops: Seq<MutOp>, k: int)
    requires
        0 <= k < ops.len(),
    ensures
        consumed(ops.take(k + 1)) == consumed(ops.take(k)) + op_consumed(ops[k]),
{
    assert(ops.take(k + 1).drop_last() =~= ops.take(k));
}

impl<'a> MutationIter<'a> {
    /// The slots of the old tree.
    pub closed spec fn tree_slots(&self) -> Seq<Slot> {
        self.tree@
    }

    /// The operations read.
    pub closed spec fn ops(&self) -> Seq<MutOp> {
        self.mutation@.map_values(|i: MutationItem| i@)
    }

    pub open spec fn wf(&self) -> bool {
        iter_inv(self.tree_slots(), self.ops(), self@)
    }

    /// Start an iteration over a mutation, against the tree it was made
    /// for.
    pub fn new(tree: &'a Tree, mutation: &'a Mutation) -> (r: MutationIter<'a>)
        requires
            tree.wf(),
            mutation.wf(),
            mutation.source() == tree@,
        ensures
            r.wf(),
            r.tree_slots() == tree@,
            r.ops() == mutation@,
            r@ == (IterState { tree_ix: 0, mut_ix: 0, consumed: 0 }),
    {
        proof {
            lemma_tree_view(tree);
        }
        let _ = tree.slots().len();
        let r = MutationIter { tree, mutation: mutation.items(), tree_ix: 0, mut_ix: 0, consumed: 0 };
        proof {
            let ops = mutation@;
            assert(ops.take(0) =~= Seq::<MutOp>::empty());
            if ops.len() > 0 {
                assert(op_ok(ops[0]));
            }
        }
        r
    }

    /// Advance the iterator by `adv` slots of the old tree.
    fn advance(&mut self, adv: usize)
        requires
            old(self).wf(),
            old(self)@.tree_ix + adv <= old(self).tree_slots().len(),
            old(self)@.mut_ix < old(self).ops().len() ==> !(old(self).ops()[old(self)@.mut_ix as int] is Insert),
        ensures
            final(self).wf(),
            final(self).tree_slots() == old(self).tree_slots(),
            final(self).ops() == old(self).ops(),
            final(self)@ == advanced(old(self).ops(), old(self)@, adv as nat),
            final(self)@.mut_ix < final(self).ops().len() && final(self).ops()[final(self)@.mut_ix as int] is Insert
                ==> final(self)@.consumed == 0,
    {
        let ghost t = self.tree_slots();
        let ghost ops = self.ops();
        let ghost goal = adv_ops(ops, self@.mut_ix, self@.consumed, adv as nat);
        let ghost target = self@.tree_ix + adv;
        let mut left = adv;
        self.tree_ix = self.tree_ix + adv;
        while left > 0
            invariant
                t == self.tree_slots(),
                ops == self.ops(),
                balanced(t),
                t.len() <= usize::MAX,
                self@.tree_ix == target,
                adv_ops(ops, self@.mut_ix, self@.consumed, left as nat) == goal,
                consumed(ops) == t.len(),
                ops_shape(ops, 0),
                self.mutation@.len() == ops.len(),
                self@.mut_ix <= ops.len(),
                self@.tree_ix <= t.len(),
                old_pos(ops, self@.mut_ix, self@.consumed) + left == self@.tree_ix,
                self@.mut_ix < ops.len() ==> match ops[self@.mut_ix as int] {
                    MutOp::Insert(v) => self@.consumed == 0,
                    op => self@.consumed < op_consumed(op),
                },
                self@.mut_ix == ops.len() ==> self@.consumed == 0,
            decreases left, ops.len() - self@.mut_ix,
        {
            if self.mut_ix >= self.mutation.len() {
                proof {
                    assert(ops.take(ops.len() as int) =~= ops);
                }
                return;
            }
            proof {
                lemma_consumed_step(ops, self.mut_ix as int);
                assert(self.mutation@[self.mut_ix as int]@ == ops[self.mut_ix as int]);
                if self.mut_ix + 1 < ops.len() {
                    assert(op_ok(ops[self.mut_ix + 1]));
                }
            }
            match &self.mutation[self.mut_ix] {
                MutationItem::Skip(n) | MutationItem::Delete(n) => {
                    if *n - self.consumed <= left {
                        left = left - (*n - self.consumed);
                        self.mut_ix = self.mut_ix + 1;
                        self.consumed = 0;
                    } else {
                        self.consumed = self.consumed + left;
                        left = 0;
                    }
                },
                MutationItem::Insert(_) => {
                    self.mut_ix = self.mut_ix + 1;
                },
                MutationItem::Update(slots) => {
                    let n = slots.len();
                    if n - self.consumed <= left {
                        left = left - (n - self.consumed);
                        self.mut_ix = self.mut_ix + 1;
                        self.consumed = 0;
                    } else {
                        self.consumed = self.consumed + left;
                        left = 0;
                    }
                },
            }
        }
        proof {
            if self@.mut_ix < ops.len() {
                assert(op_ok(ops[self@.mut_ix as int]));
            }
        }
    }

    /// The next item of this level: `None` when the level is done.
    ///
    /// An old element that lies wholly in a skip is one `Skip`; one in a
    /// delete is one `Delete`; an element of an insert is an `Insert` with
    /// its id and payload; an old element that a skip only starts, or that
    /// an update replaces, is an `Update`. `Insert` and `Update` carry an
    /// iterator over the element's children.
    pub fn next(&mut self) -> (r: Option<MutIterItem<'a>>)
        requires
            old(self).wf(),
        ensures
            final(self).wf(),
            final(self).tree_slots() == old(self).tree_slots(),
            final(self).ops() == old(self).ops(),
            final(self)@ == next_state(old(self).tree_slots(), old(self).ops(), old(self)@),
            (r is None) == (next_item(old(self).tree_slots(), old(self).ops(), old(self)@) is Done),
            match r {
                None => true,
                Some(MutIterItem::Skip(k)) => k == 1 && next_item(
                    old(self).tree_slots(),
                    old(self).ops(),
                    old(self)@,
                ) is Skip,
                Some(MutIterItem::Delete(k)) => k == 1 && next_item(
                    old(self).tree_slots(),
                    old(self).ops(),
                    old(self)@,
                ) is Delete,
                Some(MutIterItem::Insert(id, body, child)) => {
                    &&& next_item(old(self).tree_slots(), old(self).ops(), old(self)@) is Insert
                    &&& old(self).ops()[old(self)@.mut_ix as int]->Insert_0[old(self)@.consumed as int]
                        matches Slot::Begin(item) && item.id == id && item.body == *body
                    &&& child.wf()
                    &&& child.tree_slots() == old(self).tree_slots()
                    &&& child.ops() == old(self).ops()
                    &&& child@ == (IterState { consumed: old(self)@.consumed + 1, ..old(self)@ })
                },
                Some(MutIterItem::Update(body, child)) => {
                    &&& match body {
                        None => next_item(old(self).tree_slots(), old(self).ops(), old(self)@) is UpdateKept,
                        Some(p) => next_item(old(self).tree_slots(), old(self).ops(), old(self)@) is UpdateNew
                            && (old(self).ops()[old(self)@.mut_ix as int]->Update_0[old(self)@.consumed as int] matches Slot::Begin(
                            item,
                        ) && item.body == *p),
                    }
                    &&& child.wf()
                    &&& child.tree_slots() == old(self).tree_slots()
                    &&& child.ops() == old(self).ops()
                    &&& child@ == advanced(old(self).ops(), old(self)@, 1)
                },
            },
    {
        proof {
            lemma_tree_view(self.tree);
        }
        let ghost ops = self.ops();
        let ghost t = self.tree_slots();
        let mutation: &'a Vec<MutationItem> = self.mutation;
        if self.mut_ix >= mutation.len() {
            return None;
        }
        proof {
            assert(mutation@[self.mut_ix as int]@ == ops[self.mut_ix as int]);
            assert(op_ok(ops[self.mut_ix as int]));
        }
        match &mutation[self.mut_ix] {
            MutationItem::Skip(n) => {
                let cur_slots = match self.tree.count_slots(self.tree_ix) {
                    Some(c) => c,
                    None => {
                        return None;
                    },
                };
                proof {
                    lemma_closes_at_unique(t, self.tree_ix as int, cur_slots as int, elem_len(t, self.tree_ix as int));
                }
                if cur_slots + self.consumed <= *n {
                    self.advance(cur_slots);
                    Some(MutIterItem::Skip(1))
                } else {
                    let mut child_iter = *self;
                    child_iter.advance(1);
                    self.advance(cur_slots);
                    Some(MutIterItem::Update(None, child_iter))
                }
            },
            MutationItem::Delete(_) => {
                let cur_slots = match self.tree.count_slots(self.tree_ix) {
                    Some(c) => c,
                    None => {
                        return None;
                    },
                };
                proof {
                    lemma_closes_at_unique(t, self.tree_ix as int, cur_slots as int, elem_len(t, self.tree_ix as int));
                }
                self.advance(cur_slots);
                Some(MutIterItem::Delete(1))
            },
            MutationItem::Insert(slots) => {
                let slots_len = slots.len();
                if let Slot::Begin(item) = &slots[self.consumed] {
                    let cur_slots = match element_len(slots, self.consumed) {
                        Some(c) => c,
                        None => {
                            return None;
                        },
                    };
                    proof {
                        lemma_closes_at_unique(slots@, self.consumed as int, cur_slots as int, elem_len(slots@, self.consumed as int));
                    }
                    let mut child_iter = *self;
                    child_iter.consumed = child_iter.consumed + 1;
                    self.consumed = self.consumed + cur_slots;
                    if self.consumed == slots_len {
                        proof {
                            lemma_consumed_step(ops, self.mut_ix as int);
                            if self.mut_ix + 1 < ops.len() {
                                assert(op_ok(ops[self.mut_ix + 1]));
                            }
                        }
                        self.mut_ix = self.mut_ix + 1;
                        self.consumed = 0;
                    }
                    Some(MutIterItem::Insert(item.id, &item.body, child_iter))
                } else {
                    None
                }
            },
            MutationItem::Update(slots) => {
                if let Slot::Begin(item) = &slots[self.consumed] {
                    let cur_slots = match self.tree.count_slots(self.tree_ix) {
                        Some(c) => c,
                        None => {
                            return None;
                        },
                    };
                    proof {
                        lemma_closes_at_unique(t, self.tree_ix as int, cur_slots as int, elem_len(t, self.tree_ix as int));
                    }
                    let mut child_iter = *self;
                    child_iter.advance(1);
                    self.advance(cur_slots);
                    Some(MutIterItem::Update(Some(&item.body), child_iter))
                } else {
                    None
                }
            },
        }
    }
}

} // verus!
