//! The reconciliation cursor.

use vstd::prelude::*;

use crate::actions::{Action, DruidAppData};
use crate::id::Id;
use crate::key::{Caller, Key};
use crate::mutation::{
    apply, consumed, lemma_push_delete, lemma_push_insert, lemma_push_skip, lemma_push_update,
    deletes_whole, lemma_aligned_delete, lemma_aligned_insert, lemma_aligned_keep,
    lemma_aligned_update, lemma_shape_delete, lemma_shape_insert_begin, lemma_shape_insert_end, lemma_shape_skip,
    lemma_shape_update, ops_shape, produced, updates_begins, push_delete, push_insert, push_skip, push_update, MutOp,
    Mutation,
};
use crate::payload::{payload_same, state_same, Payload, StateBlob, ViewDesc};
use crate::tree::{
    balanced, closes_at, ids_below, ids_of, lemma_closes_at_balanced, lemma_closes_at_unique,
    lemma_element_closes, lemma_level_concat, lemma_level_push, lemma_never_below_begin,
    lemma_never_below_concat, lemma_never_below_end, lemma_tree_view, level, never_below, slot_id,
    Item, Slot, Tree,
};

verus! {

/// The state of a cursor, as a mathematical value.
///
/// `ix` is the next unconsumed slot of the old tree; `nest` is the depth of
/// the new tree being built; `old_nest` is the depth of the old tree at
/// `ix`. While the two depths are equal the cursor is matching against the
/// old tree; once `nest` is greater, it is inside a node it inserted.
pub struct CursorState {
    pub ix: nat,
    pub nest: nat,
    pub old_nest: nat,
    pub ops: Seq<MutOp>,
    pub next_id: nat,
}

/// The number of earlier direct siblings of the slot at `j` that came from
/// `caller`, scanning back from `j` at relative depth `nest` until the
/// enclosing `Begin`.
pub open spec fn seq_scan(t: Seq<Slot>, j: int, nest: int, caller: Caller) -> nat
    decreases j,
{
    if j <= 0 || j > t.len() {
        0
    } else {
        match t[j - 1] {
            Slot::End => seq_scan(t, j - 1, nest + 1, caller),
            Slot::Begin(it) => {
                if nest <= 0 {
                    0
                } else {
                    (if nest == 1 && it.key.caller == caller {
                        1nat
                    } else {
                        0nat
                    }) + seq_scan(t, j - 1, nest - 1, caller)
                }
            },
        }
    }
}

/// The first slot at or after `j` that begins a sibling with `key`, looking
/// only at relative depth zero and stopping at the `End` of the enclosing
/// node.
pub open spec fn key_scan(t: Seq<Slot>, j: int, nest: int, key: Key) -> Option<int>
    decreases t.len() - j,
{
    if j < 0 || j >= t.len() {
        None
    } else {
        match t[j] {
            Slot::Begin(it) => {
                if nest == 0 && it.key == key {
                    Some(j)
                } else {
                    key_scan(t, j + 1, nest + 1, key)
                }
            },
            Slot::End => {
                if nest <= 0 {
                    None
                } else {
                    key_scan(t, j + 1, nest - 1, key)
                }
            },
        }
    }
}

/// The index of the `End` that closes the node enclosing slot `j`, with
/// `nest` nodes opened since; the length of the tree if there is none.
pub open spec fn end_scan(t: Seq<Slot>, j: int, nest: int) -> int
    decreases t.len() - j,
{
    if j < 0 || j >= t.len() {
        t.len() as int
    } else {
        match t[j] {
            Slot::Begin(_) => end_scan(t, j + 1, nest + 1),
            Slot::End => {
                if nest <= 0 {
                    j
                } else {
                    end_scan(t, j + 1, nest - 1)
                }
            },
        }
    }
}

/// The number of slots of the element that starts at `ix`.
pub open spec fn subtree_len(t: Seq<Slot>, ix: int) -> int {
    choose|n: int| closes_at(t, ix, n)
}

/// The key that a call from `caller` derives at the cursor's position.
pub open spec fn derive_key(t: Seq<Slot>, c: CursorState, caller: Caller) -> Key {
    Key { caller, seq_ix: seq_scan(t, c.ix as int, 0, caller) as usize }
}

/// Whether a begin with `key` finds a node of the old tree to reuse.
pub open spec fn begin_matches(t: Seq<Slot>, c: CursorState, key: Key) -> bool {
    c.nest == c.old_nest && key_scan(t, c.ix as int, 0, key) is Some
}

/// Begin a node with `key` and `body`: reuse the first sibling with that
/// key, deleting the siblings before it, or insert a fresh node.
pub open spec fn begin_step(t: Seq<Slot>, c: CursorState, key: Key, body: Payload) -> CursorState {
    if begin_matches(t, c, key) {
        let j = key_scan(t, c.ix as int, 0, key)->Some_0;
        let old = t[j]->Begin_0;
        let ops1 = push_delete(c.ops, (j - c.ix) as nat);
        let ops2 = if payload_same(old.body, body) {
            push_skip(ops1, 1)
        } else {
            push_update(ops1, seq![Slot::Begin(Item { key, id: old.id, body })])
        };
        CursorState {
            ix: (j + 1) as nat,
            nest: c.nest + 1,
            old_nest: c.old_nest + 1,
            ops: ops2,
            next_id: c.next_id,
        }
    } else {
        insert_step(c, key, body)
    }
}

/// Begin a fresh node, whatever the old tree holds.
pub open spec fn insert_step(c: CursorState, key: Key, body: Payload) -> CursorState {
    CursorState {
        ix: c.ix,
        nest: c.nest + 1,
        old_nest: c.old_nest,
        ops: push_insert(c.ops, seq![Slot::Begin(Item { key, id: Id(c.next_id as u64), body })]),
        next_id: c.next_id + 1,
    }
}

/// End the current node: in matching mode, delete what is left of the old
/// node and keep its `End`; inside an inserted node, insert an `End`.
pub open spec fn end_step(t: Seq<Slot>, c: CursorState) -> CursorState {
    if c.nest == c.old_nest {
        let e = end_scan(t, c.ix as int, 0);
        CursorState {
            ix: (e + 1) as nat,
            nest: (c.nest - 1) as nat,
            old_nest: (c.old_nest - 1) as nat,
            ops: push_skip(push_delete(c.ops, (e - c.ix) as nat), 1),
            next_id: c.next_id,
        }
    } else {
        CursorState {
            ix: c.ix,
            nest: (c.nest - 1) as nat,
            old_nest: c.old_nest,
            ops: push_insert(c.ops, seq![Slot::End]),
            next_id: c.next_id,
        }
    }
}

/// Whether an element of the old tree starts at the cursor.
pub open spec fn at_element(t: Seq<Slot>, c: CursorState) -> bool {
    c.ix < t.len() && t[c.ix as int] is Begin
}

/// Skip the element at the cursor, if there is one.
pub open spec fn skip_one_step(t: Seq<Slot>, c: CursorState) -> CursorState {
    if at_element(t, c) {
        let n = subtree_len(t, c.ix as int);
        CursorState { ix: (c.ix + n) as nat, ops: push_skip(c.ops, n as nat), ..c }
    } else {
        c
    }
}

/// Delete the element at the cursor, if there is one.
pub open spec fn delete_one_step(t: Seq<Slot>, c: CursorState) -> CursorState {
    if at_element(t, c) {
        let n = subtree_len(t, c.ix as int);
        CursorState { ix: (c.ix + n) as nat, ops: push_delete(c.ops, n as nat), ..c }
    } else {
        c
    }
}

/// Reuse the old node at the cursor with a new body, without looking at
/// keys.
pub open spec fn update_step(t: Seq<Slot>, c: CursorState, body: Payload) -> CursorState {
    let old = t[c.ix as int]->Begin_0;
    CursorState {
        ix: c.ix + 1,
        nest: c.nest + 1,
        old_nest: c.old_nest + 1,
        ops: if payload_same(old.body, body) {
            push_skip(c.ops, 1)
        } else {
            push_update(c.ops, seq![Slot::Begin(Item { key: old.key, id: old.id, body })])
        },
        next_id: c.next_id,
    }
}

/// The invariant of a cursor over the old tree `t`.
///
/// The operations so far consume the old slots before `ix` and produce the
/// new slots so far, which never close more than they open and are
/// `nest` deep; every id is below `next_id`.
pub open spec fn state_inv(t: Seq<Slot>, c: CursorState) -> bool {
    &&& balanced(t)
    &&& t.len() <= usize::MAX
    &&& c.ix <= t.len()
    &&& consumed(c.ops) == c.ix
    &&& level(t.take(c.ix as int)) == c.old_nest
    &&& never_below(produced(t, c.ops))
    &&& level(produced(t, c.ops)) == c.nest
    &&& c.old_nest <= c.nest
    &&& ops_shape(c.ops, c.nest - c.old_nest)
    &&& deletes_whole(t, c.ops)
    &&& updates_begins(t, c.ops)
    &&& c.nest <= usize::MAX
    &&& ids_below(t, c.next_id)
    &&& ids_below(produced(t, c.ops), c.next_id)
    &&& c.next_id <= u64::MAX
}

pub proof fn lemma_ids_below_concat(a: Seq<Slot>, b: Seq<Slot>, n: nat)
    requires
        ids_below(a, n),
        ids_below(b, n),
    ensures
        ids_below(a + b, n),
{
    assert forall|i: int| 0 <= i < (a + b).len() implies (#[trigger] slot_id((a + b)[i])) matches Some(
        id,
    ) ==> id.value() < n by {
        if i < a.len() {
            assert(slot_id((a + b)[i]) == slot_id(a[i]));
        } else {
            assert(slot_id((a + b)[i]) == slot_id(b[i - a.len()]));
        }
    }
}

pub proof fn lemma_ids_below_subrange(a: Seq<Slot>, lo: int, hi: int, n: nat, m: nat)
    requires
        ids_below(a, n),
        n <= m,
        0 <= lo <= hi <= a.len(),
    ensures
        ids_below(a.subrange(lo, hi), m),
{
    assert forall|i: int| 0 <= i < a.subrange(lo, hi).len() implies (#[trigger] slot_id(
        a.subrange(lo, hi)[i],
    )) matches Some(id) ==> id.value() < m by {
        assert(slot_id(a.subrange(lo, hi)[i]) == slot_id(a[lo + i]));
    }
}

/// The depth of the old tree after a prefix is the depth before it plus
/// the depth change of the segment between.
pub proof fn lemma_level_take(t: Seq<Slot>, i: int, j: int)
    requires
        0 <= i <= j <= t.len(),
    ensures
        level(t.take(j)) == level(t.take(i)) + level(t.subrange(i, j)),
{
    assert(t.take(i) + t.subrange(i, j) =~= t.take(j));
    lemma_level_concat(t.take(i), t.subrange(i, j));
}

proof fn lemma_key_scan(t: Seq<Slot>, ix: int, j: int, nest: int, key: Key)
    requires
        0 <= ix <= j <= t.len(),
        nest == level(t.subrange(ix, j)),
        never_below(t.subrange(ix, j)),
        key_scan(t, j, nest, key) is Some,
    ensures
        j <= key_scan(t, j, nest, key)->Some_0 < t.len(),
        t[key_scan(t, j, nest, key)->Some_0] is Begin,
        t[key_scan(t, j, nest, key)->Some_0]->Begin_0.key == key,
        balanced(t.subrange(ix, key_scan(t, j, nest, key)->Some_0)),
    decreases t.len() - j,
{
    assert(t.subrange(ix, j + 1) =~= t.subrange(ix, j).push(t[j]));
    match t[j] {
        Slot::Begin(it) => {
            if nest == 0 && it.key == key {
            } else {
                lemma_never_below_begin(t.subrange(ix, j), t[j]);
                lemma_key_scan(t, ix, j + 1, nest + 1, key);
            }
        },
        Slot::End => {
            lemma_never_below_end(t.subrange(ix, j));
            lemma_key_scan(t, ix, j + 1, nest - 1, key);
        },
    }
}

proof fn lemma_end_scan(t: Seq<Slot>, ix: int, j: int, nest: int)
    requires
        balanced(t),
        0 <= ix <= j <= t.len(),
        level(t.take(ix)) >= 1,
        nest == level(t.subrange(ix, j)),
        never_below(t.subrange(ix, j)),
    ensures
        j <= end_scan(t, j, nest) < t.len(),
        t[end_scan(t, j, nest)] is End,
        balanced(t.subrange(ix, end_scan(t, j, nest))),
    decreases t.len() - j,
{
    if j == t.len() {
        lemma_level_take(t, ix, j);
        assert(t.take(j) =~= t);
        assert(t.subrange(ix, j).take(j - ix) =~= t.subrange(ix, j));
    } else {
        assert(t.subrange(ix, j + 1) =~= t.subrange(ix, j).push(t[j]));
        match t[j] {
            Slot::Begin(_) => {
                lemma_never_below_begin(t.subrange(ix, j), t[j]);
                lemma_end_scan(t, ix, j + 1, nest + 1);
            },
            Slot::End => {
                assert(t.subrange(ix, j).take(j - ix) =~= t.subrange(ix, j));
                if nest > 0 {
                    lemma_never_below_end(t.subrange(ix, j));
                    lemma_end_scan(t, ix, j + 1, nest - 1);
                }
            },
        }
    }
}

proof fn lemma_end_scan_ge(t: Seq<Slot>, j: int, nest: int)
    requires
        0 <= j <= t.len(),
    ensures
        end_scan(t, j, nest) >= j,
    decreases t.len() - j,
{
    if j < t.len() {
        match t[j] {
            Slot::Begin(_) => lemma_end_scan_ge(t, j + 1, nest + 1),
            Slot::End => {
                if nest > 0 {
                    lemma_end_scan_ge(t, j + 1, nest - 1);
                }
            },
        }
    }
}

/// What follows a point of depth zero in a balanced run is balanced.
proof fn lemma_suffix_balanced(t: Seq<Slot>, ix: int)
    requires
        balanced(t),
        0 <= ix <= t.len(),
        level(t.take(ix)) == 0,
    ensures
        balanced(t.subrange(ix, t.len() as int)),
{
    let u = t.subrange(ix, t.len() as int);
    lemma_level_take(t, ix, t.len() as int);
    assert(t.take(t.len() as int) =~= t);
    assert forall|i: int| 0 <= i <= u.len() implies level(#[trigger] u.take(i)) >= 0 by {
        lemma_level_take(t, ix, ix + i);
        assert(u.take(i) =~= t.subrange(ix, ix + i));
    }
}

proof fn lemma_empty_run(t: Seq<Slot>, ix: int)
    requires
        0 <= ix <= t.len(),
    ensures
        level(t.subrange(ix, ix)) == 0,
        never_below(t.subrange(ix, ix)),
{
    assert(t.subrange(ix, ix) =~= Seq::<Slot>::empty());
    assert forall|i: int| 0 <= i <= t.subrange(ix, ix).len() implies level(
        #[trigger] t.subrange(ix, ix).take(i),
    ) >= 0 by {
        assert(t.subrange(ix, ix).take(i) =~= Seq::<Slot>::empty());
    }
}

/// Appending one old slot that begins a node keeps the invariant's facts
/// about the produced slots.
proof fn lemma_produce_begin(t: Seq<Slot>, out: Seq<Slot>, x: Slot, n: nat, m: nat)
    requires
        never_below(out),
        ids_below(out, n),
        n <= m,
        x is Begin,
        slot_id(x)->Some_0.value() < m,
    ensures
        never_below(out + seq![x]),
        level(out + seq![x]) == level(out) + 1,
        ids_below(out + seq![x], m),
{
    assert(out + seq![x] =~= out.push(x));
    lemma_never_below_begin(out, x);
    lemma_ids_below_subrange(out, 0, out.len() as int, n, m);
    assert(out.subrange(0, out.len() as int) =~= out);
    assert(ids_below(seq![x], m)) by {
        assert forall|i: int| 0 <= i < seq![x].len() implies (#[trigger] slot_id(seq![x][i])) matches Some(
            id,
        ) ==> id.value() < m by {
            assert(seq![x][i] == x);
        }
    }
    lemma_ids_below_concat(out, seq![x], m);
}

pub proof fn lemma_begin_step(t: Seq<Slot>, c: CursorState, key: Key, body: Payload)
    requires
        state_inv(t, c),
        c.next_id < u64::MAX,
        c.nest < usize::MAX,
    ensures
        state_inv(t, begin_step(t, c, key, body)),
{
    let out = produced(t, c.ops);
    let ix = c.ix as int;
    if begin_matches(t, c, key) {
        let j = key_scan(t, ix, 0, key)->Some_0;
        lemma_empty_run(t, ix);
        lemma_key_scan(t, ix, ix, 0, key);
        let old = t[j]->Begin_0;
        let ops1 = push_delete(c.ops, (j - ix) as nat);
        lemma_push_delete(t, c.ops, (j - ix) as nat);
        lemma_level_take(t, ix, j);
        lemma_level_take(t, j, j + 1);
        assert(t.subrange(j, j + 1) =~= seq![t[j]]);
        lemma_level_push(Seq::<Slot>::empty(), t[j]);
        assert(Seq::<Slot>::empty().push(t[j]) =~= seq![t[j]]);
        assert(slot_id(t[j]) matches Some(id) ==> id.value() < c.next_id);
        lemma_shape_delete(c.ops, (j - ix) as nat);
        lemma_aligned_delete(t, c.ops, (j - ix) as nat);
        if payload_same(old.body, body) {
            lemma_aligned_keep(t, ops1, 1);
            lemma_push_skip(t, ops1, 1);
            lemma_shape_skip(ops1, 1);
            lemma_produce_begin(t, out, t[j], c.next_id, c.next_id);
        } else {
            let x = Slot::Begin(Item { key, id: old.id, body });
            lemma_aligned_update(t, ops1, x);
            lemma_push_update(t, ops1, seq![x]);
            lemma_shape_update(ops1, x);
            lemma_produce_begin(t, out, x, c.next_id, c.next_id);
        }
    } else {
        let x = Slot::Begin(Item { key, id: Id(c.next_id as u64), body });
        lemma_aligned_insert(t, c.ops, seq![x]);
        lemma_shape_insert_begin(c.ops, c.nest - c.old_nest, x);
        lemma_push_insert(t, c.ops, seq![x]);
        lemma_produce_begin(t, out, x, c.next_id, c.next_id + 1);
        lemma_ids_below_subrange(t, 0, t.len() as int, c.next_id, c.next_id + 1);
        assert(t.subrange(0, t.len() as int) =~= t);
    }
}

/// Whether the old node a future begin reuses was started for the same
/// input.
pub open spec fn future_same(old: Payload, data: StateBlob) -> bool {
    old matches Payload::Future(_, od) && state_same(od, data)
}

/// Begin a node that tracks an async task started for `data`: a reused
/// node started for equal input is kept as it is, with its task's id;
/// otherwise the node gets a `Future` payload with a fresh task id.
pub open spec fn future_step(t: Seq<Slot>, c: CursorState, key: Key, data: StateBlob) -> CursorState {
    if begin_matches(t, c, key) {
        let j = key_scan(t, c.ix as int, 0, key)->Some_0;
        let old = t[j]->Begin_0;
        let ops1 = push_delete(c.ops, (j - c.ix) as nat);
        let same = future_same(old.body, data);
        CursorState {
            ix: (j + 1) as nat,
            nest: c.nest + 1,
            old_nest: c.old_nest + 1,
            ops: if same {
                push_skip(ops1, 1)
            } else {
                push_update(
                    ops1,
                    seq![Slot::Begin(Item { key, id: old.id, body: Payload::Future(Id(c.next_id as u64), data) })],
                )
            },
            next_id: if same {
                c.next_id
            } else {
                c.next_id + 1
            },
        }
    } else {
        CursorState {
            ix: c.ix,
            nest: c.nest + 1,
            old_nest: c.old_nest,
            ops: push_insert(
                c.ops,
                seq![
                    Slot::Begin(
                        Item {
                            key,
                            id: Id(c.next_id as u64),
                            body: Payload::Future(Id((c.next_id + 1) as u64), data),
                        },
                    ),
                ],
            ),
            next_id: c.next_id + 2,
        }
    }
}

/// The node's id, the task's id, and whether a new task must start.
pub open spec fn future_result(t: Seq<Slot>, c: CursorState, key: Key, data: StateBlob) -> (Id, Id, bool) {
    if begin_matches(t, c, key) {
        let old = t[key_scan(t, c.ix as int, 0, key)->Some_0]->Begin_0;
        if future_same(old.body, data) {
            (old.id, old.body->Future_0, false)
        } else {
            (old.id, Id(c.next_id as u64), true)
        }
    } else {
        (Id(c.next_id as u64), Id((c.next_id + 1) as u64), true)
    }
}

pub proof fn lemma_future_step(t: Seq<Slot>, c: CursorState, key: Key, data: StateBlob)
    requires
        state_inv(t, c),
        c.next_id + 1 < u64::MAX,
        c.nest < usize::MAX,
    ensures
        state_inv(t, future_step(t, c, key, data)),
{
    let out = produced(t, c.ops);
    let ix = c.ix as int;
    lemma_ids_below_subrange(t, 0, t.len() as int, c.next_id, c.next_id + 2);
    lemma_ids_below_subrange(t, 0, t.len() as int, c.next_id, c.next_id + 1);
    assert(t.subrange(0, t.len() as int) =~= t);
    if begin_matches(t, c, key) {
        let j = key_scan(t, ix, 0, key)->Some_0;
        lemma_empty_run(t, ix);
        lemma_key_scan(t, ix, ix, 0, key);
        let old = t[j]->Begin_0;
        let ops1 = push_delete(c.ops, (j - ix) as nat);
        lemma_push_delete(t, c.ops, (j - ix) as nat);
        lemma_level_take(t, ix, j);
        lemma_level_take(t, j, j + 1);
        assert(t.subrange(j, j + 1) =~= seq![t[j]]);
        lemma_level_push(Seq::<Slot>::empty(), t[j]);
        assert(Seq::<Slot>::empty().push(t[j]) =~= seq![t[j]]);
        assert(slot_id(t[j]) matches Some(id) ==> id.value() < c.next_id);
        lemma_shape_delete(c.ops, (j - ix) as nat);
        lemma_aligned_delete(t, c.ops, (j - ix) as nat);
        if future_same(old.body, data) {
            lemma_aligned_keep(t, ops1, 1);
            lemma_push_skip(t, ops1, 1);
            lemma_shape_skip(ops1, 1);
            lemma_produce_begin(t, out, t[j], c.next_id, c.next_id);
        } else {
            let x = Slot::Begin(Item { key, id: old.id, body: Payload::Future(Id(c.next_id as u64), data) });
            lemma_aligned_update(t, ops1, x);
            lemma_push_update(t, ops1, seq![x]);
            lemma_shape_update(ops1, x);
            lemma_produce_begin(t, out, x, c.next_id, c.next_id + 1);
        }
    } else {
        let x = Slot::Begin(
            Item { key, id: Id(c.next_id as u64), body: Payload::Future(Id((c.next_id + 1) as u64), data) },
        );
        lemma_aligned_insert(t, c.ops, seq![x]);
        lemma_shape_insert_begin(c.ops, c.nest - c.old_nest, x);
        lemma_push_insert(t, c.ops, seq![x]);
        lemma_produce_begin(t, out, x, c.next_id, c.next_id + 2);
    }
}

pub proof fn lemma_end_step(t: Seq<Slot>, c: CursorState)
    requires
        state_inv(t, c),
        c.nest >= 1,
    ensures
        state_inv(t, end_step(t, c)),
        c.nest == c.old_nest ==> c.ix <= end_scan(t, c.ix as int, 0) < t.len(),
{
    let out = produced(t, c.ops);
    let ix = c.ix as int;
    lemma_ids_below_subrange(out, 0, out.len() as int, c.next_id, c.next_id);
    assert(out.subrange(0, out.len() as int) =~= out);
    assert(ids_below(seq![Slot::End], c.next_id)) by {
        assert forall|i: int| 0 <= i < seq![Slot::End].len() implies (#[trigger] slot_id(
            seq![Slot::End][i],
        )) matches Some(id) ==> id.value() < c.next_id by {
            assert(seq![Slot::End][i] == Slot::End);
        }
    }
    lemma_ids_below_concat(out, seq![Slot::End], c.next_id);
    assert(out + seq![Slot::End] =~= out.push(Slot::End));
    lemma_never_below_end(out);
    if c.nest == c.old_nest {
        lemma_empty_run(t, ix);
        lemma_end_scan(t, ix, ix, 0);
        let e = end_scan(t, ix, 0);
        let ops1 = push_delete(c.ops, (e - ix) as nat);
        lemma_push_delete(t, c.ops, (e - ix) as nat);
        lemma_push_skip(t, ops1, 1);
        lemma_shape_delete(c.ops, (e - ix) as nat);
        lemma_shape_skip(ops1, 1);
        lemma_aligned_delete(t, c.ops, (e - ix) as nat);
        lemma_aligned_keep(t, ops1, 1);
        lemma_level_take(t, ix, e);
        lemma_level_take(t, e, e + 1);
        assert(t.subrange(e, e + 1) =~= seq![Slot::End]);
        lemma_level_push(Seq::<Slot>::empty(), Slot::End);
        assert(Seq::<Slot>::empty().push(Slot::End) =~= seq![Slot::End]);
    } else {
        lemma_push_insert(t, c.ops, seq![Slot::End]);
        lemma_shape_insert_end(c.ops, c.nest - c.old_nest);
        lemma_aligned_insert(t, c.ops, seq![Slot::End]);
    }
}

/// The element at the cursor has a length, and skipping or deleting it
/// keeps the invariant.
pub proof fn lemma_one_step(t: Seq<Slot>, c: CursorState, n: int)
    requires
        state_inv(t, c),
        c.nest == c.old_nest,
        closes_at(t, c.ix as int, n),
    ensures
        subtree_len(t, c.ix as int) == n,
        state_inv(t, skip_one_step(t, c)),
        state_inv(t, delete_one_step(t, c)),
{
    let ix = c.ix as int;
    let out = produced(t, c.ops);
    lemma_closes_at_unique(t, ix, n, subtree_len(t, ix));
    lemma_closes_at_balanced(t, ix, n);
    let seg = t.subrange(ix, ix + n);
    lemma_push_skip(t, c.ops, n as nat);
    lemma_push_delete(t, c.ops, n as nat);
    lemma_shape_skip(c.ops, n as nat);
    lemma_shape_delete(c.ops, n as nat);
    lemma_aligned_keep(t, c.ops, n as nat);
    lemma_aligned_delete(t, c.ops, n as nat);
    lemma_level_take(t, ix, ix + n);
    lemma_never_below_concat(out, seg);
    lemma_ids_below_subrange(t, ix, ix + n, c.next_id, c.next_id);
    lemma_ids_below_concat(out, seg, c.next_id);
}

pub proof fn lemma_update_step(t: Seq<Slot>, c: CursorState, body: Payload)
    requires
        state_inv(t, c),
        c.nest == c.old_nest,
        at_element(t, c),
        c.nest < usize::MAX,
    ensures
        state_inv(t, update_step(t, c, body)),
{
    let ix = c.ix as int;
    let out = produced(t, c.ops);
    let old = t[ix]->Begin_0;
    lemma_level_take(t, ix, ix + 1);
    assert(t.subrange(ix, ix + 1) =~= seq![t[ix]]);
    lemma_level_push(Seq::<Slot>::empty(), t[ix]);
    assert(Seq::<Slot>::empty().push(t[ix]) =~= seq![t[ix]]);
    assert(slot_id(t[ix]) matches Some(id) ==> id.value() < c.next_id);
    if payload_same(old.body, body) {
        lemma_push_skip(t, c.ops, 1);
        lemma_shape_skip(c.ops, 1);
        lemma_aligned_keep(t, c.ops, 1);
        lemma_produce_begin(t, out, t[ix], c.next_id, c.next_id);
    } else {
        let x = Slot::Begin(Item { key: old.key, id: old.id, body });
        lemma_push_update(t, c.ops, seq![x]);
        lemma_shape_update(c.ops, x);
        lemma_aligned_update(t, c.ops, x);
        lemma_produce_begin(t, out, x, c.next_id, c.next_id);
    }
}

pub proof fn lemma_insert_step(t: Seq<Slot>, c: CursorState, key: Key, body: Payload)
    requires
        state_inv(t, c),
        c.next_id < u64::MAX,
        c.nest < usize::MAX,
    ensures
        state_inv(t, insert_step(c, key, body)),
{
    let out = produced(t, c.ops);
    let x = Slot::Begin(Item { key, id: Id(c.next_id as u64), body });
    lemma_push_insert(t, c.ops, seq![x]);
    lemma_shape_insert_begin(c.ops, c.nest - c.old_nest, x);
    lemma_aligned_insert(t, c.ops, seq![x]);
    lemma_produce_begin(t, out, x, c.next_id, c.next_id + 1);
    lemma_ids_below_subrange(t, 0, t.len() as int, c.next_id, c.next_id + 1);
    assert(t.subrange(0, t.len() as int) =~= t);
}

/// The id of the node that a begin with `key` opens.
pub open spec fn begun_id(t: Seq<Slot>, c: CursorState, key: Key) -> Id {
    if begin_matches(t, c, key) {
        t[key_scan(t, c.ix as int, 0, key)->Some_0]->Begin_0.id
    } else {
        Id(c.next_id as u64)
    }
}

/// Whether a begin with `key` and `body` inserts or updates a node, rather
/// than keeping an old one as it was.
pub open spec fn begin_changes(t: Seq<Slot>, c: CursorState, key: Key, body: Payload) -> bool {
    !begin_matches(t, c, key) || !payload_same(
        t[key_scan(t, c.ix as int, 0, key)->Some_0]->Begin_0.body,
        body,
    )
}

/// The ids of all nodes in the old element at the cursor.
pub open spec fn descendants(t: Seq<Slot>, c: CursorState) -> Seq<Id> {
    if at_element(t, c) {
        ids_of(t.subrange(c.ix as int, c.ix + subtree_len(t, c.ix as int)))
    } else {
        Seq::empty()
    }
}

/// Whether some node in the old element at the cursor has a pending
/// action.
pub open spec fn action_pending(t: Seq<Slot>, c: CursorState, actions: Map<Id, Action>) -> bool {
    exists|k: int| 0 <= k < descendants(t, c).len() && actions.contains_key(descendants(t, c)[k])
}

/// `n` elements skipped one after another.
pub open spec fn skip_n(t: Seq<Slot>, c: CursorState, n: nat) -> CursorState
    decreases n,
{
    if n == 0 {
        c
    } else {
        skip_n(t, skip_one_step(t, c), (n - 1) as nat)
    }
}

/// `n` elements deleted one after another.
pub open spec fn delete_n(t: Seq<Slot>, c: CursorState, n: nat) -> CursorState
    decreases n,
{
    if n == 0 {
        c
    } else {
        delete_n(t, delete_one_step(t, c), (n - 1) as nat)
    }
}

/// Whether `if_changed` runs its body: the state was inserted or changed,
/// or an action is pending under the node.
pub open spec fn if_changed_runs(
    t: Seq<Slot>,
    c: CursorState,
    key: Key,
    data: StateBlob,
    actions: Map<Id, Action>,
) -> bool {
    let body = Payload::State(data);
    begin_changes(t, c, key, body) || action_pending(t, begin_step(t, c, key, body), actions)
}

/// The state after `if_changed`: inside the state node when the body
/// runs; past the whole old node, skipped, when it does not.
pub open spec fn if_changed_step(
    t: Seq<Slot>,
    c: CursorState,
    key: Key,
    data: StateBlob,
    actions: Map<Id, Action>,
) -> CursorState {
    let c1 = begin_step(t, c, key, Payload::State(data));
    if if_changed_runs(t, c, key, data, actions) {
        c1
    } else {
        end_step(t, skip_one_step(t, c1))
    }
}

/// A cursor that walks the previous tree while the build logic runs, and
/// records the mutation from that tree to the one the logic describes.
pub struct MutCursor<'a> {
    tree: &'a Tree,
    ix: usize,
    mutation: Mutation,
    // Nesting level of the tree being built.
    nest: usize,
    // Nesting level of the old tree at `ix`.
    old_nest: usize,
}

impl<'a> View for MutCursor<'a> {
    type V = CursorState;

    closed spec fn view(&self) -> CursorState {
        CursorState {
            ix: self.ix as nat,
            nest: self.nest as nat,
            old_nest: self.old_nest as nat,
            ops: self.mutation@,
            next_id: self.mutation.ids().next as nat,
        }
    }
}

impl<'a> MutCursor<'a> {
    /// The slots of the tree the cursor walks.
    pub closed spec fn old_tree(&self) -> Seq<Slot> {
        self.tree@
    }

    pub closed spec fn linked(&self) -> bool {
        self.mutation.source() == self.tree@
    }

    pub open spec fn wf(&self) -> bool {
        state_inv(self.old_tree(), self@) && self.linked()
    }

    /// Another node can be opened: an id is left to issue and the depth
    /// can grow.
    pub open spec fn can_begin(&self) -> bool {
        self@.next_id < u64::MAX && self@.nest < usize::MAX
    }

    /// Whether another node can be opened.
    pub fn has_room(&self) -> (r: bool)
        ensures
            r == self.can_begin(),
    {
        self.mutation.next_id_value() < u64::MAX && self.nest < usize::MAX
    }

    /// The depth of the tree being built.
    pub fn depth(&self) -> (r: usize)
        ensures
            r == self@.nest,
    {
        self.nest
    }

    /// Start building a tree mutation.
    pub fn new(tree: &'a Tree) -> (r: MutCursor<'a>)
        requires
            tree.wf(),
        ensures
            r.wf(),
            r.old_tree() == tree@,
            r@ == (CursorState {
                ix: 0,
                nest: 0,
                old_nest: 0,
                ops: Seq::empty(),
                next_id: tree.next_id(),
            }),
    {
        proof {
            lemma_tree_view(tree);
        }
        let _ = tree.slots.len();
        let mutation = Mutation::new(Ghost(tree@), tree.ids);
        let r = MutCursor { tree, ix: 0, mutation, nest: 0, old_nest: 0 };
        proof {
            let t = tree@;
            assert(t.take(0) =~= Seq::<Slot>::empty());
            let e = Seq::<Slot>::empty();
            assert(produced(t, r@.ops) == e);
            assert forall|i: int| 0 <= i <= e.len() implies level(#[trigger] e.take(i)) >= 0 by {
                assert(e.take(i) =~= e);
            }
        }
        r
    }

    /// The number of earlier siblings in this node that came from `caller`.
    fn seq_ix(&self, caller: Caller) -> (r: usize)
        requires
            self.wf(),
        ensures
            r == seq_scan(self.old_tree(), self@.ix as int, 0, caller),
    {
        proof {
            lemma_tree_view(self.tree);
        }
        let s = &self.tree.slots;
        let ghost t = s@;
        let ghost ix0 = self.ix as int;
        let mut seq_ix: usize = 0;
        let mut nest: usize = 0;
        let mut j: usize = self.ix;
        while j > 0
            invariant
                t == s@,
                t == self.old_tree(),
                ix0 == self@.ix,
                ix0 <= t.len(),
                j <= ix0,
                seq_ix + nest <= ix0 - j,
                seq_ix + seq_scan(t, j as int, nest as int, caller) == seq_scan(t, ix0, 0, caller),
            decreases j,
        {
            j = j - 1;
            match &s[j] {
                Slot::End => {
                    nest = nest + 1;
                },
                Slot::Begin(slot) => {
                    if nest == 0 {
                        return seq_ix;
                    } else if nest == 1 && slot.key.caller == caller {
                        seq_ix = seq_ix + 1;
                    }
                    nest = nest - 1;
                },
            }
        }
        seq_ix
    }

    /// Find the key among the siblings at the cursor; the number of slots
    /// before it.
    fn find_key(&self, key: Key) -> (r: Option<usize>)
        requires
            self.wf(),
        ensures
            r == match key_scan(self.old_tree(), self@.ix as int, 0, key) {
                Some(j) => Some((j - self@.ix) as usize),
                None => None::<usize>,
            },
    {
        proof {
            lemma_tree_view(self.tree);
        }
        let s = &self.tree.slots;
        let ghost t = s@;
        let ix0 = self.ix;
        let mut nest: usize = 0;
        let mut j: usize = self.ix;
        while j < s.len()
            invariant
                t == s@,
                t == self.old_tree(),
                ix0 == self@.ix,
                ix0 <= j <= t.len(),
                nest <= j - ix0,
                key_scan(t, j as int, nest as int, key) == key_scan(t, ix0 as int, 0, key),
            decreases s.len() - j,
        {
            match &s[j] {
                Slot::Begin(slot) => {
                    if nest == 0 && slot.key == key {
                        return Some(j - ix0);
                    }
                    nest = nest + 1;
                },
                Slot::End => {
                    if nest == 0 {
                        return None;
                    }
                    nest = nest - 1;
                },
            }
            j = j + 1;
        }
        None
    }

    /// The number of slots until the end of the current node.
    fn count_trim(&self) -> (r: usize)
        requires
            self.wf(),
            self@.nest == self@.old_nest,
            self@.nest >= 1,
        ensures
            r == end_scan(self.old_tree(), self@.ix as int, 0) - self@.ix,
    {
        proof {
            lemma_tree_view(self.tree);
        }
        let s = &self.tree.slots;
        let ghost t = s@;
        let ix0 = self.ix;
        proof {
            lemma_empty_run(t, ix0 as int);
            lemma_end_scan(t, ix0 as int, ix0 as int, 0);
        }
        let ghost e = end_scan(t, ix0 as int, 0);
        let mut nest: usize = 0;
        let mut j: usize = self.ix;
        while j < s.len()
            invariant
                t == s@,
                t == self.old_tree(),
                ix0 == self@.ix,
                e == end_scan(t, ix0 as int, 0),
                t[e] is End,
                ix0 <= j <= e < t.len(),
                nest <= j - ix0,
                end_scan(t, j as int, nest as int) == e,
            decreases s.len() - j,
        {
            proof {
                lemma_end_scan_ge(t, j + 1, nest + 1);
                lemma_end_scan_ge(t, j + 1, nest - 1);
            }
            match &s[j] {
                Slot::Begin(_) => {
                    nest = nest + 1;
                },
                Slot::End => {
                    if nest == 0 {
                        return j - ix0;
                    }
                    nest = nest - 1;
                },
            }
            j = j + 1;
        }
        0
    }

    /// Begin a node with an explicit key.
    ///
    /// If a sibling with this key follows in the old tree, the siblings
    /// before it are deleted and it is reused, updated with `body` unless
    /// the payloads are the same; otherwise a fresh node is inserted.
    /// Returns the node's id and whether it was inserted or updated.
    pub fn begin_core(&mut self, key: Key, body: Payload) -> (r: (Id, bool))
        requires
            old(self).wf(),
            old(self).can_begin(),
        ensures
            final(self).wf(),
            final(self).old_tree() == old(self).old_tree(),
            final(self)@ == begin_step(old(self).old_tree(), old(self)@, key, body),
            r.0 == begun_id(old(self).old_tree(), old(self)@, key),
            r.1 == begin_changes(old(self).old_tree(), old(self)@, key, body),
    {
        proof {
            lemma_tree_view(self.tree);
            lemma_begin_step(self.old_tree(), self@, key, body);
        }
        let ghost t = self.old_tree();
        if self.nest == self.old_nest {
            if let Some(n) = self.find_key(key) {
                proof {
                    lemma_empty_run(t, self.ix as int);
                    lemma_key_scan(t, self.ix as int, self.ix as int, 0, key);
                }
                proof {
                    lemma_push_delete(t, self@.ops, n as nat);
                }
                self.ix = self.ix + n;
                self.mutation.delete(n);
                if let Slot::Begin(old) = &self.tree.slots[self.ix] {
                    let id = old.id;
                    let same = old.body.same(&body);
                    self.ix = self.ix + 1;
                    self.nest = self.nest + 1;
                    self.old_nest = self.old_nest + 1;
                    if same {
                        self.mutation.skip(1);
                    } else {
                        self.mutation.update_one(Slot::Begin(Item { key, id, body }));
                    }
                    return (id, !same);
                }
            }
        }
        self.nest = self.nest + 1;
        let id = self.mutation.new_id();
        self.mutation.insert_one(Slot::Begin(Item { key, id, body }));
        (id, true)
    }

    /// The key that a call from `caller` derives here.
    pub fn key_for(&self, caller: Caller) -> (r: Key)
        requires
            self.wf(),
        ensures
            r == derive_key(self.old_tree(), self@, caller),
    {
        Key::new(caller, self.seq_ix(caller))
    }

    /// Begin an element from the call site `caller`.
    pub fn begin(&mut self, caller: Caller, body: Payload)
        requires
            old(self).wf(),
            old(self).can_begin(),
        ensures
            final(self).wf(),
            final(self).old_tree() == old(self).old_tree(),
            final(self)@ == begin_step(
                old(self).old_tree(),
                old(self)@,
                derive_key(old(self).old_tree(), old(self)@, caller),
                body,
            ),
    {
        let key = self.key_for(caller);
        let _ = self.begin_core(key, body);
    }

    /// End an element.
    pub fn end(&mut self)
        requires
            old(self).wf(),
            old(self)@.nest >= 1,
        ensures
            final(self).wf(),
            final(self).old_tree() == old(self).old_tree(),
            final(self)@ == end_step(old(self).old_tree(), old(self)@),
    {
        proof {
            lemma_end_step(self.old_tree(), self@);
        }
        if self.nest == self.old_nest {
            let n_trim = self.count_trim();
            proof {
                lemma_push_delete(self.old_tree(), self@.ops, n_trim as nat);
            }
            self.ix = self.ix + n_trim + 1;
            self.mutation.delete(n_trim);
            self.mutation.skip(1);
            self.nest = self.nest - 1;
            self.old_nest = self.old_nest - 1;
        } else {
            self.nest = self.nest - 1;
            self.mutation.insert_one(Slot::End);
        }
    }

    /// Add a leaf element from the call site `caller`.
    pub fn leaf(&mut self, caller: Caller, body: Payload)
        requires
            old(self).wf(),
            old(self).can_begin(),
        ensures
            final(self).wf(),
            final(self).old_tree() == old(self).old_tree(),
            final(self)@ == end_step(
                old(self).old_tree(),
                begin_step(
                    old(self).old_tree(),
                    old(self)@,
                    derive_key(old(self).old_tree(), old(self)@, caller),
                    body,
                ),
            ),
    {
        self.begin(caller, body);
        self.end();
    }

    /// Skip one element.
    pub fn skip_one(&mut self)
        requires
            old(self).wf(),
            old(self)@.nest == old(self)@.old_nest,
        ensures
            final(self).wf(),
            final(self).old_tree() == old(self).old_tree(),
            final(self)@ == skip_one_step(old(self).old_tree(), old(self)@),
    {
        proof {
            lemma_tree_view(self.tree);
        }
        if let Some(cur_slots) = self.tree.count_slots(self.ix) {
            proof {
                lemma_one_step(self.old_tree(), self@, cur_slots as int);
            }
            self.ix = self.ix + cur_slots;
            self.mutation.skip(cur_slots);
        }
    }

    /// Delete one element.
    pub fn delete_one(&mut self)
        requires
            old(self).wf(),
            old(self)@.nest == old(self)@.old_nest,
        ensures
            final(self).wf(),
            final(self).old_tree() == old(self).old_tree(),
            final(self)@ == delete_one_step(old(self).old_tree(), old(self)@),
    {
        proof {
            lemma_tree_view(self.tree);
        }
        if let Some(cur_slots) = self.tree.count_slots(self.ix) {
            proof {
                lemma_one_step(self.old_tree(), self@, cur_slots as int);
            }
            self.ix = self.ix + cur_slots;
            self.mutation.delete(cur_slots);
        }
    }

    /// Begin an element, always inserting, without regard to keys.
    pub fn begin_insert(&mut self, body: Payload)
        requires
            old(self).wf(),
            old(self).can_begin(),
        ensures
            final(self).wf(),
            final(self).old_tree() == old(self).old_tree(),
            final(self)@ == insert_step(old(self)@, Key::null_spec(), body),
    {
        proof {
            lemma_insert_step(self.old_tree(), self@, Key::null_spec(), body);
        }
        self.nest = self.nest + 1;
        let key = Key::null();
        let id = self.mutation.new_id();
        self.mutation.insert_one(Slot::Begin(Item { key, id, body }));
    }

    /// Begin an element, always reusing the old element at the cursor,
    /// without regard to keys. There must be such an element.
    pub fn begin_update(&mut self, body: Payload)
        requires
            old(self).wf(),
            old(self)@.nest == old(self)@.old_nest,
            at_element(old(self).old_tree(), old(self)@),
            old(self)@.nest < usize::MAX,
        ensures
            final(self).wf(),
            final(self).old_tree() == old(self).old_tree(),
            final(self)@ == update_step(old(self).old_tree(), old(self)@, body),
    {
        proof {
            lemma_tree_view(self.tree);
            lemma_update_step(self.old_tree(), self@, body);
        }
        if let Slot::Begin(old) = &self.tree.slots[self.ix] {
            self.ix = self.ix + 1;
            self.nest = self.nest + 1;
            self.old_nest = self.old_nest + 1;
            if old.body.same(&body) {
                self.mutation.skip(1);
            } else {
                let key = old.key;
                let id = old.id;
                self.mutation.update_one(Slot::Begin(Item { key, id, body }));
            }
        }
    }

    /// Reap the mutation: whatever of the old tree was not reached is
    /// deleted. Every element must have been ended.
    pub fn into_mutation(self) -> (r: Mutation)
        requires
            self.wf(),
            self@.nest == 0,
        ensures
            r.wf(),
            r.source() == self.old_tree(),
            r@ == push_delete(self@.ops, (self.old_tree().len() - self@.ix) as nat),
            r.next_id() == self@.next_id,
            consumed(r@) == self.old_tree().len(),
            balanced(apply(self.old_tree(), r@)),
            apply(self.old_tree(), r@) == produced(self.old_tree(), self@.ops),
    {
        proof {
            lemma_tree_view(self.tree);
        }
        let ghost t = self.old_tree();
        let ghost c = self@;
        let n_trim = self.tree.slots.len() - self.ix;
        let mut mutation = self.mutation;
        mutation.delete(n_trim);
        proof {
            lemma_push_delete(t, c.ops, n_trim as nat);
            lemma_shape_delete(c.ops, n_trim as nat);
            lemma_suffix_balanced(t, c.ix as int);
            assert(t.subrange(c.ix as int, t.len() as int) =~= t.subrange(
                consumed(c.ops) as int,
                consumed(c.ops) + n_trim,
            ));
            lemma_aligned_delete(t, c.ops, n_trim as nat);
            let out = produced(t, c.ops);
            assert(t.subrange(t.len() as int, t.len() as int) =~= Seq::<Slot>::empty());
            assert(apply(t, mutation@) =~= out);
        }
        mutation
    }

    /// The ids of all nodes under the current node.
    pub fn descendant_ids(&self) -> (r: Vec<Id>)
        requires
            self.wf(),
        ensures
            r@ == descendants(self.old_tree(), self@),
    {
        proof {
            lemma_tree_view(self.tree);
            self.tree.lemma_count_slots_spec(self.ix as int);
            if at_element(self.old_tree(), self@) {
                lemma_element_closes(self.old_tree(), self.ix as int);
            }
        }
        self.tree.descendant_ids(self.ix)
    }

    /// Report whether the current element has an action.
    pub fn has_action(&self, actions: &DruidAppData) -> (r: bool)
        requires
            self.wf(),
            actions.wf(),
        ensures
            r == action_pending(self.old_tree(), self@, actions@),
    {
        let ids = self.descendant_ids();
        let mut k: usize = 0;
        while k < ids.len()
            invariant
                ids@ == descendants(self.old_tree(), self@),
                k <= ids@.len(),
                actions.wf(),
                forall|i: int| 0 <= i < k ==> !actions@.contains_key(ids@[i]),
            decreases ids.len() - k,
        {
            if actions.has_action(ids[k]) {
                return true;
            }
            k = k + 1;
        }
        false
    }

    /// Traverse into a subtree only if the data has changed.
    ///
    /// Opens a state node for `data` from the call site `caller`. Returns
    /// `true` when the body must be built: the state was inserted or
    /// changed, or an action is pending under the node. The caller then
    /// builds exactly one child and calls `end`. Returns `false` when the
    /// old node is kept as it was: its child has been skipped and the node
    /// ended, and the body must not be built.
    pub fn if_changed(&mut self, caller: Caller, data: StateBlob, actions: &DruidAppData) -> (r:
        bool)
        requires
            old(self).wf(),
            old(self).can_begin(),
            actions.wf(),
        ensures
            final(self).wf(),
            final(self).old_tree() == old(self).old_tree(),
            r == if_changed_runs(
                old(self).old_tree(),
                old(self)@,
                derive_key(old(self).old_tree(), old(self)@, caller),
                data,
                actions@,
            ),
            final(self)@ == if_changed_step(
                old(self).old_tree(),
                old(self)@,
                derive_key(old(self).old_tree(), old(self)@, caller),
                data,
                actions@,
            ),
    {
        let key = self.key_for(caller);
        let (_, changed) = self.begin_core(key, Payload::State(data));
        let pending = self.has_action(actions);
        if changed || pending {
            true
        } else {
            self.skip_one();
            self.end();
            false
        }
    }

    /// Add a view as a leaf, from the call site `caller`.
    pub fn leaf_view(&mut self, view: ViewDesc, caller: Caller) -> (r: Id)
        requires
            old(self).wf(),
            old(self).can_begin(),
        ensures
            final(self).wf(),
            final(self).old_tree() == old(self).old_tree(),
            final(self)@ == end_step(
                old(self).old_tree(),
                begin_step(
                    old(self).old_tree(),
                    old(self)@,
                    derive_key(old(self).old_tree(), old(self)@, caller),
                    Payload::View(view),
                ),
            ),
            r == begun_id(
                old(self).old_tree(),
                old(self)@,
                derive_key(old(self).old_tree(), old(self)@, caller),
            ),
    {
        let key = self.key_for(caller);
        let (id, _) = self.begin_core(key, Payload::View(view));
        self.end();
        id
    }

    /// Begin a view element from the call site `caller`; its children
    /// follow, then `end`.
    pub fn begin_view(&mut self, view: ViewDesc, caller: Caller) -> (r: Id)
        requires
            old(self).wf(),
            old(self).can_begin(),
        ensures
            final(self).wf(),
            final(self).old_tree() == old(self).old_tree(),
            final(self)@ == begin_step(
                old(self).old_tree(),
                old(self)@,
                derive_key(old(self).old_tree(), old(self)@, caller),
                Payload::View(view),
            ),
            r == begun_id(
                old(self).old_tree(),
                old(self)@,
                derive_key(old(self).old_tree(), old(self)@, caller),
            ),
    {
        let key = self.key_for(caller);
        let (id, _) = self.begin_core(key, Payload::View(view));
        id
    }

    /// Skip `n` elements.
    pub fn skip(&mut self, n: usize)
        requires
            old(self).wf(),
            old(self)@.nest == old(self)@.old_nest,
        ensures
            final(self).wf(),
            final(self).old_tree() == old(self).old_tree(),
            final(self)@ == skip_n(old(self).old_tree(), old(self)@, n as nat),
    {
        let ghost t = self.old_tree();
        let ghost goal = skip_n(t, self@, n as nat);
        let mut i: usize = 0;
        while i < n
            invariant
                self.wf(),
                self@.nest == self@.old_nest,
                self.old_tree() == t,
                i <= n,
                skip_n(t, self@, (n - i) as nat) == goal,
            decreases n - i,
        {
            self.skip_one();
            i = i + 1;
        }
    }

    /// Delete `n` elements.
    pub fn delete(&mut self, n: usize)
        requires
            old(self).wf(),
            old(self)@.nest == old(self)@.old_nest,
        ensures
            final(self).wf(),
            final(self).old_tree() == old(self).old_tree(),
            final(self)@ == delete_n(old(self).old_tree(), old(self)@, n as nat),
    {
        let ghost t = self.old_tree();
        let ghost goal = delete_n(t, self@, n as nat);
        let mut i: usize = 0;
        while i < n
            invariant
                self.wf(),
                self@.nest == self@.old_nest,
                self.old_tree() == t,
                i <= n,
                delete_n(t, self@, (n - i) as nat) == goal,
            decreases n - i,
        {
            self.delete_one();
            i = i + 1;
        }
    }

    /// Begin a node that tracks an async task started for `data`, from the
    /// call site `caller`; its children follow, then `end`.
    ///
    /// Returns the node's id, the id of the task whose result the node
    /// waits for, and whether that task is new: true when the node is new
    /// or its input changed, and the caller must then start a task and
    /// report its result under the returned task id. A result reported
    /// under an older task id is stale.
    pub fn begin_future(&mut self, caller: Caller, data: StateBlob) -> (r: (Id, Id, bool))
        requires
            old(self).wf(),
            old(self)@.next_id + 1 < u64::MAX,
            old(self)@.nest < usize::MAX,
        ensures
            final(self).wf(),
            final(self).old_tree() == old(self).old_tree(),
            final(self)@ == future_step(
                old(self).old_tree(),
                old(self)@,
                derive_key(old(self).old_tree(), old(self)@, caller),
                data,
            ),
            r == future_result(
                old(self).old_tree(),
                old(self)@,
                derive_key(old(self).old_tree(), old(self)@, caller),
                data,
            ),
    {
        let key = self.key_for(caller);
        proof {
            lemma_tree_view(self.tree);
            lemma_future_step(self.old_tree(), self@, key, data);
        }
        let ghost t = self.old_tree();
        if self.nest == self.old_nest {
            if let Some(n) = self.find_key(key) {
                proof {
                    lemma_empty_run(t, self.ix as int);
                    lemma_key_scan(t, self.ix as int, self.ix as int, 0, key);
                    lemma_push_delete(t, self@.ops, n as nat);
                }
                self.ix = self.ix + n;
                self.mutation.delete(n);
                if let Slot::Begin(old) = &self.tree.slots[self.ix] {
                    let id = old.id;
                    self.ix = self.ix + 1;
                    self.nest = self.nest + 1;
                    self.old_nest = self.old_nest + 1;
                    if let Payload::Future(f_id, old_data) = &old.body {
                        if old_data.same(&data) {
                            self.mutation.skip(1);
                            return (id, *f_id, false);
                        }
                    }
                    let f_id = self.mutation.new_id();
                    let body = Payload::Future(f_id, data);
                    self.mutation.update_one(Slot::Begin(Item { key, id, body }));
                    return (id, f_id, true);
                }
            }
        }
        self.nest = self.nest + 1;
        let id = self.mutation.new_id();
        let f_id = self.mutation.new_id();
        let body = Payload::Future(f_id, data);
        self.mutation.insert_one(Slot::Begin(Item { key, id, body }));
        (id, f_id, true)
    }
}

} // verus!
