//! Laws of reconciliation, proved over the cursor's step functions.

use vstd::prelude::*;

use crate::actions::Action;
use crate::cursor::{
    action_pending, begin_matches, begin_step, begun_id, derive_key, descendants, end_scan, end_step,
    if_changed_runs, if_changed_step, key_scan, seq_scan, skip_one_step, state_inv, subtree_len,
    CursorState,
};
use crate::id::Id;
use crate::key::Caller;
use crate::mutation::{produced, push_delete, push_skip, push_update, MutOp};
use crate::payload::{payload_same, state_same, Payload, StateBlob};
use crate::tree::{
    balanced, closes_at, ids_below, ids_of, lemma_closes_at_unique, lemma_level_push, level, slot_id,
    Item, Slot,
};

verus! {

/// Two skips in a row are one skip of both counts.
pub proof fn lemma_skip_merge(ops: Seq<MutOp>, a: nat, b: nat)
    requires
        a > 0,
    ensures
        push_skip(push_skip(ops, a), b) == push_skip(ops, a + b),
{
    let r = push_skip(ops, a);
    if b > 0 {
        assert(r.last() is Skip);
        if ops.len() > 0 && ops.last() is Skip {
            assert(r.drop_last() =~= ops.drop_last());
        } else {
            assert(r.drop_last() =~= ops);
        }
    }
}

/// Every id listed for a run of slots is the id of one of its slots.
pub proof fn lemma_ids_of_member(s: Seq<Slot>, x: int)
    requires
        0 <= x < ids_of(s).len(),
    ensures
        exists|k: int| 0 <= k < s.len() && slot_id(#[trigger] s[k]) == Some(ids_of(s)[x]),
    decreases s.len(),
{
    let p = s.drop_last();
    if x < ids_of(p).len() {
        lemma_ids_of_member(p, x);
        let k = choose|k: int| 0 <= k < p.len() && slot_id(#[trigger] p[k]) == Some(ids_of(p)[x]);
        assert(s[k] == p[k]);
    } else {
        assert(slot_id(s[s.len() - 1]) == Some(ids_of(s)[x]));
    }
}

/// Identity preservation: when a begin finds its key in the old tree but
/// the payload changed, the node is updated in place and keeps its old id.
/// When the key is not found, the node is inserted with a fresh id, which
/// no node of the old tree and no node produced so far carries.
pub proof fn lemma_identity(t: Seq<Slot>, c: CursorState, caller: Caller, body: Payload)
    requires
        state_inv(t, c),
    ensures
        ({
            let key = derive_key(t, c, caller);
            let j = key_scan(t, c.ix as int, 0, key)->Some_0;
            begin_matches(t, c, key) && !payload_same(t[j]->Begin_0.body, body) ==> {
                &&& begun_id(t, c, key) == t[j]->Begin_0.id
                &&& begin_step(t, c, key, body).ops == push_update(
                    push_delete(c.ops, (j - c.ix) as nat),
                    seq![Slot::Begin(Item { key, id: t[j]->Begin_0.id, body })],
                )
            }
        }),
        ({
            let key = derive_key(t, c, caller);
            !begin_matches(t, c, key) ==> {
                &&& begun_id(t, c, key) == Id(c.next_id as u64)
                &&& forall|k: int| 0 <= k < t.len() ==> slot_id(#[trigger] t[k]) != Some(Id(c.next_id as u64))
                &&& forall|k: int|
                    0 <= k < produced(t, c.ops).len() ==> slot_id(#[trigger] produced(t, c.ops)[k])
                        != Some(Id(c.next_id as u64))
            }
        }),
{
    let key = derive_key(t, c, caller);
    if !begin_matches(t, c, key) {
        assert forall|k: int| 0 <= k < t.len() implies slot_id(#[trigger] t[k]) != Some(
            Id(c.next_id as u64),
        ) by {
            if slot_id(t[k]) == Some(Id(c.next_id as u64)) {
                assert(ids_below(t, c.next_id));
            }
        }
        let out = produced(t, c.ops);
        assert forall|k: int| 0 <= k < out.len() implies slot_id(#[trigger] out[k]) != Some(
            Id(c.next_id as u64),
        ) by {
            if slot_id(out[k]) == Some(Id(c.next_id as u64)) {
                assert(ids_below(out, c.next_id));
            }
        }
    }
}

/// The `if_changed` short-circuit: at an old state node that carries the
/// derived key, whose snapshot equals `data`, that has exactly one child,
/// and under which no action is pending, the body is not run and the whole
/// old node, `n` slots, is kept by a single skip of `n`.
pub proof fn lemma_if_changed_short_circuit(
    t: Seq<Slot>,
    c: CursorState,
    caller: Caller,
    data: StateBlob,
    actions: Map<Id, Action>,
    n: int,
)
    requires
        state_inv(t, c),
        c.nest == c.old_nest,
        c.ix < t.len(),
        t[c.ix as int] is Begin,
        t[c.ix as int]->Begin_0.key == derive_key(t, c, caller),
        t[c.ix as int]->Begin_0.body matches Payload::State(old) && state_same(old, data),
        closes_at(t, c.ix as int, n),
        closes_at(t, c.ix + 1 as int, n - 2),
        forall|k: int|
            c.ix <= k < c.ix + n ==> (slot_id(#[trigger] t[k]) matches Some(id) ==> !actions.contains_key(id)),
    ensures
        !if_changed_runs(t, c, derive_key(t, c, caller), data, actions),
        if_changed_step(t, c, derive_key(t, c, caller), data, actions).ops == push_skip(c.ops, n as nat),
        if_changed_step(t, c, derive_key(t, c, caller), data, actions).ix == c.ix + n,
{
    let key = derive_key(t, c, caller);
    let ix = c.ix as int;
    let m = n - 2;
    assert(key_scan(t, ix, 0, key) == Some(ix));
    assert(payload_same(t[ix]->Begin_0.body, Payload::State(data)));
    let c1 = begin_step(t, c, key, Payload::State(data));
    assert(push_delete(c.ops, 0) == c.ops);
    assert(c1.ops == push_skip(c.ops, 1));
    assert(c1.ix == ix + 1);
    // The one child spans `m` slots; the node's `End` follows it.
    lemma_closes_at_unique(t, ix + 1, m, subtree_len(t, ix + 1));
    assert(descendants(t, c1) == ids_of(t.subrange(ix + 1, ix + 1 + m)));
    assert(!action_pending(t, c1, actions)) by {
        let d = descendants(t, c1);
        if action_pending(t, c1, actions) {
            let x = choose|x: int| 0 <= x < d.len() && actions.contains_key(d[x]);
            lemma_ids_of_member(t.subrange(ix + 1, ix + 1 + m), x);
            let k = choose|k: int|
                0 <= k < m && slot_id(#[trigger] t.subrange(ix + 1, ix + 1 + m)[k]) == Some(d[x]);
            assert(t.subrange(ix + 1, ix + 1 + m)[k] == t[ix + 1 + k]);
        }
    }
    let c2 = skip_one_step(t, c1);
    assert(c2.ops == push_skip(c1.ops, m as nat));
    assert(c2.ix == ix + 1 + m);
    let e = ix + 1 + m;
    let k = n - 1;
    assert(ix + k == e);
    assert(t.subrange(ix, ix + k).push(t[e]) =~= t.subrange(ix, ix + n));
    lemma_level_push(t.subrange(ix, ix + k), t[e]);
    assert(level(t.subrange(ix, ix + k)) > 0);
    assert(t[e] is End);
    assert(end_scan(t, e, 0) == e);
    assert(push_delete(c2.ops, 0) == c2.ops);
    lemma_skip_merge(c.ops, 1, m as nat);
    lemma_skip_merge(c.ops, (1 + m) as nat, 1);
}

/// Every node's payload compares equal to itself: views and states do,
/// placeholders and futures never do.
pub open spec fn self_same(t: Seq<Slot>) -> bool {
    forall|k: int|
        0 <= k < t.len() && (#[trigger] t[k]) is Begin ==> payload_same(t[k]->Begin_0.body, t[k]->Begin_0.body)
}

/// Every node carries the key that a call from its caller derives at its
/// position.
pub open spec fn keys_consistent(t: Seq<Slot>) -> bool {
    forall|k: int|
        0 <= k < t.len() && (#[trigger] t[k]) is Begin ==> seq_scan(t, k, 0, t[k]->Begin_0.key.caller)
            == t[k]->Begin_0.key.seq_ix
}

/// A fresh cursor over a tree whose id source is at `next_id`.
pub open spec fn start_state(next_id: nat) -> CursorState {
    CursorState { ix: 0, nest: 0, old_nest: 0, ops: Seq::empty(), next_id }
}

/// Build logic that repeats the slots `s`: a begin from each node's caller
/// with its payload, and an end for each `End`.
pub open spec fn replay(t: Seq<Slot>, c: CursorState, s: Seq<Slot>) -> CursorState
    decreases s.len(),
{
    if s.len() == 0 {
        c
    } else {
        let c1 = replay(t, c, s.drop_last());
        match s.last() {
            Slot::Begin(item) => begin_step(t, c1, derive_key(t, c1, item.key.caller), item.body),
            Slot::End => end_step(t, c1),
        }
    }
}

proof fn lemma_replay_prefix(t: Seq<Slot>, next_id: nat, k: int)
    requires
        balanced(t),
        keys_consistent(t),
        self_same(t),
        0 <= k <= t.len(),
    ensures
        replay(t, start_state(next_id), t.take(k)) == (CursorState {
            ix: k as nat,
            nest: level(t.take(k)) as nat,
            old_nest: level(t.take(k)) as nat,
            ops: push_skip(Seq::empty(), k as nat),
            next_id,
        }),
    decreases k,
{
    if k == 0 {
        assert(t.take(0) =~= Seq::<Slot>::empty());
    } else {
        let j = k - 1;
        lemma_replay_prefix(t, next_id, j);
        assert(t.take(k).drop_last() =~= t.take(j));
        assert(t.take(k) =~= t.take(j).push(t[j]));
        lemma_level_push(t.take(j), t[j]);
        assert(level(t.take(j)) >= 0);
        assert(level(t.take(k)) >= 0);
        let c1 = replay(t, start_state(next_id), t.take(j));
        if j > 0 {
            lemma_skip_merge(Seq::empty(), j as nat, 1);
        } else {
            assert(push_skip(Seq::<MutOp>::empty(), 0) == Seq::<MutOp>::empty());
        }
        assert(push_delete(c1.ops, 0) == c1.ops);
        match t[j] {
            Slot::Begin(item) => {
                let key = derive_key(t, c1, item.key.caller);
                assert(key == item.key);
                assert(key_scan(t, j, 0, key) == Some(j));
            },
            Slot::End => {
                assert(end_scan(t, j, 0) == j);
            },
        }
    }
}

/// Idempotent reconciliation: running the build logic that produced a tree
/// again over that tree, with the same callers and payloads, keeps every
/// slot and changes nothing: the operations are one skip of the whole
/// tree. This holds when every node carries the key its position derives
/// and every payload compares equal to itself.
pub proof fn lemma_rebuild_is_skip(t: Seq<Slot>, next_id: nat)
    requires
        balanced(t),
        keys_consistent(t),
        self_same(t),
    ensures
        replay(t, start_state(next_id), t) == (CursorState {
            ix: t.len(),
            nest: 0,
            old_nest: 0,
            ops: push_skip(Seq::empty(), t.len()),
            next_id,
        }),
        forall|i: int|
            0 <= i < push_skip(Seq::empty(), t.len()).len() ==> #[trigger] push_skip(
                Seq::empty(),
                t.len(),
            )[i] == MutOp::Skip(t.len()),
        push_delete(push_skip(Seq::empty(), t.len()), 0) == push_skip(Seq::<MutOp>::empty(), t.len()),
{
    lemma_replay_prefix(t, next_id, t.len() as int);
    assert(t.take(t.len() as int) =~= t);
}

} // verus!
