//! Tree mutations: the edit script from an old tree to a new one.

use vstd::prelude::*;

use crate::id::IdSource;
use crate::tree::{
    balanced, closes_at, ids_below, lemma_level_concat, lemma_never_below_begin, lemma_never_below_end, lemma_tree_view, level,
    never_below, Slot, Tree,
};

verus! {

/// One operation of a mutation, as a mathematical value.
pub enum MutOp {
    Skip(nat),
    Delete(nat),
    Insert(Seq<Slot>),
    Update(Seq<Slot>),
}

/// One item in the representation of a tree mutation.
#[derive(Debug)]
pub enum MutationItem {
    /// No change for the next n slots.
    Skip(usize),
    /// Delete the next n slots.
    Delete(usize),
    /// Insert new slots at the current location.
    Insert(Vec<Slot>),
    /// Replace the next slots, keeping the identity of those locations.
    Update(Vec<Slot>),
}

impl View for MutationItem {
    type V = MutOp;

    open spec fn view(&self) -> MutOp {
        match self {
            MutationItem::Skip(n) => MutOp::Skip(*n as nat),
            MutationItem::Delete(n) => MutOp::Delete(*n as nat),
            MutationItem::Insert(v) => MutOp::Insert(v@),
            MutationItem::Update(v) => MutOp::Update(v@),
        }
    }
}

/// The number of old slots an operation consumes.
pub open spec fn op_consumed(op: MutOp) -> nat {
    match op {
        MutOp::Skip(n) => n,
        MutOp::Delete(n) => n,
        MutOp::Insert(_) => 0,
        MutOp::Update(s) => s.len(),
    }
}

/// The number of old slots a sequence of operations consumes.
pub open spec fn consumed(ops: Seq<MutOp>) -> nat
    decreases ops.len(),
{
    if ops.len() == 0 {
        0
    } else {
        consumed(ops.drop_last()) + op_consumed(ops.last())
    }
}

/// What an operation contributes to the new tree when it starts at old
/// slot `at`.
pub open spec fn piece(op: MutOp, src: Seq<Slot>, at: int) -> Seq<Slot> {
    match op {
        MutOp::Skip(n) => src.subrange(at, at + n),
        MutOp::Delete(_) => Seq::empty(),
        MutOp::Insert(s) => s,
        MutOp::Update(s) => s,
    }
}

/// The new slots that a sequence of operations produces from `src`.
pub open spec fn produced(src: Seq<Slot>, ops: Seq<MutOp>) -> Seq<Slot>
    decreases ops.len(),
{
    if ops.len() == 0 {
        Seq::empty()
    } else {
        produced(src, ops.drop_last()) + piece(ops.last(), src, consumed(ops.drop_last()) as int)
    }
}

/// The tree that results from applying `ops` to `src`: what the operations
/// produce, then the old slots that none of them reached.
pub open spec fn apply(src: Seq<Slot>, ops: Seq<MutOp>) -> Seq<Slot> {
    produced(src, ops) + src.subrange(consumed(ops) as int, src.len() as int)
}

/// Add a skip of `n`, merged into a skip that ends the sequence.
pub open spec fn push_skip(ops: Seq<MutOp>, n: nat) -> Seq<MutOp> {
    if n == 0 {
        ops
    } else if ops.len() > 0 && ops.last() is Skip {
        ops.drop_last().push(MutOp::Skip(ops.last()->Skip_0 + n))
    } else {
        ops.push(MutOp::Skip(n))
    }
}

/// Add a delete of `n`, merged into a delete that ends the sequence.
pub open spec fn push_delete(ops: Seq<MutOp>, n: nat) -> Seq<MutOp> {
    if n == 0 {
        ops
    } else if ops.len() > 0 && ops.last() is Delete {
        ops.drop_last().push(MutOp::Delete(ops.last()->Delete_0 + n))
    } else {
        ops.push(MutOp::Delete(n))
    }
}

/// Add an insert of `s`, merged into an insert that ends the sequence.
pub open spec fn push_insert(ops: Seq<MutOp>, s: Seq<Slot>) -> Seq<MutOp> {
    if s.len() == 0 {
        ops
    } else if ops.len() > 0 && ops.last() is Insert {
        ops.drop_last().push(MutOp::Insert(ops.last()->Insert_0 + s))
    } else {
        ops.push(MutOp::Insert(s))
    }
}

/// Add an update of `s`, merged into an update that ends the sequence.
pub open spec fn push_update(ops: Seq<MutOp>, s: Seq<Slot>) -> Seq<MutOp> {
    if s.len() == 0 {
        ops
    } else if ops.len() > 0 && ops.last() is Update {
        ops.drop_last().push(MutOp::Update(ops.last()->Update_0 + s))
    } else {
        ops.push(MutOp::Update(s))
    }
}

pub proof fn lemma_push_skip(src: Seq<Slot>, ops: Seq<MutOp>, n: nat)
    requires
        consumed(ops) + n <= src.len(),
    ensures
        consumed(push_skip(ops, n)) == consumed(ops) + n,
        produced(src, push_skip(ops, n)) == produced(src, ops) + src.subrange(
            consumed(ops) as int,
            (consumed(ops) + n) as int,
        ),
{
    let c = consumed(ops) as int;
    if n == 0 {
        assert(produced(src, ops) + src.subrange(c, c) =~= produced(src, ops));
    } else if ops.len() > 0 && ops.last() is Skip {
        let r = push_skip(ops, n);
        let m = ops.last()->Skip_0;
        assert(r.drop_last() =~= ops.drop_last());
        let c0 = consumed(ops.drop_last()) as int;
        assert(src.subrange(c0, c0 + m) + src.subrange(c, c + n) =~= src.subrange(c0, c0 + m + n));
        assert(produced(src, r) =~= produced(src, ops) + src.subrange(c, c + n));
    } else {
        assert(ops.push(MutOp::Skip(n)).drop_last() =~= ops);
    }
}

pub proof fn lemma_push_delete(src: Seq<Slot>, ops: Seq<MutOp>, n: nat)
    ensures
        consumed(push_delete(ops, n)) == consumed(ops) + n,
        produced(src, push_delete(ops, n)) == produced(src, ops),
{
    if n == 0 {
    } else if ops.len() > 0 && ops.last() is Delete {
        let r = push_delete(ops, n);
        assert(r.drop_last() =~= ops.drop_last());
        assert(produced(src, r) =~= produced(src, ops));
    } else {
        assert(ops.push(MutOp::Delete(n)).drop_last() =~= ops);
        assert(produced(src, ops) + Seq::<Slot>::empty() =~= produced(src, ops));
    }
}

pub proof fn lemma_push_insert(src: Seq<Slot>, ops: Seq<MutOp>, s: Seq<Slot>)
    ensures
        consumed(push_insert(ops, s)) == consumed(ops),
        produced(src, push_insert(ops, s)) == produced(src, ops) + s,
{
    if s.len() == 0 {
        assert(produced(src, ops) + s =~= produced(src, ops));
    } else if ops.len() > 0 && ops.last() is Insert {
        let r = push_insert(ops, s);
        assert(r.drop_last() =~= ops.drop_last());
        assert(produced(src, r) =~= produced(src, ops) + s);
    } else {
        assert(ops.push(MutOp::Insert(s)).drop_last() =~= ops);
    }
}

pub proof fn lemma_push_update(src: Seq<Slot>, ops: Seq<MutOp>, s: Seq<Slot>)
    ensures
        consumed(push_update(ops, s)) == consumed(ops) + s.len(),
        produced(src, push_update(ops, s)) == produced(src, ops) + s,
{
    if s.len() == 0 {
        assert(produced(src, ops) + s =~= produced(src, ops));
    } else if ops.len() > 0 && ops.last() is Update {
        let r = push_update(ops, s);
        assert(r.drop_last() =~= ops.drop_last());
        assert(produced(src, r) =~= produced(src, ops) + s);
    } else {
        assert(ops.push(MutOp::Update(s)).drop_last() =~= ops);
    }
}

/// An operation of a finished mutation: counts are positive, an insert
/// holds whole elements, an update holds only `Begin` slots.
pub open spec fn op_ok(op: MutOp) -> bool {
    match op {
        MutOp::Skip(n) => n > 0,
        MutOp::Delete(n) => n > 0,
        MutOp::Insert(s) => s.len() > 0 && balanced(s),
        MutOp::Update(s) => s.len() > 0 && forall|i: int| 0 <= i < s.len() ==> #[trigger] s[i] is Begin,
    }
}

/// The shape of the operations of a mutation under construction, with
/// `open` inserted nodes not yet ended: every operation is well formed,
/// except that while nodes are open the last one is an insert that opens
/// them.
pub open spec fn ops_shape(ops: Seq<MutOp>, open: int) -> bool {
    if open == 0 {
        forall|i: int| 0 <= i < ops.len() ==> op_ok(#[trigger] ops[i])
    } else {
        &&& open > 0
        &&& ops.len() > 0
        &&& ops.last() is Insert
        &&& forall|i: int| 0 <= i < ops.len() - 1 ==> op_ok(#[trigger] ops[i])
        &&& never_below(ops.last()->Insert_0)
        &&& level(ops.last()->Insert_0) == open
    }
}

pub proof fn lemma_shape_skip(ops: Seq<MutOp>, n: nat)
    requires
        ops_shape(ops, 0),
    ensures
        ops_shape(push_skip(ops, n), 0),
{
    let r = push_skip(ops, n);
    if n > 0 {
        assert forall|i: int| 0 <= i < r.len() implies op_ok(#[trigger] r[i]) by {
            if i < r.len() - 1 {
                assert(r[i] == ops[i]);
            }
        }
    }
}

pub proof fn lemma_shape_delete(ops: Seq<MutOp>, n: nat)
    requires
        ops_shape(ops, 0),
    ensures
        ops_shape(push_delete(ops, n), 0),
{
    let r = push_delete(ops, n);
    if n > 0 {
        assert forall|i: int| 0 <= i < r.len() implies op_ok(#[trigger] r[i]) by {
            if i < r.len() - 1 {
                assert(r[i] == ops[i]);
            }
        }
    }
}

pub proof fn lemma_shape_update(ops: Seq<MutOp>, x: Slot)
    requires
        ops_shape(ops, 0),
        x is Begin,
    ensures
        ops_shape(push_update(ops, seq![x]), 0),
{
    let r = push_update(ops, seq![x]);
    assert forall|i: int| 0 <= i < r.len() implies op_ok(#[trigger] r[i]) by {
        if i < r.len() - 1 {
            assert(r[i] == ops[i]);
        } else if ops.len() > 0 && ops.last() is Update {
            let s = ops.last()->Update_0 + seq![x];
            assert(op_ok(ops[ops.len() - 1]));
            assert forall|k: int| 0 <= k < s.len() implies #[trigger] s[k] is Begin by {
                if k < s.len() - 1 {
                    assert(s[k] == ops.last()->Update_0[k]);
                }
            }
        }
    }
}

/// Inserting a `Begin` opens one more node.
pub proof fn lemma_shape_insert_begin(ops: Seq<MutOp>, open: int, x: Slot)
    requires
        ops_shape(ops, open),
        open >= 0,
        x is Begin,
    ensures
        ops_shape(push_insert(ops, seq![x]), open + 1),
{
    let r = push_insert(ops, seq![x]);
    if ops.len() > 0 && ops.last() is Insert {
        let s = ops.last()->Insert_0;
        if open == 0 {
            assert(op_ok(ops[ops.len() - 1]));
        }
        lemma_never_below_begin(s, x);
        assert(s.push(x) =~= s + seq![x]);
        assert forall|i: int| 0 <= i < r.len() - 1 implies op_ok(#[trigger] r[i]) by {
            assert(r[i] == ops[i]);
        }
    } else {
        assert(open == 0);
        lemma_never_below_begin(Seq::<Slot>::empty(), x);
        assert(Seq::<Slot>::empty().push(x) =~= seq![x]);
        assert(Seq::<Slot>::empty().take(0) =~= Seq::<Slot>::empty());
        assert forall|i: int| 0 <= i < r.len() - 1 implies op_ok(#[trigger] r[i]) by {
            assert(r[i] == ops[i]);
        }
    }
}

/// Inserting an `End` closes an open node.
pub proof fn lemma_shape_insert_end(ops: Seq<MutOp>, open: int)
    requires
        ops_shape(ops, open),
        open >= 1,
    ensures
        ops_shape(push_insert(ops, seq![Slot::End]), open - 1),
{
    let r = push_insert(ops, seq![Slot::End]);
    let s = ops.last()->Insert_0;
    lemma_never_below_end(s);
    assert(s.push(Slot::End) =~= s + seq![Slot::End]);
    assert forall|i: int| 0 <= i < r.len() - 1 implies op_ok(#[trigger] r[i]) by {
        assert(r[i] == ops[i]);
    }
}

/// What happens to one slot of the old tree.
pub enum SlotFate {
    Kept,
    Deleted,
    Updated,
}

pub open spec fn fate_of(op: MutOp) -> SlotFate {
    match op {
        MutOp::Delete(_) => SlotFate::Deleted,
        MutOp::Update(_) => SlotFate::Updated,
        _ => SlotFate::Kept,
    }
}

/// The fate of each old slot that the operations consume, in order.
pub open spec fn fates(ops: Seq<MutOp>) -> Seq<SlotFate>
    decreases ops.len(),
{
    if ops.len() == 0 {
        Seq::empty()
    } else {
        fates(ops.drop_last()) + Seq::new(op_consumed(ops.last()), |_i: int| fate_of(ops.last()))
    }
}

/// The old slot positions before which the operations insert.
pub open spec fn insert_points(ops: Seq<MutOp>) -> Set<int>
    decreases ops.len(),
{
    if ops.len() == 0 {
        Set::empty()
    } else if ops.last() is Insert {
        insert_points(ops.drop_last()).insert(consumed(ops.drop_last()) as int)
    } else {
        insert_points(ops.drop_last())
    }
}

pub proof fn lemma_fates_len(ops: Seq<MutOp>)
    ensures
        fates(ops).len() == consumed(ops),
        forall|p: int| insert_points(ops).contains(p) ==> 0 <= p <= consumed(ops),
    decreases ops.len(),
{
    if ops.len() > 0 {
        lemma_fates_len(ops.drop_last());
        assert forall|p: int| insert_points(ops).contains(p) implies 0 <= p <= consumed(ops) by {
            if ops.last() is Insert && p == consumed(ops.drop_last()) {
            } else {
                assert(insert_points(ops.drop_last()).contains(p));
            }
        }
    }
}

pub proof fn lemma_fates_push(ops: Seq<MutOp>, op: MutOp)
    ensures
        fates(ops.push(op)) == fates(ops) + Seq::new(op_consumed(op), |_i: int| fate_of(op)),
        insert_points(ops.push(op)) == if op is Insert {
            insert_points(ops).insert(consumed(ops) as int)
        } else {
            insert_points(ops)
        },
{
    assert(ops.push(op).drop_last() =~= ops);
}

/// Adding operations through the merging pushes extends the fates and the
/// insert points as adding them one by one would.
pub proof fn lemma_fates_merge(ops: Seq<MutOp>, op: MutOp)
    requires
        ops.len() > 0,
        same_kind(ops.last(), op),
    ensures
        fates(ops.drop_last().push(merged(ops.last(), op))) == fates(ops) + Seq::new(
            op_consumed(op),
            |_i: int| fate_of(op),
        ),
        (ops.last() is Insert && op is Insert) ==> insert_points(ops.drop_last().push(merged(ops.last(), op)))
            == insert_points(ops),
        (!(ops.last() is Insert) && !(op is Insert)) ==> insert_points(
            ops.drop_last().push(merged(ops.last(), op)),
        ) == insert_points(ops),
{
    let p = ops.drop_last();
    let l = ops.last();
    let m = merged(l, op);
    lemma_fates_push(p, m);
    lemma_fates_push(p, l);
    assert(p.push(l) =~= ops);
    let a = Seq::new(op_consumed(l), |_i: int| fate_of(l));
    let b = Seq::new(op_consumed(op), |_i: int| fate_of(op));
    assert(Seq::new(op_consumed(m), |_i: int| fate_of(m)) =~= a + b);
    assert(fates(p) + (a + b) =~= (fates(p) + a) + b);
}

/// Two operations of one kind, joined.
pub open spec fn same_kind(a: MutOp, b: MutOp) -> bool {
    (a is Skip && b is Skip) || (a is Delete && b is Delete) || (a is Insert && b is Insert) || (
    a is Update && b is Update)
}

pub open spec fn merged(a: MutOp, b: MutOp) -> MutOp {
    match (a, b) {
        (MutOp::Skip(x), MutOp::Skip(y)) => MutOp::Skip(x + y),
        (MutOp::Delete(x), MutOp::Delete(y)) => MutOp::Delete(x + y),
        (MutOp::Insert(x), MutOp::Insert(y)) => MutOp::Insert(x + y),
        (MutOp::Update(x), MutOp::Update(y)) => MutOp::Update(x + y),
        _ => a,
    }
}

/// The fates and insert points after each merging push.
pub proof fn lemma_fates_pushes(ops: Seq<MutOp>, n: nat, s: Seq<Slot>)
    ensures
        fates(push_skip(ops, n)) == fates(ops) + Seq::new(n, |_i: int| SlotFate::Kept),
        insert_points(push_skip(ops, n)) == insert_points(ops),
        fates(push_delete(ops, n)) == fates(ops) + Seq::new(n, |_i: int| SlotFate::Deleted),
        insert_points(push_delete(ops, n)) == insert_points(ops),
        fates(push_update(ops, s)) == fates(ops) + Seq::new(s.len(), |_i: int| SlotFate::Updated),
        insert_points(push_update(ops, s)) == insert_points(ops),
        fates(push_insert(ops, s)) == fates(ops),
        s.len() > 0 ==> insert_points(push_insert(ops, s)) == insert_points(ops).insert(
            consumed(ops) as int,
        ),
{
    lemma_fates_len(ops);
    let e = Seq::<SlotFate>::empty();
    assert(Seq::new(0, |_i: int| SlotFate::Kept) =~= e);
    assert(Seq::new(0, |_i: int| SlotFate::Deleted) =~= e);
    assert(Seq::new(0, |_i: int| SlotFate::Updated) =~= e);
    assert(fates(ops) + e =~= fates(ops));
    if n > 0 {
        if ops.len() > 0 && ops.last() is Skip {
            lemma_fates_merge(ops, MutOp::Skip(n));
        } else {
            lemma_fates_push(ops, MutOp::Skip(n));
        }
        if ops.len() > 0 && ops.last() is Delete {
            lemma_fates_merge(ops, MutOp::Delete(n));
        } else {
            lemma_fates_push(ops, MutOp::Delete(n));
        }
    }
    if s.len() > 0 {
        if ops.len() > 0 && ops.last() is Update {
            lemma_fates_merge(ops, MutOp::Update(s));
        } else {
            lemma_fates_push(ops, MutOp::Update(s));
        }
        if ops.len() > 0 && ops.last() is Insert {
            lemma_fates_merge(ops, MutOp::Insert(s));
            assert(insert_points(ops) == insert_points(ops.drop_last()).insert(
                consumed(ops.drop_last()) as int,
            ));
            assert(consumed(ops) == consumed(ops.drop_last()));
            assert(insert_points(ops).insert(consumed(ops) as int) =~= insert_points(ops));
        } else {
            lemma_fates_push(ops, MutOp::Insert(s));
        }
    }
}

/// Deletes take whole elements: an element of `t` whose `Begin` is
/// deleted is deleted up to its `End`, with nothing inserted inside it.
pub open spec fn deletes_whole(t: Seq<Slot>, ops: Seq<MutOp>) -> bool {
    forall|i: int, n: int|
        #![trigger closes_at(t, i, n)]
        0 <= i < fates(ops).len() && closes_at(t, i, n) && fates(ops)[i] == SlotFate::Deleted ==> {
            &&& i + n <= fates(ops).len()
            &&& forall|j: int| i <= j < i + n ==> #[trigger] fates(ops)[j] == SlotFate::Deleted
            &&& forall|p: int| #[trigger] insert_points(ops).contains(p) ==> !(i < p < i + n)
        }
}

/// Updates keep the slot variant: only `Begin` slots are updated.
pub open spec fn updates_begins(t: Seq<Slot>, ops: Seq<MutOp>) -> bool {
    forall|j: int|
        0 <= j < fates(ops).len() && #[trigger] fates(ops)[j] == SlotFate::Updated ==> t[j] is Begin
}

/// An element that starts inside a balanced run ends inside it.
pub proof fn lemma_element_within(t: Seq<Slot>, a: int, b: int, i: int, m: int)
    requires
        0 <= a <= i < b <= t.len(),
        balanced(t.subrange(a, b)),
        closes_at(t, i, m),
    ensures
        i + m <= b,
{
    if i + m > b {
        let k = b - i;
        assert(level(t.subrange(i, i + k)) > 0);
        assert(t.subrange(a, b).take(i - a) =~= t.subrange(a, i));
        assert(t.subrange(a, i) + t.subrange(i, b) =~= t.subrange(a, b));
        lemma_level_concat(t.subrange(a, i), t.subrange(i, b));
    }
}

pub proof fn lemma_aligned_keep(t: Seq<Slot>, ops: Seq<MutOp>, n: nat)
    requires
        deletes_whole(t, ops),
        updates_begins(t, ops),
    ensures
        deletes_whole(t, push_skip(ops, n)),
        updates_begins(t, push_skip(ops, n)),
{
    let s = Seq::<Slot>::empty();
    lemma_fates_pushes(ops, n, s);
    lemma_fates_len(ops);
    let r = push_skip(ops, n);
    let f = fates(ops);
    assert forall|i: int, m: int|
        #![trigger closes_at(t, i, m)]
        0 <= i < fates(r).len() && closes_at(t, i, m) && fates(r)[i] == SlotFate::Deleted implies {
            &&& i + m <= fates(r).len()
            &&& forall|j: int| i <= j < i + m ==> #[trigger] fates(r)[j] == SlotFate::Deleted
            &&& forall|p: int| #[trigger] insert_points(r).contains(p) ==> !(i < p < i + m)
        } by {
        assert(i < f.len());
        assert(fates(r)[i] == f[i]);
        assert forall|j: int| i <= j < i + m implies #[trigger] fates(r)[j] == SlotFate::Deleted by {
            assert(fates(r)[j] == f[j]);
        }
    }
    assert forall|j: int| 0 <= j < fates(r).len() && #[trigger] fates(r)[j] == SlotFate::Updated implies t[j] is Begin by {
        assert(j < f.len());
        assert(fates(r)[j] == f[j]);
    }
}

pub proof fn lemma_aligned_update(t: Seq<Slot>, ops: Seq<MutOp>, x: Slot)
    requires
        deletes_whole(t, ops),
        updates_begins(t, ops),
        consumed(ops) < t.len(),
        t[consumed(ops) as int] is Begin,
    ensures
        deletes_whole(t, push_update(ops, seq![x])),
        updates_begins(t, push_update(ops, seq![x])),
{
    lemma_fates_pushes(ops, 0, seq![x]);
    lemma_fates_len(ops);
    let r = push_update(ops, seq![x]);
    let f = fates(ops);
    assert forall|i: int, m: int|
        #![trigger closes_at(t, i, m)]
        0 <= i < fates(r).len() && closes_at(t, i, m) && fates(r)[i] == SlotFate::Deleted implies {
            &&& i + m <= fates(r).len()
            &&& forall|j: int| i <= j < i + m ==> #[trigger] fates(r)[j] == SlotFate::Deleted
            &&& forall|p: int| #[trigger] insert_points(r).contains(p) ==> !(i < p < i + m)
        } by {
        assert(i < f.len());
        assert(fates(r)[i] == f[i]);
        assert forall|j: int| i <= j < i + m implies #[trigger] fates(r)[j] == SlotFate::Deleted by {
            assert(fates(r)[j] == f[j]);
        }
    }
    assert forall|j: int| 0 <= j < fates(r).len() && #[trigger] fates(r)[j] == SlotFate::Updated implies t[j] is Begin by {
        if j < f.len() {
            assert(fates(r)[j] == f[j]);
        }
    }
}

pub proof fn lemma_aligned_delete(t: Seq<Slot>, ops: Seq<MutOp>, n: nat)
    requires
        deletes_whole(t, ops),
        updates_begins(t, ops),
        consumed(ops) + n <= t.len(),
        balanced(t.subrange(consumed(ops) as int, (consumed(ops) + n) as int)),
    ensures
        deletes_whole(t, push_delete(ops, n)),
        updates_begins(t, push_delete(ops, n)),
{
    let s = Seq::<Slot>::empty();
    lemma_fates_pushes(ops, n, s);
    lemma_fates_len(ops);
    let r = push_delete(ops, n);
    let f = fates(ops);
    let c = consumed(ops) as int;
    assert forall|i: int, m: int|
        #![trigger closes_at(t, i, m)]
        0 <= i < fates(r).len() && closes_at(t, i, m) && fates(r)[i] == SlotFate::Deleted implies {
            &&& i + m <= fates(r).len()
            &&& forall|j: int| i <= j < i + m ==> #[trigger] fates(r)[j] == SlotFate::Deleted
            &&& forall|p: int| #[trigger] insert_points(r).contains(p) ==> !(i < p < i + m)
        } by {
        if i < c {
            assert(fates(r)[i] == f[i]);
            assert forall|j: int| i <= j < i + m implies #[trigger] fates(r)[j] == SlotFate::Deleted by {
                assert(fates(r)[j] == f[j]);
            }
        } else {
            lemma_element_within(t, c, c + n, i, m);
        }
    }
    assert forall|j: int| 0 <= j < fates(r).len() && #[trigger] fates(r)[j] == SlotFate::Updated implies t[j] is Begin by {
        assert(j < f.len());
        assert(fates(r)[j] == f[j]);
    }
}

pub proof fn lemma_aligned_insert(t: Seq<Slot>, ops: Seq<MutOp>, s: Seq<Slot>)
    requires
        deletes_whole(t, ops),
        updates_begins(t, ops),
        s.len() > 0,
    ensures
        deletes_whole(t, push_insert(ops, s)),
        updates_begins(t, push_insert(ops, s)),
{
    lemma_fates_pushes(ops, 0, s);
    lemma_fates_len(ops);
    let r = push_insert(ops, s);
    assert forall|i: int, m: int|
        #![trigger closes_at(t, i, m)]
        0 <= i < fates(r).len() && closes_at(t, i, m) && fates(r)[i] == SlotFate::Deleted implies {
            &&& i + m <= fates(r).len()
            &&& forall|j: int| i <= j < i + m ==> #[trigger] fates(r)[j] == SlotFate::Deleted
            &&& forall|p: int| #[trigger] insert_points(r).contains(p) ==> !(i < p < i + m)
        } by {
        assert forall|p: int| #[trigger] insert_points(r).contains(p) implies !(i < p < i + m) by {
            if p != consumed(ops) {
                assert(insert_points(ops).contains(p));
            }
        }
    }
}

/// A tree mutation.
///
/// It is the delta from the old state of a tree to the new: the tree is not
/// changed in place while the build logic runs, an explicit mutation is
/// produced instead and applied afterwards. A mutation remembers the tree
/// it was made against; against that tree, its operations consume exactly
/// the old slots, and the result is balanced.
pub struct Mutation {
    ops: Vec<MutationItem>,
    ids: IdSource,
    source: Ghost<Seq<Slot>>,
}

impl View for Mutation {
    type V = Seq<MutOp>;

    closed spec fn view(&self) -> Seq<MutOp> {
        self.ops@.map_values(|i: MutationItem| i@)
    }
}

impl Mutation {
    /// The slots of the tree the mutation was made against.
    pub closed spec fn source(&self) -> Seq<Slot> {
        self.source@
    }

    /// The id source of the tree once the mutation has been applied.
    pub open spec fn next_id(&self) -> nat {
        self.ids().next as nat
    }

    /// The mutation covers its source tree exactly and yields a balanced
    /// tree whose ids were all issued below `next_id`.
    pub open spec fn wf(&self) -> bool {
        &&& consumed(self@) == self.source().len()
        &&& ops_shape(self@, 0)
        &&& deletes_whole(self.source(), self@)
        &&& updates_begins(self.source(), self@)
        &&& balanced(apply(self.source(), self@))
        &&& ids_below(apply(self.source(), self@), self.next_id())
    }

    /// A mutation under construction, with no operations yet.
    pub(crate) fn new(source: Ghost<Seq<Slot>>, ids: IdSource) -> (r: Mutation)
        ensures
            r@ == Seq::<MutOp>::empty(),
            r.source() == source@,
            r.ids() == ids,
    {
        let r = Mutation { ops: Vec::new(), ids, source };
        assert(r@ =~= Seq::<MutOp>::empty());
        r
    }

    pub closed spec fn ids(&self) -> IdSource {
        self.ids
    }

    /// The value of the next id to be issued.
    pub fn next_id_value(&self) -> (r: u64)
        ensures
            r == self.ids().next,
            r == self.next_id(),
    {
        self.ids.next
    }

    /// The operations of the mutation.
    pub fn items(&self) -> (r: &Vec<MutationItem>)
        ensures
            r@.map_values(|i: MutationItem| i@) == self@,
    {
        &self.ops
    }

    /// Allocate an id for a newly inserted node.
    pub(crate) fn new_id(&mut self) -> (r: crate::id::Id)
        requires
            old(self).ids().next < u64::MAX,
        ensures
            r.0 == old(self).ids().next,
            final(self).ids().next == old(self).ids().next + 1,
            final(self)@ == old(self)@,
            final(self).source() == old(self).source(),
    {
        crate::id::Id::new(&mut self.ids)
    }

    pub(crate) fn skip(&mut self, n: usize)
        requires
            consumed(old(self)@) + n <= usize::MAX,
        ensures
            final(self)@ == push_skip(old(self)@, n as nat),
            final(self).source() == old(self).source(),
            final(self).ids() == old(self).ids(),
    {
        if n == 0 {
            return;
        }
        let ghost before = self@;
        match self.ops.pop() {
            Some(MutationItem::Skip(m)) => {
                proof {
                    assert(before.last() == MutOp::Skip(m as nat));
                    lemma_consumed_last(before);
                }
                self.ops.push(MutationItem::Skip(m + n));
                assert(self@ =~= push_skip(before, n as nat));
            },
            Some(other) => {
                self.ops.push(other);
                self.ops.push(MutationItem::Skip(n));
                assert(self@ =~= push_skip(before, n as nat));
            },
            None => {
                self.ops.push(MutationItem::Skip(n));
                assert(self@ =~= push_skip(before, n as nat));
            },
        }
    }

    pub(crate) fn delete(&mut self, n: usize)
        requires
            consumed(old(self)@) + n <= usize::MAX,
        ensures
            final(self)@ == push_delete(old(self)@, n as nat),
            final(self).source() == old(self).source(),
            final(self).ids() == old(self).ids(),
    {
        if n == 0 {
            return;
        }
        let ghost before = self@;
        match self.ops.pop() {
            Some(MutationItem::Delete(m)) => {
                proof {
                    assert(before.last() == MutOp::Delete(m as nat));
                    lemma_consumed_last(before);
                }
                self.ops.push(MutationItem::Delete(m + n));
                assert(self@ =~= push_delete(before, n as nat));
            },
            Some(other) => {
                self.ops.push(other);
                self.ops.push(MutationItem::Delete(n));
                assert(self@ =~= push_delete(before, n as nat));
            },
            None => {
                self.ops.push(MutationItem::Delete(n));
                assert(self@ =~= push_delete(before, n as nat));
            },
        }
    }

    /// Insert a single slot.
    pub(crate) fn insert_one(&mut self, slot: Slot)
        ensures
            final(self)@ == push_insert(old(self)@, seq![slot]),
            final(self).source() == old(self).source(),
            final(self).ids() == old(self).ids(),
    {
        let ghost before = self@;
        let ghost s = seq![slot];
        match self.ops.pop() {
            Some(MutationItem::Insert(mut v)) => {
                let ghost v0 = v@;
                v.push(slot);
                assert(v@ =~= v0 + s);
                self.ops.push(MutationItem::Insert(v));
                assert(self@ =~= push_insert(before, s));
            },
            Some(other) => {
                self.ops.push(other);
                let mut v: Vec<Slot> = Vec::new();
                v.push(slot);
                assert(v@ =~= s);
                self.ops.push(MutationItem::Insert(v));
                assert(self@ =~= push_insert(before, s));
            },
            None => {
                let mut v: Vec<Slot> = Vec::new();
                v.push(slot);
                assert(v@ =~= s);
                self.ops.push(MutationItem::Insert(v));
                assert(self@ =~= push_insert(before, s));
            },
        }
    }

    /// Update a single slot.
    pub(crate) fn update_one(&mut self, slot: Slot)
        ensures
            final(self)@ == push_update(old(self)@, seq![slot]),
            final(self).source() == old(self).source(),
            final(self).ids() == old(self).ids(),
    {
        let ghost before = self@;
        let ghost s = seq![slot];
        match self.ops.pop() {
            Some(MutationItem::Update(mut v)) => {
                let ghost v0 = v@;
                v.push(slot);
                assert(v@ =~= v0 + s);
                self.ops.push(MutationItem::Update(v));
                assert(self@ =~= push_update(before, s));
            },
            Some(other) => {
                self.ops.push(other);
                let mut v: Vec<Slot> = Vec::new();
                v.push(slot);
                assert(v@ =~= s);
                self.ops.push(MutationItem::Update(v));
                assert(self@ =~= push_update(before, s));
            },
            None => {
                let mut v: Vec<Slot> = Vec::new();
                v.push(slot);
                assert(v@ =~= s);
                self.ops.push(MutationItem::Update(v));
                assert(self@ =~= push_update(before, s));
            },
        }
    }
}

pub proof fn lemma_consumed_last(ops: Seq<MutOp>)
    requires
        ops.len() > 0,
    ensures
        op_consumed(ops.last()) <= consumed(ops),
{
}

} // verus!

verus! {

/// `rev` holds the last `rev.len()` slots of `src`, in reverse order.
spec fn rev_suffix(rev: Seq<Slot>, src: Seq<Slot>) -> bool {
    &&& rev.len() <= src.len()
    &&& forall|k: int| 0 <= k < rev.len() ==> #[trigger] rev[k] == src[src.len() - 1 - k]
}

proof fn lemma_consumed_take(ops: Seq<MutOp>, i: int, j: int)
    requires
        0 <= i <= j <= ops.len(),
    ensures
        consumed(ops.take(i)) <= consumed(ops.take(j)),
    decreases j - i,
{
    if i < j {
        lemma_consumed_take(ops, i, j - 1);
        assert(ops.take(j).drop_last() =~= ops.take(j - 1));
    }
}

/// Move the next `n` slots of `src` from `rev` to the end of `out`.
fn move_slots(rev: &mut Vec<Slot>, out: &mut Vec<Slot>, n: usize, Ghost(src): Ghost<Seq<Slot>>)
    requires
        rev_suffix(old(rev)@, src),
        n <= old(rev)@.len(),
    ensures
        rev_suffix(final(rev)@, src),
        final(rev)@.len() == old(rev)@.len() - n,
        final(out)@ == old(out)@ + src.subrange(
            src.len() - old(rev)@.len(),
            src.len() - old(rev)@.len() + n,
        ),
{
    let ghost p = src.len() - rev@.len();
    let ghost out0 = out@;
    let mut k: usize = 0;
    while k < n
        invariant
            rev_suffix(rev@, src),
            k <= n,
            n <= rev@.len() + k,
            rev@.len() + k == src.len() - p,
            0 <= p,
            p + k <= src.len(),
            out@ == out0 + src.subrange(p, p + k),
        decreases n - k,
    {
        let ghost r0 = rev@;
        assert(r0.len() >= 1);
        if let Some(x) = rev.pop() {
            assert(x == r0[r0.len() - 1]);
            assert(x == src[p + k]);
            out.push(x);
            assert(out@ =~= out0 + src.subrange(p, p + k + 1));
        }
        k = k + 1;
    }
}

/// Drop the next `n` slots of `src` from `rev`.
fn drop_slots(rev: &mut Vec<Slot>, n: usize, Ghost(src): Ghost<Seq<Slot>>)
    requires
        rev_suffix(old(rev)@, src),
        n <= old(rev)@.len(),
    ensures
        rev_suffix(final(rev)@, src),
        final(rev)@.len() == old(rev)@.len() - n,
{
    let mut k: usize = 0;
    while k < n
        invariant
            rev_suffix(rev@, src),
            k <= n,
            n <= rev@.len() + k,
            rev@.len() + k == old(rev)@.len(),
        decreases n - k,
    {
        let _ = rev.pop();
        k = k + 1;
    }
}

impl Tree {
    /// Apply the mutation, mutating the tree.
    pub fn mutate(&mut self, mutation: Mutation)
        requires
            old(self).wf(),
            mutation.wf(),
            mutation.source() == old(self)@,
        ensures
            final(self)@ == apply(old(self)@, mutation@),
            final(self).next_id() == if mutation.next_id() > old(self).next_id() {
                mutation.next_id()
            } else {
                old(self).next_id()
            },
            final(self).wf(),
    {
        proof {
            lemma_tree_view(self);
        }
        let ghost src = self@;
        let ghost opsv = mutation@;
        let Mutation { mut ops, ids, source: _ } = mutation;
        let mut old_slots: Vec<Slot> = Vec::new();
        std::mem::swap(&mut old_slots, &mut self.slots);
        assert(old_slots@ =~= src.take(src.len() as int));
        let mut rev: Vec<Slot> = Vec::new();
        while old_slots.len() > 0
            invariant
                rev@.len() + old_slots@.len() == src.len(),
                old_slots@ == src.take(old_slots@.len() as int),
                rev_suffix(rev@, src),
            decreases old_slots.len(),
        {
            if let Some(x) = old_slots.pop() {
                rev.push(x);
            }
        }
        let mut rops: Vec<MutationItem> = Vec::new();
        let ghost nops = opsv.len();
        while ops.len() > 0
            invariant
                rops@.len() + ops@.len() == nops,
                nops == opsv.len(),
                forall|k: int| 0 <= k < ops@.len() ==> (#[trigger] ops@[k])@ == opsv[k],
                forall|k: int| 0 <= k < rops@.len() ==> (#[trigger] rops@[k])@ == opsv[nops - 1 - k],
            decreases ops.len(),
        {
            if let Some(x) = ops.pop() {
                rops.push(x);
            }
        }
        let mut out: Vec<Slot> = Vec::new();
        let ghost mut i: int = 0;
        proof {
            assert(opsv.take(0) =~= Seq::<MutOp>::empty());
            assert(out@ =~= produced(src, opsv.take(0)));
        }
        while rops.len() > 0
            invariant
                0 <= i <= nops,
                nops == opsv.len(),
                rops@.len() + i == nops,
                forall|k: int| 0 <= k < rops@.len() ==> (#[trigger] rops@[k])@ == opsv[nops - 1 - k],
                rev_suffix(rev@, src),
                src.len() - rev@.len() == consumed(opsv.take(i)),
                out@ == produced(src, opsv.take(i)),
                consumed(opsv) == src.len(),
            decreases rops.len(),
        {
            let ghost p = src.len() - rev@.len();
            proof {
                lemma_consumed_take(opsv, i + 1, nops as int);
                assert(opsv.take(nops as int) =~= opsv);
                assert(opsv.take(i + 1).drop_last() =~= opsv.take(i));
                assert(opsv.take(i + 1).last() == opsv[i]);
            }
            if let Some(item) = rops.pop() {
                assert(item@ == opsv[i]);
                match item {
                    MutationItem::Skip(n) => {
                        move_slots(&mut rev, &mut out, n, Ghost(src));
                    },
                    MutationItem::Delete(n) => {
                        drop_slots(&mut rev, n, Ghost(src));
                        assert(out@ =~= produced(src, opsv.take(i)) + Seq::<Slot>::empty());
                    },
                    MutationItem::Insert(mut v) => {
                        out.append(&mut v);
                    },
                    MutationItem::Update(mut v) => {
                        drop_slots(&mut rev, v.len(), Ghost(src));
                        out.append(&mut v);
                    },
                }
                proof {
                    i = i + 1;
                }
            }
        }
        proof {
            assert(opsv.take(i) =~= opsv);
            assert(src.subrange(src.len() as int, src.len() as int) =~= Seq::<Slot>::empty());
            assert(out@ =~= apply(src, opsv));
        }
        self.slots = out;
        if ids.next > self.ids.next {
            self.ids = ids;
        }
        proof {
            lemma_tree_view(self);
        }
    }
}

} // verus!
