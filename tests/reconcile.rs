use crochet::actions::{Action, DruidAppData};
use crochet::cursor::MutCursor;
use crochet::id::Id;
use crochet::iter::{MutIterItem, MutationIter};
use crochet::key::Caller;
use crochet::mutation::{Mutation, MutationItem};
use crochet::payload::{Payload, StateBlob, ViewDesc};
use crochet::tree::{Slot, Tree};

fn label(s: &str) -> Payload {
    Payload::View(ViewDesc::Label(s.to_string()))
}

fn state(v: u8) -> StateBlob {
    StateBlob::new(7, vec![v])
}

fn ops(m: &Mutation) -> Vec<String> {
    m.items()
        .iter()
        .map(|op| match op {
            MutationItem::Skip(n) => format!("skip {}", n),
            MutationItem::Delete(n) => format!("delete {}", n),
            MutationItem::Insert(v) => format!("insert {}", v.len()),
            MutationItem::Update(v) => format!("update {}", v.len()),
        })
        .collect()
}

fn payload_name(p: &Payload) -> String {
    match p {
        Payload::View(ViewDesc::Label(s)) => s.clone(),
        Payload::View(v) => format!("{:?}", v),
        Payload::State(s) => format!("state {:?}", s.data),
        Payload::Future(id, _) => format!("future {:?}", id),
        Payload::Placeholder => "placeholder".to_string(),
    }
}

/// The tree as (depth, id, name) for each node, in order.
fn dump(tree: &Tree) -> Vec<(usize, Id, String)> {
    let mut out = Vec::new();
    let mut depth = 0;
    for slot in tree.slots() {
        match slot {
            Slot::Begin(item) => {
                out.push((depth, item.id, payload_name(&item.body)));
                depth += 1;
            }
            Slot::End => depth -= 1,
        }
    }
    out
}

fn is_balanced(tree: &Tree) -> bool {
    let mut depth: i64 = 0;
    for slot in tree.slots() {
        match slot {
            Slot::Begin(_) => depth += 1,
            Slot::End => depth -= 1,
        }
        if depth < 0 {
            return false;
        }
    }
    depth == 0
}

fn consumed(m: &Mutation) -> usize {
    m.items()
        .iter()
        .map(|op| match op {
            MutationItem::Skip(n) | MutationItem::Delete(n) => *n,
            MutationItem::Insert(_) => 0,
            MutationItem::Update(v) => v.len(),
        })
        .sum()
}

#[derive(Clone, Debug, PartialEq)]
struct Node {
    id: Id,
    name: String,
    children: Vec<Node>,
}

fn nodes(tree: &Tree) -> Vec<Node> {
    fn level(slots: &[Slot], ix: &mut usize) -> Vec<Node> {
        let mut out = Vec::new();
        while *ix < slots.len() {
            match &slots[*ix] {
                Slot::Begin(item) => {
                    *ix += 1;
                    let children = level(slots, ix);
                    *ix += 1;
                    out.push(Node { id: item.id, name: payload_name(&item.body), children });
                }
                Slot::End => return out,
            }
        }
        out
    }
    let mut ix = 0;
    level(tree.slots(), &mut ix)
}

/// Mirror a mutation onto a nested copy of the old tree, as a widget layer
/// would, through the iterator alone.
fn replay(old: &[Node], mut iter: MutationIter) -> Vec<Node> {
    let mut out = Vec::new();
    let mut old_ix = 0;
    while let Some(item) = iter.next() {
        match item {
            MutIterItem::Skip(n) => {
                for _ in 0..n {
                    out.push(old[old_ix].clone());
                    old_ix += 1;
                }
            }
            MutIterItem::Delete(n) => old_ix += n,
            MutIterItem::Insert(id, body, child) => {
                out.push(Node { id, name: payload_name(body), children: replay(&[], child) });
            }
            MutIterItem::Update(body, child) => {
                let prev = &old[old_ix];
                old_ix += 1;
                let name = match body {
                    Some(p) => payload_name(p),
                    None => prev.name.clone(),
                };
                out.push(Node { id: prev.id, name, children: replay(&prev.children, child) });
            }
        }
    }
    out
}

fn site(n: u64) -> Caller {
    Caller::new(n)
}

fn frame_root_leaves(tree: &Tree, leaves: &[(u64, &str)]) -> Mutation {
    let mut cx = MutCursor::new(tree);
    cx.begin(site(1), label("root"));
    for (s, name) in leaves {
        cx.leaf(site(*s), label(name));
    }
    cx.end();
    cx.into_mutation()
}

fn apply_checked(tree: &mut Tree, m: Mutation) {
    let before = nodes(tree);
    let iter_result = replay(&before, MutationIter::new(tree, &m));
    assert_eq!(consumed(&m), tree.slots().len());
    tree.mutate(m);
    assert!(is_balanced(tree));
    assert_eq!(iter_result, nodes(tree));
}

#[test]
fn concrete_scenario_insert_then_grow() {
    let mut tree = Tree::new();
    let m = frame_root_leaves(&tree, &[(2, "a0"), (3, "b0")]);
    assert_eq!(ops(&m), vec!["insert 6"]);
    apply_checked(&mut tree, m);
    let d = dump(&tree);
    assert_eq!(d.len(), 3);
    assert_eq!((d[0].0, d[0].2.as_str()), (0, "root"));
    assert_eq!((d[1].0, d[1].2.as_str()), (1, "a0"));
    assert_eq!((d[2].0, d[2].2.as_str()), (1, "b0"));

    let m = frame_root_leaves(&tree, &[(2, "a0"), (4, "a1"), (3, "b0")]);
    assert_eq!(ops(&m), vec!["skip 3", "insert 2", "skip 3"]);
    assert_eq!(consumed(&m), 6);
    apply_checked(&mut tree, m);
    let d2 = dump(&tree);
    let names: Vec<&str> = d2.iter().map(|n| n.2.as_str()).collect();
    assert_eq!(names, vec!["root", "a0", "a1", "b0"]);
    assert_eq!(d2[0].1, d[0].1);
    assert_eq!(d2[1].1, d[1].1);
    assert_eq!(d2[3].1, d[2].1);
    assert!(d2[2].1 != d[0].1 && d2[2].1 != d[1].1 && d2[2].1 != d[2].1);
    assert_eq!(tree.slots().len(), 8);
}

#[test]
fn rebuild_same_tree_is_all_skip() {
    let mut tree = Tree::new();
    let mut cx = MutCursor::new(&tree);
    cx.leaf(site(1), label("a"));
    let m = cx.into_mutation();
    apply_checked(&mut tree, m);

    let mut cx = MutCursor::new(&tree);
    cx.leaf(site(1), label("a"));
    let m = cx.into_mutation();
    assert_eq!(ops(&m), vec!["skip 2"]);

    let m = frame_root_leaves(&tree, &[]);
    apply_checked(&mut tree, m);
    let m = frame_root_leaves(&tree, &[(2, "x"), (3, "y")]);
    apply_checked(&mut tree, m);
    let m = frame_root_leaves(&tree, &[(2, "x"), (3, "y")]);
    assert_eq!(ops(&m), vec!["skip 6"]);
}

#[test]
fn update_keeps_id_and_insert_gets_new() {
    let mut tree = Tree::new();
    let m = frame_root_leaves(&tree, &[(2, "a")]);
    apply_checked(&mut tree, m);
    let old_leaf = dump(&tree)[1].1;

    let m = frame_root_leaves(&tree, &[(2, "changed"), (3, "new")]);
    assert_eq!(ops(&m), vec!["skip 1", "update 1", "skip 1", "insert 2", "skip 1"]);
    let updated = match &m.items()[1] {
        MutationItem::Update(v) => match &v[0] {
            Slot::Begin(item) => item.id,
            Slot::End => panic!("update of an end"),
        },
        _ => panic!("expected an update"),
    };
    let inserted = match &m.items()[3] {
        MutationItem::Insert(v) => match &v[0] {
            Slot::Begin(item) => item.id,
            Slot::End => panic!("insert of an end"),
        },
        _ => panic!("expected an insert"),
    };
    assert_eq!(updated, old_leaf);
    assert!(inserted != updated);
    apply_checked(&mut tree, m);
    let d = dump(&tree);
    assert_eq!(d[1].1, old_leaf);
    assert_eq!(d[1].2, "changed");
    assert_eq!(d[2].1, inserted);
}

fn counter_frame(tree: &Tree, data: u8, actions: &DruidAppData, runs: &mut u32) -> Mutation {
    let mut cx = MutCursor::new(tree);
    if cx.if_changed(site(10), state(data), actions) {
        *runs += 1;
        cx.begin(site(11), label("body"));
        cx.leaf(site(12), label(&format!("count {}", data)));
        cx.end();
        cx.end();
    }
    cx.into_mutation()
}

#[test]
fn if_changed_skips_unchanged_subtree() {
    let mut tree = Tree::new();
    let actions = DruidAppData::new();
    let mut runs = 0;
    let m = counter_frame(&tree, 1, &actions, &mut runs);
    assert_eq!(runs, 1);
    apply_checked(&mut tree, m);
    assert_eq!(tree.slots().len(), 6);

    let m = counter_frame(&tree, 1, &actions, &mut runs);
    assert_eq!(runs, 1);
    assert_eq!(ops(&m), vec!["skip 6"]);

    let m = counter_frame(&tree, 2, &actions, &mut runs);
    assert_eq!(runs, 2);
    assert_eq!(ops(&m), vec!["update 1", "skip 1", "update 1", "skip 3"]);
    apply_checked(&mut tree, m);
}

#[test]
fn if_changed_runs_when_action_pending() {
    let mut tree = Tree::new();
    let mut actions = DruidAppData::new();
    let mut runs = 0;
    let m = counter_frame(&tree, 1, &actions, &mut runs);
    apply_checked(&mut tree, m);
    let leaf_id = dump(&tree)[2].1;
    actions.queue_action(leaf_id, Action::Clicked);
    let m = counter_frame(&tree, 1, &actions, &mut runs);
    assert_eq!(runs, 2);
    assert_eq!(ops(&m), vec!["skip 6"]);
}

#[test]
fn if_changed_state_of_three_slots_is_one_skip() {
    let mut tree = Tree::new();
    let actions = DruidAppData::new();
    let mut runs = 0;
    let build = |tree: &Tree, runs: &mut u32| {
        let mut cx = MutCursor::new(tree);
        if cx.if_changed(site(1), state(5), &actions) {
            *runs += 1;
            cx.leaf(site(2), label("only"));
            cx.end();
        }
        cx.into_mutation()
    };
    let m = build(&tree, &mut runs);
    apply_checked(&mut tree, m);
    assert_eq!(tree.slots().len(), 4);
    let m = build(&tree, &mut runs);
    assert_eq!(runs, 1);
    assert_eq!(ops(&m), vec!["skip 4"]);
}

#[test]
fn removing_middle_leaf_keeps_ids() {
    let mut tree = Tree::new();
    let names = ["a", "b", "c", "d"];
    let items: Vec<(u64, &str)> = names.iter().enumerate().map(|(i, n)| (100 + i as u64, *n)).collect();
    let m = frame_root_leaves(&tree, &items);
    apply_checked(&mut tree, m);
    let before = dump(&tree);

    let fewer: Vec<(u64, &str)> = items.iter().filter(|(_, n)| *n != "b").cloned().collect();
    let m = frame_root_leaves(&tree, &fewer);
    assert_eq!(ops(&m), vec!["skip 3", "delete 2", "skip 5"]);
    apply_checked(&mut tree, m);
    let after = dump(&tree);
    let names_after: Vec<&str> = after.iter().map(|n| n.2.as_str()).collect();
    assert_eq!(names_after, vec!["root", "a", "c", "d"]);
    assert_eq!(after[1].1, before[1].1);
    assert_eq!(after[2].1, before[3].1);
    assert_eq!(after[3].1, before[4].1);
    assert!(after.iter().all(|n| n.1 != before[2].1));
    assert_eq!(tree.slots().len(), 8);
}

#[test]
fn same_caller_in_a_loop_counts_siblings() {
    let mut tree = Tree::new();
    let m = frame_root_leaves(&tree, &[(5, "x"), (5, "y")]);
    apply_checked(&mut tree, m);
    let m = frame_root_leaves(&tree, &[(5, "x"), (5, "y")]);
    apply_checked(&mut tree, m);
    let m = frame_root_leaves(&tree, &[(5, "x"), (5, "y")]);
    assert_eq!(ops(&m), vec!["skip 6"]);
}

#[test]
fn deleting_trailing_and_nested() {
    let mut tree = Tree::new();
    let mut cx = MutCursor::new(&tree);
    cx.begin(site(1), label("outer"));
    cx.begin(site(2), label("inner"));
    cx.leaf(site(3), label("deep"));
    cx.end();
    cx.leaf(site(4), label("tail"));
    cx.end();
    cx.leaf(site(6), label("after"));
    let m = cx.into_mutation();
    apply_checked(&mut tree, m);
    assert_eq!(tree.slots().len(), 10);

    let mut cx = MutCursor::new(&tree);
    cx.begin(site(1), label("outer"));
    cx.begin(site(7), label("fresh"));
    cx.leaf(site(8), label("fresh child"));
    cx.end();
    cx.end();
    let m = cx.into_mutation();
    assert_eq!(ops(&m), vec!["skip 1", "insert 4", "delete 6", "skip 1", "delete 2"]);
    apply_checked(&mut tree, m);
    let names: Vec<String> = dump(&tree).into_iter().map(|n| n.2).collect();
    assert_eq!(names, vec!["outer", "fresh", "fresh child"]);
}

#[test]
fn manual_insert_update_skip_delete() {
    let mut tree = Tree::new();
    let mut cx = MutCursor::new(&tree);
    cx.begin_insert(Payload::Placeholder);
    cx.end();
    cx.begin_insert(Payload::Placeholder);
    cx.leaf(site(1), label("kid"));
    cx.end();
    let m = cx.into_mutation();
    assert_eq!(ops(&m), vec!["insert 6"]);
    apply_checked(&mut tree, m);

    let mut cx = MutCursor::new(&tree);
    cx.skip(1);
    cx.begin_update(Payload::Placeholder);
    cx.end();
    let m = cx.into_mutation();
    assert_eq!(ops(&m), vec!["skip 2", "update 1", "delete 2", "skip 1"]);

    let mut cx = MutCursor::new(&tree);
    cx.delete(1);
    cx.skip_one();
    let m = cx.into_mutation();
    assert_eq!(ops(&m), vec!["delete 2", "skip 4"]);
    apply_checked(&mut tree, m);
    assert_eq!(tree.slots().len(), 4);
}

#[test]
fn payload_equality_rules() {
    assert!(label("a").same(&label("a")));
    assert!(!label("a").same(&label("b")));
    assert!(!Payload::Placeholder.same(&Payload::Placeholder));
    assert!(Payload::State(state(1)).same(&Payload::State(state(1))));
    assert!(!Payload::State(state(1)).same(&Payload::State(state(2))));
    assert!(!Payload::State(StateBlob::new(1, vec![1])).same(&Payload::State(StateBlob::new(2, vec![1]))));
    let f = Payload::Future(Id(3), state(1));
    assert!(!f.same(&Payload::Future(Id(3), state(1))));
    assert!(!label("a").same(&Payload::State(state(1))));
    assert!(Payload::View(ViewDesc::Checkbox("c".to_string(), true))
        .same(&Payload::View(ViewDesc::Checkbox("c".to_string(), true))));
    assert!(!Payload::View(ViewDesc::Checkbox("c".to_string(), true))
        .same(&Payload::View(ViewDesc::Checkbox("c".to_string(), false))));
    assert!(!Payload::View(ViewDesc::Row).same(&Payload::View(ViewDesc::Column)));
}

#[test]
fn action_queue_keeps_one_per_id() {
    let mut q = DruidAppData::new();
    assert!(!q.has_any_action());
    q.queue_action(Id(1), Action::Clicked);
    q.queue_action(Id(1), Action::Toggled(true));
    q.queue_action(Id(2), Action::TextChanged("hi".to_string()));
    assert!(q.has_action(Id(1)));
    assert!(q.has_any_action());
    assert!(matches!(q.dequeue_action(Id(1)), Some(Action::Toggled(true))));
    assert!(q.dequeue_action(Id(1)).is_none());
    assert!(!q.has_action(Id(1)));
    assert!(matches!(q.dequeue_action(Id(2)), Some(Action::TextChanged(ref s)) if s == "hi"));
    assert!(!q.has_any_action());
}

#[test]
fn descendant_ids_and_has_action() {
    let mut tree = Tree::new();
    let m = frame_root_leaves(&tree, &[(2, "a"), (3, "b")]);
    apply_checked(&mut tree, m);
    let d = dump(&tree);
    let ids: Vec<Id> = d.iter().map(|n| n.1).collect();
    assert_eq!(tree.descendant_ids(0), ids);
    assert_eq!(tree.descendant_ids(1), vec![ids[1]]);
    assert_eq!(tree.descendant_ids(2), Vec::<Id>::new());
    assert_eq!(tree.count_slots(0), Some(6));
    assert_eq!(tree.count_slots(3), Some(2));
    assert_eq!(tree.count_slots(5), None);
    assert_eq!(tree.count_slots(6), None);
    let cx = MutCursor::new(&tree);
    let mut q = DruidAppData::new();
    assert!(!cx.has_action(&q));
    q.queue_action(ids[2], Action::Clicked);
    assert!(cx.has_action(&q));
}

#[test]
fn future_node_restarts_only_on_changed_input() {
    let mut tree = Tree::new();
    let frame = |tree: &Tree, input: u8| {
        let mut cx = MutCursor::new(tree);
        let r = cx.begin_future(site(1), state(input));
        cx.leaf(site(2), label("waiting"));
        cx.end();
        (cx.into_mutation(), r)
    };
    let (m, (id, task, started)) = frame(&tree, 1);
    assert!(started);
    assert!(id != task);
    assert_eq!(ops(&m), vec!["insert 4"]);
    apply_checked(&mut tree, m);

    let (m, (id2, task2, started2)) = frame(&tree, 1);
    assert_eq!((id2, task2, started2), (id, task, false));
    assert_eq!(ops(&m), vec!["skip 4"]);

    let (m, (id3, task3, started3)) = frame(&tree, 2);
    assert!(started3);
    assert_eq!(id3, id);
    assert!(task3 != task && task3 != id);
    assert_eq!(ops(&m), vec!["update 1", "skip 3"]);
    apply_checked(&mut tree, m);
    let (_, (_, task4, started4)) = frame(&tree, 2);
    assert_eq!((task4, started4), (task3, false));
}
