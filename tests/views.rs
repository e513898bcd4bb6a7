use crochet::actions::{Action, DruidAppData};
use crochet::cursor::MutCursor;
use crochet::key::{Caller, Key};
use crochet::mutation::MutationItem;
use crochet::payload::{Payload, ViewDesc};
use crochet::tree::{Slot, Tree};
use crochet::view::{Button, Checkbox, Clicked, Column, Label, Row, TextBox};

fn ops(m: &crochet::mutation::Mutation) -> Vec<String> {
    m.items()
        .iter()
        .map(|op| match op {
            MutationItem::Skip(n) => format!("skip {}", n),
            MutationItem::Delete(n) => format!("delete {}", n),
            MutationItem::Insert(v) => format!("insert {}", v.len()),
            MutationItem::Update(v) => format!("update {}", v.len()),
        })
        .collect()
}

fn build(tree: &Tree, actions: &mut DruidAppData, text: &str) -> (crochet::mutation::Mutation, bool, Option<String>, bool) {
    let mut cx = MutCursor::new(tree);
    Column::new().build(&mut cx, Caller::new(1));
    Label::new(text.to_string()).build(&mut cx, Caller::new(2));
    let clicked = Button::new("go".to_string()).build(&mut cx, Caller::new(3), actions);
    Row::new().build(&mut cx, Caller::new(4));
    let edited = TextBox::new("t".to_string()).build(&mut cx, Caller::new(5), actions);
    let checked = Checkbox::new("c".to_string(), false).build(&mut cx, Caller::new(6), actions);
    cx.end();
    Clicked::new().build(&mut cx, Caller::new(7));
    cx.end();
    cx.end();
    (cx.into_mutation(), clicked, edited, checked)
}

#[test]
fn views_build_and_reconcile() {
    let mut tree = Tree::new();
    let mut actions = DruidAppData::new();
    let (m, clicked, edited, checked) = build(&tree, &mut actions, "hello");
    assert_eq!(ops(&m), vec!["insert 14"]);
    assert!(!clicked);
    assert_eq!(edited, None);
    assert!(!checked);
    tree.mutate(m);

    let ids: Vec<_> = tree
        .slots()
        .iter()
        .filter_map(|s| match s {
            Slot::Begin(item) => Some(item.id),
            Slot::End => None,
        })
        .collect();
    assert_eq!(ids.len(), 7);
    actions.queue_action(ids[2], Action::Clicked);
    actions.queue_action(ids[4], Action::TextChanged("new".to_string()));
    actions.queue_action(ids[5], Action::Toggled(true));

    let (m, clicked, edited, checked) = build(&tree, &mut actions, "hello");
    assert_eq!(ops(&m), vec!["skip 14"]);
    assert!(clicked);
    assert_eq!(edited, Some("new".to_string()));
    assert!(checked);
    assert!(!actions.has_any_action());

    let (m, _, _, _) = build(&tree, &mut actions, "bye");
    assert_eq!(ops(&m), vec!["skip 1", "update 1", "skip 12"]);
}

#[test]
fn textbox_ignores_other_actions() {
    let tree = Tree::new();
    let mut actions = DruidAppData::new();
    let mut cx = MutCursor::new(&tree);
    let _ = TextBox::new("a".to_string()).build(&mut cx, Caller::new(1), &mut actions);
    let m = cx.into_mutation();
    assert_eq!(ops(&m), vec!["insert 2"]);
}

#[test]
fn key_constructors() {
    let k = Key::new(Caller::new(3), 2);
    assert_eq!(k.caller, Caller::new(3));
    assert_eq!(k.seq_ix, 2);
    assert_eq!(Key::null(), Key::null());
    assert!(Key::null().caller != Caller::new(0));
    assert!(Caller::null() != Caller::new(0));
    assert!(Payload::View(ViewDesc::Clicked).same(&Payload::View(ViewDesc::Clicked)));
}
