use crochet::id::{Id, IdSource};
use crochet::list::{List, ListData, ListItem};

fn values(l: &ListData<&'static str>) -> Vec<&'static str> {
    (0..l.len()).map(|i| *l.get_at_ix(i)).collect()
}

#[test]
fn list_push_insert_remove() {
    let mut l: ListData<&'static str> = ListData::new();
    assert_eq!(l.len(), 0);
    l.push("a");
    l.push("c");
    l.insert_at_ix(1, "b");
    assert_eq!(values(&l), vec!["a", "b", "c"]);
    assert_eq!(l.stable_id_at_ix(0), Id(0));
    assert_eq!(l.stable_id_at_ix(1), Id(2));
    assert_eq!(l.stable_id_at_ix(2), Id(1));
    assert_eq!(l.rev_id_at_ix(1), Id(2));
    l.remove_at_ix(0);
    assert_eq!(values(&l), vec!["b", "c"]);
    assert_eq!(l.find_id(Id(1)), Some(1));
    assert_eq!(l.find_id(Id(0)), None);
}

#[test]
fn list_set_changes_revision_only() {
    let mut l: ListData<&'static str> = ListData::new();
    l.push("x");
    l.push("y");
    let stable = l.stable_id_at_ix(1);
    let rev = l.rev_id_at_ix(1);
    l.set_at_ix(1, "z");
    assert_eq!(values(&l), vec!["x", "z"]);
    assert_eq!(l.stable_id_at_ix(1), stable);
    assert!(l.rev_id_at_ix(1) != rev);
    assert_eq!(l.rev_id_at_ix(1), Id(2));
}

#[test]
fn list_swap() {
    let mut l: ListData<&'static str> = ListData::new();
    l.push("a");
    l.push("b");
    l.push("c");
    let ids: Vec<Id> = (0..3).map(|i| l.stable_id_at_ix(i)).collect();
    l.swap(2, 0);
    assert_eq!(values(&l), vec!["c", "b", "a"]);
    assert_eq!(l.stable_id_at_ix(0), ids[2]);
    assert_eq!(l.stable_id_at_ix(2), ids[0]);
    l.swap(1, 1);
    assert_eq!(values(&l), vec!["c", "b", "a"]);
}

#[test]
fn list_item_new_shares_id() {
    let mut ids = IdSource::new();
    let _ = Id::new(&mut ids);
    let item = ListItem::new(5u32, &mut ids);
    assert_eq!(item.stable_id, Id(1));
    assert_eq!(item.rev_id, Id(1));
    assert_eq!(item.val, 5);
    assert_eq!(ids.next, 2);
}

#[test]
fn list_selection() {
    let mut list = List::new();
    assert_eq!(list.selected(), None);
    list.select(Some(Id(4)));
    assert_eq!(list.selected(), Some(Id(4)));
    list.select(None);
    assert_eq!(list.selected(), None);
}

#[test]
fn ids_are_issued_once() {
    let mut ids = IdSource::new();
    let a = Id::new(&mut ids);
    let b = Id::new(&mut ids);
    assert!(a != b);
    assert_eq!((a, b), (Id(0), Id(1)));
    assert!(ids.can_issue());
    let mut last = IdSource { next: u64::MAX };
    assert!(!last.can_issue());
    last.next -= 1;
    assert_eq!(Id::new(&mut last), Id(u64::MAX - 1));
}
