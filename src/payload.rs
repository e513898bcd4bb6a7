//! What a node of the tree carries.

use vstd::prelude::*;

use crate::id::Id;

verus! {

/// An equality-comparable snapshot of state.
///
/// `type_tag` names the type the snapshot was taken of; `data` holds its
/// encoding. Snapshots of different types never compare equal.
#[derive(Debug)]
pub struct StateBlob {
    pub type_tag: u64,
    pub data: Vec<u8>,
}

/// A description of a renderable element: its kind and the parameters it
/// is built from.
#[derive(Debug)]
pub enum ViewDesc {
    Label(String),
    Button(String),
    Row,
    Column,
    TextBox(String),
    Checkbox(String, bool),
    Clicked,
}

/// The payload of an item in the tree.
#[derive(Debug)]
pub enum Payload {
    /// A slot awaiting its real content.
    Placeholder,
    /// An async task's correlation id and the input that started it.
    Future(Id, StateBlob),
    /// A snapshot used to decide whether an input changed.
    State(StateBlob),
    /// A renderable element.
    View(ViewDesc),
}

/// Whether two state snapshots are equal: same type, same data.
pub open spec fn state_same(a: StateBlob, b: StateBlob) -> bool {
    a.type_tag == b.type_tag && a.data@ == b.data@
}

/// Whether two view descriptions describe the same element.
pub open spec fn view_same(a: ViewDesc, b: ViewDesc) -> bool {
    match (a, b) {
        (ViewDesc::Label(x), ViewDesc::Label(y)) => x@ == y@,
        (ViewDesc::Button(x), ViewDesc::Button(y)) => x@ == y@,
        (ViewDesc::Row, ViewDesc::Row) => true,
        (ViewDesc::Column, ViewDesc::Column) => true,
        (ViewDesc::TextBox(x), ViewDesc::TextBox(y)) => x@ == y@,
        (ViewDesc::Checkbox(x, s), ViewDesc::Checkbox(y, t)) => x@ == y@ && s == t,
        (ViewDesc::Clicked, ViewDesc::Clicked) => true,
        _ => false,
    }
}

/// Payload equality: views by description, states by snapshot; every other
/// pair, `Future` and `Placeholder` included, counts as changed.
pub open spec fn payload_same(a: Payload, b: Payload) -> bool {
    match (a, b) {
        (Payload::View(x), Payload::View(y)) => view_same(x, y),
        (Payload::State(x), Payload::State(y)) => state_same(x, y),
        _ => false,
    }
}

fn bytes_eq(a: &Vec<u8>, b: &Vec<u8>) -> (r: bool)
    ensures
        r == (a@ == b@),
{
    if a.len() != b.len() {
        return false;
    }
    let mut i: usize = 0;
    while i < a.len()
        invariant
            a@.len() == b@.len(),
            i <= a@.len(),
            forall|k: int| 0 <= k < i ==> a@[k] == b@[k],
        decreases a.len() - i,
    {
        if a[i] != b[i] {
            return false;
        }
        i = i + 1;
    }
    assert(a@ =~= b@);
    true
}

impl StateBlob {
    pub fn new(type_tag: u64, data: Vec<u8>) -> (r: StateBlob)
        ensures
            r.type_tag == type_tag,
            r.data@ == data@,
    {
        StateBlob { type_tag, data }
    }

    /// Compare with another snapshot.
    pub fn same(&self, other: &StateBlob) -> (r: bool)
        ensures
            r == state_same(*self, *other),
    {
        self.type_tag == other.type_tag && bytes_eq(&self.data, &other.data)
    }
}

impl ViewDesc {
    /// Compare with another description.
    pub fn same(&self, other: &ViewDesc) -> (r: bool)
        ensures
            r == view_same(*self, *other),
    {
        match (self, other) {
            (ViewDesc::Label(x), ViewDesc::Label(y)) => *x == *y,
            (ViewDesc::Button(x), ViewDesc::Button(y)) => *x == *y,
            (ViewDesc::Row, ViewDesc::Row) => true,
            (ViewDesc::Column, ViewDesc::Column) => true,
            (ViewDesc::TextBox(x), ViewDesc::TextBox(y)) => *x == *y,
            (ViewDesc::Checkbox(x, s), ViewDesc::Checkbox(y, t)) => *x == *y && *s == *t,
            (ViewDesc::Clicked, ViewDesc::Clicked) => true,
            _ => false,
        }
    }
}

impl Payload {
    /// Compare with another payload; `false` means "changed".
    pub fn same(&self, other: &Payload) -> (r: bool)
        ensures
            r == payload_same(*self, *other),
    {
        match (self, other) {
            (Payload::View(x), Payload::View(y)) => x.same(y),
            (Payload::State(x), Payload::State(y)) => x.same(y),
            _ => false,
        }
    }
}

} // verus!
