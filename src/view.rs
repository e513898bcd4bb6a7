//! Descriptions of renderable elements, and how each enters the tree.

use vstd::prelude::*;

use crate::actions::{Action, DruidAppData};
use crate::cursor::{begin_step, begun_id, derive_key, end_step, CursorState, MutCursor};
use crate::id::Id;
use crate::key::Caller;
use crate::payload::{Payload, ViewDesc};
use crate::tree::Slot;

verus! {

/// The state after a leaf element with description `v` from `caller`.
pub open spec fn leaf_state(t: Seq<Slot>, c: CursorState, caller: Caller, v: ViewDesc) -> CursorState {
    end_step(t, begin_step(t, c, derive_key(t, c, caller), Payload::View(v)))
}

/// The state after opening a container element with description `v` from
/// `caller`.
pub open spec fn open_state(t: Seq<Slot>, c: CursorState, caller: Caller, v: ViewDesc) -> CursorState {
    begin_step(t, c, derive_key(t, c, caller), Payload::View(v))
}

/// The id of the element a call from `caller` opens.
pub open spec fn element_id(t: Seq<Slot>, c: CursorState, caller: Caller) -> Id {
    begun_id(t, c, derive_key(t, c, caller))
}

/// A text label.
#[derive(Debug)]
pub struct Label(pub String);

/// A push button with a text.
#[derive(Debug)]
pub struct Button(pub String);

/// A horizontal container.
#[derive(Debug)]
pub struct Row;

/// A vertical container.
#[derive(Debug)]
pub struct Column;

/// An editable text field.
#[derive(Debug)]
pub struct TextBox(pub String);

/// A checkbox with a label.
#[derive(Debug)]
pub struct Checkbox {
    pub state: bool,
    pub label: String,
}

/// A wrapper for detecting click gestures.
#[derive(Debug)]
pub struct Clicked;

impl Label {
    pub fn new(text: String) -> (r: Label)
        ensures
            r.0@ == text@,
    {
        Label(text)
    }

    /// Add the label as a leaf from the call site `caller`.
    pub fn build(self, cx: &mut MutCursor, caller: Caller)
        requires
            old(cx).wf(),
            old(cx).can_begin(),
        ensures
            final(cx).wf(),
            final(cx).old_tree() == old(cx).old_tree(),
            final(cx)@ == leaf_state(old(cx).old_tree(), old(cx)@, caller, ViewDesc::Label(self.0)),
    {
        let _ = cx.leaf_view(ViewDesc::Label(self.0), caller);
    }
}

impl Button {
    pub fn new(text: String) -> (r: Button)
        ensures
            r.0@ == text@,
    {
        Button(text)
    }

    /// Add the button as a leaf from the call site `caller`; whether it was
    /// clicked since the last frame. The click is taken from the queue.
    pub fn build(self, cx: &mut MutCursor, caller: Caller, actions: &mut DruidAppData) -> (r: bool)
        requires
            old(cx).wf(),
            old(cx).can_begin(),
            old(actions).wf(),
        ensures
            final(cx).wf(),
            final(cx).old_tree() == old(cx).old_tree(),
            final(cx)@ == leaf_state(old(cx).old_tree(), old(cx)@, caller, ViewDesc::Button(self.0)),
            final(actions).wf(),
            final(actions)@ == old(actions)@.remove(element_id(old(cx).old_tree(), old(cx)@, caller)),
            r == old(actions)@.contains_key(element_id(old(cx).old_tree(), old(cx)@, caller)),
    {
        let id = cx.leaf_view(ViewDesc::Button(self.0), caller);
        actions.dequeue_action(id).is_some()
    }
}

impl Row {
    pub fn new() -> (r: Row) {
        Row
    }

    /// Open the row from the call site `caller`; its children follow, then
    /// `end`.
    pub fn build(self, cx: &mut MutCursor, caller: Caller) -> (r: Id)
        requires
            old(cx).wf(),
            old(cx).can_begin(),
        ensures
            final(cx).wf(),
            final(cx).old_tree() == old(cx).old_tree(),
            final(cx)@ == open_state(old(cx).old_tree(), old(cx)@, caller, ViewDesc::Row),
            r == element_id(old(cx).old_tree(), old(cx)@, caller),
    {
        cx.begin_view(ViewDesc::Row, caller)
    }
}

impl Column {
    pub fn new() -> (r: Column) {
        Column
    }

    /// Open the column from the call site `caller`; its children follow,
    /// then `end`.
    pub fn build(self, cx: &mut MutCursor, caller: Caller) -> (r: Id)
        requires
            old(cx).wf(),
            old(cx).can_begin(),
        ensures
            final(cx).wf(),
            final(cx).old_tree() == old(cx).old_tree(),
            final(cx)@ == open_state(old(cx).old_tree(), old(cx)@, caller, ViewDesc::Column),
            r == element_id(old(cx).old_tree(), old(cx)@, caller),
    {
        cx.begin_view(ViewDesc::Column, caller)
    }
}

impl TextBox {
    pub fn new(content: String) -> (r: TextBox)
        ensures
            r.0@ == content@,
    {
        TextBox(content)
    }

    /// Add the text box as a leaf from the call site `caller`; the new
    /// text, if it was edited since the last frame.
    pub fn build(self, cx: &mut MutCursor, caller: Caller, actions: &mut DruidAppData) -> (r: Option<String>)
        requires
            old(cx).wf(),
            old(cx).can_begin(),
            old(actions).wf(),
        ensures
            final(cx).wf(),
            final(cx).old_tree() == old(cx).old_tree(),
            final(cx)@ == leaf_state(old(cx).old_tree(), old(cx)@, caller, ViewDesc::TextBox(self.0)),
            final(actions).wf(),
            final(actions)@ == old(actions)@.remove(element_id(old(cx).old_tree(), old(cx)@, caller)),
            r == match old(actions)@.get(element_id(old(cx).old_tree(), old(cx)@, caller)) {
                Some(Action::TextChanged(text)) => Some(text),
                _ => None,
            },
    {
        let id = cx.leaf_view(ViewDesc::TextBox(self.0), caller);
        match actions.dequeue_action(id) {
            Some(Action::TextChanged(text)) => Some(text),
            _ => None,
        }
    }
}

impl Checkbox {
    pub fn new(text: String, state: bool) -> (r: Checkbox)
        ensures
            r.label@ == text@,
            r.state == state,
    {
        Checkbox { state, label: text }
    }

    /// Add the checkbox as a leaf from the call site `caller`; its state
    /// after a toggle since the last frame, or the state it was built with.
    pub fn build(self, cx: &mut MutCursor, caller: Caller, actions: &mut DruidAppData) -> (r: bool)
        requires
            old(cx).wf(),
            old(cx).can_begin(),
            old(actions).wf(),
        ensures
            final(cx).wf(),
            final(cx).old_tree() == old(cx).old_tree(),
            final(cx)@ == leaf_state(
                old(cx).old_tree(),
                old(cx)@,
                caller,
                ViewDesc::Checkbox(self.label, self.state),
            ),
            final(actions).wf(),
            final(actions)@ == old(actions)@.remove(element_id(old(cx).old_tree(), old(cx)@, caller)),
            r == match old(actions)@.get(element_id(old(cx).old_tree(), old(cx)@, caller)) {
                Some(Action::Toggled(state)) => state,
                _ => self.state,
            },
    {
        let old_state = self.state;
        let id = cx.leaf_view(ViewDesc::Checkbox(self.label, self.state), caller);
        match actions.dequeue_action(id) {
            Some(Action::Toggled(state)) => state,
            _ => old_state,
        }
    }
}

impl Clicked {
    pub fn new() -> (r: Clicked) {
        Clicked
    }

    /// Open the click detector from the call site `caller`; its children
    /// follow, then `end`. Whether it was clicked is then
    /// `dequeue_action` of the returned id.
    pub fn build(self, cx: &mut MutCursor, caller: Caller) -> (r: Id)
        requires
            old(cx).wf(),
            old(cx).can_begin(),
        ensures
            final(cx).wf(),
            final(cx).old_tree() == old(cx).old_tree(),
            final(cx)@ == open_state(old(cx).old_tree(), old(cx)@, caller, ViewDesc::Clicked),
            r == element_id(old(cx).old_tree(), old(cx)@, caller),
    {
        cx.begin_view(ViewDesc::Clicked, caller)
    }
}

} // verus!
