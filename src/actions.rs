//! Pending actions, keyed by the id of the node they target.

use vstd::prelude::*;

use crate::id::Id;

verus! {

/// Actions that widgets produce.
#[derive(Debug)]
pub enum Action {
    Clicked,
    FutureResolved,
    TextChanged(String),
    Toggled(bool),
}

/// The queue of pending actions: at most one per node id.
pub struct DruidAppData {
    entries: Vec<(Id, Action)>,
    map: Ghost<Map<Id, Action>>,
}

impl View for DruidAppData {
    type V = Map<Id, Action>;

    closed spec fn view(&self) -> Map<Id, Action> {
        self.map@
    }
}

impl DruidAppData {
    /// The entries hold each id at most once, and are what the view maps.
    pub closed spec fn wf(&self) -> bool {
        &&& forall|i: int, j: int|
            0 <= i < j < self.entries@.len() ==> self.entries@[i].0 != self.entries@[j].0
        &&& forall|i: int|
            0 <= i < self.entries@.len() ==> #[trigger] self.map@.contains_key(self.entries@[i].0)
                && self.map@[self.entries@[i].0] == self.entries@[i].1
        &&& forall|id: Id|
            #[trigger] self.map@.contains_key(id) ==> exists|i: int|
                0 <= i < self.entries@.len() && self.entries@[i].0 == id
    }

    /// A queue with no pending action.
    pub fn new() -> (r: DruidAppData)
        ensures
            r.wf(),
            r@ == Map::<Id, Action>::empty(),
    {
        DruidAppData { entries: Vec::new(), map: Ghost(Map::empty()) }
    }

    fn position(&self, id: Id) -> (r: Option<usize>)
        requires
            self.wf(),
        ensures
            match r {
                Some(i) => i < self.entries@.len() && self.entries@[i as int].0 == id,
                None => !self@.contains_key(id),
            },
    {
        let mut i: usize = 0;
        while i < self.entries.len()
            invariant
                i <= self.entries@.len(),
                forall|k: int| 0 <= k < i ==> self.entries@[k].0 != id,
            decreases self.entries.len() - i,
        {
            if self.entries[i].0 == id {
                return Some(i);
            }
            i = i + 1;
        }
        None
    }

    /// Record an action for `id`, replacing one that was pending.
    pub fn queue_action(&mut self, id: Id, action: Action)
        requires
            old(self).wf(),
        ensures
            final(self).wf(),
            final(self)@ == old(self)@.insert(id, action),
    {
        let ghost m = self.map@.insert(id, action);
        match self.position(id) {
            Some(i) => {
                let ghost e = self.entries@;
                self.entries.set(i, (id, action));
                self.map = Ghost(m);
                assert forall|j: Id| #[trigger] m.contains_key(j) implies exists|k: int|
                    0 <= k < self.entries@.len() && self.entries@[k].0 == j by {
                    if j != id {
                        let k = choose|k: int| 0 <= k < e.len() && e[k].0 == j;
                        assert(self.entries@[k].0 == j);
                    } else {
                        assert(self.entries@[i as int].0 == j);
                    }
                }
            },
            None => {
                let ghost e = self.entries@;
                self.entries.push((id, action));
                self.map = Ghost(m);
                assert forall|j: Id| #[trigger] m.contains_key(j) implies exists|k: int|
                    0 <= k < self.entries@.len() && self.entries@[k].0 == j by {
                    if j != id {
                        let k = choose|k: int| 0 <= k < e.len() && e[k].0 == j;
                        assert(self.entries@[k].0 == j);
                    } else {
                        assert(self.entries@[e.len() as int].0 == j);
                    }
                }
            },
        }
    }

    /// Take the pending action for `id`, if any, and clear it.
    pub fn dequeue_action(&mut self, id: Id) -> (r: Option<Action>)
        requires
            old(self).wf(),
        ensures
            final(self).wf(),
            final(self)@ == old(self)@.remove(id),
            r == (if old(self)@.contains_key(id) {
                Some(old(self)@[id])
            } else {
                None
            }),
    {
        match self.position(id) {
            Some(i) => {
                let ghost e = self.entries@;
                let ghost m = self.map@.remove(id);
                let (_, action) = self.entries.remove(i);
                self.map = Ghost(m);
                assert forall|j: Id| #[trigger] m.contains_key(j) implies exists|k: int|
                    0 <= k < self.entries@.len() && self.entries@[k].0 == j by {
                    let k = choose|k: int| 0 <= k < e.len() && e[k].0 == j;
                    if k < i {
                        assert(self.entries@[k].0 == j);
                    } else {
                        assert(k != i);
                        assert(self.entries@[k - 1].0 == j);
                    }
                }
                Some(action)
            },
            None => {
                assert(self.map@.remove(id) =~= self.map@);
                None
            },
        }
    }

    /// Whether an action is pending for `id`.
    pub fn has_action(&self, id: Id) -> (r: bool)
        requires
            self.wf(),
        ensures
            r == self@.contains_key(id),
    {
        self.position(id).is_some()
    }

    /// Whether any action is pending.
    pub fn has_any_action(&self) -> (r: bool)
        requires
            self.wf(),
        ensures
            r == (self@ != Map::<Id, Action>::empty()),
    {
        if self.entries.len() > 0 {
            assert(self@.contains_key(self.entries@[0].0));
            assert(!Map::<Id, Action>::empty().contains_key(self.entries@[0].0));
            true
        } else {
            assert(self@ =~= Map::<Id, Action>::empty());
            false
        }
    }
}

} // verus!
