//! Unique identities.

use vstd::prelude::*;

verus! {

/// An identifier for an element.
///
/// Identifiers come from an `IdSource`, which hands each value out once.
#[derive(Clone, Copy, Debug, PartialEq, Eq, Structural, Hash, PartialOrd, Ord)]
pub struct Id(pub u64);

/// A monotonic allocator of identifiers.
///
/// Every identifier it has issued is below `next`.
#[derive(Clone, Copy, Debug, PartialEq, Eq, Structural)]
pub struct IdSource {
    pub next: u64,
}

impl Id {
    /// The integer behind the identifier.
    pub open spec fn value(self) -> nat {
        self.0 as nat
    }

    /// Allocate a new unique id.
    pub fn new(source: &mut IdSource) -> (r: Id)
        requires
            old(source).next < u64::MAX,
        ensures
            r.0 == old(source).next,
            final(source).next == old(source).next + 1,
    {
        let r = Id(source.next);
        source.next = source.next + 1;
        r
    }
}

impl IdSource {
    /// A source that has issued nothing yet.
    pub fn new() -> (r: IdSource)
        ensures
            r.next == 0,
    {
        IdSource { next: 0 }
    }

    /// Whether another identifier can be issued.
    pub fn can_issue(&self) -> (r: bool)
        ensures
            r == (self.next < u64::MAX),
    {
        self.next < u64::MAX
    }
}

} // verus!
