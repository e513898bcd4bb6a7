//! Call-site keys.

use vstd::prelude::*;

verus! {

/// A call site of the build logic.
///
/// Each site of the build logic that opens a node passes its own token; two
/// calls share a `Caller` exactly when they come from the same site. The
/// null caller is reserved for keys that take no part in matching.
#[derive(Clone, Copy, Debug, PartialEq, Eq, Structural, Hash)]
pub struct Caller {
    null: bool,
    site: u64,
}

/// The identity used to match a node of the new tree with one of the old.
///
/// It is the call site together with the number of earlier siblings that
/// came from the same site.
#[derive(Clone, Copy, Debug, PartialEq, Eq, Structural, Hash)]
pub struct Key {
    pub caller: Caller,
    pub seq_ix: usize,
}

impl Caller {
    /// The caller of the given site token.
    pub fn new(site: u64) -> (r: Caller)
        ensures
            !r.is_null(),
            r.site() == site,
    {
        Caller { null: false, site }
    }

    /// The reserved caller of null keys.
    pub fn null() -> (r: Caller)
        ensures
            r.is_null(),
    {
        Caller { null: true, site: 0 }
    }

    pub closed spec fn is_null(self) -> bool {
        self.null
    }

    pub closed spec fn site(self) -> u64 {
        self.site
    }
}

impl Key {
    pub fn new(caller: Caller, seq_ix: usize) -> (r: Key)
        ensures
            r.caller == caller,
            r.seq_ix == seq_ix,
    {
        Key { caller, seq_ix }
    }

    /// The null key.
    pub closed spec fn null_spec() -> Key {
        Key { caller: Caller { null: true, site: 0 }, seq_ix: 0 }
    }

    /// A null key, which equals only another null key.
    pub fn null() -> (r: Key)
        ensures
            r == Key::null_spec(),
            r.caller.is_null(),
            r.seq_ix == 0,
    {
        Key { caller: Caller { null: true, site: 0 }, seq_ix: 0 }
    }
}

} // verus!
