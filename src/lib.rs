//! A retained-mode UI tree reconciler.
//!
//! Build logic describes the desired shape of the UI for one frame through
//! a cursor (`begin` / `leaf` / `end`); the cursor walks the previous tree
//! and emits a `Mutation`, an edit script that turns the previous tree into
//! the new one while keeping node identities stable.
//!
//! - `id`: identifiers and the source that issues them.
//! - `key`: call sites and the keys derived from them.
//! - `payload`: what a node carries, and when two payloads count as equal.
//! - `tree`: the flat, balanced slot list of a tree.
//! - `mutation`: edit scripts and their application to a tree.
//! - `cursor`: the reconciliation algorithm.
//! - `iter`: reading a mutation level by level against the old tree.
//! - `actions`: pending actions keyed by node id.
//! - `view`: renderable element descriptions and how they enter the tree.
//! - `list`: a list that tracks modifications.
//! - `laws`: properties of reconciliation, proved.

pub mod actions;
pub mod cursor;
pub mod id;
pub mod iter;
pub mod key;
pub mod laws;
pub mod list;
pub mod mutation;
pub mod payload;
pub mod tree;
pub mod view;
