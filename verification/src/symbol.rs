//! A self-contained association node with a fixed-width identifier.
//!
//! This module keeps the simplest form of the association: a concrete
//! `usize`-backed identifier and an owned node that links to the node
//! allocated immediately before it. The generic arena lives in the crate
//! root's `Table`.

use vstd::prelude::*;

verus! {

/// An atomic identifier backed by a `usize`.
#[derive(Copy, Clone, Debug, Eq, Hash, Ord, PartialEq, PartialOrd, Structural)]
pub struct SymbolId(pub usize);

impl SymbolId {
    /// Returns the identifier immediately subsequent to this one.
    pub fn next(&self) -> (r: Self)
        requires
            self.0 < usize::MAX,
        ensures
            r.0 == self.0 + 1,
    {
        let SymbolId(x) = *self;
        SymbolId(x + 1)
    }
}

impl Default for SymbolId {
    /// Returns the zero identifier, the first one an arena assigns.
    fn default() -> (r: Self)
        ensures
            r.0 == 0,
    {
        SymbolId(0)
    }
}

/// A node that associates one value with one identifier and links to the
/// node created immediately before it.
pub struct Symbol<T> {
    pub id: SymbolId,
    pub data: T,
    pub next: Option<Box<Symbol<T>>>,
}

impl<T> Symbol<T> {
    /// Returns the node's identifier.
    pub fn id(&self) -> (r: SymbolId)
        ensures
            r == self.id,
    {
        self.id
    }

    /// Returns a reference to the node's value.
    pub fn data(&self) -> (r: &T)
        ensures
            *r == self.data,
    {
        &self.data
    }
}

} // verus!
