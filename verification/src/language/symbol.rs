//! Function symbols applied to children.

use vstd::prelude::*;

verus! {

/// Index of a symbol in a [`crate::language::Language`].
pub type SymbolId = usize;

/// A symbol applied to a list of children of type `E`.
#[derive(Debug, Clone, PartialEq, Eq, Hash)]
pub struct Symbol<E> {
    pub id: SymbolId,
    pub children: Vec<E>,
}

impl<E> Symbol<E> {
    /// `true` when both symbols have the same id and the same number of children.
    pub fn same_shape_as<F>(&self, other: &Symbol<F>) -> (r: bool)
        ensures
            r == (self.id == other.id && self.children@.len() == other.children@.len()),
    {
        self.id == other.id && self.children.len() == other.children.len()
    }
}

} // verus!
