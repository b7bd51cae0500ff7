//! An analysis that counts the literal nodes merged into each class.

use vstd::prelude::*;

use super::super::{EGraph, NodeId, NodeView};
use super::analysis::Analysis;

verus! {

/// The number of literal nodes that were merged into a class.
#[derive(Clone, Debug, PartialEq, Eq)]
pub struct LiteralCountAnalysis {
    count: usize,
}

impl LiteralCountAnalysis {
    /// The count, as a number.
    pub closed spec fn count_spec(&self) -> nat {
        self.count as nat
    }

    /// The number of literal nodes merged into the class.
    pub fn count(&self) -> (r: usize)
        ensures
            r == self.count_spec(),
    {
        self.count
    }
}

impl Default for LiteralCountAnalysis {
    fn default() -> (r: Self)
        ensures
            r.count_spec() == 0,
    {
        LiteralCountAnalysis { count: 0 }
    }
}

impl Analysis for LiteralCountAnalysis {
    /// One for a literal node, zero for a symbol node.
    fn make(egraph: &EGraph<Self>, node_id: NodeId) -> (r: Self)
        ensures
            r.count_spec() == (if egraph.nodes_view()[node_id as int] is Lit {
                1nat
            } else {
                0nat
            }),
    {
        let node = egraph.node(node_id);
        LiteralCountAnalysis { count: if node.try_as_symbol().is_none() { 1 } else { 0 } }
    }

    /// The sum of both counts (saturating at `usize::MAX`).
    fn merge(a: Self, b: Self) -> (r: Self)
        ensures
            r.count_spec() == (if a.count_spec() + b.count_spec() <= usize::MAX {
                a.count_spec() + b.count_spec()
            } else {
                usize::MAX as nat
            }),
    {
        LiteralCountAnalysis { count: a.count.saturating_add(b.count) }
    }
}

} // verus!
