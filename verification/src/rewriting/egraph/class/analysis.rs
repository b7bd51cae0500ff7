//! Data that each class of an e-graph carries and keeps up to date as classes
//! are created and merged.

use vstd::prelude::*;

use super::super::{EGraph, NodeId};

verus! {

/// Data computed for every class of an e-graph.
pub trait Analysis: Sized {
    /// The data of a class that holds only the node `node_id`.
    fn make(egraph: &EGraph<Self>, node_id: NodeId) -> Self
        requires
            egraph.wf(),
            node_id < egraph.nodes_view().len(),
    ;

    /// The data of the class obtained by merging classes with data `a` and `b`.
    fn merge(a: Self, b: Self) -> Self;

    /// A text to show the data with, if it has one.
    fn to_string(&self) -> Option<String> {
        None
    }
}

/// No data.
impl Analysis for () {
    fn make(egraph: &EGraph<Self>, node_id: NodeId) -> Self {
    }

    fn merge(a: Self, b: Self) -> Self {
    }
}

} // verus!
