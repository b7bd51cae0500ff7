//! Equivalence classes of an e-graph.

pub mod analysis;
pub mod literal_count;
pub mod local_cost;
pub mod simple_math_local_cost;

use vstd::prelude::*;

use super::{EGraph, NodeId};
use analysis::Analysis;

verus! {

broadcast use vstd::std_specs::vec::group_vec_axioms, vstd::seq::group_seq_axioms;

/// A class of equivalent nodes: its node ids, the ids of the nodes that have it
/// as a child, and its analysis data.
#[derive(Debug)]
pub struct Class<A> {
    nodes_ids: Vec<NodeId>,
    parents_ids: Vec<NodeId>,
    analysis: A,
}

/// `s` extended by the elements of `t` that it does not hold yet, in order.
pub open spec fn union_list(s: Seq<NodeId>, t: Seq<NodeId>) -> Seq<NodeId>
    decreases t.len(),
{
    if t.len() == 0 {
        s
    } else {
        let u = union_list(s, t.drop_last());
        if u.contains(t.last()) {
            u
        } else {
            u.push(t.last())
        }
    }
}

pub proof fn lemma_union_list(s: Seq<NodeId>, t: Seq<NodeId>)
    requires
        s.no_duplicates(),
    ensures
        union_list(s, t).no_duplicates(),
        forall|x: NodeId| union_list(s, t).contains(x) <==> (s.contains(x) || t.contains(x)),
        union_list(s, t).len() >= s.len(),
        forall|i: int| 0 <= i < s.len() ==> union_list(s, t)[i] == s[i],
    decreases t.len(),
{
    if t.len() > 0 {
        lemma_union_list(s, t.drop_last());
        let u = union_list(s, t.drop_last());
        assert forall|x: NodeId| union_list(s, t).contains(x) <==> (s.contains(x) || t.contains(x)) by {
            if t.contains(x) && !t.drop_last().contains(x) {
                let k = choose|k: int| 0 <= k < t.len() && t[k] == x;
                if k < t.len() - 1 {
                    assert(t.drop_last()[k] == x);
                }
            }
            if t.drop_last().contains(x) {
                let k = choose|k: int| 0 <= k < t.drop_last().len() && t.drop_last()[k] == x;
                assert(t[k] == x);
            }
            if !u.contains(t.last()) {
                if u.push(t.last()).contains(x) && x != t.last() {
                    let k = choose|k: int| 0 <= k < u.push(t.last()).len() && u.push(t.last())[k] == x;
                    assert(u[k] == x);
                }
                if u.contains(x) {
                    let k = choose|k: int| 0 <= k < u.len() && u[k] == x;
                    assert(u.push(t.last())[k] == x);
                }
                assert(u.push(t.last())[u.len() as int] == t.last());
            }
        }
    }
}

/// The elements that are not in `removed`.
pub open spec fn not_in(removed: Seq<NodeId>) -> spec_fn(NodeId) -> bool {
    |x: NodeId| !removed.contains(x)
}

impl<A> Class<A> {
    /// The ids of the nodes of the class.
    pub closed spec fn nodes_view(&self) -> Seq<NodeId> {
        self.nodes_ids@
    }

    /// The ids of the nodes that have the class as a child.
    pub closed spec fn parents_view(&self) -> Seq<NodeId> {
        self.parents_ids@
    }

    /// The analysis data of the class.
    pub closed spec fn analysis_view(&self) -> A {
        self.analysis
    }


    /// A class with the given contents.
    pub(crate) fn with_parts(nodes_ids: Vec<NodeId>, parents_ids: Vec<NodeId>, analysis: A) -> (r: Self)
        ensures
            r.nodes_view() == nodes_ids@,
            r.parents_view() == parents_ids@,
            r.analysis_view() == analysis,
    {
        Class { nodes_ids, parents_ids, analysis }
    }

}

impl<A: Analysis> Class<A> {
    /// A class that holds only the node `node_id`, with no parents.
    pub fn from_node(egraph: &EGraph<A>, node_id: NodeId) -> (r: Self)
        requires
            egraph.wf(),
            node_id < egraph.nodes_view().len(),
        ensures
            r.nodes_view() == seq![node_id],
            r.parents_view() == Seq::<NodeId>::empty(),
            call_ensures(A::make, (egraph, node_id), r.analysis_view()),
    {
        let mut nodes_ids = Vec::new();
        nodes_ids.push(node_id);
        let r = Class { nodes_ids, parents_ids: Vec::new(), analysis: A::make(egraph, node_id) };
        assert(r.nodes_view() =~= seq![node_id]);
        r
    }

}

impl<A: Analysis + Clone> Class<A> {
    /// Merges `other` into this class: its nodes are appended, its parents are
    /// added to this class's parents, and the analysis data become what
    /// `A::merge` gives on a clone of this class's data and `other`'s.
    pub fn merge(&mut self, other: Self)
        requires
            old(self).parents_view().no_duplicates(),
        ensures
            final(self).nodes_view() == old(self).nodes_view() + other.nodes_view(),
            final(self).parents_view() == union_list(old(self).parents_view(), other.parents_view()),
            exists|c: A|
                cloned::<A>(old(self).analysis_view(), c) && #[trigger] call_ensures(
                    A::merge,
                    (c, other.analysis_view()),
                    final(self).analysis_view(),
                ),
    {
        let mut i: usize = 0;
        while i < other.nodes_ids.len()
            invariant
                i <= other.nodes_ids@.len(),
                self.nodes_ids@ == old(self).nodes_ids@ + other.nodes_ids@.take(i as int),
                self.parents_ids@ == old(self).parents_ids@,
                self.analysis == old(self).analysis,
            decreases other.nodes_ids@.len() - i,
        {
            self.nodes_ids.push(other.nodes_ids[i]);
            assert(other.nodes_ids@.take(i + 1) =~= other.nodes_ids@.take(i as int).push(other.nodes_ids@[i as int]));
            i = i + 1;
        }
        assert(other.nodes_ids@.take(i as int) =~= other.nodes_ids@);
        let mut j: usize = 0;
        while j < other.parents_ids.len()
            invariant
                j <= other.parents_ids@.len(),
                self.nodes_ids@ == old(self).nodes_ids@ + other.nodes_ids@,
                self.parents_ids@ == union_list(old(self).parents_ids@, other.parents_ids@.take(j as int)),
                self.analysis == old(self).analysis,
            decreases other.parents_ids@.len() - j,
        {
            let p = other.parents_ids[j];
            assert(other.parents_ids@.take(j + 1).drop_last() =~= other.parents_ids@.take(j as int));
            if !crate::language::expression::vec_contains(&self.parents_ids, p) {
                self.parents_ids.push(p);
            }
            j = j + 1;
        }
        assert(other.parents_ids@.take(j as int) =~= other.parents_ids@);
        let mine = self.analysis.clone();
        self.analysis = A::merge(mine, other.analysis);
        assert(cloned::<A>(old(self).analysis_view(), mine) && call_ensures(
            A::merge,
            (mine, other.analysis_view()),
            self.analysis_view(),
        ));
    }

}

impl<A> Class<A> {
    /// Adds `parent_id` to the parents of the class, unless it is there already.
    pub(crate) fn add_parent(&mut self, parent_id: NodeId)
        ensures
            final(self).nodes_view() == old(self).nodes_view(),
            final(self).parents_view() == union_list(old(self).parents_view(), seq![parent_id]),
            final(self).analysis_view() == old(self).analysis_view(),
    {
        assert(seq![parent_id].drop_last() =~= Seq::<NodeId>::empty());
        assert(union_list(self.parents_ids@, Seq::<NodeId>::empty()) == self.parents_ids@);
        assert(seq![parent_id].last() == parent_id);
        if !crate::language::expression::vec_contains(&self.parents_ids, parent_id) {
            self.parents_ids.push(parent_id);
        }
    }

    /// Keeps only the nodes whose ids are not in `removed`.
    pub(crate) fn retain_nodes(&mut self, removed: &Vec<NodeId>)
        ensures
            final(self).nodes_view() == old(self).nodes_view().filter(not_in(removed@)),
            final(self).parents_view() == old(self).parents_view(),
            final(self).analysis_view() == old(self).analysis_view(),
    {
        let mut kept: Vec<NodeId> = Vec::new();
        proof {
            reveal(Seq::filter);
        }
        assert(self.nodes_ids@.take(0) =~= Seq::<NodeId>::empty());
        let mut i: usize = 0;
        while i < self.nodes_ids.len()
            invariant
                i <= self.nodes_ids@.len(),
                self.nodes_ids@ == old(self).nodes_ids@,
                kept@ == self.nodes_ids@.take(i as int).filter(not_in(removed@)),
            decreases self.nodes_ids@.len() - i,
        {
            let x = self.nodes_ids[i];
            proof {
                reveal(Seq::filter);
            }
            assert(self.nodes_ids@.take(i + 1).drop_last() =~= self.nodes_ids@.take(i as int));
            if !crate::language::expression::vec_contains(removed, x) {
                kept.push(x);
            }
            i = i + 1;
        }
        assert(self.nodes_ids@.take(i as int) =~= self.nodes_ids@);
        self.nodes_ids = kept;
    }

    /// The analysis data of the class.
    pub fn analysis(&self) -> (r: &A)
        ensures
            *r == self.analysis_view(),
    {
        &self.analysis
    }



}

/// An analysis whose data would be the cost of the cheapest expression of a class.
#[derive(Clone, Debug, Default)]
pub struct CostAnalysis;

/// Read access to the contents of a class, whatever its analysis.
pub trait DynClass {
    /// The ids of the nodes of the class.
    fn iter_nodes(&self) -> &Vec<NodeId>;

    /// The ids of the nodes of the class.
    fn nodes_ids(&self) -> &Vec<NodeId>;

    /// The ids of the nodes that have the class as a child.
    fn parents_ids(&self) -> &Vec<NodeId>;
}

impl<A> DynClass for Class<A> {
    fn iter_nodes(&self) -> (r: &Vec<NodeId>)
        ensures
            r@ == self.nodes_view(),
    {
        &self.nodes_ids
    }

    fn nodes_ids(&self) -> (r: &Vec<NodeId>)
        ensures
            r@ == self.nodes_view(),
    {
        &self.nodes_ids
    }

    fn parents_ids(&self) -> (r: &Vec<NodeId>)
        ensures
            r@ == self.parents_view(),
    {
        &self.parents_ids
    }
}

} // verus!
