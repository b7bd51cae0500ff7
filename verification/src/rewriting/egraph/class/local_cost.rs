//! Analyses that give each class the cost of its cheapest node, a node costing
//! its own local cost plus the costs of its children's classes.

use vstd::prelude::*;

use crate::language::expression::{lemma_expr_view, Expression, Literal, Term};
use crate::language::symbol::SymbolId;

use vstd::std_specs::cmp::PartialOrdSpec;

use super::super::{children_below, node_children, ClassId, EGraph, Node, NodeId, NodeView};
use super::analysis::Analysis;

verus! {

/// A cost that can be given to symbols and literals and added up.
pub trait LocalCost: Sized + Clone + Default + Ord {
    /// The cost given to symbol `symbol_id`.
    spec fn symbol_cost_spec(symbol_id: SymbolId) -> Self;

    /// The cost given to `literal`.
    spec fn literal_cost_spec(literal: Literal) -> Self;

    /// The sum of `self` and `other`.
    spec fn add_spec(self, other: Self) -> Self;

    /// The difference of `self` and `other`.
    spec fn sub_spec(self, other: Self) -> Self;

    /// The cost of a node that applies symbol `symbol_id`, without its children.
    fn symbol_cost(symbol_id: SymbolId) -> (r: Self)
        ensures
            r == Self::symbol_cost_spec(symbol_id),
    ;

    /// The cost of a literal node.
    fn literal_cost(literal: &Literal) -> (r: Self)
        ensures
            r == Self::literal_cost_spec(*literal),
    ;

    /// The sum of two costs.
    fn add(&self, other: &Self) -> (r: Self)
        ensures
            r == self.add_spec(*other),
    ;

    /// The difference of two costs.
    fn sub(&self, other: &Self) -> (r: Self)
        ensures
            r == self.sub_spec(*other),
    ;

    /// Lemma: costs are compared by a total preorder: "less than" is
    /// asymmetric and "not less than" is transitive.
    proof fn lemma_cost_order()
        ensures
            cost_order_known::<Self>(),
            forall|a: Self, b: Self| #[trigger] cost_lt(a, b) ==> !cost_lt(b, a),
            forall|a: Self, b: Self, c: Self|
                !#[trigger] cost_lt(b, a) && !#[trigger] cost_lt(c, b) ==> !cost_lt(c, a),
    ;
}

/// `true` when comparing costs of `LC` goes by `cost_lt`.
pub open spec fn cost_order_known<LC: PartialOrd>() -> bool {
    LC::obeys_partial_cmp_spec()
}

/// `true` when cost `a` is less than cost `b` in the order of `LC`.
pub open spec fn cost_lt<LC: PartialOrd>(a: LC, b: LC) -> bool {
    a.partial_cmp_spec(&b) == Some(core::cmp::Ordering::Less)
}

/// The costs `costs` added up in order onto `start`.
pub open spec fn sum_from<LC: LocalCost>(start: LC, costs: Seq<LC>) -> LC
    decreases costs.len(),
{
    if costs.len() == 0 {
        start
    } else {
        sum_from(start, costs.drop_last()).add_spec(costs.last())
    }
}

/// `true` when `c` is a cost that `LC::default` gives.
pub open spec fn default_cost<LC: LocalCost>(c: LC) -> bool {
    call_ensures(LC::default, (), c)
}

/// `true` when `cost` is the cost of `t` with the default cost (what
/// `LC::default` gives) taken as the cost of each variable and as the start of
/// each sum: a literal costs its literal cost, a symbol application its symbol
/// cost plus the sum of costs of its children.
pub open spec fn is_cost<LC: LocalCost>(t: Term, cost: LC) -> bool
    decreases t,
{
    match t {
        Term::Lit(l) => cost == LC::literal_cost_spec(l),
        Term::Var(_) => default_cost(cost),
        Term::Sym(id, cs) => exists|start: LC, costs: Seq<LC>|
            default_cost(start) && costs.len() == cs.len() && (forall|k: int|
                0 <= k < cs.len() ==> is_cost(#[trigger] cs[k], costs[k])) && cost == #[trigger] LC::symbol_cost_spec(
                id,
            ).add_spec(sum_from(start, costs)),
    }
}

/// The data of the classes of the ids `cs`, in order.
pub open spec fn class_costs<LC>(egraph: &EGraph<LC>, cs: Seq<ClassId>) -> Seq<LC> {
    Seq::new(cs.len(), |k: int| egraph.class_at(egraph.uf_view()[cs[k] as int] as int)->0.analysis_view())
}

/// `true` when `r` is the cost of a node `v` given the data of the classes
/// of `egraph`: a literal's cost, or the symbol's cost plus the sum, from the
/// default cost, of the data of its children's classes.
pub open spec fn node_cost_ok<LC: LocalCost>(egraph: &EGraph<LC>, v: NodeView, r: LC) -> bool {
    match v {
        NodeView::Lit(l) => r == LC::literal_cost_spec(l),
        NodeView::Sym(id, cs) => symbol_node_cost_ok(egraph, id, cs, r),
    }
}

/// `true` when `r` is the cost of symbol `id` plus the sum, from the default
/// cost, of the data of the classes of the ids `cs`.
pub open spec fn symbol_node_cost_ok<LC: LocalCost>(egraph: &EGraph<LC>, id: SymbolId, cs: Seq<ClassId>, r: LC) -> bool {
    exists|start: LC|
        default_cost(start) && #[trigger] LC::symbol_cost_spec(id).add_spec(sum_from(start, class_costs(egraph, cs))) == r
}

/// The cost of an expression: a literal costs its literal cost, a variable
/// nothing (the default cost), a symbol its symbol cost plus its children's.
pub fn expression_cost<LC: LocalCost>(expression: &Expression) -> (r: LC)
    ensures
        is_cost(expression@, r),
    decreases expression@,
{
    proof {
        lemma_expr_view(*expression);
    }
    match expression {
        Expression::Literal(literal) => LC::literal_cost(literal),
        Expression::Variable(_) => LC::default(),
        Expression::Symbol(symbol) => {
            let ghost t = expression@;
            let mut total = LC::default();
            let ghost start = total;
            let ghost mut costs: Seq<LC> = Seq::empty();
            let mut i: usize = 0;
            while i < symbol.children.len()
                invariant
                    t == expression@,
                    t is Sym,
                    t->1.len() == symbol.children@.len(),
                    forall|j: int| 0 <= j < symbol.children@.len() ==> #[trigger] t->1[j] == symbol.children@[j]@,
                    i <= symbol.children@.len(),
                    costs.len() == i,
                    total == sum_from(start, costs),
                    forall|k: int| 0 <= k < i ==> is_cost(#[trigger] t->1[k], costs[k]),
                decreases symbol.children@.len() - i,
            {
                assert(decreases_to!(t => t->1));
                assert(decreases_to!(t->1 => t->1[i as int]));
                let c: LC = expression_cost(&symbol.children[i]);
                let ghost prev = costs;
                total = total.add(&c);
                proof {
                    costs = costs.push(c);
                    assert(costs.drop_last() =~= prev);
                    assert forall|k: int| 0 <= k < i + 1 implies is_cost(#[trigger] t->1[k], costs[k]) by {
                        if k < i {
                            assert(costs[k] == prev[k]);
                        }
                    }
                }
                i = i + 1;
            }
            let r = LC::symbol_cost(symbol.id).add(&total);
            proof {
                assert(t == Term::Sym(symbol.id, t->1));
                assert(r == LC::symbol_cost_spec(symbol.id).add_spec(sum_from(start, costs)));
            }
            r
        },
    }
}

impl<LC: LocalCost> Analysis for LC {
    /// A literal costs its literal cost; a symbol costs its symbol cost plus the
    /// costs of its children's classes.
    fn make(egraph: &EGraph<Self>, node_id: NodeId) -> (r: Self)
        ensures
            node_cost_ok(egraph, egraph.nodes_view()[node_id as int], r),
    {
        let node = egraph.node(node_id);
        match node {
            Node::Literal(literal) => {
                let r = Self::literal_cost(literal);
                proof {
                    assert(node@ == NodeView::Lit(*literal));
                    assert(node_cost_ok(egraph, egraph.nodes_view()[node_id as int], r));
                }
                r
            },
            Node::Symbol(symbol) => {
                let mut total = Self::default();
                let ghost start = total;
                let ghost cs = symbol.children@;
                let mut i: usize = 0;
                while i < symbol.children.len()
                    invariant
                        egraph.wf(),
                        node@ == egraph.nodes_view()[node_id as int],
                        node_id < egraph.nodes_view().len(),
                        node_children(node@) == symbol.children@,
                        cs == symbol.children@,
                        i <= symbol.children@.len(),
                        total == sum_from(start, class_costs(egraph, cs).take(i as int)),
                    decreases symbol.children@.len() - i,
                {
                    assert(children_below(egraph.nodes_view()[node_id as int], egraph.nodes_view().len()));
                    assert(node_children(node@)[i as int] == symbol.children@[i as int]);
                    let child_cost = egraph.class(symbol.children[i]).analysis();
                    total = total.add(child_cost);
                    proof {
                        let all = class_costs(egraph, cs);
                        assert(all.take(i + 1).drop_last() =~= all.take(i as int));
                        assert(all.take(i + 1).last() == all[i as int]);
                    }
                    i = i + 1;
                }
                proof {
                    assert(class_costs(egraph, cs).take(cs.len() as int) =~= class_costs(egraph, cs));
                }
                let r = Self::symbol_cost(symbol.id).add(&total);
                proof {
                    assert(egraph.nodes_view()[node_id as int] == NodeView::Sym(symbol.id, cs));
                    assert(Self::symbol_cost_spec(symbol.id).add_spec(sum_from(start, class_costs(egraph, cs))) == r);
                    assert(symbol_node_cost_ok(egraph, symbol.id, cs, r));
                    assert(node_cost_ok(egraph, egraph.nodes_view()[node_id as int], r));
                }
                r
            },
        }
    }

    /// The smaller of both costs (the first one when they are equal).
    fn merge(a: Self, b: Self) -> (r: Self)
        ensures
            r == (if cost_lt(b, a) {
                b
            } else {
                a
            }),
    {
        proof {
            Self::lemma_cost_order();
        }
        if b < a {
            b
        } else {
            a
        }
    }
}

} // verus!
