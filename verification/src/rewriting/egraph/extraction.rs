//! Extraction: choosing, for a class, the cheapest expression it represents.

use std::marker::PhantomData;

use vstd::prelude::*;

use crate::language::expression::{Literal, Term, VarFreeExpression};
use crate::language::symbol::Symbol;
use crate::rewriting::egraph::{represents, roots_upto, ClassId, EGraph, Node, NodeId, NodeView};

verus! {

broadcast use vstd::std_specs::vec::group_vec_axioms, vstd::seq::group_seq_axioms;

/// The cheapest expression found for a class, with its cost.
#[derive(Clone, Debug)]
pub struct ExtractionResult<C> {
    /// The expression
    pub winner: VarFreeExpression,
    /// Its cost
    pub cost: C,
}

impl<C> ExtractionResult<C> {
    /// The expression.
    pub fn winner(&self) -> (r: &VarFreeExpression)
        ensures
            r == &self.winner,
    {
        &self.winner
    }

    /// Its cost.
    pub fn cost(&self) -> (r: &C)
        ensures
            r == &self.cost,
    {
        &self.cost
    }

    /// Its cost, taking the result.
    pub fn cost_value(self) -> (r: C)
        ensures
            r == self.cost,
    {
        self.cost
    }
}

/// A strategy that finds a cheapest expression represented by a class.
pub trait Extractor {
    /// The type of the costs.
    type Cost;

    /// Finds a cheapest expression represented by the class of `equivalent`,
    /// with its cost; `None` when none can be found.
    fn extract<A>(&self, egraph: &EGraph<A>, equivalent: ClassId) -> (r: Option<ExtractionResult<Self::Cost>>)
        requires
            egraph.wf(),
            equivalent < egraph.nodes_view().len(),
        ensures
            r matches Some(res) ==> represents(
                egraph.nodes_view(),
                egraph.uf_view(),
                res.winner@,
                egraph.uf_view()[equivalent as int],
            ),
    ;
}

/// The sum of the costs of the children's classes (`costs` is indexed by class
/// id), when each of them has one.
pub open spec fn children_sum(children: Seq<ClassId>, costs: Seq<Option<usize>>, k: int) -> Option<int>
    decreases k,
{
    if k <= 0 {
        Some(0)
    } else {
        match children_sum(children, costs, k - 1) {
            Some(s) => if children[k - 1] < costs.len() && costs[children[k - 1] as int] is Some {
                Some(s + costs[children[k - 1] as int]->0)
            } else {
                None
            },
            None => None,
        }
    }
}

/// The sum of the costs of the classes of the children of `symbol` (`costs` is
/// indexed by class id); `None` when a child's class has no cost, or when the
/// sum exceeds the `usize` range.
pub fn children_cost_sum(symbol: &Symbol<ClassId>, costs: &Vec<Option<usize>>) -> (r: Option<usize>)
    ensures
        r == (match children_sum(symbol.children@, costs@, symbol.children@.len() as int) {
            Some(s) => if s <= usize::MAX {
                Some(s as usize)
            } else {
                None
            },
            None => None,
        }),
{
    let mut sum: usize = 0;
    let mut i: usize = 0;
    while i < symbol.children.len()
        invariant
            i <= symbol.children@.len(),
            children_sum(symbol.children@, costs@, i as int) == Some(sum as int),
        decreases symbol.children.len() - i,
    {
        let child = symbol.children[i];
        if child >= costs.len() {
            proof {
                lemma_children_sum_none(symbol.children@, costs@, i as int + 1, symbol.children@.len() as int);
            }
            return None;
        }
        match costs[child] {
            None => {
                proof {
                    lemma_children_sum_none(symbol.children@, costs@, i as int + 1, symbol.children@.len() as int);
                }
                return None;
            },
            Some(c) => {
                if c > usize::MAX - sum {
                    proof {
                        lemma_children_sum_grows(symbol.children@, costs@, i as int + 1, symbol.children@.len() as int);
                    }
                    return None;
                }
                sum = sum + c;
            },
        }
        i = i + 1;
    }
    Some(sum)
}

/// Lemma: once a child's cost is missing, the sum stays missing.
proof fn lemma_children_sum_none(children: Seq<ClassId>, costs: Seq<Option<usize>>, k: int, m: int)
    requires
        0 < k <= m,
        children_sum(children, costs, k) is None,
    ensures
        children_sum(children, costs, m) is None,
    decreases m - k,
{
    if k < m {
        lemma_children_sum_none(children, costs, k + 1, m);
    }
}

/// Lemma: the partial sums only grow.
proof fn lemma_children_sum_grows(children: Seq<ClassId>, costs: Seq<Option<usize>>, k: int, m: int)
    requires
        0 <= k <= m,
    ensures
        children_sum(children, costs, k) matches Some(a) ==> (children_sum(children, costs, m) matches Some(b) ==> a <= b),
    decreases m - k,
{
    if k < m {
        lemma_children_sum_grows(children, costs, k + 1, m);
        if children_sum(children, costs, k + 1) is None {
            lemma_children_sum_none(children, costs, k + 1, m);
        }
    }
}

/// The least cost in `node_costs` among the first `k` nodes of `ids` that have
/// one, with the first node of that cost.
pub open spec fn best_of(ids: Seq<NodeId>, node_costs: Seq<Option<usize>>, k: int) -> Option<(NodeId, usize)>
    decreases k,
{
    if k <= 0 {
        None
    } else {
        let prev = best_of(ids, node_costs, k - 1);
        match node_costs[ids[k - 1] as int] {
            Some(c) => match prev {
                Some(b) => if c < b.1 {
                    Some((ids[k - 1], c))
                } else {
                    prev
                },
                None => Some((ids[k - 1], c)),
            },
            None => prev,
        }
    }
}

/// `true` when a class's cost `cost` and cheapest node `node` are those given by `best`.
pub open spec fn entry_matches(best: Option<(NodeId, usize)>, cost: Option<usize>, node: Option<NodeId>) -> bool {
    match best {
        Some(b) => cost == Some(b.1) && node == Some(b.0),
        None => cost is None && node is None,
    }
}

/// `true` when the recorded cost `cost` of a node `view` is the one its cost
/// function gives from the class costs `class_costs`: a literal's cost, or,
/// for a symbol, the cost given when one is given.
pub open spec fn node_settled<SC, LC>(
    symbol_cost: SC,
    literal_cost: LC,
    view: NodeView,
    class_costs: Seq<Option<usize>>,
    cost: Option<usize>,
) -> bool where
    LC: Fn(&Literal) -> usize,
    SC: Fn(&Symbol<ClassId>, &Vec<Option<usize>>) -> Option<usize>,
 {
    match view {
        NodeView::Lit(l) => cost matches Some(x) && call_ensures(literal_cost, (&l,), x),
        NodeView::Sym(id, cs) => exists|s: Symbol<ClassId>, v: Vec<Option<usize>>, r: Option<usize>|
            #[trigger] call_ensures(symbol_cost, (&s, &v), r) && s.id == id && s.children@ == cs && v@ == class_costs && (r matches Some(
                x,
            ) ==> cost == Some(x)),
    }
}

/// `true` when class `c` has the least cost of its nodes, its cheapest node
/// being the first of them with that cost, and each of its nodes is settled.
pub open spec fn class_settled<A, SC, LC>(
    egraph: &EGraph<A>,
    symbol_cost: SC,
    literal_cost: LC,
    node_costs: Seq<Option<usize>>,
    class_costs: Seq<Option<usize>>,
    cheapest: Seq<Option<NodeId>>,
    c: int,
) -> bool where
    LC: Fn(&Literal) -> usize,
    SC: Fn(&Symbol<ClassId>, &Vec<Option<usize>>) -> Option<usize>,
 {
    let ids = egraph.class_at(c)->0.nodes_view();
    &&& entry_matches(best_of(ids, node_costs, ids.len() as int), class_costs[c], cheapest[c])
    &&& forall|k: int|
        0 <= k < ids.len() ==> node_settled(
            symbol_cost,
            literal_cost,
            egraph.nodes_view()[#[trigger] ids[k] as int],
            class_costs,
            node_costs[ids[k] as int],
        )
}

/// `true` when the cost tables are a fixed point of the cost functions: each
/// class (by representative) is settled, and other ids have no entry.
pub open spec fn costs_settled<A, SC, LC>(
    egraph: &EGraph<A>,
    symbol_cost: SC,
    literal_cost: LC,
    node_costs: Seq<Option<usize>>,
    class_costs: Seq<Option<usize>>,
    cheapest: Seq<Option<NodeId>>,
) -> bool where
    LC: Fn(&Literal) -> usize,
    SC: Fn(&Symbol<ClassId>, &Vec<Option<usize>>) -> Option<usize>,
 {
    let n = egraph.nodes_view().len();
    &&& node_costs.len() == n
    &&& class_costs.len() == n
    &&& cheapest.len() == n
    &&& forall|c: int|
        0 <= c < n && egraph.uf_view()[c] == c ==> #[trigger] class_settled(
            egraph,
            symbol_cost,
            literal_cost,
            node_costs,
            class_costs,
            cheapest,
            c,
        )
    &&& forall|c: int| 0 <= c < n && egraph.uf_view()[c] != c ==> #[trigger] class_costs[c] is None && cheapest[c] is None
}

/// Lemma: the best entry is the first node of least cost.
pub proof fn lemma_best_of(ids: Seq<NodeId>, node_costs: Seq<Option<usize>>, k: int)
    requires
        0 <= k <= ids.len(),
        forall|j: int| 0 <= j < ids.len() ==> #[trigger] ids[j] < node_costs.len(),
    ensures
        best_of(ids, node_costs, k) is None <==> forall|j: int| 0 <= j < k ==> #[trigger] node_costs[ids[j] as int] is None,
        best_of(ids, node_costs, k) matches Some(b) ==> exists|j: int|
            0 <= j < k && #[trigger] ids[j] == b.0 && node_costs[ids[j] as int] == Some(b.1) && forall|i: int|
                0 <= i < j ==> !(node_costs[#[trigger] ids[i] as int] matches Some(x) && x <= b.1),
        best_of(ids, node_costs, k) matches Some(b) ==> forall|j: int|
            0 <= j < k ==> (node_costs[#[trigger] ids[j] as int] matches Some(x) ==> b.1 <= x),
    decreases k,
{
    if k > 0 {
        lemma_best_of(ids, node_costs, k - 1);
    }
}

/// Lemma: the best entry depends only on the costs of the nodes listed.
proof fn lemma_best_of_same(ids: Seq<NodeId>, a: Seq<Option<usize>>, b: Seq<Option<usize>>, k: int)
    requires
        0 <= k <= ids.len(),
        forall|j: int| 0 <= j < ids.len() ==> #[trigger] a[ids[j] as int] == b[ids[j] as int],
    ensures
        best_of(ids, a, k) == best_of(ids, b, k),
    decreases k,
{
    if k > 0 {
        lemma_best_of_same(ids, a, b, k - 1);
    }
}

/// The node costs `node_costs` after each of the nodes `ids[..k]`, in turn,
/// takes the cost given for it in `given`, where one is given.
pub open spec fn given_node_costs(
    ids: Seq<NodeId>,
    given: Seq<Option<usize>>,
    node_costs: Seq<Option<usize>>,
    k: int,
) -> Seq<Option<usize>>
    decreases k,
{
    if k <= 0 {
        node_costs
    } else {
        let prev = given_node_costs(ids, given, node_costs, k - 1);
        match given[k - 1] {
            Some(x) => prev.update(ids[k - 1] as int, Some(x)),
            None => prev,
        }
    }
}

/// Whether one of the nodes `ids[..k]`, at its turn, is given a cost other
/// than the one it has.
pub open spec fn given_changes(ids: Seq<NodeId>, given: Seq<Option<usize>>, node_costs: Seq<Option<usize>>, k: int) -> bool
    decreases k,
{
    if k <= 0 {
        false
    } else {
        given_changes(ids, given, node_costs, k - 1) || (given[k - 1] matches Some(x) && given_node_costs(
            ids,
            given,
            node_costs,
            k - 1,
        )[ids[k - 1] as int] != Some(x))
    }
}

/// The step of class `c`, whose nodes are `ids`, in a round of the cost
/// computation, on the tables (node costs, class costs, cheapest nodes): its
/// nodes take the costs `given`, where given; then, when one of its nodes has
/// a cost, the class gets the least of them, with the first node of that cost
/// as its cheapest. Gives the new tables and whether a node cost changed.
pub open spec fn class_step(
    ids: Seq<NodeId>,
    c: ClassId,
    given: Seq<Option<usize>>,
    tables: (Seq<Option<usize>>, Seq<Option<usize>>, Seq<Option<NodeId>>),
) -> ((Seq<Option<usize>>, Seq<Option<usize>>, Seq<Option<NodeId>>), bool) {
    let nc = given_node_costs(ids, given, tables.0, ids.len() as int);
    let changed = given_changes(ids, given, tables.0, ids.len() as int);
    match best_of(ids, nc, ids.len() as int) {
        Some(b) => ((nc, tables.1.update(c as int, Some(b.1)), tables.2.update(c as int, Some(b.0))), changed),
        None => ((nc, tables.1, tables.2), changed),
    }
}

/// The tables after the steps of the classes `classes[..i]` in turn from
/// `tables`, class `classes[j]` with the costs `given[j]`, and whether one of
/// the steps changed a node cost.
pub open spec fn round_steps<A>(
    egraph: &EGraph<A>,
    classes: Seq<ClassId>,
    given: Seq<Seq<Option<usize>>>,
    tables: (Seq<Option<usize>>, Seq<Option<usize>>, Seq<Option<NodeId>>),
    i: int,
) -> ((Seq<Option<usize>>, Seq<Option<usize>>, Seq<Option<NodeId>>), bool)
    decreases i,
{
    if i <= 0 {
        (tables, false)
    } else {
        let prev = round_steps(egraph, classes, given, tables, i - 1);
        let step = class_step(egraph.class_at(classes[i - 1] as int)->0.nodes_view(), classes[i - 1], given[i - 1], prev.0);
        (step.0, prev.1 || step.1)
    }
}

/// `true` when `given` is a cost that the cost functions give for the node
/// `view` from the class costs `class_costs`: a literal's cost, or what the
/// symbol cost function returns for the symbol and those class costs.
pub open spec fn cost_given<SC, LC>(
    symbol_cost: SC,
    literal_cost: LC,
    view: NodeView,
    class_costs: Seq<Option<usize>>,
    given: Option<usize>,
) -> bool where
    LC: Fn(&Literal) -> usize,
    SC: Fn(&Symbol<ClassId>, &Vec<Option<usize>>) -> Option<usize>,
 {
    match view {
        NodeView::Lit(l) => given matches Some(x) && call_ensures(literal_cost, (&l,), x),
        NodeView::Sym(id, cs) => exists|s: Symbol<ClassId>, v: Vec<Option<usize>>|
            #[trigger] call_ensures(symbol_cost, (&s, &v), given) && s.id == id && s.children@ == cs && v@ == class_costs,
    }
}

/// `true` when `given` holds, for each of the first `i` classes of `classes`,
/// the costs that the cost functions give for its nodes from the class costs
/// at its turn in the round that starts from `tables`.
pub open spec fn classes_given<A, SC, LC>(
    egraph: &EGraph<A>,
    symbol_cost: SC,
    literal_cost: LC,
    classes: Seq<ClassId>,
    given: Seq<Seq<Option<usize>>>,
    tables: (Seq<Option<usize>>, Seq<Option<usize>>, Seq<Option<NodeId>>),
    i: int,
) -> bool where
    LC: Fn(&Literal) -> usize,
    SC: Fn(&Symbol<ClassId>, &Vec<Option<usize>>) -> Option<usize>,
 {
    forall|j: int|
        #![trigger given[j]]
        0 <= j < i ==> given[j].len() == egraph.class_at(classes[j] as int)->0.nodes_view().len()
            && forall|k: int|
            0 <= k < given[j].len() ==> cost_given(
                symbol_cost,
                literal_cost,
                egraph.nodes_view()[egraph.class_at(classes[j] as int)->0.nodes_view()[k] as int],
                round_steps(egraph, classes, given, tables, j).0.1,
                #[trigger] given[j][k],
            )
}

/// `true` when `given` holds, for each class of `classes`, the costs that the
/// cost functions give for its nodes from the class costs at its turn in the
/// round that starts from `tables`.
pub open spec fn round_given<A, SC, LC>(
    egraph: &EGraph<A>,
    symbol_cost: SC,
    literal_cost: LC,
    classes: Seq<ClassId>,
    given: Seq<Seq<Option<usize>>>,
    tables: (Seq<Option<usize>>, Seq<Option<usize>>, Seq<Option<NodeId>>),
) -> bool where
    LC: Fn(&Literal) -> usize,
    SC: Fn(&Symbol<ClassId>, &Vec<Option<usize>>) -> Option<usize>,
 {
    &&& given.len() == classes.len()
    &&& classes_given(egraph, symbol_cost, literal_cost, classes, given, tables, classes.len() as int)
}

/// Tables with no entry, for `n` ids.
pub open spec fn no_costs(n: nat) -> (Seq<Option<usize>>, Seq<Option<usize>>, Seq<Option<NodeId>>) {
    (Seq::new(n, |i: int| None), Seq::new(n, |i: int| None), Seq::new(n, |i: int| None))
}

/// The classes of the e-graph, in the order in which a round visits them.
pub open spec fn round_classes<A>(egraph: &EGraph<A>) -> Seq<ClassId> {
    roots_upto(egraph.uf_view(), egraph.nodes_view().len() as int)
}

/// The tables after the first `m` rounds from tables with no entry, round `j`
/// with the costs `given[j]`.
pub open spec fn tables_after<A>(egraph: &EGraph<A>, given: Seq<Seq<Seq<Option<usize>>>>, m: int) -> (
    Seq<Option<usize>>,
    Seq<Option<usize>>,
    Seq<Option<NodeId>>,
)
    decreases m,
{
    if m <= 0 {
        no_costs(egraph.nodes_view().len())
    } else {
        round_steps(
            egraph,
            round_classes(egraph),
            given[m - 1],
            tables_after(egraph, given, m - 1),
            round_classes(egraph).len() as int,
        ).0
    }
}

/// Whether round `m` changed a node cost.
pub open spec fn round_changed<A>(egraph: &EGraph<A>, given: Seq<Seq<Seq<Option<usize>>>>, m: int) -> bool {
    round_steps(egraph, round_classes(egraph), given[m], tables_after(egraph, given, m), round_classes(egraph).len() as int).1
}

/// `true` when each round `m` of `given` holds what the cost functions give
/// in that round.
pub open spec fn rounds_given<A, SC, LC>(
    egraph: &EGraph<A>,
    symbol_cost: SC,
    literal_cost: LC,
    given: Seq<Seq<Seq<Option<usize>>>>,
) -> bool where
    LC: Fn(&Literal) -> usize,
    SC: Fn(&Symbol<ClassId>, &Vec<Option<usize>>) -> Option<usize>,
 {
    forall|m: int|
        0 <= m < given.len() ==> round_given(
            egraph,
            symbol_cost,
            literal_cost,
            round_classes(egraph),
            #[trigger] given[m],
            tables_after(egraph, given, m),
        )
}

/// Lemma: the steps of the first `i` classes depend on the first `i` costs given.
proof fn lemma_round_steps_prefix<A>(
    egraph: &EGraph<A>,
    classes: Seq<ClassId>,
    a: Seq<Seq<Option<usize>>>,
    b: Seq<Seq<Option<usize>>>,
    tables: (Seq<Option<usize>>, Seq<Option<usize>>, Seq<Option<NodeId>>),
    i: int,
)
    requires
        forall|j: int| 0 <= j < i ==> #[trigger] a[j] == b[j],
    ensures
        round_steps(egraph, classes, a, tables, i) == round_steps(egraph, classes, b, tables, i),
    decreases i,
{
    if i > 0 {
        lemma_round_steps_prefix(egraph, classes, a, b, tables, i - 1);
    }
}

/// Lemma: the tables after the first `m` rounds depend on the first `m` rounds given.
proof fn lemma_tables_after_prefix<A>(egraph: &EGraph<A>, a: Seq<Seq<Seq<Option<usize>>>>, b: Seq<Seq<Seq<Option<usize>>>>, m: int)
    requires
        forall|j: int| 0 <= j < m ==> #[trigger] a[j] == b[j],
    ensures
        tables_after(egraph, a, m) == tables_after(egraph, b, m),
    decreases m,
{
    if m > 0 {
        lemma_tables_after_prefix(egraph, a, b, m - 1);
    }
}

/// `true` when `given` records `rounds` rounds of the cost computation from
/// tables with no entry, each with the costs that the cost functions give,
/// every round but the last changing a node cost, ending in the class costs
/// `class_costs` and cheapest nodes `cheapest`; `settled` tells whether the
/// last round changed no node cost.
pub open spec fn cost_history<A, SC, LC>(
    egraph: &EGraph<A>,
    symbol_cost: SC,
    literal_cost: LC,
    given: Seq<Seq<Seq<Option<usize>>>>,
    rounds: int,
    class_costs: Seq<Option<usize>>,
    cheapest: Seq<Option<NodeId>>,
    settled: bool,
) -> bool where
    LC: Fn(&Literal) -> usize,
    SC: Fn(&Symbol<ClassId>, &Vec<Option<usize>>) -> Option<usize>,
 {
    &&& given.len() == rounds
    &&& rounds >= 1
    &&& rounds_given(egraph, symbol_cost, literal_cost, given)
    &&& tables_after(egraph, given, rounds).1 == class_costs
    &&& tables_after(egraph, given, rounds).2 == cheapest
    &&& forall|m: int| 0 <= m < rounds - 1 ==> #[trigger] round_changed(egraph, given, m)
    &&& settled == !round_changed(egraph, given, rounds - 1)
}

/// `true` when some record of the rounds of the cost computation fits (see
/// `cost_history`).
pub open spec fn has_cost_history<A, SC, LC>(
    egraph: &EGraph<A>,
    symbol_cost: SC,
    literal_cost: LC,
    rounds: int,
    class_costs: Seq<Option<usize>>,
    cheapest: Seq<Option<NodeId>>,
    settled: bool,
) -> bool where
    LC: Fn(&Literal) -> usize,
    SC: Fn(&Symbol<ClassId>, &Vec<Option<usize>>) -> Option<usize>,
 {
    exists|given: Seq<Seq<Seq<Option<usize>>>>|
        #[trigger] cost_history(egraph, symbol_cost, literal_cost, given, rounds, class_costs, cheapest, settled)
}

/// Lemma: a record of the rounds witnesses `has_cost_history`; on an empty
/// e-graph it is one round that changed nothing.
proof fn lemma_empty_history<A, SC, LC>(
    egraph: &EGraph<A>,
    symbol_cost: SC,
    literal_cost: LC,
    given: Seq<Seq<Seq<Option<usize>>>>,
    rounds: int,
    class_costs: Seq<Option<usize>>,
    cheapest: Seq<Option<NodeId>>,
    settled: bool,
) where
    LC: Fn(&Literal) -> usize,
    SC: Fn(&Symbol<ClassId>, &Vec<Option<usize>>) -> Option<usize>,

    requires
        cost_history(egraph, symbol_cost, literal_cost, given, rounds, class_costs, cheapest, settled),
    ensures
        has_cost_history(egraph, symbol_cost, literal_cost, rounds, class_costs, cheapest, settled),
        egraph.nodes_view().len() == 0 ==> settled && rounds == 1,
{
    if egraph.nodes_view().len() == 0 {
        assert(round_classes(egraph).len() == 0);
        if rounds > 1 {
            assert(round_changed(egraph, given, 0));
        }
    }
}

/// Lemma: a node whose recorded cost is the one given for it is settled.
proof fn lemma_given_settled<SC, LC>(
    symbol_cost: SC,
    literal_cost: LC,
    view: NodeView,
    class_costs: Seq<Option<usize>>,
    given: Option<usize>,
    cost: Option<usize>,
) where
    LC: Fn(&Literal) -> usize,
    SC: Fn(&Symbol<ClassId>, &Vec<Option<usize>>) -> Option<usize>,

    requires
        cost_given(symbol_cost, literal_cost, view, class_costs, given),
        given matches Some(x) ==> cost == Some(x),
    ensures
        node_settled(symbol_cost, literal_cost, view, class_costs, cost),
{
    match view {
        NodeView::Lit(l) => {},
        NodeView::Sym(id, cs) => {
            let (s, v) = choose|s: Symbol<ClassId>, v: Vec<Option<usize>>|
                #[trigger] call_ensures(symbol_cost, (&s, &v), given) && s.id == id && s.children@ == cs && v@ == class_costs;
            assert(call_ensures(symbol_cost, (&s, &v), given));
        },
    }
}

/// `true` when the cost tables (node costs, class costs, cheapest nodes, by
/// id) fit the e-graph: each class with a cost has a cheapest node of its own,
/// only representatives have entries, and each representative's entry is the
/// least cost among its nodes with the first node of that cost.
pub open spec fn tables_ok<A>(
    egraph: &EGraph<A>,
    tables: (Seq<Option<usize>>, Seq<Option<usize>>, Seq<Option<NodeId>>),
) -> bool {
    let n = egraph.nodes_view().len();
    let uf = egraph.uf_view();
    &&& tables.0.len() == n
    &&& tables.1.len() == n
    &&& cheapest_ok(egraph, tables.2)
    &&& forall|c: int| 0 <= c < n ==> (#[trigger] tables.1[c] is Some <==> tables.2[c] is Some)
    &&& forall|c: int| 0 <= c < n && uf[c] != c ==> #[trigger] tables.1[c] is None && tables.2[c] is None
    &&& forall|c: int|
        0 <= c < n && uf[c] == c ==> entry_matches(
            best_of(egraph.class_at(c)->0.nodes_view(), tables.0, egraph.class_at(c)->0.nodes_view().len() as int),
            #[trigger] tables.1[c],
            tables.2[c],
        )
}

/// Lemma: the step of a class keeps the cost tables fitting the e-graph.
proof fn lemma_class_step_tables<A>(
    egraph: &EGraph<A>,
    c0: ClassId,
    given: Seq<Option<usize>>,
    before: (Seq<Option<usize>>, Seq<Option<usize>>, Seq<Option<NodeId>>),
    after: (Seq<Option<usize>>, Seq<Option<usize>>, Seq<Option<NodeId>>),
)
    requires
        egraph.wf(),
        c0 < egraph.nodes_view().len(),
        egraph.uf_view()[c0 as int] == c0,
        tables_ok(egraph, before),
        before.2.len() == egraph.nodes_view().len(),
        after.0.len() == egraph.nodes_view().len(),
        class_step(egraph.class_at(c0 as int)->0.nodes_view(), c0, given, before).0 == after,
        forall|x: int| 0 <= x < egraph.nodes_view().len() && #[trigger] before.0[x] is Some ==> after.0[x] is Some,
        forall|x: int|
            0 <= x < egraph.nodes_view().len() && egraph.uf_view()[x] != c0 ==> #[trigger] after.0[x] == before.0[x],
    ensures
        tables_ok(egraph, after),
{
    let n = egraph.nodes_view().len();
    let uf = egraph.uf_view();
    assert(egraph.class_at(c0 as int) is Some);
    assert(egraph.class_ok(c0 as int));
    let ids = egraph.class_at(c0 as int)->0.nodes_view();
    assert forall|j: int| 0 <= j < ids.len() implies #[trigger] ids[j] < after.0.len() by {}
    lemma_best_of(ids, after.0, ids.len() as int);
    assert forall|c: int|
        0 <= c < n && uf[c] == c implies entry_matches(
        best_of(egraph.class_at(c)->0.nodes_view(), after.0, egraph.class_at(c)->0.nodes_view().len() as int),
        #[trigger] after.1[c],
        after.2[c],
    ) by {
        let ids2 = egraph.class_at(c)->0.nodes_view();
        assert(egraph.class_ok(c));
        if c != c0 {
            assert forall|j: int| 0 <= j < ids2.len() implies #[trigger] before.0[ids2[j] as int] == after.0[ids2[j] as int] by {
                assert(ids2[j] < n && uf[ids2[j] as int] == c);
            }
            lemma_best_of_same(ids2, before.0, after.0, ids2.len() as int);
        } else {
            if best_of(ids, after.0, ids.len() as int) is None {
                assert forall|j: int| 0 <= j < ids.len() implies #[trigger] ids[j] < before.0.len() by {}
                lemma_best_of(ids, before.0, ids.len() as int);
                assert forall|j: int| 0 <= j < ids.len() implies #[trigger] before.0[ids[j] as int] is None by {
                    assert(ids[j] < n);
                    assert(after.0[ids[j] as int] is None);
                }
            }
        }
    }
}

/// Lemma: when no node cost changes in the step of class `c0`, each of its
/// nodes is settled.
proof fn lemma_class_step_settled<A, SC, LC>(
    egraph: &EGraph<A>,
    symbol_cost: SC,
    literal_cost: LC,
    c0: ClassId,
    given: Seq<Option<usize>>,
    class_costs: Seq<Option<usize>>,
    node_costs: Seq<Option<usize>>,
) where
    LC: Fn(&Literal) -> usize,
    SC: Fn(&Symbol<ClassId>, &Vec<Option<usize>>) -> Option<usize>,

    requires
        given.len() == egraph.class_at(c0 as int)->0.nodes_view().len(),
        forall|k: int|
            0 <= k < given.len() ==> cost_given(
                symbol_cost,
                literal_cost,
                egraph.nodes_view()[egraph.class_at(c0 as int)->0.nodes_view()[k] as int],
                class_costs,
                #[trigger] given[k],
            ),
        forall|k: int|
            0 <= k < given.len() ==> (#[trigger] given[k] matches Some(x) ==> node_costs[egraph.class_at(
                c0 as int,
            )->0.nodes_view()[k] as int] == Some(x)),
    ensures
        forall|k: int|
            0 <= k < egraph.class_at(c0 as int)->0.nodes_view().len() ==> node_settled(
                symbol_cost,
                literal_cost,
                egraph.nodes_view()[#[trigger] egraph.class_at(c0 as int)->0.nodes_view()[k] as int],
                class_costs,
                node_costs[egraph.class_at(c0 as int)->0.nodes_view()[k] as int],
            ),
{
    let ids = egraph.class_at(c0 as int)->0.nodes_view();
    assert forall|k: int| 0 <= k < ids.len() implies node_settled(
        symbol_cost,
        literal_cost,
        egraph.nodes_view()[#[trigger] ids[k] as int],
        class_costs,
        node_costs[ids[k] as int],
    ) by {
        assert(given[k] matches Some(x) ==> node_costs[ids[k] as int] == Some(x));
        lemma_given_settled(symbol_cost, literal_cost, egraph.nodes_view()[ids[k] as int], class_costs, given[k], node_costs[ids[k] as int]);
    }
}

/// Lemma: appending the costs given for the next class extends the record of
/// the round.
proof fn lemma_next_class<A, SC, LC>(
    egraph: &EGraph<A>,
    symbol_cost: SC,
    literal_cost: LC,
    classes: Seq<ClassId>,
    cur: Seq<Seq<Option<usize>>>,
    g: Seq<Option<usize>>,
    tables: (Seq<Option<usize>>, Seq<Option<usize>>, Seq<Option<NodeId>>),
) where
    LC: Fn(&Literal) -> usize,
    SC: Fn(&Symbol<ClassId>, &Vec<Option<usize>>) -> Option<usize>,

    requires
        cur.len() < classes.len(),
        classes_given(egraph, symbol_cost, literal_cost, classes, cur, tables, cur.len() as int),
        g.len() == egraph.class_at(classes[cur.len() as int] as int)->0.nodes_view().len(),
        forall|k: int|
            0 <= k < g.len() ==> cost_given(
                symbol_cost,
                literal_cost,
                egraph.nodes_view()[egraph.class_at(classes[cur.len() as int] as int)->0.nodes_view()[k] as int],
                round_steps(egraph, classes, cur, tables, cur.len() as int).0.1,
                #[trigger] g[k],
            ),
    ensures
        classes_given(egraph, symbol_cost, literal_cost, classes, cur.push(g), tables, cur.len() + 1int),
        round_steps(egraph, classes, cur.push(g), tables, cur.len() + 1int) == ({
            let prev = round_steps(egraph, classes, cur, tables, cur.len() as int);
            let step = class_step(
                egraph.class_at(classes[cur.len() as int] as int)->0.nodes_view(),
                classes[cur.len() as int],
                g,
                prev.0,
            );
            (step.0, prev.1 || step.1)
        }),
{
    let cur2 = cur.push(g);
    assert forall|i: int| 0 <= i <= cur.len() implies round_steps(egraph, classes, cur2, tables, i) == round_steps(
        egraph,
        classes,
        cur,
        tables,
        i,
    ) by {
        assert forall|j: int| 0 <= j < i implies #[trigger] cur2[j] == cur[j] by {}
        lemma_round_steps_prefix(egraph, classes, cur2, cur, tables, i);
    }
    assert forall|j: int|
        #![trigger cur2[j]]
        0 <= j < cur.len() + 1 implies cur2[j].len() == egraph.class_at(classes[j] as int)->0.nodes_view().len()
        && forall|k: int|
        0 <= k < cur2[j].len() ==> cost_given(
            symbol_cost,
            literal_cost,
            egraph.nodes_view()[egraph.class_at(classes[j] as int)->0.nodes_view()[k] as int],
            round_steps(egraph, classes, cur2, tables, j).0.1,
            #[trigger] cur2[j][k],
        ) by {
        if j < cur.len() {
            assert(cur2[j] == cur[j]);
        }
    }
}

/// Lemma: appending a round's record extends the record of the rounds.
proof fn lemma_next_round<A, SC, LC>(
    egraph: &EGraph<A>,
    symbol_cost: SC,
    literal_cost: LC,
    hist: Seq<Seq<Seq<Option<usize>>>>,
    cur: Seq<Seq<Option<usize>>>,
) where
    LC: Fn(&Literal) -> usize,
    SC: Fn(&Symbol<ClassId>, &Vec<Option<usize>>) -> Option<usize>,

    requires
        rounds_given(egraph, symbol_cost, literal_cost, hist),
        round_given(egraph, symbol_cost, literal_cost, round_classes(egraph), cur, tables_after(egraph, hist, hist.len() as int)),
    ensures
        rounds_given(egraph, symbol_cost, literal_cost, hist.push(cur)),
        tables_after(egraph, hist.push(cur), hist.len() + 1int) == round_steps(
            egraph,
            round_classes(egraph),
            cur,
            tables_after(egraph, hist, hist.len() as int),
            round_classes(egraph).len() as int,
        ).0,
        round_changed(egraph, hist.push(cur), hist.len() as int) == round_steps(
            egraph,
            round_classes(egraph),
            cur,
            tables_after(egraph, hist, hist.len() as int),
            round_classes(egraph).len() as int,
        ).1,
        forall|m: int| 0 <= m < hist.len() ==> #[trigger] round_changed(egraph, hist.push(cur), m) == round_changed(egraph, hist, m),
{
    let hist2 = hist.push(cur);
    assert forall|m: int| 0 <= m <= hist.len() implies tables_after(egraph, hist2, m) == tables_after(egraph, hist, m) by {
        assert forall|j: int| 0 <= j < m implies #[trigger] hist2[j] == hist[j] by {}
        lemma_tables_after_prefix(egraph, hist2, hist, m);
    }
    assert forall|m: int| 0 <= m < hist2.len() implies round_given(
        egraph,
        symbol_cost,
        literal_cost,
        round_classes(egraph),
        #[trigger] hist2[m],
        tables_after(egraph, hist2, m),
    ) by {
        if m < hist.len() {
            assert(hist2[m] == hist[m]);
        }
    }
    assert forall|m: int| 0 <= m < hist.len() implies #[trigger] round_changed(egraph, hist2, m) == round_changed(egraph, hist, m) by {
        assert(hist2[m] == hist[m]);
    }
}

/// The step of class `class_id` in a round of the cost computation, given the
/// costs `given` that the cost functions gave for its nodes (in the order of
/// its node list): each node takes its given cost, where one is given; then,
/// when one of its nodes has a cost, the class gets the least of them, with the
/// first node of that cost as its cheapest. Returns whether a node cost changed.
pub fn settle_class_costs<A>(
    egraph: &EGraph<A>,
    class_id: ClassId,
    given: &Vec<Option<usize>>,
    node_costs: &mut Vec<Option<usize>>,
    class_costs: &mut Vec<Option<usize>>,
    cheapest: &mut Vec<Option<NodeId>>,
) -> (changed: bool)
    requires
        egraph.wf(),
        class_id < egraph.nodes_view().len(),
        egraph.uf_view()[class_id as int] == class_id,
        given@.len() == egraph.class_at(class_id as int)->0.nodes_view().len(),
        old(node_costs)@.len() == egraph.nodes_view().len(),
        old(class_costs)@.len() == egraph.nodes_view().len(),
        old(cheapest)@.len() == egraph.nodes_view().len(),
    ensures
        class_step(
            egraph.class_at(class_id as int)->0.nodes_view(),
            class_id,
            given@,
            (old(node_costs)@, old(class_costs)@, old(cheapest)@),
        ) == ((final(node_costs)@, final(class_costs)@, final(cheapest)@), changed),
        final(node_costs)@.len() == egraph.nodes_view().len(),
        final(class_costs)@.len() == egraph.nodes_view().len(),
        final(cheapest)@.len() == egraph.nodes_view().len(),
        forall|x: int|
            0 <= x < egraph.nodes_view().len() && #[trigger] old(node_costs)@[x] is Some ==> final(node_costs)@[x] is Some,
        forall|x: int|
            0 <= x < egraph.nodes_view().len() && egraph.uf_view()[x] != class_id ==> #[trigger] final(node_costs)@[x]
                == old(node_costs)@[x],
        !changed ==> final(node_costs)@ == old(node_costs)@,
        !changed ==> forall|k: int|
            0 <= k < given@.len() ==> (#[trigger] given@[k] matches Some(x) ==> old(node_costs)@[egraph.class_at(
                class_id as int,
            )->0.nodes_view()[k] as int] == Some(x)),
{
    let n = egraph.total_node_count();
    let ghost uf = egraph.uf_view();
    proof {
        assert(egraph.class_at(class_id as int) is Some);
        assert(egraph.class_ok(class_id as int));
    }
    let nodes = egraph.nodes(class_id);
    let ghost ids = nodes@;
    let ghost nc0 = node_costs@;
    let mut changed = false;
    let mut j: usize = 0;
    while j < nodes.len()
        invariant
            n == egraph.nodes_view().len(),
            uf == egraph.uf_view(),
            ids == nodes@,
            ids == egraph.class_at(class_id as int)->0.nodes_view(),
            egraph.class_ok(class_id as int),
            given@.len() == ids.len(),
            nc0.len() == n,
            node_costs@.len() == n,
            j <= ids.len(),
            node_costs@ == given_node_costs(ids, given@, nc0, j as int),
            changed == given_changes(ids, given@, nc0, j as int),
            forall|x: int| 0 <= x < n && #[trigger] nc0[x] is Some ==> node_costs@[x] is Some,
            forall|x: int| 0 <= x < n && uf[x] != class_id ==> #[trigger] node_costs@[x] == nc0[x],
            !changed ==> node_costs@ == nc0,
            !changed ==> forall|k: int|
                0 <= k < j ==> (#[trigger] given@[k] matches Some(x) ==> nc0[ids[k] as int] == Some(x)),
        decreases ids.len() - j,
    {
        let node_id = nodes[j];
        proof {
            assert(ids[j as int] < n && uf[ids[j as int] as int] == class_id);
        }
        let ghost before = node_costs@;
        match given[j] {
            Some(cost) => {
                let same = match node_costs[node_id] {
                    Some(old_cost) => old_cost == cost,
                    None => false,
                };
                if !same {
                    node_costs.set(node_id, Some(cost));
                    changed = true;
                } else {
                    assert(before.update(node_id as int, Some(cost)) =~= before);
                }
            },
            None => {},
        }
        j = j + 1;
    }
    let mut best: Option<(NodeId, usize)> = None;
    let mut j: usize = 0;
    while j < nodes.len()
        invariant
            n == egraph.nodes_view().len(),
            node_costs@.len() == n,
            ids == nodes@,
            egraph.class_ok(class_id as int),
            ids == egraph.class_at(class_id as int)->0.nodes_view(),
            j <= nodes@.len(),
            best == best_of(ids, node_costs@, j as int),
        decreases nodes.len() - j,
    {
        let node_id = nodes[j];
        proof {
            assert(nodes@[j as int] < n);
        }
        match node_costs[node_id] {
            Some(c) => {
                let better = match best {
                    Some(b) => c < b.1,
                    None => true,
                };
                if better {
                    best = Some((node_id, c));
                }
            },
            None => {},
        }
        j = j + 1;
    }
    match best {
        Some(b) => {
            class_costs.set(class_id, Some(b.1));
            cheapest.set(class_id, Some(b.0));
        },
        None => {},
    }
    changed
}

/// A simple extractor: the cost of a literal node is given by `literal_cost`,
/// that of a symbol node by `symbol_cost` from the costs of the classes (or
/// none), and the cost of a class is the least cost of its nodes.
#[verifier::reject_recursive_types(C)]
pub struct SimpleExtractor<C, SC, LC> where
    LC: Fn(&Literal) -> C,
    SC: Fn(&Symbol<ClassId>, &Vec<Option<C>>) -> Option<C>,
 {
    literal_cost: LC,
    symbol_cost: SC,
    cost: PhantomData<C>,
}

/// The expression built from the cheapest node of class `c` down, following at
/// most `fuel` levels; `None` when a class on the way has no cheapest node or
/// the levels run out.
pub open spec fn cheapest_term(views: Seq<NodeView>, cheapest: Seq<Option<NodeId>>, c: ClassId, fuel: nat) -> Option<Term>
    decreases fuel, 1int, 0int,
{
    if fuel == 0 {
        None
    } else {
        match cheapest[c as int] {
            None => None,
            Some(id) => match views[id as int] {
                NodeView::Lit(l) => Some(Term::Lit(l)),
                NodeView::Sym(sid, cs) => match cheapest_children(views, cheapest, cs, fuel, cs.len() as int) {
                    Some(ts) => Some(Term::Sym(sid, ts)),
                    None => None,
                },
            },
        }
    }
}

/// The expressions built for the first `k` classes of `cs`, each following at
/// most `fuel - 1` levels, if all are built.
pub open spec fn cheapest_children(
    views: Seq<NodeView>,
    cheapest: Seq<Option<NodeId>>,
    cs: Seq<ClassId>,
    fuel: nat,
    k: int,
) -> Option<Seq<Term>>
    decreases fuel, 0int, k,
{
    if k <= 0 || fuel == 0 {
        Some(Seq::empty())
    } else {
        match cheapest_children(views, cheapest, cs, fuel, k - 1) {
            Some(ts) => match cheapest_term(views, cheapest, cs[k - 1], (fuel - 1) as nat) {
                Some(t) => Some(ts.push(t)),
                None => None,
            },
            None => None,
        }
    }
}

/// Lemma: once a child's expression cannot be built, the children's cannot.
proof fn lemma_cheapest_children_none(
    views: Seq<NodeView>,
    cheapest: Seq<Option<NodeId>>,
    cs: Seq<ClassId>,
    fuel: nat,
    k: int,
    m: int,
)
    requires
        0 < k <= m <= cs.len(),
        fuel > 0,
        cheapest_children(views, cheapest, cs, fuel, k - 1) is Some,
        cheapest_term(views, cheapest, cs[k - 1], (fuel - 1) as nat) is None,
    ensures
        cheapest_children(views, cheapest, cs, fuel, m) is None,
    decreases m - k,
{
    if m > k {
        lemma_cheapest_children_none(views, cheapest, cs, fuel, k, m - 1);
    }
}

/// `true` when the cheapest-node table `cheapest` (indexed by class id) names,
/// for each class it has an entry for, a node of that class, which is a
/// representative.
pub open spec fn cheapest_ok<A>(egraph: &EGraph<A>, cheapest: Seq<Option<NodeId>>) -> bool {
    &&& cheapest.len() == egraph.nodes_view().len()
    &&& forall|c: int|
        0 <= c < cheapest.len() && #[trigger] cheapest[c] is Some ==> {
            &&& cheapest[c]->0 < egraph.nodes_view().len()
            &&& egraph.uf_view()[cheapest[c]->0 as int] == c
            &&& egraph.uf_view()[c] == c
        }
}

impl<C, SC, LC> SimpleExtractor<C, SC, LC> where
    LC: Fn(&Literal) -> C,
    SC: Fn(&Symbol<ClassId>, &Vec<Option<C>>) -> Option<C>,
 {
    /// Both cost functions accept every argument.
    #[verifier::type_invariant]
    closed spec fn inv(self) -> bool {
        &&& forall|l: Literal| call_requires(self.literal_cost, (&l,))
        &&& forall|s: Symbol<ClassId>, c: Vec<Option<C>>| call_requires(self.symbol_cost, (&s, &c))
    }

    /// The literal cost function.
    pub closed spec fn literal_cost_view(&self) -> LC {
        self.literal_cost
    }

    /// The symbol cost function.
    pub closed spec fn symbol_cost_view(&self) -> SC {
        self.symbol_cost
    }

    /// The extractor with the cost functions `literal_cost` and `symbol_cost`.
    pub fn new(literal_cost: LC, symbol_cost: SC) -> (r: Self)
        requires
            forall|l: Literal| call_requires(literal_cost, (&l,)),
            forall|s: Symbol<ClassId>, c: Vec<Option<C>>| call_requires(symbol_cost, (&s, &c)),
        ensures
            r.literal_cost_view() == literal_cost,
            r.symbol_cost_view() == symbol_cost,
    {
        SimpleExtractor { literal_cost, symbol_cost, cost: PhantomData }
    }

    /// The cost of `node` given the costs of the classes.
    fn node_cost(&self, node: &Node, costs: &Vec<Option<C>>) -> (r: Option<C>)
        ensures
            match node {
                Node::Literal(l) => r matches Some(c) && call_ensures(self.literal_cost, (l,), c),
                Node::Symbol(s) => call_ensures(self.symbol_cost, (s, costs), r),
            },
    {
        proof {
            use_type_invariant(self);
        }
        match node {
            Node::Literal(literal) => Some((self.literal_cost)(literal)),
            Node::Symbol(symbol) => (self.symbol_cost)(symbol, costs),
        }
    }

    /// Builds the expression of the cheapest nodes from class `class_id` down,
    /// following at most `fuel` levels; `None` when a class on the way has no
    /// cheapest node or the levels run out.
    fn extract_expression<A>(
        egraph: &EGraph<A>,
        cheapest: &Vec<Option<NodeId>>,
        class_id: ClassId,
        fuel: usize,
    ) -> (r: Option<VarFreeExpression>)
        requires
            egraph.wf(),
            cheapest_ok(egraph, cheapest@),
            class_id < egraph.nodes_view().len(),
        ensures
            r matches Some(e) ==> represents(egraph.nodes_view(), egraph.uf_view(), e@, class_id),
            r is Some ==> cheapest@[class_id as int] is Some,
            (match r {
                Some(e) => Some(e@),
                None => None,
            }) == cheapest_term(egraph.nodes_view(), cheapest@, class_id, fuel as nat),
        decreases fuel,
    {
        if fuel == 0 {
            return None;
        }
        let node_id = match cheapest[class_id] {
            Some(n) => n,
            None => {
                return None;
            },
        };
        let node = egraph.node(node_id);
        match node {
            Node::Literal(literal) => {
                let e = VarFreeExpression::Literal(*literal);
                proof {
                    assert(egraph.nodes_view()[node_id as int] == NodeView::Lit(*literal));
                }
                Some(e)
            },
            Node::Symbol(symbol) => {
                let ghost nv = egraph.nodes_view()[node_id as int];
                proof {
                    assert(nv == NodeView::Sym(symbol.id, symbol.children@));
                    assert(crate::rewriting::egraph::children_below(nv, egraph.nodes_view().len()));
                }
                let mut children: Vec<VarFreeExpression> = Vec::new();
                let mut i: usize = 0;
                while i < symbol.children.len()
                    invariant
                        egraph.wf(),
                        cheapest_ok(egraph, cheapest@),
                        fuel > 0,
                        cheapest@[class_id as int] is Some,
                        cheapest@[class_id as int] == Some(node_id),
                        egraph.nodes_view()[node_id as int] == nv,
                        nv == NodeView::Sym(symbol.id, symbol.children@),
                        crate::rewriting::egraph::children_below(nv, egraph.nodes_view().len()),
                        i <= symbol.children@.len(),
                        children@.len() == i,
                        forall|k: int|
                            0 <= k < i ==> represents(
                                egraph.nodes_view(),
                                egraph.uf_view(),
                                #[trigger] children@[k]@,
                                egraph.uf_view()[symbol.children@[k] as int],
                            ),
                        cheapest_children(egraph.nodes_view(), cheapest@, symbol.children@, fuel as nat, i as int)
                            == Some(children@.map_values(|e: VarFreeExpression| e@)),
                    decreases symbol.children.len() - i,
                {
                    let child = symbol.children[i];
                    proof {
                        assert(crate::rewriting::egraph::node_children(nv)[i as int] == child);
                    }
                    let ghost old_children_views = children@.map_values(|e: VarFreeExpression| e@);
                    match Self::extract_expression(egraph, cheapest, child, fuel - 1) {
                        Some(e) => {
                            proof {
                                assert(cheapest@[child as int] is Some);
                                assert(egraph.uf_view()[child as int] == child);
                            }
                            children.push(e);
                        },
                        None => {
                            proof {
                                lemma_cheapest_children_none(
                                    egraph.nodes_view(),
                                    cheapest@,
                                    symbol.children@,
                                    fuel as nat,
                                    i as int + 1,
                                    symbol.children@.len() as int,
                                );
                                assert(cheapest@[class_id as int] == Some(node_id));
                                assert(egraph.nodes_view()[node_id as int] == nv);
                                assert(cheapest_term(egraph.nodes_view(), cheapest@, class_id, fuel as nat) is None);
                            }
                            return None;
                        },
                    }
                    proof {
                        assert(children@.map_values(|e: VarFreeExpression| e@) =~= old_children_views.push(
                            children@[i as int]@,
                        ));
                    }
                    i = i + 1;
                }
                let s = Symbol { id: symbol.id, children };
                proof {
                    crate::language::expression::lemma_var_free_symbol_view(s);
                }
                let e = VarFreeExpression::Symbol(s);
                proof {
                    let t = e@;
                    assert forall|k: int| 0 <= k < t->1.len() implies represents(
                        egraph.nodes_view(),
                        egraph.uf_view(),
                        #[trigger] t->1[k],
                        egraph.uf_view()[nv->1[k] as int],
                    ) by {
                        assert(t->1[k] == children@[k]@);
                    }
                    assert(egraph.uf_view()[node_id as int] == class_id);
                    assert(t->1 =~= children@.map_values(|e: VarFreeExpression| e@));
                }
                Some(e)
            },
        }
    }
}

impl<SC, LC> SimpleExtractor<usize, SC, LC> where
    LC: Fn(&Literal) -> usize,
    SC: Fn(&Symbol<ClassId>, &Vec<Option<usize>>) -> Option<usize>,
 {
    /// The expression of the cheapest nodes (`cheapest`, indexed by class id)
    /// from class `class_id` down, with the cost of that class (`class_costs`,
    /// indexed by class id); `None` when the class has no cost, or a class on
    /// the way has no cheapest node, or the cheapest nodes lead back to a class
    /// on the way.
    pub fn extract_with_costs<A>(
        egraph: &EGraph<A>,
        cheapest: &Vec<Option<NodeId>>,
        class_costs: &Vec<Option<usize>>,
        class_id: ClassId,
    ) -> (r: Option<ExtractionResult<usize>>)
        requires
            egraph.wf(),
            cheapest_ok(egraph, cheapest@),
            class_costs@.len() == egraph.nodes_view().len(),
            class_id < egraph.nodes_view().len(),
        ensures
            match (
                cheapest_term(egraph.nodes_view(), cheapest@, class_id, egraph.nodes_view().len()),
                class_costs@[class_id as int],
            ) {
                (Some(t), Some(c)) => r matches Some(res) && res.winner@ == t && res.cost == c,
                _ => r is None,
            },
            r matches Some(res) ==> represents(egraph.nodes_view(), egraph.uf_view(), res.winner@, class_id),
    {
        let winner = match Self::extract_expression(egraph, cheapest, class_id, egraph.total_node_count()) {
            Some(w) => w,
            None => {
                return None;
            },
        };
        match class_costs[class_id] {
            Some(cost) => Some(ExtractionResult { winner, cost }),
            None => None,
        }
    }

    /// The costs that the cost functions give for the nodes `nodes` from the
    /// class costs `class_costs` (indexed by class id).
    fn costs_given<A>(&self, egraph: &EGraph<A>, nodes: &Vec<NodeId>, class_costs: &Vec<Option<usize>>) -> (r: Vec<
        Option<usize>,
    >)
        requires
            forall|k: int| 0 <= k < nodes@.len() ==> #[trigger] nodes@[k] < egraph.nodes_view().len(),
        ensures
            r@.len() == nodes@.len(),
            forall|k: int|
                0 <= k < nodes@.len() ==> cost_given(
                    self.symbol_cost,
                    self.literal_cost,
                    egraph.nodes_view()[nodes@[k] as int],
                    class_costs@,
                    #[trigger] r@[k],
                ),
    {
        let mut out: Vec<Option<usize>> = Vec::new();
        let mut j: usize = 0;
        while j < nodes.len()
            invariant
                forall|k: int| 0 <= k < nodes@.len() ==> #[trigger] nodes@[k] < egraph.nodes_view().len(),
                j <= nodes@.len(),
                out@.len() == j,
                forall|k: int|
                    0 <= k < j ==> cost_given(
                        self.symbol_cost,
                        self.literal_cost,
                        egraph.nodes_view()[nodes@[k] as int],
                        class_costs@,
                        #[trigger] out@[k],
                    ),
            decreases nodes.len() - j,
        {
            proof {
                assert(nodes@[j as int] < egraph.nodes_view().len());
            }
            let node = egraph.node(nodes[j]);
            let cost = self.node_cost(node, class_costs);
            proof {
                match node {
                    Node::Literal(l) => {},
                    Node::Symbol(sy) => {
                        assert(node@ == NodeView::Sym(sy.id, sy.children@));
                        assert(call_ensures(self.symbol_cost, (sy, class_costs), cost));
                    },
                }
            }
            out.push(cost);
            j = j + 1;
        }
        out
    }

    /// Computes the costs of the nodes and classes by repeated rounds over the
    /// classes until a round changes no node cost: in a round, each class in
    /// turn gets the costs that the cost functions give for its nodes from the
    /// current class costs, and then takes the least cost of its nodes with the
    /// first such node as its cheapest. Returns the cheapest node and the cost
    /// of each class (indexed by class id), whether the rounds ended on a round
    /// that changed nothing, and the number of rounds; they also stop when their
    /// count cannot grow any more.
    #[verifier::loop_isolation(false)]
    #[verifier::spinoff_prover]
    #[verifier::rlimit(40)]
    fn calculate_costs<A>(&self, egraph: &EGraph<A>) -> (r: (Vec<Option<NodeId>>, Vec<Option<usize>>, bool, usize))
        requires
            egraph.wf(),
        ensures
            !r.2 ==> r.3 == usize::MAX,
            r.3 >= 1,
            cheapest_ok(egraph, r.0@),
            r.1@.len() == egraph.nodes_view().len(),
            forall|c: int| 0 <= c < r.1@.len() ==> (#[trigger] r.1@[c] is Some <==> r.0@[c] is Some),
            has_cost_history(egraph, self.symbol_cost, self.literal_cost, r.3 as int, r.1@, r.0@, r.2),
            r.2 ==> exists|node_costs: Seq<Option<usize>>|
                #[trigger] costs_settled(egraph, self.symbol_cost, self.literal_cost, node_costs, r.1@, r.0@),
            egraph.nodes_view().len() == 0 ==> r.2 && r.3 == 1,
    {
        proof {
            use_type_invariant(self);
        }
        let n = egraph.total_node_count();
        let ghost uf = egraph.uf_view();
        let ghost views = egraph.nodes_view();
        let mut node_costs: Vec<Option<usize>> = Vec::new();
        let mut class_costs: Vec<Option<usize>> = Vec::new();
        let mut cheapest: Vec<Option<NodeId>> = Vec::new();
        let mut k: usize = 0;
        while k < n
            invariant
                k <= n,
                node_costs@.len() == k,
                class_costs@.len() == k,
                cheapest@.len() == k,
                forall|c: int| 0 <= c < k ==> #[trigger] cheapest@[c] is None,
                forall|c: int| 0 <= c < k ==> #[trigger] class_costs@[c] is None,
                forall|c: int| 0 <= c < k ==> #[trigger] node_costs@[c] is None,
            decreases n - k,
        {
            node_costs.push(None);
            class_costs.push(None);
            cheapest.push(None);
            k = k + 1;
        }
        let classes = egraph.iter_classes();
        let ghost mut hist: Seq<Seq<Seq<Option<usize>>>> = Seq::empty();
        proof {
            crate::rewriting::egraph::lemma_roots_upto(egraph.uf_view(), n as int);
            assert(node_costs@ =~= no_costs(n as nat).0);
            assert(class_costs@ =~= no_costs(n as nat).1);
            assert(cheapest@ =~= no_costs(n as nat).2);
            assert forall|c: int| 0 <= c < n && uf[c] == c implies entry_matches(
                best_of(egraph.class_at(c)->0.nodes_view(), node_costs@, egraph.class_at(c)->0.nodes_view().len() as int),
                class_costs@[c],
                cheapest@[c],
            ) by {
                let ids = egraph.class_at(c)->0.nodes_view();
                assert(egraph.class_ok(c));
                assert forall|j: int| 0 <= j < ids.len() implies #[trigger] ids[j] < node_costs@.len() by {}
                lemma_best_of(ids, node_costs@, ids.len() as int);
                assert forall|j: int| 0 <= j < ids.len() implies #[trigger] node_costs@[ids[j] as int] is None by {
                    assert(ids[j] < n);
                }
            }
            assert(tables_ok(egraph, (node_costs@, class_costs@, cheapest@)));
        }
        let mut rounds: usize = 0;
        let mut work_remaining = true;
        while work_remaining
            invariant
                n == egraph.nodes_view().len(),
                uf == egraph.uf_view(),
                views == egraph.nodes_view(),
                classes@ == round_classes(egraph),
                cheapest@.len() == n,
                tables_ok(egraph, (node_costs@, class_costs@, cheapest@)),
                hist.len() == rounds,
                rounds_given(egraph, self.symbol_cost, self.literal_cost, hist),
                tables_after(egraph, hist, rounds as int) == (node_costs@, class_costs@, cheapest@),
                forall|m: int| 0 <= m < rounds - 1 ==> #[trigger] round_changed(egraph, hist, m),
                rounds >= 1 ==> work_remaining == round_changed(egraph, hist, rounds - 1),
                rounds == 0 ==> work_remaining,
                !work_remaining ==> costs_settled(
                    egraph,
                    self.symbol_cost,
                    self.literal_cost,
                    node_costs@,
                    class_costs@,
                    cheapest@,
                ),
            decreases usize::MAX - rounds,
        {
            if rounds == usize::MAX {
                break;
            }
            rounds = rounds + 1;
            work_remaining = false;
            let ghost nc0 = node_costs@;
            let ghost cc0 = class_costs@;
            let ghost ch0 = cheapest@;
            let ghost t0 = (nc0, cc0, ch0);
            let ghost mut cur: Seq<Seq<Option<usize>>> = Seq::empty();
            let mut ci: usize = 0;
            while ci < classes.len()
                invariant
                    n == egraph.nodes_view().len(),
                    uf == egraph.uf_view(),
                    views == egraph.nodes_view(),
                    classes@ == round_classes(egraph),
                    cheapest@.len() == n,
                    tables_ok(egraph, (node_costs@, class_costs@, cheapest@)),
                    ci <= classes@.len(),
                    cur.len() == ci,
                    round_steps(egraph, classes@, cur, t0, ci as int) == ((node_costs@, class_costs@, cheapest@), work_remaining),
                    classes_given(egraph, self.symbol_cost, self.literal_cost, classes@, cur, t0, ci as int),
                    !work_remaining ==> node_costs@ == nc0 && class_costs@ == cc0 && cheapest@ == ch0,
                    !work_remaining ==> forall|t: int, k: int|
                        0 <= t < ci && 0 <= k < egraph.class_at(classes@[t] as int)->0.nodes_view().len() ==> node_settled(
                            self.symbol_cost,
                            self.literal_cost,
                            views[#[trigger] egraph.class_at(classes@[t] as int)->0.nodes_view()[k] as int],
                            cc0,
                            nc0[egraph.class_at(classes@[t] as int)->0.nodes_view()[k] as int],
                        ),
                decreases classes.len() - ci,
            {
                let class_id = classes[ci];
                proof {
                    assert(classes@[ci as int] < n && egraph.uf_view()[classes@[ci as int] as int] == classes@[ci as int]);
                    assert(egraph.class_at(class_id as int) is Some);
                    assert(egraph.class_ok(class_id as int));
                }
                let nodes = egraph.nodes(class_id);
                let ghost ids = nodes@;
                let ghost before = (node_costs@, class_costs@, cheapest@);
                let given = self.costs_given(egraph, nodes, &class_costs);
                let changed = settle_class_costs(egraph, class_id, &given, &mut node_costs, &mut class_costs, &mut cheapest);
                work_remaining = work_remaining || changed;
                proof {
                    lemma_next_class(egraph, self.symbol_cost, self.literal_cost, classes@, cur, given@, t0);
                    cur = cur.push(given@);
                    lemma_class_step_tables(egraph, class_id, given@, before, (node_costs@, class_costs@, cheapest@));
                    if !work_remaining {
                        lemma_class_step_settled(egraph, self.symbol_cost, self.literal_cost, class_id, given@, cc0, nc0);
                        assert(entry_matches(best_of(ids, nc0, ids.len() as int), cc0[class_id as int], ch0[class_id as int]));
                        assert(class_costs@ =~= cc0);
                        assert(cheapest@ =~= ch0);
                        assert forall|t: int, k: int|
                            0 <= t < ci + 1 && 0 <= k < egraph.class_at(classes@[t] as int)->0.nodes_view().len() implies node_settled(
                            self.symbol_cost,
                            self.literal_cost,
                            views[#[trigger] egraph.class_at(classes@[t] as int)->0.nodes_view()[k] as int],
                            cc0,
                            nc0[egraph.class_at(classes@[t] as int)->0.nodes_view()[k] as int],
                        ) by {
                            if t == ci {
                                assert(views[ids[k] as int] == views[egraph.class_at(class_id as int)->0.nodes_view()[k] as int]);
                            }
                        }
                    }
                }
                ci = ci + 1;
            }
            proof {
                lemma_next_round(egraph, self.symbol_cost, self.literal_cost, hist, cur);
                let hist2 = hist.push(cur);
                assert forall|m: int| 0 <= m < rounds - 1 implies #[trigger] round_changed(egraph, hist2, m) by {
                    assert(round_changed(egraph, hist2, m) == round_changed(egraph, hist, m));
                }
                hist = hist2;
                if !work_remaining {
                    assert forall|c: int| 0 <= c < n && uf[c] == c implies #[trigger] class_settled(
                        egraph,
                        self.symbol_cost,
                        self.literal_cost,
                        node_costs@,
                        class_costs@,
                        cheapest@,
                        c,
                    ) by {
                        crate::rewriting::egraph::lemma_roots_upto_complete(uf, n as int, c as ClassId);
                        let t = choose|t: int| 0 <= t < classes@.len() && classes@[t] == c as ClassId;
                        let ids2 = egraph.class_at(c)->0.nodes_view();
                        assert forall|k: int| 0 <= k < ids2.len() implies node_settled(
                            self.symbol_cost,
                            self.literal_cost,
                            egraph.nodes_view()[#[trigger] ids2[k] as int],
                            class_costs@,
                            node_costs@[ids2[k] as int],
                        ) by {
                            assert(egraph.class_at(classes@[t] as int)->0.nodes_view()[k] == ids2[k]);
                        }
                    }
                }
            }
        }
        let settled = !work_remaining;
        proof {
            assert(cost_history(egraph, self.symbol_cost, self.literal_cost, hist, rounds as int, class_costs@, cheapest@, settled));
            lemma_empty_history(egraph, self.symbol_cost, self.literal_cost, hist, rounds as int, class_costs@, cheapest@, settled);
        }
        (cheapest, class_costs, settled, rounds)
    }
}

impl<SC, LC> Extractor for SimpleExtractor<usize, SC, LC> where
    LC: Fn(&Literal) -> usize,
    SC: Fn(&Symbol<ClassId>, &Vec<Option<usize>>) -> Option<usize>,
 {
    type Cost = usize;

    /// Computes the costs, then builds the expression of the cheapest nodes
    /// from the class of `equivalent` down, with the cost of that class. Gives
    /// `None` when the costs do not settle within the rounds allowed, when the
    /// class has no cost, or when its cheapest nodes lead back to a class on
    /// the way.
    fn extract<A>(&self, egraph: &EGraph<A>, equivalent: ClassId) -> (r: Option<ExtractionResult<usize>>)
        ensures
            exists|rounds: int, class_costs: Seq<Option<usize>>, cheapest: Seq<Option<NodeId>>, settled: bool|
                #[trigger] has_cost_history(
                    egraph,
                    self.symbol_cost_view(),
                    self.literal_cost_view(),
                    rounds,
                    class_costs,
                    cheapest,
                    settled,
                ) && match (
                    settled,
                    cheapest_term(egraph.nodes_view(), cheapest, egraph.uf_view()[equivalent as int], egraph.nodes_view().len()),
                    class_costs[egraph.uf_view()[equivalent as int] as int],
                ) {
                    (true, Some(t), Some(c)) => r matches Some(res) && res.winner@ == t && res.cost == c,
                    _ => r is None,
                },
            r matches Some(res) ==> exists|
                node_costs: Seq<Option<usize>>,
                class_costs: Seq<Option<usize>>,
                cheapest: Seq<Option<NodeId>>,
            |
                #[trigger] costs_settled(
                    egraph,
                    self.symbol_cost_view(),
                    self.literal_cost_view(),
                    node_costs,
                    class_costs,
                    cheapest,
                ) && class_costs[egraph.uf_view()[equivalent as int] as int] == Some(res.cost) && cheapest_term(
                    egraph.nodes_view(),
                    cheapest,
                    egraph.uf_view()[equivalent as int],
                    egraph.nodes_view().len(),
                ) == Some(res.winner@),
    {
        let equivalent = egraph.canonical_class(equivalent);
        let (cheapest_nodes, class_costs, settled, rounds) = self.calculate_costs(egraph);
        proof {
            assert(has_cost_history(
                egraph,
                self.symbol_cost_view(),
                self.literal_cost_view(),
                rounds as int,
                class_costs@,
                cheapest_nodes@,
                settled,
            ));
        }
        if !settled {
            return None;
        }
        let result = Self::extract_with_costs(egraph, &cheapest_nodes, &class_costs, equivalent);
        match result {
            Some(res) => {
                proof {
                    let nc = choose|nc: Seq<Option<usize>>|
                        #[trigger] costs_settled(egraph, self.symbol_cost, self.literal_cost, nc, class_costs@, cheapest_nodes@);
                    assert(costs_settled(
                        egraph,
                        self.symbol_cost_view(),
                        self.literal_cost_view(),
                        nc,
                        class_costs@,
                        cheapest_nodes@,
                    ));
                }
                Some(res)
            },
            None => None,
        }
    }
}

} // verus!
