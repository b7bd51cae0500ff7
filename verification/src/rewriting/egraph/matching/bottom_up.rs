//! Matching from the leaves up: every assignment of classes to the pattern's
//! variables is tried, and the pattern is looked up node by node under it.

use vstd::prelude::*;

use crate::language::expression::{has_var, lemma_expr_view, Expression, Term, VariableId};
use crate::language::symbol::Symbol;

use super::super::{
    canon_node, children_below, first_node_upto, lemma_first_node_exists, lemma_roots_upto, lemma_roots_upto_complete, node_children, roots_upto,
    ClassId, EGraph, NodeView,
};
use super::{pattern_in_class, sound_match, EGraphMatch, Matcher};

verus! {

broadcast use vstd::std_specs::vec::group_vec_axioms, vstd::seq::group_seq_axioms;

/// Matches patterns by trying every assignment of classes to their variables.
pub struct BottomUpMatcher;

/// The class found for pattern `p` when its variables stand for the classes
/// given by `sigma`: a literal or a symbol node is looked up by its canonical
/// form (the first such node's class), a variable gives its class.
pub open spec fn eval_pattern(views: Seq<NodeView>, uf: Seq<ClassId>, p: Term, sigma: Map<VariableId, ClassId>) -> Option<ClassId>
    decreases p,
{
    match p {
        Term::Lit(l) => match first_node_upto(views, uf, NodeView::Lit(l), views.len() as int) {
            Some(i) => Some(uf[i as int]),
            None => None,
        },
        Term::Var(v) => Some(sigma[v]),
        Term::Sym(id, cs) => match eval_children(views, uf, cs, sigma, cs.len() as int) {
            Some(ks) => match first_node_upto(views, uf, NodeView::Sym(id, ks), views.len() as int) {
                Some(i) => Some(uf[i as int]),
                None => None,
            },
            None => None,
        },
    }
}

/// The classes found for the first `k` patterns of `cs`, if all are found.
pub open spec fn eval_children(
    views: Seq<NodeView>,
    uf: Seq<ClassId>,
    cs: Seq<Term>,
    sigma: Map<VariableId, ClassId>,
    k: int,
) -> Option<Seq<ClassId>>
    decreases cs, k,
{
    if k <= 0 || k > cs.len() {
        Some(Seq::empty())
    } else {
        match eval_children(views, uf, cs, sigma, k - 1) {
            Some(ks) => match eval_pattern(views, uf, cs[k - 1], sigma) {
                Some(c) => Some(ks.push(c)),
                None => None,
            },
            None => None,
        }
    }
}

/// `true` when `sigma` binds exactly the variables of `p`, each to one of `classes`.
pub open spec fn assignment_over(p: Term, classes: Seq<ClassId>, sigma: Map<VariableId, ClassId>) -> bool {
    &&& forall|v: VariableId| #[trigger] sigma.contains_key(v) <==> has_var(p, v)
    &&& forall|v: VariableId| #[trigger] sigma.contains_key(v) ==> classes.contains(sigma[v])
}

/// `true` when `m` is the match found for `p` under its own assignment, which
/// takes its classes from `classes`.
pub open spec fn found_by_eval(
    views: Seq<NodeView>,
    uf: Seq<ClassId>,
    p: Term,
    classes: Seq<ClassId>,
    m: (ClassId, Map<VariableId, ClassId>),
) -> bool {
    &&& assignment_over(p, classes, m.1)
    &&& eval_pattern(views, uf, p, m.1) == Some(m.0)
}

/// `true` when `out` holds the match `(c, sigma)`.
pub open spec fn holds_match(out: Seq<EGraphMatch>, c: ClassId, sigma: Map<VariableId, ClassId>) -> bool {
    exists|i: int| 0 <= i < out.len() && #[trigger] out[i]@ == (c, sigma)
}

/// `true` when `after` starts with the matches of `before`.
pub open spec fn keeps_prefix(before: Seq<EGraphMatch>, after: Seq<EGraphMatch>) -> bool {
    &&& before.len() <= after.len()
    &&& forall|i: int| 0 <= i < before.len() ==> #[trigger] after[i]@ == before[i]@
}

/// `true` when `sigma` binds the first `k` variables of `vars` as `current` does.
pub open spec fn agrees_upto(
    sigma: Map<VariableId, ClassId>,
    current: Map<VariableId, ClassId>,
    vars: Seq<VariableId>,
    k: int,
) -> bool {
    forall|j: int| 0 <= j < k ==> sigma[#[trigger] vars[j]] == current[vars[j]]
}

/// `true` when `sigma` binds exactly the variables of `p`, each to a class
/// representative.
pub open spec fn root_assignment(uf: Seq<ClassId>, p: Term, sigma: Map<VariableId, ClassId>) -> bool {
    &&& forall|v: VariableId| #[trigger] sigma.contains_key(v) <==> has_var(p, v)
    &&& forall|v: VariableId| #[trigger] sigma.contains_key(v) ==> sigma[v] < uf.len() && uf[sigma[v] as int] == sigma[v]
}

/// Law: in a congruence-closed e-graph, the class found for a pattern under an
/// assignment of class representatives to its variables is the class of every
/// instance of the pattern under that assignment.
pub proof fn lemma_eval_complete<A>(egraph: &EGraph<A>, p: Term, c: ClassId, sigma: Map<VariableId, ClassId>)
    requires
        egraph.wf(),
        egraph.congruence_closed(),
        c < egraph.nodes_view().len(),
        forall|v: VariableId| has_var(p, v) ==> #[trigger] sigma.contains_key(v) && sigma[v] < egraph.nodes_view().len()
            && egraph.uf_view()[sigma[v] as int] == sigma[v],
        pattern_in_class(egraph.nodes_view(), egraph.uf_view(), p, c, sigma),
    ensures
        eval_pattern(egraph.nodes_view(), egraph.uf_view(), p, sigma) == Some(egraph.uf_view()[c as int]),
    decreases p,
{
    let views = egraph.nodes_view();
    let uf = egraph.uf_view();
    let n = views.len();
    egraph.lemma_size_fits();
    match p {
        Term::Lit(l) => {
            let i = choose|i: int| 0 <= i < views.len() && uf[i] == uf[c as int] && #[trigger] views[i] == NodeView::Lit(l);
            lemma_first_node_exists(views, uf, NodeView::Lit(l), n as int, i);
            egraph.lemma_first_node_found(NodeView::Lit(l), n as int);
            let i0 = first_node_upto(views, uf, NodeView::Lit(l), n as int)->0;
            assert(egraph.congruent(i0 as int, i));
        },
        Term::Var(v) => {
            assert(has_var(p, v));
        },
        Term::Sym(id, cs) => {
            let i = choose|i: int|
                0 <= i < views.len() && uf[i] == uf[c as int] && #[trigger] views[i] is Sym && views[i]->Sym_0 == id
                    && views[i]->1.len() == cs.len() && forall|k: int|
                    0 <= k < cs.len() ==> pattern_in_class(views, uf, #[trigger] cs[k], views[i]->1[k], sigma);
            let ns = views[i]->1;
            assert(children_below(views[i], n));
            assert forall|j: int| 0 <= j < cs.len() implies #[trigger] eval_pattern(views, uf, cs[j], sigma) == Some(
                uf[ns[j] as int],
            ) by {
                assert(node_children(views[i])[j] == ns[j]);
                assert forall|v: VariableId| has_var(cs[j], v) implies #[trigger] sigma.contains_key(v) && sigma[v] < n
                    && uf[sigma[v] as int] == sigma[v] by {
                    assert(has_var(Term::Sym(id, cs), v));
                }
                lemma_eval_complete(egraph, cs[j], ns[j], sigma);
            }
            lemma_eval_children(egraph, cs, sigma, cs.len() as int);
            let ks = eval_children(views, uf, cs, sigma, cs.len() as int)->0;
            let target = NodeView::Sym(id, ks);
            assert(canon_node(target, uf) == canon_node(views[i], uf)) by {
                assert forall|j: int| 0 <= j < ks.len() implies uf[#[trigger] ks[j] as int] == uf[ns[j] as int] by {
                    assert(eval_pattern(views, uf, cs[j], sigma) == Some(ks[j]));
                    assert(node_children(views[i])[j] == ns[j]);
                }
                assert(ks.map_values(|x: ClassId| uf[x as int]) =~= ns.map_values(|x: ClassId| uf[x as int]));
            }
            lemma_first_node_exists(views, uf, target, n as int, i);
            egraph.lemma_first_node_found(target, n as int);
            let i0 = first_node_upto(views, uf, target, n as int)->0;
            assert(egraph.congruent(i0 as int, i));
        },
    }
}

/// Lemma: a match kept at the front of a longer list is still held.
pub proof fn lemma_holds_match_kept(before: Seq<EGraphMatch>, after: Seq<EGraphMatch>, c: ClassId, sigma: Map<VariableId, ClassId>)
    requires
        keeps_prefix(before, after),
        holds_match(before, c, sigma),
    ensures
        holds_match(after, c, sigma),
{
    let i = choose|i: int| 0 <= i < before.len() && #[trigger] before[i]@ == (c, sigma);
    assert(after[i]@ == (c, sigma));
}

/// Lemma: the classes found for the children are the ones found for each child.
proof fn lemma_eval_children<A>(egraph: &EGraph<A>, cs: Seq<Term>, sigma: Map<VariableId, ClassId>, k: int)
    requires
        0 <= k <= cs.len(),
    ensures
        eval_children(egraph.nodes_view(), egraph.uf_view(), cs, sigma, k) matches Some(ks) ==> ks.len() == k
            && forall|j: int| 0 <= j < k ==> eval_pattern(egraph.nodes_view(), egraph.uf_view(), #[trigger] cs[j], sigma) == Some(ks[j]),
        (forall|j: int| 0 <= j < k ==> #[trigger] eval_pattern(egraph.nodes_view(), egraph.uf_view(), cs[j], sigma) is Some)
            ==> eval_children(egraph.nodes_view(), egraph.uf_view(), cs, sigma, k) is Some,
    decreases k,
{
    if k > 0 {
        lemma_eval_children(egraph, cs, sigma, k - 1);
    }
}

/// Lemma: a class found for a pattern holds an instance of it.
proof fn lemma_eval_sound<A>(egraph: &EGraph<A>, p: Term, sigma: Map<VariableId, ClassId>)
    requires
        egraph.wf(),
        forall|v: VariableId| has_var(p, v) ==> #[trigger] sigma.contains_key(v) && sigma[v] < egraph.nodes_view().len(),
    ensures
        eval_pattern(egraph.nodes_view(), egraph.uf_view(), p, sigma) matches Some(c) ==> c < egraph.nodes_view().len()
            && pattern_in_class(egraph.nodes_view(), egraph.uf_view(), p, c, sigma),
    decreases p,
{
    let views = egraph.nodes_view();
    let uf = egraph.uf_view();
    let n = views.len();
    egraph.lemma_size_fits();
    match p {
        Term::Lit(l) => {
            egraph.lemma_first_node_found(NodeView::Lit(l), n as int);
            if let Some(i) = first_node_upto(views, uf, NodeView::Lit(l), n as int) {
                assert(canon_node(views[i as int], uf) == canon_node(NodeView::Lit(l), uf));
                assert(views[i as int] == NodeView::Lit(l));
                assert(uf[uf[i as int] as int] == uf[i as int]);
            }
        },
        Term::Var(v) => {
            if sigma.contains_key(v) {
            }
            assert(has_var(p, v));
        },
        Term::Sym(id, cs) => {
            lemma_eval_children(egraph, cs, sigma, cs.len() as int);
            if let Some(ks) = eval_children(views, uf, cs, sigma, cs.len() as int) {
                assert forall|j: int| 0 <= j < cs.len() implies #[trigger] ks[j] < n && pattern_in_class(views, uf, cs[j], ks[j], sigma) by {
                    assert forall|v: VariableId| has_var(cs[j], v) implies #[trigger] sigma.contains_key(v) && sigma[v] < n by {
                        assert(has_var(Term::Sym(id, cs), v));
                    }
                    lemma_eval_sound(egraph, cs[j], sigma);
                }
                let target = NodeView::Sym(id, ks);
                egraph.lemma_first_node_found(target, n as int);
                if let Some(i) = first_node_upto(views, uf, target, n as int) {
                    assert(canon_node(views[i as int], uf) == canon_node(target, uf));
                    assert(uf[uf[i as int] as int] == uf[i as int]);
                    assert(views[i as int] is Sym);
                    let ns = views[i as int]->1;
                    assert(ns.map_values(|x: ClassId| uf[x as int]).len() == ks.map_values(|x: ClassId| uf[x as int]).len());
                    assert(children_below(views[i as int], n));
                    assert forall|j: int| 0 <= j < cs.len() implies pattern_in_class(views, uf, #[trigger] cs[j], ns[j], sigma) by {
                        assert(ns.map_values(|x: ClassId| uf[x as int])[j] == ks.map_values(|x: ClassId| uf[x as int])[j]);
                        assert(node_children(views[i as int])[j] == ns[j]);
                        assert(pattern_in_class(views, uf, cs[j], ks[j], sigma));
                        lemma_pattern_in_class_same_class(views, uf, cs[j], ks[j], ns[j], sigma);
                    }
                }
            }
        },
    }
}

/// Lemma: an instance in a class is an instance in any id of the same class.
proof fn lemma_pattern_in_class_same_class(
    views: Seq<NodeView>,
    uf: Seq<ClassId>,
    p: Term,
    c1: ClassId,
    c2: ClassId,
    sigma: Map<VariableId, ClassId>,
)
    requires
        pattern_in_class(views, uf, p, c1, sigma),
        uf[c1 as int] == uf[c2 as int],
    ensures
        pattern_in_class(views, uf, p, c2, sigma),
{
}

impl BottomUpMatcher {
    /// The class found for `expression` when its variables stand for the
    /// classes bound by `assignment`.
    fn try_match_with_variable_assignment<A>(
        &self,
        egraph: &EGraph<A>,
        expression: &Expression,
        assignment: &EGraphMatch,
    ) -> (r: Option<ClassId>)
        requires
            egraph.wf(),
            forall|v: VariableId| has_var(expression@, v) ==> #[trigger] assignment@.1.contains_key(v) && assignment@.1[v] < egraph.nodes_view().len(),
        ensures
            r == eval_pattern(egraph.nodes_view(), egraph.uf_view(), expression@, assignment@.1),
        decreases expression@,
    {
        proof {
            lemma_expr_view(*expression);
            lemma_eval_sound(egraph, expression@, assignment@.1);
        }
        match expression {
            Expression::Literal(literal) => egraph.find_literal(*literal),
            Expression::Variable(variable_id) => {
                assert(has_var(expression@, *variable_id));
                Some(assignment.class_variable(*variable_id))
            },
            Expression::Symbol(symbol) => {
                let ghost p = expression@;
                let ghost cs = p->1;
                let mut children: Vec<ClassId> = Vec::new();
                let mut k: usize = 0;
                while k < symbol.children.len()
                    invariant
                        egraph.wf(),
                        p == expression@,
                        p == Term::Sym(symbol.id, cs),
                        cs.len() == symbol.children@.len(),
                        forall|j: int| 0 <= j < cs.len() ==> #[trigger] cs[j] == symbol.children@[j]@,
                        forall|v: VariableId| has_var(p, v) ==> #[trigger] assignment@.1.contains_key(v) && assignment@.1[v] < egraph.nodes_view().len(),
                        k <= cs.len(),
                        eval_children(egraph.nodes_view(), egraph.uf_view(), cs, assignment@.1, k as int) == Some(children@),
                        forall|j: int| 0 <= j < children@.len() ==> #[trigger] children@[j] < egraph.nodes_view().len(),
                    decreases cs.len() - k,
                {
                    assert(decreases_to!(p => p->1));
                    assert(decreases_to!(p->1 => p->1[k as int]));
                    proof {
                        assert forall|v: VariableId| has_var(cs[k as int], v) implies #[trigger] assignment@.1.contains_key(v) && assignment@.1[v] < egraph.nodes_view().len() by {
                            assert(has_var(p, v));
                        }
                        lemma_eval_sound(egraph, cs[k as int], assignment@.1);
                    }
                    match self.try_match_with_variable_assignment(egraph, &symbol.children[k], assignment) {
                        Some(c) => {
                            children.push(c);
                        },
                        None => {
                            proof {
                                lemma_eval_children_none(egraph.nodes_view(), egraph.uf_view(), cs, assignment@.1, k as int + 1, cs.len() as int);
                            }
                            return None;
                        },
                    }
                    k = k + 1;
                }
                egraph.find_symbol(Symbol { id: symbol.id, children })
            },
        }
    }

    /// Tries every assignment of the classes `classes` to the variables
    /// `vars[k..]` that extends `current`, pushing the matches found to `out`.
    fn enumerate<A>(
        &self,
        egraph: &EGraph<A>,
        expression: &Expression,
        vars: &Vec<VariableId>,
        classes: &Vec<ClassId>,
        k: usize,
        current: EGraphMatch,
        out: &mut Vec<EGraphMatch>,
    )
        requires
            egraph.wf(),
            k <= vars@.len(),
            forall|v: VariableId| #[trigger] vars@.contains(v) <==> has_var(expression@, v),
            forall|j: int| 0 <= j < classes@.len() ==> #[trigger] classes@[j] < egraph.nodes_view().len(),
            forall|v: VariableId| #[trigger] current@.1.contains_key(v) ==> vars@.subrange(0, k as int).contains(v)
                && current@.1[v] < egraph.nodes_view().len() && classes@.contains(current@.1[v]),
            forall|v: VariableId| vars@.subrange(0, k as int).contains(v) ==> #[trigger] current@.1.contains_key(v),
            forall|i: int| 0 <= i < old(out)@.len() ==> sound_match(egraph, expression@, #[trigger] old(out)@[i]@),
        ensures
            forall|i: int| 0 <= i < final(out)@.len() ==> sound_match(egraph, expression@, #[trigger] final(out)@[i]@),
            keeps_prefix(old(out)@, final(out)@),
            forall|i: int|
                old(out)@.len() <= i < final(out)@.len() ==> found_by_eval(
                    egraph.nodes_view(),
                    egraph.uf_view(),
                    expression@,
                    classes@,
                    #[trigger] final(out)@[i]@,
                ),
            forall|sigma: Map<VariableId, ClassId>|
                #[trigger] assignment_over(expression@, classes@, sigma) && agrees_upto(sigma, current@.1, vars@, k as int)
                    && eval_pattern(egraph.nodes_view(), egraph.uf_view(), expression@, sigma) is Some ==> holds_match(
                    final(out)@,
                    eval_pattern(egraph.nodes_view(), egraph.uf_view(), expression@, sigma)->0,
                    sigma,
                ),
        decreases vars@.len() - k,
    {
        let ghost views = egraph.nodes_view();
        let ghost uf = egraph.uf_view();
        let ghost p = expression@;
        let ghost out0 = out@;
        let n_vars = vars.len();
        if k == n_vars {
            proof {
                assert(vars@.subrange(0, k as int) =~= vars@);
                assert forall|v: VariableId| has_var(expression@, v) implies #[trigger] current@.1.contains_key(v) && current@.1[v] < egraph.nodes_view().len() by {
                    assert(vars@.contains(v));
                    assert(vars@.subrange(0, k as int).contains(v));
                }
                lemma_eval_sound(egraph, expression@, current@.1);
                assert forall|sigma: Map<VariableId, ClassId>|
                    #[trigger] assignment_over(p, classes@, sigma) && agrees_upto(sigma, current@.1, vars@, k as int)
                    implies sigma == current@.1 by {
                    assert forall|v: VariableId| sigma.contains_key(v) == current@.1.contains_key(v) by {
                        if current@.1.contains_key(v) {
                            assert(vars@.contains(v));
                        }
                        if sigma.contains_key(v) {
                            assert(vars@.contains(v));
                            assert(vars@.subrange(0, k as int).contains(v));
                        }
                    }
                    assert forall|v: VariableId| #[trigger] sigma.contains_key(v) implies sigma[v] == current@.1[v] by {
                        assert(vars@.contains(v));
                        let j = choose|j: int| 0 <= j < vars@.len() && vars@[j] == v;
                        assert(sigma[vars@[j]] == current@.1[vars@[j]]);
                    }
                    assert(sigma =~= current@.1);
                }
            }
            match self.try_match_with_variable_assignment(egraph, expression, &current) {
                Some(root) => {
                    let mut m = current;
                    m.set_root(root);
                    proof {
                        assert forall|v: VariableId| #[trigger] m@.1.contains_key(v) implies has_var(expression@, v) && m@.1[v] < egraph.nodes_view().len() by {
                            assert(vars@.contains(v));
                        }
                        assert(assignment_over(p, classes@, m@.1)) by {
                            assert forall|v: VariableId| #[trigger] m@.1.contains_key(v) <==> has_var(p, v) by {
                                if has_var(p, v) {
                                    assert(vars@.contains(v));
                                    assert(vars@.subrange(0, k as int).contains(v));
                                }
                            }
                        }
                    }
                    out.push(m);
                    proof {
                        assert(out@[out0.len() as int]@ == m@);
                        assert forall|sigma: Map<VariableId, ClassId>|
                            #[trigger] assignment_over(p, classes@, sigma) && agrees_upto(sigma, current@.1, vars@, k as int)
                                && eval_pattern(views, uf, p, sigma) is Some implies holds_match(out@, eval_pattern(views, uf, p, sigma)->0, sigma) by {
                            assert(sigma == m@.1);
                            assert(out@[out0.len() as int]@ == (eval_pattern(views, uf, p, sigma)->0, sigma));
                        }
                    }
                },
                None => {
                    proof {
                        assert forall|sigma: Map<VariableId, ClassId>|
                            #[trigger] assignment_over(p, classes@, sigma) && agrees_upto(sigma, current@.1, vars@, k as int)
                                && eval_pattern(views, uf, p, sigma) is Some implies holds_match(out@, eval_pattern(views, uf, p, sigma)->0, sigma) by {
                            assert(sigma == current@.1);
                        }
                    }
                },
            }
            return;
        }
        let mut q: usize = 0;
        while q < classes.len()
            invariant
                egraph.wf(),
                views == egraph.nodes_view(),
                uf == egraph.uf_view(),
                p == expression@,
                k < vars@.len() == n_vars,
                forall|v: VariableId| #[trigger] vars@.contains(v) <==> has_var(expression@, v),
                forall|j: int| 0 <= j < classes@.len() ==> #[trigger] classes@[j] < egraph.nodes_view().len(),
                forall|v: VariableId| #[trigger] current@.1.contains_key(v) ==> vars@.subrange(0, k as int).contains(v)
                    && current@.1[v] < egraph.nodes_view().len() && classes@.contains(current@.1[v]),
                forall|v: VariableId| vars@.subrange(0, k as int).contains(v) ==> #[trigger] current@.1.contains_key(v),
                forall|i: int| 0 <= i < out@.len() ==> sound_match(egraph, expression@, #[trigger] out@[i]@),
                q <= classes@.len(),
                keeps_prefix(out0, out@),
                forall|i: int| out0.len() <= i < out@.len() ==> found_by_eval(views, uf, p, classes@, #[trigger] out@[i]@),
                forall|sigma: Map<VariableId, ClassId>|
                    #[trigger] assignment_over(p, classes@, sigma) && agrees_upto(sigma, current@.1, vars@, k as int)
                        && eval_pattern(views, uf, p, sigma) is Some && (exists|j: int|
                        0 <= j < q && classes@[j] == sigma[vars@[k as int]]) ==> holds_match(out@, eval_pattern(views, uf, p, sigma)->0, sigma),
            decreases classes@.len() - q,
        {
            let mut next = current.copy();
            next.insert(vars[k], classes[q]);
            proof {
                let pre = vars@.subrange(0, k as int);
                let post = vars@.subrange(0, k + 1);
                assert(post =~= pre.push(vars@[k as int]));
                assert forall|v: VariableId| #[trigger] next@.1.contains_key(v) implies post.contains(v) && next@.1[v] < egraph.nodes_view().len()
                    && classes@.contains(next@.1[v]) by {
                    if v != vars@[k as int] {
                        assert(pre.contains(v));
                        let j = choose|j: int| 0 <= j < pre.len() && pre[j] == v;
                        assert(post[j] == v);
                    } else {
                        assert(post[k as int] == v);
                        assert(classes@[q as int] == next@.1[v]);
                    }
                }
                assert forall|v: VariableId| post.contains(v) implies #[trigger] next@.1.contains_key(v) by {
                    let j = choose|j: int| 0 <= j < post.len() && post[j] == v;
                    if j < k {
                        assert(pre[j] == v);
                    }
                }
            }
            let ghost before = out@;
            self.enumerate(egraph, expression, vars, classes, k + 1, next, out);
            proof {
                assert forall|i: int| 0 <= i < out0.len() implies #[trigger] out@[i]@ == out0[i]@ by {
                    assert(out@[i]@ == before[i]@);
                }
                assert forall|i: int| out0.len() <= i < out@.len() implies found_by_eval(views, uf, p, classes@, #[trigger] out@[i]@) by {
                    if i < before.len() {
                        assert(out@[i]@ == before[i]@);
                        assert(found_by_eval(views, uf, p, classes@, before[i]@));
                    }
                }
                assert forall|sigma: Map<VariableId, ClassId>|
                    #[trigger] assignment_over(p, classes@, sigma) && agrees_upto(sigma, current@.1, vars@, k as int)
                        && eval_pattern(views, uf, p, sigma) is Some && (exists|j: int|
                        0 <= j < q + 1 && classes@[j] == sigma[vars@[k as int]]) implies holds_match(out@, eval_pattern(views, uf, p, sigma)->0, sigma) by {
                    if sigma[vars@[k as int]] == classes@[q as int] {
                        assert forall|j: int| 0 <= j < k + 1 implies sigma[#[trigger] vars@[j]] == next@.1[vars@[j]] by {
                            if j < k && vars@[j] != vars@[k as int] {
                                assert(sigma[vars@[j]] == current@.1[vars@[j]]);
                            }
                        }
                        assert(agrees_upto(sigma, next@.1, vars@, k + 1));
                    } else {
                        let j = choose|j: int| 0 <= j < q + 1 && classes@[j] == sigma[vars@[k as int]];
                        assert(0 <= j < q && classes@[j] == sigma[vars@[k as int]]);
                        assert(holds_match(before, eval_pattern(views, uf, p, sigma)->0, sigma));
                        lemma_holds_match_kept(before, out@, eval_pattern(views, uf, p, sigma)->0, sigma);
                    }
                }
            }
            q = q + 1;
        }
        proof {
            assert forall|sigma: Map<VariableId, ClassId>|
                #[trigger] assignment_over(p, classes@, sigma) && agrees_upto(sigma, current@.1, vars@, k as int)
                    && eval_pattern(views, uf, p, sigma) is Some implies holds_match(out@, eval_pattern(views, uf, p, sigma)->0, sigma) by {
                let v = vars@[k as int];
                assert(vars@.contains(v));
                assert(sigma.contains_key(v));
                assert(classes@.contains(sigma[v]));
                let j = choose|j: int| 0 <= j < classes@.len() && classes@[j] == sigma[v];
                assert(0 <= j < q && classes@[j] == sigma[vars@[k as int]]);
            }
        }
    }
}

/// Lemma: once a child is not found, the children are not found.
proof fn lemma_eval_children_none(
    views: Seq<NodeView>,
    uf: Seq<ClassId>,
    cs: Seq<Term>,
    sigma: Map<VariableId, ClassId>,
    k: int,
    k2: int,
)
    requires
        0 < k <= k2 <= cs.len(),
        eval_children(views, uf, cs, sigma, k - 1) is Some,
        eval_pattern(views, uf, cs[k - 1], sigma) is None,
    ensures
        eval_children(views, uf, cs, sigma, k2) is None,
    decreases k2 - k,
{
    if k2 > k {
        lemma_eval_children_none(views, uf, cs, sigma, k, k2 - 1);
    }
}

impl Matcher for BottomUpMatcher {
    /// One match per assignment of classes to the pattern's variables under
    /// which the pattern is found, assignments taken in lexicographic order of
    /// the class ids (one empty assignment when the pattern has no variable).
    fn try_match<A>(&self, egraph: &EGraph<A>, expression: &Expression) -> (r: Vec<EGraphMatch>)
        ensures
            forall|i: int|
                0 <= i < r@.len() ==> root_assignment(egraph.uf_view(), expression@, #[trigger] r@[i]@.1) && eval_pattern(
                    egraph.nodes_view(),
                    egraph.uf_view(),
                    expression@,
                    r@[i]@.1,
                ) == Some(r@[i]@.0),
            forall|sigma: Map<VariableId, ClassId>|
                #[trigger] root_assignment(egraph.uf_view(), expression@, sigma) && eval_pattern(
                    egraph.nodes_view(),
                    egraph.uf_view(),
                    expression@,
                    sigma,
                ) is Some ==> holds_match(r@, eval_pattern(egraph.nodes_view(), egraph.uf_view(), expression@, sigma)->0, sigma),
    {
        let vars = expression.variables();
        let classes = egraph.iter_classes();
        let ghost n = egraph.nodes_view().len();
        let ghost uf = egraph.uf_view();
        proof {
            egraph.lemma_roots_below();
            egraph.lemma_size_fits();
            lemma_roots_upto(uf, n as int);
        }
        let mut out: Vec<EGraphMatch> = Vec::new();
        let start = EGraphMatch::empty(0);
        proof {
            assert forall|v: VariableId| vars@.subrange(0, 0).contains(v) implies #[trigger] start@.1.contains_key(v) by {
                assert(vars@.subrange(0, 0).len() == 0);
            }
        }
        self.enumerate(egraph, expression, &vars, &classes, 0, start, &mut out);
        proof {
            let p = expression@;
            assert forall|sigma: Map<VariableId, ClassId>| #[trigger] root_assignment(uf, p, sigma)
                <==> assignment_over(p, classes@, sigma) by {
                if root_assignment(uf, p, sigma) {
                    assert forall|v: VariableId| #[trigger] sigma.contains_key(v) implies classes@.contains(sigma[v]) by {
                        lemma_roots_upto_complete(uf, n as int, sigma[v]);
                    }
                }
                if assignment_over(p, classes@, sigma) {
                    assert forall|v: VariableId| #[trigger] sigma.contains_key(v) implies sigma[v] < uf.len()
                        && uf[sigma[v] as int] == sigma[v] by {
                        let j = choose|j: int| 0 <= j < classes@.len() && classes@[j] == sigma[v];
                        assert(classes@[j] < n);
                    }
                }
            }
            assert forall|i: int| 0 <= i < out@.len() implies root_assignment(uf, p, #[trigger] out@[i]@.1) by {
                assert(found_by_eval(egraph.nodes_view(), uf, p, classes@, out@[i]@));
            }
            assert forall|sigma: Map<VariableId, ClassId>|
                #[trigger] root_assignment(uf, p, sigma) && eval_pattern(egraph.nodes_view(), uf, p, sigma) is Some
                implies holds_match(out@, eval_pattern(egraph.nodes_view(), uf, p, sigma)->0, sigma) by {
                assert(assignment_over(p, classes@, sigma));
            }
        }
        out
    }
}

} // verus!
