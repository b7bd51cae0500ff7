//! Dependencies between rules: which rule can become applicable at new places
//! after another rule was applied.

use vstd::prelude::*;

use crate::equation::Equation;
use crate::graph::DataGraph;
use crate::language::expression::{has_var, Expression, Term, VariableId};
use crate::language::paths::{lemma_subterm_vars, path_views, paths_of, subterm};
use crate::rewriting::rule::{rule_views, Rule};
use crate::rewriting::unification::{unify_fits, unify_spec, IndependentVarUnifier};
use crate::rewriting::system::TermRewritingSystem;

verus! {

broadcast use vstd::std_specs::vec::group_vec_axioms, vstd::seq::group_seq_axioms;

/// The subterm of `t` at its `i`-th position (in pre-order).
pub open spec fn sub_at(t: Term, i: int) -> Option<Term> {
    subterm(t, paths_of(t)[i])
}

/// The result of unifying `l` with the subterm of `t` at its `i`-th position.
pub open spec fn unify_at(l: Term, t: Term, i: int) -> Option<(Map<VariableId, Term>, Map<VariableId, Term>)> {
    match sub_at(t, i) {
        Some(s) => unify_spec(l, s),
        None => None,
    }
}

/// `true` when `l` unifies with some subterm of `t` with the unifier `u`.
pub open spec fn unifies_somewhere(l: Term, t: Term, u: (Map<VariableId, Term>, Map<VariableId, Term>)) -> bool {
    exists|j: int| 0 <= j < paths_of(t).len() && #[trigger] unify_at(l, t, j) == Some(u)
}

/// Case 1 of a dependency of the rule with left side `l` on the rule `l2 -> r2`:
/// `l` unifies with a subterm of `r2` with a unifier with which it unifies with
/// no subterm of `l2`.
pub open spec fn depends_case_1(l: Term, l2: Term, r2: Term) -> bool {
    exists|i: int|
        0 <= i < paths_of(r2).len() && (#[trigger] unify_at(l, r2, i) matches Some(u) && !unifies_somewhere(l, l2, u))
}

/// `true` when the subterm of `l` at its `i`-th position is no variable,
/// unifies with `r2` and does not unify with `l2`.
pub open spec fn case_2_at(l: Term, l2: Term, r2: Term, i: int) -> bool {
    match sub_at(l, i) {
        Some(s) => !(s is Var) && unify_spec(r2, s) is Some && unify_spec(l2, s) is None,
        None => false,
    }
}

/// Case 2 of a dependency of the rule with left side `l` on the rule `l2 -> r2`:
/// `r2` unifies with a subterm of `l` that is no variable and with which `l2`
/// does not unify.
pub open spec fn depends_case_2(l: Term, l2: Term, r2: Term) -> bool {
    exists|i: int| 0 <= i < paths_of(l).len() && #[trigger] case_2_at(l, l2, r2, i)
}

/// `true` when the rule `rule` depends on the rule `other`.
pub open spec fn depends_spec(rule: (Term, Term), other: (Term, Term)) -> bool {
    depends_case_1(rule.0, other.0, other.1) || depends_case_2(rule.0, other.0, other.1)
}

/// `true` when the variables of the two rules are small enough for the
/// unifications that the dependency test makes.
pub open spec fn depends_fits(rule: (Term, Term), other: (Term, Term)) -> bool {
    &&& unify_fits(rule.0, other.1)
    &&& unify_fits(rule.0, other.0)
    &&& unify_fits(other.1, rule.0)
    &&& unify_fits(other.0, rule.0)
}

/// Lemma: what fits for a term fits for its subterms on the right.
proof fn lemma_fits_sub(l: Term, t: Term, p: Seq<usize>)
    requires
        unify_fits(l, t),
        subterm(t, p) is Some,
    ensures
        unify_fits(l, subterm(t, p)->0),
{
    let s = subterm(t, p)->0;
    assert forall|v: VariableId, w: VariableId| has_var(l, v) && has_var(s, w) implies v + w < usize::MAX by {
        lemma_subterm_vars(t, p, w);
    }
}

impl Rule {
    /// `true` when this rule depends on `other`, that is when applying `other`
    /// may make this rule applicable at new places (case 1 or case 2).
    pub fn depends_on(&self, other: &Rule) -> (r: bool)
        requires
            depends_fits(self@, other@),
        ensures
            r == depends_spec(self@, other@),
    {
        self.depends_on_case_1(other) || self.depends_on_case_2(other)
    }

    /// Case 1: the left side of this rule unifies with a subexpression of the
    /// right side of `other` with a unifier with which it unifies with no
    /// subexpression of the left side of `other`.
    #[verifier::loop_isolation(false)]
    pub fn depends_on_case_1(&self, other: &Rule) -> (r: bool)
        requires
            unify_fits(self@.0, other@.1),
            unify_fits(self@.0, other@.0),
        ensures
            r == depends_case_1(self@.0, other@.0, other@.1),
    {
        let l = self.from();
        let r2 = other.to();
        let l2 = other.from();
        let r2_paths = r2.iter_paths();
        let l2_paths = l2.iter_paths();
        let ghost lv = l@;
        let ghost r2v = r2@;
        let ghost l2v = l2@;
        let mut i: usize = 0;
        while i < r2_paths.len()
            invariant
                i <= r2_paths@.len(),
                path_views(r2_paths@) == paths_of(r2v),
                path_views(l2_paths@) == paths_of(l2v),
                forall|k: int|
                    0 <= k < i ==> !(#[trigger] unify_at(lv, r2v, k) matches Some(u) && !unifies_somewhere(lv, l2v, u)),
            decreases r2_paths.len() - i,
        {
            proof {
                assert(r2_paths@[i as int]@ == paths_of(r2v)[i as int]);
            }
            match r2.subexpression(r2_paths[i].as_path()) {
                None => {},
                Some(sub) => {
                    proof {
                        lemma_fits_sub(lv, r2v, paths_of(r2v)[i as int]);
                    }
                    match IndependentVarUnifier::unify(Equation::new(l.clone(), sub.clone())) {
                        None => {},
                        Some(r2_match) => {
                            let ghost u = r2_match@;
                            let mut found = false;
                            let mut j: usize = 0;
                            while j < l2_paths.len()
                                invariant
                                    j <= l2_paths@.len(),
                                    !found,
                                    forall|k: int| 0 <= k < j ==> #[trigger] unify_at(lv, l2v, k) != Some(u),
                                decreases l2_paths.len() - j,
                            {
                                proof {
                                    assert(l2_paths@[j as int]@ == paths_of(l2v)[j as int]);
                                }
                                match l2.subexpression(l2_paths[j].as_path()) {
                                    None => {},
                                    Some(sub2) => {
                                        proof {
                                            lemma_fits_sub(lv, l2v, paths_of(l2v)[j as int]);
                                        }
                                        match IndependentVarUnifier::unify(Equation::new(l.clone(), sub2.clone())) {
                                            None => {},
                                            Some(l2_match) => {
                                                if r2_match.same_as(&l2_match) {
                                                    proof {
                                                        assert(unify_at(lv, l2v, j as int) == Some(u));
                                                        assert(unifies_somewhere(lv, l2v, u));
                                                    }
                                                    found = true;
                                                    break;
                                                }
                                            },
                                        }
                                    },
                                }
                                j = j + 1;
                            }
                            if !found {
                                proof {
                                    assert(!unifies_somewhere(lv, l2v, u));
                                    assert(unify_at(lv, r2v, i as int) == Some(u));
                                }
                                return true;
                            }
                            proof {
                                assert(unifies_somewhere(lv, l2v, u));
                            }
                        },
                    }
                },
            }
            i = i + 1;
        }
        false
    }

    /// Case 2: the right side of `other` unifies with a subexpression of the
    /// left side of this rule that is no variable, and the left side of
    /// `other` does not.
    #[verifier::loop_isolation(false)]
    pub fn depends_on_case_2(&self, other: &Rule) -> (r: bool)
        requires
            unify_fits(other@.1, self@.0),
            unify_fits(other@.0, self@.0),
        ensures
            r == depends_case_2(self@.0, other@.0, other@.1),
    {
        let l = self.from();
        let r2 = other.to();
        let l2 = other.from();
        let paths = l.iter_paths();
        let ghost lv = l@;
        let mut i: usize = 0;
        while i < paths.len()
            invariant
                i <= paths@.len(),
                path_views(paths@) == paths_of(lv),
                forall|k: int| 0 <= k < i ==> !#[trigger] case_2_at(lv, l2@, r2@, k),
            decreases paths.len() - i,
        {
            proof {
                assert(paths@[i as int]@ == paths_of(lv)[i as int]);
            }
            match l.subexpression(paths[i].as_path()) {
                None => {},
                Some(sub) => {
                    let is_variable = match sub {
                        Expression::Variable(_) => true,
                        _ => false,
                    };
                    proof {
                        crate::language::expression::lemma_expr_view(*sub);
                        lemma_fits_sub(r2@, lv, paths_of(lv)[i as int]);
                        lemma_fits_sub(l2@, lv, paths_of(lv)[i as int]);
                    }
                    if !is_variable {
                        proof {
                            assert(unify_fits(r2@, sub@));
                            assert(unify_fits(l2@, sub@));
                        }
                        let rhs_matches = IndependentVarUnifier::unify(Equation::new(r2.clone(), sub.clone())).is_some();
                        if rhs_matches {
                            let lhs_matches = IndependentVarUnifier::unify(Equation::new(l2.clone(), sub.clone())).is_some();
                            if !lhs_matches {
                                proof {
                                    assert(case_2_at(lv, l2@, r2@, i as int));
                                }
                                return true;
                            }
                        }
                    }
                },
            }
            i = i + 1;
        }
        false
    }
}

/// The edges from rule `i` to each rule `j < m` other than itself that it
/// depends on, in the order of `j`.
pub open spec fn row_edges(rs: Seq<(Term, Term)>, i: int, m: int) -> Seq<(usize, usize)>
    decreases m,
{
    if m <= 0 {
        Seq::empty()
    } else {
        row_edges(rs, i, m - 1) + if i != m - 1 && depends_spec(rs[i], rs[m - 1]) {
            seq![(i as usize, (m - 1) as usize)]
        } else {
            Seq::empty()
        }
    }
}

/// The edges of the first `n` rules, rule by rule.
pub open spec fn dependency_edges(rs: Seq<(Term, Term)>, n: int) -> Seq<(usize, usize)>
    decreases n,
{
    if n <= 0 {
        Seq::empty()
    } else {
        dependency_edges(rs, n - 1) + row_edges(rs, n - 1, rs.len() as int)
    }
}

/// `true` when every two distinct rules fit for the dependency test.
pub open spec fn rules_fit(rs: Seq<(Term, Term)>) -> bool {
    forall|i: int, j: int| 0 <= i < rs.len() && 0 <= j < rs.len() && i != j ==> depends_fits(#[trigger] rs[i], #[trigger] rs[j])
}

impl TermRewritingSystem {
    /// The graph with a vertex for each rule, in order, and an edge from each
    /// rule to each other rule it depends on.
    pub fn dependency_graph(&self) -> (r: DataGraph<Rule>)
        requires
            rules_fit(self.rules_view()),
        ensures
            rule_views(r.vertices_view()) == self.rules_view(),
            r.edges_view() == dependency_edges(self.rules_view(), self.rules_view().len() as int),
    {
        let rules = self.rules();
        let ghost rs = self.rules_view();
        let mut graph: DataGraph<Rule> = DataGraph::new();
        let mut k: usize = 0;
        while k < rules.len()
            invariant
                rule_views(rules@) == rs,
                k <= rules@.len(),
                rule_views(graph.vertices_view()) == rs.take(k as int),
                graph.edges_view() == Seq::<(usize, usize)>::empty(),
            decreases rules.len() - k,
        {
            let ghost before = graph.vertices_view();
            let c = rules[k].clone();
            graph.add_vertex(c);
            proof {
                assert(rs[k as int] == rules@[k as int]@);
                assert(graph.vertices_view() == before.push(c));
                assert(rule_views(graph.vertices_view()) =~= rule_views(before).push(c@));
                assert(rule_views(graph.vertices_view()) =~= rs.take(k + 1));
            }
            k = k + 1;
        }
        let n = rules.len();
        let mut i: usize = 0;
        while i < n
            invariant
                rule_views(rules@) == rs,
                n == rs.len(),
                rules_fit(rs),
                i <= n,
                rule_views(graph.vertices_view()) == rs,
                graph.edges_view() == dependency_edges(rs, i as int),
            decreases n - i,
        {
            let mut j: usize = 0;
            while j < n
                invariant
                    rule_views(rules@) == rs,
                    n == rs.len(),
                    rules_fit(rs),
                    i < n,
                    j <= n,
                    rule_views(graph.vertices_view()) == rs,
                    graph.edges_view() == dependency_edges(rs, i as int) + row_edges(rs, i as int, j as int),
                decreases n - j,
            {
                proof {
                    assert(rs[i as int] == rules@[i as int]@);
                    assert(rs[j as int] == rules@[j as int]@);
                }
                if i != j {
                    proof {
                        assert(depends_fits(rs[i as int], rs[j as int]));
                    }
                    if rules[i].depends_on(&rules[j]) {
                        graph.add_edge(i, j);
                    }
                }
                proof {
                    assert(graph.edges_view() =~= dependency_edges(rs, i as int) + row_edges(rs, i as int, j + 1));
                }
                j = j + 1;
            }
            proof {
                assert(graph.edges_view() =~= dependency_edges(rs, i + 1));
            }
            i = i + 1;
        }
        graph
    }
}

} // verus!
