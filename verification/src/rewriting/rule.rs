//! Rewrite rules `from -> to`.

use vstd::prelude::*;

use crate::language::expression::{has_var, Expression, Term, VariableId};
use crate::language::parse::{parse_spec, ParseError};
use crate::language::Language;
use crate::seen::Seen;

use super::egraph::matching::{
    lemma_mixed_instance, lemma_mixed_instance_bounds, lemma_pattern_binds, lemma_pattern_in_class_evolve,
    pattern_in_class, sound_match, EGraphMatch, Matcher,
};
use super::egraph::{lemma_evolved, lemma_mixed_represents_later, Analysis, ClassId, EGraph};

verus! {

/// A rewrite rule: every instance of `from` may be rewritten into the matching instance of `to`.
#[derive(Debug, PartialEq, Eq)]
pub struct Rule {
    from: Expression,
    to: Expression,
}

impl View for Rule {
    type V = (Term, Term);

    closed spec fn view(&self) -> (Term, Term) {
        (self.from@, self.to@)
    }
}

/// The views of a list of rules.
pub open spec fn rule_views(rules: Seq<Rule>) -> Seq<(Term, Term)> {
    rules.map_values(|r: Rule| r@)
}

/// The rule read from the texts `from` and `to` with the symbol names
/// `names`, or the first error met reading them.
#[verifier::opaque]
pub open spec fn rule_parse(from: Seq<char>, to: Seq<char>, names: Seq<Seq<char>>) -> Result<(Term, Term), ParseError> {
    match parse_spec(from, names) {
        Err(err) => Err(err),
        Ok(f) => match parse_spec(to, names) {
            Err(err) => Err(err),
            Ok(t) => Ok((f, t)),
        },
    }
}

/// `true` when every variable of the right-hand side occurs in the left-hand side.
pub open spec fn rule_ok(rule: (Term, Term)) -> bool {
    forall|v: VariableId| has_var(rule.1, v) ==> #[trigger] has_var(rule.0, v)
}

/// `true` when `ms` are matches of the left-hand side of `rule` in `egraph`,
/// each of whose classes also holds the matching instance of the right-hand side.
pub open spec fn rewritten<A>(egraph: &EGraph<A>, rule: (Term, Term), ms: Seq<(ClassId, Map<VariableId, ClassId>)>) -> bool {
    forall|i: int|
        0 <= i < ms.len() ==> sound_match(egraph, rule.0, #[trigger] ms[i]) && pattern_in_class(
            egraph.nodes_view(),
            egraph.uf_view(),
            rule.1,
            ms[i].0,
            ms[i].1,
        )
}

/// The views of a list of matches.
pub open spec fn match_views(ms: Seq<EGraphMatch>) -> Seq<(ClassId, Map<VariableId, ClassId>)> {
    ms.map_values(|m: EGraphMatch| m@)
}

/// `true` when `egraph` can take one more instance of the right-hand side of
/// `rule` without its node count outgrowing the `usize` range.
pub open spec fn room_for<A>(egraph: &EGraph<A>, rule: (Term, Term)) -> bool {
    egraph.nodes_view().len() + crate::language::expression::term_size(rule.1) < usize::MAX - 1
}

/// `true` when, among the matches `ms`, the `k`-th is the first at which
/// applying `rule` changed `before`: the earlier ones were fixed points of it,
/// and `after` has the right-hand side in the classes of all up to the `k`-th.
pub open spec fn applied_at<A>(before: &EGraph<A>, after: &EGraph<A>, rule: (Term, Term), ms: Seq<(ClassId, Map<VariableId, ClassId>)>, k: int) -> bool {
    &&& 0 <= k < ms.len()
    &&& rewritten(before, rule, ms.take(k))
    &&& rewritten(after, rule, ms.take(k + 1))
}

/// What applying `rule` at the matches `ms`, until one changes the e-graph,
/// leaves: when it reports a change (`changed`), the first change came at one
/// of them; otherwise the e-graph had the right-hand side in the class of each
/// of them already, or there was no room to add it.
pub open spec fn applied_to<A>(before: &EGraph<A>, after: &EGraph<A>, rule: (Term, Term), ms: Seq<(ClassId, Map<VariableId, ClassId>)>, changed: bool) -> bool {
    &&& forall|j: int| 0 <= j < ms.len() ==> sound_match(before, rule.0, #[trigger] ms[j])
    &&& changed ==> exists|k: int| applied_at(before, after, rule, ms, k)
    &&& !changed && room_for(before, rule) ==> rewritten(after, rule, ms)
}

/// `true` when applying `rule` to `before`, at the matches it has there, gave
/// `after` and changed it.
pub open spec fn changed_by<A>(before: &EGraph<A>, after: &EGraph<A>, rule: (Term, Term)) -> bool {
    &&& after.changed_from(before)
    &&& exists|ms: Seq<(ClassId, Map<VariableId, ClassId>)>| #[trigger] applied_to(before, after, rule, ms, true)
}

/// The matches that `matcher` finds of `expression` in `egraph`.
pub fn find_matches<A, M: Matcher>(matcher: &M, egraph: &EGraph<A>, expression: &Expression) -> (r: Vec<EGraphMatch>)
    requires
        egraph.wf(),
    ensures
        forall|i: int| 0 <= i < r@.len() ==> sound_match(egraph, expression@, #[trigger] r@[i]@),
{
    matcher.try_match(egraph, expression)
}

/// `true` when `ms` is a result that `matcher` may give for the matches of
/// `expression` in `egraph`.
pub open spec fn found_by<A, M: Matcher>(matcher: &M, egraph: &EGraph<A>, expression: &Expression, ms: Vec<EGraphMatch>) -> bool {
    call_ensures(find_matches::<A, M>, (matcher, egraph, expression), ms)
}

/// `true` when `egraph` is a fixed point of `rule` under `matcher`: the
/// matches `matcher` gives of the left-hand side all have the matching
/// instance of the right-hand side in their class already.
pub open spec fn fixed_under<A, M: Matcher>(egraph: &EGraph<A>, rule: (Term, Term), matcher: &M) -> bool {
    exists|e: Expression, ms: Vec<EGraphMatch>|
        e@ == rule.0 && #[trigger] found_by(matcher, egraph, &e, ms) && rewritten(egraph, rule, match_views(ms@))
}

/// `true` when applying `rule` would change nothing in `egraph`: it is a fixed
/// point of the rule, or it has no room left for the rule's right-hand side.
pub open spec fn rule_done<A, M: Matcher>(egraph: &EGraph<A>, rule: (Term, Term), matcher: &M) -> bool {
    fixed_under(egraph, rule, matcher) || !room_for(egraph, rule)
}

impl Rule {
    /// The rule whose sides are read from `from` and `to` in `language`.
    pub fn from_strings(from: &str, to: &str, language: &Language) -> (r: Result<Self, ParseError>)
        ensures
            match rule_parse(from@, to@, language.names()) {
                Ok(rv) => r matches Ok(rule) && rule@ == rv,
                Err(err) => r == Err::<Rule, ParseError>(err),
            },
            r matches Ok(rule) ==> crate::language::expression::symbols_below(rule@.0, language.names().len())
                && crate::language::expression::symbols_below(rule@.1, language.names().len()),
    {
        proof {
            reveal(rule_parse);
        }
        let from = match language.parse(from) {
            Ok(e) => e,
            Err(err) => {
                return Err(err);
            },
        };
        let to = match language.parse(to) {
            Ok(e) => e,
            Err(err) => {
                return Err(err);
            },
        };
        Ok(Rule { from, to })
    }

    /// Applies the rule at the matches that `matcher` finds of its left-hand
    /// side, in order, until one of them changes the e-graph: `true` when one
    /// did, `false` when the e-graph is a fixed point of the rule at all of
    /// them.
    pub fn apply<A: Analysis + Clone + Default, M: Matcher>(&self, egraph: &mut EGraph<A>, matcher: &M) -> (r: bool)
        requires
            old(egraph).wf(),
            rule_ok(self@),
        ensures
            final(egraph).wf(),
            final(egraph).evolved_from(old(egraph)),
            old(egraph).congruence_closed() ==> final(egraph).congruence_closed(),
            !r ==> *final(egraph) == *old(egraph),
            r ==> final(egraph).changed_from(old(egraph)),
            exists|ms: Seq<(ClassId, Map<VariableId, ClassId>)>| #[trigger] applied_to(old(egraph), final(egraph), self@, ms, r),
            final(egraph).analysis_from(old(egraph)),
            final(egraph).change_measure() >= old(egraph).change_measure(),
            r ==> final(egraph).change_measure() > old(egraph).change_measure(),
            !r ==> rule_done(final(egraph), self@, matcher),
    {
        let matches = find_matches(matcher, egraph, &self.from);
        proof {
            assert(found_by(matcher, egraph, &self.from, matches));
        }
        let r = self.apply_matches(egraph, &matches);
        proof {
            if !r && room_for(egraph, self@) {
                assert(self.from@ == self@.0);
                assert(rewritten(egraph, self@, match_views(matches@)));
                assert(fixed_under(egraph, self@, matcher));
            }
        }
        r
    }

    /// Applies the rule at `matches`, matches of its left-hand side, in order:
    /// adds the matching instance of the right-hand side and merges its class
    /// with the match's, and stops after the first application that changes
    /// the e-graph. `true` when one did. Nothing is applied when the e-graph
    /// could outgrow the `usize` range.
    pub fn apply_matches<A: Analysis + Clone + Default>(&self, egraph: &mut EGraph<A>, matches: &Vec<EGraphMatch>) -> (r: bool)
        requires
            old(egraph).wf(),
            rule_ok(self@),
            forall|j: int| 0 <= j < matches@.len() ==> sound_match(old(egraph), self@.0, #[trigger] matches@[j]@),
        ensures
            final(egraph).wf(),
            final(egraph).evolved_from(old(egraph)),
            old(egraph).congruence_closed() ==> final(egraph).congruence_closed(),
            !r ==> *final(egraph) == *old(egraph),
            r ==> final(egraph).changed_from(old(egraph)),
            applied_to(old(egraph), final(egraph), self@, match_views(matches@), r),
            final(egraph).analysis_from(old(egraph)),
            final(egraph).change_measure() >= old(egraph).change_measure(),
            r ==> final(egraph).change_measure() > old(egraph).change_measure(),
    {
        let ghost start = *egraph;
        proof {
            EGraph::<A>::lemma_analysis_same_classes(&start, &start);
        }
        let ghost mvs = match_views(matches@);
        let size = self.to.size();
        let n = egraph.total_node_count();
        proof {
            lemma_evolved(&start, &start, &start);
        }
        if size >= usize::MAX - 1 || n >= usize::MAX - 1 - size {
            return false;
        }
        let mut i: usize = 0;
        while i < matches.len()
            invariant
                egraph.wf(),
                *egraph == start,
                start == *old(egraph),
                rule_ok(self@),
                mvs == match_views(matches@),
                size as nat == (if crate::language::expression::term_size(self@.1) <= usize::MAX {
                    crate::language::expression::term_size(self@.1)
                } else {
                    usize::MAX as nat
                }),
                room_for(&start, self@),
                forall|j: int| 0 <= j < matches@.len() ==> sound_match(&start, self@.0, #[trigger] matches@[j]@),
                i <= matches@.len(),
                rewritten(egraph, self@, mvs.take(i as int)),
            decreases matches@.len() - i,
        {
            let m = &matches[i];
            let ghost mv = m@;
            proof {
                assert(mvs[i as int] == mv);
                assert(sound_match(&start, self@.0, mv));
                assert forall|v: VariableId| has_var(self@.1, v) implies #[trigger] mv.1.contains_key(v) by {
                    assert(has_var(self@.0, v));
                    lemma_pattern_binds(start.nodes_view(), start.uf_view(), self@.0, mv.0, mv.1, v);
                }
            }
            let to_add = self.to.mixed_expression(m);
            proof {
                lemma_mixed_instance_bounds(to_add, self@.1, mv.1, start.nodes_view().len());
            }
            let added = egraph.add_mixed_expression(to_add);
            let ghost mid = *egraph;
            let added_class = added.any();
            proof {
                lemma_evolved(&start, &start, &mid);
            }
            let merged = egraph.merge_classes(m.root(), added_class);
            proof {
                EGraph::<A>::lemma_analysis_from_trans(&start, &mid, egraph);
                lemma_evolved(&start, &mid, egraph);
                let post = *egraph;
                // The right-hand side's instance is in the merged class.
                let c = mid.uf_view()[added_class as int];
                assert(c < mid.nodes_view().len());
                assert forall|x: int| 0 <= x < mid.nodes_view().len() implies #[trigger] children_below_of(&mid, x) by {}
                lemma_mixed_instance(mid.nodes_view(), mid.uf_view(), to_add, self@.1, mv.1, c);
                assert forall|v: VariableId| #[trigger] mv.1.contains_key(v) implies mv.1[v] < mid.nodes_view().len() by {}
                lemma_pattern_in_class_evolve(&mid, &post, self@.1, c, mv.1);
                assert(post.uf_view()[c as int] == post.uf_view()[added_class as int]);
                crate::rewriting::egraph::matching::lemma_pattern_in_class_same_root(
                    post.nodes_view(),
                    post.uf_view(),
                    self@.1,
                    c,
                    mv.0,
                    mv.1,
                );
                // The left-hand side's instance is still there.
                lemma_pattern_in_class_evolve(&start, &post, self@.0, mv.0, mv.1);
                // Earlier applications are still in place.
                let done = mvs.take(i as int);
                assert forall|j: int| 0 <= j < i + 1 implies sound_match(&post, self@.0, #[trigger] mvs.take(i + 1)[j])
                    && pattern_in_class(post.nodes_view(), post.uf_view(), self@.1, mvs.take(i + 1)[j].0, mvs.take(i + 1)[j].1) by {
                    if j < i {
                        assert(mvs.take(i + 1)[j] == done[j]);
                        lemma_pattern_in_class_evolve(&start, &post, self@.0, done[j].0, done[j].1);
                        lemma_pattern_in_class_evolve(&start, &post, self@.1, done[j].0, done[j].1);
                    } else {
                        assert(mvs.take(i + 1)[j] == mv);
                    }
                }
                assert(rewritten(&post, self@, mvs.take(i + 1)));
            }
            let changed = match merged {
                Seen::New(_) => true,
                Seen::Old(_) => match added {
                    Seen::New(_) => true,
                    Seen::Old(_) => false,
                },
            };
            if changed {
                proof {
                    let post = *egraph;
                    assert(post.nodes_view().len() == mid.nodes_view().len());
                    assert(post.class_count_spec() <= mid.class_count_spec());
                    if added is Old {
                        assert(merged is New);
                        assert(mid == start);
                        let a = mv.0 as int;
                        let b = added_class as int;
                        assert(a < start.nodes_view().len());
                        assert(start.uf_view()[a] != start.uf_view()[b]);
                        assert(post.uf_view()[a] == post.uf_view()[b]);
                    }
                    assert(applied_at(&start, &post, self@, mvs, i as int));
                }
                return true;
            }
            i = i + 1;
        }
        assert(mvs.take(i as int) =~= mvs);
        false
    }

    /// The rule `from -> to`.
    pub fn from_expressions(from: Expression, to: Expression) -> (r: Self)
        ensures
            r@ == (from@, to@),
    {
        Rule { from, to }
    }

    /// The left-hand side.
    pub fn from(&self) -> (r: &Expression)
        ensures
            r@ == self@.0,
    {
        &self.from
    }

    /// The right-hand side.
    pub fn to(&self) -> (r: &Expression)
        ensures
            r@ == self@.1,
    {
        &self.to
    }
}

impl Clone for Rule {
    fn clone(&self) -> (r: Self)
        ensures
            r@ == self@,
    {
        Rule { from: self.from.clone(), to: self.to.clone() }
    }
}

/// The children of node `x` of `egraph` are classes of it.
pub open spec fn children_below_of<A>(egraph: &EGraph<A>, x: int) -> bool {
    crate::rewriting::egraph::children_below(egraph.nodes_view()[x], egraph.nodes_view().len())
}

/// Copies a list of rules.
pub fn clone_rules(rules: &[Rule]) -> (r: Vec<Rule>)
    ensures
        rule_views(r@) == rule_views(rules@),
{
    let mut out: Vec<Rule> = Vec::new();
    let mut i: usize = 0;
    while i < rules.len()
        invariant
            i <= rules@.len(),
            out@.len() == i,
            forall|j: int| 0 <= j < i ==> #[trigger] out@[j]@ == rules@[j]@,
        decreases rules.len() - i,
    {
        let c = rules[i].clone();
        out.push(c);
        i = i + 1;
    }
    assert(rule_views(out@) =~= rule_views(rules@));
    out
}

} // verus!
