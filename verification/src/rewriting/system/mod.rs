//! Term rewriting systems: a language together with rules over it.

pub mod calculus;
pub mod dependency_graph;

use vstd::prelude::*;

use crate::language::expression::{term_size, Term, VarFreeExpression};
use crate::language::Language;
use crate::rewriting::egraph::matching::bottom_up::BottomUpMatcher;
use crate::rewriting::egraph::saturation::{reason_justified, run_outcome, SaturationConfig, SaturationStopReason, Saturator, SimpleSaturator};
use crate::rewriting::egraph::{represents, Analysis, ClassId, EGraph};
use crate::rewriting::rule::{rule_done, rule_ok, rule_views, Rule};

verus! {

/// A language and rewrite rules over it.
#[derive(Debug)]
pub struct TermRewritingSystem {
    language: Language,
    rules: Vec<Rule>,
}

/// `true` when `g` is an e-graph as building it from the term `t` alone gives:
/// well formed, holding `t`, congruence-closed, each node a class of its own,
/// with every class's data accounted for.
pub open spec fn built_from<A: Analysis + Clone + Default>(g: &EGraph<A>, t: Term) -> bool {
    &&& g.wf()
    &&& exists|c: ClassId| c < g.nodes_view().len() && #[trigger] represents(g.nodes_view(), g.uf_view(), t, c)
    &&& g.congruence_closed()
    &&& g.data_accounted()
    &&& forall|x: int| 0 <= x < g.nodes_view().len() ==> #[trigger] g.uf_view()[x] == x
    &&& g.nodes_view().len() <= term_size(t)
}

impl TermRewritingSystem {
    /// The language.
    pub closed spec fn language_view(&self) -> Language {
        self.language
    }

    /// The rules.
    pub closed spec fn rules_view(&self) -> Seq<(Term, Term)> {
        rule_views(self.rules@)
    }

    /// The system of `rules` over `language`.
    pub fn new(language: Language, rules: Vec<Rule>) -> (r: Self)
        ensures
            r.language_view() == language,
            r.rules_view() == rule_views(rules@),
    {
        TermRewritingSystem { language, rules }
    }

    /// The language.
    pub fn language(&self) -> (r: &Language)
        ensures
            *r == self.language_view(),
    {
        &self.language
    }

    /// The rules.
    pub fn rules(&self) -> (r: &Vec<Rule>)
        ensures
            rule_views(r@) == self.rules_view(),
    {
        &self.rules
    }

    /// An e-graph built from `expression` and saturated with the rules (no
    /// limit set, matches found bottom-up): a fixed point of every rule,
    /// unless the count of applications reached the end of the `usize` range.
    pub fn rewrite<A: Analysis + Clone + Default>(&self, expression: VarFreeExpression) -> (r: EGraph<A>)
        requires
            term_size(expression@) < usize::MAX,
            forall|i: int| 0 <= i < self.rules_view().len() ==> rule_ok(#[trigger] self.rules_view()[i]),
        ensures
            r.wf(),
            exists|c: ClassId| c < r.nodes_view().len() && #[trigger] represents(r.nodes_view(), r.uf_view(), expression@, c),
            r.congruence_closed(),
            r.data_accounted(),
            exists|g: EGraph<A>|
                {
                    &&& #[trigger] built_from(&g, expression@)
                    &&& r.evolved_from(&g)
                    &&& (forall|i: int|
                        0 <= i < self.rules_view().len() ==> rule_done(&r, #[trigger] self.rules_view()[i], &BottomUpMatcher))
                        || exists|n: nat| n >= usize::MAX && run_outcome(SaturationStopReason::MaxApplications, n, &g, &r, SaturationConfig { max_nodes: None, max_classes: None, max_applications: None, time_limit: None })
                },
    {
        let mut egraph = EGraph::<A>::from_expression(expression);
        let ghost start = egraph;
        let saturator = SimpleSaturator::new(BottomUpMatcher);
        proof {
            assert forall|i: int| 0 <= i < self.rules@.len() implies rule_ok(#[trigger] self.rules@[i]@) by {
                assert(self.rules_view()[i] == self.rules@[i]@);
            }
        }
        let config = SaturationConfig::default();
        let reason = saturator.saturate(&mut egraph, &self.rules, &config);
        proof {
            EGraph::<A>::lemma_data_accounted(&start, &egraph);
            assert(built_from(&start, expression@));
            assert(rule_views(self.rules@) == self.rules_view());
            if reason == SaturationStopReason::Saturated {
                assert forall|i: int| 0 <= i < self.rules_view().len() implies rule_done(
                    &egraph,
                    #[trigger] self.rules_view()[i],
                    &BottomUpMatcher,
                ) by {
                    assert(self.rules_view()[i] == self.rules@[i]@);
                    assert(saturator.done_with(&egraph, self.rules@[i]@));
                }
            } else {
                let n = choose|n: nat| #[trigger] run_outcome(reason, n, &start, &egraph, config);
                assert(reason_justified(reason, &egraph, config));
                assert(reason == SaturationStopReason::MaxApplications);
                assert(n >= usize::MAX);
            }
        }
        proof {
            let c = choose|c: ClassId| c < start.nodes_view().len() && #[trigger] represents(
                start.nodes_view(),
                start.uf_view(),
                expression@,
                c,
            );
            crate::rewriting::egraph::lemma_represents_evolved(&start, &egraph, expression@, c);
            assert(represents(egraph.nodes_view(), egraph.uf_view(), expression@, egraph.uf_view()[c as int]));
        }
        egraph
    }
}

} // verus!
