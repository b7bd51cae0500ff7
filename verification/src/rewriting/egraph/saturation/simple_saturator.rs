//! Saturation that tries the rules in turn.

use vstd::prelude::*;

use crate::rewriting::egraph::matching::Matcher;
use crate::rewriting::egraph::{Analysis, EGraph};
use crate::language::expression::Term;
use crate::rewriting::rule::{clone_rules, rule_done, rule_ok, rule_views, Rule};

use super::scheduled_saturator::ScheduledSaturator;
use super::scheduler::RoundRobinScheduler;
use super::{reason_justified, SaturationConfig, SaturationStopReason, Saturator};

verus! {

/// Saturates with a round-robin scheduler and the given matcher.
pub struct SimpleSaturator<M> {
    matcher: M,
}

impl<M: Matcher> SimpleSaturator<M> {
    /// The matcher.
    pub closed spec fn matcher_view(&self) -> M {
        self.matcher
    }

    /// A saturator that finds matches with `matcher`.
    pub fn new(matcher: M) -> (r: Self)
        ensures
            r.matcher_view() == matcher,
    {
        SimpleSaturator { matcher }
    }
}

impl<A: Analysis + Clone + Default, M: Matcher> Saturator<A> for SimpleSaturator<M> {
    open spec fn done_with(&self, egraph: &EGraph<A>, rule: (Term, Term)) -> bool {
        rule_done(egraph, rule, &self.matcher_view())
    }

    fn saturate(&self, egraph: &mut EGraph<A>, rules: &[Rule], config: &SaturationConfig) -> (r: SaturationStopReason) {
        let copies = clone_rules(rules);
        proof {
            assert(rule_views(copies@).len() == copies@.len());
            assert(rule_views(rules@).len() == rules@.len());
            assert forall|i: int| 0 <= i < copies@.len() implies rule_ok(#[trigger] copies@[i]@) by {
                assert(rule_views(copies@)[i] == copies@[i]@);
                assert(rule_views(rules@)[i] == rules@[i]@);
                assert(rule_ok(rules@[i]@));
            }
        }
        let scheduler = RoundRobinScheduler::new(copies);
        let ghost views = rule_views(copies@);
        let mut saturator = ScheduledSaturator::new(scheduler);
        let r = saturator.run(egraph, config, &self.matcher);
        proof {
            assert(rule_views(copies@) == rule_views(rules@));
            if r == SaturationStopReason::Saturated {
                assert forall|i: int| 0 <= i < rules@.len() implies self.done_with(egraph, #[trigger] rules@[i]@) by {
                    assert(rule_views(rules@)[i] == rules@[i]@);
                    assert(views[i] == rules@[i]@);
                }
            }
        }
        r
    }
}

} // verus!
