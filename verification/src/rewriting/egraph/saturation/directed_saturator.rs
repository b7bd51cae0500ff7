//! Saturation that tries the rules that make expressions cheapest first.

use vstd::prelude::*;

use crate::rewriting::egraph::class::local_cost::LocalCost;
use crate::rewriting::egraph::matching::Matcher;
use crate::rewriting::egraph::{Analysis, EGraph};
use crate::language::expression::Term;
use crate::rewriting::rule::{clone_rules, rule_done, rule_ok, rule_views, Rule};

use super::scheduled_saturator::ScheduledSaturator;
use super::scheduler::CostDirectedScheduler;
use super::{reason_justified, SaturationConfig, SaturationStopReason, Saturator};

verus! {

/// Saturates with a cost-directed scheduler and the given matcher.
pub struct DirectedSaturator<M> {
    matcher: M,
}

impl<M: Matcher> DirectedSaturator<M> {
    /// The matcher.
    pub closed spec fn matcher_view(&self) -> M {
        self.matcher
    }

    /// A saturator that finds matches with `matcher`.
    pub fn new(matcher: M) -> (r: Self)
        ensures
            r.matcher_view() == matcher,
    {
        DirectedSaturator { matcher }
    }
}

impl<LC: LocalCost + Analysis + Clone + Default, M: Matcher> Saturator<LC> for DirectedSaturator<M> {
    open spec fn done_with(&self, egraph: &EGraph<LC>, rule: (Term, Term)) -> bool {
        rule_done(egraph, rule, &self.matcher_view())
    }

    fn saturate(&self, egraph: &mut EGraph<LC>, rules: &[Rule], config: &SaturationConfig) -> (r: SaturationStopReason) {
        let copies = clone_rules(rules);
        proof {
            assert(rule_views(copies@).len() == copies@.len());
            assert(rule_views(rules@).len() == rules@.len());
            assert forall|i: int| 0 <= i < copies@.len() implies rule_ok(#[trigger] copies@[i]@) by {
                assert(rule_views(copies@)[i] == copies@[i]@);
                assert(rule_views(rules@)[i] == rules@[i]@);
                assert(rule_ok(rules@[i]@));
            }
        }
        let scheduler = CostDirectedScheduler::<LC>::new(copies);
        let ghost views = rule_views(copies@);
        let ghost sv = rule_views(scheduler.rules_view());
        let mut saturator = ScheduledSaturator::new(scheduler);
        let r = saturator.run(egraph, config, &self.matcher);
        proof {
            assert(rule_views(copies@) == rule_views(rules@));
            if r == SaturationStopReason::Saturated {
                let sched = sv;
                assert(sched.to_multiset() == rule_views(rules@).to_multiset());
                assert forall|i: int| 0 <= i < rules@.len() implies self.done_with(egraph, #[trigger] rules@[i]@) by {
                    assert(rule_views(rules@)[i] == rules@[i]@);
                    assert(views[i] == rules@[i]@);
                    rule_views(rules@).to_multiset_ensures();
                    sched.to_multiset_ensures();
                    assert(rule_views(rules@).contains(rules@[i]@));
                    assert(rule_views(rules@).to_multiset().count(rules@[i]@) > 0);
                    assert(sched.to_multiset().count(rules@[i]@) > 0);
                    assert(sched.contains(rules@[i]@));
                    let j = choose|j: int| 0 <= j < sched.len() && sched[j] == rules@[i]@;
                    assert(rule_done(egraph, sched[j], &self.matcher));
                }
            }
        }
        r
    }
}

} // verus!
