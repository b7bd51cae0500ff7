//! Strategies that pick which rule to apply next.

pub mod cost_directed;
pub mod round_robin;

pub use cost_directed::CostDirectedScheduler;
pub use round_robin::RoundRobinScheduler;

use vstd::prelude::*;

use crate::language::expression::Term;
use crate::rewriting::egraph::matching::Matcher;
use crate::rewriting::egraph::{Analysis, EGraph};
use crate::rewriting::rule::rule_done;

verus! {

/// A strategy for choosing which rule to try next.
pub trait Scheduler<A: Analysis + Clone + Default> {
    /// The rules the scheduler chooses from (none unless the scheduler says
    /// which).
    open spec fn scheduled_rules(&self) -> Seq<(Term, Term)> {
        Seq::empty()
    }

    /// Applies the next rule that changes the e-graph and returns how many
    /// applications changed it: zero when no rule changes it, and then the
    /// e-graph is left as it was and is done with every rule. With no rules
    /// it applies nothing. The rules stay the same. Each application counted
    /// changed the e-graph, so the count is at most the growth of its change
    /// measure.
    fn apply_next<M: Matcher>(&mut self, egraph: &mut EGraph<A>, matcher: &M) -> (r: usize)
        requires
            old(egraph).wf(),
        ensures
            final(egraph).wf(),
            final(egraph).evolved_from(old(egraph)),
            old(egraph).congruence_closed() ==> final(egraph).congruence_closed(),
            r == 0 ==> *final(egraph) == *old(egraph),
            r > 0 ==> final(egraph).changed_from(old(egraph)),
            final(egraph).analysis_from(old(egraph)),
            final(self).scheduled_rules() == old(self).scheduled_rules(),
            r == 0 ==> forall|i: int|
                0 <= i < old(self).scheduled_rules().len() ==> rule_done(
                    final(egraph),
                    #[trigger] old(self).scheduled_rules()[i],
                    matcher,
                ),
            old(self).scheduled_rules().len() == 0 ==> r == 0,
            r <= final(egraph).change_measure() - old(egraph).change_measure(),
    ;
}

} // verus!
