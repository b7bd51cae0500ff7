//! Saturation driven by a scheduler.

use vstd::prelude::*;

use crate::rewriting::egraph::matching::Matcher;
use crate::rewriting::egraph::{lemma_evolved, Analysis, EGraph};

use super::scheduler::Scheduler;
use crate::rewriting::rule::rule_done;

use super::{
    below_size_limits, check_limits, first_check, lemma_first_check_clock, lemma_first_check_none, limit_reached, no_limits, now,
    reason_justified, run_outcome, SaturationConfig, SaturationStopReason,
};

verus! {

/// Runs a scheduler until it makes no progress or a limit is reached.
pub struct ScheduledSaturator<S> {
    scheduler: S,
}

impl<S> ScheduledSaturator<S> {
    /// A saturator driven by `scheduler`.
    pub fn new(scheduler: S) -> (r: Self)
        ensures
            r.scheduler_view() == scheduler,
    {
        ScheduledSaturator { scheduler }
    }

    /// The scheduler.
    pub closed spec fn scheduler_view(&self) -> S {
        self.scheduler
    }

    /// Checks the limits, then lets the scheduler apply rules, until a limit is
    /// reached or a step applies nothing. Applications are counted; when the
    /// count cannot grow any more the run stops with `MaxApplications`.
    #[verifier::loop_isolation(false)]
    pub fn run<A: Analysis + Clone + Default, M: Matcher>(
        &mut self,
        egraph: &mut EGraph<A>,
        config: &SaturationConfig,
        matcher: &M,
    ) -> (r: SaturationStopReason) where S: Scheduler<A>
        requires
            old(egraph).wf(),
        ensures
            final(egraph).wf(),
            final(egraph).evolved_from(old(egraph)),
            reason_justified(r, final(egraph), *config),
            old(egraph).congruence_closed() ==> final(egraph).congruence_closed(),
            exists|n: nat| #[trigger] run_outcome(r, n, old(egraph), final(egraph), *config),
            r == SaturationStopReason::MaxApplications ==> (config.max_applications matches Some(l) && final(egraph).change_measure()
                - old(egraph).change_measure() >= l) || final(egraph).change_measure() - old(egraph).change_measure() >= usize::MAX,
            final(egraph).analysis_from(old(egraph)),
            final(self).scheduler_view().scheduled_rules() == old(self).scheduler_view().scheduled_rules(),
            r == SaturationStopReason::Saturated ==> forall|i: int|
                0 <= i < old(self).scheduler_view().scheduled_rules().len() ==> rule_done(
                    final(egraph),
                    #[trigger] old(self).scheduler_view().scheduled_rules()[i],
                    matcher,
                ),
            no_limits(*config) && old(self).scheduler_view().scheduled_rules().len() == 0 ==> r
                == SaturationStopReason::Saturated,
            exists|t: bool| #[trigger] first_check(t, r, old(egraph), final(egraph), *config),
            config.time_limit is None ==> first_check(false, r, old(egraph), final(egraph), *config),
    {
        let ghost start_graph = *egraph;
        proof {
            lemma_evolved(&start_graph, &start_graph, &start_graph);
            EGraph::<A>::lemma_analysis_same_classes(&start_graph, &start_graph);
        }
        let start = now();
        let mut applications: usize = 0;
        let ghost mut first = true;
        let ghost mut t0 = false;
        loop
            invariant
                first ==> applications == 0 && *egraph == start_graph,
                !first ==> limit_reached(
                    t0,
                    0,
                    start_graph.held_count(start_graph.nodes_view().len() as int),
                    start_graph.class_count_spec(),
                    *config,
                ) is None,
                egraph.wf(),
                start_graph.wf(),
                egraph.evolved_from(&start_graph),
                start_graph.congruence_closed() ==> egraph.congruence_closed(),
                start_graph == *old(egraph),
                applications == 0 ==> *egraph == start_graph,
                applications <= egraph.change_measure() - start_graph.change_measure(),
                applications > 0 ==> egraph.changed_from(&start_graph),
                egraph.analysis_from(&start_graph),
                self.scheduler.scheduled_rules() == old(self).scheduler.scheduled_rules(),
            decreases usize::MAX - applications,
        {
            match check_limits(egraph, applications, &start, config) {
                Some(reason) => {
                    assert(run_outcome(reason, applications as nat, &start_graph, egraph, *config));
                    proof {
                        if first {
                            let t = choose|t: bool|
                                Some(reason) == #[trigger] limit_reached(
                                    t,
                                    0,
                                    egraph.held_count(egraph.nodes_view().len() as int),
                                    egraph.class_count_spec(),
                                    *config,
                                );
                            assert(first_check(t, reason, &start_graph, egraph, *config));
                            lemma_first_check_clock(t, reason, &start_graph, egraph, *config);
                        } else {
                            lemma_first_check_none(t0, reason, &start_graph, egraph, *config);
                        }
                    }
                    return reason;
                },
                None => {
                    proof {
                        super::lemma_no_limit_below(egraph, applications, config);
                        if first {
                            t0 = choose|t: bool|
                                None::<SaturationStopReason> == #[trigger] limit_reached(
                                    t,
                                    0,
                                    egraph.held_count(egraph.nodes_view().len() as int),
                                    egraph.class_count_spec(),
                                    *config,
                                );
                            first = false;
                        }
                    }
                },
            }
            let ghost pre = *egraph;
            let applied = self.scheduler.apply_next(egraph, matcher);
            proof {
                lemma_evolved(&start_graph, &pre, egraph);
                EGraph::<A>::lemma_analysis_from_trans(&start_graph, &pre, egraph);
                if applied > 0 && applications > 0 {
                    crate::rewriting::egraph::lemma_changed_persists(&start_graph, &pre, egraph);
                }
            }
            if applied == 0 {
                assert(run_outcome(SaturationStopReason::Saturated, applications as nat, &start_graph, egraph, *config));
                proof {
                    lemma_first_check_none(t0, SaturationStopReason::Saturated, &start_graph, egraph, *config);
                }
                return SaturationStopReason::Saturated;
            }
            if applied > usize::MAX - applications {
                assert(run_outcome(SaturationStopReason::MaxApplications, usize::MAX as nat, &start_graph, egraph, *config));
                proof {
                    lemma_first_check_none(t0, SaturationStopReason::MaxApplications, &start_graph, egraph, *config);
                }
                return SaturationStopReason::MaxApplications;
            }
            applications = applications + applied;
        }
    }
}

} // verus!
