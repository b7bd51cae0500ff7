//! Equality saturation: applying rewrite rules to an e-graph until nothing
//! changes or a limit is reached.

pub mod directed_saturator;
pub mod scheduled_saturator;
pub mod scheduler;
pub mod simple_saturator;

pub use simple_saturator::SimpleSaturator;

use std::time::{Duration, Instant};

use vstd::prelude::*;

use crate::language::expression::Term;
use crate::rewriting::rule::{rule_done, rule_ok, Rule};

use super::matching::Matcher;
use super::{Analysis, EGraph};

verus! {

broadcast use vstd::std_specs::vec::group_vec_axioms, vstd::seq::group_seq_axioms;

#[verifier::external_type_specification]
#[verifier::external_body]
pub struct ExInstant(Instant);

/// Limits on a saturation run; `None` means no limit.
#[derive(Clone, Debug)]
pub struct SaturationConfig {
    /// Maximum number of nodes held by the classes
    pub max_nodes: Option<usize>,
    /// Maximum number of classes
    pub max_classes: Option<usize>,
    /// Maximum number of rule applications
    pub max_applications: Option<usize>,
    /// Maximum time to spend
    pub time_limit: Option<Duration>,
}

impl Default for SaturationConfig {
    fn default() -> (r: Self)
        ensures
            r.max_nodes is None,
            r.max_classes is None,
            r.max_applications is None,
            r.time_limit is None,
    {
        SaturationConfig { max_nodes: None, max_classes: None, max_applications: None, time_limit: None }
    }
}

/// Why a saturation run stopped.
#[derive(Copy, Clone, Debug, PartialEq, Eq, Structural)]
pub enum SaturationStopReason {
    /// No rule changes the e-graph any more
    Saturated,
    /// The node limit was reached
    MaxNodes,
    /// The class limit was reached
    MaxClasses,
    /// The application limit was reached
    MaxApplications,
    /// The time limit was reached
    Timeout,
}

/// The limit reached, checking in order the time (`timed_out`), the number of
/// applications, of nodes held by the classes, and of classes; `None` if none is.
pub open spec fn limit_reached(
    timed_out: bool,
    applications: nat,
    nodes: nat,
    classes: nat,
    cfg: SaturationConfig,
) -> Option<SaturationStopReason> {
    if cfg.time_limit is Some && timed_out {
        Some(SaturationStopReason::Timeout)
    } else if cfg.max_applications matches Some(l) && applications >= l {
        Some(SaturationStopReason::MaxApplications)
    } else if cfg.max_nodes matches Some(l) && nodes >= l {
        Some(SaturationStopReason::MaxNodes)
    } else if cfg.max_classes matches Some(l) && classes >= l {
        Some(SaturationStopReason::MaxClasses)
    } else {
        None
    }
}

/// `true` when a check of the limits before any application, with
/// `timed_out` for the clock's answer, either finds no limit reached or makes
/// the run stop at once with the reason found and `after` equal to `before`.
pub open spec fn first_check<A>(
    timed_out: bool,
    r: SaturationStopReason,
    before: &EGraph<A>,
    after: &EGraph<A>,
    cfg: SaturationConfig,
) -> bool {
    match limit_reached(timed_out, 0, before.held_count(before.nodes_view().len() as int), before.class_count_spec(), cfg) {
        Some(l) => r == l && *after == *before,
        None => true,
    }
}

/// Lemma: without a time limit, the clock's answer does not matter to the
/// first check.
pub proof fn lemma_first_check_clock<A>(
    t: bool,
    r: SaturationStopReason,
    before: &EGraph<A>,
    after: &EGraph<A>,
    cfg: SaturationConfig,
)
    requires
        first_check(t, r, before, after, cfg),
    ensures
        cfg.time_limit is None ==> first_check(false, r, before, after, cfg),
{
}

/// Lemma: when the first check found no limit reached, it holds whatever the
/// run did next.
pub proof fn lemma_first_check_none<A>(
    t: bool,
    r: SaturationStopReason,
    before: &EGraph<A>,
    after: &EGraph<A>,
    cfg: SaturationConfig,
)
    requires
        limit_reached(t, 0, before.held_count(before.nodes_view().len() as int), before.class_count_spec(), cfg) is None,
    ensures
        first_check(t, r, before, after, cfg),
        cfg.time_limit is None ==> first_check(false, r, before, after, cfg),
{
}

/// `true` when `egraph` holds fewer nodes and classes than the limits of
/// `cfg` that are set.
pub open spec fn below_size_limits<A>(egraph: &EGraph<A>, cfg: SaturationConfig) -> bool {
    &&& cfg.max_nodes matches Some(l) ==> egraph.held_count(egraph.nodes_view().len() as int) < l
    &&& cfg.max_classes matches Some(l) ==> egraph.class_count_spec() < l
}

/// Lemma: when no limit is reached, the e-graph is below the size limits.
pub proof fn lemma_no_limit_below<A>(egraph: &EGraph<A>, applications: usize, cfg: &SaturationConfig)
    requires
        exists|t: bool|
            None::<SaturationStopReason> == #[trigger] limit_reached(
                t,
                applications as nat,
                egraph.held_count(egraph.nodes_view().len() as int),
                egraph.class_count_spec(),
                *cfg,
            ),
    ensures
        below_size_limits(egraph, *cfg),
{
    let t = choose|t: bool|
        None::<SaturationStopReason> == #[trigger] limit_reached(
            t,
            applications as nat,
            egraph.held_count(egraph.nodes_view().len() as int),
            egraph.class_count_spec(),
            *cfg,
        );
}

/// What a stop reason says of the e-graph and the limits: a limit that was set
/// and, for nodes and classes, reached.
pub open spec fn reason_justified<A>(
    r: SaturationStopReason,
    egraph: &EGraph<A>,
    cfg: SaturationConfig,
) -> bool {
    match r {
        SaturationStopReason::Saturated => below_size_limits(egraph, cfg),
        SaturationStopReason::Timeout => cfg.time_limit is Some,
        SaturationStopReason::MaxApplications => true,
        SaturationStopReason::MaxNodes => cfg.max_nodes matches Some(l) && egraph.held_count(
            egraph.nodes_view().len() as int,
        ) >= l,
        SaturationStopReason::MaxClasses => cfg.max_classes matches Some(l) && egraph.class_count_spec() >= l,
    }
}

/// What a run that made `n` applications, each of which changed the e-graph,
/// and stopped for reason `r` says: with none the e-graph is as it was, with
/// some it changed, each change made its change measure grow, and it stops for the number of applications only when a
/// limit was set and reached, or the count reached the `usize` range's end.
pub open spec fn run_outcome<A>(
    r: SaturationStopReason,
    n: nat,
    before: &EGraph<A>,
    after: &EGraph<A>,
    cfg: SaturationConfig,
) -> bool {
    &&& n == 0 ==> *after == *before
    &&& n > 0 ==> after.changed_from(before)
    &&& n <= after.change_measure() - before.change_measure()
    &&& r == SaturationStopReason::MaxApplications ==> (cfg.max_applications matches Some(l) && n >= l) || n
        >= usize::MAX
}

/// Law: a run that stops for the number of applications with no application
/// limit set has grown its e-graph to at least half the `usize` range of
/// nodes: every application counted changed the e-graph.
pub proof fn lemma_unlimited_max_applications<A>(n: nat, before: &EGraph<A>, after: &EGraph<A>, cfg: SaturationConfig)
    requires
        run_outcome(SaturationStopReason::MaxApplications, n, before, after, cfg),
        cfg.max_applications is None,
    ensures
        2 * after.nodes_view().len() >= usize::MAX,
{
    crate::rewriting::egraph::lemma_change_measure_nonneg(before);
}

/// `true` when `cfg` sets no limit.
pub open spec fn no_limits(cfg: SaturationConfig) -> bool {
    cfg.max_nodes is None && cfg.max_classes is None && cfg.max_applications is None && cfg.time_limit is None
}

/// The current time (`Instant::now`); nothing is stated of it.
#[verifier::external_body]
pub(crate) fn now() -> Instant {
    Instant::now()
}

/// The time elapsed since `start` (`Instant::elapsed`); nothing is stated of it.
#[verifier::external_body]
pub(crate) fn elapsed(start: &Instant) -> Duration {
    start.elapsed()
}

/// The length of `d` in nanoseconds (`Duration::as_nanos`); nothing is stated
/// of it, as the duration is opaque here.
#[verifier::external_body]
fn duration_nanos(d: &Duration) -> u128 {
    d.as_nanos()
}

/// `true` when the time limit of `cfg` is set and at least that much time has
/// elapsed since `start`; the elapsed time depends on the clock, so only that
/// no time is up without a limit is stated.
fn timed_out(start: &Instant, cfg: &SaturationConfig) -> (r: bool)
    ensures
        r ==> cfg.time_limit is Some,
{
    match &cfg.time_limit {
        Some(limit) => duration_nanos(&elapsed(start)) >= duration_nanos(limit),
        None => false,
    }
}

/// The limit reached given whether the time is up.
pub fn limits_reached<A>(
    timed_out: bool,
    egraph: &EGraph<A>,
    applications: usize,
    cfg: &SaturationConfig,
) -> (r: Option<SaturationStopReason>)
    requires
        egraph.wf(),
    ensures
        r == limit_reached(
            timed_out,
            applications as nat,
            egraph.held_count(egraph.nodes_view().len() as int),
            egraph.class_count_spec(),
            *cfg,
        ),
{
    if cfg.time_limit.is_some() && timed_out {
        return Some(SaturationStopReason::Timeout);
    }
    match cfg.max_applications {
        Some(limit) => {
            if applications >= limit {
                return Some(SaturationStopReason::MaxApplications);
            }
        },
        None => {},
    }
    match cfg.max_nodes {
        Some(limit) => {
            if egraph.actual_node_count() >= limit {
                return Some(SaturationStopReason::MaxNodes);
            }
        },
        None => {},
    }
    match cfg.max_classes {
        Some(limit) => {
            if egraph.class_count() >= limit {
                return Some(SaturationStopReason::MaxClasses);
            }
        },
        None => {},
    }
    None
}

/// The limit reached by a run that started at `start`, if any.
pub fn check_limits<A>(
    egraph: &EGraph<A>,
    applications: usize,
    start: &Instant,
    cfg: &SaturationConfig,
) -> (r: Option<SaturationStopReason>)
    requires
        egraph.wf(),
    ensures
        exists|t: bool|
            r == #[trigger] limit_reached(
                t,
                applications as nat,
                egraph.held_count(egraph.nodes_view().len() as int),
                egraph.class_count_spec(),
                *cfg,
            ),
        r matches Some(reason) ==> reason_justified(reason, egraph, *cfg),
        r == Some(SaturationStopReason::MaxApplications) ==> (cfg.max_applications matches Some(l) && applications >= l),
{
    let t = timed_out(start, cfg);
    let r = limits_reached(t, egraph, applications, cfg);
    r
}

/// Applies the rules in turn, round after round, until a round changes
/// nothing or a limit is reached (checked before the first round, before each
/// rule for the time, and after each rule that changed the e-graph). Each rule
/// that changes the e-graph counts as one application; when the count cannot
/// grow any more the run stops with `MaxApplications`.
#[verifier::loop_isolation(false)]
pub fn saturate<A: Analysis + Clone + Default, M: Matcher>(
    egraph: &mut EGraph<A>,
    rules: &[Rule],
    matcher: M,
    config: &SaturationConfig,
) -> (r: SaturationStopReason)
    requires
        old(egraph).wf(),
        forall|i: int| 0 <= i < rules@.len() ==> rule_ok(#[trigger] rules@[i]@),
    ensures
        final(egraph).wf(),
        final(egraph).evolved_from(old(egraph)),
        reason_justified(r, final(egraph), *config),
        old(egraph).congruence_closed() ==> final(egraph).congruence_closed(),
        exists|n: nat| #[trigger] run_outcome(r, n, old(egraph), final(egraph), *config),
        r == SaturationStopReason::MaxApplications ==> (config.max_applications matches Some(l) && final(egraph).change_measure()
            - old(egraph).change_measure() >= l) || final(egraph).change_measure() - old(egraph).change_measure() >= usize::MAX,
        final(egraph).analysis_from(old(egraph)),
        r == SaturationStopReason::Saturated ==> forall|i: int|
            0 <= i < rules@.len() ==> rule_done(final(egraph), #[trigger] rules@[i]@, &matcher),
        no_limits(*config) && rules@.len() == 0 ==> r == SaturationStopReason::Saturated,
        exists|t: bool| #[trigger] first_check(t, r, old(egraph), final(egraph), *config),
        config.time_limit is None ==> first_check(false, r, old(egraph), final(egraph), *config),
{
    let ghost start_graph = *egraph;
    proof {
        super::lemma_evolved(&start_graph, &start_graph, &start_graph);
        EGraph::<A>::lemma_analysis_same_classes(&start_graph, &start_graph);
    }
    let start = now();
    let mut applications: usize = 0;
    let ghost mut t0 = false;
    match check_limits(egraph, applications, &start, config) {
        Some(reason) => {
            assert(run_outcome(reason, 0, &start_graph, egraph, *config));
            proof {
                let t = choose|t: bool|
                    Some(reason) == #[trigger] limit_reached(
                        t,
                        0,
                        egraph.held_count(egraph.nodes_view().len() as int),
                        egraph.class_count_spec(),
                        *config,
                    );
                assert(first_check(t, reason, &start_graph, egraph, *config));
                lemma_first_check_clock(t, reason, &start_graph, egraph, *config);
            }
            return reason;
        },
        None => {
            proof {
                lemma_no_limit_below(egraph, applications, config);
                t0 = choose|t: bool|
                    None::<SaturationStopReason> == #[trigger] limit_reached(
                        t,
                        0,
                        egraph.held_count(egraph.nodes_view().len() as int),
                        egraph.class_count_spec(),
                        *config,
                    );
            }
        },
    }
    loop
        invariant
            egraph.wf(),
            start_graph.wf(),
            start_graph == *old(egraph),
            limit_reached(
                t0,
                0,
                start_graph.held_count(start_graph.nodes_view().len() as int),
                start_graph.class_count_spec(),
                *config,
            ) is None,
            applications == 0 ==> *egraph == start_graph,
            applications <= egraph.change_measure() - start_graph.change_measure(),
            applications > 0 ==> egraph.changed_from(&start_graph),
            egraph.analysis_from(&start_graph),
            egraph.evolved_from(&start_graph),
            start_graph.congruence_closed() ==> egraph.congruence_closed(),
            below_size_limits(egraph, *config),
            forall|i: int| 0 <= i < rules@.len() ==> rule_ok(#[trigger] rules@[i]@),
        decreases usize::MAX - applications,
    {
        let mut any_applied = false;
        let start_applications = applications;
        let ghost pass_start = *egraph;
        let mut i: usize = 0;
        while i < rules.len()
            invariant
                egraph.wf(),
                start_graph.wf(),
                start_graph == *old(egraph),
                limit_reached(
                    t0,
                    0,
                    start_graph.held_count(start_graph.nodes_view().len() as int),
                    start_graph.class_count_spec(),
                    *config,
                ) is None,
                egraph.evolved_from(&start_graph),
                start_graph.congruence_closed() ==> egraph.congruence_closed(),
                below_size_limits(egraph, *config),
                forall|i: int| 0 <= i < rules@.len() ==> rule_ok(#[trigger] rules@[i]@),
                start_applications <= applications,
                any_applied ==> start_applications < applications,
                i <= rules@.len(),
                applications == 0 ==> *egraph == start_graph,
                applications <= egraph.change_measure() - start_graph.change_measure(),
                applications > 0 ==> egraph.changed_from(&start_graph),
                egraph.analysis_from(&start_graph),
                !any_applied ==> *egraph == pass_start,
                !any_applied ==> forall|j: int| 0 <= j < i ==> rule_done(egraph, #[trigger] rules@[j]@, &matcher),
            decreases rules@.len() - i,
        {
            match check_limits(egraph, applications, &start, config) {
                Some(SaturationStopReason::Timeout) => {
                    assert(run_outcome(SaturationStopReason::Timeout, applications as nat, &start_graph, egraph, *config));
                    proof {
                        lemma_first_check_none(t0, SaturationStopReason::Timeout, &start_graph, egraph, *config);
                    }
                    return SaturationStopReason::Timeout;
                },
                _ => {},
            }
            let ghost pre = *egraph;
            let applied = rules[i].apply(egraph, &matcher);
            proof {
                if !applied && !any_applied {
                    assert forall|j: int| 0 <= j < i + 1 implies rule_done(egraph, #[trigger] rules@[j]@, &matcher) by {}
                }
            }
            proof {
                super::lemma_evolved(&start_graph, &pre, egraph);
                EGraph::<A>::lemma_analysis_from_trans(&start_graph, &pre, egraph);
                if applied && applications > 0 {
                    super::lemma_changed_persists(&start_graph, &pre, egraph);
                }
            }
            if applied {
                if applications == usize::MAX {
                    assert(run_outcome(SaturationStopReason::MaxApplications, applications as nat, &start_graph, egraph, *config));
                    proof {
                        lemma_first_check_none(t0, SaturationStopReason::MaxApplications, &start_graph, egraph, *config);
                    }
                    return SaturationStopReason::MaxApplications;
                }
                applications = applications + 1;
                any_applied = true;
                match check_limits(egraph, applications, &start, config) {
                    Some(reason) => {
                        assert(run_outcome(reason, applications as nat, &start_graph, egraph, *config));
                        proof {
                            lemma_first_check_none(t0, reason, &start_graph, egraph, *config);
                        }
                        return reason;
                    },
                    None => {
                        proof {
                            lemma_no_limit_below(egraph, applications, config);
                        }
                    },
                }
            }
            i = i + 1;
        }
        if !any_applied {
            assert(run_outcome(SaturationStopReason::Saturated, applications as nat, &start_graph, egraph, *config));
            proof {
                lemma_first_check_none(t0, SaturationStopReason::Saturated, &start_graph, egraph, *config);
            }
            return SaturationStopReason::Saturated;
        }
    }
}

/// A strategy that saturates an e-graph with a list of rules.
pub trait Saturator<A: Analysis + Clone + Default> {
    /// `true` when applying `rule` to `egraph` in the way of this saturator
    /// would change nothing.
    spec fn done_with(&self, egraph: &EGraph<A>, rule: (Term, Term)) -> bool;

    /// Saturates `egraph` with `rules` within the limits of `config`.
    fn saturate(&self, egraph: &mut EGraph<A>, rules: &[Rule], config: &SaturationConfig) -> (r: SaturationStopReason)
        requires
            old(egraph).wf(),
            forall|i: int| 0 <= i < rules@.len() ==> rule_ok(#[trigger] rules@[i]@),
        ensures
            final(egraph).wf(),
            final(egraph).evolved_from(old(egraph)),
            reason_justified(r, final(egraph), *config),
            old(egraph).congruence_closed() ==> final(egraph).congruence_closed(),
            exists|n: nat| #[trigger] run_outcome(r, n, old(egraph), final(egraph), *config),
            final(egraph).analysis_from(old(egraph)),
            r == SaturationStopReason::Saturated ==> forall|i: int|
                0 <= i < rules@.len() ==> self.done_with(final(egraph), #[trigger] rules@[i]@),
            no_limits(*config) && rules@.len() == 0 ==> r == SaturationStopReason::Saturated,
    ;
}

} // verus!
