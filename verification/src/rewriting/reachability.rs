//! Reachability: whether two expressions can be made equal by the rules, by
//! saturating one e-graph that holds both until their classes meet.

use std::time::Duration;

use vstd::prelude::*;

use crate::language::expression::{term_size, VarFreeExpression};
use crate::rewriting::egraph::matching::Matcher;
use crate::rewriting::egraph::saturation::scheduler::{RoundRobinScheduler, Scheduler};
use crate::rewriting::egraph::saturation::{
    check_limits, elapsed, no_limits, now, reason_justified, SaturationConfig, SaturationStopReason,
};
use crate::rewriting::egraph::{lemma_evolved, lemma_represents_evolved, represents, Analysis, ClassId, EGraph};
use crate::rewriting::rule::{clone_rules, rule_done, rule_ok, rule_views, Rule};

verus! {

/// Why a reachability analysis stopped.
#[derive(Clone, Copy, Debug, PartialEq, Eq, Structural)]
pub enum ReachabilityStopReason {
    /// Both expressions ended up in the class `class_id`.
    ReachedCommonForm { class_id: ClassId },
    /// A limit of the configuration was reached.
    Limit(SaturationStopReason),
    /// The scheduler found no rule to apply, and the classes are still distinct.
    SaturatedNoUnification,
}

/// The outcome of a reachability analysis.
pub struct ReachabilityResult<A> {
    /// The e-graph at the end
    pub egraph: EGraph<A>,
    /// Why the analysis stopped
    pub reason: ReachabilityStopReason,
    /// The number of rule applications made
    pub applications: usize,
    /// The time the analysis took
    pub duration: Duration,
}

/// What the reason of a reachability analysis of `a` and `b` says of the
/// final e-graph and the limits.
pub open spec fn reachability_justified<A>(
    r: ReachabilityStopReason,
    egraph: &EGraph<A>,
    a: crate::language::expression::Term,
    b: crate::language::expression::Term,
    cfg: SaturationConfig,
) -> bool {
    match r {
        ReachabilityStopReason::ReachedCommonForm { class_id } => {
            &&& class_id < egraph.nodes_view().len()
            &&& represents(egraph.nodes_view(), egraph.uf_view(), a, class_id)
            &&& represents(egraph.nodes_view(), egraph.uf_view(), b, class_id)
        },
        ReachabilityStopReason::Limit(reason) => reason_justified(reason, egraph, cfg),
        ReachabilityStopReason::SaturatedNoUnification => exists|ca: ClassId, cb: ClassId|
            {
                &&& ca != cb
                &&& ca < egraph.nodes_view().len() && cb < egraph.nodes_view().len()
                &&& egraph.uf_view()[ca as int] == ca && egraph.uf_view()[cb as int] == cb
                &&& #[trigger] represents(egraph.nodes_view(), egraph.uf_view(), a, ca)
                &&& #[trigger] represents(egraph.nodes_view(), egraph.uf_view(), b, cb)
            },
    }
}

/// `true` when `egraph` holds the terms `a` and `b`: some class represents each.
pub open spec fn holds_both<A>(egraph: &EGraph<A>, a: crate::language::expression::Term, b: crate::language::expression::Term) -> bool {
    &&& exists|c: ClassId| c < egraph.nodes_view().len() && #[trigger] represents(egraph.nodes_view(), egraph.uf_view(), a, c)
    &&& exists|c: ClassId| c < egraph.nodes_view().len() && #[trigger] represents(egraph.nodes_view(), egraph.uf_view(), b, c)
}

/// What a reachability analysis of `a` and `b` that made `applications`
/// applications reports besides its reason: the final e-graph holds both
/// terms, equal terms meet at once, each application counted changed the
/// e-graph (so the count is at most its change measure), and the analysis
/// stops for the number of applications only when that limit was set and
/// reached, or the count reached the end of the `usize` range.
pub open spec fn reachability_outcome<A: Analysis + Clone + Default>(
    r: ReachabilityStopReason,
    applications: usize,
    egraph: &EGraph<A>,
    a: crate::language::expression::Term,
    b: crate::language::expression::Term,
    cfg: SaturationConfig,
) -> bool {
    &&& holds_both(egraph, a, b)
    &&& egraph.data_accounted()
    &&& a == b ==> r is ReachedCommonForm && applications == 0
    &&& applications <= egraph.change_measure()
    &&& r == ReachabilityStopReason::Limit(SaturationStopReason::MaxApplications) ==> (cfg.max_applications matches Some(
        l,
    ) && applications >= l) || (applications == usize::MAX && egraph.change_measure() >= usize::MAX)
}

/// Law: a reachability analysis that stops for the number of applications
/// with no application limit set made that many applications, each of which
/// changed the e-graph, so its e-graph holds at least half the `usize` range
/// of nodes.
pub proof fn lemma_reachability_unlimited<A: Analysis + Clone + Default>(
    applications: usize,
    egraph: &EGraph<A>,
    a: crate::language::expression::Term,
    b: crate::language::expression::Term,
    cfg: SaturationConfig,
)
    requires
        reachability_outcome(
            ReachabilityStopReason::Limit(SaturationStopReason::MaxApplications),
            applications,
            egraph,
            a,
            b,
            cfg,
        ),
        cfg.max_applications is None,
    ensures
        2 * egraph.nodes_view().len() >= usize::MAX,
        applications == usize::MAX,
{
}

/// Builds an e-graph holding `expr_a` and `expr_b` and applies rules with the
/// scheduler that `build_scheduler` makes from `rules`, until the classes of
/// the two expressions are the same, a limit of `config` is reached (checked
/// before each step), or the scheduler applies nothing (the classes are
/// compared once more after such a step). When the count of
/// applications cannot grow any more the analysis stops with the application
/// limit.
#[verifier::loop_isolation(false)]
pub fn terms_reachable<A, S, M, F>(
    rules: &[Rule],
    expr_a: VarFreeExpression,
    expr_b: VarFreeExpression,
    config: &SaturationConfig,
    matcher: &M,
    build_scheduler: F,
) -> (r: ReachabilityResult<A>)
    where
        A: Analysis + Clone + Default,
        S: Scheduler<A>,
        M: Matcher,
        F: FnOnce(&[Rule]) -> S,
    requires
        term_size(expr_a@) + term_size(expr_b@) < usize::MAX,
        call_requires(build_scheduler, (rules,)),
        forall|s: S| #[trigger] call_ensures(build_scheduler, (rules,), s) ==> s.scheduled_rules() == rule_views(rules@),
    ensures
        r.egraph.wf(),
        reachability_justified(r.reason, &r.egraph, expr_a@, expr_b@, *config),
        reachability_outcome(r.reason, r.applications, &r.egraph, expr_a@, expr_b@, *config),
        r.reason == ReachabilityStopReason::SaturatedNoUnification ==> forall|i: int|
            0 <= i < rules@.len() ==> rule_done(&r.egraph, #[trigger] rules@[i]@, matcher),
        no_limits(*config) && rules@.len() == 0 ==> !(r.reason is Limit),
{
    let start = now();
    let ghost ta = expr_a@;
    let ghost tb = expr_b@;
    let (mut egraph, a_root) = EGraph::<A>::from_expression_with_id(expr_a);
    let ghost first = egraph;
    let b_root = egraph.add_expression(expr_b);
    proof {
        crate::rewriting::egraph::lemma_represents_extend(&first, &egraph, ta, a_root);
        EGraph::<A>::lemma_data_accounted(&first, &egraph);
    }
    let mut a_class = egraph.canonical_class(a_root);
    let mut b_class = egraph.containing_class(b_root);
    proof {
        if ta == tb {
            crate::rewriting::egraph::lemma_represents_unique(
                &egraph,
                ta,
                egraph.uf_view()[a_class as int],
                egraph.uf_view()[b_class as int],
            );
        }
    }
    let mut scheduler = build_scheduler(rules);
    let mut applications: usize = 0;
    let ghost built = egraph;
    proof {
        crate::rewriting::egraph::lemma_change_measure_nonneg(&built);
    }
    let mut reason = ReachabilityStopReason::SaturatedNoUnification;
    let mut stalled = false;
    loop
        invariant
            egraph.wf(),
            a_class < egraph.nodes_view().len(),
            b_class < egraph.nodes_view().len(),
            represents(egraph.nodes_view(), egraph.uf_view(), ta, egraph.uf_view()[a_class as int]),
            represents(egraph.nodes_view(), egraph.uf_view(), tb, egraph.uf_view()[b_class as int]),
            ta == tb ==> applications == 0 && egraph.uf_view()[a_class as int] == egraph.uf_view()[b_class as int],
            scheduler.scheduled_rules() == rule_views(rules@),
            stalled ==> forall|i: int| 0 <= i < rules@.len() ==> rule_done(&egraph, #[trigger] rules@[i]@, matcher),
            no_limits(*config) && rules@.len() == 0 ==> applications == 0,
            egraph.data_accounted(),
            reason == ReachabilityStopReason::SaturatedNoUnification,
            built.change_measure() >= 0,
            applications <= egraph.change_measure() - built.change_measure(),
        decreases usize::MAX - applications, if stalled { 0int } else { 1int },
    {
        a_class = egraph.canonical_class(a_class);
        b_class = egraph.canonical_class(b_class);
        if a_class == b_class {
            reason = ReachabilityStopReason::ReachedCommonForm { class_id: a_class };
            break;
        }
        if stalled {
            reason = ReachabilityStopReason::SaturatedNoUnification;
            break;
        }
        match check_limits(&egraph, applications, &start, config) {
            Some(limit) => {
                reason = ReachabilityStopReason::Limit(limit);
                break;
            },
            None => {},
        }
        let ghost before = egraph;
        let applied = scheduler.apply_next(&mut egraph, matcher);
        proof {
            EGraph::<A>::lemma_data_accounted(&before, &egraph);
            lemma_evolved(&before, &egraph, &egraph);
            lemma_represents_evolved(&before, &egraph, ta, a_class);
            lemma_represents_evolved(&before, &egraph, tb, b_class);
            assert(before.uf_view()[a_class as int] == before.uf_view()[before.uf_view()[a_class as int] as int]);
            assert(before.uf_view()[b_class as int] == before.uf_view()[before.uf_view()[b_class as int] as int]);
        }
        if applied == 0 {
            proof {
                assert forall|i: int| 0 <= i < rules@.len() implies rule_done(&egraph, #[trigger] rules@[i]@, matcher) by {
                    assert(rule_views(rules@)[i] == rules@[i]@);
                }
            }
            stalled = true;
        } else {
            if applications > usize::MAX - applied {
                reason = ReachabilityStopReason::Limit(SaturationStopReason::MaxApplications);
                applications = usize::MAX;
                break;
            }
            applications = applications + applied;
        }
    }
    ReachabilityResult { egraph, reason, applications, duration: elapsed(&start) }
}

/// Reachability with a round-robin scheduler over `rules`.
pub fn terms_reachable_round_robin<A: Analysis + Clone + Default, M: Matcher>(
    rules: &[Rule],
    expr_a: VarFreeExpression,
    expr_b: VarFreeExpression,
    config: &SaturationConfig,
    matcher: &M,
) -> (r: ReachabilityResult<A>)
    requires
        term_size(expr_a@) + term_size(expr_b@) < usize::MAX,
        forall|i: int| 0 <= i < rules@.len() ==> rule_ok(#[trigger] rules@[i]@),
    ensures
        r.egraph.wf(),
        reachability_justified(r.reason, &r.egraph, expr_a@, expr_b@, *config),
        reachability_outcome(r.reason, r.applications, &r.egraph, expr_a@, expr_b@, *config),
        r.reason == ReachabilityStopReason::SaturatedNoUnification ==> forall|i: int|
            0 <= i < rules@.len() ==> rule_done(&r.egraph, #[trigger] rules@[i]@, matcher),
        no_limits(*config) && rules@.len() == 0 ==> !(r.reason is Limit),
{
    let build = |rs: &[Rule]| -> (s: RoundRobinScheduler)
        requires
            forall|i: int| 0 <= i < rs@.len() ==> rule_ok(#[trigger] rs@[i]@),
        ensures
            rule_views(s.rules_view()) == rule_views(rs@),
        {
            let copies = clone_rules(rs);
            proof {
                assert(rule_views(copies@).len() == copies@.len());
                assert(rule_views(rs@).len() == rs@.len());
                assert forall|i: int| 0 <= i < copies@.len() implies rule_ok(#[trigger] copies@[i]@) by {
                    assert(rule_views(copies@)[i] == copies@[i]@);
                    assert(rule_views(rs@)[i] == rs@[i]@);
                }
            }
            RoundRobinScheduler::new(copies)
        };
    terms_reachable(rules, expr_a, expr_b, config, matcher, build)
}

} // verus!
