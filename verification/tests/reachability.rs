use verbum::language::Language;
use verbum::rewriting::egraph::matching::top_down::TopDownMatcher;
use verbum::rewriting::egraph::saturation::{SaturationConfig, SaturationStopReason};
use verbum::rewriting::reachability::{terms_reachable_round_robin, ReachabilityResult, ReachabilityStopReason};
use verbum::rewriting::rule::Rule;

fn rules(lang: &Language, pairs: &[(&str, &str)]) -> Vec<Rule> {
    pairs.iter().map(|(from, to)| Rule::from_strings(from, to, lang).unwrap()).collect()
}

#[test]
fn immediate_unification_without_rules() {
    let lang = Language::simple_math();
    let expr = lang.parse_no_vars("1").unwrap();
    let cfg = SaturationConfig::default();

    let res: ReachabilityResult<()> = terms_reachable_round_robin(&[], expr.clone(), expr, &cfg, &TopDownMatcher);

    match res.reason {
        ReachabilityStopReason::ReachedCommonForm { class_id: _ } => {},
        other => panic!("expected immediate unification, got {other:?}"),
    }
    assert_eq!(res.applications, 0);
}

#[test]
fn unifies_via_rules() {
    let lang = Language::simple_math();
    let rules = rules(&lang, &[("(+ $0 0)", "$0")]);
    let cfg = SaturationConfig::default();

    let expr_a = lang.parse_no_vars("(+ 1 0)").unwrap();
    let expr_b = lang.parse_no_vars("1").unwrap();

    let res: ReachabilityResult<()> = terms_reachable_round_robin(&rules, expr_a, expr_b, &cfg, &TopDownMatcher);

    match res.reason {
        ReachabilityStopReason::ReachedCommonForm { class_id: _ } => {},
        other => panic!("expected unification via rewrite, got {other:?}"),
    }
    assert!(res.applications >= 1);
}

#[test]
fn saturates_no_unification() {
    let lang = Language::simple_math();
    let rules = rules(&lang, &[("(+ $0 0)", "$0")]);
    let cfg = SaturationConfig::default();

    let expr_a = lang.parse_no_vars("(* 2 3)").unwrap();
    let expr_b = lang.parse_no_vars("4").unwrap();

    let res: ReachabilityResult<()> = terms_reachable_round_robin(&rules, expr_a, expr_b, &cfg, &TopDownMatcher);

    assert_eq!(res.reason, ReachabilityStopReason::SaturatedNoUnification);
    assert_eq!(res.applications, 0);
}

#[test]
fn respects_max_applications_limit() {
    let lang = Language::simple_math();
    let rules = rules(&lang, &[("1", "2"), ("2", "3")]);
    let cfg = SaturationConfig { max_applications: Some(1), ..Default::default() };

    let expr_a = lang.parse_no_vars("1").unwrap();
    let expr_b = lang.parse_no_vars("3").unwrap();

    let res: ReachabilityResult<()> = terms_reachable_round_robin(&rules, expr_a, expr_b, &cfg, &TopDownMatcher);

    assert_eq!(res.reason, ReachabilityStopReason::Limit(SaturationStopReason::MaxApplications));
    assert_eq!(res.applications, 1);
}

#[test]
fn reached_class_holds_both_expressions() {
    let lang = Language::simple_math();
    let rules = rules(&lang, &[("(* $0 1)", "$0")]);
    let cfg = SaturationConfig::default();
    let expr_a = lang.parse_no_vars("(* 5 1)").unwrap();
    let expr_b = lang.parse_no_vars("5").unwrap();
    let res: ReachabilityResult<()> =
        terms_reachable_round_robin(&rules, expr_a.clone(), expr_b.clone(), &cfg, &TopDownMatcher);
    match res.reason {
        ReachabilityStopReason::ReachedCommonForm { class_id } => {
            assert_eq!(res.egraph.canonical_class(class_id), class_id);
        },
        other => panic!("expected a common form, got {other:?}"),
    }
}
