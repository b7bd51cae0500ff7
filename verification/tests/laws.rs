use verbum::language::Language;
use verbum::rewriting::egraph::class::analysis::Analysis;
use verbum::rewriting::egraph::class::simple_math_local_cost::SimpleMathLocalCost;
use verbum::rewriting::egraph::class::literal_count::LiteralCountAnalysis;
use verbum::rewriting::egraph::matching::top_down::TopDownMatcher;
use verbum::rewriting::egraph::saturation::{SaturationConfig, SaturationStopReason, Saturator, SimpleSaturator};
use verbum::rewriting::egraph::EGraph;
use verbum::rewriting::reachability::{terms_reachable_round_robin, ReachabilityResult, ReachabilityStopReason};
use verbum::rewriting::rule::Rule;
use verbum::rewriting::system::TermRewritingSystem;
use verbum::rewriting::unification::Substitution;
use verbum::union_find::UnionFind;

#[test]
fn adding_a_held_expression_changes_nothing() {
    let lang = Language::simple_math();
    let mut egraph = EGraph::<()>::from_expression(lang.parse_no_vars("(+ 1 (* 2 3))").unwrap());
    let nodes = egraph.total_node_count();
    let classes = egraph.class_count();
    egraph.add_expression(lang.parse_no_vars("(* 2 3)").unwrap());
    egraph.add_expression(lang.parse_no_vars("(+ 1 (* 2 3))").unwrap());
    assert_eq!(egraph.total_node_count(), nodes);
    assert_eq!(egraph.class_count(), classes);
}

#[test]
fn equal_expressions_meet_without_applications() {
    let lang = Language::simple_math();
    let expr = lang.parse_no_vars("(+ 1 (sin 2))").unwrap();
    let rules = vec![Rule::from_strings("(+ $0 $1)", "(+ $1 $0)", &lang).unwrap()];
    let res: ReachabilityResult<()> =
        terms_reachable_round_robin(&rules, expr.clone(), expr, &SaturationConfig::default(), &TopDownMatcher);
    assert!(matches!(res.reason, ReachabilityStopReason::ReachedCommonForm { .. }));
    assert_eq!(res.applications, 0);
}

#[test]
fn no_application_limit_without_changes() {
    let lang = Language::simple_math();
    let mut egraph = EGraph::<()>::from_expression(lang.parse_no_vars("(+ 1 2)").unwrap());
    let rules = vec![Rule::from_strings("(* $0 $1)", "(* $1 $0)", &lang).unwrap()];
    let reason = SimpleSaturator::new(TopDownMatcher).saturate(&mut egraph, &rules, &SaturationConfig::default());
    assert_eq!(reason, SaturationStopReason::Saturated);
}

#[test]
fn application_limit_stops_after_that_many_changes() {
    let lang = Language::simple_math();
    let mut egraph = EGraph::<()>::from_expression(lang.parse_no_vars("(+ 1 2)").unwrap());
    let rules = vec![Rule::from_strings("(+ $0 $1)", "(+ $1 $0)", &lang).unwrap()];
    let config = SaturationConfig { max_applications: Some(1), ..SaturationConfig::default() };
    let reason = SimpleSaturator::new(TopDownMatcher).saturate(&mut egraph, &rules, &config);
    assert_eq!(reason, SaturationStopReason::MaxApplications);
    assert_eq!(egraph.actual_node_count(), 4);
}

#[test]
fn merged_class_data_is_the_merge_of_both() {
    let lang = Language::simple_math();
    let mut egraph = EGraph::<LiteralCountAnalysis>::default();
    let a = egraph.add_expression(lang.parse_no_vars("1").unwrap());
    let b = egraph.add_expression(lang.parse_no_vars("2").unwrap());
    let c = egraph.add_expression(lang.parse_no_vars("(+ 1 2)").unwrap());
    let ca = egraph.containing_class(a);
    let cb = egraph.containing_class(b);
    let cc = egraph.containing_class(c);
    assert_eq!(egraph.class(cc).analysis().count(), 0);
    let m = egraph.merge_classes(ca, cb).new().unwrap();
    assert_eq!(egraph.class(m).analysis().count(), 2);
    let m2 = egraph.merge_classes(m, cc).new().unwrap();
    assert_eq!(egraph.class(m2).analysis().count(), 2);
}

#[test]
fn union_links_the_first_root_under_the_second() {
    let mut uf = UnionFind::with_size(4);
    uf.union(2, 3);
    assert_eq!(uf.parent(2), 3);
    assert_eq!(uf.parent(3), 3);
    uf.union(0, 2);
    assert_eq!(uf.parent(0), 3);
    assert_eq!(uf.find(0), 3);
}

#[test]
fn rule_texts_make_a_system() {
    let lang = Language::simple_math();
    let texts = vec![("(+ $0 0)".to_string(), "$0".to_string()), ("(* $0 1)".to_string(), "$0".to_string())];
    let trs = TermRewritingSystem::from_rule_texts(lang.clone(), &texts).unwrap();
    assert_eq!(trs.rules().len(), 2);
    assert_eq!(trs.rules()[0], Rule::from_strings("(+ $0 0)", "$0", &lang).unwrap());
    let bad = vec![("(+ $0 0)".to_string(), "$0".to_string()), ("(nosuch $0)".to_string(), "$0".to_string())];
    assert!(TermRewritingSystem::from_rule_texts(lang, &bad).is_err());
}

#[test]
fn renaming_variables_moves_their_bindings() {
    let lang = Language::simple_math();
    let mut s = Substitution::new();
    s.set(0, lang.parse("(+ 1 2)").unwrap());
    s.set(3, lang.parse("$1").unwrap());
    let copy = s.clone();
    s.map_variables(|v| v + 10);
    assert!(s.get(0).is_none());
    assert_eq!(s.get(10), copy.get(0));
    assert_eq!(s.get(13), copy.get(3));
    assert!(Substitution::default().get(0).is_none());
}

#[test]
fn local_cost_merge_keeps_the_smaller() {
    let smaller = <SimpleMathLocalCost as Analysis>::merge(SimpleMathLocalCost(3), SimpleMathLocalCost(2));
    assert_eq!(smaller, SimpleMathLocalCost(2));
    let first = <SimpleMathLocalCost as Analysis>::merge(SimpleMathLocalCost(2), SimpleMathLocalCost(2));
    assert_eq!(first, SimpleMathLocalCost(2));
    assert!(SimpleMathLocalCost(1) < SimpleMathLocalCost(2));
    assert_eq!(SimpleMathLocalCost(5).cmp(&SimpleMathLocalCost(4)), std::cmp::Ordering::Greater);
}

#[test]
fn a_fresh_egraph_keeps_distinct_terms_apart() {
    let lang = Language::simple_math();
    let egraph = EGraph::<()>::from_expression(lang.parse_no_vars("(* 1 2 3 (+ 4 5))").unwrap());
    assert_eq!(egraph.class_count(), 7);
    assert_eq!(egraph.total_node_count(), 7);
    let pattern = lang.parse("(+ $0 $0)").unwrap();
    assert!(verbum::rewriting::egraph::matching::Matcher::try_match(&TopDownMatcher, &egraph, &pattern).is_empty());
}
