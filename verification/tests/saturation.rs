use std::time::Duration;

use verbum::language::expression::Literal;
use verbum::language::Language;
use verbum::rewriting::egraph::class::simple_math_local_cost::SimpleMathLocalCost;
use verbum::rewriting::egraph::matching::bottom_up::BottomUpMatcher;
use verbum::rewriting::egraph::matching::top_down::TopDownMatcher;
use verbum::rewriting::egraph::matching::Matcher;
use verbum::rewriting::egraph::saturation::directed_saturator::DirectedSaturator;
use verbum::rewriting::egraph::saturation::scheduled_saturator::ScheduledSaturator;
use verbum::rewriting::egraph::saturation::scheduler::{CostDirectedScheduler, RoundRobinScheduler, Scheduler};
use verbum::rewriting::egraph::saturation::{saturate, SaturationConfig, SaturationStopReason, Saturator, SimpleSaturator};
use verbum::rewriting::egraph::{EGraph, Node};
use verbum::rewriting::rule::Rule;

fn rules(lang: &Language, pairs: &[(&str, &str)]) -> Vec<Rule> {
    pairs.iter().map(|(from, to)| Rule::from_strings(from, to, lang).unwrap()).collect()
}

fn x_rules(lang: &Language) -> Vec<Rule> {
    rules(lang, &[("(* x0 2)", "(<< x0 1)"), ("(* x0 1)", "x0")])
}

fn dollar_rules(lang: &Language) -> Vec<Rule> {
    rules(lang, &[("(* $0 2)", "(<< $0 1)"), ("(* $0 1)", "$0")])
}

fn four_rules(lang: &Language) -> Vec<Rule> {
    rules(
        lang,
        &[
            ("(* $0 2)", "(<< $0 1)"),
            ("(* $0 1)", "$0"),
            ("(/ (* $0 $1) $2)", "(* $0 (/ $1 $2))"),
            ("(/ $0 $0)", "1"),
        ],
    )
}

fn new_egraph(lang: &Language, expr: &str) -> EGraph<()> {
    EGraph::from_expression(lang.parse_no_vars(expr).unwrap())
}

#[test]
fn saturation_classical_test() {
    let lang = Language::simple_math();
    let rules = rules(
        &lang,
        &[
            ("(* x0 2)", "(<< x0 1)"),
            ("(* x0 1)", "x0"),
            ("(/ (* x0 x1) x2)", "(* x0 (/ x1 x2))"),
            ("(/ x0 x0)", "1"),
        ],
    );
    let mut egraph = new_egraph(&lang, "(/ (* (sin 5) 2) 2)");
    let reason = saturate(&mut egraph, &rules, BottomUpMatcher, &SaturationConfig::default());
    assert_eq!(reason, SaturationStopReason::Saturated);
    assert_eq!(egraph.class_count(), 5);
    assert_eq!(egraph.actual_node_count(), 9);
}

#[test]
fn saturation_stops_on_max_applications() {
    let lang = Language::simple_math();
    let rules = x_rules(&lang);
    let mut egraph = new_egraph(&lang, "(* 3 2)");
    let config = SaturationConfig { max_applications: Some(1), ..Default::default() };
    let reason = saturate(&mut egraph, &rules, BottomUpMatcher, &config);
    assert_eq!(reason, SaturationStopReason::MaxApplications);
}

#[test]
fn saturation_stops_on_timeout() {
    let lang = Language::simple_math();
    let rules = x_rules(&lang);
    let mut egraph = new_egraph(&lang, "(* 3 2)");
    let config = SaturationConfig { time_limit: Some(Duration::from_millis(0)), ..Default::default() };
    let reason = saturate(&mut egraph, &rules, BottomUpMatcher, &config);
    assert_eq!(reason, SaturationStopReason::Timeout);
}

#[test]
fn saturation_stops_on_max_nodes() {
    let lang = Language::simple_math();
    let rules = x_rules(&lang);
    let mut egraph = new_egraph(&lang, "(* 3 2)");
    let config = SaturationConfig { max_nodes: Some(4), ..Default::default() };
    let reason = saturate(&mut egraph, &rules, BottomUpMatcher, &config);
    assert_eq!(reason, SaturationStopReason::MaxNodes);
}

#[test]
fn saturation_stops_on_max_classes() {
    let lang = Language::simple_math();
    let rules = x_rules(&lang);
    let mut egraph = new_egraph(&lang, "(* 3 2)");
    let config = SaturationConfig { max_classes: Some(3), ..Default::default() };
    let reason = saturate(&mut egraph, &rules, BottomUpMatcher, &config);
    assert_eq!(reason, SaturationStopReason::MaxClasses);
}

fn run_simple(egraph: &mut EGraph<()>, rules: &[Rule], config: &SaturationConfig) -> SaturationStopReason {
    let saturator = SimpleSaturator::new(BottomUpMatcher);
    saturator.saturate(egraph, rules, config)
}

#[test]
fn simple_saturator_classical_test() {
    let lang = Language::simple_math();
    let rules = four_rules(&lang);
    let mut egraph = new_egraph(&lang, "(/ (* (sin 5) 2) 2)");
    let reason = run_simple(&mut egraph, &rules, &SaturationConfig::default());
    assert_eq!(reason, SaturationStopReason::Saturated);
    assert_eq!(egraph.class_count(), 5);
    assert_eq!(egraph.actual_node_count(), 9);
}

#[test]
fn simple_saturator_stops_on_max_applications() {
    let lang = Language::simple_math();
    let rules = dollar_rules(&lang);
    let mut egraph = new_egraph(&lang, "(* 3 2)");
    let config = SaturationConfig { max_applications: Some(1), ..Default::default() };
    assert_eq!(run_simple(&mut egraph, &rules, &config), SaturationStopReason::MaxApplications);
}

#[test]
fn simple_saturator_stops_on_timeout() {
    let lang = Language::simple_math();
    let rules = dollar_rules(&lang);
    let mut egraph = new_egraph(&lang, "(* 3 2)");
    let config = SaturationConfig { time_limit: Some(Duration::from_millis(0)), ..Default::default() };
    assert_eq!(run_simple(&mut egraph, &rules, &config), SaturationStopReason::Timeout);
}

#[test]
fn simple_saturator_stops_on_max_nodes() {
    let lang = Language::simple_math();
    let rules = dollar_rules(&lang);
    let mut egraph = new_egraph(&lang, "(* 3 2)");
    let config = SaturationConfig { max_nodes: Some(4), ..Default::default() };
    assert_eq!(run_simple(&mut egraph, &rules, &config), SaturationStopReason::MaxNodes);
}

#[test]
fn simple_saturator_stops_on_max_classes() {
    let lang = Language::simple_math();
    let rules = dollar_rules(&lang);
    let mut egraph = new_egraph(&lang, "(* 3 2)");
    let config = SaturationConfig { max_classes: Some(3), ..Default::default() };
    assert_eq!(run_simple(&mut egraph, &rules, &config), SaturationStopReason::MaxClasses);
}

fn simple_math_rules(lang: &Language) -> Vec<Rule> {
    four_rules(lang)
}

fn make_egraph(lang: &Language, expr: &str) -> EGraph<SimpleMathLocalCost> {
    EGraph::from_expression(lang.parse_no_vars(expr).unwrap())
}

fn class_of(egraph: &mut EGraph<SimpleMathLocalCost>, lang: &Language, expr: &str) -> usize {
    let id = egraph.add_expression(lang.parse_no_vars(expr).unwrap());
    egraph.canonical_class(id)
}

fn assert_equivalent(egraph: &mut EGraph<SimpleMathLocalCost>, lang: &Language, a: &str, b: &str) {
    let ca = class_of(egraph, lang, a);
    let cb = class_of(egraph, lang, b);
    assert_eq!(egraph.canonical_class(ca), egraph.canonical_class(cb));
}

fn run_directed(
    lang: &Language,
    start_expr: &str,
    rules: &[Rule],
    config: &SaturationConfig,
) -> (EGraph<SimpleMathLocalCost>, SaturationStopReason) {
    let mut egraph = make_egraph(lang, start_expr);
    let saturator = DirectedSaturator::new(BottomUpMatcher);
    let reason = saturator.saturate(&mut egraph, rules, config);
    (egraph, reason)
}

#[test]
fn test_directed_saturator_simple_math() {
    let lang = Language::simple_math();
    let rules = simple_math_rules(&lang);
    let (mut egraph, reason) = run_directed(&lang, "(/ (* (sin 5) 2) 2)", &rules, &SaturationConfig::default());
    assert_eq!(reason, SaturationStopReason::Saturated);
    assert_equivalent(&mut egraph, &lang, "(/ (* (sin 5) 2) 2)", "(sin 5)");
}

#[test]
fn test_directed_saturator_no_rules() {
    let lang = Language::simple_math();
    let rules: Vec<Rule> = vec![];
    let (egraph, reason) = run_directed(&lang, "(+ 1 2)", &rules, &SaturationConfig::default());
    assert_eq!(reason, SaturationStopReason::Saturated);
    assert_eq!(egraph.total_node_count(), 3);
}

#[test]
fn test_directed_saturator_no_changes() {
    let lang = Language::simple_math();
    let rules = simple_math_rules(&lang);
    let (egraph, reason) = run_directed(&lang, "(sin 5)", &rules, &SaturationConfig::default());
    assert_eq!(reason, SaturationStopReason::Saturated);
    assert_eq!(egraph.total_node_count(), 2);
}

#[test]
fn test_directed_saturator_multiple_applications_same_rule() {
    let lang = Language::simple_math();
    let rules = rules(&lang, &[("(+ $0 $0)", "(* $0 2)")]);
    let (mut egraph, reason) = run_directed(&lang, "(+ (+ 1 1) (+ 1 1))", &rules, &SaturationConfig::default());
    assert_eq!(reason, SaturationStopReason::Saturated);
    assert_equivalent(&mut egraph, &lang, "(+ (+ 1 1) (+ 1 1))", "(* (* 1 2) 2)");
}

#[test]
fn test_directed_saturator_rules_enable_other_rules() {
    let lang = Language::simple_math();
    let rules = rules(&lang, &[("(+ $0 $0)", "(* $0 2)"), ("(* $0 2)", "(<< $0 1)")]);
    let (mut egraph, reason) = run_directed(&lang, "(+ 1 1)", &rules, &SaturationConfig::default());
    assert_eq!(reason, SaturationStopReason::Saturated);
    assert_equivalent(&mut egraph, &lang, "(+ 1 1)", "(<< 1 1)");
}

#[test]
fn test_directed_saturator_max_applications_limit() {
    let lang = Language::simple_math();
    let rules = rules(&lang, &[("(+ $0 $0)", "(* $0 2)"), ("(* $0 2)", "(<< $0 1)")]);
    let config = SaturationConfig { max_applications: Some(1), ..Default::default() };
    let (mut egraph, reason) = run_directed(&lang, "(+ 1 1)", &rules, &config);
    assert_eq!(reason, SaturationStopReason::MaxApplications);
    assert_equivalent(&mut egraph, &lang, "(+ 1 1)", "(* 1 2)");
}

#[test]
fn test_directed_saturator_time_limit() {
    let lang = Language::simple_math();
    let rules = rules(&lang, &[("(+ $0 $0)", "(* $0 2)"), ("(* $0 2)", "(<< $0 1)")]);
    let config = SaturationConfig { time_limit: Some(Duration::from_nanos(0)), ..Default::default() };
    let (egraph, reason) = run_directed(&lang, "(+ 1 1)", &rules, &config);
    assert_eq!(reason, SaturationStopReason::Timeout);
    assert_eq!(egraph.total_node_count(), 2);
}

struct TestScheduler {
    iterations: usize,
    rules: Vec<Rule>,
}

impl Scheduler<()> for TestScheduler {
    fn apply_next<M: Matcher>(&mut self, egraph: &mut EGraph<()>, matcher: &M) -> usize {
        if self.iterations == 0 {
            return 0;
        }
        self.iterations -= 1;
        let mut total = 0usize;
        for rule in &self.rules {
            if rule.apply(egraph, matcher) {
                total += 1;
            }
        }
        total
    }
}

#[test]
fn test_scheduled_saturator_basic() {
    let lang = Language::simple_math();
    let mut egraph = new_egraph(&lang, "1");
    let rules = rules(&lang, &[("1", "2")]);
    let mut saturator = ScheduledSaturator::new(TestScheduler { iterations: 1, rules });
    let reason = saturator.run(&mut egraph, &SaturationConfig::default(), &TopDownMatcher);
    assert_eq!(reason, SaturationStopReason::Saturated);
    assert_eq!(egraph.class_count(), 1);
    assert_eq!(egraph.actual_node_count(), 2);
    assert!(egraph.node_id(&Node::Literal(Literal::Int(1))).is_some());
    assert!(egraph.node_id(&Node::Literal(Literal::Int(2))).is_some());
}

#[test]
fn test_scheduled_saturator_multiple_iterations() {
    let lang = Language::simple_math();
    let mut egraph = new_egraph(&lang, "1");
    let rules = rules(&lang, &[("1", "2"), ("2", "3")]);
    let mut saturator = ScheduledSaturator::new(TestScheduler { iterations: 2, rules });
    let reason = saturator.run(&mut egraph, &SaturationConfig::default(), &TopDownMatcher);
    assert_eq!(reason, SaturationStopReason::Saturated);
    assert_eq!(egraph.class_count(), 1);
    assert_eq!(egraph.actual_node_count(), 3);
    assert!(egraph.node_id(&Node::Literal(Literal::Int(1))).is_some());
    assert!(egraph.node_id(&Node::Literal(Literal::Int(2))).is_some());
    assert!(egraph.node_id(&Node::Literal(Literal::Int(3))).is_some());
}

#[test]
fn cost_directed_prefers_lower_cost_delta() {
    let lang = Language::simple_math();
    let mut egraph = EGraph::<SimpleMathLocalCost>::from_expression(lang.parse_no_vars("(+ 3 0)").unwrap());
    let rules = rules(&lang, &[("(+ $0 0)", "(* $0 1)"), ("(+ $0 0)", "$0")]);
    let mut sched = CostDirectedScheduler::<SimpleMathLocalCost>::new(rules);
    let applied = sched.apply_next(&mut egraph, &TopDownMatcher);
    assert_eq!(applied, 1, "scheduler should make progress on first step");
    let star_nodes = egraph.find_symbols(lang.get_id("*"));
    assert!(star_nodes.is_empty(), "expensive '*' rewrite should not be chosen first");
}

#[test]
fn round_robin_basic_progress() {
    let lang = Language::simple_math();
    let mut egraph = new_egraph(&lang, "1");
    let rules = rules(&lang, &[("1", "2"), ("2", "3"), ("3", "4")]);
    let mut sched = RoundRobinScheduler::new(rules);
    assert_eq!(sched.apply_next(&mut egraph, &TopDownMatcher), 1);
    assert_eq!(sched.apply_next(&mut egraph, &TopDownMatcher), 1);
    assert_eq!(sched.apply_next(&mut egraph, &TopDownMatcher), 1);
    assert_eq!(sched.apply_next(&mut egraph, &TopDownMatcher), 0);
}

#[test]
fn round_robin_no_rules_returns_zero() {
    let lang = Language::simple_math();
    let mut egraph = new_egraph(&lang, "2");
    let rules: Vec<Rule> = vec![];
    let mut sched = RoundRobinScheduler::new(rules);
    assert_eq!(sched.apply_next(&mut egraph, &TopDownMatcher), 0);
}

#[test]
fn test_saturated_cost_with_local_cost() {
    let lang = Language::simple_math();
    let rules = four_rules(&lang);
    let (mut egraph, top_class_id) =
        EGraph::<SimpleMathLocalCost>::from_expression_with_id(lang.parse_no_vars("(/ (* (sin 5) 2) 2)").unwrap());
    let saturator = SimpleSaturator::new(BottomUpMatcher);
    let _ = saturator.saturate(&mut egraph, &rules, &SaturationConfig::default());
    let top = egraph.canonical_class(top_class_id);
    assert_eq!(egraph.class(top).analysis().0, 3);
}

#[test]
fn limit_reached_at_start_leaves_graph_unchanged() {
    let lang = Language::simple_math();
    let rules = x_rules(&lang);
    let mut egraph = new_egraph(&lang, "(* (sin 5) 2)");
    let nodes_before = egraph.total_node_count();
    let classes_before = egraph.class_count();
    let config = SaturationConfig { max_nodes: Some(1), max_classes: None, max_applications: None, time_limit: None };
    let reason = saturate(&mut egraph, &rules, BottomUpMatcher, &config);
    assert_eq!(reason, SaturationStopReason::MaxNodes);
    assert_eq!(egraph.total_node_count(), nodes_before);
    assert_eq!(egraph.class_count(), classes_before);
}
