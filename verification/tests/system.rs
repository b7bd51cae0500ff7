use verbum::graph::DataGraph;
use verbum::language::expression::Literal;
use verbum::language::Language;
use verbum::rewriting::egraph::matching::bottom_up::BottomUpMatcher;
use verbum::rewriting::egraph::saturation::{SaturationConfig, Saturator, SimpleSaturator};
use verbum::rewriting::egraph::EGraph;
use verbum::rewriting::rule::Rule;
use verbum::rewriting::system::calculus::calculus;
use verbum::rewriting::system::TermRewritingSystem;

fn rule(lang: &Language, from: &str, to: &str) -> Rule {
    Rule::from_strings(from, to, lang).unwrap()
}

fn rules(lang: &Language, pairs: &[(&str, &str)]) -> Vec<Rule> {
    pairs.iter().map(|(from, to)| rule(lang, from, to)).collect()
}

fn lang_abfg() -> Language {
    Language::default().add_symbol("a").add_symbol("b").add_symbol("f").add_symbol("g")
}

fn lang_abcfg() -> Language {
    Language::default().add_symbol("a").add_symbol("b").add_symbol("c").add_symbol("f").add_symbol("g")
}

#[test]
fn test_depends_on_case_1() {
    let lang = lang_abfg();
    let rule1 = rule(&lang, "(f $0)", "(g $0)");
    let rule2 = rule(&lang, "(a)", "(f (b))");
    assert!(rule1.depends_on(&rule2));
}

#[test]
fn test_depends_on_case_2() {
    let lang = lang_abcfg();
    let rule1 = rule(&lang, "(f $0)", "(g $0)");
    let rule2 = rule(&lang, "(f (b))", "(c)");
    assert!(!rule1.depends_on(&rule2));
}

#[test]
fn test_depends_on_case_2_with_variable_lhs() {
    let lang = lang_abfg();
    let rule1 = rule(&lang, "$0", "(g $0)");
    let rule2 = rule(&lang, "(a)", "(f (b))");
    assert!(rule1.depends_on(&rule2));
}

#[test]
fn test_depends_on_case_1_direct() {
    let lang = lang_abfg();
    let rule1 = rule(&lang, "(f $0)", "(g $0)");
    let rule2 = rule(&lang, "(a)", "(f (b))");
    assert!(rule1.depends_on_case_1(&rule2));
}

#[test]
fn test_depends_on_fail() {
    let lang = lang_abcfg();
    let rule1 = rule(&lang, "(f $0)", "(g $0)");
    let rule2 = rule(&lang, "(f (b))", "(c)");
    assert!(!rule1.depends_on(&rule2));
    assert!(!rule2.depends_on(&rule1));
}

#[test]
fn test_dependency_graph() {
    let lang = lang_abcfg();

    let rule1 = rule(&lang, "(f $0)", "(g $0)");
    let rule2 = rule(&lang, "(a)", "(f (b))");
    let rule3 = rule(&lang, "(g (c))", "(a)");
    let rule4 = rule(&lang, "(f (b))", "(c)");

    let rules = vec![rule1.clone(), rule2.clone(), rule3.clone(), rule4.clone()];
    let trs = TermRewritingSystem::new(lang, rules);

    let graph = trs.dependency_graph();

    let mut expected_graph = DataGraph::new();
    let idx1 = expected_graph.add_vertex(rule1);
    let idx2 = expected_graph.add_vertex(rule2);
    let idx3 = expected_graph.add_vertex(rule3);
    let idx4 = expected_graph.add_vertex(rule4);

    expected_graph.add_edge(idx1, idx2);
    expected_graph.add_edge(idx2, idx3);
    expected_graph.add_edge(idx3, idx1);
    expected_graph.add_edge(idx3, idx4);
    expected_graph.add_edge(idx4, idx2);

    assert_eq!(graph, expected_graph);
}

#[test]
fn dependency_case_2_alone_is_detected() {
    let lang = lang_abcfg();
    let rule1 = rule(&lang, "(f (g $0))", "(a)");
    let rule2 = rule(&lang, "(c)", "(g (b))");
    assert!(rule1.depends_on_case_2(&rule2));
    assert!(!rule1.depends_on_case_1(&rule2));
}

#[test]
fn dependency_graph_of_independent_rules_has_no_edges() {
    let lang = lang_abcfg();
    let rules = vec![rule(&lang, "(a)", "(b)"), rule(&lang, "(c)", "(g (c))")];
    let trs = TermRewritingSystem::new(lang, rules);
    let graph = trs.dependency_graph();
    assert_eq!(graph.vertices().len(), 2);
    assert!(graph.edges().is_empty());
}

#[test]
fn trs_rewrite_classical() {
    let lang = Language::simple_math();
    let rules = rules(
        &lang,
        &[
            ("(* $0 2)", "(<< $0 1)"),
            ("(* $0 1)", "$0"),
            ("(/ (* $0 $1) $2)", "(* $0 (/ $1 $2))"),
            ("(/ $0 $0)", "1"),
        ],
    );

    let expr = lang.parse_no_vars("(/ (* (sin 5) 2) 2)").unwrap();
    let trs = TermRewritingSystem::new(lang, rules);

    let egraph: EGraph<()> = trs.rewrite(expr);

    assert_eq!(egraph.class_count(), 5);
    assert_eq!(egraph.actual_node_count(), 9);
}

#[test]
fn trig_identity_rewrite_with_limits() {
    let trs = calculus().unwrap();
    let lang = trs.language();

    let expr = lang.parse_no_vars("(+ (^ (sin 3) 2) (^ (cos 3) 2))").expect("valid expression");
    let mut egraph = EGraph::<()>::from_expression(expr);

    let saturator = SimpleSaturator::new(BottomUpMatcher);
    let _reason = saturator.saturate(
        &mut egraph,
        trs.rules(),
        &SaturationConfig { max_applications: Some(10), max_nodes: Some(200), ..Default::default() },
    );

    assert!(
        egraph.find_literal(Literal::Int(1)).is_some(),
        "Expected to derive literal 1 from trig identity"
    );
}

#[test]
fn calculus_has_all_symbols_and_rules() {
    let trs = calculus().unwrap();
    assert_eq!(trs.rules().len(), 14);
    assert_eq!(trs.language().get_symbol(13), "arctan");
}
