use verbum::language::expression::Literal;
use verbum::language::Language;
use verbum::rewriting::egraph::matching::top_down::TopDownMatcher;
use verbum::rewriting::egraph::matching::Matcher;
use verbum::rewriting::egraph::{EGraph, Node};
use verbum::rewriting::rule::Rule;

#[test]
fn simple_rule_application() {
    let lang = Language::simple_math();
    let mut egraph = EGraph::<()>::from_expression(lang.parse_no_vars("1").unwrap());
    let rule = Rule::from_strings("1", "2", &lang).unwrap();
    rule.apply(&mut egraph, &TopDownMatcher);
    assert_eq!(egraph.class_count(), 1);
    assert_eq!(egraph.actual_node_count(), 2);
    assert!(egraph.node_id(&Node::Literal(Literal::Int(1))).is_some());
    assert!(egraph.node_id(&Node::Literal(Literal::Int(2))).is_some());
}

#[test]
fn addition_commutative() {
    let lang = Language::simple_math();
    let mut egraph = EGraph::<()>::from_expression(lang.parse_no_vars("(+ 2 (sin 5))").unwrap());
    let rule = Rule::from_strings("(+ $0 $1)", "(+ $1 $0)", &lang).unwrap();
    rule.apply(&mut egraph, &TopDownMatcher);
    assert_eq!(egraph.class_count(), 4);
    assert_eq!(egraph.actual_node_count(), 5);
    let expected = lang.parse("(+ (sin 5) 2)").unwrap();
    assert_eq!(TopDownMatcher.try_match(&egraph, &expected).len(), 1);
}

#[test]
fn apply_reports_whether_the_egraph_changed() {
    let lang = Language::simple_math();
    let mut egraph = EGraph::<()>::from_expression(lang.parse_no_vars("(+ 1 2)").unwrap());
    let rule = Rule::from_strings("(+ $0 $1)", "(+ $1 $0)", &lang).unwrap();
    assert!(rule.apply(&mut egraph, &TopDownMatcher));
    assert!(!rule.apply(&mut egraph, &TopDownMatcher));
}

#[test]
fn apply_stops_at_the_first_changing_match() {
    let lang = Language::simple_math();
    let mut egraph = EGraph::<()>::from_expression(lang.parse_no_vars("(+ (* 1 2) (* 3 4))").unwrap());
    let rule = Rule::from_strings("(* $0 $1)", "(* $1 $0)", &lang).unwrap();
    let before = egraph.actual_node_count();
    assert!(rule.apply(&mut egraph, &TopDownMatcher));
    assert_eq!(egraph.actual_node_count(), before + 1);
    assert!(rule.apply(&mut egraph, &TopDownMatcher));
    assert_eq!(egraph.actual_node_count(), before + 2);
    assert!(!rule.apply(&mut egraph, &TopDownMatcher));
}

#[test]
fn from_strings_rejects_unknown_symbols() {
    let lang = Language::simple_math();
    assert!(Rule::from_strings("(foo $0)", "$0", &lang).is_err());
    assert!(Rule::from_strings("(+ $0 1)", "(", &lang).is_err());
}
