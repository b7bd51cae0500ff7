use verbum::language::expression::Literal;
use verbum::language::Language;
use verbum::rewriting::egraph::matching::bottom_up::BottomUpMatcher;
use verbum::rewriting::egraph::matching::top_down::TopDownMatcher;
use verbum::rewriting::egraph::matching::{EGraphMatch, Matcher};
use verbum::rewriting::egraph::{EGraph, Node};

fn pairs(root: usize, pairs: &[(usize, usize)]) -> EGraphMatch {
    let mut m = EGraphMatch::empty(root);
    for (v, c) in pairs {
        m.insert(*v, *c);
    }
    m
}

#[test]
fn merge_matches() {
    let match_1 = pairs(4, &[(1, 2), (2, 3), (5, 4)]);
    let match_2 = pairs(4, &[(2, 3), (4, 5)]);
    assert_eq!(match_1.merge(4, match_2).unwrap().substitution_count(), 4);
}

#[test]
fn not_merge_matches() {
    let match_1 = pairs(4, &[(1, 2), (2, 3), (5, 4)]);
    let match_2 = pairs(4, &[(2, 5), (4, 5)]);
    assert!(match_1.merge(4, match_2).is_none());
}

fn find_literal<M: Matcher>(matcher: M) {
    let lang = Language::math();
    let five = lang.parse("5").unwrap();
    let expr = lang.parse_no_vars("(* (+ 5 (sin (+ 5 3))))").unwrap();
    let egraph = EGraph::<()>::from_expression(expr);
    let matches = matcher.try_match(&egraph, &five);
    assert_eq!(matches.len(), 1);
    let five_id = egraph.node_id(&Node::Literal(Literal::Int(5))).unwrap();
    let five_class_id = egraph.containing_class(five_id);
    assert_eq!(matches[0].root(), five_class_id);
    assert_eq!(matches[0].substitution_count(), 0);
}

fn find_symbol<M: Matcher>(matcher: M) {
    let lang = Language::math();
    let sin = lang.parse("(sin (+ 5 3))").unwrap();
    let expr = lang.parse_no_vars("(* (+ 5 (sin (+ 5 3))))").unwrap();
    let egraph = EGraph::<()>::from_expression(expr);
    let matches = matcher.try_match(&egraph, &sin);
    assert_eq!(matches.len(), 1);
    let sin_id = egraph.find_symbols(lang.try_get_id("sin").unwrap())[0];
    let sin_class_id = egraph.containing_class(sin_id);
    assert_eq!(matches[0].root(), sin_class_id);
    assert_eq!(matches[0].substitution_count(), 0);
}

fn not_find_symbol<M: Matcher>(matcher: M) {
    let lang = Language::math();
    let five = lang.parse("(sin (+ 5 3))").unwrap();
    let expr = lang.parse_no_vars("(* (+ 5 (sin (+ 5 4))))").unwrap();
    let egraph = EGraph::<()>::from_expression(expr);
    let matches = matcher.try_match(&egraph, &five);
    assert_eq!(matches.len(), 0);
}

fn match_with_variables<M: Matcher>(matcher: M) {
    let lang = Language::math();
    let five = lang.parse("(+ 5 x0)").unwrap();
    let expr = lang.parse_no_vars("(* (+ 5 (sin (+ 5 3))))").unwrap();
    let egraph = EGraph::<()>::from_expression(expr);
    let matches = matcher.try_match(&egraph, &five);

    let pluses = egraph.find_symbols(lang.try_get_id("+").unwrap());
    let mut plus_0 = egraph.containing_class(pluses[0]);
    let mut plus_1 = egraph.containing_class(pluses[1]);
    if matches[0].root() != plus_0 {
        std::mem::swap(&mut plus_0, &mut plus_1);
    }
    assert_eq!(matches.len(), 2);
    assert_eq!(matches[0].root(), plus_0);
    assert_eq!(matches[1].root(), plus_1);

    let sin_id = egraph.find_symbols(lang.try_get_id("sin").unwrap())[0];
    let sin_class_id = egraph.containing_class(sin_id);
    let three_id = egraph.node_id(&Node::Literal(Literal::Int(3))).unwrap();
    let three_class_id = egraph.containing_class(three_id);

    assert_eq!(matches[0].substitution_count(), 1);
    assert_eq!(matches[1].substitution_count(), 1);
    if matches[0].root() == 2 {
        assert_eq!(matches[0].class_variable(0), three_class_id);
        assert_eq!(matches[1].class_variable(0), sin_class_id);
    } else {
        assert_eq!(matches[0].class_variable(0), sin_class_id);
        assert_eq!(matches[1].class_variable(0), three_class_id);
    }
}

fn match_with_repeated_variables<M: Matcher>(matcher: M) {
    let lang = Language::math();
    let five = lang.parse("(* (+ x0 x0) x1)").unwrap();
    let expr = lang.parse_no_vars("(* (+ (sin 5) (sin 5)) 3)").unwrap();
    let egraph = EGraph::<()>::from_expression(expr);
    let matches = matcher.try_match(&egraph, &five);
    let mul_id = egraph.find_symbols(lang.try_get_id("*").unwrap())[0];
    assert_eq!(matches.len(), 1);
    assert_eq!(matches[0].root(), mul_id);
    assert_eq!(matches[0].substitution_count(), 2);
    let sin_id = egraph.find_symbols(lang.try_get_id("sin").unwrap())[0];
    let three_id = egraph.containing_class(egraph.node_id(&Node::Literal(Literal::Int(3))).unwrap());
    assert_eq!(matches[0].class_variable(0), sin_id);
    assert_eq!(matches[0].class_variable(1), three_id);
}

fn match_with_repeated_variables_fail<M: Matcher>(matcher: M) {
    let lang = Language::math();
    let five = lang.parse("(* (+ x0 x0) x1)").unwrap();
    let expr = lang.parse_no_vars("(* (+ 8 5) 3)").unwrap();
    let egraph = EGraph::<()>::from_expression(expr);
    let matches = matcher.try_match(&egraph, &five);
    assert_eq!(matches.len(), 0);
}

#[test]
fn egraph_matching_find_literal() {
    find_literal(TopDownMatcher);
}

#[test]
fn egraph_matching_find_symbol() {
    find_symbol(TopDownMatcher);
}

#[test]
fn egraph_matching_not_find_symbol() {
    not_find_symbol(TopDownMatcher);
}

#[test]
fn egraph_matching_match_with_variables() {
    match_with_variables(TopDownMatcher);
}

#[test]
fn egraph_matching_match_with_repeated_variables() {
    match_with_repeated_variables(TopDownMatcher);
}

#[test]
fn egraph_matching_match_with_repeated_variables_fail() {
    match_with_repeated_variables_fail(TopDownMatcher);
}

#[test]
fn top_down_find_literal() {
    find_literal(TopDownMatcher);
}

#[test]
fn top_down_find_symbol() {
    find_symbol(TopDownMatcher);
}

#[test]
fn top_down_not_find_symbol() {
    not_find_symbol(TopDownMatcher);
}

#[test]
fn top_down_match_with_variables() {
    match_with_variables(TopDownMatcher);
}

#[test]
fn top_down_match_with_repeated_variables() {
    match_with_repeated_variables(TopDownMatcher);
}

#[test]
fn top_down_match_with_repeated_variables_fail() {
    match_with_repeated_variables_fail(TopDownMatcher);
}

#[test]
fn bottom_up_find_literal() {
    find_literal(BottomUpMatcher);
}

#[test]
fn bottom_up_find_symbol() {
    find_symbol(BottomUpMatcher);
}

#[test]
fn bottom_up_not_find_symbol() {
    not_find_symbol(BottomUpMatcher);
}

#[test]
fn bottom_up_match_with_variables() {
    match_with_variables(BottomUpMatcher);
}

#[test]
fn bottom_up_match_with_repeated_variables() {
    match_with_repeated_variables(BottomUpMatcher);
}

#[test]
fn bottom_up_match_with_repeated_variables_fail() {
    match_with_repeated_variables_fail(BottomUpMatcher);
}

#[test]
fn bottom_up_finds_instance_made_by_merge() {
    let lang = Language::math();
    let pattern = lang.parse("(+ x0 x0)").unwrap();
    let expr = lang.parse_no_vars("(+ 5 3)").unwrap();
    let mut egraph = EGraph::<()>::from_expression(expr);
    assert_eq!(BottomUpMatcher.try_match(&egraph, &pattern).len(), 0);
    let five = egraph.node_id(&Node::Literal(Literal::Int(5))).unwrap();
    let three = egraph.node_id(&Node::Literal(Literal::Int(3))).unwrap();
    egraph.merge_classes(five, three);
    let matches = BottomUpMatcher.try_match(&egraph, &pattern);
    assert_eq!(matches.len(), 1);
    let plus = egraph.find_symbols(lang.try_get_id("+").unwrap())[0];
    assert_eq!(matches[0].root(), egraph.containing_class(plus));
    assert_eq!(matches[0].class_variable(0), egraph.containing_class(five));
}

#[test]
fn merging_children_merges_congruent_parents() {
    let lang = Language::math();
    let expr = lang.parse_no_vars("(* (sin 5) (sin 3))").unwrap();
    let mut egraph = EGraph::<()>::from_expression(expr);
    let sins = egraph.find_symbols(lang.try_get_id("sin").unwrap());
    assert_eq!(sins.len(), 2);
    assert_ne!(egraph.containing_class(sins[0]), egraph.containing_class(sins[1]));
    let five = egraph.node_id(&Node::Literal(Literal::Int(5))).unwrap();
    let three = egraph.node_id(&Node::Literal(Literal::Int(3))).unwrap();
    egraph.merge_classes(five, three);
    assert_eq!(egraph.containing_class(sins[0]), egraph.containing_class(sins[1]));
}
