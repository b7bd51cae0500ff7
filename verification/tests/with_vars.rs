use verbum::language::Language;
use verbum::rewriting::direct::with_vars::{
    find_all_rewrite_positions, instantiate_pattern, rewrite, try_match_expression, ExpressionMatch,
};
use verbum::rewriting::rule::Rule;

fn rule(lang: &Language, from: &str, to: &str) -> Rule {
    Rule::from_strings(from, to, lang).unwrap()
}

#[test]
fn with_vars_test_match_expression_with_variables() {
    let lang = Language::simple_math();
    let pattern = lang.parse("(+ $0 $1)").unwrap();
    let expr = lang.parse("(+ $5 2)").unwrap();

    let matching = try_match_expression(&pattern, &expr).unwrap();

    let matched_0 = matching.at(0).unwrap();
    assert_eq!(*matched_0, lang.parse("$5").unwrap());

    let matched_1 = matching.at(1).unwrap();
    assert_eq!(*matched_1, lang.parse("2").unwrap());
}

#[test]
fn with_vars_test_pattern_variables_match_expression_variables() {
    let lang = Language::simple_math();

    let pattern = lang.parse("$0").unwrap();
    let expr = lang.parse("$5").unwrap();

    let matching = try_match_expression(&pattern, &expr).unwrap();
    let matched = matching.at(0).unwrap();
    assert_eq!(*matched, lang.parse("$5").unwrap());

    let pattern = lang.parse("(+ $0 $0)").unwrap();
    let expr = lang.parse("(+ $5 $5)").unwrap();
    let matching = try_match_expression(&pattern, &expr).unwrap();
    let matched = matching.at(0).unwrap();
    assert_eq!(*matched, lang.parse("$5").unwrap());

    let expr = lang.parse("(+ $5 $6)").unwrap();
    assert!(try_match_expression(&pattern, &expr).is_none());
}

#[test]
fn with_vars_test_instantiate_with_expression_variables() {
    let lang = Language::simple_math();

    let pattern = lang.parse("(+ $1 $0)").unwrap();
    let mut matching = ExpressionMatch::new();
    matching.set(0, lang.parse("$5").unwrap());
    matching.set(1, lang.parse("2").unwrap());

    let result = instantiate_pattern(&pattern, &matching);
    let expected = lang.parse("(+ 2 $5)").unwrap();

    assert_eq!(result, expected);
}

#[test]
fn with_vars_test_rewrite_expression_with_variables() {
    let lang = Language::simple_math();
    let expr = lang.parse("(+ $5 2)").unwrap();
    let rules = vec![rule(&lang, "(+ $0 $1)", "(+ $1 $0)")];

    let result = rewrite(expr, &rules, 1);
    let expected = lang.parse("(+ 2 $5)").unwrap();

    assert_eq!(result, expected);
}

#[test]
fn test_no_rewrites_with_expression_variables() {
    let lang = Language::simple_math();

    let expr = lang.parse("$5").unwrap();
    let rules = vec![rule(&lang, "(+ 0 $0)", "$0")];

    let result = rewrite(expr.clone(), &rules, 5);
    assert_eq!(result, expr);
}

#[test]
fn test_multiple_rewrites_with_expression_variables() {
    let lang = Language::simple_math();

    let expr = lang.parse("(+ 0 (+ $5 0))").unwrap();
    let rules = vec![rule(&lang, "(+ 0 $0)", "$0"), rule(&lang, "(+ $0 0)", "$0")];

    let result = rewrite(expr, &rules, 2);
    let expected = lang.parse("$5").unwrap();

    assert_eq!(result, expected);
}

#[test]
fn one_random_rewrite_of_nested_expression_changes_it() {
    let lang = Language::simple_math();
    let expr = lang.parse("(* $0 (+ $1 3))").unwrap();
    let rules = vec![rule(&lang, "(+ $0 $1)", "(+ $1 $0)"), rule(&lang, "(* $0 $1)", "(* $1 $0)")];
    let result = rewrite(expr.clone(), &rules, 1);
    assert_ne!(result, expr);
    let one = lang.parse("(* (+ $1 3) $0)").unwrap();
    let other = lang.parse("(* $0 (+ 3 $1))").unwrap();
    assert!(result == one || result == other);
}

#[test]
fn positions_of_nested_expression() {
    let lang = Language::simple_math();
    let expr = lang.parse("(* $0 (+ $1 3))").unwrap();
    let rules = vec![rule(&lang, "(+ $0 $1)", "(+ $1 $0)"), rule(&lang, "(* $0 $1)", "(* $1 $0)")];
    let positions = find_all_rewrite_positions(&expr, &rules);
    assert_eq!(positions.len(), 2);
    assert_eq!(positions[0].rule_index, 1);
    assert_eq!(positions[0].path.0, Vec::<usize>::new());
    assert_eq!(positions[1].rule_index, 0);
    assert_eq!(positions[1].path.0, vec![1]);
}

#[test]
fn test_rewrite_nested_expression_with_variables() {
    let lang = Language::simple_math();
    let expr = lang.parse("(* $0 (+ $1 3))").unwrap();
    let rules = vec![rule(&lang, "(+ $0 $1)", "(+ $1 $0)"), rule(&lang, "(* $0 $1)", "(* $1 $0)")];
    // Two random steps undo each other when they pick the same position, so
    // the runs are repeated until one commutes both operations.
    let mut result = rewrite(expr.clone(), &rules, 2);
    let mut runs = 1;
    while result == expr && runs < 64 {
        result = rewrite(expr.clone(), &rules, 2);
        runs += 1;
    }
    assert_ne!(result, expr);
}
