use verbum::language::expression::Expression;
use verbum::language::Language;
use verbum::rewriting::direct::{apply_rewrite_at_position, find_all_rewrite_positions, rewrite, rewrite_once, rewrite_var_free};
use verbum::rewriting::matching::ExpressionMatch;
use verbum::rewriting::rule::Rule;

#[test]
fn direct_test_match_expression_with_variables() {
    let lang = Language::simple_math();
    let pattern = lang.parse("(+ $0 $1)").unwrap();
    let expr = lang.parse("(+ $5 2)").unwrap();
    let matching = Expression::try_match_expression(&pattern, &expr).unwrap();
    let matched_0 = matching.at(0).unwrap();
    assert_eq!(*matched_0, lang.parse("$5").unwrap());
    let matched_1 = matching.at(1).unwrap();
    assert_eq!(*matched_1, lang.parse("2").unwrap());
}

#[test]
fn direct_test_pattern_variables_match_expression_variables() {
    let lang = Language::simple_math();
    let pattern = lang.parse("$0").unwrap();
    let expr = lang.parse("$5").unwrap();
    let matching = Expression::try_match_expression(&pattern, &expr).unwrap();
    let matched = matching.at(0).unwrap();
    assert_eq!(*matched, lang.parse("$5").unwrap());

    let pattern = lang.parse("(+ $0 $0)").unwrap();
    let expr = lang.parse("(+ $5 $5)").unwrap();
    let matching = Expression::try_match_expression(&pattern, &expr).unwrap();
    let matched = matching.at(0).unwrap();
    assert_eq!(*matched, lang.parse("$5").unwrap());

    let expr = lang.parse("(+ $5 $6)").unwrap();
    assert!(Expression::try_match_expression(&pattern, &expr).is_none());
}

#[test]
fn direct_test_instantiate_with_expression_variables() {
    let lang = Language::simple_math();
    let pattern = lang.parse("(+ $1 $0)").unwrap();
    let matching = ExpressionMatch::default();
    assert!(matching.at(0).is_none());

    let expr0 = lang.parse("$5").unwrap();
    let expr1 = lang.parse("2").unwrap();
    let pattern0 = lang.parse("$0").unwrap();
    let pattern1 = lang.parse("$1").unwrap();

    let m0 = Expression::try_match_expression(&pattern0, &expr0).unwrap();
    let m1 = Expression::try_match_expression(&pattern1, &expr1).unwrap();
    let matching = m0.try_merge(&m1).unwrap();

    let result = Expression::instantiate_expression(&pattern, &matching);
    let expected = lang.parse("(+ 2 $5)").unwrap();
    assert_eq!(result, expected);
}

#[test]
fn test_rewrite_once_expression_with_variables() {
    let lang = Language::simple_math();
    let expr = lang.parse("(+ $5 2)").unwrap();
    let rule = Rule::from_strings("(+ $0 $1)", "(+ $1 $0)", &lang).unwrap();
    let result = rewrite_once(expr, &rule).unwrap();
    let expected = lang.parse("(+ 2 $5)").unwrap();
    assert_eq!(result, expected);
}

#[test]
fn direct_test_rewrite_expression_with_variables() {
    let lang = Language::simple_math();
    let expr = lang.parse("(+ 0 (+ $5 0))").unwrap();
    let rules = vec![
        Rule::from_strings("(+ 0 $0)", "$0", &lang).unwrap(),
        Rule::from_strings("(+ $0 0)", "$0", &lang).unwrap(),
    ];
    let result = rewrite(expr, &rules, 10);
    let expected = lang.parse("$5").unwrap();
    assert_eq!(result, expected);
}

#[test]
fn test_rewrite_var_free() {
    let lang = Language::simple_math();
    let expr = lang.parse_no_vars("(+ 0 5)").unwrap();
    let rules = vec![Rule::from_strings("(+ 0 $0)", "$0", &lang).unwrap()];
    let result = rewrite_var_free(expr, &rules, 10);
    let expected = lang.parse_no_vars("5").unwrap();
    assert_eq!(result, expected);
}

#[test]
fn test_rewrite_no_match() {
    let lang = Language::simple_math();
    let expr = lang.parse("$7").unwrap();
    let rules = vec![Rule::from_strings("(+ 0 $0)", "$0", &lang).unwrap()];
    let result = rewrite(expr.clone(), &rules, 5);
    assert_eq!(result, expr);
}

#[test]
fn test_rewrite_nested_expression() {
    let lang = Language::simple_math();
    let expr = lang.parse("(* $0 (+ $1 0))").unwrap();
    let rules = vec![Rule::from_strings("(+ $0 0)", "$0", &lang).unwrap()];
    let result = rewrite(expr, &rules, 10);
    let expected = lang.parse("(* $0 $1)").unwrap();
    assert_eq!(result, expected);
}

#[test]
fn test_commutative_rule_does_not_oscillate() {
    let lang = Language::simple_math();
    let expr = lang.parse("(+ $5 2)").unwrap();
    let rules = vec![Rule::from_strings("(+ $0 $1)", "(+ $1 $0)", &lang).unwrap()];
    let result = rewrite(expr.clone(), &rules, 10);
    let expected = lang.parse("(+ 2 $5)").unwrap();
    assert_eq!(result, expected);
}

#[test]
fn test_find_all_rewrite_positions() {
    let lang = Language::simple_math();
    let expr = lang.parse_no_vars("(+ 0 (+ 0 5))").unwrap();
    let rules = vec![Rule::from_strings("(+ 0 $0)", "$0", &lang).unwrap()];
    let positions = find_all_rewrite_positions(&expr, &rules);
    assert_eq!(positions.len(), 2);
}

#[test]
fn rewrite_at_position_stays_variable_free() {
    let lang = Language::simple_math();
    let rules = vec![Rule::from_strings("(* $0 1)", "$0", &lang).unwrap()];
    let expr = lang.parse_no_vars("(+ (* 3 1) 2)").unwrap();
    let positions = find_all_rewrite_positions(&expr, &rules);
    assert_eq!(positions.len(), 1);
    let result = apply_rewrite_at_position(expr, &rules, &positions[0]);
    assert_eq!(result, lang.parse_no_vars("(+ 3 2)").unwrap());
}
