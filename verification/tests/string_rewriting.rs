use verbum::language::arities::Arities;
use verbum::language::expression::Expression;
use verbum::language::Language;
use verbum::rewriting::rule::Rule;
use verbum::string_rewriting::{expression_to_paths, rule_to_induced_rules, to_string_language};

fn lang_plus_sin() -> Language {
    Language::default().add_symbol("+").add_symbol("sin")
}

fn lang_plus_times() -> Language {
    Language::default().add_symbol("+").add_symbol("*")
}

fn check_to_string_language_simple() {
    let lang = lang_plus_sin();
    let arities = Arities::from_pairs(vec![(0, 2), (1, 1)]);
    let string_lang = to_string_language(&lang, &arities);
    assert_eq!(string_lang.get_symbol(0), "+_1");
    assert_eq!(string_lang.get_symbol(1), "+_2");
    assert_eq!(string_lang.get_symbol(2), "sin");
}

fn check_to_string_language_zero_arity() {
    let lang = Language::default().add_symbol("x").add_symbol("*");
    let arities = Arities::from_pairs(vec![(0, 0), (1, 2)]);
    let string_lang = to_string_language(&lang, &arities);
    assert_eq!(string_lang.get_symbol(0), "x");
    assert_eq!(string_lang.get_symbol(1), "*_1");
    assert_eq!(string_lang.get_symbol(2), "*_2");
}

fn check_expression_to_paths_simple() {
    let lang = lang_plus_sin();
    let arities = Arities::from_pairs(vec![(0, 2), (1, 1)]);
    let string_lang = to_string_language(&lang, &arities);
    let expr = lang.parse("(+ (sin 1) 2)").unwrap();
    let paths = expression_to_paths(&expr, &lang, &string_lang, &arities).unwrap();
    assert_eq!(paths.len(), 2);
}

fn check_expression_to_paths_with_variable() {
    let lang = lang_plus_times();
    let arities = Arities::from_pairs(vec![(0, 2), (1, 2)]);
    let string_lang = to_string_language(&lang, &arities);
    let expr = lang.parse("(+ $0 (* 2 3))").unwrap();
    let paths = expression_to_paths(&expr, &lang, &string_lang, &arities).unwrap();
    assert_eq!(paths.len(), 3);
}

fn check_rule_to_induced_rules_simple() {
    let lang = lang_plus_times();
    let arities = Arities::from_pairs(vec![(0, 2), (1, 2)]);
    let string_lang = to_string_language(&lang, &arities);
    let rule = Rule::from_strings("(+ $0 $1)", "(* $0 $1)", &lang).unwrap();
    let induced_rules = rule_to_induced_rules(&rule, &lang, &string_lang, &arities).unwrap();
    assert_eq!(induced_rules.len(), 2);
}

fn check_rule_to_induced_rules_repeated_variable() {
    let lang = lang_plus_times();
    let arities = Arities::from_pairs(vec![(0, 2), (1, 2)]);
    let string_lang = to_string_language(&lang, &arities);
    let rule = Rule::from_strings("(+ $0 $0)", "(* $0 $0)", &lang).unwrap();
    let induced_rules = rule_to_induced_rules(&rule, &lang, &string_lang, &arities).unwrap();
    assert_eq!(induced_rules.len(), 4);
}

fn check_to_string_language_ternary() {
    let lang = Language::default().add_symbol("if");
    let arities = Arities::from_pairs(vec![(0, 3)]);
    let string_lang = to_string_language(&lang, &arities);
    assert_eq!(string_lang.get_symbol(0), "if_1");
    assert_eq!(string_lang.get_symbol(1), "if_2");
    assert_eq!(string_lang.get_symbol(2), "if_3");
    assert_eq!(string_lang.symbol_count(), 3);
}

fn check_expression_to_paths_detailed() {
    let lang = lang_plus_sin();
    let arities = Arities::from_pairs(vec![(0, 2), (1, 1)]);
    let string_lang = to_string_language(&lang, &arities);
    let expr = lang.parse("(+ (sin 1) 2)").unwrap();
    let paths = expression_to_paths(&expr, &lang, &string_lang, &arities).unwrap();
    assert_eq!(paths.len(), 2);
    assert!(matches!(&paths[0], Expression::Symbol(_)));
    assert!(matches!(&paths[1], Expression::Symbol(_)));
    assert_eq!(paths[0], string_lang.parse("(+_1 (sin 1))").unwrap());
    assert_eq!(paths[1], string_lang.parse("(+_2 2)").unwrap());
}

fn check_rule_to_induced_rules_detailed() {
    let lang = lang_plus_times();
    let arities = Arities::from_pairs(vec![(0, 2), (1, 2)]);
    let string_lang = to_string_language(&lang, &arities);
    let rule = Rule::from_strings("(+ $0 $1)", "(+ $1 $0)", &lang).unwrap();
    let induced_rules = rule_to_induced_rules(&rule, &lang, &string_lang, &arities).unwrap();
    assert_eq!(induced_rules.len(), 2);
    for induced_rule in &induced_rules {
        assert!(!induced_rule.from().variables().is_empty());
        assert!(!induced_rule.to().variables().is_empty());
    }
}

#[test]
fn string_rewriting_test_to_string_language_simple() {
    check_to_string_language_simple();
}

#[test]
fn string_rewriting_test_to_string_language_zero_arity() {
    check_to_string_language_zero_arity();
}

#[test]
fn string_rewriting_test_expression_to_paths_simple() {
    check_expression_to_paths_simple();
}

#[test]
fn string_rewriting_test_expression_to_paths_with_variable() {
    check_expression_to_paths_with_variable();
}

#[test]
fn string_rewriting_test_rule_to_induced_rules_simple() {
    check_rule_to_induced_rules_simple();
}

#[test]
fn string_rewriting_test_rule_to_induced_rules_repeated_variable() {
    check_rule_to_induced_rules_repeated_variable();
}

#[test]
fn string_rewriting_test_to_string_language_ternary() {
    check_to_string_language_ternary();
}

#[test]
fn string_rewriting_test_expression_to_paths_detailed() {
    check_expression_to_paths_detailed();
}

#[test]
fn string_rewriting_test_rule_to_induced_rules_detailed() {
    check_rule_to_induced_rules_detailed();
}
