use verbum::language::Language;
use verbum::rewriting::abelian::{expression_to_abelian_vector, rules_to_abelian_matrix};
use verbum::rewriting::rule::Rule;

#[test]
fn test_expression_to_abelian_vector_simple() {
    let lang = Language::default().add_symbol("+").add_symbol("*").add_symbol("sin");
    let expr = lang.parse("(+ 1 2)").unwrap();
    let vec = expression_to_abelian_vector(&expr, &lang);
    assert_eq!(vec.len(), 3);
    assert_eq!(vec.get(0), 1);
    assert_eq!(vec.get(1), 0);
    assert_eq!(vec.get(2), 0);
}

#[test]
fn test_expression_to_abelian_vector_nested() {
    let lang = Language::default().add_symbol("+").add_symbol("*").add_symbol("sin");
    let expr = lang.parse("(+ (sin 1) (* 2 3))").unwrap();
    let vec = expression_to_abelian_vector(&expr, &lang);
    assert_eq!(vec.len(), 3);
    assert_eq!(vec.get(0), 1);
    assert_eq!(vec.get(1), 1);
    assert_eq!(vec.get(2), 1);
}

#[test]
fn test_expression_to_abelian_vector_repeated() {
    let lang = Language::default().add_symbol("+").add_symbol("*");
    let expr = lang.parse("(+ (* 1 2) (+ 3 (* 4 5)))").unwrap();
    let vec = expression_to_abelian_vector(&expr, &lang);
    assert_eq!(vec.len(), 2);
    assert_eq!(vec.get(0), 2);
    assert_eq!(vec.get(1), 2);
}

#[test]
fn test_expression_to_abelian_vector_with_variables() {
    let lang = Language::default().add_symbol("+").add_symbol("*");
    let expr = lang.parse("(+ $0 (* $1 $2))").unwrap();
    let vec = expression_to_abelian_vector(&expr, &lang);
    assert_eq!(vec.len(), 2);
    assert_eq!(vec.get(0), 1);
    assert_eq!(vec.get(1), 1);
}

#[test]
fn test_rules_to_abelian_matrix_single_rule() {
    let lang = Language::default().add_symbol("+").add_symbol("*");
    let rule = Rule::from_strings("(+ $0 $1)", "(* $0 $1)", &lang).unwrap();
    let matrix = rules_to_abelian_matrix(&[rule], &lang);
    assert_eq!(matrix.nrows(), 2);
    assert_eq!(matrix.ncols(), 1);
    assert_eq!(matrix.get(0, 0), -1);
    assert_eq!(matrix.get(1, 0), 1);
}

#[test]
fn test_rules_to_abelian_matrix_multiple_rules() {
    let lang = Language::default().add_symbol("+").add_symbol("*").add_symbol("sin");
    let rule1 = Rule::from_strings("(+ $0 $1)", "(* $0 $1)", &lang).unwrap();
    let rule2 = Rule::from_strings("(sin $0)", "(+ $0 (* 1 $0))", &lang).unwrap();
    let matrix = rules_to_abelian_matrix(&[rule1, rule2], &lang);
    assert_eq!(matrix.nrows(), 3);
    assert_eq!(matrix.ncols(), 2);
    assert_eq!(matrix.get(0, 0), -1);
    assert_eq!(matrix.get(1, 0), 1);
    assert_eq!(matrix.get(2, 0), 0);
    assert_eq!(matrix.get(0, 1), 1);
    assert_eq!(matrix.get(1, 1), 1);
    assert_eq!(matrix.get(2, 1), -1);
}

#[test]
fn test_rules_to_abelian_matrix_identity_rule() {
    let lang = Language::default().add_symbol("+").add_symbol("*");
    let rule = Rule::from_strings("(+ $0 $1)", "(+ $1 $0)", &lang).unwrap();
    let matrix = rules_to_abelian_matrix(&[rule], &lang);
    assert_eq!(matrix.nrows(), 2);
    assert_eq!(matrix.ncols(), 1);
    assert_eq!(matrix.get(0, 0), 0);
    assert_eq!(matrix.get(1, 0), 0);
}

#[test]
fn test_matrix_indexing() {
    let lang = Language::default().add_symbol("+").add_symbol("*");
    let rule = Rule::from_strings("(+ $0 $1)", "(* $0 $1)", &lang).unwrap();
    let matrix = rules_to_abelian_matrix(&[rule], &lang);
    assert_eq!(matrix.nrows(), 2);
    assert_eq!(matrix.ncols(), 1);
    assert_eq!(matrix.get(0, 0), -1, "Symbol 0 (+) should have -1");
    assert_eq!(matrix.get(1, 0), 1, "Symbol 1 (*) should have +1");
}

#[test]
fn abelian_matrix_without_rules_has_no_columns() {
    let lang = Language::default().add_symbol("+");
    let matrix = rules_to_abelian_matrix(&[], &lang);
    assert_eq!(matrix.nrows(), 1);
    assert_eq!(matrix.ncols(), 0);
}
