use verbum::equation::Equation;
use verbum::language::Language;
use verbum::rewriting::unification::{IndependentVarUnifier, Substitution, UnificationProblem};

fn solve_unification_problem(expression_1: &str, expression_2: &str) -> Option<Substitution> {
    let lang = Language::simple_math();
    let expression_1 = lang.parse(expression_1).unwrap();
    let expression_2 = lang.parse(expression_2).unwrap();
    UnificationProblem::from_equation(Equation::new(expression_1, expression_2)).solve()
}

#[test]
fn test_unify_trivial() {
    let substitution = solve_unification_problem("1", "1");
    assert!(substitution.is_some());
}

#[test]
fn test_unify_simple() {
    let lang = Language::simple_math();
    let substitution = solve_unification_problem("(* $0 2)", "(* 3 $1)").unwrap();
    assert_eq!(*substitution.get(0).unwrap(), lang.parse("3").unwrap());
    assert_eq!(*substitution.get(1).unwrap(), lang.parse("2").unwrap());
}

#[test]
fn test_unify_nested() {
    let lang = Language::simple_math();
    let substitution = solve_unification_problem("(+ (* $0 2) $2)", "(+ $1 5)").unwrap();
    assert_eq!(*substitution.get(2).unwrap(), lang.parse("5").unwrap());
    assert_eq!(*substitution.get(1).unwrap(), lang.parse("(* $0 2)").unwrap());
}

#[test]
fn test_unify_no_unification() {
    assert!(solve_unification_problem("(* 2 $0)", "(+ 3 $1)").is_none());
}

#[test]
fn test_unify_occur_check() {
    assert!(solve_unification_problem("$0", "(* $0 2)").is_none());
}

#[test]
fn test_unify_variable_conflict() {
    assert!(solve_unification_problem("(+ $1 (+ $1 (+ 1 2)))", "(+ $2 (+ 1 (+ $1 $2)))").is_none())
}

fn unify_independent_vars(expression_1: &str, expression_2: &str) -> Option<IndependentVarUnifier> {
    let lang = Language::simple_math();
    let expression_1 = lang.parse(expression_1).unwrap();
    let expression_2 = lang.parse(expression_2).unwrap();
    IndependentVarUnifier::unify(Equation::new(expression_1, expression_2))
}

#[test]
fn test_unify_independent_vars_trivial() {
    let unifier = unify_independent_vars("1", "1");
    assert!(unifier.is_some());
}

#[test]
fn test_unify_independent_vars_simple() {
    let lang = Language::simple_math();
    let unifier = unify_independent_vars("(* $0 2)", "(* 3 $0)").unwrap();
    let left_sub = unifier.left_substitution();
    let right_sub = unifier.right_substitution();
    assert_eq!(*left_sub.get(0).unwrap(), lang.parse("3").unwrap());
    assert_eq!(*right_sub.get(0).unwrap(), lang.parse("2").unwrap());
}

#[test]
fn test_unify_independent_vars_occur_check() {
    let lang = Language::simple_math();
    let unifier = unify_independent_vars("$0", "(* $0 2)").unwrap();
    let left_sub = unifier.left_substitution();
    let right_sub = unifier.right_substitution();
    assert_eq!(*left_sub.get(0).unwrap(), lang.parse("(* $1 2)").unwrap());
    assert!(right_sub.get(0).is_none());
}

#[test]
fn unify_variable_against_itself_binds_nothing() {
    let substitution = solve_unification_problem("$3", "$3").unwrap();
    assert!(substitution.get(3).is_none());
}

#[test]
fn unify_orients_term_against_variable() {
    let lang = Language::simple_math();
    let substitution = solve_unification_problem("(sin 2)", "$4").unwrap();
    assert_eq!(*substitution.get(4).unwrap(), lang.parse("(sin 2)").unwrap());
}

#[test]
fn unify_distinct_literals_fails() {
    assert!(solve_unification_problem("1", "2").is_none());
}

#[test]
fn substitution_split_and_shift() {
    let lang = Language::simple_math();
    let mut substitution = Substitution::new();
    substitution.set(0, lang.parse("1").unwrap());
    substitution.set(5, lang.parse("2").unwrap());
    let (low, mut high) = substitution.split_at(3);
    assert_eq!(*low.get(0).unwrap(), lang.parse("1").unwrap());
    assert!(low.get(5).is_none());
    assert!(high.get(0).is_none());
    high.shift_negative(3);
    assert_eq!(*high.get(2).unwrap(), lang.parse("2").unwrap());
    assert!(high.get(5).is_none());
    high.shift_positive(1);
    assert_eq!(*high.get(3).unwrap(), lang.parse("2").unwrap());
}

#[test]
fn unify_gives_bindings_in_solved_form() {
    let lang = Language::simple_math();
    let substitution = solve_unification_problem("(+ $0 $0)", "(+ $1 3)").unwrap();
    assert_eq!(*substitution.get(0).unwrap(), lang.parse("3").unwrap());
    assert_eq!(*substitution.get(1).unwrap(), lang.parse("3").unwrap());
}
