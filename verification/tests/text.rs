use verbum::language::parse::ParseError;
use verbum::language::Language;

#[test]
fn text_of_parsed_expression_reads_back() {
    let lang = Language::simple_math();
    let expr = lang.parse("(+ (* $0 -3) (sin 4u))").unwrap();
    let text = expr.to_text(&lang).unwrap();
    assert_eq!(text, "(+ (* $0 -3) (sin 4u))");
    assert_eq!(lang.parse(&text).unwrap(), expr);
}

#[test]
fn text_normalises_spacing_and_variable_prefix() {
    let lang = Language::simple_math();
    let expr = lang.parse("  ( cos   x7 )  ").unwrap();
    assert_eq!(expr.to_text(&lang).unwrap(), "(cos $7)");
}

#[test]
fn text_of_nullary_symbol_has_parentheses() {
    let lang = Language::default().add_symbol("a").add_symbol("f");
    let expr = lang.parse("(f a)").unwrap();
    assert_eq!(expr.to_text(&lang).unwrap(), "(f (a))");
    assert_eq!(lang.parse("(f (a))").unwrap(), expr);
}

#[test]
fn text_needs_known_symbols() {
    let big = Language::simple_math();
    let small = Language::default().add_symbol("+");
    let expr = big.parse("(sin 1)").unwrap();
    assert!(expr.to_text(&small).is_none());
}

#[test]
fn parse_reports_errors() {
    let lang = Language::simple_math();
    assert_eq!(lang.parse("(+ 1"), Err(ParseError::UnexpectedEnd));
    assert_eq!(lang.parse(")"), Err(ParseError::UnexpectedChar(0)));
    assert_eq!(lang.parse("(foo 1)"), Err(ParseError::UnknownAtom(1)));
    assert_eq!(lang.parse("1 2"), Err(ParseError::TrailingInput(2)));
    assert_eq!(lang.parse_no_vars("(+ $0 1)"), Err(ParseError::UnexpectedVariable));
}
