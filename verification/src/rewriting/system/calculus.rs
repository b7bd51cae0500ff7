//! A rewriting system for arithmetic, trigonometry and calculus.

use vstd::prelude::*;

use crate::language::expression::Term;
use crate::language::parse::ParseError;
use crate::language::Language;
use crate::rewriting::rule::{rule_parse, rule_views, Rule};
use crate::rewriting::system::TermRewritingSystem;

verus! {

/// The rules read from the pairs of texts `texts` with the symbol names
/// `names`, in order, or the first error met reading them.
#[verifier::opaque]
pub open spec fn parse_rules(texts: Seq<(Seq<char>, Seq<char>)>, names: Seq<Seq<char>>) -> Result<Seq<(Term, Term)>, ParseError>
    decreases texts.len(),
{
    if texts.len() == 0 {
        Ok(Seq::empty())
    } else {
        match parse_rules(texts.drop_last(), names) {
            Err(err) => Err(err),
            Ok(rs) => match rule_parse(texts.last().0, texts.last().1, names) {
                Err(err) => Err(err),
                Ok(rv) => Ok(rs.push(rv)),
            },
        }
    }
}

/// Lemma: an error met reading the first pairs is the error met reading them all.
proof fn lemma_parse_rules_err(prefix: Seq<(Seq<char>, Seq<char>)>, texts: Seq<(Seq<char>, Seq<char>)>, names: Seq<Seq<char>>)
    requires
        prefix.len() <= texts.len(),
        prefix == texts.take(prefix.len() as int),
        parse_rules(prefix, names) is Err,
    ensures
        parse_rules(texts, names) == parse_rules(prefix, names),
    decreases texts.len(),
{
    reveal(parse_rules);
    if texts.len() > prefix.len() {
        assert(texts.drop_last().take(prefix.len() as int) =~= texts.take(prefix.len() as int));
        lemma_parse_rules_err(prefix, texts.drop_last(), names);
    } else {
        assert(texts =~= prefix);
    }
}

/// Lemma: reading one more pair adds its rule, or gives its error.
proof fn lemma_parse_rules_push(texts: Seq<(Seq<char>, Seq<char>)>, pair: (Seq<char>, Seq<char>), names: Seq<Seq<char>>)
    ensures
        parse_rules(texts.push(pair), names) == (match parse_rules(texts, names) {
            Err(err) => Err(err),
            Ok(rs) => match rule_parse(pair.0, pair.1, names) {
                Err(err) => Err(err),
                Ok(rv) => Ok(rs.push(rv)),
            },
        }),
{
    reveal(parse_rules);
    assert(texts.push(pair).drop_last() =~= texts);
}

/// The symbol names of the calculus language.
pub open spec fn calculus_names() -> Seq<Seq<char>> {
    seq![
        "+"@, "-"@, "*"@, "/"@, "^"@, "sin"@, "cos"@, "tan"@, "sec"@, "ln"@, "exp"@, "arcsin"@, "arccos"@, "arctan"@,
    ]
}

/// The texts of the calculus rules, each a pair of sides.
pub open spec fn calculus_texts() -> Seq<(Seq<char>, Seq<char>)> {
    seq![
        ("(+ $0 0)"@, "$0"@),
        ("(* $0 1)"@, "$0"@),
        ("(* $0 0)"@, "0"@),
        ("(^ $0 1)"@, "$0"@),
        ("(+ $0 $1)"@, "(+ $1 $0)"@),
        ("(* $0 $1)"@, "(* $1 $0)"@),
        ("(+ (+ $0 $1) $2)"@, "(+ $0 (+ $1 $2))"@),
        ("(* (* $0 $1) $2)"@, "(* $0 (* $1 $2))"@),
        ("(+ (^ (sin $0) 2) (^ (cos $0) 2))"@, "1"@),
        ("(sin (+ $0 $1))"@, "(+ (* (sin $0) (cos $1)) (* (cos $0) (sin $1)))"@),
        ("(cos (+ $0 $1))"@, "(- (* (cos $0) (cos $1)) (* (sin $0) (sin $1)))"@),
        ("(sin (- $0 $1))"@, "(- (* (sin $0) (cos $1)) (* (cos $0) (sin $1)))"@),
        ("(cos (- $0 $1))"@, "(+ (* (cos $0) (cos $1)) (* (sin $0) (sin $1)))"@),
        ("(tan $0)"@, "(/ (sin $0) (cos $0))"@),
    ]
}

/// Parses the rule `from -> to` and appends it to `rules`.
fn push_rule(rules: &mut Vec<Rule>, from: &str, to: &str, language: &Language) -> (r: Result<(), ParseError>)
    ensures
        match rule_parse(from@, to@, language.names()) {
            Ok(rv) => r is Ok && rule_views(final(rules)@) == rule_views(old(rules)@).push(rv),
            Err(err) => r == Err::<(), ParseError>(err) && final(rules)@ == old(rules)@,
        },
{
    match Rule::from_strings(from, to, language) {
        Ok(rule) => {
            let ghost before = rules@;
            rules.push(rule);
            proof {
                assert(rule_views(rules@) =~= rule_views(before).push(rule@));
            }
            Ok(())
        },
        Err(err) => Err(err),
    }
}

/// The system of arithmetic, trigonometric and calculus rules over the
/// operators `+ - * / ^`, the functions `sin cos tan sec`, and `ln exp arcsin
/// arccos arctan`; an error if one of its rules does not parse.
#[verifier::spinoff_prover]
pub fn calculus() -> (r: Result<TermRewritingSystem, ParseError>)
    ensures
        match parse_rules(calculus_texts(), calculus_names()) {
            Ok(rs) => r matches Ok(trs) && trs.language_view().names() == calculus_names() && trs.rules_view() == rs,
            Err(err) => r == Err::<TermRewritingSystem, ParseError>(err),
        },
{
    let lang = Language::new()
        .add_symbol("+")
        .add_symbol("-")
        .add_symbol("*")
        .add_symbol("/")
        .add_symbol("^")
        .add_symbol("sin")
        .add_symbol("cos")
        .add_symbol("tan")
        .add_symbol("sec")
        .add_symbol("ln")
        .add_symbol("exp")
        .add_symbol("arcsin")
        .add_symbol("arccos")
        .add_symbol("arctan");
    assert(lang.names() =~= calculus_names());
    let mut rules: Vec<Rule> = Vec::new();
    let ghost mut done: Seq<(Seq<char>, Seq<char>)> = Seq::empty();
    proof {
        assert(rule_views(rules@) =~= Seq::<(Term, Term)>::empty());
        reveal(parse_rules);
        assert(parse_rules(done, lang.names()) == Ok::<Seq<(Term, Term)>, ParseError>(rule_views(rules@)));
    }
    match push_rule(&mut rules, "(+ $0 0)", "$0", &lang) {
        Ok(()) => {},
        Err(err) => {
            proof {
                let pre = done.push(("(+ $0 0)"@, "$0"@));
                assert(pre =~= calculus_texts().take(1));
                lemma_parse_rules_push(done, ("(+ $0 0)"@, "$0"@), lang.names());
                lemma_parse_rules_err(pre, calculus_texts(), lang.names());
            }
            return Err(err);
        },
    }
    proof {
        lemma_parse_rules_push(done, ("(+ $0 0)"@, "$0"@), lang.names());
        done = done.push(("(+ $0 0)"@, "$0"@));
        assert(parse_rules(done, lang.names()) == Ok::<Seq<(Term, Term)>, ParseError>(rule_views(rules@)));
    }
    match push_rule(&mut rules, "(* $0 1)", "$0", &lang) {
        Ok(()) => {},
        Err(err) => {
            proof {
                let pre = done.push(("(* $0 1)"@, "$0"@));
                assert(pre =~= calculus_texts().take(2));
                lemma_parse_rules_push(done, ("(* $0 1)"@, "$0"@), lang.names());
                lemma_parse_rules_err(pre, calculus_texts(), lang.names());
            }
            return Err(err);
        },
    }
    proof {
        lemma_parse_rules_push(done, ("(* $0 1)"@, "$0"@), lang.names());
        done = done.push(("(* $0 1)"@, "$0"@));
        assert(parse_rules(done, lang.names()) == Ok::<Seq<(Term, Term)>, ParseError>(rule_views(rules@)));
    }
    match push_rule(&mut rules, "(* $0 0)", "0", &lang) {
        Ok(()) => {},
        Err(err) => {
            proof {
                let pre = done.push(("(* $0 0)"@, "0"@));
                assert(pre =~= calculus_texts().take(3));
                lemma_parse_rules_push(done, ("(* $0 0)"@, "0"@), lang.names());
                lemma_parse_rules_err(pre, calculus_texts(), lang.names());
            }
            return Err(err);
        },
    }
    proof {
        lemma_parse_rules_push(done, ("(* $0 0)"@, "0"@), lang.names());
        done = done.push(("(* $0 0)"@, "0"@));
        assert(parse_rules(done, lang.names()) == Ok::<Seq<(Term, Term)>, ParseError>(rule_views(rules@)));
    }
    match push_rule(&mut rules, "(^ $0 1)", "$0", &lang) {
        Ok(()) => {},
        Err(err) => {
            proof {
                let pre = done.push(("(^ $0 1)"@, "$0"@));
                assert(pre =~= calculus_texts().take(4));
                lemma_parse_rules_push(done, ("(^ $0 1)"@, "$0"@), lang.names());
                lemma_parse_rules_err(pre, calculus_texts(), lang.names());
            }
            return Err(err);
        },
    }
    proof {
        lemma_parse_rules_push(done, ("(^ $0 1)"@, "$0"@), lang.names());
        done = done.push(("(^ $0 1)"@, "$0"@));
        assert(parse_rules(done, lang.names()) == Ok::<Seq<(Term, Term)>, ParseError>(rule_views(rules@)));
    }
    match push_rule(&mut rules, "(+ $0 $1)", "(+ $1 $0)", &lang) {
        Ok(()) => {},
        Err(err) => {
            proof {
                let pre = done.push(("(+ $0 $1)"@, "(+ $1 $0)"@));
                assert(pre =~= calculus_texts().take(5));
                lemma_parse_rules_push(done, ("(+ $0 $1)"@, "(+ $1 $0)"@), lang.names());
                lemma_parse_rules_err(pre, calculus_texts(), lang.names());
            }
            return Err(err);
        },
    }
    proof {
        lemma_parse_rules_push(done, ("(+ $0 $1)"@, "(+ $1 $0)"@), lang.names());
        done = done.push(("(+ $0 $1)"@, "(+ $1 $0)"@));
        assert(parse_rules(done, lang.names()) == Ok::<Seq<(Term, Term)>, ParseError>(rule_views(rules@)));
    }
    match push_rule(&mut rules, "(* $0 $1)", "(* $1 $0)", &lang) {
        Ok(()) => {},
        Err(err) => {
            proof {
                let pre = done.push(("(* $0 $1)"@, "(* $1 $0)"@));
                assert(pre =~= calculus_texts().take(6));
                lemma_parse_rules_push(done, ("(* $0 $1)"@, "(* $1 $0)"@), lang.names());
                lemma_parse_rules_err(pre, calculus_texts(), lang.names());
            }
            return Err(err);
        },
    }
    proof {
        lemma_parse_rules_push(done, ("(* $0 $1)"@, "(* $1 $0)"@), lang.names());
        done = done.push(("(* $0 $1)"@, "(* $1 $0)"@));
        assert(parse_rules(done, lang.names()) == Ok::<Seq<(Term, Term)>, ParseError>(rule_views(rules@)));
    }
    match push_rule(&mut rules, "(+ (+ $0 $1) $2)", "(+ $0 (+ $1 $2))", &lang) {
        Ok(()) => {},
        Err(err) => {
            proof {
                let pre = done.push(("(+ (+ $0 $1) $2)"@, "(+ $0 (+ $1 $2))"@));
                assert(pre =~= calculus_texts().take(7));
                lemma_parse_rules_push(done, ("(+ (+ $0 $1) $2)"@, "(+ $0 (+ $1 $2))"@), lang.names());
                lemma_parse_rules_err(pre, calculus_texts(), lang.names());
            }
            return Err(err);
        },
    }
    proof {
        lemma_parse_rules_push(done, ("(+ (+ $0 $1) $2)"@, "(+ $0 (+ $1 $2))"@), lang.names());
        done = done.push(("(+ (+ $0 $1) $2)"@, "(+ $0 (+ $1 $2))"@));
        assert(parse_rules(done, lang.names()) == Ok::<Seq<(Term, Term)>, ParseError>(rule_views(rules@)));
    }
    match push_rule(&mut rules, "(* (* $0 $1) $2)", "(* $0 (* $1 $2))", &lang) {
        Ok(()) => {},
        Err(err) => {
            proof {
                let pre = done.push(("(* (* $0 $1) $2)"@, "(* $0 (* $1 $2))"@));
                assert(pre =~= calculus_texts().take(8));
                lemma_parse_rules_push(done, ("(* (* $0 $1) $2)"@, "(* $0 (* $1 $2))"@), lang.names());
                lemma_parse_rules_err(pre, calculus_texts(), lang.names());
            }
            return Err(err);
        },
    }
    proof {
        lemma_parse_rules_push(done, ("(* (* $0 $1) $2)"@, "(* $0 (* $1 $2))"@), lang.names());
        done = done.push(("(* (* $0 $1) $2)"@, "(* $0 (* $1 $2))"@));
        assert(parse_rules(done, lang.names()) == Ok::<Seq<(Term, Term)>, ParseError>(rule_views(rules@)));
    }
    match push_rule(&mut rules, "(+ (^ (sin $0) 2) (^ (cos $0) 2))", "1", &lang) {
        Ok(()) => {},
        Err(err) => {
            proof {
                let pre = done.push(("(+ (^ (sin $0) 2) (^ (cos $0) 2))"@, "1"@));
                assert(pre =~= calculus_texts().take(9));
                lemma_parse_rules_push(done, ("(+ (^ (sin $0) 2) (^ (cos $0) 2))"@, "1"@), lang.names());
                lemma_parse_rules_err(pre, calculus_texts(), lang.names());
            }
            return Err(err);
        },
    }
    proof {
        lemma_parse_rules_push(done, ("(+ (^ (sin $0) 2) (^ (cos $0) 2))"@, "1"@), lang.names());
        done = done.push(("(+ (^ (sin $0) 2) (^ (cos $0) 2))"@, "1"@));
        assert(parse_rules(done, lang.names()) == Ok::<Seq<(Term, Term)>, ParseError>(rule_views(rules@)));
    }
    match push_rule(&mut rules, "(sin (+ $0 $1))", "(+ (* (sin $0) (cos $1)) (* (cos $0) (sin $1)))", &lang) {
        Ok(()) => {},
        Err(err) => {
            proof {
                let pre = done.push(("(sin (+ $0 $1))"@, "(+ (* (sin $0) (cos $1)) (* (cos $0) (sin $1)))"@));
                assert(pre =~= calculus_texts().take(10));
                lemma_parse_rules_push(done, ("(sin (+ $0 $1))"@, "(+ (* (sin $0) (cos $1)) (* (cos $0) (sin $1)))"@), lang.names());
                lemma_parse_rules_err(pre, calculus_texts(), lang.names());
            }
            return Err(err);
        },
    }
    proof {
        lemma_parse_rules_push(done, ("(sin (+ $0 $1))"@, "(+ (* (sin $0) (cos $1)) (* (cos $0) (sin $1)))"@), lang.names());
        done = done.push(("(sin (+ $0 $1))"@, "(+ (* (sin $0) (cos $1)) (* (cos $0) (sin $1)))"@));
        assert(parse_rules(done, lang.names()) == Ok::<Seq<(Term, Term)>, ParseError>(rule_views(rules@)));
    }
    match push_rule(&mut rules, "(cos (+ $0 $1))", "(- (* (cos $0) (cos $1)) (* (sin $0) (sin $1)))", &lang) {
        Ok(()) => {},
        Err(err) => {
            proof {
                let pre = done.push(("(cos (+ $0 $1))"@, "(- (* (cos $0) (cos $1)) (* (sin $0) (sin $1)))"@));
                assert(pre =~= calculus_texts().take(11));
                lemma_parse_rules_push(done, ("(cos (+ $0 $1))"@, "(- (* (cos $0) (cos $1)) (* (sin $0) (sin $1)))"@), lang.names());
                lemma_parse_rules_err(pre, calculus_texts(), lang.names());
            }
            return Err(err);
        },
    }
    proof {
        lemma_parse_rules_push(done, ("(cos (+ $0 $1))"@, "(- (* (cos $0) (cos $1)) (* (sin $0) (sin $1)))"@), lang.names());
        done = done.push(("(cos (+ $0 $1))"@, "(- (* (cos $0) (cos $1)) (* (sin $0) (sin $1)))"@));
        assert(parse_rules(done, lang.names()) == Ok::<Seq<(Term, Term)>, ParseError>(rule_views(rules@)));
    }
    match push_rule(&mut rules, "(sin (- $0 $1))", "(- (* (sin $0) (cos $1)) (* (cos $0) (sin $1)))", &lang) {
        Ok(()) => {},
        Err(err) => {
            proof {
                let pre = done.push(("(sin (- $0 $1))"@, "(- (* (sin $0) (cos $1)) (* (cos $0) (sin $1)))"@));
                assert(pre =~= calculus_texts().take(12));
                lemma_parse_rules_push(done, ("(sin (- $0 $1))"@, "(- (* (sin $0) (cos $1)) (* (cos $0) (sin $1)))"@), lang.names());
                lemma_parse_rules_err(pre, calculus_texts(), lang.names());
            }
            return Err(err);
        },
    }
    proof {
        lemma_parse_rules_push(done, ("(sin (- $0 $1))"@, "(- (* (sin $0) (cos $1)) (* (cos $0) (sin $1)))"@), lang.names());
        done = done.push(("(sin (- $0 $1))"@, "(- (* (sin $0) (cos $1)) (* (cos $0) (sin $1)))"@));
        assert(parse_rules(done, lang.names()) == Ok::<Seq<(Term, Term)>, ParseError>(rule_views(rules@)));
    }
    match push_rule(&mut rules, "(cos (- $0 $1))", "(+ (* (cos $0) (cos $1)) (* (sin $0) (sin $1)))", &lang) {
        Ok(()) => {},
        Err(err) => {
            proof {
                let pre = done.push(("(cos (- $0 $1))"@, "(+ (* (cos $0) (cos $1)) (* (sin $0) (sin $1)))"@));
                assert(pre =~= calculus_texts().take(13));
                lemma_parse_rules_push(done, ("(cos (- $0 $1))"@, "(+ (* (cos $0) (cos $1)) (* (sin $0) (sin $1)))"@), lang.names());
                lemma_parse_rules_err(pre, calculus_texts(), lang.names());
            }
            return Err(err);
        },
    }
    proof {
        lemma_parse_rules_push(done, ("(cos (- $0 $1))"@, "(+ (* (cos $0) (cos $1)) (* (sin $0) (sin $1)))"@), lang.names());
        done = done.push(("(cos (- $0 $1))"@, "(+ (* (cos $0) (cos $1)) (* (sin $0) (sin $1)))"@));
        assert(parse_rules(done, lang.names()) == Ok::<Seq<(Term, Term)>, ParseError>(rule_views(rules@)));
    }
    match push_rule(&mut rules, "(tan $0)", "(/ (sin $0) (cos $0))", &lang) {
        Ok(()) => {},
        Err(err) => {
            proof {
                let pre = done.push(("(tan $0)"@, "(/ (sin $0) (cos $0))"@));
                assert(pre =~= calculus_texts().take(14));
                lemma_parse_rules_push(done, ("(tan $0)"@, "(/ (sin $0) (cos $0))"@), lang.names());
                lemma_parse_rules_err(pre, calculus_texts(), lang.names());
            }
            return Err(err);
        },
    }
    proof {
        lemma_parse_rules_push(done, ("(tan $0)"@, "(/ (sin $0) (cos $0))"@), lang.names());
        done = done.push(("(tan $0)"@, "(/ (sin $0) (cos $0))"@));
        assert(parse_rules(done, lang.names()) == Ok::<Seq<(Term, Term)>, ParseError>(rule_views(rules@)));
    }
    proof {
        assert(done =~= calculus_texts());
    }
    Ok(TermRewritingSystem::new(lang, rules))
}

/// The texts of pairs of strings.
pub open spec fn text_pairs(texts: Seq<(String, String)>) -> Seq<(Seq<char>, Seq<char>)> {
    texts.map_values(|p: (String, String)| (p.0@, p.1@))
}

impl TermRewritingSystem {
    /// The system over `language` of the rules whose sides are read from the
    /// pairs of texts `texts`, in order; the first error met reading them if
    /// one does not parse.
    pub fn from_rule_texts(language: Language, texts: &[(String, String)]) -> (r: Result<Self, ParseError>)
        ensures
            match parse_rules(text_pairs(texts@), language.names()) {
                Ok(rs) => r matches Ok(trs) && trs.language_view() == language && trs.rules_view() == rs,
                Err(err) => r == Err::<TermRewritingSystem, ParseError>(err),
            },
    {
        let mut rules: Vec<Rule> = Vec::new();
        proof {
            reveal(parse_rules);
            assert(text_pairs(texts@).take(0) =~= Seq::<(Seq<char>, Seq<char>)>::empty());
            assert(rule_views(rules@) =~= Seq::<(Term, Term)>::empty());
        }
        let mut i: usize = 0;
        while i < texts.len()
            invariant
                i <= texts@.len(),
                parse_rules(text_pairs(texts@).take(i as int), language.names()) == Ok::<Seq<(Term, Term)>, ParseError>(
                    rule_views(rules@),
                ),
            decreases texts@.len() - i,
        {
            let ghost done = text_pairs(texts@).take(i as int);
            let ghost pair = text_pairs(texts@)[i as int];
            proof {
                assert(text_pairs(texts@).take(i + 1) =~= done.push(pair));
                lemma_parse_rules_push(done, pair, language.names());
            }
            match push_rule(&mut rules, texts[i].0.as_str(), texts[i].1.as_str(), &language) {
                Ok(()) => {},
                Err(err) => {
                    proof {
                        lemma_parse_rules_err(done.push(pair), text_pairs(texts@), language.names());
                    }
                    return Err(err);
                },
            }
            i = i + 1;
        }
        proof {
            assert(text_pairs(texts@).take(i as int) =~= text_pairs(texts@));
        }
        Ok(TermRewritingSystem::new(language, rules))
    }
}

} // verus!
