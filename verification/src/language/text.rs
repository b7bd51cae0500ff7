//! Writing expressions as text in the syntax that `Language::parse` reads:
//! `(name child ...)` for a symbol, `$n` for a variable, `-3` for an integer
//! and `4u` for an unsigned integer.

use vstd::prelude::*;

use crate::language::expression::{lemma_expr_view, symbols_below, Expression, Literal, Term};
use crate::language::parse::{
    all_digits, atom_term, digits_value, first_index, is_delimiter, is_digit, is_space, lemma_first_index,
    parse_children, parse_spec, parse_term, space_end, token_end,
};
use crate::language::table::{decimal, decimal_chars, digit, signed_decimal, signed_decimal_chars, string_from_chars};
use crate::language::Language;

verus! {

broadcast use vstd::std_specs::vec::group_vec_axioms, vstd::seq::group_seq_axioms;

/// The text of `t`, with the symbol names `names`.
pub open spec fn term_text(t: Term, names: Seq<Seq<char>>) -> Seq<char>
    decreases t,
{
    match t {
        Term::Lit(Literal::Int(v)) => signed_decimal(v),
        Term::Lit(Literal::UInt(v)) => decimal(v as nat) + seq!['u'],
        Term::Var(v) => seq!['$'] + decimal(v as nat),
        Term::Sym(id, cs) => seq!['('] + names[id as int] + children_text(cs, names, cs.len() as int) + seq![')'],
    }
}

/// The texts of the first `n` terms of `cs`, each after a space.
pub open spec fn children_text(cs: Seq<Term>, names: Seq<Seq<char>>, n: int) -> Seq<char>
    decreases cs, n,
{
    if n <= 0 || n > cs.len() {
        Seq::empty()
    } else {
        children_text(cs, names, n - 1) + seq![' '] + term_text(cs[n - 1], names)
    }
}

/// Lemma: the decimal text of `n` is a non-empty string of digits whose value is `n`.
pub proof fn lemma_decimal(n: nat)
    ensures
        decimal(n).len() >= 1,
        all_digits(decimal(n)),
        digits_value(decimal(n)) == n,
    decreases n,
{
    if n < 10 {
        let s = decimal(n);
        assert(s.drop_last() =~= Seq::<char>::empty());
        assert(is_digit(digit(n)));
        assert(digits_value(s) == digits_value(s.drop_last()) * 10 + ((s.last() as int - '0' as int) as nat));
    } else {
        lemma_decimal(n / 10);
        let s = decimal(n);
        let prev = decimal(n / 10);
        assert(s.drop_last() =~= prev);
        assert(s.last() == digit(n % 10));
        assert(is_digit(digit(n % 10)));
        assert forall|i: int| 0 <= i < s.len() implies is_digit(#[trigger] s[i]) by {
            if i < prev.len() {
                assert(s[i] == prev[i]);
            }
        }
        assert((n / 10) * 10 + n % 10 == n);
    }
}

/// `true` when no character of `s` is a delimiter.
pub open spec fn no_delimiters(s: Seq<char>) -> bool {
    forall|i: int| 0 <= i < s.len() ==> !is_delimiter(#[trigger] s[i])
}

/// `true` when the names can be written and read back: each is non-empty, has
/// no delimiter, and differs from the names before it.
pub open spec fn names_ok(names: Seq<Seq<char>>) -> bool {
    forall|i: int|
        0 <= i < names.len() ==> {
            &&& #[trigger] names[i].len() > 0
            &&& no_delimiters(names[i])
            &&& forall|j: int| 0 <= j < i ==> names[j] != names[i]
        }
}

/// Lemma: the text of a term is not empty and does not start with white space
/// or `)`; the text of an application starts with `(`, and the text of
/// anything else has no delimiter and reads back as the term.
proof fn lemma_text_shape(t: Term, names: Seq<Seq<char>>)
    ensures
        term_text(t, names).len() >= 1,
        !is_space(term_text(t, names)[0]),
        term_text(t, names)[0] != ')',
        t is Sym ==> term_text(t, names)[0] == '(',
        !(t is Sym) ==> term_text(t, names)[0] != '(' && no_delimiters(term_text(t, names)) && atom_term(
            term_text(t, names),
            names,
        ) == Some(t),
{
    let tt = term_text(t, names);
    match t {
        Term::Lit(Literal::Int(v)) => {
            if v < 0 {
                let d = decimal((-v) as nat);
                lemma_decimal((-v) as nat);
                assert(tt == seq!['-'] + d);
                assert(tt.drop_first() =~= d);
                assert(is_digit(d[d.len() - 1]));
                assert(tt.last() == d[d.len() - 1]);
                assert forall|i: int| 0 <= i < tt.len() implies !is_delimiter(#[trigger] tt[i]) by {
                    if i > 0 {
                        assert(tt[i] == d[i - 1]);
                        assert(is_digit(d[i - 1]));
                    }
                }
                assert(digits_value(tt.drop_first()) == -v);
            } else {
                let d = decimal(v as nat);
                lemma_decimal(v as nat);
                assert(tt == d);
                assert(is_digit(d[0]));
                assert(is_digit(d[d.len() - 1]));
                assert forall|i: int| 0 <= i < tt.len() implies !is_delimiter(#[trigger] tt[i]) by {
                    assert(is_digit(d[i]));
                }
            }
        },
        Term::Lit(Literal::UInt(v)) => {
            let d = decimal(v as nat);
            lemma_decimal(v as nat);
            assert(tt == d + seq!['u']);
            assert(tt.drop_last() =~= d);
            assert(tt[0] == d[0]);
            assert(is_digit(d[0]));
            assert forall|i: int| 0 <= i < tt.len() implies !is_delimiter(#[trigger] tt[i]) by {
                if i < d.len() {
                    assert(tt[i] == d[i]);
                    assert(is_digit(d[i]));
                }
            }
        },
        Term::Var(v) => {
            let d = decimal(v as nat);
            lemma_decimal(v as nat);
            assert(tt == seq!['$'] + d);
            assert(tt.drop_first() =~= d);
            assert forall|i: int| 0 <= i < tt.len() implies !is_delimiter(#[trigger] tt[i]) by {
                if i > 0 {
                    assert(tt[i] == d[i - 1]);
                    assert(is_digit(d[i - 1]));
                }
            }
        },
        Term::Sym(id, cs) => {},
    }
}

/// Lemma: the texts of the first `k` children start the texts of the first `n`.
proof fn lemma_children_prefix(cs: Seq<Term>, names: Seq<Seq<char>>, k: int, n: int)
    requires
        0 <= k <= n <= cs.len(),
    ensures
        children_text(cs, names, k).len() <= children_text(cs, names, n).len(),
        children_text(cs, names, n).subrange(0, children_text(cs, names, k).len() as int) == children_text(cs, names, k),
    decreases n - k,
{
    if k < n {
        lemma_children_prefix(cs, names, k, n - 1);
        let a = children_text(cs, names, n - 1);
        let b = children_text(cs, names, n);
        let c = children_text(cs, names, k);
        assert(b == a + seq![' '] + term_text(cs[n - 1], names));
        assert(b.subrange(0, c.len() as int) =~= a.subrange(0, c.len() as int));
    } else {
        assert(children_text(cs, names, n).subrange(0, children_text(cs, names, k).len() as int) =~= children_text(cs, names, k));
    }
}

/// Where, in a text with the application of a symbol whose name has `name_len`
/// characters at `p`, the text of child `j` is preceded by its space.
pub open spec fn child_pos(p: int, name_len: int, cs: Seq<Term>, names: Seq<Seq<char>>, j: int) -> int {
    p + 1 + name_len + children_text(cs, names, j).len()
}

/// Lemma: reading the children of an application from child `k` on gives the
/// application.
proof fn lemma_children_parse(
    s: Seq<char>,
    names: Seq<Seq<char>>,
    id: crate::language::symbol::SymbolId,
    cs: Seq<Term>,
    p: int,
    name_len: int,
    k: int,
)
    requires
        0 <= k <= cs.len(),
        0 <= child_pos(p, name_len, cs, names, k),
        child_pos(p, name_len, cs, names, cs.len() as int) < s.len(),
        s[child_pos(p, name_len, cs, names, cs.len() as int)] == ')',
        forall|j: int|
            k <= j < cs.len() ==> {
                &&& s[#[trigger] child_pos(p, name_len, cs, names, j)] == ' '
                &&& !is_space(s[child_pos(p, name_len, cs, names, j) + 1])
                &&& s[child_pos(p, name_len, cs, names, j) + 1] != ')'
                &&& child_pos(p, name_len, cs, names, j) < child_pos(p, name_len, cs, names, j + 1)
                &&& parse_term(s, names, child_pos(p, name_len, cs, names, j) + 1) == Ok::<(Term, int), crate::language::parse::ParseError>(
                    (cs[j], child_pos(p, name_len, cs, names, j + 1)),
                )
            },
    ensures
        parse_children(s, names, id, child_pos(p, name_len, cs, names, k), cs.take(k)) == Ok::<(Term, int), crate::language::parse::ParseError>(
            (Term::Sym(id, cs), child_pos(p, name_len, cs, names, cs.len() as int) + 1),
        ),
    decreases cs.len() - k,
{
    let q = child_pos(p, name_len, cs, names, k);
    if k == cs.len() {
        assert(space_end(s, q) == q);
        assert(cs.take(k) =~= cs);
    } else {
        assert(s[q] == ' ');
        assert(space_end(s, q + 1) == q + 1);
        assert(space_end(s, q) == q + 1);
        let q2 = child_pos(p, name_len, cs, names, k + 1);
        assert(parse_term(s, names, q + 1) == Ok::<(Term, int), crate::language::parse::ParseError>((cs[k], q2)));
        lemma_children_parse(s, names, id, cs, p, name_len, k + 1);
        assert(cs.take(k).push(cs[k]) =~= cs.take(k + 1));
        assert(q < q2 <= s.len());
    }
}

/// Lemma: the text of `t` at `p` in `s`, followed by the end or a delimiter,
/// reads back as `t`, ending where its text ends.
proof fn lemma_parse_at(t: Term, names: Seq<Seq<char>>, s: Seq<char>, p: int)
    requires
        names_ok(names),
        symbols_below(t, names.len() as nat),
        0 <= p,
        p + term_text(t, names).len() <= s.len(),
        s.subrange(p, p + term_text(t, names).len()) == term_text(t, names),
        p + term_text(t, names).len() == s.len() || is_delimiter(s[p + term_text(t, names).len()]),
    ensures
        parse_term(s, names, p) == Ok::<(Term, int), crate::language::parse::ParseError>((t, p + term_text(t, names).len())),
    decreases t,
{
    let tt = term_text(t, names);
    let e = p + tt.len();
    lemma_text_shape(t, names);
    assert forall|i: int| 0 <= i < tt.len() implies s[p + i] == #[trigger] tt[i] by {
        assert(s.subrange(p, e)[i] == s[p + i]);
    }
    assert(s[p] == tt[0]);
    assert(space_end(s, p) == p);
    match t {
        Term::Sym(id, cs) => {
            let name = names[id as int];
            let ct = children_text(cs, names, cs.len() as int);
            let n = cs.len() as int;
            assert(tt == seq!['('] + name + ct + seq![')']);
            assert(name.len() > 0 && no_delimiters(name));
            assert forall|i: int| 0 <= i < name.len() implies s[p + 1 + i] == #[trigger] name[i] by {
                assert(tt[1 + i] == name[i]);
            }
            assert forall|i: int| 0 <= i < ct.len() implies s[p + 1 + name.len() + i] == #[trigger] ct[i] by {
                assert(tt[1 + name.len() + i] == ct[i]);
            }
            assert(s[(p + 1 + name.len() + ct.len()) as int] == ')') by {
                assert(tt[(1 + name.len() + ct.len()) as int] == ')');
            }
            assert(!is_space(s[p + 1])) by {
                assert(s[p + 1] == name[0]);
            }
            assert(space_end(s, p + 1) == p + 1);
            let ne = p + 1 + name.len();
            assert(is_delimiter(s[ne])) by {
                if n > 0 {
                    lemma_children_prefix(cs, names, 1, n);
                    let c1 = children_text(cs, names, 1);
                    assert(c1 == children_text(cs, names, 0) + seq![' '] + term_text(cs[0], names));
                    assert(c1[0] == ' ');
                    assert(ct[0] == ct.subrange(0, c1.len() as int)[0]);
                    assert(s[ne] == ct[0]);
                } else {
                    assert(ct.len() == 0);
                }
            }
            assert forall|j: int| p + 1 <= j < ne implies !is_delimiter(#[trigger] s[j]) by {
                assert(s[p + 1 + (j - p - 1)] == name[j - p - 1]);
            }
            crate::language::parse::lemma_token_end_at(s, p + 1, ne);
            assert(s.subrange(p + 1, ne) =~= name);
            lemma_first_index(names, name, id as int);
            assert forall|j: int| 0 <= j < n implies {
                &&& s[#[trigger] child_pos(p, name.len() as int, cs, names, j)] == ' '
                &&& !is_space(s[child_pos(p, name.len() as int, cs, names, j) + 1])
                &&& s[child_pos(p, name.len() as int, cs, names, j) + 1] != ')'
                &&& child_pos(p, name.len() as int, cs, names, j) < child_pos(p, name.len() as int, cs, names, j + 1)
                &&& parse_term(s, names, child_pos(p, name.len() as int, cs, names, j) + 1) == Ok::<(Term, int), crate::language::parse::ParseError>(
                    (cs[j], child_pos(p, name.len() as int, cs, names, j + 1)),
                )
            } by {
                let cj = children_text(cs, names, j);
                let cj1 = children_text(cs, names, j + 1);
                let child = term_text(cs[j], names);
                lemma_children_prefix(cs, names, j + 1, n);
                assert(cj1 == cj + seq![' '] + child);
                assert forall|i: int| 0 <= i < cj1.len() implies ct[i] == #[trigger] cj1[i] by {
                    assert(ct.subrange(0, cj1.len() as int)[i] == ct[i]);
                }
                let q = child_pos(p, name.len() as int, cs, names, j);
                assert(s[q] == ct[cj.len() as int]);
                assert(cj1[cj.len() as int] == ' ');
                lemma_text_shape(cs[j], names);
                assert(s[q + 1] == cj1[(cj.len() + 1) as int]);
                assert(cj1[(cj.len() + 1) as int] == child[0]);
                assert(s.subrange(q + 1, q + 1 + child.len()) =~= child) by {
                    assert forall|i: int| 0 <= i < child.len() implies s.subrange(q + 1, q + 1 + child.len())[i] == child[i] by {
                        assert(cj1[cj.len() + 1 + i] == child[i]);
                        assert(s[q + 1 + i] == ct[cj.len() + 1 + i]);
                    }
                }
                assert(is_delimiter(s[q + 1 + child.len()])) by {
                    if j + 1 < n {
                        lemma_children_prefix(cs, names, j + 2, n);
                        let cj2 = children_text(cs, names, j + 2);
                        assert(cj2 == cj1 + seq![' '] + term_text(cs[j + 1], names));
                        assert(cj2[cj1.len() as int] == ' ');
                        assert(ct[cj1.len() as int] == ct.subrange(0, cj2.len() as int)[cj1.len() as int]);
                    } else {
                        assert(cj1.len() == ct.len());
                    }
                }
                assert(symbols_below(cs[j], names.len() as nat));
                assert(decreases_to!(t => cs[j]));
                lemma_parse_at(cs[j], names, s, q + 1);
            }
            lemma_children_parse(s, names, id, cs, p, name.len() as int, 0);
            assert(cs.take(0) =~= Seq::<Term>::empty());
            assert(child_pos(p, name.len() as int, cs, names, n) + 1 == e);
        },
        _ => {
            assert(s[p] != '(');
            assert(s[p] != ')');
            assert forall|j: int| p <= j < e implies !is_delimiter(#[trigger] s[j]) by {
                assert(s[p + (j - p)] == tt[j - p]);
            }
            crate::language::parse::lemma_token_end_at(s, p, e);
            assert(s.subrange(p, e) == tt);
        },
    }
}

/// Law: the text of an expression whose symbols are those of a language with
/// readable names reads back as the expression.
pub proof fn lemma_text_round_trip(t: Term, names: Seq<Seq<char>>)
    requires
        names_ok(names),
        symbols_below(t, names.len() as nat),
    ensures
        parse_spec(term_text(t, names), names) == Ok::<Term, crate::language::parse::ParseError>(t),
{
    let tt = term_text(t, names);
    assert(tt.subrange(0, tt.len() as int) =~= tt);
    lemma_parse_at(t, names, tt, 0);
}

/// Appends the characters `cs` to `out`.
fn append_chars(out: &mut Vec<char>, cs: &Vec<char>)
    ensures
        final(out)@ == old(out)@ + cs@,
{
    let ghost start = out@;
    let mut i: usize = 0;
    while i < cs.len()
        invariant
            i <= cs@.len(),
            out@ == start + cs@.take(i as int),
        decreases cs.len() - i,
    {
        out.push(cs[i]);
        assert(out@ =~= start + cs@.take(i + 1));
        i = i + 1;
    }
    assert(cs@.take(cs@.len() as int) =~= cs@);
}

impl Expression {
    /// Appends the text of the expression to `out`.
    #[verifier::loop_isolation(false)]
    fn write_text(&self, language: &Language, out: &mut Vec<char>)
        requires
            symbols_below(self@, language.names().len() as nat),
        ensures
            final(out)@ == old(out)@ + term_text(self@, language.names()),
        decreases self@,
    {
        proof {
            lemma_expr_view(*self);
        }
        let ghost start = out@;
        match self {
            Expression::Literal(Literal::Int(v)) => {
                let digits = signed_decimal_chars(*v);
                append_chars(out, &digits);
            },
            Expression::Literal(Literal::UInt(v)) => {
                let digits = decimal_chars(*v);
                append_chars(out, &digits);
                out.push('u');
                assert(out@ =~= start + (decimal(*v as nat) + seq!['u']));
            },
            Expression::Variable(v) => {
                out.push('$');
                let digits = decimal_chars(*v as u64);
                append_chars(out, &digits);
                assert(out@ =~= start + (seq!['$'] + decimal(*v as nat)));
            },
            Expression::Symbol(s) => {
                let ghost cs = self@->1;
                let ghost names = language.names();
                out.push('(');
                let name = language.symbol_chars(s.id);
                append_chars(out, &name);
                let ghost head = out@;
                let mut i: usize = 0;
                while i < s.children.len()
                    invariant
                        i <= s.children@.len(),
                        cs.len() == s.children@.len(),
                        out@ == head + children_text(cs, names, i as int),
                    decreases s.children.len() - i,
                {
                    proof {
                        assert(cs[i as int] == s.children@[i as int]@);
                        assert(symbols_below(cs[i as int], names.len() as nat));
                    }
                    out.push(' ');
                    s.children[i].write_text(language, out);
                    assert(out@ =~= head + children_text(cs, names, i + 1));
                    i = i + 1;
                }
                out.push(')');
                assert(out@ =~= start + (seq!['('] + names[s.id as int] + children_text(cs, names, cs.len() as int) + seq![')']));
            },
        }
    }

    /// `true` when every symbol of the expression is one of `language`.
    #[verifier::loop_isolation(false)]
    pub fn symbols_in(&self, language: &Language) -> (r: bool)
        ensures
            r == symbols_below(self@, language.names().len() as nat),
        decreases self@,
    {
        proof {
            lemma_expr_view(*self);
        }
        match self {
            Expression::Symbol(s) => {
                if s.id >= language.symbol_count() {
                    return false;
                }
                let ghost cs = self@->1;
                let mut i: usize = 0;
                while i < s.children.len()
                    invariant
                        i <= s.children@.len(),
                        cs.len() == s.children@.len(),
                        forall|j: int| 0 <= j < i ==> symbols_below(#[trigger] cs[j], language.names().len() as nat),
                    decreases s.children.len() - i,
                {
                    proof {
                        assert(cs[i as int] == s.children@[i as int]@);
                    }
                    if !s.children[i].symbols_in(language) {
                        return false;
                    }
                    i = i + 1;
                }
                true
            },
            _ => true,
        }
    }

    /// The text of the expression in `language`, in the syntax that
    /// `Language::parse` reads; `None` when a symbol of the expression is not
    /// one of `language`.
    pub fn to_text(&self, language: &Language) -> (r: Option<String>)
        ensures
            r is Some == symbols_below(self@, language.names().len() as nat),
            r matches Some(text) ==> text@ == term_text(self@, language.names()),
    {
        if !self.symbols_in(language) {
            return None;
        }
        let mut out: Vec<char> = Vec::new();
        self.write_text(language, &mut out);
        assert(out@ =~= term_text(self@, language.names()));
        Some(string_from_chars(out.as_slice()))
    }
}

} // verus!
