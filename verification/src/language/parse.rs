//! Reading expressions from their textual form.
//!
//! The grammar: an expression is an atom or `(name child ...)`. An atom is a
//! variable (`$n` or `xn`), an unsigned literal (`7u`), a signed literal (`5`,
//! `-10`), or the name of a symbol applied to no children. Atoms are separated
//! by white space and parentheses.

use vstd::prelude::*;

use super::expression::{is_var_free, lemma_expr_view, symbols_below, Expression, Literal, Term, VarFreeExpression};
use super::symbol::{Symbol, SymbolId};
use super::table::Language;

verus! {

broadcast use vstd::std_specs::vec::group_vec_axioms, vstd::seq::group_seq_axioms;

/// Why a text is not an expression of a language.
#[derive(Debug, Clone, Copy, PartialEq, Eq, Structural)]
pub enum ParseError {
    /// The text ended inside an expression.
    UnexpectedEnd,
    /// A character that cannot start what was expected, at the given position.
    UnexpectedChar(usize),
    /// An atom that is neither a literal, a variable nor a symbol name, at the given position.
    UnknownAtom(usize),
    /// Text is left after the expression, at the given position.
    TrailingInput(usize),
    /// A variable occurs where none is allowed.
    UnexpectedVariable,
}

/// `true` for the characters that end an atom.
pub open spec fn is_delimiter(c: char) -> bool {
    c == ' ' || c == '\n' || c == '\t' || c == '\r' || c == '(' || c == ')'
}

/// `true` for white space.
pub open spec fn is_space(c: char) -> bool {
    c == ' ' || c == '\n' || c == '\t' || c == '\r'
}

pub open spec fn is_digit(c: char) -> bool {
    '0' <= c <= '9'
}

/// `true` when `s` is a non-empty string of decimal digits.
pub open spec fn all_digits(s: Seq<char>) -> bool {
    s.len() > 0 && forall|i: int| 0 <= i < s.len() ==> is_digit(#[trigger] s[i])
}

/// The number written by the decimal digits `s`.
pub open spec fn digits_value(s: Seq<char>) -> nat
    decreases s.len(),
{
    if s.len() == 0 {
        0
    } else {
        digits_value(s.drop_last()) * 10 + ((s.last() as int - '0' as int) as nat)
    }
}

/// What an atom stands for, or `None` when it stands for nothing.
pub open spec fn atom_term(tok: Seq<char>, names: Seq<Seq<char>>) -> Option<Term> {
    if tok.len() >= 2 && (tok[0] == '$' || tok[0] == 'x') && all_digits(tok.drop_first()) {
        if digits_value(tok.drop_first()) <= usize::MAX {
            Some(Term::Var(digits_value(tok.drop_first()) as usize))
        } else {
            None
        }
    } else if tok.len() >= 2 && tok.last() == 'u' && all_digits(tok.drop_last()) {
        if digits_value(tok.drop_last()) <= u64::MAX {
            Some(Term::Lit(Literal::UInt(digits_value(tok.drop_last()) as u64)))
        } else {
            None
        }
    } else if tok.len() >= 2 && tok[0] == '-' && all_digits(tok.drop_first()) {
        if digits_value(tok.drop_first()) <= 0x8000_0000_0000_0000 {
            Some(Term::Lit(Literal::Int((-digits_value(tok.drop_first())) as i64)))
        } else {
            None
        }
    } else if all_digits(tok) {
        if digits_value(tok) <= i64::MAX {
            Some(Term::Lit(Literal::Int(digits_value(tok) as i64)))
        } else {
            None
        }
    } else if first_index(names, tok) >= 0 {
        Some(Term::Sym(first_index(names, tok) as usize, Seq::empty()))
    } else {
        None
    }
}

proof fn lemma_atom_symbols(tok: Seq<char>, names: Seq<Seq<char>>)
    ensures
        atom_term(tok, names) matches Some(t) ==> symbols_below(t, names.len()),
{
    lemma_first_index_bound(names, tok);
    if atom_term(tok, names) is Some && atom_term(tok, names)->0 is Sym {
        let t = atom_term(tok, names)->0;
        assert(t->1 =~= Seq::<Term>::empty());
    }
}

proof fn lemma_digits_prefix(s: Seq<char>, k: int)
    requires
        0 <= k <= s.len(),
    ensures
        digits_value(s.take(k)) <= digits_value(s),
    decreases s.len(),
{
    if k < s.len() {
        assert(s.drop_last().take(k) =~= s.take(k));
        lemma_digits_prefix(s.drop_last(), k);
    } else {
        assert(s.take(k) =~= s);
    }
}

/// The index of the first name equal to `tok`, or `-1` when there is none.
pub open spec fn first_index(names: Seq<Seq<char>>, tok: Seq<char>) -> int
    decreases names.len(),
{
    if names.len() == 0 {
        -1
    } else if first_index(names.drop_last(), tok) >= 0 {
        first_index(names.drop_last(), tok)
    } else if names.last() == tok {
        names.len() - 1
    } else {
        -1
    }
}

proof fn lemma_first_index_bound(names: Seq<Seq<char>>, tok: Seq<char>)
    ensures
        -1 <= first_index(names, tok) < names.len(),
    decreases names.len(),
{
    if names.len() > 0 {
        lemma_first_index_bound(names.drop_last(), tok);
    }
}

pub proof fn lemma_first_index(names: Seq<Seq<char>>, tok: Seq<char>, i: int)
    requires
        0 <= i < names.len(),
        names[i] == tok,
        forall|j: int| 0 <= j < i ==> names[j] != tok,
    ensures
        first_index(names, tok) == i,
    decreases names.len(),
{
    if i < names.len() - 1 {
        lemma_first_index(names.drop_last(), tok, i);
    } else {
        lemma_first_index_none(names.drop_last(), tok);
    }
}

pub proof fn lemma_first_index_none(names: Seq<Seq<char>>, tok: Seq<char>)
    requires
        forall|j: int| 0 <= j < names.len() ==> names[j] != tok,
    ensures
        first_index(names, tok) == -1,
    decreases names.len(),
{
    if names.len() > 0 {
        lemma_first_index_none(names.drop_last(), tok);
    }
}

/// The index of the first character from `i` on that is not white space (or
/// the end).
pub open spec fn space_end(cs: Seq<char>, i: int) -> int
    decreases cs.len() - i,
{
    if 0 <= i < cs.len() && is_space(cs[i]) {
        space_end(cs, i + 1)
    } else {
        i
    }
}

/// The index of the first delimiter from `i` on (or the end).
pub open spec fn token_end(cs: Seq<char>, i: int) -> int
    decreases cs.len() - i,
{
    if 0 <= i < cs.len() && !is_delimiter(cs[i]) {
        token_end(cs, i + 1)
    } else {
        i
    }
}

/// Lemma: skipping white space or a token moves forward and stays in the text.
pub proof fn lemma_space_token_end(cs: Seq<char>, i: int)
    requires
        0 <= i <= cs.len(),
    ensures
        i <= space_end(cs, i) <= cs.len(),
        i <= token_end(cs, i) <= cs.len(),
    decreases cs.len() - i,
{
    if i < cs.len() {
        lemma_space_token_end(cs, i + 1);
    }
}

/// Lemma: an index with only white space before it from `i`, and no white
/// space at it, is where the white space from `i` ends.
pub proof fn lemma_space_end_at(cs: Seq<char>, i: int, r: int)
    requires
        0 <= i <= r <= cs.len(),
        forall|j: int| i <= j < r ==> is_space(#[trigger] cs[j]),
        r < cs.len() ==> !is_space(cs[r]),
    ensures
        space_end(cs, i) == r,
    decreases r - i,
{
    if i < r {
        lemma_space_end_at(cs, i + 1, r);
    }
}

/// Lemma: the same for the end of a token.
pub proof fn lemma_token_end_at(cs: Seq<char>, i: int, r: int)
    requires
        0 <= i <= r <= cs.len(),
        forall|j: int| i <= j < r ==> !is_delimiter(#[trigger] cs[j]),
        r < cs.len() ==> is_delimiter(cs[r]),
    ensures
        token_end(cs, i) == r,
    decreases r - i,
{
    if i < r {
        lemma_token_end_at(cs, i + 1, r);
    }
}

/// The expression read from `cs` at `start` (after optional white space), with
/// the index just past it: an atom (see `atom_term`), or `(`, a symbol name,
/// the children and `)`.
pub open spec fn parse_term(cs: Seq<char>, names: Seq<Seq<char>>, start: int) -> Result<(Term, int), ParseError>
    decreases cs.len() - start, 0int,
{
    if start < 0 || start > cs.len() {
        Err(ParseError::UnexpectedEnd)
    } else {
        let pos = space_end(cs, start);
        proof {
            lemma_space_token_end(cs, start);
        }
        if pos >= cs.len() {
            Err(ParseError::UnexpectedEnd)
        } else if cs[pos] == ')' {
            Err(ParseError::UnexpectedChar(pos as usize))
        } else if cs[pos] != '(' {
            let end = token_end(cs, pos);
            match atom_term(cs.subrange(pos, end), names) {
                Some(t) => Ok((t, end)),
                None => Err(ParseError::UnknownAtom(pos as usize)),
            }
        } else {
            let ns = space_end(cs, pos + 1);
            proof {
                lemma_space_token_end(cs, pos + 1);
            }
            if ns >= cs.len() {
                Err(ParseError::UnexpectedEnd)
            } else {
                let ne = token_end(cs, ns);
                proof {
                    lemma_space_token_end(cs, ns);
                }
                if ne == ns {
                    Err(ParseError::UnexpectedChar(ns as usize))
                } else if first_index(names, cs.subrange(ns, ne)) < 0 {
                    Err(ParseError::UnknownAtom(ns as usize))
                } else {
                    parse_children(cs, names, first_index(names, cs.subrange(ns, ne)) as SymbolId, ne, Seq::empty())
                }
            }
        }
    }
}

/// The children read from `cur` on, after the children `acc`, up to the `)`
/// that closes the application of symbol `id`.
pub open spec fn parse_children(
    cs: Seq<char>,
    names: Seq<Seq<char>>,
    id: SymbolId,
    cur: int,
    acc: Seq<Term>,
) -> Result<(Term, int), ParseError>
    decreases cs.len() - cur, 1int,
{
    if cur < 0 || cur > cs.len() {
        Err(ParseError::UnexpectedEnd)
    } else {
        let next = space_end(cs, cur);
        proof {
            lemma_space_token_end(cs, cur);
        }
        if next >= cs.len() {
            Err(ParseError::UnexpectedEnd)
        } else if cs[next] == ')' {
            Ok((Term::Sym(id, acc), next + 1))
        } else {
            match parse_term(cs, names, next) {
                Ok((t, after)) => if cur < after <= cs.len() {
                    parse_children(cs, names, id, after, acc.push(t))
                } else {
                    Err(ParseError::UnexpectedEnd)
                },
                Err(e) => Err(e),
            }
        }
    }
}

/// What reading the whole text `cs` gives: an expression followed only by
/// white space.
pub open spec fn parse_spec(cs: Seq<char>, names: Seq<Seq<char>>) -> Result<Term, ParseError> {
    match parse_term(cs, names, 0) {
        Ok((t, end)) => if space_end(cs, end) < cs.len() {
            Err(ParseError::TrailingInput(space_end(cs, end) as usize))
        } else {
            Ok(t)
        },
        Err(e) => Err(e),
    }
}

/// The characters of `s`.
pub(crate) fn chars_of(s: &str) -> (r: Vec<char>)
    ensures
        r@ == s@,
{
    let n = s.unicode_len();
    let mut out: Vec<char> = Vec::new();
    let mut i: usize = 0;
    while i < n
        invariant
            n == s@.len(),
            i <= n,
            out@ == s@.take(i as int),
        decreases n - i,
    {
        out.push(s.get_char(i));
        assert(out@ =~= s@.take(i + 1));
        i = i + 1;
    }
    assert(out@ =~= s@);
    out
}

/// The number written by `chars[start..end]`, when that is a string of digits whose
/// value fits in a `u64`.
fn digits_to_u64(chars: &Vec<char>, start: usize, end: usize) -> (r: Option<u64>)
    requires
        start <= end <= chars@.len(),
    ensures
        r is Some <==> (all_digits(chars@.subrange(start as int, end as int)) && digits_value(
            chars@.subrange(start as int, end as int),
        ) <= u64::MAX),
        r matches Some(v) ==> v == digits_value(chars@.subrange(start as int, end as int)),
{
    let ghost sub = chars@.subrange(start as int, end as int);
    if start == end {
        return None;
    }
    let mut value: u64 = 0;
    let mut overflow = false;
    let mut i: usize = start;
    while i < end
        invariant
            start < end <= chars@.len(),
            start <= i <= end,
            sub == chars@.subrange(start as int, end as int),
            forall|j: int| 0 <= j < i - start ==> is_digit(#[trigger] sub[j]),
            !overflow ==> value == digits_value(sub.take(i - start)),
            overflow ==> digits_value(sub.take(i - start)) > u64::MAX,
        decreases end - i,
    {
        let c = chars[i];
        if !('0' <= c && c <= '9') {
            assert(!is_digit(sub[i - start]));
            return None;
        }
        let ghost k = i - start;
        assert(sub.take(k + 1).drop_last() =~= sub.take(k));
        assert(sub.take(k + 1).last() == c);
        let d: u64 = ((c as u32) - ('0' as u32)) as u64;
        if !overflow {
            match value.checked_mul(10) {
                Some(m) => match m.checked_add(d) {
                    Some(v) => {
                        value = v;
                    },
                    None => {
                        overflow = true;
                    },
                },
                None => {
                    overflow = true;
                },
            }
        }
        i = i + 1;
    }
    assert(sub.take(end - start) =~= sub);
    if overflow {
        None
    } else {
        Some(value)
    }
}

/// `true` when `chars[start..end]` is a non-empty string of digits.
fn digits_only(chars: &Vec<char>, start: usize, end: usize) -> (r: bool)
    requires
        start <= end <= chars@.len(),
    ensures
        r == all_digits(chars@.subrange(start as int, end as int)),
{
    let ghost sub = chars@.subrange(start as int, end as int);
    if start == end {
        return false;
    }
    let mut i = start;
    while i < end
        invariant
            start <= i <= end <= chars@.len(),
            sub == chars@.subrange(start as int, end as int),
            forall|j: int| 0 <= j < i - start ==> is_digit(#[trigger] sub[j]),
        decreases end - i,
    {
        let c = chars[i];
        if !('0' <= c && c <= '9') {
            assert(!is_digit(sub[i - start]));
            return false;
        }
        i = i + 1;
    }
    true
}

/// The index just past the atom that starts at `start`.
fn atom_end(chars: &Vec<char>, start: usize) -> (r: usize)
    requires
        start <= chars@.len(),
    ensures
        start <= r <= chars@.len(),
        forall|j: int| start <= j < r ==> !is_delimiter(#[trigger] chars@[j]),
        r < chars@.len() ==> is_delimiter(chars@[r as int]),
{
    let mut i = start;
    while i < chars.len()
        invariant
            start <= i <= chars@.len(),
            forall|j: int| start <= j < i ==> !is_delimiter(#[trigger] chars@[j]),
        decreases chars@.len() - i,
    {
        let c = chars[i];
        if c == ' ' || c == '\n' || c == '\t' || c == '\r' || c == '(' || c == ')' {
            return i;
        }
        i = i + 1;
    }
    i
}

/// The index of the first character at or after `start` that is not white space.
fn skip_space(chars: &Vec<char>, start: usize) -> (r: usize)
    requires
        start <= chars@.len(),
    ensures
        start <= r <= chars@.len(),
        forall|j: int| start <= j < r ==> is_space(#[trigger] chars@[j]),
        r < chars@.len() ==> !is_space(chars@[r as int]),
{
    let mut i = start;
    while i < chars.len()
        invariant
            start <= i <= chars@.len(),
            forall|j: int| start <= j < i ==> is_space(#[trigger] chars@[j]),
        decreases chars@.len() - i,
    {
        let c = chars[i];
        if !(c == ' ' || c == '\n' || c == '\t' || c == '\r') {
            return i;
        }
        i = i + 1;
    }
    i
}

impl Language {
    /// What the atom `chars[start..end]` stands for in this language.
    fn parse_atom(&self, chars: &Vec<char>, start: usize, end: usize) -> (r: Option<Expression>)
        requires
            start < end <= chars@.len(),
        ensures
            r matches Some(e) ==> atom_term(chars@.subrange(start as int, end as int), self.names())
                == Some(e@),
            r is None ==> atom_term(chars@.subrange(start as int, end as int), self.names()) is None,
    {
        let ghost tok = chars@.subrange(start as int, end as int);
        let first = chars[start];
        let last = chars[end - 1];
        let long = end - start >= 2;
        assert(tok[0] == first && tok.last() == last);
        assert(chars@.subrange(start + 1, end as int) =~= tok.drop_first());
        assert(chars@.subrange(start as int, end - 1) =~= tok.drop_last());
        if long && (first == '$' || first == 'x') && digits_only(chars, start + 1, end) {
            return match digits_to_u64(chars, start + 1, end) {
                Some(v) => {
                    if v <= usize::MAX as u64 {
                        let e = Expression::Variable(v as usize);
                        proof {
                            lemma_expr_view(e);
                        }
                        Some(e)
                    } else {
                        None
                    }
                },
                None => None,
            };
        }
        if long && last == 'u' && digits_only(chars, start, end - 1) {
            return match digits_to_u64(chars, start, end - 1) {
                Some(v) => {
                    let e = Expression::Literal(Literal::UInt(v));
                    proof {
                        lemma_expr_view(e);
                    }
                    Some(e)
                },
                None => None,
            };
        }
        if long && first == '-' && digits_only(chars, start + 1, end) {
            return match digits_to_u64(chars, start + 1, end) {
                Some(v) => {
                    if v <= 0x8000_0000_0000_0000u64 {
                        let n: i64 = if v == 0x8000_0000_0000_0000u64 {
                            i64::MIN
                        } else {
                            -(v as i64)
                        };
                        let e = Expression::Literal(Literal::Int(n));
                        proof {
                            lemma_expr_view(e);
                        }
                        Some(e)
                    } else {
                        None
                    }
                },
                None => None,
            };
        }
        if digits_only(chars, start, end) {
            return match digits_to_u64(chars, start, end) {
                Some(v) => {
                    if v <= i64::MAX as u64 {
                        let e = Expression::Literal(Literal::Int(v as i64));
                        proof {
                            lemma_expr_view(e);
                        }
                        Some(e)
                    } else {
                        None
                    }
                },
                None => None,
            };
        }
        let name = chars_slice(chars, start, end);
        match self.try_get_id_chars(name.as_slice()) {
            Some(id) => {
                let e = Expression::Symbol(Symbol { id, children: Vec::new() });
                proof {
                    lemma_first_index(self.names(), tok, id as int);
                    lemma_expr_view(e);
                    assert(e@->1 =~= Seq::<Term>::empty());
                    assert(e@ == Term::Sym(id, Seq::empty()));
                }
                Some(e)
            },
            None => {
                proof {
                    lemma_first_index_none(self.names(), tok);
                }
                None
            },
        }
    }

    /// Reads the expression that starts at `start` (after optional white space);
    /// returns it with the index just past it.
    #[verifier::loop_isolation(false)]
    fn parse_from(&self, chars: &Vec<char>, start: usize) -> (r: Result<(Expression, usize), ParseError>)
        requires
            start <= chars@.len(),
        ensures
            match r {
                Ok((e, end)) => parse_term(chars@, self.names(), start as int) == Ok::<(Term, int), ParseError>((e@, end as int)),
                Err(err) => parse_term(chars@, self.names(), start as int) == Err::<(Term, int), ParseError>(err),
            },
            r matches Ok((e, end)) ==> start < end <= chars@.len() && symbols_below(e@, self.names().len()),
        decreases chars@.len() - start,
    {
        let ghost cs = chars@;
        let ghost names = self.names();
        let pos = skip_space(chars, start);
        proof {
            lemma_space_end_at(cs, start as int, pos as int);
        }
        if pos == chars.len() {
            return Err(ParseError::UnexpectedEnd);
        }
        let c = chars[pos];
        if c == ')' {
            return Err(ParseError::UnexpectedChar(pos));
        }
        if c != '(' {
            let end = atom_end(chars, pos);
            proof {
                lemma_token_end_at(cs, pos as int, end as int);
            }
            assert(end > pos);
            return match self.parse_atom(chars, pos, end) {
                Some(e) => {
                    proof {
                        lemma_atom_symbols(chars@.subrange(pos as int, end as int), self.names());
                    }
                    Ok((e, end))
                },
                None => Err(ParseError::UnknownAtom(pos)),
            };
        }
        let name_start = skip_space(chars, pos + 1);
        proof {
            lemma_space_end_at(cs, pos + 1, name_start as int);
        }
        if name_start == chars.len() {
            return Err(ParseError::UnexpectedEnd);
        }
        let name_end = atom_end(chars, name_start);
        proof {
            lemma_token_end_at(cs, name_start as int, name_end as int);
        }
        if name_end == name_start {
            return Err(ParseError::UnexpectedChar(name_start));
        }
        let name = chars_slice(chars, name_start, name_end);
        let id = match self.try_get_id_chars(name.as_slice()) {
            Some(id) => {
                proof {
                    lemma_first_index(names, name@, id as int);
                }
                id
            },
            None => {
                proof {
                    lemma_first_index_none(names, name@);
                }
                return Err(ParseError::UnknownAtom(name_start));
            },
        };
        let mut children: Vec<Expression> = Vec::new();
        let mut cur = name_end;
        proof {
            assert(children@.map_values(|e: Expression| e@) =~= Seq::<Term>::empty());
        }
        loop
            invariant
                start <= pos < cur <= chars@.len(),
                id < self.names().len(),
                forall|i: int| 0 <= i < children@.len() ==> symbols_below(#[trigger] children@[i]@, self.names().len()),
                parse_children(cs, names, id, cur as int, children@.map_values(|e: Expression| e@)) == parse_term(
                    cs,
                    names,
                    start as int,
                ),
            decreases chars@.len() - cur,
        {
            let next = skip_space(chars, cur);
            proof {
                lemma_space_end_at(cs, cur as int, next as int);
            }
            if next == chars.len() {
                return Err(ParseError::UnexpectedEnd);
            }
            if chars[next] == ')' {
                let ghost ts = children@.map_values(|e: Expression| e@);
                let e = Expression::Symbol(Symbol { id, children });
                proof {
                    lemma_expr_view(e);
                    assert(e@->1 =~= ts);
                    assert(e@ == Term::Sym(id, ts));
                    assert forall|i: int| 0 <= i < ts.len() implies symbols_below(#[trigger] ts[i], self.names().len()) by {
                        assert(ts[i] == children@[i]@);
                    }
                }
                return Ok((e, next + 1));
            }
            match self.parse_from(chars, next) {
                Ok((child, after)) => {
                    let ghost before = children@.map_values(|e: Expression| e@);
                    children.push(child);
                    proof {
                        assert(children@.map_values(|e: Expression| e@) =~= before.push(child@));
                    }
                    cur = after;
                },
                Err(err) => {
                    return Err(err);
                },
            }
        }
    }

    /// Reads an expression of this language.
    pub fn parse(&self, text: &str) -> (r: Result<Expression, ParseError>)
        ensures
            match r {
                Ok(e) => parse_spec(text@, self.names()) == Ok::<Term, ParseError>(e@),
                Err(err) => parse_spec(text@, self.names()) == Err::<Term, ParseError>(err),
            },
            r matches Ok(e) ==> symbols_below(e@, self.names().len()),
    {
        let chars = chars_of(text);
        match self.parse_from(&chars, 0) {
            Ok((e, end)) => {
                let rest = skip_space(&chars, end);
                proof {
                    lemma_space_end_at(chars@, end as int, rest as int);
                }
                if rest < chars.len() {
                    Err(ParseError::TrailingInput(rest))
                } else {
                    Ok(e)
                }
            },
            Err(err) => Err(err),
        }
    }

    /// Reads an expression of this language that holds no variable.
    pub fn parse_no_vars(&self, text: &str) -> (r: Result<VarFreeExpression, ParseError>)
        ensures
            match parse_spec(text@, self.names()) {
                Ok(t) => if is_var_free(t) {
                    r matches Ok(e) && e@ == t
                } else {
                    r == Err::<VarFreeExpression, ParseError>(ParseError::UnexpectedVariable)
                },
                Err(err) => r == Err::<VarFreeExpression, ParseError>(err),
            },
            r matches Ok(e) ==> symbols_below(e@, self.names().len()),
    {
        match self.parse(text) {
            Ok(e) => match e.without_variables() {
                Some(v) => Ok(v),
                None => Err(ParseError::UnexpectedVariable),
            },
            Err(err) => Err(err),
        }
    }
}

impl VarFreeExpression {
    /// The children of this expression, if it applies a symbol.
    pub fn symbol_children(&self) -> (r: Option<&Vec<VarFreeExpression>>)
        ensures
            r is Some == self@ is Sym,
            r matches Some(cs) ==> cs@.len() == self@->1.len() && forall|i: int|
                0 <= i < cs@.len() ==> #[trigger] cs@[i]@ == self@->1[i],
    {
        proof {
            super::expression::lemma_var_free_view(*self);
        }
        match self {
            VarFreeExpression::Symbol(s) => Some(&s.children),
            VarFreeExpression::Literal(_) => None,
        }
    }

    /// The children of this expression, which applies the symbol called `name` in `lang`.
    pub fn expect_symbol(&self, name: &str, lang: &Language) -> (r: &Vec<VarFreeExpression>)
        requires
            self@ is Sym,
            self@->Sym_0 < lang.names().len(),
            lang.names()[self@->Sym_0 as int] == name@,
        ensures
            r@.len() == self@->1.len(),
            forall|i: int| 0 <= i < r@.len() ==> #[trigger] r@[i]@ == self@->1[i],
    {
        self.symbol_children().unwrap()
    }
}

/// A copy of `chars[start..end]`.
fn chars_slice(chars: &Vec<char>, start: usize, end: usize) -> (r: Vec<char>)
    requires
        start <= end <= chars@.len(),
    ensures
        r@ == chars@.subrange(start as int, end as int),
{
    let mut out: Vec<char> = Vec::new();
    let mut i = start;
    while i < end
        invariant
            start <= i <= end <= chars@.len(),
            out@ == chars@.subrange(start as int, i as int),
        decreases end - i,
    {
        out.push(chars[i]);
        assert(out@ =~= chars@.subrange(start as int, i + 1));
        i = i + 1;
    }
    out
}

} // verus!
