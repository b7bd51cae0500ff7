//! Induced string rewriting: expressions and rules turned into paths over a
//! language whose symbols take at most one child.
//!
//! A symbol that takes `n > 1` children becomes `n` symbols `s_1`, ..., `s_n`
//! of one child each; a path from the root to a leaf becomes a chain of such
//! symbols ending in the leaf.

use vstd::prelude::*;

use crate::language::arities::{first_arity, Arities};
use crate::language::parse::first_index;
use crate::language::expression::{has_var, lemma_expr_view, symbols_below, Expression, Term, VariableId};
use crate::language::paths::{path_views, paths_of, subterm, OwnedPath};
use crate::language::symbol::{Symbol, SymbolId};
use crate::language::table::{decimal, decimal_chars};
use crate::language::Language;
use crate::rewriting::rule::{rule_views, Rule};

pub use crate::rewriting::abelian::{expression_to_abelian_vector, rules_to_abelian_matrix};

verus! {

broadcast use vstd::std_specs::vec::group_vec_axioms, vstd::seq::group_seq_axioms;

/// The name `name_i`.
pub open spec fn indexed_name(name: Seq<char>, i: nat) -> Seq<char> {
    name + seq!['_'] + decimal(i)
}

/// The symbols of the string language that stand for a symbol called `name`
/// of arity `arity`: itself when the arity is at most one, else one indexed
/// symbol per child.
pub open spec fn names_for(name: Seq<char>, arity: nat) -> Seq<Seq<char>> {
    if arity <= 1 {
        seq![name]
    } else {
        Seq::new(arity, |i: int| indexed_name(name, (i + 1) as nat))
    }
}

/// The arity of symbol `id`, or `default` when none is given.
pub open spec fn arity_or(entries: Seq<(SymbolId, usize)>, id: SymbolId, default: nat) -> nat {
    match first_arity(entries, id) {
        Some(a) => a as nat,
        None => default,
    }
}

/// The names of the string language for the first `k` symbols of `names`.
pub open spec fn string_names(names: Seq<Seq<char>>, arities: Seq<(SymbolId, usize)>, k: int) -> Seq<Seq<char>>
    decreases k,
{
    if k <= 0 {
        Seq::empty()
    } else {
        string_names(names, arities, k - 1) + names_for(names[k - 1], arity_or(arities, (k - 1) as SymbolId, 0))
    }
}

/// The name of the string-language symbol for child `child` of a symbol called
/// `name` of arity `arity`.
pub open spec fn string_symbol_name(name: Seq<char>, child: nat, arity: nat) -> Seq<char> {
    if arity <= 1 {
        name
    } else {
        indexed_name(name, child + 1)
    }
}

/// The chain of one-child symbols `ids` ending in `leaf`.
pub open spec fn chain(ids: Seq<SymbolId>, leaf: Term) -> Term
    decreases ids.len(),
{
    if ids.len() == 0 {
        leaf
    } else {
        Term::Sym(ids[0], seq![chain(ids.drop_first(), leaf)])
    }
}

/// The id in the string language (names `snames`) of the symbol for child
/// `child` of symbol `id` (names `names`) of arity `arity`, or `-1` when there
/// is none.
pub open spec fn string_symbol_id(names: Seq<Seq<char>>, snames: Seq<Seq<char>>, id: SymbolId, child: nat, arity: nat) -> int {
    first_index(snames, string_symbol_name(names[id as int], child, arity))
}

/// The chains of the paths from the root of `t` to each of its leaves (a
/// literal, a variable or a symbol without children), in order, each behind
/// the symbols `prefix`; `None` when a symbol needed on the way is missing
/// from the string language. Every symbol of a chain is one of the string
/// language: a leaf symbol stands there by its string-language id.
pub open spec fn paths_spec(
    t: Term,
    names: Seq<Seq<char>>,
    snames: Seq<Seq<char>>,
    arities: Seq<(SymbolId, usize)>,
    prefix: Seq<SymbolId>,
) -> Option<Seq<Term>>
    decreases t,
{
    match t {
        Term::Sym(id, cs) => if cs.len() == 0 {
            let sid = string_symbol_id(names, snames, id, 0, arity_or(arities, id, 0));
            if sid < 0 {
                None
            } else {
                Some(seq![chain(prefix, Term::Sym(sid as SymbolId, Seq::empty()))])
            }
        } else {
            children_paths(id, cs, names, snames, arities, prefix, arity_or(arities, id, cs.len()), cs.len() as int)
        },
        _ => Some(seq![chain(prefix, t)]),
    }
}

/// The chains of the paths through the first `n` children `cs` of symbol `id`
/// of arity `arity`.
pub open spec fn children_paths(
    id: SymbolId,
    cs: Seq<Term>,
    names: Seq<Seq<char>>,
    snames: Seq<Seq<char>>,
    arities: Seq<(SymbolId, usize)>,
    prefix: Seq<SymbolId>,
    arity: nat,
    n: int,
) -> Option<Seq<Term>>
    decreases cs, n,
{
    if n <= 0 || n > cs.len() {
        Some(Seq::empty())
    } else {
        match children_paths(id, cs, names, snames, arities, prefix, arity, n - 1) {
            None => None,
            Some(before) => {
                let sid = string_symbol_id(names, snames, id, (n - 1) as nat, arity);
                if sid < 0 {
                    None
                } else {
                    match paths_spec(cs[n - 1], names, snames, arities, prefix.push(sid as SymbolId)) {
                        None => None,
                        Some(more) => Some(before + more),
                    }
                }
            },
        }
    }
}

/// The string language of `lang`: each symbol of arity at most one (or of no
/// given arity) is kept, each symbol `s` of arity `n > 1` becomes `s_1`, ...,
/// `s_n`, in the order of the symbols.
pub fn to_string_language(lang: &Language, arities: &Arities) -> (r: Language)
    ensures
        r.names() == string_names(lang.names(), arities@, lang.names().len() as int),
{
    let mut string_lang = Language::new();
    let mut symbol_id: usize = 0;
    while symbol_id < lang.symbol_count()
        invariant
            symbol_id <= lang.names().len(),
            string_lang.names() == string_names(lang.names(), arities@, symbol_id as int),
        decreases lang.names().len() - symbol_id,
    {
        let name = lang.symbol_chars(symbol_id);
        let arity = match arities.get_first(symbol_id) {
            Some(a) => a,
            None => 0,
        };
        let ghost before = string_lang.names();
        if arity <= 1 {
            string_lang = string_lang.add_symbol_chars(&name);
            assert(string_lang.names() =~= before + names_for(name@, arity as nat));
        } else {
            let mut i: usize = 0;
            while i < arity
                invariant
                    i <= arity,
                    arity > 1,
                    string_lang.names() == before + Seq::new(i as nat, |j: int| indexed_name(name@, (j + 1) as nat)),
                decreases arity - i,
            {
                let indexed = indexed_chars(&name, i + 1);
                string_lang = string_lang.add_symbol_chars(&indexed);
                assert(string_lang.names() =~= before + Seq::new((i + 1) as nat, |j: int| indexed_name(name@, (j + 1) as nat)));
                i = i + 1;
            }
            assert(Seq::new(arity as nat, |j: int| indexed_name(name@, (j + 1) as nat)) =~= names_for(name@, arity as nat));
        }
        proof {
            assert(arity_or(arities@, symbol_id, 0) == arity as nat);
        }
        symbol_id = symbol_id + 1;
    }
    string_lang
}

/// The name `name_i`, as characters.
fn indexed_chars(name: &Vec<char>, i: usize) -> (r: Vec<char>)
    ensures
        r@ == indexed_name(name@, i as nat),
{
    let mut indexed = name.clone();
    indexed.push('_');
    let digits = decimal_chars(i as u64);
    let mut k: usize = 0;
    while k < digits.len()
        invariant
            k <= digits@.len(),
            digits@ == decimal(i as nat),
            indexed@ == name@ + seq!['_'] + digits@.take(k as int),
        decreases digits@.len() - k,
    {
        indexed.push(digits[k]);
        assert(digits@.take(k + 1) =~= digits@.take(k as int).push(digits@[k as int]));
        assert(indexed@ =~= name@ + seq!['_'] + digits@.take(k + 1));
        k = k + 1;
    }
    assert(digits@.take(k as int) =~= digits@);
    indexed
}

/// The id in `string_lang` of the symbol for child `child_idx` of symbol
/// `symbol_id` of `lang`, of arity `arity`; `None` when `string_lang` has no
/// such symbol.
fn to_string_symbol(
    symbol_id: SymbolId,
    child_idx: usize,
    lang: &Language,
    string_lang: &Language,
    arity: usize,
) -> (r: Option<SymbolId>)
    requires
        symbol_id < lang.names().len(),
        child_idx < usize::MAX,
    ensures
        r matches Some(i) ==> i < string_lang.names().len() && string_lang.names()[i as int] == string_symbol_name(
            lang.names()[symbol_id as int],
            child_idx as nat,
            arity as nat,
        ),
        r is None ==> !string_lang.names().contains(
            string_symbol_name(lang.names()[symbol_id as int], child_idx as nat, arity as nat),
        ),
        match r {
            Some(i) => string_symbol_id(lang.names(), string_lang.names(), symbol_id, child_idx as nat, arity as nat) == i,
            None => string_symbol_id(lang.names(), string_lang.names(), symbol_id, child_idx as nat, arity as nat) < 0,
        },
{
    let name = lang.symbol_chars(symbol_id);
    let target = if arity <= 1 {
        name
    } else {
        indexed_chars(&name, child_idx + 1)
    };
    let r = string_lang.try_get_id_chars(target.as_slice());
    proof {
        if r is None && string_lang.names().contains(target@) {
            let j = choose|j: int| 0 <= j < string_lang.names().len() && string_lang.names()[j] == target@;
            assert(string_lang.names()[j] != target@);
        }
        match r {
            Some(i) => crate::language::parse::lemma_first_index(string_lang.names(), target@, i as int),
            None => crate::language::parse::lemma_first_index_none(string_lang.names(), target@),
        }
    }
    r
}

/// The chain of one-child symbols `ids` ending in `leaf`.
fn build_path_expression(ids: &Vec<SymbolId>, leaf: Expression) -> (r: Expression)
    ensures
        r@ == chain(ids@, leaf@),
{
    let mut result = leaf;
    let mut k = ids.len();
    assert(ids@.subrange(k as int, ids@.len() as int) =~= Seq::<SymbolId>::empty());
    while k > 0
        invariant
            k <= ids@.len(),
            result@ == chain(ids@.subrange(k as int, ids@.len() as int), leaf@),
        decreases k,
    {
        k = k - 1;
        let ghost inner = result@;
        let mut children: Vec<Expression> = Vec::new();
        children.push(result);
        result = Expression::Symbol(Symbol { id: ids[k], children });
        proof {
            lemma_expr_view(result);
            let tail = ids@.subrange(k as int, ids@.len() as int);
            assert(tail.drop_first() =~= ids@.subrange(k + 1, ids@.len() as int));
            assert(result@->1 =~= seq![inner]);
        }
    }
    assert(ids@.subrange(0, ids@.len() as int) =~= ids@);
    result
}

/// The views of a list of expressions.
pub open spec fn expr_views(v: Seq<Expression>) -> Seq<Term> {
    v.map_values(|e: Expression| e@)
}

/// Appends to `paths` the chain of each path from the root of `expr` to a
/// leaf, prefixed by `current`; `false` when a needed symbol is missing from
/// `string_lang`.
#[verifier::loop_isolation(false)]
fn expression_to_paths_impl(
    expr: &Expression,
    lang: &Language,
    string_lang: &Language,
    arities: &Arities,
    current: &mut Vec<SymbolId>,
    paths: &mut Vec<Expression>,
) -> (r: bool)
    requires
        symbols_below(expr@, lang.names().len()),
    ensures
        final(current)@ == old(current)@,
        r == paths_spec(expr@, lang.names(), string_lang.names(), arities@, old(current)@) is Some,
        r ==> expr_views(final(paths)@) == expr_views(old(paths)@) + paths_spec(
            expr@,
            lang.names(),
            string_lang.names(),
            arities@,
            old(current)@,
        )->0,
    decreases expr@,
{
    proof {
        lemma_expr_view(*expr);
    }
    let ghost names = lang.names();
    let ghost snames = string_lang.names();
    let ghost start = expr_views(paths@);
    let ghost prefix = current@;
    match expr {
        Expression::Literal(lit) => {
            let leaf = Expression::Literal(*lit);
            proof {
                lemma_expr_view(leaf);
            }
            paths.push(build_path_expression(current, leaf));
            assert(expr_views(paths@) =~= start + seq![chain(prefix, expr@)]);
            true
        },
        Expression::Variable(var_id) => {
            let leaf = Expression::Variable(*var_id);
            proof {
                lemma_expr_view(leaf);
            }
            paths.push(build_path_expression(current, leaf));
            assert(expr_views(paths@) =~= start + seq![chain(prefix, expr@)]);
            true
        },
        Expression::Symbol(symbol) => {
            let ghost t = expr@;
            if symbol.children.len() == 0 {
                let leaf_arity = match arities.get_first(symbol.id) {
                    Some(a) => a,
                    None => 0,
                };
                proof {
                    assert(arity_or(arities@, symbol.id, 0) == leaf_arity as nat);
                }
                let sid = match to_string_symbol(symbol.id, 0, lang, string_lang, leaf_arity) {
                    Some(i) => i,
                    None => {
                        return false;
                    },
                };
                let leaf = Expression::Symbol(Symbol { id: sid, children: Vec::new() });
                proof {
                    lemma_expr_view(leaf);
                    assert(leaf@->1 =~= Seq::<Term>::empty());
                    assert(leaf@ == Term::Sym(sid, Seq::empty()));
                }
                paths.push(build_path_expression(current, leaf));
                assert(expr_views(paths@) =~= start + seq![chain(prefix, Term::Sym(sid, Seq::empty()))]);
                return true;
            }
            let arity = match arities.get_first(symbol.id) {
                Some(a) => a,
                None => symbol.children.len(),
            };
            proof {
                assert(arity_or(arities@, symbol.id, t->1.len()) == arity as nat);
            }
            let mut child_idx: usize = 0;
            assert(expr_views(paths@) =~= start + Seq::<Term>::empty());
            while child_idx < symbol.children.len()
                invariant
                    t == expr@,
                    t is Sym,
                    t->Sym_0 == symbol.id,
                    symbol.id < lang.names().len(),
                    symbols_below(t, lang.names().len()),
                    t->1.len() == symbol.children@.len(),
                    forall|j: int| 0 <= j < symbol.children@.len() ==> #[trigger] t->1[j] == symbol.children@[j]@,
                    child_idx <= symbol.children@.len(),
                    current@ == prefix,
                    children_paths(symbol.id, t->1, names, snames, arities@, prefix, arity as nat, child_idx as int) is Some,
                    expr_views(paths@) == start + children_paths(
                        symbol.id,
                        t->1,
                        names,
                        snames,
                        arities@,
                        prefix,
                        arity as nat,
                        child_idx as int,
                    )->0,
                decreases symbol.children@.len() - child_idx,
            {
                let indexed = match to_string_symbol(symbol.id, child_idx, lang, string_lang, arity) {
                    Some(id) => id,
                    None => {
                        proof {
                            lemma_children_paths_none(
                                symbol.id,
                                t->1,
                                names,
                                snames,
                                arities@,
                                prefix,
                                arity as nat,
                                child_idx as int + 1,
                                t->1.len() as int,
                            );
                        }
                        return false;
                    },
                };
                assert(decreases_to!(t => t->1));
                assert(decreases_to!(t->1 => t->1[child_idx as int]));
                current.push(indexed);
                let ghost before = expr_views(paths@);
                proof {
                    assert(symbols_below(t->1[child_idx as int], lang.names().len()));
                }
                let ok = expression_to_paths_impl(&symbol.children[child_idx], lang, string_lang, arities, current, paths);
                current.pop();
                proof {
                    assert(current@ =~= prefix);
                }
                if !ok {
                    proof {
                        lemma_children_paths_none(
                            symbol.id,
                            t->1,
                            names,
                            snames,
                            arities@,
                            prefix,
                            arity as nat,
                            child_idx as int + 1,
                            t->1.len() as int,
                        );
                    }
                    return false;
                }
                proof {
                    let more = paths_spec(t->1[child_idx as int], names, snames, arities@, prefix.push(indexed))->0;
                    assert(expr_views(paths@) =~= before + more);
                }
                child_idx = child_idx + 1;
            }
            true
        },
    }
}

/// Lemma: once the paths through some children are missing, those through more are too.
proof fn lemma_children_paths_none(
    id: SymbolId,
    cs: Seq<Term>,
    names: Seq<Seq<char>>,
    snames: Seq<Seq<char>>,
    arities: Seq<(SymbolId, usize)>,
    prefix: Seq<SymbolId>,
    arity: nat,
    k: int,
    n: int,
)
    requires
        0 < k <= n <= cs.len(),
        children_paths(id, cs, names, snames, arities, prefix, arity, k) is None,
    ensures
        children_paths(id, cs, names, snames, arities, prefix, arity, n) is None,
    decreases n - k,
{
    if k < n {
        lemma_children_paths_none(id, cs, names, snames, arities, prefix, arity, k + 1, n);
    }
}

/// The chains of the paths from the root of `expr` to each of its leaves, in
/// order; `None` when a needed symbol is missing from `string_lang`.
pub fn expression_to_paths(expr: &Expression, lang: &Language, string_lang: &Language, arities: &Arities) -> (r:
    Option<Vec<Expression>>)
    requires
        symbols_below(expr@, lang.names().len()),
    ensures
        r is Some == paths_spec(expr@, lang.names(), string_lang.names(), arities@, Seq::empty()) is Some,
        r matches Some(ps) ==> expr_views(ps@) == paths_spec(
            expr@,
            lang.names(),
            string_lang.names(),
            arities@,
            Seq::empty(),
        )->0,
{
    let mut paths: Vec<Expression> = Vec::new();
    let mut current: Vec<SymbolId> = Vec::new();
    assert(current@ =~= Seq::<SymbolId>::empty());
    if expression_to_paths_impl(expr, lang, string_lang, arities, &mut current, &mut paths) {
        assert(expr_views(Seq::<Expression>::empty()) =~= Seq::<Term>::empty());
        Some(paths)
    } else {
        None
    }
}

/// The positions among the first `k` of `ps` where `t` holds variable `v`.
pub open spec fn var_positions_upto(t: Term, ps: Seq<Seq<usize>>, v: VariableId, k: int) -> Seq<Seq<usize>>
    decreases k,
{
    if k <= 0 {
        Seq::empty()
    } else {
        var_positions_upto(t, ps, v, k - 1) + if subterm(t, ps[k - 1]) == Some(Term::Var(v)) {
            seq![ps[k - 1]]
        } else {
            Seq::empty()
        }
    }
}

/// The positions of `t` that hold variable `v`, in pre-order.
pub open spec fn var_positions(t: Term, v: VariableId) -> Seq<Seq<usize>> {
    var_positions_upto(t, paths_of(t), v, paths_of(t).len() as int)
}

/// The string-language symbols met on the path `p` from the root of `t`;
/// `None` when `p` is not a path of `t` through symbols or a symbol needed is
/// missing from the string language.
pub open spec fn path_ids(
    t: Term,
    p: Seq<usize>,
    names: Seq<Seq<char>>,
    snames: Seq<Seq<char>>,
    arities: Seq<(SymbolId, usize)>,
) -> Option<Seq<SymbolId>>
    decreases p.len(),
{
    if p.len() == 0 {
        Some(Seq::empty())
    } else if t is Sym && p[0] < t->1.len() {
        let sid = string_symbol_id(names, snames, t->Sym_0, p[0] as nat, arity_or(arities, t->Sym_0, t->1.len()));
        if sid < 0 {
            None
        } else {
            match path_ids(t->1[p[0] as int], p.drop_first(), names, snames, arities) {
                Some(rest) => Some(seq![sid as SymbolId] + rest),
                None => None,
            }
        }
    } else {
        None
    }
}

/// The chain of the string-language symbols met on the path `p` of `t`,
/// ending in variable `v`.
pub open spec fn path_chain(
    t: Term,
    p: Seq<usize>,
    v: VariableId,
    names: Seq<Seq<char>>,
    snames: Seq<Seq<char>>,
    arities: Seq<(SymbolId, usize)>,
) -> Option<Term> {
    match path_ids(t, p, names, snames, arities) {
        Some(ids) => Some(chain(ids, Term::Var(v))),
        None => None,
    }
}

/// The induced rules from the left position `a` of variable `v` to the first
/// `j` of its right positions `rps`.
pub open spec fn induced_row(
    l: Term,
    r: Term,
    v: VariableId,
    a: Seq<usize>,
    rps: Seq<Seq<usize>>,
    names: Seq<Seq<char>>,
    snames: Seq<Seq<char>>,
    arities: Seq<(SymbolId, usize)>,
    j: int,
) -> Option<Seq<(Term, Term)>>
    decreases j,
{
    if j <= 0 {
        Some(Seq::empty())
    } else {
        match induced_row(l, r, v, a, rps, names, snames, arities, j - 1) {
            Some(before) => match (path_chain(l, a, v, names, snames, arities), path_chain(r, rps[j - 1], v, names, snames, arities)) {
                (Some(x), Some(y)) => Some(before.push((x, y))),
                _ => None,
            },
            None => None,
        }
    }
}

/// The induced rules from the first `i` left positions `lps` of variable `v`.
pub open spec fn induced_rows(
    l: Term,
    r: Term,
    v: VariableId,
    lps: Seq<Seq<usize>>,
    rps: Seq<Seq<usize>>,
    names: Seq<Seq<char>>,
    snames: Seq<Seq<char>>,
    arities: Seq<(SymbolId, usize)>,
    i: int,
) -> Option<Seq<(Term, Term)>>
    decreases i,
{
    if i <= 0 {
        Some(Seq::empty())
    } else {
        match induced_rows(l, r, v, lps, rps, names, snames, arities, i - 1) {
            Some(before) => match induced_row(l, r, v, lps[i - 1], rps, names, snames, arities, rps.len() as int) {
                Some(row) => Some(before + row),
                None => None,
            },
            None => None,
        }
    }
}

/// The induced rules of the rule `l -> r` for the first `k` variables `vs`.
pub open spec fn induced_spec(
    l: Term,
    r: Term,
    vs: Seq<VariableId>,
    names: Seq<Seq<char>>,
    snames: Seq<Seq<char>>,
    arities: Seq<(SymbolId, usize)>,
    k: int,
) -> Option<Seq<(Term, Term)>>
    decreases k,
{
    if k <= 0 {
        Some(Seq::empty())
    } else {
        match induced_spec(l, r, vs, names, snames, arities, k - 1) {
            Some(before) => {
                let lps = var_positions(l, vs[k - 1]);
                let rps = var_positions(r, vs[k - 1]);
                match induced_rows(l, r, vs[k - 1], lps, rps, names, snames, arities, lps.len() as int) {
                    Some(more) => Some(before + more),
                    None => None,
                }
            },
            None => None,
        }
    }
}

/// The positions of `expr` that hold variable `v`, in pre-order.
fn variable_paths(expr: &Expression, v: VariableId) -> (r: Vec<OwnedPath>)
    ensures
        path_views(r@) == var_positions(expr@, v),
{
    let all = expr.iter_paths();
    let ghost ps = paths_of(expr@);
    let mut out: Vec<OwnedPath> = Vec::new();
    let mut i: usize = 0;
    assert(path_views(out@) =~= var_positions_upto(expr@, ps, v, 0));
    while i < all.len()
        invariant
            i <= all@.len(),
            path_views(all@) == ps,
            path_views(out@) == var_positions_upto(expr@, ps, v, i as int),
        decreases all@.len() - i,
    {
        proof {
            assert(all@[i as int]@ == ps[i as int]);
        }
        let ghost before = path_views(out@);
        match expr.subexpression(all[i].as_path()) {
            Some(e) => {
                proof {
                    lemma_expr_view(*e);
                }
                match e {
                    Expression::Variable(w) => {
                        if *w == v {
                            out.push(all[i].copy());
                            assert(path_views(out@) =~= before + seq![ps[i as int]]);
                        } else {
                            assert(path_views(out@) =~= before + Seq::<Seq<usize>>::empty());
                        }
                    },
                    _ => {
                        assert(path_views(out@) =~= before + Seq::<Seq<usize>>::empty());
                    },
                }
            },
            None => {
                assert(path_views(out@) =~= before + Seq::<Seq<usize>>::empty());
            },
        }
        i = i + 1;
    }
    out
}

/// The chain of the string-language symbols met on `path` from the root of
/// `expr`, ending in variable `var_id`; `None` when a needed symbol is missing
/// from `string_lang`.
fn path_to_expression(
    expr: &Expression,
    path: &OwnedPath,
    lang: &Language,
    string_lang: &Language,
    arities: &Arities,
    var_id: VariableId,
) -> (r: Option<Expression>)
    requires
        symbols_below(expr@, lang.names().len()),
    ensures
        match r {
            Some(e) => path_chain(expr@, path@, var_id, lang.names(), string_lang.names(), arities@) == Some(e@),
            None => path_chain(expr@, path@, var_id, lang.names(), string_lang.names(), arities@) is None,
        },
{
    let ghost names = lang.names();
    let ghost snames = string_lang.names();
    let mut current = expr;
    let mut ids: Vec<SymbolId> = Vec::new();
    let steps = path.as_path();
    let mut k: usize = 0;
    assert(steps@.skip(0) =~= steps@);
    assert(ids@ =~= Seq::<SymbolId>::empty());
    while k < steps.len()
        invariant
            k <= steps@.len(),
            steps@ == path@,
            names == lang.names(),
            snames == string_lang.names(),
            symbols_below(current@, lang.names().len()),
            path_ids(expr@, path@, names, snames, arities@) == match path_ids(current@, steps@.skip(k as int), names, snames, arities@) {
                Some(rest) => Some(ids@ + rest),
                None => None::<Seq<SymbolId>>,
            },
        decreases steps@.len() - k,
    {
        proof {
            lemma_expr_view(*current);
            assert(steps@.skip(k as int)[0] == steps@[k as int]);
            assert(steps@.skip(k as int).drop_first() =~= steps@.skip(k + 1));
        }
        let child_idx = steps[k];
        match current {
            Expression::Symbol(symbol) => {
                let ghost tail = steps@.skip(k as int);
                if child_idx >= symbol.children.len() {
                    assert(path_ids(current@, tail, names, snames, arities@) is None);
                    return None;
                }
                let arity = match arities.get_first(symbol.id) {
                    Some(a) => a,
                    None => symbol.children.len(),
                };
                proof {
                    assert(arity_or(arities@, symbol.id, current@->1.len()) == arity as nat);
                }
                let indexed = match to_string_symbol(symbol.id, child_idx, lang, string_lang, arity) {
                    Some(id) => id,
                    None => {
                        assert(path_ids(current@, tail, names, snames, arities@) is None);
                        return None;
                    },
                };
                let ghost old_ids = ids@;
                ids.push(indexed);
                proof {
                    assert(current@->1[child_idx as int] == symbol.children@[child_idx as int]@);
                    let next = symbol.children@[child_idx as int]@;
                    let cv = current@;
                    assert(tail.len() > 0);
                    assert(tail[0] == child_idx);
                    assert(cv is Sym && tail[0] < cv->1.len());
                    assert(cv->Sym_0 == symbol.id);
                    let sid = string_symbol_id(names, snames, cv->Sym_0, tail[0] as nat, arity_or(arities@, cv->Sym_0, cv->1.len()));
                    assert(sid == indexed as int);
                    assert(cv->1[tail[0] as int] == next);
                    assert(tail.drop_first() == steps@.skip(k + 1));
                    assert(path_ids(current@, tail, names, snames, arities@) == match path_ids(next, steps@.skip(k + 1), names, snames, arities@) {
                        Some(rest) => Some(seq![indexed] + rest),
                        None => None::<Seq<SymbolId>>,
                    });
                    match path_ids(next, steps@.skip(k + 1), names, snames, arities@) {
                        Some(rest) => {
                            assert(old_ids + (seq![indexed] + rest) =~= ids@ + rest);
                        },
                        None => {},
                    }
                }
                current = &symbol.children[child_idx];
            },
            _ => {
                assert(path_ids(current@, steps@.skip(k as int), names, snames, arities@) is None);
                return None;
            },
        }
        k = k + 1;
    }
    let leaf = Expression::Variable(var_id);
    proof {
        lemma_expr_view(leaf);
        assert(steps@.skip(k as int) =~= Seq::<usize>::empty());
        assert(ids@ + Seq::<SymbolId>::empty() =~= ids@);
    }
    Some(build_path_expression(&ids, leaf))
}

/// The induced string rules of `rule`: for each variable of the left-hand side
/// (in some order), for each of its positions on the left (in pre-order) and
/// each on the right, the chain to the left position rewritten into the chain
/// to the right one. `None` when a needed symbol is missing from `string_lang`.
#[verifier::loop_isolation(false)]
pub fn rule_to_induced_rules(rule: &Rule, lang: &Language, string_lang: &Language, arities: &Arities) -> (r: Option<
    Vec<Rule>,
>)
    requires
        symbols_below(rule@.0, lang.names().len()),
        symbols_below(rule@.1, lang.names().len()),
    ensures
        exists|vs: Seq<VariableId>|
            {
                &&& vs.no_duplicates()
                &&& forall|v: VariableId| #[trigger] vs.contains(v) <==> has_var(rule@.0, v)
                &&& r is Some == induced_spec(
                    rule@.0,
                    rule@.1,
                    vs,
                    lang.names(),
                    string_lang.names(),
                    arities@,
                    vs.len() as int,
                ) is Some
                &&& r matches Some(rs) ==> rule_views(rs@) == #[trigger] induced_spec(
                    rule@.0,
                    rule@.1,
                    vs,
                    lang.names(),
                    string_lang.names(),
                    arities@,
                    vs.len() as int,
                )->0
            },
{
    let ghost names = lang.names();
    let ghost snames = string_lang.names();
    let from = rule.from();
    let to = rule.to();
    let vars = from.variables();
    let ghost l = from@;
    let ghost rt = to@;
    let mut induced: Vec<Rule> = Vec::new();
    let mut i: usize = 0;
    assert(rule_views(induced@) =~= Seq::<(Term, Term)>::empty());
    while i < vars.len()
        invariant
            i <= vars@.len(),
            induced_spec(l, rt, vars@, names, snames, arities@, i as int) is Some,
            rule_views(induced@) == induced_spec(l, rt, vars@, names, snames, arities@, i as int)->0,
        decreases vars@.len() - i,
    {
        let v = vars[i];
        let left_paths = variable_paths(from, v);
        let right_paths = variable_paths(to, v);
        let ghost lps = var_positions(l, v);
        let ghost rps = var_positions(rt, v);
        let ghost start = rule_views(induced@);
        let mut a: usize = 0;
        assert(start =~= start + Seq::<(Term, Term)>::empty());
        while a < left_paths.len()
            invariant
                a <= left_paths@.len(),
                path_views(left_paths@) == lps,
                path_views(right_paths@) == rps,
                induced_rows(l, rt, v, lps, rps, names, snames, arities@, a as int) is Some,
                rule_views(induced@) == start + induced_rows(l, rt, v, lps, rps, names, snames, arities@, a as int)->0,
            decreases left_paths@.len() - a,
        {
            let ghost row_start = rule_views(induced@);
            let mut b: usize = 0;
            assert(row_start =~= row_start + Seq::<(Term, Term)>::empty());
            while b < right_paths.len()
                invariant
                    a < left_paths@.len(),
                    b <= right_paths@.len(),
                    path_views(left_paths@) == lps,
                    path_views(right_paths@) == rps,
                    induced_row(l, rt, v, lps[a as int], rps, names, snames, arities@, b as int) is Some,
                    rule_views(induced@) == row_start + induced_row(l, rt, v, lps[a as int], rps, names, snames, arities@, b as int)->0,
                decreases right_paths@.len() - b,
            {
                proof {
                    assert(left_paths@[a as int]@ == lps[a as int]);
                    assert(right_paths@[b as int]@ == rps[b as int]);
                }
                let left = match path_to_expression(from, &left_paths[a], lang, string_lang, arities, v) {
                    Some(e) => e,
                    None => {
                        proof {
                            lemma_row_none(l, rt, v, lps[a as int], rps, names, snames, arities@, b as int + 1, rps.len() as int);
                            lemma_rows_none_at(l, rt, v, lps, rps, names, snames, arities@, a as int);
                            lemma_rows_none(l, rt, v, lps, rps, names, snames, arities@, a as int + 1, lps.len() as int);
                            lemma_induced_none_at(l, rt, vars@, names, snames, arities@, i as int);
                            lemma_induced_none(l, rt, vars@, names, snames, arities@, i as int + 1, vars@.len() as int);
                        }
                        return None;
                    },
                };
                let right = match path_to_expression(to, &right_paths[b], lang, string_lang, arities, v) {
                    Some(e) => e,
                    None => {
                        proof {
                            lemma_row_none(l, rt, v, lps[a as int], rps, names, snames, arities@, b as int + 1, rps.len() as int);
                            lemma_rows_none_at(l, rt, v, lps, rps, names, snames, arities@, a as int);
                            lemma_rows_none(l, rt, v, lps, rps, names, snames, arities@, a as int + 1, lps.len() as int);
                            lemma_induced_none_at(l, rt, vars@, names, snames, arities@, i as int);
                            lemma_induced_none(l, rt, vars@, names, snames, arities@, i as int + 1, vars@.len() as int);
                        }
                        return None;
                    },
                };
                let induced_rule = Rule::from_expressions(left, right);
                let ghost before = rule_views(induced@);
                induced.push(induced_rule);
                proof {
                    assert(rule_views(induced@) =~= before.push(induced_rule@));
                }
                b = b + 1;
            }
            proof {
                assert(rule_views(induced@) =~= start + induced_rows(l, rt, v, lps, rps, names, snames, arities@, a + 1)->0);
            }
            a = a + 1;
        }
        proof {
            assert(rule_views(induced@) =~= induced_spec(l, rt, vars@, names, snames, arities@, i + 1)->0);
        }
        i = i + 1;
    }
    Some(induced)
}

/// Lemma: once a row is missing a rule, the longer row is too.
proof fn lemma_row_none(
    l: Term,
    r: Term,
    v: VariableId,
    a: Seq<usize>,
    rps: Seq<Seq<usize>>,
    names: Seq<Seq<char>>,
    snames: Seq<Seq<char>>,
    arities: Seq<(SymbolId, usize)>,
    j: int,
    m: int,
)
    requires
        0 < j <= m,
        induced_row(l, r, v, a, rps, names, snames, arities, j) is None,
    ensures
        induced_row(l, r, v, a, rps, names, snames, arities, m) is None,
    decreases m - j,
{
    if j < m {
        lemma_row_none(l, r, v, a, rps, names, snames, arities, j + 1, m);
    }
}

/// Lemma: a missing row makes the rows up to it missing.
proof fn lemma_rows_none_at(
    l: Term,
    r: Term,
    v: VariableId,
    lps: Seq<Seq<usize>>,
    rps: Seq<Seq<usize>>,
    names: Seq<Seq<char>>,
    snames: Seq<Seq<char>>,
    arities: Seq<(SymbolId, usize)>,
    i: int,
)
    requires
        0 <= i,
        induced_row(l, r, v, lps[i], rps, names, snames, arities, rps.len() as int) is None,
    ensures
        induced_rows(l, r, v, lps, rps, names, snames, arities, i + 1) is None,
{
}

/// Lemma: once rows are missing, more rows are too.
proof fn lemma_rows_none(
    l: Term,
    r: Term,
    v: VariableId,
    lps: Seq<Seq<usize>>,
    rps: Seq<Seq<usize>>,
    names: Seq<Seq<char>>,
    snames: Seq<Seq<char>>,
    arities: Seq<(SymbolId, usize)>,
    i: int,
    m: int,
)
    requires
        0 < i <= m,
        induced_rows(l, r, v, lps, rps, names, snames, arities, i) is None,
    ensures
        induced_rows(l, r, v, lps, rps, names, snames, arities, m) is None,
    decreases m - i,
{
    if i < m {
        lemma_rows_none(l, r, v, lps, rps, names, snames, arities, i + 1, m);
    }
}

/// Lemma: missing rules of a variable make the rules up to it missing.
proof fn lemma_induced_none_at(
    l: Term,
    r: Term,
    vs: Seq<VariableId>,
    names: Seq<Seq<char>>,
    snames: Seq<Seq<char>>,
    arities: Seq<(SymbolId, usize)>,
    i: int,
)
    requires
        0 <= i,
        induced_rows(
            l,
            r,
            vs[i],
            var_positions(l, vs[i]),
            var_positions(r, vs[i]),
            names,
            snames,
            arities,
            var_positions(l, vs[i]).len() as int,
        ) is None,
    ensures
        induced_spec(l, r, vs, names, snames, arities, i + 1) is None,
{
}

/// Lemma: once rules are missing, those of more variables are too.
proof fn lemma_induced_none(
    l: Term,
    r: Term,
    vs: Seq<VariableId>,
    names: Seq<Seq<char>>,
    snames: Seq<Seq<char>>,
    arities: Seq<(SymbolId, usize)>,
    i: int,
    m: int,
)
    requires
        0 < i <= m,
        induced_spec(l, r, vs, names, snames, arities, i) is None,
    ensures
        induced_spec(l, r, vs, names, snames, arities, m) is None,
    decreases m - i,
{
    if i < m {
        lemma_induced_none(l, r, vs, names, snames, arities, i + 1, m);
    }
}

} // verus!
