//! Direct term rewriting.
//!
//! Rules are applied to expressions directly (without e-graphs). Variables of the
//! rewritten expression are distinct from the rules' pattern variables: during
//! matching they behave as constants, so a rule can rewrite an expression that
//! contains variables.

pub mod with_vars;

use vstd::prelude::*;

use crate::language::expression::{
    has_var, is_var_free, lemma_var_free, lemma_var_free_no_var, lookup, subst, Expression, Term, VarFreeExpression,
    VariableId,
};
use crate::language::paths::{lemma_subterm_vars, paths_of, replace_at, subterm, OwnedPath};
use crate::rewriting::rule::{rule_ok, rule_views, Rule};

pub use crate::rewriting::matching::ExpressionMatch;

use crate::rewriting::matching::{canonical_match, lemma_canonical_match, pattern_matches};

verus! {

broadcast use vstd::std_specs::vec::group_vec_axioms, vstd::seq::group_seq_axioms;

/// A position in an expression where a rule applies: the path of the
/// subexpression and the index of the rule.
#[derive(Debug, Clone)]
pub struct RewritePosition {
    /// Path to the subexpression
    pub path: OwnedPath,
    /// Index of the applicable rule
    pub rule_index: usize,
}

impl View for RewritePosition {
    type V = (Seq<usize>, usize);

    open spec fn view(&self) -> (Seq<usize>, usize) {
        (self.path@, self.rule_index)
    }
}

/// The views of a list of positions.
pub open spec fn position_views(v: Seq<RewritePosition>) -> Seq<(Seq<usize>, usize)> {
    v.map_values(|p: RewritePosition| p@)
}

/// The rules (among the first `n`) that apply to the subterm `s` at path `p`, as positions.
pub open spec fn rule_hits(s: Option<Term>, p: Seq<usize>, rules: Seq<(Term, Term)>, n: int) -> Seq<(Seq<usize>, usize)>
    decreases n,
{
    if n <= 0 {
        Seq::empty()
    } else {
        rule_hits(s, p, rules, n - 1) + if s is Some && pattern_matches(rules[n - 1].0, s->0) {
            seq![(p, (n - 1) as usize)]
        } else {
            Seq::empty()
        }
    }
}

/// The positions found at the first `k` paths of `ps`.
pub open spec fn positions_upto(t: Term, ps: Seq<Seq<usize>>, rules: Seq<(Term, Term)>, k: int) -> Seq<(Seq<usize>, usize)>
    decreases k,
{
    if k <= 0 {
        Seq::empty()
    } else {
        positions_upto(t, ps, rules, k - 1) + rule_hits(subterm(t, ps[k - 1]), ps[k - 1], rules, rules.len() as int)
    }
}

/// All positions where a rule applies: paths in pre-order, and for each path the
/// applicable rules in order.
pub open spec fn rewrite_positions(t: Term, rules: Seq<(Term, Term)>) -> Seq<(Seq<usize>, usize)> {
    positions_upto(t, paths_of(t), rules, paths_of(t).len() as int)
}

/// The result of rewriting `t` with `from -> to` at path `p`; `t` itself when
/// the rule does not apply there.
pub open spec fn rewrite_at(t: Term, from: Term, to: Term, p: Seq<usize>) -> Term {
    match subterm(t, p) {
        Some(s) => if pattern_matches(from, s) {
            replace_at(t, p, subst(to, canonical_match(from, s)))
        } else {
            t
        },
        None => t,
    }
}

/// One rewrite with `rule` at its first applicable position, if any.
pub open spec fn rewrite_once_spec(t: Term, rule: (Term, Term)) -> Option<Term> {
    let positions = rewrite_positions(t, seq![rule]);
    if positions.len() > 0 {
        Some(rewrite_at(t, rule.0, rule.1, positions[0].0))
    } else {
        None
    }
}

/// The first rule (from index `i` on) that rewrites `t`, with its result.
pub open spec fn first_rewrite(t: Term, rules: Seq<(Term, Term)>, i: int) -> Option<Term>
    decreases rules.len() - i,
{
    if i < 0 || i >= rules.len() {
        None
    } else {
        match rewrite_once_spec(t, rules[i]) {
            Some(u) => Some(u),
            None => first_rewrite(t, rules, i + 1),
        }
    }
}

/// Lemma: from index `k` on, the rewrite found is that of the least index
/// `i >= k` whose rule applies.
proof fn lemma_first_rewrite_from(t: Term, rules: Seq<(Term, Term)>, k: int, i: int)
    requires
        0 <= k <= i < rules.len(),
        rewrite_once_spec(t, rules[i]) is Some,
        forall|j: int| k <= j < i ==> #[trigger] rewrite_once_spec(t, rules[j]) is None,
    ensures
        first_rewrite(t, rules, k) == rewrite_once_spec(t, rules[i]),
    decreases i - k,
{
    if k < i {
        lemma_first_rewrite_from(t, rules, k + 1, i);
    }
}

/// Law: a rewriting step uses the rule of least index that applies, at its
/// first position: if rule `i` rewrites `t` and no rule before it does, the
/// step gives rule `i`'s rewrite.
pub proof fn lemma_first_rewrite_least(t: Term, rules: Seq<(Term, Term)>, i: int)
    requires
        0 <= i < rules.len(),
        rewrite_once_spec(t, rules[i]) is Some,
        forall|j: int| 0 <= j < i ==> #[trigger] rewrite_once_spec(t, rules[j]) is None,
    ensures
        first_rewrite(t, rules, 0) == rewrite_once_spec(t, rules[i]),
{
    lemma_first_rewrite_from(t, rules, 0, i);
}

/// Law: no step is possible exactly when no rule applies.
pub proof fn lemma_first_rewrite_none(t: Term, rules: Seq<(Term, Term)>)
    ensures
        first_rewrite(t, rules, 0) is None <==> forall|j: int| 0 <= j < rules.len() ==> #[trigger] rewrite_once_spec(t, rules[j]) is None,
{
    if first_rewrite(t, rules, 0) is None {
        assert forall|j: int| 0 <= j < rules.len() implies #[trigger] rewrite_once_spec(t, rules[j]) is None by {
            if rewrite_once_spec(t, rules[j]) is Some {
                lemma_least_applicable(t, rules, j);
            }
        }
    } else {
        if forall|j: int| 0 <= j < rules.len() ==> #[trigger] rewrite_once_spec(t, rules[j]) is None {
            lemma_none_upto(t, rules, 0);
        }
    }
}

/// Lemma: when some rule applies, a least one does, and the step gives its rewrite.
proof fn lemma_least_applicable(t: Term, rules: Seq<(Term, Term)>, j: int)
    requires
        0 <= j < rules.len(),
        rewrite_once_spec(t, rules[j]) is Some,
    ensures
        first_rewrite(t, rules, 0) is Some,
    decreases j,
{
    if exists|k: int| 0 <= k < j && #[trigger] rewrite_once_spec(t, rules[k]) is Some {
        let k = choose|k: int| 0 <= k < j && #[trigger] rewrite_once_spec(t, rules[k]) is Some;
        lemma_least_applicable(t, rules, k);
    } else {
        lemma_first_rewrite_least(t, rules, j);
    }
}

/// Lemma: when no rule from `k` on applies, no rewrite is found from `k` on.
proof fn lemma_none_upto(t: Term, rules: Seq<(Term, Term)>, k: int)
    requires
        0 <= k,
        forall|j: int| k <= j < rules.len() ==> #[trigger] rewrite_once_spec(t, rules[j]) is None,
    ensures
        first_rewrite(t, rules, k) is None,
    decreases rules.len() - k,
{
    if k < rules.len() {
        lemma_none_upto(t, rules, k + 1);
    }
}

/// Exhaustive rewriting: at most `fuel` steps, each rewriting with the first
/// applicable rule; stops at a fixed point or when a step would revisit a term of `seen`.
pub open spec fn rewrite_spec(t: Term, rules: Seq<(Term, Term)>, fuel: nat, seen: Seq<Term>) -> Term
    decreases fuel,
{
    if fuel == 0 {
        t
    } else {
        match first_rewrite(t, rules, 0) {
            None => t,
            Some(u) => if seen.contains(u) {
                t
            } else {
                rewrite_spec(u, rules, (fuel - 1) as nat, seen.push(u))
            },
        }
    }
}

/// Law: with steps left, rewriting takes the rewrite of the least applicable
/// rule and goes on from it, unless it was seen already; when no rule
/// applies, the term itself is the result.
pub proof fn lemma_rewrite_step(t: Term, rules: Seq<(Term, Term)>, fuel: nat, seen: Seq<Term>, i: int)
    requires
        fuel > 0,
        0 <= i < rules.len(),
        rewrite_once_spec(t, rules[i]) is Some,
        forall|j: int| 0 <= j < i ==> #[trigger] rewrite_once_spec(t, rules[j]) is None,
    ensures
        ({
            let u = rewrite_once_spec(t, rules[i])->0;
            rewrite_spec(t, rules, fuel, seen) == if seen.contains(u) {
                t
            } else {
                rewrite_spec(u, rules, (fuel - 1) as nat, seen.push(u))
            }
        }),
{
    lemma_first_rewrite_least(t, rules, i);
}

/// Law: a term to which no rule applies is its own result.
pub proof fn lemma_rewrite_normal(t: Term, rules: Seq<(Term, Term)>, fuel: nat, seen: Seq<Term>)
    requires
        forall|j: int| 0 <= j < rules.len() ==> #[trigger] rewrite_once_spec(t, rules[j]) is None,
    ensures
        rewrite_spec(t, rules, fuel, seen) == t,
{
    lemma_first_rewrite_none(t, rules);
}

/// Finds all positions in an expression where any rule can be applied.
///
/// Paths are visited in pre-order; at each path the applicable rules are listed in order.
#[verifier::loop_isolation(false)]
pub fn find_all_rewrite_positions_expr(expression: &Expression, rules: &[Rule]) -> (r: Vec<RewritePosition>)
    ensures
        position_views(r@) == rewrite_positions(expression@, rule_views(rules@)),
{
    let paths = expression.iter_paths();
    let ghost ps = paths_of(expression@);
    let ghost rv = rule_views(rules@);
    let mut out: Vec<RewritePosition> = Vec::new();
    let mut k: usize = 0;
    while k < paths.len()
        invariant
            k <= paths@.len(),
            ps.len() == paths@.len(),
            forall|j: int| 0 <= j < paths@.len() ==> #[trigger] paths@[j]@ == ps[j],
            position_views(out@) == positions_upto(expression@, ps, rv, k as int),
        decreases paths.len() - k,
    {
        let sub = expression.subexpression(paths[k].as_path());
        let ghost s = subterm(expression@, ps[k as int]);
        let ghost before = position_views(out@);
        let mut r: usize = 0;
        while r < rules.len()
            invariant
                r <= rules@.len(),
                position_views(out@) == before + rule_hits(s, ps[k as int], rv, r as int),
            decreases rules.len() - r,
        {
            match sub {
                Some(e) => {
                    assert(rv[r as int] == rules@[r as int]@);
                    if Expression::try_match_expression(rules[r].from(), e).is_some() {
                        let ghost out_before = position_views(out@);
                        out.push(RewritePosition { path: paths[k].copy(), rule_index: r });
                        assert(position_views(out@) =~= out_before.push((ps[k as int], r)));
                        assert(rule_hits(s, ps[k as int], rv, r + 1) =~= rule_hits(s, ps[k as int], rv, r as int).push((ps[k as int], r)));
                        assert(position_views(out@) =~= before + rule_hits(s, ps[k as int], rv, r + 1));
                    } else {
                        assert(position_views(out@) =~= before + rule_hits(s, ps[k as int], rv, r + 1));
                    }
                },
                None => {
                    assert(position_views(out@) =~= before + rule_hits(s, ps[k as int], rv, r + 1));
                },
            }
            r = r + 1;
        }
        assert(position_views(out@) =~= positions_upto(expression@, ps, rv, k + 1));
        k = k + 1;
    }
    out
}

/// Applies the rule of `position` at its path.
///
/// The expression is unchanged when the rule does not apply there.
pub fn apply_rewrite_at_position_expr(expression: Expression, rules: &[Rule], position: &RewritePosition) -> (r: Expression)
    requires
        position.rule_index < rules@.len(),
    ensures
        r@ == rewrite_at(
            expression@,
            rules@[position.rule_index as int]@.0,
            rules@[position.rule_index as int]@.1,
            position.path@,
        ),
{
    let rule = &rules[position.rule_index];
    let replacement = match expression.subexpression(position.path.as_path()) {
        Some(subexpr) => match Expression::try_match_expression(rule.from(), subexpr) {
            Some(matching) => {
                proof {
                    lemma_canonical_match(rule@.0, subexpr@);
                }
                Some(Expression::instantiate_expression(rule.to(), &matching))
            },
            None => None,
        },
        None => None,
    };
    match replacement {
        Some(new) => expression.replace_at_path(position.path.as_path(), new),
        None => expression,
    }
}

/// Applies a single rewrite rule at the first matching position (in pre-order).
///
/// Returns `None` when the rule applies nowhere.
pub fn rewrite_once(expression: Expression, rule: &Rule) -> (r: Option<Expression>)
    ensures
        r matches Some(e) ==> rewrite_once_spec(expression@, rule@) == Some(e@),
        r is None ==> rewrite_once_spec(expression@, rule@) is None,
{
    let rules = vec![rule.clone()];
    assert(rule_views(rules@) =~= seq![rule@]);
    let positions = find_all_rewrite_positions_expr(&expression, &rules);
    if positions.len() > 0 {
        assert(positions@[0]@ == rewrite_positions(expression@, seq![rule@])[0]);
        assert(positions@[0].rule_index < 1) by {
            lemma_hits_index(expression@, seq![rule@]);
            assert(position_views(positions@)[0] == positions@[0]@);
            assert(rewrite_positions(expression@, seq![rule@])[0].1 < seq![rule@].len());
        }
        Some(apply_rewrite_at_position_expr(expression, &rules, &positions[0]))
    } else {
        None
    }
}

/// Lemma: every position refers to an existing rule.
pub proof fn lemma_hits_index(t: Term, rules: Seq<(Term, Term)>)
    ensures
        forall|i: int| 0 <= i < rewrite_positions(t, rules).len() ==> #[trigger] rewrite_positions(t, rules)[i].1 < rules.len(),
{
    let ps = paths_of(t);
    assert forall|k: int| 0 <= k <= ps.len() implies forall|i: int| 0 <= i < #[trigger] positions_upto(t, ps, rules, k).len() ==> positions_upto(t, ps, rules, k)[i].1 < rules.len() by {
        lemma_positions_index(t, ps, rules, k);
    }
}

proof fn lemma_positions_index(t: Term, ps: Seq<Seq<usize>>, rules: Seq<(Term, Term)>, k: int)
    ensures
        forall|i: int| 0 <= i < positions_upto(t, ps, rules, k).len() ==> #[trigger] positions_upto(t, ps, rules, k)[i].1 < rules.len(),
    decreases k,
{
    if k > 0 {
        lemma_positions_index(t, ps, rules, k - 1);
        lemma_rule_hits_index(subterm(t, ps[k - 1]), ps[k - 1], rules, rules.len() as int);
        let a = positions_upto(t, ps, rules, k - 1);
        let b = rule_hits(subterm(t, ps[k - 1]), ps[k - 1], rules, rules.len() as int);
        let whole = positions_upto(t, ps, rules, k);
        assert(whole == a + b);
        assert forall|i: int| 0 <= i < whole.len() implies #[trigger] whole[i].1 < rules.len() by {
            if i < a.len() {
                assert(whole[i] == a[i]);
            } else {
                assert(whole[i] == b[i - a.len()]);
            }
        }
    }
}

proof fn lemma_rule_hits_index(s: Option<Term>, p: Seq<usize>, rules: Seq<(Term, Term)>, n: int)
    requires
        n <= rules.len(),
    ensures
        forall|i: int| 0 <= i < rule_hits(s, p, rules, n).len() ==> #[trigger] rule_hits(s, p, rules, n)[i].1 < rules.len(),
    decreases n,
{
    if n > 0 {
        lemma_rule_hits_index(s, p, rules, n - 1);
        let a = rule_hits(s, p, rules, n - 1);
        let whole = rule_hits(s, p, rules, n);
        assert forall|i: int| 0 <= i < whole.len() implies #[trigger] whole[i].1 < rules.len() by {
            if i < a.len() {
                assert(whole[i] == a[i]);
            }
        }
    }
}

/// `true` when `e` is (as a term) one of `seen`.
fn seen_contains(seen: &Vec<Expression>, e: &Expression) -> (r: bool)
    ensures
        r == seen@.map_values(|x: Expression| x@).contains(e@),
{
    let mut i: usize = 0;
    while i < seen.len()
        invariant
            i <= seen@.len(),
            forall|j: int| 0 <= j < i ==> seen@[j]@ != e@,
        decreases seen.len() - i,
    {
        if seen[i].same_as(e) {
            assert(seen@.map_values(|x: Expression| x@)[i as int] == e@);
            return true;
        }
        i = i + 1;
    }
    false
}

/// Applies rewrite rules until no rule applies, a previously seen expression
/// would be reached again, or `max_iterations` steps were made.
///
/// In each step the first rule (in order) that applies somewhere is applied at its
/// first position.
#[verifier::loop_isolation(false)]
pub fn rewrite(expression: Expression, rules: &[Rule], max_iterations: usize) -> (r: Expression)
    ensures
        r@ == rewrite_spec(expression@, rule_views(rules@), max_iterations as nat, seq![expression@]),
{
    let ghost rv = rule_views(rules@);
    let mut expression = expression;
    let mut seen: Vec<Expression> = Vec::new();
    seen.push(expression.clone());
    let ghost target = rewrite_spec(expression@, rv, max_iterations as nat, seq![expression@]);
    assert(seen@.map_values(|x: Expression| x@) =~= seq![expression@]);
    let mut it: usize = 0;
    while it < max_iterations
        invariant
            it <= max_iterations,
            rewrite_spec(expression@, rv, (max_iterations - it) as nat, seen@.map_values(|x: Expression| x@)) == target,
        decreases max_iterations - it,
    {
        let ghost sv = seen@.map_values(|x: Expression| x@);
        let mut next: Option<Expression> = None;
        let mut i: usize = 0;
        while i < rules.len()
            invariant
                i <= rules@.len(),
                next is None ==> first_rewrite(expression@, rv, 0) == first_rewrite(expression@, rv, i as int),
                next matches Some(n) ==> first_rewrite(expression@, rv, 0) == Some(n@),
            decreases rules.len() - i,
        {
            if next.is_none() {
                match rewrite_once(expression.clone(), &rules[i]) {
                    Some(new_expr) => {
                        next = Some(new_expr);
                    },
                    None => {},
                }
            }
            i = i + 1;
        }
        match next {
            None => {
                return expression;
            },
            Some(new_expr) => {
                if seen_contains(&seen, &new_expr) {
                    return expression;
                }
                seen.push(new_expr.clone());
                assert(seen@.map_values(|x: Expression| x@) =~= sv.push(new_expr@));
                expression = new_expr;
            },
        }
        it = it + 1;
    }
    expression
}

/// Applies a single rewrite rule at the first matching position of a
/// variable-free expression; `None` when it applies nowhere or the result has variables.
pub fn rewrite_once_var_free(expression: VarFreeExpression, rule: &Rule) -> (r: Option<VarFreeExpression>)
    ensures
        r == (match rewrite_once_spec(expression@, rule@) {
            Some(t) => if is_var_free(t) { Some(r->0) } else { None },
            None => None,
        }),
        r matches Some(e) ==> rewrite_once_spec(expression@, rule@) == Some(e@),
{
    let expr = expression.to_expression();
    let rewritten = rewrite_once(expr, rule)?;
    rewritten.without_variables()
}

/// Exhaustive rewriting of a variable-free expression; the input is returned
/// when the result would contain variables.
pub fn rewrite_var_free(expression: VarFreeExpression, rules: &[Rule], max_iterations: usize) -> (r: VarFreeExpression)
    ensures
        ({
            let t = rewrite_spec(expression@, rule_views(rules@), max_iterations as nat, seq![expression@]);
            r@ == if is_var_free(t) { t } else { expression@ }
        }),
{
    let expr = expression.to_expression();
    let rewritten = rewrite(expr, rules, max_iterations);
    match rewritten.without_variables() {
        Some(e) => e,
        None => expression,
    }
}

/// Finds all positions in a variable-free expression where any rule can be applied.
pub fn find_all_rewrite_positions(expression: &VarFreeExpression, rules: &[Rule]) -> (r: Vec<RewritePosition>)
    ensures
        position_views(r@) == rewrite_positions(expression@, rule_views(rules@)),
{
    let expr = expression.to_expression();
    find_all_rewrite_positions_expr(&expr, rules)
}

/// Lemma: a term without any variable is variable-free.
proof fn lemma_no_var_var_free(t: Term)
    requires
        forall|v: VariableId| !has_var(t, v),
    ensures
        is_var_free(t),
    decreases t,
{
    match t {
        Term::Sym(_, cs) => {
            assert forall|i: int| 0 <= i < cs.len() implies is_var_free(#[trigger] cs[i]) by {
                assert forall|v: VariableId| !has_var(cs[i], v) by {
                    if has_var(cs[i], v) {
                        assert(has_var(t, v));
                    }
                }
                lemma_no_var_var_free(cs[i]);
            }
        },
        Term::Var(v) => {
            assert(has_var(t, v));
        },
        _ => {},
    }
}

/// Lemma: a variable of a substituted term comes from the term bound to one of
/// the pattern's variables.
proof fn lemma_subst_var_from(p: Term, m: Map<VariableId, Term>, w: VariableId)
    requires
        has_var(subst(p, m), w),
    ensures
        exists|v: VariableId| has_var(p, v) && #[trigger] has_var(lookup(m, v), w),
    decreases p,
{
    match p {
        Term::Sym(id, cs) => {
            let i = choose|i: int| 0 <= i < subst(p, m)->1.len() && has_var(#[trigger] subst(p, m)->1[i], w);
            assert(subst(p, m)->1[i] == subst(cs[i], m));
            lemma_subst_var_from(cs[i], m, w);
            let v = choose|v: VariableId| has_var(cs[i], v) && #[trigger] has_var(lookup(m, v), w);
            assert(has_var(p, v));
        },
        Term::Var(v) => {
            assert(has_var(p, v));
        },
        _ => {},
    }
}

/// Lemma: a variable of the term bound to a variable of the pattern occurs in
/// the substituted term.
proof fn lemma_subst_var_in(p: Term, m: Map<VariableId, Term>, v: VariableId, w: VariableId)
    requires
        has_var(p, v),
        has_var(lookup(m, v), w),
    ensures
        has_var(subst(p, m), w),
    decreases p,
{
    match p {
        Term::Sym(id, cs) => {
            let i = choose|i: int| 0 <= i < cs.len() && has_var(#[trigger] cs[i], v);
            lemma_subst_var_in(cs[i], m, v, w);
            assert(subst(p, m)->1[i] == subst(cs[i], m));
        },
        _ => {},
    }
}

/// Lemma: a variable of a term with a replaced part occurs in the term or in
/// the replacement.
proof fn lemma_replace_at_var(t: Term, p: Seq<usize>, n: Term, w: VariableId)
    requires
        has_var(replace_at(t, p, n), w),
    ensures
        has_var(t, w) || has_var(n, w),
    decreases p.len(),
{
    if p.len() > 0 && t is Sym && p[0] < t->1.len() {
        let r = replace_at(t, p, n);
        let cs = t->1;
        let k = p[0] as int;
        let i = choose|i: int| 0 <= i < r->1.len() && has_var(#[trigger] r->1[i], w);
        if i == k {
            lemma_replace_at_var(cs[k], p.drop_first(), n, w);
            if has_var(cs[k], w) {
                assert(has_var(t, w));
            }
        } else {
            assert(r->1[i] == cs[i]);
            assert(has_var(t, w));
        }
    }
}

/// Law: rewriting a variable-free term with a rule whose right side uses only
/// variables of its left side gives a variable-free term.
pub proof fn lemma_rewrite_at_var_free(t: Term, from: Term, to: Term, p: Seq<usize>)
    requires
        is_var_free(t),
        rule_ok((from, to)),
    ensures
        is_var_free(rewrite_at(t, from, to, p)),
{
    match subterm(t, p) {
        Some(s) => {
            if pattern_matches(from, s) {
                lemma_canonical_match(from, s);
                let m = canonical_match(from, s);
                let n = subst(to, m);
                assert forall|w: VariableId| !has_var(rewrite_at(t, from, to, p), w) by {
                    lemma_var_free_no_var(t, w);
                    if has_var(rewrite_at(t, from, to, p), w) {
                        lemma_replace_at_var(t, p, n, w);
                        lemma_subst_var_from(to, m, w);
                        assert(has_var(n, w));
                        let v = choose|v: VariableId| has_var(to, v) && #[trigger] has_var(lookup(m, v), w);
                        assert(has_var((from, to).1, v));
                        assert(has_var((from, to).0, v));
                        lemma_subst_var_in(from, m, v, w);
                        lemma_subterm_vars(t, p, w);
                    }
                }
                lemma_no_var_var_free(rewrite_at(t, from, to, p));
            }
        },
        None => {},
    }
}

/// Applies the rule of `position` at its path in a variable-free expression; the
/// input is returned when the result would contain variables.
pub fn apply_rewrite_at_position(expression: VarFreeExpression, rules: &[Rule], position: &RewritePosition) -> (r: VarFreeExpression)
    requires
        position.rule_index < rules@.len(),
    ensures
        ({
            let t = rewrite_at(
                expression@,
                rules@[position.rule_index as int]@.0,
                rules@[position.rule_index as int]@.1,
                position.path@,
            );
            r@ == if is_var_free(t) { t } else { expression@ }
        }),
        rule_ok(rules@[position.rule_index as int]@) ==> r@ == rewrite_at(
            expression@,
            rules@[position.rule_index as int]@.0,
            rules@[position.rule_index as int]@.1,
            position.path@,
        ),
{
    proof {
        lemma_var_free(expression);
        if rule_ok(rules@[position.rule_index as int]@) {
            lemma_rewrite_at_var_free(
                expression@,
                rules@[position.rule_index as int]@.0,
                rules@[position.rule_index as int]@.1,
                position.path@,
            );
        }
    }
    let expr = expression.to_expression();
    let rewritten = apply_rewrite_at_position_expr(expr, rules, position);
    match rewritten.without_variables() {
        Some(e) => e,
        None => expression,
    }
}

} // verus!
