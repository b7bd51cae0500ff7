//! Random rewriting of expressions with variables.
//!
//! The variables of the rewritten expression are distinct from the rules'
//! pattern variables: during matching they behave as constants. For example the
//! rule `(+ $0 $1) -> (+ $1 $0)` rewrites `(+ $5 2)` to `(+ 2 $5)`.

use rand::rngs::ThreadRng;
use rand::Rng;
use vstd::prelude::*;

use crate::language::expression::{has_var, subst, Expression, Term, VariableId};
use crate::rewriting::direct::{
    apply_rewrite_at_position_expr, find_all_rewrite_positions_expr, position_views, rewrite_at, rewrite_positions,
    RewritePosition,
};
use crate::rewriting::matching::pattern_matches;
use crate::rewriting::rule::{rule_views, Rule};

pub use crate::rewriting::matching::ExpressionMatch;

verus! {

broadcast use vstd::std_specs::vec::group_vec_axioms, vstd::seq::group_seq_axioms;

/// The thread-local random number generator of `rand`.
#[verifier::external_type_specification]
#[verifier::external_body]
pub struct ExThreadRng(ThreadRng);

/// The generator of the current thread (`rand::thread_rng`); nothing is
/// stated of its state.
#[verifier::external_body]
fn thread_rng() -> ThreadRng {
    rand::thread_rng()
}

/// A random index below `len` (`Rng::gen_range` over `0..len`, which panics
/// on an empty range); only that it is below `len` is stated.
#[verifier::external_body]
fn random_index(rng: &mut ThreadRng, len: usize) -> (r: usize)
    requires
        len > 0,
    ensures
        r < len,
{
    rng.gen_range(0..len)
}

/// Tries to match `pattern` against `expression`; the variables of
/// `expression` are matched as constants.
pub fn try_match_expression(pattern: &Expression, expression: &Expression) -> (r: Option<ExpressionMatch>)
    ensures
        r is Some == pattern_matches(pattern@, expression@),
        r matches Some(m) ==> subst(pattern@, m@) == expression@,
        r matches Some(m) ==> forall|v: VariableId| #[trigger] m@.contains_key(v) <==> has_var(pattern@, v),
{
    Expression::try_match_expression(pattern, expression)
}

/// `pattern` with each of its variables bound by `matching` replaced by its
/// value.
pub fn instantiate_pattern(pattern: &Expression, matching: &ExpressionMatch) -> (r: Expression)
    ensures
        r@ == subst(pattern@, matching@),
{
    Expression::instantiate_expression(pattern, matching)
}

/// All positions where a rule applies: paths in pre-order, and at each path
/// the applicable rules in order.
pub fn find_all_rewrite_positions(expression: &Expression, rules: &[Rule]) -> (r: Vec<RewritePosition>)
    ensures
        position_views(r@) == rewrite_positions(expression@, rule_views(rules@)),
{
    find_all_rewrite_positions_expr(expression, rules)
}

/// Applies the rule of `position` at its path; the expression is unchanged
/// when the rule does not apply there.
pub fn apply_rewrite_at_position(expression: Expression, rules: &[Rule], position: &RewritePosition) -> (r: Expression)
    requires
        position.rule_index < rules@.len(),
    ensures
        r@ == rewrite_at(
            expression@,
            rules@[position.rule_index as int]@.0,
            rules@[position.rule_index as int]@.1,
            position.path@,
        ),
{
    apply_rewrite_at_position_expr(expression, rules, position)
}

/// The term reached from `t` by rewriting at the `i`-th position where a rule
/// applies.
pub open spec fn rewrite_at_index(t: Term, rules: Seq<(Term, Term)>, i: int) -> Term {
    let p = rewrite_positions(t, rules)[i];
    rewrite_at(t, rules[p.1 as int].0, rules[p.1 as int].1, p.0)
}

/// `true` when `r` can come out of `n` random rewriting steps from `t`: each
/// step rewrites at one of the positions where a rule applies, and the steps
/// stop early when there is none.
pub open spec fn random_outcome(t: Term, rules: Seq<(Term, Term)>, n: nat, r: Term) -> bool
    decreases n,
{
    if n == 0 || rewrite_positions(t, rules).len() == 0 {
        r == t
    } else {
        exists|i: int|
            0 <= i < rewrite_positions(t, rules).len() && random_outcome(
                #[trigger] rewrite_at_index(t, rules, i),
                rules,
                (n - 1) as nat,
                r,
            )
    }
}

/// Lemma: the positions found name rules of the list.
proof fn lemma_positions_rules(t: Term, rules: Seq<(Term, Term)>, i: int)
    requires
        0 <= i < rewrite_positions(t, rules).len(),
    ensures
        rewrite_positions(t, rules)[i].1 < rules.len(),
{
    crate::rewriting::direct::lemma_hits_index(t, rules);
}

/// Applies `n` random rewrites: at each step one of the positions where a
/// rule applies is picked at random and rewritten; stops early when there is
/// none.
#[verifier::loop_isolation(false)]
pub fn rewrite(expression: Expression, rules: &[Rule], n: usize) -> (r: Expression)
    ensures
        random_outcome(expression@, rule_views(rules@), n as nat, r@),
{
    let ghost rv = rule_views(rules@);
    let ghost orig = expression@;
    let mut rng = thread_rng();
    let mut expression = expression;
    let ghost mut path: Seq<Term> = seq![expression@];
    let mut k: usize = 0;
    while k < n
        invariant
            k <= n,
            path.len() == k + 1,
            path[0] == orig,
            path[k as int] == expression@,
            forall|j: int|
                0 <= j < k ==> {
                    &&& rewrite_positions(#[trigger] path[j], rv).len() > 0
                    &&& exists|i: int| 0 <= i < rewrite_positions(path[j], rv).len() && path[j + 1] == #[trigger] rewrite_at_index(path[j], rv, i)
                },
        decreases n - k,
    {
        let positions = find_all_rewrite_positions(&expression, rules);
        if positions.len() == 0 {
            proof {
                lemma_random_outcome_path(path, rv, n as nat, k as int);
            }
            return expression;
        }
        let idx = random_index(&mut rng, positions.len());
        let ghost before = expression@;
        proof {
            assert(position_views(positions@)[idx as int] == positions@[idx as int]@);
            lemma_positions_rules(expression@, rv, idx as int);
            assert(rules@.len() == rv.len());
        }
        expression = apply_rewrite_at_position(expression, rules, &positions[idx]);
        proof {
            assert(rv[positions@[idx as int].rule_index as int] == rules@[positions@[idx as int].rule_index as int]@);
            assert(expression@ == rewrite_at_index(before, rv, idx as int));
            path = path.push(expression@);
        }
        k = k + 1;
    }
    proof {
        lemma_random_outcome_path(path, rv, n as nat, k as int);
    }
    expression
}

/// Lemma: a trail of `k` steps, each at a position where a rule applies,
/// ends in an outcome of `n` steps when `k == n` or no rule applies at its end.
proof fn lemma_random_outcome_path(path: Seq<Term>, rv: Seq<(Term, Term)>, n: nat, k: int)
    requires
        0 <= k <= n,
        path.len() == k + 1,
        k == n || rewrite_positions(path[k], rv).len() == 0,
        forall|j: int|
            0 <= j < k ==> {
                &&& rewrite_positions(#[trigger] path[j], rv).len() > 0
                &&& exists|i: int| 0 <= i < rewrite_positions(path[j], rv).len() && path[j + 1] == #[trigger] rewrite_at_index(path[j], rv, i)
            },
    ensures
        random_outcome(path[0], rv, n, path[k]),
    decreases k,
{
    if k > 0 {
        let rest = path.drop_first();
        assert forall|j: int| 0 <= j < k - 1 implies {
            &&& rewrite_positions(#[trigger] rest[j], rv).len() > 0
            &&& exists|i: int| 0 <= i < rewrite_positions(rest[j], rv).len() && rest[j + 1] == #[trigger] rewrite_at_index(rest[j], rv, i)
        } by {
            assert(rest[j] == path[j + 1]);
            assert(rest[j + 1] == path[j + 2]);
            assert(rewrite_positions(path[j + 1], rv).len() > 0);
        }
        lemma_random_outcome_path(rest, rv, (n - 1) as nat, k - 1);
        assert(rewrite_positions(path[0], rv).len() > 0);
        let i = choose|i: int| 0 <= i < rewrite_positions(path[0], rv).len() && path[1] == #[trigger] rewrite_at_index(path[0], rv, i);
        assert(rest[0] == path[1]);
        assert(rest[k - 1] == path[k]);
        assert(random_outcome(rewrite_at_index(path[0], rv, i), rv, (n - 1) as nat, path[k]));
    }
}

} // verus!
