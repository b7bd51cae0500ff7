//! Unification: finding a substitution that makes both sides of equations
//! equal, when variables may occur on both sides.

use vstd::prelude::*;

use crate::assoc::lemma_assoc_map;
use crate::did::Did;
use crate::equation::{child_equations, Equation};
use crate::language::expression::{
    has_var, lemma_expr_view, lemma_subst_agree, lemma_subst_sym, lookup, shift_term, subst, term_size, Expression,
    Term, VariableId,
};
use crate::rewriting::matching::{expr_map, ExpressionMatch};

verus! {

broadcast use vstd::std_specs::vec::group_vec_axioms, vstd::seq::group_seq_axioms;

/// `true` when `v` occurs in one of the equations.
pub open spec fn occurs(es: Seq<(Term, Term)>, v: VariableId) -> bool {
    exists|i: int| 0 <= i < es.len() && (has_var(#[trigger] es[i].0, v) || has_var(es[i].1, v))
}

/// `true` when `rho` makes both sides of every equation equal.
pub open spec fn unifies(rho: Map<VariableId, Term>, es: Seq<(Term, Term)>) -> bool {
    forall|i: int| 0 <= i < es.len() ==> subst(#[trigger] es[i].0, rho) == subst(es[i].1, rho)
}

/// `t` after substituting the bindings of `bs` one after the other.
pub open spec fn apply_seq(bs: Seq<(VariableId, Term)>, t: Term) -> Term
    decreases bs.len(),
{
    if bs.len() == 0 {
        t
    } else {
        apply_seq(bs.drop_first(), subst(t, map![bs[0].0 => bs[0].1]))
    }
}

/// The sum of the sizes of both sides of the equations.
pub open spec fn sizes(es: Seq<(Term, Term)>) -> nat
    decreases es.len(),
{
    if es.len() == 0 {
        0
    } else {
        sizes(es.drop_last()) + term_size(es.last().0) + term_size(es.last().1)
    }
}

/// The number of equations `t = x` whose left side is not a variable and right side is.
pub open spec fn misoriented(es: Seq<(Term, Term)>) -> nat
    decreases es.len(),
{
    if es.len() == 0 {
        0
    } else {
        misoriented(es.drop_last()) + if !(es.last().0 is Var) && es.last().1 is Var {
            1nat
        } else {
            0nat
        }
    }
}

/// The number of variables below `b` that occur in the equations.
pub open spec fn var_count(es: Seq<(Term, Term)>, b: nat) -> nat
    decreases b,
{
    if b == 0 {
        0
    } else {
        var_count(es, (b - 1) as nat) + if occurs(es, (b - 1) as VariableId) {
            1nat
        } else {
            0nat
        }
    }
}

/// Lemma: fewer occurring variables give a smaller count, strictly when one is lost.
proof fn lemma_var_count(es1: Seq<(Term, Term)>, es2: Seq<(Term, Term)>, b: nat, x: VariableId)
    requires
        b <= usize::MAX + 1,
        forall|v: VariableId| v < b && occurs(es2, v) ==> occurs(es1, v),
    ensures
        var_count(es2, b) <= var_count(es1, b),
        x < b && occurs(es1, x) && !occurs(es2, x) ==> var_count(es2, b) < var_count(es1, b),
    decreases b,
{
    if b > 0 {
        lemma_var_count(es1, es2, (b - 1) as nat, x);
    }
}

/// Lemma: sizes of concatenated lists add up.
proof fn lemma_sizes_add(a: Seq<(Term, Term)>, b: Seq<(Term, Term)>)
    ensures
        sizes(a + b) == sizes(a) + sizes(b),
        misoriented(a + b) == misoriented(a) + misoriented(b),
    decreases b.len(),
{
    if b.len() > 0 {
        lemma_sizes_add(a, b.drop_last());
        assert((a + b).drop_last() =~= a + b.drop_last());
    } else {
        assert(a + b =~= a);
    }
}

/// Lemma: sizes and misoriented count of a list with one element removed.
proof fn lemma_sizes_remove(es: Seq<(Term, Term)>, i: int)
    requires
        0 <= i < es.len(),
    ensures
        sizes(es) == sizes(es.remove(i)) + term_size(es[i].0) + term_size(es[i].1),
        misoriented(es) == misoriented(es.remove(i)) + if !(es[i].0 is Var) && es[i].1 is Var {
            1nat
        } else {
            0nat
        },
{
    let a = es.take(i);
    let b = es.skip(i + 1);
    assert(es =~= a + seq![es[i]] + b);
    assert(es.remove(i) =~= a + b);
    lemma_sizes_add(a + seq![es[i]], b);
    lemma_sizes_add(a, seq![es[i]]);
    lemma_sizes_add(a, b);
    let one = seq![es[i]];
    assert(one.drop_last() =~= Seq::<(Term, Term)>::empty());
    assert(one.last() == es[i]);
    assert(sizes(one) == sizes(one.drop_last()) + term_size(es[i].0) + term_size(es[i].1));
    assert(misoriented(one) == misoriented(one.drop_last()) + if !(es[i].0 is Var) && es[i].1 is Var {
        1nat
    } else {
        0nat
    });
}

/// Lemma: the sizes of the children's equations are the sizes of both symbols but their roots.
proof fn lemma_child_sizes(ls: Seq<Term>, rs: Seq<Term>, k: int)
    requires
        ls.len() == rs.len(),
        0 <= k <= ls.len(),
    ensures
        sizes(child_equations(ls, rs).take(k)) == crate::language::expression::sizes_sum(ls, k)
            + crate::language::expression::sizes_sum(rs, k),
    decreases k,
{
    if k > 0 {
        lemma_child_sizes(ls, rs, k - 1);
        assert(child_equations(ls, rs).take(k).drop_last() =~= child_equations(ls, rs).take(k - 1));
    }
}

/// Lemma: substituting `x` by `s` and then applying `rho` is applying `rho`
/// with `x` bound to the image of `s`.
proof fn lemma_subst_compose(t: Term, x: VariableId, s: Term, rho: Map<VariableId, Term>)
    ensures
        subst(subst(t, map![x => s]), rho) == subst(t, rho.insert(x, subst(s, rho))),
    decreases t,
{
    match t {
        Term::Var(v) => {
            if v == x {
                assert(lookup(map![x => s], v) == s);
            } else {
                assert(lookup(map![x => s], v) == Term::Var(v));
            }
        },
        Term::Sym(id, cs) => {
            let m = map![x => s];
            let inner = subst(t, m);
            lemma_subst_sym(id, cs, m);
            lemma_subst_sym(id, inner->1, rho);
            lemma_subst_sym(id, cs, rho.insert(x, subst(s, rho)));
            assert forall|i: int| 0 <= i < cs.len() implies subst(inner->1[i], rho) == subst(
                cs[i],
                rho.insert(x, subst(s, rho)),
            ) by {
                lemma_subst_compose(cs[i], x, s, rho);
            }
            assert(subst(inner, rho)->1 =~= subst(t, rho.insert(x, subst(s, rho)))->1);
        },
        _ => {},
    }
}

/// Lemma: substituting one more binding at the end.
proof fn lemma_apply_seq_push(bs: Seq<(VariableId, Term)>, b: (VariableId, Term), t: Term)
    ensures
        apply_seq(bs.push(b), t) == subst(apply_seq(bs, t), map![b.0 => b.1]),
    decreases bs.len(),
{
    if bs.len() == 0 {
        assert(bs.push(b).drop_first() =~= Seq::<(VariableId, Term)>::empty());
        assert(bs.push(b)[0] == b);
        let u = subst(t, map![b.0 => b.1]);
        assert(apply_seq(Seq::<(VariableId, Term)>::empty(), u) == u);
        assert(apply_seq(bs, t) == t);
    } else {
        assert(bs.push(b).drop_first() =~= bs.drop_first().push(b));
        assert(bs.push(b)[0] == bs[0]);
        lemma_apply_seq_push(bs.drop_first(), b, subst(t, map![bs[0].0 => bs[0].1]));
    }
}

/// Lemma: a variable that does not occur in `t` does not occur after substituting
/// for another variable a term in which it does not occur either; and no new
/// variable appears.
proof fn lemma_has_var_subst(t: Term, x: VariableId, s: Term, v: VariableId)
    ensures
        has_var(subst(t, map![x => s]), v) ==> (has_var(t, v) && v != x) || (has_var(t, x) && has_var(s, v)),
    decreases t,
{
    match t {
        Term::Var(w) => {
            if w == x {
                assert(lookup(map![x => s], w) == s);
            } else {
                assert(lookup(map![x => s], w) == Term::Var(w));
            }
        },
        Term::Sym(id, cs) => {
            lemma_subst_sym(id, cs, map![x => s]);
            if has_var(subst(t, map![x => s]), v) {
                let r = subst(t, map![x => s]);
                let i = choose|i: int| 0 <= i < r->1.len() && has_var(#[trigger] r->1[i], v);
                lemma_has_var_subst(cs[i], x, s, v);
                if has_var(cs[i], v) {
                    assert(has_var(t, v));
                }
                if has_var(cs[i], x) {
                    assert(has_var(t, x));
                }
            }
        },
        _ => {},
    }
}

/// Lemma: applying a substitution that does not touch the variables of `t` leaves it alone.
proof fn lemma_subst_absent(t: Term, x: VariableId, s: Term)
    requires
        !has_var(t, x),
    ensures
        subst(t, map![x => s]) == t,
    decreases t,
{
    match t {
        Term::Sym(id, cs) => {
            lemma_subst_sym(id, cs, map![x => s]);
            assert forall|i: int| 0 <= i < cs.len() implies subst(cs[i], map![x => s]) == cs[i] by {
                if has_var(cs[i], x) {
                    assert(has_var(t, x));
                }
                lemma_subst_absent(cs[i], x, s);
            }
            assert(subst(t, map![x => s])->1 =~= cs);
        },
        Term::Var(w) => {
            assert(lookup(map![x => s], w) == Term::Var(w));
        },
        _ => {},
    }
}

/// A substitution: a term for each of some variables.
#[derive(Debug)]
pub struct Substitution {
    bindings: ExpressionMatch,
}

impl View for Substitution {
    type V = Map<VariableId, Term>;

    closed spec fn view(&self) -> Map<VariableId, Term> {
        self.bindings@
    }
}

impl Clone for Substitution {
    fn clone(&self) -> (r: Self)
        ensures
            r@ == self@,
    {
        Substitution { bindings: self.bindings.clone() }
    }
}

impl Substitution {
    /// The substitution that binds nothing.
    pub fn new() -> (r: Self)
        ensures
            r@ == Map::<VariableId, Term>::empty(),
    {
        Substitution { bindings: ExpressionMatch::new() }
    }

    /// The term bound to `variable`, if any.
    pub fn get(&self, variable: VariableId) -> (r: Option<&Expression>)
        ensures
            r is Some == self@.contains_key(variable),
            r matches Some(e) ==> e@ == self@[variable],
    {
        self.bindings.at(variable)
    }

    /// `true` when both substitutions bind the same variables to the same terms.
    #[verifier::loop_isolation(false)]
    pub fn same_as(&self, other: &Substitution) -> (r: bool)
        ensures
            r == (self@ == other@),
    {
        let a = self.bindings.entries();
        let b = other.bindings.entries();
        proof {
            lemma_assoc_map(a@);
            lemma_assoc_map(b@);
        }
        let mut i: usize = 0;
        while i < a.len()
            invariant
                crate::assoc::assoc_wf(a@),
                expr_map(a@) == self@,
                i <= a@.len(),
                forall|j: int| 0 <= j < i ==> other@.contains_key(#[trigger] a@[j].0) && other@[a@[j].0] == self@[a@[j].0],
            decreases a.len() - i,
        {
            proof {
                assert(crate::assoc::assoc_map(a@)[a@[i as int].0] == a@[i as int].1);
                assert(self@.contains_key(a@[i as int].0));
            }
            match other.get(a[i].0) {
                None => {
                    return false;
                },
                Some(e) => {
                    if !a[i].1.same_as(e) {
                        return false;
                    }
                },
            }
            i = i + 1;
        }
        let mut j: usize = 0;
        while j < b.len()
            invariant
                crate::assoc::assoc_wf(b@),
                expr_map(b@) == other@,
                j <= b@.len(),
                forall|k: int| 0 <= k < j ==> self@.contains_key(#[trigger] b@[k].0),
            decreases b.len() - j,
        {
            proof {
                assert(other@.contains_key(b@[j as int].0));
            }
            if self.get(b[j].0).is_none() {
                return false;
            }
            j = j + 1;
        }
        proof {
            assert forall|k: VariableId| #[trigger] self@.contains_key(k) implies other@.contains_key(k) && other@[k] == self@[k] by {
                let x = choose|x: int| 0 <= x < a@.len() && a@[x].0 == k;
                assert(other@.contains_key(a@[x].0));
            }
            assert forall|k: VariableId| #[trigger] other@.contains_key(k) implies self@.contains_key(k) by {
                let x = choose|x: int| 0 <= x < b@.len() && b@[x].0 == k;
                assert(self@.contains_key(b@[x].0));
            }
            assert(self@ =~= other@);
        }
        true
    }

    /// Renames the variables by `f`: each binding of `v` becomes one of `f(v)`;
    /// when `f` gives two variables the same name, the binding listed later
    /// stays.
    pub fn map_variables<F: Fn(VariableId) -> VariableId>(&mut self, f: F)
        requires
            forall|v: VariableId| #[trigger] old(self)@.contains_key(v) ==> call_requires(f, (v,)),
        ensures
            forall|k: VariableId|
                #[trigger] final(self)@.contains_key(k) ==> exists|v: VariableId|
                    old(self)@.contains_key(v) && call_ensures(f, (v,), k) && final(self)@[k] == old(self)@[v],
            forall|v: VariableId|
                #[trigger] old(self)@.contains_key(v) ==> exists|k: VariableId|
                    final(self)@.contains_key(k) && call_ensures(f, (v,), k),
    {
        let entries = self.bindings.entries();
        proof {
            lemma_assoc_map(entries@);
            assert forall|j: int| 0 <= j < entries@.len() implies #[trigger] self@.contains_key(entries@[j].0)
                && self@[entries@[j].0] == entries@[j].1@ by {
                assert(crate::assoc::assoc_map(entries@).contains_key(entries@[j].0));
            }
        }
        let mut renamed = ExpressionMatch::new();
        let ghost mut ks: Seq<VariableId> = Seq::empty();
        let mut i: usize = 0;
        while i < entries.len()
            invariant
                crate::assoc::assoc_wf(entries@),
                expr_map(entries@) == self@,
                forall|v: VariableId| #[trigger] self@.contains_key(v) ==> call_requires(f, (v,)),
                forall|j: int| 0 <= j < entries@.len() ==> #[trigger] self@.contains_key(entries@[j].0)
                    && self@[entries@[j].0] == entries@[j].1@,
                i <= entries@.len(),
                ks.len() == i,
                forall|j: int| 0 <= j < i ==> renamed@.contains_key(#[trigger] ks[j]) && call_ensures(f, (entries@[j].0,), ks[j]),
                forall|k: VariableId|
                    #[trigger] renamed@.contains_key(k) ==> exists|j: int|
                        0 <= j < i && ks[j] == k && renamed@[k] == #[trigger] entries@[j].1@,
            decreases entries@.len() - i,
        {
            proof {
                assert(self@.contains_key(entries@[i as int].0));
            }
            let k = f(entries[i].0);
            let ghost before = renamed@;
            renamed.set(k, entries[i].1.clone());
            proof {
                ks = ks.push(k);
                assert forall|j: int| 0 <= j < i + 1 implies renamed@.contains_key(#[trigger] ks[j]) && call_ensures(
                    f,
                    (entries@[j].0,),
                    ks[j],
                ) by {}
                assert forall|k2: VariableId| #[trigger] renamed@.contains_key(k2) implies exists|j: int|
                    0 <= j < i + 1 && ks[j] == k2 && renamed@[k2] == #[trigger] entries@[j].1@ by {
                    if k2 == k {
                        assert(ks[i as int] == k2 && renamed@[k2] == entries@[i as int].1@);
                    } else {
                        assert(before.contains_key(k2));
                        let j = choose|j: int| 0 <= j < i && ks[j] == k2 && before[k2] == #[trigger] entries@[j].1@;
                        assert(ks[j] == k2 && renamed@[k2] == entries@[j].1@);
                    }
                }
            }
            i = i + 1;
        }
        proof {
            lemma_assoc_map(entries@);
            assert forall|k: VariableId| #[trigger] renamed@.contains_key(k) implies exists|v: VariableId|
                self@.contains_key(v) && call_ensures(f, (v,), k) && renamed@[k] == self@[v] by {
                let j = choose|j: int| 0 <= j < entries@.len() && ks[j] == k && renamed@[k] == #[trigger] entries@[j].1@;
                assert(self@.contains_key(entries@[j].0));
            }
            assert forall|v: VariableId| #[trigger] self@.contains_key(v) implies exists|k: VariableId|
                renamed@.contains_key(k) && call_ensures(f, (v,), k) by {
                assert(crate::assoc::assoc_map(entries@).contains_key(v));
                let j = choose|j: int| 0 <= j < entries@.len() && entries@[j].0 == v;
                assert(renamed@.contains_key(ks[j]));
                assert(call_ensures(f, (v,), ks[j]));
            }
        }
        let ghost result = renamed@;
        self.bindings = renamed;
        assert(self@ == result);
    }

    /// Replaces `variable` by `value` in every term the substitution binds.
    pub fn substitute_in_values(&mut self, variable: VariableId, value: &Expression)
        ensures
            final(self)@ == old(self)@.map_values(|t: Term| subst(t, map![variable => value@])),
    {
        let entries = self.bindings.entries();
        proof {
            lemma_assoc_map(entries@);
            assert forall|j: int| 0 <= j < entries@.len() implies #[trigger] self@.contains_key(entries@[j].0)
                && self@[entries@[j].0] == entries@[j].1@ by {
                assert(crate::assoc::assoc_map(entries@).contains_key(entries@[j].0));
            }
        }
        let ghost target = self@.map_values(|t: Term| subst(t, map![variable => value@]));
        let mut updated = ExpressionMatch::new();
        let mut i: usize = 0;
        while i < entries.len()
            invariant
                crate::assoc::assoc_wf(entries@),
                expr_map(entries@) == self@,
                target == self@.map_values(|t: Term| subst(t, map![variable => value@])),
                forall|j: int| 0 <= j < entries@.len() ==> #[trigger] self@.contains_key(entries@[j].0)
                    && self@[entries@[j].0] == entries@[j].1@,
                i <= entries@.len(),
                forall|k: VariableId| #[trigger] updated@.contains_key(k) ==> target.contains_key(k) && updated@[k] == target[k],
                forall|j: int| 0 <= j < i ==> updated@.contains_key(#[trigger] entries@[j].0),
            decreases entries@.len() - i,
        {
            let t = entries[i].1.substituted(variable, value);
            let ghost before = updated@;
            updated.set(entries[i].0, t);
            proof {
                assert(self@.contains_key(entries@[i as int].0));
                assert forall|j: int| 0 <= j < i + 1 implies updated@.contains_key(#[trigger] entries@[j].0) by {
                    if j < i {
                        assert(before.contains_key(entries@[j].0));
                    }
                }
            }
            i = i + 1;
        }
        proof {
            lemma_assoc_map(entries@);
            assert forall|k: VariableId| #[trigger] target.contains_key(k) implies updated@.contains_key(k) by {
                assert(crate::assoc::assoc_map(entries@).contains_key(k));
                let j = choose|j: int| 0 <= j < entries@.len() && entries@[j].0 == k;
                assert(updated@.contains_key(entries@[j].0));
            }
            assert(updated@ =~= target);
        }
        self.bindings = updated;
    }

    /// Binds `variable` to `expression`.
    pub fn set(&mut self, variable: VariableId, expression: Expression)
        ensures
            final(self)@ == old(self)@.insert(variable, expression@),
    {
        self.bindings.set(variable, expression);
    }

    /// The bindings of the variables below `variable`, and those of the others.
    pub fn split_at(self, variable: VariableId) -> (r: (Self, Self))
        ensures
            r.0@ == self@.restrict(Set::new(|v: VariableId| v < variable)),
            r.1@ == self@.restrict(Set::new(|v: VariableId| v >= variable)),
    {
        let entries = self.bindings.entries();
        let mut first = Substitution::new();
        let mut second = Substitution::new();
        proof {
            lemma_assoc_map(entries@);
        }
        let mut i: usize = 0;
        while i < entries.len()
            invariant
                crate::assoc::assoc_wf(entries@),
                expr_map(entries@) == self@,
                i <= entries@.len(),
                first@ == expr_map(entries@.take(i as int)).restrict(Set::new(|v: VariableId| v < variable)),
                second@ == expr_map(entries@.take(i as int)).restrict(Set::new(|v: VariableId| v >= variable)),
            decreases entries@.len() - i,
        {
            let (v, e) = &entries[i];
            proof {
                crate::rewriting::matching::lemma_expr_map_push(entries@.take(i as int), *v, *e);
                assert(entries@.take(i as int).push((*v, *e)) =~= entries@.take(i + 1));
            }
            if *v < variable {
                first.set(*v, e.clone());
            } else {
                second.set(*v, e.clone());
            }
            proof {
                assert(first@ =~= expr_map(entries@.take(i + 1)).restrict(Set::new(|w: VariableId| w < variable)));
                assert(second@ =~= expr_map(entries@.take(i + 1)).restrict(Set::new(|w: VariableId| w >= variable)));
            }
            i = i + 1;
        }
        assert(entries@.take(entries@.len() as int) =~= entries@);
        (first, second)
    }

    /// Renames every bound variable `v` to `v + shift`.
    pub fn shift_positive(&mut self, shift: usize)
        requires
            forall|v: VariableId| old(self)@.contains_key(v) ==> v + shift <= usize::MAX,
        ensures
            forall|v: VariableId| #[trigger] final(self)@.contains_key(v) <==> (v >= shift && old(self)@.contains_key((v - shift) as VariableId)),
            forall|v: VariableId| #[trigger] final(self)@.contains_key(v) ==> final(self)@[v] == old(self)@[(v - shift) as VariableId],
    {
        let entries = self.bindings.entries();
        let mut shifted = Substitution::new();
        proof {
            lemma_assoc_map(entries@);
        }
        let mut i: usize = 0;
        while i < entries.len()
            invariant
                crate::assoc::assoc_wf(entries@),
                expr_map(entries@) == old(self)@,
                forall|v: VariableId| old(self)@.contains_key(v) ==> v + shift <= usize::MAX,
                i <= entries@.len(),
                forall|v: VariableId| #[trigger] shifted@.contains_key(v) <==> (v >= shift && expr_map(entries@.take(i as int)).contains_key((v - shift) as VariableId)),
                forall|v: VariableId| #[trigger] shifted@.contains_key(v) ==> shifted@[v] == expr_map(entries@.take(i as int))[(v - shift) as VariableId],
            decreases entries@.len() - i,
        {
            let (v, e) = &entries[i];
            proof {
                crate::rewriting::matching::lemma_expr_map_push(entries@.take(i as int), *v, *e);
                assert(entries@.take(i as int).push((*v, *e)) =~= entries@.take(i + 1));
                lemma_assoc_map(entries@);
                assert(entries@[i as int].0 == *v);
                assert(crate::assoc::assoc_map(entries@).contains_key(*v));
                assert(expr_map(entries@).contains_key(*v));
            }
            shifted.set(*v + shift, e.clone());
            i = i + 1;
        }
        assert(entries@.take(entries@.len() as int) =~= entries@);
        *self = shifted;
    }

    /// Renames every bound variable `v` to `v - shift`.
    pub fn shift_negative(&mut self, shift: usize)
        requires
            forall|v: VariableId| old(self)@.contains_key(v) ==> v >= shift,
        ensures
            forall|v: VariableId| #[trigger] final(self)@.contains_key(v) <==> (v + shift <= usize::MAX && old(self)@.contains_key((v + shift) as VariableId)),
            forall|v: VariableId| #[trigger] final(self)@.contains_key(v) ==> final(self)@[v] == old(self)@[(v + shift) as VariableId],
    {
        let entries = self.bindings.entries();
        let mut shifted = Substitution::new();
        proof {
            lemma_assoc_map(entries@);
        }
        let mut i: usize = 0;
        while i < entries.len()
            invariant
                crate::assoc::assoc_wf(entries@),
                expr_map(entries@) == old(self)@,
                forall|v: VariableId| old(self)@.contains_key(v) ==> v >= shift,
                i <= entries@.len(),
                forall|v: VariableId| #[trigger] shifted@.contains_key(v) <==> (v + shift <= usize::MAX && expr_map(entries@.take(i as int)).contains_key((v + shift) as VariableId)),
                forall|v: VariableId| #[trigger] shifted@.contains_key(v) ==> shifted@[v] == expr_map(entries@.take(i as int))[(v + shift) as VariableId],
            decreases entries@.len() - i,
        {
            let (v, e) = &entries[i];
            proof {
                crate::rewriting::matching::lemma_expr_map_push(entries@.take(i as int), *v, *e);
                assert(entries@.take(i as int).push((*v, *e)) =~= entries@.take(i + 1));
                lemma_assoc_map(entries@);
                assert(entries@[i as int].0 == *v);
                assert(crate::assoc::assoc_map(entries@).contains_key(*v));
                assert(expr_map(entries@).contains_key(*v));
            }
            shifted.set(*v - shift, e.clone());
            i = i + 1;
        }
        assert(entries@.take(entries@.len() as int) =~= entries@);
        *self = shifted;
    }
}

/// The equations with `x` replaced by `s` on both sides.
pub open spec fn subst_all(es: Seq<(Term, Term)>, x: VariableId, s: Term) -> Seq<(Term, Term)> {
    es.map_values(|e: (Term, Term)| (subst(e.0, map![x => s]), subst(e.1, map![x => s])))
}

/// `true` when every substitution that unifies `es` unifies, after the bindings
/// `bs`, the equations `es0`.
pub open spec fn reduces_to(es0: Seq<(Term, Term)>, bs: Seq<(VariableId, Term)>, es: Seq<(Term, Term)>) -> bool {
    forall|rho: Map<VariableId, Term>|
        #[trigger] unifies(rho, es) ==> forall|j: int|
            0 <= j < es0.len() ==> subst(apply_seq(bs, #[trigger] es0[j].0), rho) == subst(apply_seq(bs, es0[j].1), rho)
}

proof fn lemma_occurs_remove(es: Seq<(Term, Term)>, i: int, v: VariableId)
    requires
        0 <= i < es.len(),
        occurs(es.remove(i), v),
    ensures
        occurs(es, v),
{
    let r = es.remove(i);
    let k = choose|k: int| 0 <= k < r.len() && (has_var(#[trigger] r[k].0, v) || has_var(r[k].1, v));
    if k < i {
        assert(r[k] == es[k]);
    } else {
        assert(r[k] == es[k + 1]);
    }
}

proof fn lemma_unifies_remove(es: Seq<(Term, Term)>, i: int, rho: Map<VariableId, Term>)
    requires
        0 <= i < es.len(),
        unifies(rho, es.remove(i)),
        subst(es[i].0, rho) == subst(es[i].1, rho),
    ensures
        unifies(rho, es),
{
    let r = es.remove(i);
    assert forall|k: int| 0 <= k < es.len() implies subst(#[trigger] es[k].0, rho) == subst(es[k].1, rho) by {
        if k < i {
            assert(r[k] == es[k]);
        } else if k > i {
            assert(r[k - 1] == es[k]);
        }
    }
}

proof fn lemma_term_size_pos(t: Term)
    ensures
        term_size(t) >= 1,
{
}

proof fn lemma_subst_empty(t: Term)
    ensures
        subst(t, Map::empty()) == t,
    decreases t,
{
    match t {
        Term::Sym(id, cs) => {
            lemma_subst_sym(id, cs, Map::empty());
            assert forall|k: int| 0 <= k < cs.len() implies subst(cs[k], Map::empty()) == cs[k] by {
                lemma_subst_empty(cs[k]);
            }
            assert(subst(t, Map::empty())->1 =~= cs);
        },
        _ => {},
    }
}

/// Lemma: deleting a trivial equation keeps the variables, shrinks the sizes
/// and keeps every unifier.
#[verifier::spinoff_prover]
#[verifier::rlimit(40)]
pub proof fn lemma_delete_step(es0: Seq<(Term, Term)>, bs: Seq<(VariableId, Term)>, es: Seq<(Term, Term)>, i: int, b: nat)
    requires
        0 <= i < es.len(),
        b == usize::MAX + 1,
        es[i].0 == es[i].1,
        reduces_to(es0, bs, es),
    ensures
        var_count(es.remove(i), b) <= var_count(es, b),
        sizes(es.remove(i)) < sizes(es),
        reduces_to(es0, bs, es.remove(i)),
{
    let e2 = es.remove(i);
    assert forall|v: VariableId| v < b && occurs(e2, v) implies occurs(es, v) by {
        lemma_occurs_remove(es, i, v);
    }
    lemma_var_count(es, e2, b, 0);
    lemma_sizes_remove(es, i);
    lemma_term_size_pos(es[i].0);
    assert forall|rho: Map<VariableId, Term>| #[trigger] unifies(rho, e2) implies forall|j: int|
        0 <= j < es0.len() ==> subst(apply_seq(bs, #[trigger] es0[j].0), rho) == subst(apply_seq(bs, es0[j].1), rho) by {
        lemma_unifies_remove(es, i, rho);
    }
}

/// Lemma: decomposing an equation between two applications of one symbol
/// keeps the variables, shrinks the sizes and keeps every unifier.
#[verifier::spinoff_prover]
#[verifier::rlimit(40)]
pub proof fn lemma_decompose_step(es0: Seq<(Term, Term)>, bs: Seq<(VariableId, Term)>, es: Seq<(Term, Term)>, i: int, b: nat)
    requires
        0 <= i < es.len(),
        b == usize::MAX + 1,
        es[i].0 is Sym && es[i].1 is Sym && es[i].0->Sym_0 == es[i].1->Sym_0 && es[i].0->1.len() == es[i].1->1.len(),
        reduces_to(es0, bs, es),
    ensures
        ({
            let e2 = es.remove(i) + child_equations(es[i].0->1, es[i].1->1);
            &&& var_count(e2, b) <= var_count(es, b)
            &&& sizes(e2) < sizes(es)
            &&& reduces_to(es0, bs, e2)
        }),
{
    let e = es[i];
    let ls = e.0->1;
    let rs = e.1->1;
    let ch = child_equations(ls, rs);
    let rest = es.remove(i);
    let e2 = rest + ch;
    assert forall|v: VariableId| v < b && occurs(e2, v) implies occurs(es, v) by {
        let k = choose|k: int| 0 <= k < e2.len() && (has_var(#[trigger] e2[k].0, v) || has_var(e2[k].1, v));
        if k < rest.len() {
            let k1 = if k < i { k } else { k + 1 };
            assert(e2[k] == rest[k]);
            assert(rest[k] == es[k1]);
            assert(has_var(es[k1].0, v) || has_var(es[k1].1, v));
        } else {
            let c = k - rest.len();
            assert(e2[k] == ch[c]);
            if has_var(ls[c], v) {
                assert(has_var(e.0, v));
            } else {
                assert(has_var(rs[c], v));
                assert(has_var(e.1, v));
            }
            assert(has_var(es[i].0, v) || has_var(es[i].1, v));
        }
    }
    lemma_var_count(es, e2, b, 0);
    lemma_sizes_remove(es, i);
    lemma_sizes_add(rest, ch);
    lemma_child_sizes(ls, rs, ls.len() as int);
    assert(ch.take(ls.len() as int) =~= ch);
    assert forall|rho: Map<VariableId, Term>| #[trigger] unifies(rho, e2) implies forall|j: int|
        0 <= j < es0.len() ==> subst(apply_seq(bs, #[trigger] es0[j].0), rho) == subst(apply_seq(bs, es0[j].1), rho) by {
        assert forall|k: int| 0 <= k < rest.len() implies subst(#[trigger] rest[k].0, rho) == subst(rest[k].1, rho) by {
            assert(e2[k] == rest[k]);
        }
        lemma_subst_sym(e.0->Sym_0, ls, rho);
        lemma_subst_sym(e.1->Sym_0, rs, rho);
        assert forall|k: int| 0 <= k < ls.len() implies subst(e.0, rho)->1[k] == subst(e.1, rho)->1[k] by {
            assert(e2[rest.len() + k] == ch[k]);
            assert(subst(e2[rest.len() + k].0, rho) == subst(e2[rest.len() + k].1, rho));
        }
        assert(subst(e.0, rho)->1 =~= subst(e.1, rho)->1);
        lemma_unifies_remove(es, i, rho);
    }
}

/// Lemma: eliminating a variable bound by an equation removes it from the
/// problem, and a unifier of the result gives, after the binding, a unifier
/// of the original equations.
#[verifier::spinoff_prover]
#[verifier::rlimit(40)]
pub proof fn lemma_eliminate_step(es0: Seq<(Term, Term)>, bs: Seq<(VariableId, Term)>, es: Seq<(Term, Term)>, i: int, b: nat)
    requires
        0 <= i < es.len(),
        b == usize::MAX + 1,
        es[i].0 is Var,
        !has_var(es[i].1, es[i].0->Var_0),
        reduces_to(es0, bs, es),
    ensures
        ({
            let x = es[i].0->Var_0;
            let s = es[i].1;
            let e2 = subst_all(es.remove(i), x, s);
            &&& var_count(e2, b) < var_count(es, b)
            &&& reduces_to(es0, bs.push((x, s)), e2)
        }),
{
    let e = es[i];
    let x = e.0->Var_0;
    let s = e.1;
    let rest = es.remove(i);
    let e2 = subst_all(rest, x, s);
    let bs2 = bs.push((x, s));
    assert(has_var(e.0, x));
    assert forall|v: VariableId| v < b && occurs(e2, v) implies occurs(es, v) && v != x by {
        let k = choose|k: int| 0 <= k < e2.len() && (has_var(#[trigger] e2[k].0, v) || has_var(e2[k].1, v));
        lemma_has_var_subst(rest[k].0, x, s, v);
        lemma_has_var_subst(rest[k].1, x, s, v);
        if has_var(s, v) {
            assert(has_var(es[i].1, v));
        }
        if has_var(rest[k].0, v) || has_var(rest[k].1, v) {
            assert(occurs(rest, v));
            lemma_occurs_remove(es, i, v);
        }
    }
    assert(occurs(es, x)) by {
        assert(has_var(es[i].0, x));
    }
    lemma_var_count(es, e2, b, x);
    assert forall|rho: Map<VariableId, Term>| #[trigger] unifies(rho, e2) implies forall|j: int|
        0 <= j < es0.len() ==> subst(apply_seq(bs2, #[trigger] es0[j].0), rho) == subst(apply_seq(bs2, es0[j].1), rho) by {
        let rho_x = rho.insert(x, subst(s, rho));
        assert forall|k: int| 0 <= k < es.len() implies subst(#[trigger] es[k].0, rho_x) == subst(es[k].1, rho_x) by {
            if k == i {
                assert forall|v: VariableId| has_var(s, v) implies lookup(rho_x, v) == lookup(rho, v) by {
                    assert(v != x);
                }
                lemma_subst_agree(s, rho_x, rho);
                assert(es[k].0 == Term::Var(x) && es[k].1 == s);
                assert(subst(Term::Var(x), rho_x) == lookup(rho_x, x));
            } else {
                let k2 = if k < i { k } else { k - 1 };
                assert(rest[k2] == es[k]);
                assert(e2[k2] == (subst(rest[k2].0, map![x => s]), subst(rest[k2].1, map![x => s])));
                assert(subst(e2[k2].0, rho) == subst(e2[k2].1, rho));
                lemma_subst_compose(es[k].0, x, s, rho);
                lemma_subst_compose(es[k].1, x, s, rho);
            }
        }
        assert(unifies(rho_x, es));
        assert forall|j: int| 0 <= j < es0.len() implies subst(apply_seq(bs2, #[trigger] es0[j].0), rho) == subst(
            apply_seq(bs2, es0[j].1),
            rho,
        ) by {
            lemma_apply_seq_push(bs, (x, s), es0[j].0);
            lemma_apply_seq_push(bs, (x, s), es0[j].1);
            lemma_subst_compose(apply_seq(bs, es0[j].0), x, s, rho);
            lemma_subst_compose(apply_seq(bs, es0[j].1), x, s, rho);
        }
    }
}

/// Lemma: turning round an equation `t = x` whose left side is no variable
/// keeps the variables and sizes, lowers the misoriented count and keeps
/// every unifier.
#[verifier::spinoff_prover]
#[verifier::rlimit(40)]
pub proof fn lemma_orient_step(es0: Seq<(Term, Term)>, bs: Seq<(VariableId, Term)>, es: Seq<(Term, Term)>, i: int, b: nat)
    requires
        0 <= i < es.len(),
        b == usize::MAX + 1,
        es[i].1 is Var,
        es[i].0 != es[i].1,
        es[i].0 is Var ==> has_var(es[i].1, es[i].0->Var_0),
        reduces_to(es0, bs, es),
    ensures
        ({
            let e2 = es.update(i, (es[i].1, es[i].0));
            &&& var_count(e2, b) == var_count(es, b)
            &&& sizes(e2) == sizes(es)
            &&& misoriented(e2) < misoriented(es)
            &&& reduces_to(es0, bs, e2)
        }),
{
    let e = es[i];
    let e2 = es.update(i, (e.1, e.0));
    assert(e2[i] == (e.1, e.0));
    if e.0 is Var {
        assert(has_var(e.1, e.0->Var_0));
        assert(e.1 == e.0);
    }
    assert forall|v: VariableId| v < b && occurs(e2, v) implies occurs(es, v) by {
        let k = choose|k: int| 0 <= k < e2.len() && (has_var(#[trigger] e2[k].0, v) || has_var(e2[k].1, v));
        if k == i {
            assert(e2[k].0 == es[i].1 && e2[k].1 == es[i].0);
            assert(has_var(es[i].0, v) || has_var(es[i].1, v));
        } else {
            assert(e2[k] == es[k]);
        }
    }
    assert forall|v: VariableId| v < b && occurs(es, v) implies occurs(e2, v) by {
        let k = choose|k: int| 0 <= k < es.len() && (has_var(#[trigger] es[k].0, v) || has_var(es[k].1, v));
        if k == i {
            assert(e2[i].0 == es[k].1 && e2[i].1 == es[k].0);
            assert(has_var(e2[i].0, v) || has_var(e2[i].1, v));
        } else {
            assert(e2[k] == es[k]);
        }
    }
    lemma_var_count(es, e2, b, 0);
    lemma_var_count(e2, es, b, 0);
    lemma_sizes_remove(es, i);
    lemma_sizes_remove(e2, i);
    assert(e2.remove(i) =~= es.remove(i));
    assert forall|rho: Map<VariableId, Term>| #[trigger] unifies(rho, e2) implies forall|j: int|
        0 <= j < es0.len() ==> subst(apply_seq(bs, #[trigger] es0[j].0), rho) == subst(apply_seq(bs, es0[j].1), rho) by {
        assert forall|k: int| 0 <= k < es.len() implies subst(#[trigger] es[k].0, rho) == subst(es[k].1, rho) by {
            if k != i {
                assert(e2[k] == es[k]);
            } else {
                assert(subst(e2[i].0, rho) == subst(e2[i].1, rho));
                assert(e2[i].0 == es[k].1 && e2[i].1 == es[k].0);
            }
        }
        assert(unifies(rho, es));
    }
}

/// The bound below which all variables lie.
pub open spec fn var_bound() -> nat {
    (usize::MAX + 1) as nat
}

/// `true` when decomposition applies to `e`: both sides apply the same symbol
/// to as many children.
pub open spec fn decomposable(e: (Term, Term)) -> bool {
    e.0 is Sym && e.1 is Sym && e.0->Sym_0 == e.1->Sym_0 && e.0->1.len() == e.1->1.len()
}

/// `true` when elimination applies to `e`: its left side is a variable that
/// does not occur on its right side.
pub open spec fn eliminable(e: (Term, Term)) -> bool {
    e.0 is Var && !has_var(e.1, e.0->Var_0)
}

/// `true` when one of delete, decompose, eliminate and orient applies to `e`.
pub open spec fn rule_applies(e: (Term, Term)) -> bool {
    e.0 == e.1 || decomposable(e) || eliminable(e) || e.1 is Var
}

/// The first index from `i` on of an equation that a rule applies to, or the
/// number of equations when there is none.
pub open spec fn first_applicable(es: Seq<(Term, Term)>, i: int) -> int
    decreases es.len() - i,
{
    if i >= es.len() {
        es.len() as int
    } else if rule_applies(es[i]) {
        i
    } else {
        first_applicable(es, i + 1)
    }
}

/// Lemma: the first applicable index lies between `i` and the end, and a rule
/// applies there unless it is the end.
pub proof fn lemma_first_applicable(es: Seq<(Term, Term)>, i: int)
    requires
        0 <= i,
    ensures
        i <= first_applicable(es, i) <= es.len() || (i > es.len() && first_applicable(es, i) == es.len()),
        first_applicable(es, i) < es.len() ==> rule_applies(es[first_applicable(es, i)]),
        forall|j: int| i <= j < first_applicable(es, i) ==> !rule_applies(#[trigger] es[j]),
    decreases es.len() - i,
{
    if i < es.len() && !rule_applies(es[i]) {
        lemma_first_applicable(es, i + 1);
    }
}

/// What solving does with the equations `es` when the bindings `bs` have been
/// made: the first rule, among delete, decompose, eliminate and orient in this
/// order, that applies to the first equation one of them applies to is
/// applied, until none applies; the bindings are the result when no equation
/// is left, and there is none when some are left.
pub open spec fn solve_spec(es: Seq<(Term, Term)>, bs: Seq<(VariableId, Term)>) -> Option<Seq<(VariableId, Term)>>
    decreases var_count(es, var_bound()), sizes(es), misoriented(es),
{
    let k = first_applicable(es, 0);
    if k >= es.len() {
        if es.len() == 0 {
            Some(bs)
        } else {
            None
        }
    } else {
        let e = es[k];
        proof {
            lemma_first_applicable(es, 0);
            assert(reduces_to(Seq::empty(), bs, es));
        }
        if e.0 == e.1 {
            proof {
                lemma_delete_step(Seq::empty(), bs, es, k, var_bound());
            }
            solve_spec(es.remove(k), bs)
        } else if decomposable(e) {
            proof {
                lemma_decompose_step(Seq::empty(), bs, es, k, var_bound());
            }
            solve_spec(es.remove(k) + child_equations(e.0->1, e.1->1), bs)
        } else if eliminable(e) {
            proof {
                lemma_eliminate_step(Seq::empty(), bs, es, k, var_bound());
            }
            solve_spec(subst_all(es.remove(k), e.0->Var_0, e.1), bs.push((e.0->Var_0, e.1)))
        } else {
            proof {
                lemma_orient_step(Seq::empty(), bs, es, k, var_bound());
            }
            solve_spec(es.update(k, (e.1, e.0)), bs)
        }
    }
}

/// Lemma: a term of the first `n` children is at most as large as their sizes together.
proof fn lemma_sizes_sum_member(cs: Seq<Term>, i: int, n: int)
    requires
        0 <= i < n <= cs.len(),
    ensures
        term_size(cs[i]) <= crate::language::expression::sizes_sum(cs, n),
    decreases n,
{
    if i < n - 1 {
        lemma_sizes_sum_member(cs, i, n - 1);
    }
}

/// Lemma: a term in which `x` occurs is, after substitution, at least as large
/// as the image of `x`, and larger when it is not `x` itself.
proof fn lemma_subst_size_var(t: Term, x: VariableId, rho: Map<VariableId, Term>)
    requires
        has_var(t, x),
    ensures
        term_size(subst(t, rho)) >= term_size(lookup(rho, x)),
        t is Sym ==> term_size(subst(t, rho)) > term_size(lookup(rho, x)),
    decreases t,
{
    if let Term::Sym(id, cs) = t {
        let i = choose|i: int| 0 <= i < cs.len() && has_var(#[trigger] cs[i], x);
        lemma_subst_size_var(cs[i], x, rho);
        lemma_subst_sym(id, cs, rho);
        let st = subst(t, rho);
        lemma_sizes_sum_member(st->1, i, st->1.len() as int);
    }
}

/// Lemma: no substitution makes both sides of an equation equal when no rule
/// applies to it.
proof fn lemma_stuck_not_unified(e: (Term, Term), rho: Map<VariableId, Term>)
    requires
        !rule_applies(e),
    ensures
        subst(e.0, rho) != subst(e.1, rho),
{
    match e.0 {
        Term::Var(x) => {
            lemma_subst_size_var(e.1, x, rho);
        },
        Term::Lit(_) => {},
        Term::Sym(id, cs) => {
            lemma_subst_sym(id, cs, rho);
            if let Term::Sym(id2, cs2) = e.1 {
                lemma_subst_sym(id2, cs2, rho);
            }
        },
    }
}

/// Lemma: solving equations that some substitution unifies gives bindings.
proof fn lemma_solve_spec_complete(es: Seq<(Term, Term)>, bs: Seq<(VariableId, Term)>, rho: Map<VariableId, Term>)
    requires
        unifies(rho, es),
    ensures
        solve_spec(es, bs) is Some,
    decreases var_count(es, var_bound()), sizes(es), misoriented(es),
{
    let k = first_applicable(es, 0);
    lemma_first_applicable(es, 0);
    assert(reduces_to(Seq::empty(), bs, es));
    if k >= es.len() {
        if es.len() > 0 {
            assert(!rule_applies(es[0]));
            lemma_stuck_not_unified(es[0], rho);
            assert(subst(es[0].0, rho) == subst(es[0].1, rho));
        }
    } else {
        let e = es[k];
        if e.0 == e.1 {
            lemma_delete_step(Seq::empty(), bs, es, k, var_bound());
            let e2 = es.remove(k);
            assert forall|j: int| 0 <= j < e2.len() implies subst(#[trigger] e2[j].0, rho) == subst(e2[j].1, rho) by {
                if j < k {
                    assert(e2[j] == es[j]);
                } else {
                    assert(e2[j] == es[j + 1]);
                }
            }
            lemma_solve_spec_complete(e2, bs, rho);
        } else if decomposable(e) {
            lemma_decompose_step(Seq::empty(), bs, es, k, var_bound());
            let rest = es.remove(k);
            let ch = child_equations(e.0->1, e.1->1);
            let e2 = rest + ch;
            lemma_subst_sym(e.0->Sym_0, e.0->1, rho);
            lemma_subst_sym(e.1->Sym_0, e.1->1, rho);
            assert(subst(es[k].0, rho) == subst(es[k].1, rho));
            assert forall|j: int| 0 <= j < e2.len() implies subst(#[trigger] e2[j].0, rho) == subst(e2[j].1, rho) by {
                if j < rest.len() {
                    assert(e2[j] == rest[j]);
                    if j < k {
                        assert(rest[j] == es[j]);
                    } else {
                        assert(rest[j] == es[j + 1]);
                    }
                } else {
                    let c = j - rest.len();
                    assert(e2[j] == ch[c]);
                    assert(subst(e.0, rho)->1[c] == subst(e.1, rho)->1[c]);
                }
            }
            lemma_solve_spec_complete(e2, bs, rho);
        } else if eliminable(e) {
            lemma_eliminate_step(Seq::empty(), bs, es, k, var_bound());
            let x = e.0->Var_0;
            let sx = e.1;
            let rest = es.remove(k);
            let e2 = subst_all(rest, x, sx);
            assert(subst(es[k].0, rho) == subst(es[k].1, rho));
            assert(lookup(rho, x) == subst(sx, rho));
            let rho_x = rho.insert(x, subst(sx, rho));
            assert forall|t: Term| #[trigger] subst(subst(t, map![x => sx]), rho) == subst(t, rho) by {
                lemma_subst_compose(t, x, sx, rho);
                assert forall|v: VariableId| has_var(t, v) implies lookup(rho_x, v) == lookup(rho, v) by {
                    if v == x {
                        assert(lookup(rho_x, v) == subst(sx, rho));
                    }
                }
                lemma_subst_agree(t, rho_x, rho);
            }
            assert forall|j: int| 0 <= j < e2.len() implies subst(#[trigger] e2[j].0, rho) == subst(e2[j].1, rho) by {
                let jj = if j < k { j } else { j + 1 };
                assert(rest[j] == es[jj]);
                assert(e2[j] == (subst(rest[j].0, map![x => sx]), subst(rest[j].1, map![x => sx])));
                assert(subst(subst(rest[j].0, map![x => sx]), rho) == subst(rest[j].0, rho));
                assert(subst(subst(rest[j].1, map![x => sx]), rho) == subst(rest[j].1, rho));
                assert(subst(es[jj].0, rho) == subst(es[jj].1, rho));
            }
            lemma_solve_spec_complete(e2, bs.push((x, sx)), rho);
        } else {
            lemma_orient_step(Seq::empty(), bs, es, k, var_bound());
            let e2 = es.update(k, (e.1, e.0));
            assert(subst(es[k].0, rho) == subst(es[k].1, rho));
            assert forall|j: int| 0 <= j < e2.len() implies subst(#[trigger] e2[j].0, rho) == subst(e2[j].1, rho) by {
                if j != k {
                    assert(e2[j] == es[j]);
                } else {
                    assert(e2[j] == (e.1, e.0));
                }
            }
            lemma_solve_spec_complete(e2, bs, rho);
        }
    }
}

/// Law: solving fails only when no substitution makes both sides of every
/// equation equal.
pub proof fn lemma_solve_complete(es: Seq<(Term, Term)>, rho: Map<VariableId, Term>)
    requires
        unifies(rho, es),
    ensures
        solve_spec(es, Seq::empty()) is Some,
{
    lemma_solve_spec_complete(es, Seq::empty(), rho);
}

/// `true` when the bindings `bs` bind the variable `v`.
pub open spec fn bound_in(bs: Seq<(VariableId, Term)>, v: VariableId) -> bool {
    exists|i: int| 0 <= i < bs.len() && #[trigger] bs[i].0 == v
}

/// The substitution, applied all at once, that the bindings `bs` made one after
/// the other amount to: each bound variable goes to what the bindings make of it.
pub open spec fn solved_map(bs: Seq<(VariableId, Term)>) -> Map<VariableId, Term> {
    Map::new(|v: VariableId| bound_in(bs, v), |v: VariableId| apply_seq(bs, Term::Var(v)))
}

/// `true` when `m` is in solved form: no variable it binds occurs in what it
/// binds a variable to.
pub open spec fn solved_form(m: Map<VariableId, Term>) -> bool {
    forall|v: VariableId, w: VariableId| m.contains_key(v) && m.contains_key(w) ==> !#[trigger] has_var(m[v], w)
}

/// `true` when `rho` is an instance of `m`: applying `m` and then `rho` is
/// applying `rho`, on every variable `m` binds.
pub open spec fn instance_of(rho: Map<VariableId, Term>, m: Map<VariableId, Term>) -> bool {
    forall|v: VariableId| #[trigger] m.contains_key(v) ==> lookup(rho, v) == subst(m[v], rho)
}

/// `m` with `x` replaced by `s` in every term it binds, and `x` bound to `s`.
pub open spec fn bind_step(m: Map<VariableId, Term>, x: VariableId, s: Term) -> Map<VariableId, Term> {
    m.map_values(|t: Term| subst(t, map![x => s])).insert(x, s)
}

/// What solving keeps true between the equations `es0` it started from, the
/// equations `es` left and the bindings `m` made: no bound variable occurs in
/// `es`, `m` is in solved form, every unifier of `es0` unifies `es` and is an
/// instance of `m`, and every instance of `m` that unifies `es` unifies `es0`.
pub open spec fn solve_inv(es0: Seq<(Term, Term)>, es: Seq<(Term, Term)>, m: Map<VariableId, Term>) -> bool {
    &&& forall|v: VariableId| #[trigger] m.contains_key(v) ==> !occurs(es, v)
    &&& solved_form(m)
    &&& forall|rho: Map<VariableId, Term>| #[trigger] unifies(rho, es0) ==> unifies(rho, es) && instance_of(rho, m)
    &&& forall|rho: Map<VariableId, Term>| #[trigger] unifies(rho, es) && instance_of(rho, m) ==> unifies(rho, es0)
}

/// Lemma: bindings do not touch a variable they do not bind.
proof fn lemma_apply_seq_unbound(bs: Seq<(VariableId, Term)>, v: VariableId)
    requires
        !bound_in(bs, v),
    ensures
        apply_seq(bs, Term::Var(v)) == Term::Var(v),
    decreases bs.len(),
{
    if bs.len() > 0 {
        assert(bs[0].0 != v);
        assert(lookup(map![bs[0].0 => bs[0].1], v) == Term::Var(v));
        assert forall|i: int| 0 <= i < bs.drop_first().len() implies #[trigger] bs.drop_first()[i].0 != v by {
            assert(bs[i + 1].0 != v);
        }
        lemma_apply_seq_unbound(bs.drop_first(), v);
    }
}

/// Lemma: one more binding of an unbound variable makes the solved map one
/// `bind_step` further.
proof fn lemma_solved_map_push(bs: Seq<(VariableId, Term)>, x: VariableId, s: Term)
    requires
        !bound_in(bs, x),
    ensures
        solved_map(bs.push((x, s))) == bind_step(solved_map(bs), x, s),
{
    let bs2 = bs.push((x, s));
    let m2 = bind_step(solved_map(bs), x, s);
    assert forall|v: VariableId| #[trigger] bound_in(bs2, v) <==> (bound_in(bs, v) || v == x) by {
        if bound_in(bs, v) {
            let i = choose|i: int| 0 <= i < bs.len() && #[trigger] bs[i].0 == v;
            assert(bs2[i].0 == v);
        }
        if v == x {
            assert(bs2[bs.len() as int].0 == v);
        }
        if bound_in(bs2, v) && v != x {
            let i = choose|i: int| 0 <= i < bs2.len() && #[trigger] bs2[i].0 == v;
            assert(bs[i].0 == v);
        }
    }
    assert forall|v: VariableId| #[trigger] bound_in(bs2, v) implies apply_seq(bs2, Term::Var(v)) == m2[v] by {
        lemma_apply_seq_push(bs, (x, s), Term::Var(v));
        if v == x {
            lemma_apply_seq_unbound(bs, x);
            assert(lookup(map![x => s], x) == s);
        }
    }
    assert(solved_map(bs2) =~= m2);
}

/// Lemma: a term none of whose variables is bound by `m` is left alone by it.
proof fn lemma_subst_unbound(t: Term, m: Map<VariableId, Term>)
    requires
        forall|v: VariableId| has_var(t, v) ==> !m.contains_key(v),
    ensures
        subst(t, m) == t,
{
    lemma_subst_agree(t, m, Map::empty());
    lemma_subst_empty(t);
}

/// Lemma: at the start nothing is bound and the invariant holds.
proof fn lemma_solve_inv_start(es0: Seq<(Term, Term)>)
    ensures
        solve_inv(es0, es0, Map::empty()),
{
}

/// Lemma: a step that keeps the variables and the unifiers keeps the invariant.
proof fn lemma_solve_inv_same(es0: Seq<(Term, Term)>, es: Seq<(Term, Term)>, e2: Seq<(Term, Term)>, m: Map<VariableId, Term>)
    requires
        solve_inv(es0, es, m),
        forall|v: VariableId| occurs(e2, v) ==> occurs(es, v),
        forall|rho: Map<VariableId, Term>| unifies(rho, es) ==> unifies(rho, e2),
        forall|rho: Map<VariableId, Term>| unifies(rho, e2) ==> unifies(rho, es),
    ensures
        solve_inv(es0, e2, m),
{
    assert forall|rho: Map<VariableId, Term>| #[trigger] unifies(rho, es0) implies unifies(rho, e2) && instance_of(rho, m) by {
        assert(unifies(rho, es));
    }
    assert forall|rho: Map<VariableId, Term>| #[trigger] unifies(rho, e2) && instance_of(rho, m) implies unifies(rho, es0) by {
        assert(unifies(rho, es));
    }
}

/// Lemma: deleting, decomposing and orienting keep the variables and the unifiers.
proof fn lemma_step_unifiers(es: Seq<(Term, Term)>, k: int)
    requires
        0 <= k < es.len(),
        rule_applies(es[k]),
        !eliminable(es[k]) || es[k].0 == es[k].1 || decomposable(es[k]),
    ensures
        ({
            let e = es[k];
            let e2 = if e.0 == e.1 {
                es.remove(k)
            } else if decomposable(e) {
                es.remove(k) + child_equations(e.0->1, e.1->1)
            } else {
                es.update(k, (e.1, e.0))
            };
            &&& forall|v: VariableId| occurs(e2, v) ==> occurs(es, v)
            &&& forall|rho: Map<VariableId, Term>| unifies(rho, es) ==> unifies(rho, e2)
            &&& forall|rho: Map<VariableId, Term>| unifies(rho, e2) ==> unifies(rho, es)
        }),
{
    let e = es[k];
    let b = var_bound();
    assert(reduces_to(es, Seq::empty(), es)) by {
        assert forall|rho: Map<VariableId, Term>| #[trigger] unifies(rho, es) implies forall|j: int|
            0 <= j < es.len() ==> subst(apply_seq(Seq::<(VariableId, Term)>::empty(), #[trigger] es[j].0), rho) == subst(
                apply_seq(Seq::<(VariableId, Term)>::empty(), es[j].1),
                rho,
            ) by {
            assert forall|j: int| 0 <= j < es.len() implies subst(apply_seq(Seq::<(VariableId, Term)>::empty(), #[trigger] es[j].0), rho) == subst(
                apply_seq(Seq::<(VariableId, Term)>::empty(), es[j].1),
                rho,
            ) by {
                assert(subst(es[j].0, rho) == subst(es[j].1, rho));
            }
        }
    }
    if e.0 == e.1 {
        let e2 = es.remove(k);
        assert forall|v: VariableId| occurs(e2, v) implies occurs(es, v) by {
            lemma_occurs_remove(es, k, v);
        }
        assert forall|rho: Map<VariableId, Term>| unifies(rho, es) implies unifies(rho, e2) by {
            assert forall|j: int| 0 <= j < e2.len() implies subst(#[trigger] e2[j].0, rho) == subst(e2[j].1, rho) by {
                if j < k {
                    assert(e2[j] == es[j]);
                } else {
                    assert(e2[j] == es[j + 1]);
                }
            }
        }
        assert forall|rho: Map<VariableId, Term>| unifies(rho, e2) implies unifies(rho, es) by {
            lemma_unifies_remove(es, k, rho);
        }
    } else if decomposable(e) {
        let rest = es.remove(k);
        let ls = e.0->1;
        let rs = e.1->1;
        let ch = child_equations(ls, rs);
        let e2 = rest + ch;
        lemma_decompose_step(es, Seq::empty(), es, k, b);
        assert forall|v: VariableId| occurs(e2, v) implies occurs(es, v) by {
            let j = choose|j: int| 0 <= j < e2.len() && (has_var(#[trigger] e2[j].0, v) || has_var(e2[j].1, v));
            if j < rest.len() {
                let j1 = if j < k { j } else { j + 1 };
                assert(e2[j] == rest[j]);
                assert(rest[j] == es[j1]);
                assert(has_var(es[j1].0, v) || has_var(es[j1].1, v));
            } else {
                let c = j - rest.len();
                assert(e2[j] == ch[c]);
                if has_var(ls[c], v) {
                    assert(has_var(e.0, v));
                } else {
                    assert(has_var(rs[c], v));
                    assert(has_var(e.1, v));
                }
                assert(has_var(es[k].0, v) || has_var(es[k].1, v));
            }
        }
        assert forall|rho: Map<VariableId, Term>| unifies(rho, es) implies unifies(rho, e2) by {
            lemma_subst_sym(e.0->Sym_0, ls, rho);
            lemma_subst_sym(e.1->Sym_0, rs, rho);
            assert(subst(es[k].0, rho) == subst(es[k].1, rho));
            assert forall|j: int| 0 <= j < e2.len() implies subst(#[trigger] e2[j].0, rho) == subst(e2[j].1, rho) by {
                if j < rest.len() {
                    assert(e2[j] == rest[j]);
                    if j < k {
                        assert(rest[j] == es[j]);
                    } else {
                        assert(rest[j] == es[j + 1]);
                    }
                } else {
                    let c = j - rest.len();
                    assert(e2[j] == ch[c]);
                    assert(subst(e.0, rho)->1[c] == subst(e.1, rho)->1[c]);
                }
            }
        }
        assert forall|rho: Map<VariableId, Term>| unifies(rho, e2) implies unifies(rho, es) by {
            assert(unifies(rho, e2));
            assert(forall|j: int| 0 <= j < es.len() ==> subst(apply_seq(Seq::<(VariableId, Term)>::empty(), #[trigger] es[j].0), rho) == subst(apply_seq(Seq::<(VariableId, Term)>::empty(), es[j].1), rho));
            assert forall|j: int| 0 <= j < es.len() implies subst(#[trigger] es[j].0, rho) == subst(es[j].1, rho) by {
                assert(subst(apply_seq(Seq::<(VariableId, Term)>::empty(), es[j].0), rho) == subst(apply_seq(Seq::<(VariableId, Term)>::empty(), es[j].1), rho));
            }
        }
    } else {
        let e2 = es.update(k, (e.1, e.0));
        assert(e2[k] == (e.1, e.0));
        assert forall|v: VariableId| occurs(e2, v) implies occurs(es, v) by {
            let j = choose|j: int| 0 <= j < e2.len() && (has_var(#[trigger] e2[j].0, v) || has_var(e2[j].1, v));
            if j == k {
                assert(has_var(es[k].0, v) || has_var(es[k].1, v));
            } else {
                assert(e2[j] == es[j]);
            }
        }
        assert forall|rho: Map<VariableId, Term>| unifies(rho, es) implies unifies(rho, e2) by {
            assert(subst(es[k].0, rho) == subst(es[k].1, rho));
            assert forall|j: int| 0 <= j < e2.len() implies subst(#[trigger] e2[j].0, rho) == subst(e2[j].1, rho) by {
                if j != k {
                    assert(e2[j] == es[j]);
                }
            }
        }
        assert forall|rho: Map<VariableId, Term>| unifies(rho, e2) implies unifies(rho, es) by {
            assert(subst(e2[k].0, rho) == subst(e2[k].1, rho));
            assert forall|j: int| 0 <= j < es.len() implies subst(#[trigger] es[j].0, rho) == subst(es[j].1, rho) by {
                if j != k {
                    assert(e2[j] == es[j]);
                }
            }
        }
    }
}

/// Lemma: eliminating `x = s` keeps the invariant with `x` bound to `s` and
/// substituted in what the other variables are bound to.
#[verifier::rlimit(50)]
proof fn lemma_solve_inv_eliminate(es0: Seq<(Term, Term)>, es: Seq<(Term, Term)>, m: Map<VariableId, Term>, k: int)
    requires
        solve_inv(es0, es, m),
        0 <= k < es.len(),
        eliminable(es[k]),
    ensures
        !m.contains_key(es[k].0->Var_0),
        solve_inv(es0, subst_all(es.remove(k), es[k].0->Var_0, es[k].1), bind_step(m, es[k].0->Var_0, es[k].1)),
{
    let e = es[k];
    let x = e.0->Var_0;
    let sx = e.1;
    let rest = es.remove(k);
    let e2 = subst_all(rest, x, sx);
    let m2 = bind_step(m, x, sx);
    let sub = map![x => sx];
    assert(has_var(es[k].0, x));
    assert(occurs(es, x));
    assert(!m.contains_key(x));
    // the variables of s are not bound
    assert forall|w: VariableId| has_var(sx, w) implies !m.contains_key(w) && w != x by {
        assert(has_var(es[k].1, w));
        assert(occurs(es, w));
    }
    // no bound variable occurs in what is left
    assert forall|v: VariableId| #[trigger] m2.contains_key(v) implies !occurs(e2, v) by {
        if occurs(e2, v) {
            let j = choose|j: int| 0 <= j < e2.len() && (has_var(#[trigger] e2[j].0, v) || has_var(e2[j].1, v));
            lemma_has_var_subst(rest[j].0, x, sx, v);
            lemma_has_var_subst(rest[j].1, x, sx, v);
            if has_var(rest[j].0, v) || has_var(rest[j].1, v) {
                assert(occurs(rest, v));
                lemma_occurs_remove(es, k, v);
            }
        }
    }
    // solved form
    assert forall|v: VariableId, w: VariableId| m2.contains_key(v) && m2.contains_key(w) implies !#[trigger] has_var(
        m2[v],
        w,
    ) by {
        if v == x {
            assert(m2[v] == sx);
        } else {
            assert(m2[v] == subst(m[v], sub));
            lemma_has_var_subst(m[v], x, sx, w);
            if w != x {
                assert(!has_var(m[v], w));
            }
        }
    }
    assert(solved_form(m2));
    // unifiers of es0
    assert forall|rho: Map<VariableId, Term>| #[trigger] unifies(rho, es0) implies unifies(rho, e2) && instance_of(rho, m2) by {
        assert(unifies(rho, es) && instance_of(rho, m));
        assert(subst(es[k].0, rho) == subst(es[k].1, rho));
        assert(lookup(rho, x) == subst(sx, rho));
        let rho_x = rho.insert(x, subst(sx, rho));
        assert forall|t: Term| #[trigger] subst(subst(t, sub), rho) == subst(t, rho) by {
            lemma_subst_compose(t, x, sx, rho);
            assert forall|v: VariableId| has_var(t, v) implies lookup(rho_x, v) == lookup(rho, v) by {}
            lemma_subst_agree(t, rho_x, rho);
        }
        assert forall|j: int| 0 <= j < e2.len() implies subst(#[trigger] e2[j].0, rho) == subst(e2[j].1, rho) by {
            let jj = if j < k { j } else { j + 1 };
            assert(rest[j] == es[jj]);
            assert(subst(subst(rest[j].0, sub), rho) == subst(rest[j].0, rho));
            assert(subst(subst(rest[j].1, sub), rho) == subst(rest[j].1, rho));
            assert(subst(es[jj].0, rho) == subst(es[jj].1, rho));
        }
        assert forall|v: VariableId| #[trigger] m2.contains_key(v) implies lookup(rho, v) == subst(m2[v], rho) by {
            if v != x {
                assert(m.contains_key(v));
                assert(subst(subst(m[v], sub), rho) == subst(m[v], rho));
            }
        }
    }
    // instances of m2 that unify e2
    assert forall|rho: Map<VariableId, Term>| #[trigger] unifies(rho, e2) && instance_of(rho, m2) implies unifies(rho, es0) by {
        assert(m2.contains_key(x));
        assert(lookup(rho, x) == subst(sx, rho));
        let rho_x = rho.insert(x, subst(sx, rho));
        assert forall|t: Term| #[trigger] subst(subst(t, sub), rho) == subst(t, rho) by {
            lemma_subst_compose(t, x, sx, rho);
            assert forall|v: VariableId| has_var(t, v) implies lookup(rho_x, v) == lookup(rho, v) by {}
            lemma_subst_agree(t, rho_x, rho);
        }
        assert forall|j: int| 0 <= j < es.len() implies subst(#[trigger] es[j].0, rho) == subst(es[j].1, rho) by {
            if j == k {
                assert(es[j].0 == Term::Var(x));
            } else {
                let j2 = if j < k { j } else { j - 1 };
                assert(rest[j2] == es[j]);
                assert(e2[j2] == (subst(rest[j2].0, sub), subst(rest[j2].1, sub)));
                assert(subst(e2[j2].0, rho) == subst(e2[j2].1, rho));
                assert(subst(subst(rest[j2].0, sub), rho) == subst(rest[j2].0, rho));
                assert(subst(subst(rest[j2].1, sub), rho) == subst(rest[j2].1, rho));
            }
        }
        assert forall|v: VariableId| #[trigger] m.contains_key(v) implies lookup(rho, v) == subst(m[v], rho) by {
            assert(m2.contains_key(v));
            assert(m2[v] == subst(m[v], sub));
            assert(subst(subst(m[v], sub), rho) == subst(m[v], rho));
        }
        assert(instance_of(rho, m));
        assert(unifies(rho, es));
    }
}

/// Lemma: when no equation is left, the bindings unify the original
/// equations, applied all at once.
proof fn lemma_solve_inv_done(es0: Seq<(Term, Term)>, m: Map<VariableId, Term>)
    requires
        solve_inv(es0, Seq::empty(), m),
    ensures
        unifies(m, es0),
{
    assert forall|v: VariableId| #[trigger] m.contains_key(v) implies lookup(m, v) == subst(m[v], m) by {
        assert forall|w: VariableId| has_var(m[v], w) implies !m.contains_key(w) by {}
        lemma_subst_unbound(m[v], m);
    }
    assert(instance_of(m, m));
    assert(unifies(m, Seq::<(Term, Term)>::empty()));
}

/// A unification problem: equations whose variables are shared between them.
#[derive(Debug)]
pub struct UnificationProblem {
    equations: Vec<Equation>,
}

impl View for UnificationProblem {
    type V = Seq<(Term, Term)>;

    closed spec fn view(&self) -> Seq<(Term, Term)> {
        self.equations@.map_values(|e: Equation| e@)
    }
}

impl UnificationProblem {
    /// The problem without equations.
    pub fn new() -> (r: Self)
        ensures
            r@ == Seq::<(Term, Term)>::empty(),
    {
        let r = UnificationProblem { equations: Vec::new() };
        assert(r@ =~= Seq::<(Term, Term)>::empty());
        r
    }

    /// The problem of one equation.
    pub fn from_equation(equation: Equation) -> (r: Self)
        ensures
            r@ == seq![equation@],
    {
        let mut equations = Vec::new();
        equations.push(equation);
        let r = UnificationProblem { equations };
        assert(r@ =~= seq![equation@]);
        r
    }

    /// The problem of the equations `equations`.
    pub fn from_equations(equations: Vec<Equation>) -> (r: Self)
        ensures
            r@ == equations@.map_values(|e: Equation| e@),
    {
        UnificationProblem { equations }
    }

    /// Adds an equation.
    pub fn add_equation(&mut self, equation: Equation)
        ensures
            final(self)@ == old(self)@.push(equation@),
    {
        self.equations.push(equation);
        assert(self@ =~= old(self)@.push(equation@));
    }

    /// The problem with one more equation.
    pub fn with_equation(self, equation: Equation) -> (r: Self)
        ensures
            r@ == self@.push(equation@),
    {
        let mut r = self;
        r.add_equation(equation);
        r
    }

    /// Solves the problem (Baader and Nipkow's rules): as long as one of the
    /// rules delete, decompose, eliminate and orient applies to some equation,
    /// applies the first rule, in this order, that applies to the first such
    /// equation; eliminating `x = t` also replaces `x` by `t` in the terms
    /// bound so far. Returns the bindings, in solved form, when no equation is
    /// left: a most general unifier. `None` when equations are left that no
    /// rule applies to: then nothing unifies the equations.
    #[verifier::loop_isolation(false)]
    pub fn solve(self) -> (r: Option<Substitution>)
        ensures
            r is Some == solve_spec(self@, Seq::empty()) is Some,
            r matches Some(sigma) ==> sigma@ == solved_map(solve_spec(self@, Seq::empty())->0),
            r matches Some(sigma) ==> unifies(sigma@, self@) && solved_form(sigma@) && forall|rho: Map<VariableId, Term>|
                #[trigger] unifies(rho, self@) ==> instance_of(rho, sigma@),
            r is None ==> forall|rho: Map<VariableId, Term>| !#[trigger] unifies(rho, self@),
    {
        let ghost es0 = self@;
        let mut problem = self;
        let mut substitution = Substitution::new();
        let ghost mut bs: Seq<(VariableId, Term)> = Seq::empty();
        proof {
            assert(solved_map(bs) =~= substitution@);
            lemma_solve_inv_start(es0);
        }
        loop
            invariant
                solved_map(bs) == substitution@,
                solve_inv(es0, problem@, substitution@),
                solve_spec(problem@, bs) == solve_spec(es0, Seq::empty()),
            decreases var_count(problem@, var_bound()), sizes(problem@), misoriented(problem@),
        {
            let ghost es = problem@;
            let ghost bs_start = bs;
            let n = problem.equations.len();
            assert(problem@.len() == n);
            proof {
                lemma_first_applicable(es, 0);
                assert(reduces_to(Seq::empty(), bs, es));
            }
            let mut progressed = false;
            let mut i: usize = 0;
            while i < n
                invariant
                    problem@ == es,
                    bs == bs_start,
                    solved_map(bs) == substitution@,
                    solve_inv(es0, es, substitution@),
                    n == es.len(),
                    !progressed,
                    i <= n,
                    first_applicable(es, 0) == first_applicable(es, i as int),
                decreases n - i,
            {
                proof {
                    lemma_first_applicable(es, i as int);
                }
                if problem.delete(i).did_something() {
                    proof {
                        lemma_delete_step(Seq::empty(), bs, es, i as int, var_bound());
                        lemma_step_unifiers(es, i as int);
                        lemma_solve_inv_same(es0, es, problem@, substitution@);
                    }
                    progressed = true;
                    break;
                }
                if problem.decompose(i).did_something() {
                    proof {
                        lemma_decompose_step(Seq::empty(), bs, es, i as int, var_bound());
                        lemma_step_unifiers(es, i as int);
                        lemma_solve_inv_same(es0, es, problem@, substitution@);
                    }
                    progressed = true;
                    break;
                }
                let ghost m = substitution@;
                if problem.eliminate(i, &mut substitution).did_something() {
                    proof {
                        let e = es[i as int];
                        let bs2 = bs.push((e.0->Var_0, e.1));
                        assert(bs2.drop_last() =~= bs);
                        lemma_eliminate_step(Seq::empty(), bs, es, i as int, var_bound());
                        lemma_solve_inv_eliminate(es0, es, m, i as int);
                        assert(!bound_in(bs, e.0->Var_0));
                        lemma_solved_map_push(bs, e.0->Var_0, e.1);
                        bs = bs2;
                    }
                    progressed = true;
                    break;
                }
                if problem.orient(i).did_something() {
                    proof {
                        lemma_orient_step(Seq::empty(), bs, es, i as int, var_bound());
                        lemma_step_unifiers(es, i as int);
                        lemma_solve_inv_same(es0, es, problem@, substitution@);
                    }
                    progressed = true;
                    break;
                }
                i = i + 1;
            }
            if !progressed {
                break;
            }
        }
        if problem.equations.len() == 0 {
            proof {
                assert(problem@ =~= Seq::<(Term, Term)>::empty());
                lemma_solve_inv_done(es0, substitution@);
            }
            Some(substitution)
        } else {
            proof {
                assert forall|rho: Map<VariableId, Term>| !#[trigger] unifies(rho, es0) by {
                    if unifies(rho, es0) {
                        lemma_solve_complete(es0, rho);
                    }
                }
            }
            None
        }
    }

    /// Removes equation `equation_idx` if both its sides are equal.
    pub fn delete(&mut self, equation_idx: usize) -> (r: Did)
        requires
            equation_idx < old(self)@.len(),
        ensures
            old(self)@[equation_idx as int].0 == old(self)@[equation_idx as int].1 ==> r == Did::Something
                && final(self)@ == old(self)@.remove(equation_idx as int),
            old(self)@[equation_idx as int].0 != old(self)@[equation_idx as int].1 ==> r == Did::Nothing
                && final(self)@ == old(self)@,
    {
        if self.equations[equation_idx].is_trivial() {
            self.equations.remove(equation_idx);
            assert(self@ =~= old(self)@.remove(equation_idx as int));
            Did::Something
        } else {
            Did::Nothing
        }
    }

    /// Replaces equation `equation_idx` by the equations between its children
    /// when both sides apply the same symbol to as many children.
    pub fn decompose(&mut self, equation_idx: usize) -> (r: Did)
        requires
            equation_idx < old(self)@.len(),
        ensures
            ({
                let e = old(self)@[equation_idx as int];
                if e.0 is Sym && e.1 is Sym && e.0->Sym_0 == e.1->Sym_0 && e.0->1.len() == e.1->1.len() {
                    r == Did::Something && final(self)@ == old(self)@.remove(equation_idx as int) + child_equations(
                        e.0->1,
                        e.1->1,
                    )
                } else {
                    r == Did::Nothing && final(self)@ == old(self)@
                }
            }),
    {
        match self.equations[equation_idx].decompose_if_matching_symbol() {
            Some(children) => {
                let ghost e = old(self)@[equation_idx as int];
                self.equations.remove(equation_idx);
                let ghost mid = self@;
                assert(mid =~= old(self)@.remove(equation_idx as int));
                let mut k: usize = 0;
                while k < children.len()
                    invariant
                        k <= children@.len(),
                        children@.map_values(|c: Equation| c@) == child_equations(e.0->1, e.1->1),
                        self@ == mid + child_equations(e.0->1, e.1->1).take(k as int),
                    decreases children@.len() - k,
                {
                    assert(children@.map_values(|c: Equation| c@)[k as int] == children@[k as int]@);
                    let c = children[k].clone();
                    assert(c@ == child_equations(e.0->1, e.1->1)[k as int]);
                    let ghost before = self@;
                    self.equations.push(c);
                    assert(self@ =~= before.push(c@));
                    assert(child_equations(e.0->1, e.1->1).take(k + 1) =~= child_equations(e.0->1, e.1->1).take(k as int).push(c@));
                    assert(self@ =~= mid + child_equations(e.0->1, e.1->1).take(k + 1));
                    k = k + 1;
                }
                assert(child_equations(e.0->1, e.1->1).take(k as int) =~= child_equations(e.0->1, e.1->1));
                Did::Something
            },
            None => Did::Nothing,
        }
    }

    /// Swaps the sides of equation `equation_idx` when its right side is a variable.
    pub fn orient(&mut self, equation_idx: usize) -> (r: Did)
        requires
            equation_idx < old(self)@.len(),
        ensures
            old(self)@[equation_idx as int].1 is Var ==> r == Did::Something && final(self)@ == old(self)@.update(
                equation_idx as int,
                (old(self)@[equation_idx as int].1, old(self)@[equation_idx as int].0),
            ),
            !(old(self)@[equation_idx as int].1 is Var) ==> r == Did::Nothing && final(self)@ == old(self)@,
    {
        proof {
            lemma_expr_view(self.equations@[equation_idx as int].right);
        }
        let is_var = match &self.equations[equation_idx].right {
            Expression::Variable(_) => true,
            _ => false,
        };
        if is_var {
            let mut e = self.equations.remove(equation_idx);
            e.reorient();
            self.equations.insert(equation_idx, e);
            assert(self@ =~= old(self)@.update(
                equation_idx as int,
                (old(self)@[equation_idx as int].1, old(self)@[equation_idx as int].0),
            ));
            Did::Something
        } else {
            Did::Nothing
        }
    }

    /// When equation `equation_idx` is `x = t` with `x` not in `t`: removes it,
    /// replaces `x` by `t` in the other equations and in the terms already
    /// bound, and binds `x` to `t`.
    pub fn eliminate(&mut self, equation_idx: usize, substitution: &mut Substitution) -> (r: Did)
        requires
            equation_idx < old(self)@.len(),
        ensures
            ({
                let e = old(self)@[equation_idx as int];
                if e.0 is Var && !has_var(e.1, e.0->Var_0) {
                    r == Did::Something && final(self)@ == subst_all(old(self)@.remove(equation_idx as int), e.0->Var_0, e.1)
                        && final(substitution)@ == bind_step(old(substitution)@, e.0->Var_0, e.1)
                } else {
                    r == Did::Nothing && final(self)@ == old(self)@ && final(substitution)@ == old(substitution)@
                }
            }),
    {
        proof {
            lemma_expr_view(self.equations@[equation_idx as int].left);
        }
        let variable_id = match &self.equations[equation_idx].left {
            Expression::Variable(v) => *v,
            _ => {
                return Did::Nothing;
            },
        };
        if self.equations[equation_idx].right.contains_variable(variable_id) {
            return Did::Nothing;
        }
        let removed = self.equations.remove(equation_idx);
        let substitute = removed.right;
        let ghost rest = self@;
        assert(rest =~= old(self)@.remove(equation_idx as int));
        let mut updated: Vec<Equation> = Vec::new();
        let mut k: usize = 0;
        while k < self.equations.len()
            invariant
                self@ == rest,
                k <= rest.len(),
                updated@.map_values(|e: Equation| e@) == subst_all(rest, variable_id, substitute@).take(k as int),
            decreases rest.len() - k,
        {
            let e = &self.equations[k];
            assert(rest[k as int] == e@);
            let n = Equation::new(e.left.substituted(variable_id, &substitute), e.right.substituted(variable_id, &substitute));
            assert(n@ == subst_all(rest, variable_id, substitute@)[k as int]);
            let ghost before = updated@;
            updated.push(n);
            assert(updated@.map_values(|e: Equation| e@) =~= before.map_values(|e: Equation| e@).push(n@));
            assert(subst_all(rest, variable_id, substitute@).take(k + 1) =~= subst_all(rest, variable_id, substitute@).take(k as int).push(n@));
            k = k + 1;
        }
        assert(subst_all(rest, variable_id, substitute@).take(k as int) =~= subst_all(rest, variable_id, substitute@));
        self.equations = updated;
        substitution.substitute_in_values(variable_id, &substitute);
        substitution.set(variable_id, substitute);
        Did::Something
    }
}

/// The amount by which the variables of the right side are renamed before
/// unifying: one more than the largest variable of `t`, or 0 when `t` has none.
pub open spec fn var_shift(t: Term) -> nat {
    if exists|v: VariableId| has_var(t, v) {
        ((choose|m: VariableId| has_var(t, m) && forall|v: VariableId| has_var(t, v) ==> v <= m) + 1) as nat
    } else {
        0
    }
}

/// The map `m` with every variable `v + s` renamed to `v`.
pub open spec fn unshift_map(m: Map<VariableId, Term>, s: nat) -> Map<VariableId, Term> {
    Map::new(
        |v: VariableId| v + s <= usize::MAX && m.contains_key((v + s) as VariableId),
        |v: VariableId| m[(v + s) as VariableId],
    )
}

/// `true` when the variables of `l` and `r` are small enough for the right
/// side to be renamed past those of the left side.
pub open spec fn unify_fits(l: Term, r: Term) -> bool {
    &&& forall|v: VariableId| has_var(l, v) ==> v < usize::MAX
    &&& forall|v: VariableId, w: VariableId| has_var(l, v) && has_var(r, w) ==> v + w < usize::MAX
}

/// The equation between `l` and `r` with the variables of `r` renamed past
/// those of `l`.
pub open spec fn renamed_equation(l: Term, r: Term) -> Seq<(Term, Term)> {
    seq![(l, shift_term(r, var_shift(l) as int))]
}

/// The result of unifying `l` with `r`, the variables of `r` being renamed
/// past those of `l`: the bindings of the left variables and those of the
/// right ones, renamed back.
pub open spec fn unify_spec(l: Term, r: Term) -> Option<(Map<VariableId, Term>, Map<VariableId, Term>)> {
    let shift = var_shift(l);
    match solve_spec(seq![(l, shift_term(r, shift as int))], Seq::empty()) {
        Some(bs) => Some(
            (
                solved_map(bs).restrict(Set::new(|v: VariableId| v < shift)),
                unshift_map(solved_map(bs), shift),
            ),
        ),
        None => None,
    }
}

/// The result of unifying two expressions whose variables are distinct even
/// where their numbers agree: one substitution for the variables of the left
/// side, one for those of the right side.
#[derive(Debug)]
pub struct IndependentVarUnifier {
    left_substitution: Substitution,
    right_substitution: Substitution,
}

impl View for IndependentVarUnifier {
    type V = (Map<VariableId, Term>, Map<VariableId, Term>);

    closed spec fn view(&self) -> (Map<VariableId, Term>, Map<VariableId, Term>) {
        (self.left_substitution@, self.right_substitution@)
    }
}

impl IndependentVarUnifier {
    /// Unifies the two sides of `equation`, the variables of one side being
    /// distinct from those of the other. The variables of the right side are
    /// first renamed by adding `var_shift` of the left side; the solution is
    /// split into the bindings of the left variables and those of the renamed
    /// right ones, renamed back. Values keep the renamed right variables.
    pub fn unify(equation: Equation) -> (r: Option<Self>)
        requires
            unify_fits(equation@.0, equation@.1),
        ensures
            r is Some == unify_spec(equation@.0, equation@.1) is Some,
            r matches Some(u) ==> u@ == unify_spec(equation@.0, equation@.1)->0,
            r is None ==> forall|rho: Map<VariableId, Term>|
                !#[trigger] unifies(rho, seq![(equation@.0, shift_term(equation@.1, var_shift(equation@.0) as int))]),
            r matches Some(u) ==> exists|sigma: Map<VariableId, Term>|
                {
                    &&& unifies(sigma, renamed_equation(equation@.0, equation@.1))
                    &&& #[trigger] solved_form(sigma)
                    &&& forall|rho: Map<VariableId, Term>|
                        #[trigger] unifies(rho, renamed_equation(equation@.0, equation@.1)) ==> instance_of(rho, sigma)
                    &&& u@.0 == sigma.restrict(Set::new(|v: VariableId| v < var_shift(equation@.0)))
                    &&& u@.1 == unshift_map(sigma, var_shift(equation@.0))
                },
    {
        let mut equation = equation;
        let ghost l = equation@.0;
        let ghost r0 = equation@.1;
        let shift: usize = match equation.left.max_variable_id() {
            Some(m) => {
                proof {
                    let c = choose|c: VariableId| has_var(l, c) && forall|v: VariableId| has_var(l, v) ==> v <= c;
                    assert(c <= m && m <= c);
                }
                m + 1
            },
            None => 0,
        };
        assert(shift == var_shift(l));
        proof {
            assert forall|w: VariableId| has_var(r0, w) implies w + shift <= usize::MAX by {
                if shift > 0 {
                    assert(has_var(l, (shift - 1) as VariableId));
                }
            }
        }
        equation.right.shift_variables(shift);
        let ghost es = seq![(l, shift_term(r0, shift as int))];
        let problem = UnificationProblem::from_equation(equation);
        assert(problem@ =~= es);
        match problem.solve() {
            None => None,
            Some(sigma) => {
                let ghost full = sigma@;
                let (left_substitution, right_substitution) = sigma.split_at(shift);
                let mut right_substitution = right_substitution;
                right_substitution.shift_negative(shift);
                let u = IndependentVarUnifier { left_substitution, right_substitution };
                proof {
                    assert(u.right_substitution@ =~= unshift_map(full, shift as nat));
                    assert(es == renamed_equation(l, r0));
                    assert(unifies(full, es) && solved_form(full));
                }
                Some(u)
            },
        }
    }

    /// `true` when both unifiers have the same bindings on both sides.
    pub fn same_as(&self, other: &IndependentVarUnifier) -> (r: bool)
        ensures
            r == (self@ == other@),
    {
        self.left_substitution.same_as(&other.left_substitution) && self.right_substitution.same_as(
            &other.right_substitution,
        )
    }

    /// The bindings of the variables of the left side.
    pub fn left_substitution(&self) -> (r: &Substitution)
        ensures
            r@ == self@.0,
    {
        &self.left_substitution
    }

    /// The bindings of the variables of the right side.
    pub fn right_substitution(&self) -> (r: &Substitution)
        ensures
            r@ == self@.1,
    {
        &self.right_substitution
    }
}

impl Default for Substitution {
    fn default() -> (r: Self)
        ensures
            r@ == Map::<VariableId, Term>::empty(),
    {
        Substitution::new()
    }
}

} // verus!
