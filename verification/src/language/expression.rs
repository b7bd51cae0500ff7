//! Expressions: literals, variables and symbols applied to children.
//!
//! Every executable expression type is viewed as a [`Term`], a mathematical tree
//! over which all contracts are stated.

use vstd::prelude::*;

use super::symbol::{Symbol, SymbolId};

verus! {

broadcast use vstd::std_specs::vec::group_vec_axioms, vstd::seq::group_seq_axioms;

/// Identifier of a variable (`$0`, `$1`, ...).
pub type VariableId = usize;

/// A literal constant.
#[derive(Clone, Copy, Debug, PartialEq, Eq, Hash, Structural)]
pub enum Literal {
    Int(i64),
    UInt(u64),
}

/// The mathematical model of an expression.
#[verifier::ext_equal]
pub enum Term {
    Lit(Literal),
    Sym(SymbolId, Seq<Term>),
    Var(VariableId),
}

/// An expression which may contain variables.
#[derive(Debug, PartialEq, Eq, Hash)]
pub enum Expression {
    Literal(Literal),
    Symbol(Symbol<Expression>),
    Variable(VariableId),
}

/// An expression without variables.
#[derive(Debug, PartialEq, Eq, Hash)]
pub enum VarFreeExpression {
    Literal(Literal),
    Symbol(Symbol<VarFreeExpression>),
}

/// An expression whose leaves may also be e-graph classes (used to add rule
/// right-hand sides whose variables are bound to classes).
#[derive(Debug, PartialEq, Eq, Hash)]
pub enum MixedExpression {
    Literal(Literal),
    Symbol(Symbol<MixedExpression>),
    Class(usize),
}

pub open spec fn expr_term(e: Expression) -> Term
    decreases e,
{
    match e {
        Expression::Literal(l) => Term::Lit(l),
        Expression::Variable(v) => Term::Var(v),
        Expression::Symbol(s) => Term::Sym(
            s.id,
            Seq::new(
                s.children@.len(),
                |i: int|
                    if 0 <= i < s.children@.len() {
                        expr_term(s.children@[i])
                    } else {
                        Term::Var(0)
                    },
            ),
        ),
    }
}

pub open spec fn var_free_term(e: VarFreeExpression) -> Term
    decreases e,
{
    match e {
        VarFreeExpression::Literal(l) => Term::Lit(l),
        VarFreeExpression::Symbol(s) => Term::Sym(
            s.id,
            Seq::new(
                s.children@.len(),
                |i: int|
                    if 0 <= i < s.children@.len() {
                        var_free_term(s.children@[i])
                    } else {
                        Term::Var(0)
                    },
            ),
        ),
    }
}

impl View for Expression {
    type V = Term;

    open spec fn view(&self) -> Term {
        expr_term(*self)
    }
}

impl View for VarFreeExpression {
    type V = Term;

    open spec fn view(&self) -> Term {
        var_free_term(*self)
    }
}

/// `true` when variable `v` occurs in `t`.
pub open spec fn has_var(t: Term, v: VariableId) -> bool
    decreases t,
{
    match t {
        Term::Lit(_) => false,
        Term::Var(w) => w == v,
        Term::Sym(_, cs) => exists|i: int| 0 <= i < cs.len() && has_var(#[trigger] cs[i], v),
    }
}

/// `true` when no variable occurs in `t`.
pub open spec fn is_var_free(t: Term) -> bool
    decreases t,
{
    match t {
        Term::Lit(_) => true,
        Term::Var(_) => false,
        Term::Sym(_, cs) => forall|i: int| 0 <= i < cs.len() ==> is_var_free(#[trigger] cs[i]),
    }
}

/// `true` when every symbol of `t` has an id below `n`.
pub open spec fn symbols_below(t: Term, n: nat) -> bool
    decreases t,
{
    match t {
        Term::Lit(_) => true,
        Term::Var(_) => true,
        Term::Sym(id, cs) => id < n && forall|i: int|
            0 <= i < cs.len() ==> symbols_below(#[trigger] cs[i], n),
    }
}

/// The value substituted for `v` by `m`; unmapped variables stay themselves.
pub open spec fn lookup(m: Map<VariableId, Term>, v: VariableId) -> Term {
    if m.contains_key(v) {
        m[v]
    } else {
        Term::Var(v)
    }
}

/// Simultaneous substitution of the variables of `t` by `m`.
pub open spec fn subst(t: Term, m: Map<VariableId, Term>) -> Term
    decreases t,
{
    match t {
        Term::Lit(l) => Term::Lit(l),
        Term::Var(v) => lookup(m, v),
        Term::Sym(id, cs) => Term::Sym(
            id,
            Seq::new(
                cs.len(),
                |i: int|
                    if 0 <= i < cs.len() {
                        subst(cs[i], m)
                    } else {
                        Term::Var(0)
                    },
            ),
        ),
    }
}

/// `t` with every variable `v` renamed to `v + k`.
pub open spec fn shift_term(t: Term, k: int) -> Term
    decreases t,
{
    match t {
        Term::Lit(l) => Term::Lit(l),
        Term::Var(v) => Term::Var((v + k) as VariableId),
        Term::Sym(id, cs) => Term::Sym(
            id,
            Seq::new(
                cs.len(),
                |i: int|
                    if 0 <= i < cs.len() {
                        shift_term(cs[i], k)
                    } else {
                        Term::Var(0)
                    },
            ),
        ),
    }
}

/// Number of literal and symbol nodes of a mixed expression.
pub open spec fn mixed_size(m: MixedExpression) -> nat
    decreases m,
{
    match m {
        MixedExpression::Literal(_) => 1,
        MixedExpression::Class(_) => 0,
        MixedExpression::Symbol(s) => 1 + mixed_sizes_sum(s.children@, s.children@.len() as int),
    }
}

/// Sum of the sizes of the first `n` mixed expressions of `cs`.
pub open spec fn mixed_sizes_sum(cs: Seq<MixedExpression>, n: int) -> nat
    decreases cs, n,
{
    if n <= 0 || n > cs.len() {
        0
    } else {
        mixed_sizes_sum(cs, n - 1) + mixed_size(cs[n - 1])
    }
}

/// `true` when every class leaf of `m` is below `n`.
pub open spec fn mixed_classes_below(m: MixedExpression, n: nat) -> bool
    decreases m,
{
    match m {
        MixedExpression::Literal(_) => true,
        MixedExpression::Class(c) => c < n,
        MixedExpression::Symbol(s) => forall|i: int|
            0 <= i < s.children@.len() ==> mixed_classes_below(#[trigger] s.children@[i], n),
    }
}

/// Number of nodes of a term.
pub open spec fn term_size(t: Term) -> nat
    decreases t,
{
    match t {
        Term::Lit(_) => 1,
        Term::Var(_) => 1,
        Term::Sym(_, cs) => 1 + sizes_sum(cs, cs.len() as int),
    }
}

/// Sum of the sizes of the first `n` terms of `cs`.
pub open spec fn sizes_sum(cs: Seq<Term>, n: int) -> nat
    decreases cs, n,
{
    if n <= 0 || n > cs.len() {
        0
    } else {
        sizes_sum(cs, n - 1) + term_size(cs[n - 1])
    }
}

/// `true` when `t` is `e` or a subterm of one of its children.
pub open spec fn subterm_of(t: Term, e: Term) -> bool
    decreases e,
{
    t == e || match e {
        Term::Sym(_, cs) => subterm_of_any(t, cs, cs.len() as int),
        _ => false,
    }
}

/// `true` when `t` is a subterm of one of the first `n` terms of `cs`.
pub open spec fn subterm_of_any(t: Term, cs: Seq<Term>, n: int) -> bool
    decreases cs, n,
{
    if n <= 0 || n > cs.len() {
        false
    } else {
        subterm_of_any(t, cs, n - 1) || subterm_of(t, cs[n - 1])
    }
}

/// Lemma: a subterm of one of the first `n` terms is a subterm of one of the
/// first `m >= n`.
pub proof fn lemma_subterm_of_any_mono(t: Term, cs: Seq<Term>, n: int, m: int)
    requires
        0 <= n <= m <= cs.len(),
        subterm_of_any(t, cs, n),
    ensures
        subterm_of_any(t, cs, m),
    decreases m - n,
{
    if n < m {
        lemma_subterm_of_any_mono(t, cs, n, m - 1);
    }
}

impl Clone for Expression {
    #[verifier::loop_isolation(false)]
    fn clone(&self) -> (r: Self)
        ensures
            r@ == self@,
        decreases self@,
    {
        match self {
            Expression::Literal(l) => Expression::Literal(*l),
            Expression::Variable(v) => Expression::Variable(*v),
            Expression::Symbol(s) => {
                let mut out: Vec<Expression> = Vec::new();
                let mut i: usize = 0;
                while i < s.children.len()
                    invariant
                        i <= s.children.len(),
                        out@.len() == i,
                        forall|j: int| 0 <= j < i ==> #[trigger] out@[j]@ == s.children@[j]@,
                    decreases s.children.len() - i,
                {
                    proof { assert(self@->1[i as int] == s.children@[i as int]@); }
                    out.push(s.children[i].clone());
                    i = i + 1;
                }
                let r = Expression::Symbol(Symbol { id: s.id, children: out });
                assert(r@->1 =~= self@->1) by {
                    assert forall|j: int| 0 <= j < s.children@.len() implies r@->1[j] == self@->1[j] by {
                        assert(out@[j]@ == s.children@[j]@);
                    }
                }
                r
            },
        }
    }
}

impl Clone for VarFreeExpression {
    #[verifier::loop_isolation(false)]
    fn clone(&self) -> (r: Self)
        ensures
            r@ == self@,
        decreases self@,
    {
        match self {
            VarFreeExpression::Literal(l) => VarFreeExpression::Literal(*l),
            VarFreeExpression::Symbol(s) => {
                let mut out: Vec<VarFreeExpression> = Vec::new();
                let mut i: usize = 0;
                while i < s.children.len()
                    invariant
                        i <= s.children.len(),
                        out@.len() == i,
                        forall|j: int| 0 <= j < i ==> #[trigger] out@[j]@ == s.children@[j]@,
                    decreases s.children.len() - i,
                {
                    proof { assert(self@->1[i as int] == s.children@[i as int]@); }
                    out.push(s.children[i].clone());
                    i = i + 1;
                }
                let r = VarFreeExpression::Symbol(Symbol { id: s.id, children: out });
                assert(r@->1 =~= self@->1) by {
                    assert forall|j: int| 0 <= j < s.children@.len() implies r@->1[j] == self@->1[j] by {
                        assert(out@[j]@ == s.children@[j]@);
                    }
                }
                r
            },
        }
    }
}


/// Lemma: a symbol expression is viewed as a symbol term over the views of its children.
pub proof fn lemma_symbol_view(s: Symbol<Expression>)
    ensures
        (Expression::Symbol(s))@->Sym_0 == s.id,
        (Expression::Symbol(s))@ is Sym,
        (Expression::Symbol(s))@->1.len() == s.children@.len(),
        forall|i: int| 0 <= i < s.children@.len() ==> (Expression::Symbol(s))@->1[i] == #[trigger] s.children@[i]@,
{
    let e = Expression::Symbol(s);
    assert(e@ == expr_term(e));
}

/// Lemma: a symbol of a variable-free expression is viewed as a symbol term.
pub proof fn lemma_var_free_symbol_view(s: Symbol<VarFreeExpression>)
    ensures
        (VarFreeExpression::Symbol(s))@->Sym_0 == s.id,
        (VarFreeExpression::Symbol(s))@ is Sym,
        (VarFreeExpression::Symbol(s))@->1.len() == s.children@.len(),
        forall|i: int| 0 <= i < s.children@.len() ==> (VarFreeExpression::Symbol(s))@->1[i] == #[trigger] s.children@[i]@,
{
    let e = VarFreeExpression::Symbol(s);
    assert(e@ == var_free_term(e));
}

/// Lemma: the view of an expression, case by case.
pub proof fn lemma_expr_view(e: Expression)
    ensures
        match e {
            Expression::Literal(l) => e@ == Term::Lit(l),
            Expression::Variable(v) => e@ == Term::Var(v),
            Expression::Symbol(s) => {
                &&& e@ is Sym
                &&& e@->Sym_0 == s.id
                &&& e@->1.len() == s.children@.len()
                &&& forall|i: int| 0 <= i < s.children@.len() ==> e@->1[i] == #[trigger] s.children@[i]@
            },
        },
{
    assert(e@ == expr_term(e));
}

/// Lemma: the view of a variable-free expression, case by case.
pub proof fn lemma_var_free_view(e: VarFreeExpression)
    ensures
        match e {
            VarFreeExpression::Literal(l) => e@ == Term::Lit(l),
            VarFreeExpression::Symbol(s) => {
                &&& e@ is Sym
                &&& e@->Sym_0 == s.id
                &&& e@->1.len() == s.children@.len()
                &&& forall|i: int| 0 <= i < s.children@.len() ==> e@->1[i] == #[trigger] s.children@[i]@
            },
        },
{
    assert(e@ == var_free_term(e));
}

/// Lemma: the view of a variable-free expression contains no variable.
pub proof fn lemma_var_free(e: VarFreeExpression)
    ensures
        is_var_free(e@),
    decreases e,
{
    lemma_var_free_view(e);
    match e {
        VarFreeExpression::Literal(l) => {},
        VarFreeExpression::Symbol(s) => {
            assert forall|i: int| 0 <= i < e@->1.len() implies is_var_free(#[trigger] e@->1[i]) by {
                lemma_var_free(s.children@[i]);
            }
        },
    }
}

/// Lemma: a variable-free term contains no variable.
pub proof fn lemma_var_free_no_var(t: Term, v: VariableId)
    requires
        is_var_free(t),
    ensures
        !has_var(t, v),
    decreases t,
{
    match t {
        Term::Sym(_, cs) => {
            assert forall|i: int| 0 <= i < cs.len() implies !has_var(#[trigger] cs[i], v) by {
                lemma_var_free_no_var(cs[i], v);
            }
        },
        _ => {},
    }
}


/// Lemma: substitutions that agree on the variables of `p` give the same result.
pub proof fn lemma_subst_agree(p: Term, m1: Map<VariableId, Term>, m2: Map<VariableId, Term>)
    requires
        forall|v: VariableId| has_var(p, v) ==> lookup(m1, v) == lookup(m2, v),
    ensures
        subst(p, m1) == subst(p, m2),
    decreases p,
{
    match p {
        Term::Sym(id, cs) => {
            assert forall|i: int| 0 <= i < cs.len() implies subst(cs[i], m1) == subst(cs[i], m2) by {
                assert forall|v: VariableId| has_var(cs[i], v) implies lookup(m1, v) == lookup(m2, v) by {
                    assert(has_var(p, v));
                }
                lemma_subst_agree(cs[i], m1, m2);
            }
            assert(subst(p, m1)->1 =~= subst(p, m2)->1);
        },
        Term::Var(v) => {
            assert(has_var(p, v));
        },
        _ => {},
    }
}

/// Lemma: substitution into a symbol substitutes into each child.
pub proof fn lemma_subst_sym(id: SymbolId, cs: Seq<Term>, m: Map<VariableId, Term>)
    ensures
        subst(Term::Sym(id, cs), m) is Sym,
        subst(Term::Sym(id, cs), m)->Sym_0 == id,
        subst(Term::Sym(id, cs), m)->1.len() == cs.len(),
        forall|i: int| 0 <= i < cs.len() ==> subst(Term::Sym(id, cs), m)->1[i] == subst(#[trigger] cs[i], m),
{
}

impl Expression {
    /// `true` when both expressions are the same term.
    #[verifier::loop_isolation(false)]
    pub fn same_as(&self, other: &Expression) -> (r: bool)
        ensures
            r == (self@ == other@),
        decreases self@,
    {
        proof { lemma_expr_view(*self); lemma_expr_view(*other); }
        match (self, other) {
            (Expression::Literal(a), Expression::Literal(b)) => *a == *b,
            (Expression::Variable(a), Expression::Variable(b)) => *a == *b,
            (Expression::Symbol(a), Expression::Symbol(b)) => {
                if a.id != b.id || a.children.len() != b.children.len() {
                    return false;
                }
                let mut i: usize = 0;
                while i < a.children.len()
                    invariant
                        i <= a.children@.len(),
                        a.children@.len() == b.children@.len(),
                        forall|j: int| 0 <= j < i ==> #[trigger] a.children@[j]@ == b.children@[j]@,
                    decreases a.children.len() - i,
                {
                    proof { assert(self@->1[i as int] == a.children@[i as int]@); }
                    if !a.children[i].same_as(&b.children[i]) {
                        assert(self@->1[i as int] != other@->1[i as int]);
                        return false;
                    }
                    i = i + 1;
                }
                assert(self@->1 =~= other@->1) by {
                    assert forall|j: int| 0 <= j < a.children@.len() implies self@->1[j] == other@->1[j] by {
                        assert(a.children@[j]@ == b.children@[j]@);
                    }
                }
                true
            },
            _ => false,
        }
    }

    /// `true` when variable `variable` occurs in the expression.
    #[verifier::loop_isolation(false)]
    pub fn contains_variable(&self, variable: VariableId) -> (r: bool)
        ensures
            r == has_var(self@, variable),
        decreases self@,
    {
        proof { lemma_expr_view(*self); }
        match self {
            Expression::Literal(_) => false,
            Expression::Variable(v) => *v == variable,
            Expression::Symbol(s) => {
                let mut i: usize = 0;
                while i < s.children.len()
                    invariant
                        i <= s.children@.len(),
                        forall|j: int| 0 <= j < i ==> !has_var(#[trigger] s.children@[j]@, variable),
                    decreases s.children.len() - i,
                {
                    proof { assert(self@->1[i as int] == s.children@[i as int]@); }
                    if s.children[i].contains_variable(variable) {
                        assert(has_var(self@->1[i as int], variable));
                        return true;
                    }
                    i = i + 1;
                }
                assert forall|j: int| 0 <= j < self@->1.len() implies !has_var(#[trigger] self@->1[j], variable) by {
                    assert(self@->1[j] == s.children@[j]@);
                }
                false
            },
        }
    }

    /// Adds the variables of the expression that are not yet in `out` to `out`.
    #[verifier::loop_isolation(false)]
    fn collect_variables(&self, out: &mut Vec<VariableId>)
        requires
            old(out)@.no_duplicates(),
        ensures
            final(out)@.no_duplicates(),
            forall|v: VariableId| #[trigger] final(out)@.contains(v) <==> (old(out)@.contains(v) || has_var(self@, v)),
        decreases self@,
    {
        proof { lemma_expr_view(*self); }
        match self {
            Expression::Literal(_) => {},
            Expression::Variable(v) => {
                let ghost start = out@;
                if !vec_contains(out, *v) {
                    out.push(*v);
                    assert forall|w: VariableId| #[trigger] out@.contains(w) <==> (start.contains(w) || w == *v) by {
                        if w == *v {
                            assert(out@[start.len() as int] == w);
                        }
                        if start.contains(w) {
                            let k = choose|k: int| 0 <= k < start.len() && start[k] == w;
                            assert(out@[k] == w);
                        }
                    }
                }
                assert forall|w: VariableId| has_var(self@, w) <==> w == *v by {}
            },
            Expression::Symbol(s) => {
                let ghost start = out@;
                let mut i: usize = 0;
                while i < s.children.len()
                    invariant
                        i <= s.children@.len(),
                        out@.no_duplicates(),
                        forall|v: VariableId| #[trigger] out@.contains(v) <==> (start.contains(v) || exists|j: int| 0 <= j < i && has_var(#[trigger] s.children@[j]@, v)),
                    decreases s.children.len() - i,
                {
                    proof { assert(self@->1[i as int] == s.children@[i as int]@); }
                    s.children[i].collect_variables(out);
                    assert forall|v: VariableId| #[trigger] out@.contains(v) <==> (start.contains(v) || exists|j: int| 0 <= j < i + 1 && has_var(#[trigger] s.children@[j]@, v)) by {
                        if has_var(s.children@[i as int]@, v) {
                            assert(0 <= i < i + 1 && has_var(s.children@[i as int]@, v));
                        }
                    }
                    i = i + 1;
                }
                assert forall|v: VariableId| #[trigger] out@.contains(v) <==> (start.contains(v) || has_var(self@, v)) by {
                    if has_var(self@, v) {
                        let j = choose|j: int| 0 <= j < self@->1.len() && has_var(#[trigger] self@->1[j], v);
                        assert(self@->1[j] == s.children@[j]@);
                    }
                    if exists|j: int| 0 <= j < s.children@.len() && has_var(#[trigger] s.children@[j]@, v) {
                        let j = choose|j: int| 0 <= j < s.children@.len() && has_var(#[trigger] s.children@[j]@, v);
                        assert(self@->1[j] == s.children@[j]@);
                    }
                }
            },
        }
    }

    /// The distinct variables of the expression.
    pub fn variables(&self) -> (r: Vec<VariableId>)
        ensures
            r@.no_duplicates(),
            forall|v: VariableId| #[trigger] r@.contains(v) <==> has_var(self@, v),
    {
        let mut out: Vec<VariableId> = Vec::new();
        self.collect_variables(&mut out);
        out
    }

    /// The largest variable id occurring in the expression, if any.
    pub fn max_variable_id(&self) -> (r: Option<VariableId>)
        ensures
            r is None <==> forall|v: VariableId| !has_var(self@, v),
            r matches Some(m) ==> has_var(self@, m) && forall|v: VariableId| has_var(self@, v) ==> v <= m,
    {
        let vars = self.variables();
        if vars.len() == 0 {
            assert forall|v: VariableId| !has_var(self@, v) by {
                if has_var(self@, v) {
                    assert(vars@.contains(v));
                }
            }
            return None;
        }
        let mut m = vars[0];
        let mut i: usize = 1;
        while i < vars.len()
            invariant
                1 <= i <= vars@.len(),
                vars@.contains(m),
                forall|j: int| 0 <= j < i ==> vars@[j] <= m,
            decreases vars.len() - i,
        {
            if vars[i] > m {
                m = vars[i];
            }
            i = i + 1;
        }
        assert forall|v: VariableId| has_var(self@, v) implies v <= m by {
            assert(vars@.contains(v));
        }
        Some(m)
    }

    /// The expression with every variable `v` renamed to `v + shift`.
    #[verifier::loop_isolation(false)]
    pub fn shifted(&self, shift: usize) -> (r: Expression)
        requires
            forall|v: VariableId| has_var(self@, v) ==> v + shift <= usize::MAX,
        ensures
            r@ == shift_term(self@, shift as int),
        decreases self@,
    {
        proof { lemma_expr_view(*self); }
        match self {
            Expression::Literal(l) => Expression::Literal(*l),
            Expression::Variable(v) => {
                assert(has_var(self@, *v));
                Expression::Variable(*v + shift)
            },
            Expression::Symbol(s) => {
                let mut out: Vec<Expression> = Vec::new();
                let mut i: usize = 0;
                while i < s.children.len()
                    invariant
                        i <= s.children@.len(),
                        out@.len() == i,
                        forall|j: int| 0 <= j < i ==> #[trigger] out@[j]@ == shift_term(s.children@[j]@, shift as int),
                    decreases s.children.len() - i,
                {
                    proof {
                        assert(self@->1[i as int] == s.children@[i as int]@);
                        assert forall|v: VariableId| has_var(s.children@[i as int]@, v) implies v + shift <= usize::MAX by {
                            assert(has_var(self@, v));
                        }
                    }
                    out.push(s.children[i].shifted(shift));
                    i = i + 1;
                }
                let r = Expression::Symbol(Symbol { id: s.id, children: out });
                assert(r@->1 =~= shift_term(self@, shift as int)->1) by {
                    assert forall|j: int| 0 <= j < s.children@.len() implies r@->1[j] == shift_term(self@, shift as int)->1[j] by {
                        assert(self@->1[j] == s.children@[j]@);
                        assert(out@[j]@ == shift_term(s.children@[j]@, shift as int));
                    }
                }
                r
            },
        }
    }

    /// Renames every variable `v` to `v + shift`.
    pub fn shift_variables(&mut self, shift: usize)
        requires
            forall|v: VariableId| has_var(old(self)@, v) ==> v + shift <= usize::MAX,
        ensures
            final(self)@ == shift_term(old(self)@, shift as int),
    {
        *self = self.shifted(shift);
    }

    /// The expression with every variable `v` for which `m` holds a value replaced by that value.
    #[verifier::loop_isolation(false)]
    pub fn substituted(&self, variable: VariableId, value: &Expression) -> (r: Expression)
        ensures
            r@ == subst(self@, map![variable => value@]),
        decreases self@,
    {
        proof { lemma_expr_view(*self); }
        match self {
            Expression::Literal(l) => Expression::Literal(*l),
            Expression::Variable(v) => {
                if *v == variable {
                    value.clone()
                } else {
                    Expression::Variable(*v)
                }
            },
            Expression::Symbol(s) => {
                let mut out: Vec<Expression> = Vec::new();
                let mut i: usize = 0;
                while i < s.children.len()
                    invariant
                        i <= s.children@.len(),
                        out@.len() == i,
                        forall|j: int| 0 <= j < i ==> #[trigger] out@[j]@ == subst(s.children@[j]@, map![variable => value@]),
                    decreases s.children.len() - i,
                {
                    proof { assert(self@->1[i as int] == s.children@[i as int]@); }
                    out.push(s.children[i].substituted(variable, value));
                    i = i + 1;
                }
                let r = Expression::Symbol(Symbol { id: s.id, children: out });
                assert(r@->1 =~= subst(self@, map![variable => value@])->1) by {
                    assert forall|j: int| 0 <= j < s.children@.len() implies r@->1[j] == subst(self@, map![variable => value@])->1[j] by {
                        assert(self@->1[j] == s.children@[j]@);
                        assert(out@[j]@ == subst(s.children@[j]@, map![variable => value@]));
                    }
                }
                r
            },
        }
    }

    /// Replaces every occurrence of `variable` by `value`.
    pub fn substitute(&mut self, variable: VariableId, value: &Expression)
        ensures
            final(self)@ == subst(old(self)@, map![variable => value@]),
    {
        *self = self.substituted(variable, value);
    }

    /// The same expression as a variable-free expression, if it has no variables.
    #[verifier::loop_isolation(false)]
    pub fn without_variables(&self) -> (r: Option<VarFreeExpression>)
        ensures
            r is Some == is_var_free(self@),
            r matches Some(e) ==> e@ == self@,
        decreases self@,
    {
        proof { lemma_expr_view(*self); }
        match self {
            Expression::Literal(l) => Some(VarFreeExpression::Literal(*l)),
            Expression::Variable(_) => None,
            Expression::Symbol(s) => {
                let mut out: Vec<VarFreeExpression> = Vec::new();
                let mut i: usize = 0;
                while i < s.children.len()
                    invariant
                        i <= s.children@.len(),
                        out@.len() == i,
                        forall|j: int| 0 <= j < i ==> #[trigger] out@[j]@ == s.children@[j]@,
                        forall|j: int| 0 <= j < i ==> is_var_free(#[trigger] s.children@[j]@),
                    decreases s.children.len() - i,
                {
                    proof { assert(self@->1[i as int] == s.children@[i as int]@); }
                    match s.children[i].without_variables() {
                        Some(c) => out.push(c),
                        None => {
                            assert(!is_var_free(self@->1[i as int]));
                            return None;
                        },
                    }
                    i = i + 1;
                }
                let r = VarFreeExpression::Symbol(Symbol { id: s.id, children: out });
                assert(r@->1 =~= self@->1) by {
                    assert forall|j: int| 0 <= j < s.children@.len() implies r@->1[j] == self@->1[j] by {
                        assert(self@->1[j] == s.children@[j]@);
                        assert(out@[j]@ == s.children@[j]@);
                    }
                }
                assert forall|j: int| 0 <= j < self@->1.len() implies is_var_free(#[trigger] self@->1[j]) by {
                    assert(self@->1[j] == s.children@[j]@);
                }
                Some(r)
            },
        }
    }
}

impl VarFreeExpression {
    /// The same expression as an expression (which happens to have no variables).
    #[verifier::loop_isolation(false)]
    pub fn to_expression(&self) -> (r: Expression)
        ensures
            r@ == self@,
        decreases self@,
    {
        proof { lemma_var_free_view(*self); }
        match self {
            VarFreeExpression::Literal(l) => Expression::Literal(*l),
            VarFreeExpression::Symbol(s) => {
                let mut out: Vec<Expression> = Vec::new();
                let mut i: usize = 0;
                while i < s.children.len()
                    invariant
                        i <= s.children@.len(),
                        out@.len() == i,
                        forall|j: int| 0 <= j < i ==> #[trigger] out@[j]@ == s.children@[j]@,
                    decreases s.children.len() - i,
                {
                    proof { assert(self@->1[i as int] == s.children@[i as int]@); }
                    out.push(s.children[i].to_expression());
                    i = i + 1;
                }
                let r = Expression::Symbol(Symbol { id: s.id, children: out });
                assert(r@->1 =~= self@->1) by {
                    assert forall|j: int| 0 <= j < s.children@.len() implies r@->1[j] == self@->1[j] by {
                        assert(out@[j]@ == s.children@[j]@);
                    }
                }
                r
            },
        }
    }

    /// `true` when both expressions are the same term.
    #[verifier::loop_isolation(false)]
    pub fn same_as(&self, other: &VarFreeExpression) -> (r: bool)
        ensures
            r == (self@ == other@),
        decreases self@,
    {
        proof { lemma_var_free_view(*self); lemma_var_free_view(*other); }
        match (self, other) {
            (VarFreeExpression::Literal(a), VarFreeExpression::Literal(b)) => *a == *b,
            (VarFreeExpression::Symbol(a), VarFreeExpression::Symbol(b)) => {
                if a.id != b.id || a.children.len() != b.children.len() {
                    return false;
                }
                let mut i: usize = 0;
                while i < a.children.len()
                    invariant
                        i <= a.children@.len(),
                        a.children@.len() == b.children@.len(),
                        forall|j: int| 0 <= j < i ==> #[trigger] a.children@[j]@ == b.children@[j]@,
                    decreases a.children.len() - i,
                {
                    proof { assert(self@->1[i as int] == a.children@[i as int]@); }
                    if !a.children[i].same_as(&b.children[i]) {
                        assert(self@->1[i as int] != other@->1[i as int]);
                        return false;
                    }
                    i = i + 1;
                }
                assert(self@->1 =~= other@->1) by {
                    assert forall|j: int| 0 <= j < a.children@.len() implies self@->1[j] == other@->1[j] by {
                        assert(a.children@[j]@ == b.children@[j]@);
                    }
                }
                true
            },
            _ => false,
        }
    }
}

/// `true` when `v` is an element of `vec`.
pub fn vec_contains(vec: &Vec<VariableId>, v: VariableId) -> (r: bool)
    ensures
        r == vec@.contains(v),
{
    let mut i: usize = 0;
    while i < vec.len()
        invariant
            i <= vec@.len(),
            forall|j: int| 0 <= j < i ==> vec@[j] != v,
        decreases vec.len() - i,
    {
        if vec[i] == v {
            return true;
        }
        i = i + 1;
    }
    false
}

} // verus!
