//! Pattern matching for expressions.
//!
//! A pattern (an expression whose variables are pattern variables) matches an
//! expression when some substitution of its variables turns it into that expression.
//! Matching against variable-free expressions yields references into the matched
//! expression; matching against expressions with variables treats the expression's
//! variables as constants.

use vstd::prelude::*;

use crate::assoc::{assoc_find, assoc_map, assoc_wf, lemma_assoc_map, lemma_assoc_push};
use crate::language::expression::{
    has_var, lemma_expr_view, lemma_subst_agree, lemma_subst_sym, lemma_var_free_view, lookup, subst,
    Expression, Term, VarFreeExpression, VariableId,
};
use crate::language::symbol::Symbol;

verus! {

broadcast use vstd::std_specs::vec::group_vec_axioms, vstd::seq::group_seq_axioms;

/// `true` when some substitution of the variables of `p` turns it into `t`.
pub open spec fn pattern_matches(p: Term, t: Term) -> bool {
    exists|m: Map<VariableId, Term>| #[trigger] subst(p, m) == t
}

/// Two substitutions are compatible when they agree on their common variables.
pub open spec fn compatible(a: Map<VariableId, Term>, b: Map<VariableId, Term>) -> bool {
    forall|k: VariableId| a.contains_key(k) && b.contains_key(k) ==> #[trigger] a[k] == #[trigger] b[k]
}

/// The substitution described by a list of (variable, expression) entries.
pub open spec fn expr_map(s: Seq<(VariableId, Expression)>) -> Map<VariableId, Term> {
    assoc_map(s).map_values(|e: Expression| e@)
}

/// The substitution described by a list of (variable, expression reference) entries.
pub open spec fn ref_map(s: Seq<(VariableId, &VarFreeExpression)>) -> Map<VariableId, Term> {
    assoc_map(s).map_values(|e: &VarFreeExpression| e@)
}

/// Lemma: appending an entry inserts its view into the substitution.
pub proof fn lemma_expr_map_push(s: Seq<(VariableId, Expression)>, k: VariableId, e: Expression)
    ensures
        expr_map(s.push((k, e))) == expr_map(s).insert(k, e@),
{
    lemma_assoc_push(s, k, e);
    assert(expr_map(s.push((k, e))) =~= expr_map(s).insert(k, e@));
}


/// The substitution with exactly the variables of `p` that turns `p` into `t`
/// (unique when it exists, see [`lemma_match_unique`]).
pub open spec fn canonical_match(p: Term, t: Term) -> Map<VariableId, Term> {
    choose|m: Map<VariableId, Term>| subst(p, m) == t && forall|v: VariableId| #[trigger] m.contains_key(v) <==> has_var(p, v)
}

/// Law: two substitutions that turn the same pattern into the same term agree on
/// the variables of the pattern.
pub proof fn lemma_match_unique(p: Term, t: Term, m1: Map<VariableId, Term>, m2: Map<VariableId, Term>)
    requires
        subst(p, m1) == t,
        subst(p, m2) == t,
    ensures
        forall|v: VariableId| has_var(p, v) ==> lookup(m1, v) == lookup(m2, v),
    decreases p,
{
    match p {
        Term::Sym(id, cs) => {
            lemma_subst_sym(id, cs, m1);
            lemma_subst_sym(id, cs, m2);
            assert forall|v: VariableId| has_var(p, v) implies lookup(m1, v) == lookup(m2, v) by {
                let i = choose|i: int| 0 <= i < cs.len() && has_var(#[trigger] cs[i], v);
                assert(subst(p, m1)->1[i] == subst(p, m2)->1[i]);
                lemma_match_unique(cs[i], subst(cs[i], m1), m1, m2);
            }
        },
        _ => {},
    }
}

/// Lemma: when `p` matches `t`, the canonical match exists; any substitution with
/// exactly the variables of `p` that turns `p` into `t` is the canonical match.
pub proof fn lemma_canonical_match(p: Term, t: Term)
    requires
        pattern_matches(p, t),
    ensures
        subst(p, canonical_match(p, t)) == t,
        forall|v: VariableId| #[trigger] canonical_match(p, t).contains_key(v) <==> has_var(p, v),
        forall|m: Map<VariableId, Term>|
            subst(p, m) == t && (forall|v: VariableId| #[trigger] m.contains_key(v) <==> has_var(p, v))
                ==> m == canonical_match(p, t),
{
    let s = choose|s: Map<VariableId, Term>| #[trigger] subst(p, s) == t;
    let m = Map::new(|v: VariableId| has_var(p, v), |v: VariableId| lookup(s, v));
    assert forall|v: VariableId| has_var(p, v) implies lookup(m, v) == lookup(s, v) by {}
    lemma_subst_agree(p, m, s);
    assert(subst(p, m) == t && forall|v: VariableId| #[trigger] m.contains_key(v) <==> has_var(p, v));
    let c = canonical_match(p, t);
    assert forall|m2: Map<VariableId, Term>|
        subst(p, m2) == t && (forall|v: VariableId| #[trigger] m2.contains_key(v) <==> has_var(p, v))
            implies m2 == c by {
        lemma_match_unique(p, t, m2, c);
        assert forall|v: VariableId| m2.contains_key(v) implies m2[v] == c[v] by {
            assert(lookup(m2, v) == lookup(c, v));
        }
        assert(m2 =~= c);
    }
}

/// A match of a pattern against an expression with variables: the expression
/// assigned to each pattern variable.
#[derive(Debug)]
pub struct ExpressionMatch {
    substitutions: Vec<(VariableId, Expression)>,
}

impl View for ExpressionMatch {
    type V = Map<VariableId, Term>;

    closed spec fn view(&self) -> Map<VariableId, Term> {
        expr_map(self.substitutions@)
    }
}

impl ExpressionMatch {
    #[verifier::type_invariant]
    closed spec fn inv(&self) -> bool {
        assoc_wf(self.substitutions@)
    }

    /// The match that assigns nothing.
    pub fn new() -> (r: Self)
        ensures
            r@ == Map::<VariableId, Term>::empty(),
    {
        let r = ExpressionMatch { substitutions: Vec::new() };
        assert(r@ =~= Map::<VariableId, Term>::empty());
        r
    }

    /// The entries of the match: each bound variable once, with its expression.
    pub fn entries(&self) -> (r: &Vec<(VariableId, Expression)>)
        ensures
            assoc_wf(r@),
            expr_map(r@) == self@,
    {
        proof {
            use_type_invariant(self);
        }
        &self.substitutions
    }

    /// Gets the expression substituted for a pattern variable.
    pub fn at(&self, variable: VariableId) -> (r: Option<&Expression>)
        ensures
            r is Some == self@.contains_key(variable),
            r matches Some(e) ==> e@ == self@[variable],
    {
        proof {
            use_type_invariant(self);
            lemma_assoc_map(self.substitutions@);
        }
        match assoc_find(&self.substitutions, variable) {
            Some(i) => Some(&self.substitutions[i].1),
            None => None,
        }
    }

    /// Sets the expression for a pattern variable.
    pub fn set(&mut self, variable: VariableId, expression: Expression)
        ensures
            final(self)@ == old(self)@.insert(variable, expression@),
    {
        proof {
            use_type_invariant(&*self);
            lemma_assoc_map(self.substitutions@);
        }
        let ghost before = self.substitutions@;
        match assoc_find(&self.substitutions, variable) {
            Some(i) => {
                let mut entries: Vec<(VariableId, Expression)> = Vec::new();
                std::mem::swap(&mut entries, &mut self.substitutions);
                entries.set(i, (variable, expression));
                proof {
                    lemma_assoc_map(entries@);
                    assert(assoc_wf(entries@));
                    assert(expr_map(entries@) =~= expr_map(before).insert(variable, expression@)) by {
                        assert forall|k: VariableId| #[trigger] expr_map(entries@).contains_key(k) == expr_map(before).insert(variable, expression@).contains_key(k) by {
                            if exists|j: int| 0 <= j < before.len() && before[j].0 == k {
                                let j = choose|j: int| 0 <= j < before.len() && before[j].0 == k;
                                assert(entries@[j].0 == k);
                            }
                            if exists|j: int| 0 <= j < entries@.len() && entries@[j].0 == k {
                                let j = choose|j: int| 0 <= j < entries@.len() && entries@[j].0 == k;
                                if j != i {
                                    assert(before[j].0 == k);
                                }
                            }
                        }
                        assert forall|k: VariableId| #[trigger] expr_map(entries@).contains_key(k) implies expr_map(entries@)[k] == expr_map(before).insert(variable, expression@)[k] by {
                            let j = choose|j: int| 0 <= j < entries@.len() && entries@[j].0 == k;
                            assert(assoc_map(entries@)[entries@[j].0] == entries@[j].1);
                            if j != i {
                                assert(assoc_map(before)[before[j].0] == before[j].1);
                            }
                        }
                    }
                }
                self.substitutions = entries;
            },
            None => {
                let mut entries: Vec<(VariableId, Expression)> = Vec::new();
                std::mem::swap(&mut entries, &mut self.substitutions);
                entries.push((variable, expression));
                proof {
                    lemma_assoc_push(before, variable, expression);
                    assert(expr_map(entries@) =~= expr_map(before).insert(variable, expression@));
                }
                self.substitutions = entries;
            },
        }
    }

    /// Tries to merge two matches, returning `None` if they assign different
    /// expressions to the same variable.
    #[verifier::loop_isolation(false)]
    pub fn try_merge(&self, other: &Self) -> (r: Option<Self>)
        ensures
            r is Some == compatible(self@, other@),
            r matches Some(m) ==> m@ == self@.union_prefer_right(other@),
    {
        proof {
            use_type_invariant(self);
            use_type_invariant(other);
            lemma_assoc_map(self.substitutions@);
            lemma_assoc_map(other.substitutions@);
        }
        let os = &other.substitutions;
        // First pass: look for a conflict.
        let mut i: usize = 0;
        while i < os.len()
            invariant
                i <= os@.len(),
                assoc_wf(os@),
                assoc_wf(self.substitutions@),
                forall|j: int| 0 <= j < i && self@.contains_key(#[trigger] os@[j].0) ==> self@[os@[j].0] == os@[j].1@,
            decreases os.len() - i,
        {
            match self.at(os[i].0) {
                Some(e) => {
                    if !e.same_as(&os[i].1) {
                        proof {
                            assert(other@[os@[i as int].0] == os@[i as int].1@);
                        }
                        return None;
                    }
                },
                None => {},
            }
            i = i + 1;
        }
        assert(compatible(self@, other@)) by {
            assert forall|k: VariableId| self@.contains_key(k) && other@.contains_key(k) implies #[trigger] self@[k] == #[trigger] other@[k] by {
                let j = choose|j: int| 0 <= j < os@.len() && os@[j].0 == k;
                assert(other@[os@[j].0] == os@[j].1@);
            }
        }
        // Second pass: add the entries whose variables are new.
        let mut entries = clone_entries(&self.substitutions);
        let mut i: usize = 0;
        while i < os.len()
            invariant
                i <= os@.len(),
                assoc_wf(os@),
                assoc_wf(entries@),
                compatible(self@, other@),
                expr_map(entries@) == self@.union_prefer_right(expr_map(os@.take(i as int))),
            decreases os.len() - i,
        {
            proof {
                lemma_assoc_map(entries@);
                lemma_assoc_map(os@.take(i as int));
                lemma_expr_map_push(os@.take(i as int), os@[i as int].0, os@[i as int].1);
                assert(os@.take(i as int).push(os@[i as int]) =~= os@.take(i + 1));
            }
            let k = os[i].0;
            match self.at(k) {
                Some(_) => {
                    proof {
                        assert forall|j: int| 0 <= j < i implies os@.take(i as int)[j].0 != k by {
                            assert(os@[j].0 != os@[i as int].0);
                        }
                        assert(!expr_map(os@.take(i as int)).contains_key(k));
                        assert(other@[os@[i as int].0] == os@[i as int].1@);
                        assert(expr_map(os@.take(i + 1)) =~= expr_map(os@.take(i as int)).insert(k, os@[i as int].1@));
                        assert(expr_map(entries@) =~= self@.union_prefer_right(expr_map(os@.take(i + 1))));
                    }
                },
                None => {
                    proof {
                        assert forall|j: int| 0 <= j < i implies os@.take(i as int)[j].0 != k by {
                            assert(os@[j].0 != os@[i as int].0);
                        }
                        assert(!expr_map(entries@).contains_key(k));
                    }
                    let ghost before = entries@;
                    entries.push((k, os[i].1.clone()));
                    proof {
                        assert(entries@ == before.push((k, entries@.last().1)));
                        lemma_expr_map_push(before, k, entries@.last().1);
                        lemma_assoc_map(before);
                        assert forall|a: int, b: int| 0 <= a < entries@.len() && 0 <= b < entries@.len() && a != b implies entries@[a].0 != entries@[b].0 by {
                            if a == before.len() {
                                assert(before[b].0 != k);
                            } else if b == before.len() {
                                assert(before[a].0 != k);
                            }
                        }
                        assert(expr_map(os@.take(i + 1)) =~= expr_map(os@.take(i as int)).insert(k, os@[i as int].1@));
                        assert(expr_map(entries@) =~= self@.union_prefer_right(expr_map(os@.take(i + 1))));
                    }
                },
            }
            i = i + 1;
        }
        assert(os@.take(os@.len() as int) =~= os@);
        let r = ExpressionMatch { substitutions: entries };
        Some(r)
    }
}

/// Clones a list of entries, keeping the variables and the views of the expressions.
#[verifier::loop_isolation(false)]
fn clone_entries(entries: &Vec<(VariableId, Expression)>) -> (r: Vec<(VariableId, Expression)>)
    requires
        assoc_wf(entries@),
    ensures
        assoc_wf(r@),
        expr_map(r@) == expr_map(entries@),
        r@.len() == entries@.len(),
        forall|i: int| 0 <= i < r@.len() ==> #[trigger] r@[i].0 == entries@[i].0 && r@[i].1@ == entries@[i].1@,
{
    let mut out: Vec<(VariableId, Expression)> = Vec::new();
    let mut i: usize = 0;
    while i < entries.len()
        invariant
            i <= entries@.len(),
            out@.len() == i,
            forall|j: int| 0 <= j < i ==> #[trigger] out@[j].0 == entries@[j].0 && out@[j].1@ == entries@[j].1@,
            expr_map(out@) == expr_map(entries@.take(i as int)),
        decreases entries.len() - i,
    {
        let ghost before = out@;
        out.push((entries[i].0, entries[i].1.clone()));
        proof {
            lemma_expr_map_push(before, entries@[i as int].0, out@.last().1);
            assert(out@ == before.push((entries@[i as int].0, out@.last().1)));
            lemma_expr_map_push(entries@.take(i as int), entries@[i as int].0, entries@[i as int].1);
            assert(entries@.take(i as int).push(entries@[i as int]) =~= entries@.take(i + 1));
            assert(expr_map(out@) =~= expr_map(entries@.take(i + 1)));
        }
        i = i + 1;
    }
    assert(entries@.take(entries@.len() as int) =~= entries@);
    out
}

impl Default for ExpressionMatch {
    fn default() -> (r: Self)
        ensures
            r@ == Map::<VariableId, Term>::empty(),
    {
        ExpressionMatch::new()
    }
}

impl Clone for ExpressionMatch {
    fn clone(&self) -> (r: Self)
        ensures
            r@ == self@,
    {
        proof { use_type_invariant(self); }
        ExpressionMatch { substitutions: clone_entries(&self.substitutions) }
    }
}


/// `true` when `sigma` solves the first `n` child equations `pc[j][sigma] = ec[j]`.
pub open spec fn solves_prefix(pc: Seq<Expression>, ec: Seq<Expression>, sigma: Map<VariableId, Term>, n: int) -> bool {
    forall|j: int| 0 <= j < n ==> #[trigger] subst(pc[j]@, sigma) == ec[j]@
}

/// Matching with the facts needed for the induction: the match is the unique
/// solution on the pattern's variables.
#[verifier::loop_isolation(false)]
fn match_expression(pattern: &Expression, expression: &Expression) -> (r: Option<ExpressionMatch>)
    ensures
        r matches Some(m) ==> {
            &&& subst(pattern@, m@) == expression@
            &&& forall|v: VariableId| #[trigger] m@.contains_key(v) <==> has_var(pattern@, v)
            &&& forall|s: Map<VariableId, Term>, v: VariableId|
                #![trigger subst(pattern@, s), lookup(s, v)]
                subst(pattern@, s) == expression@ && has_var(pattern@, v) ==> lookup(s, v) == m@[v]
        },
        r is None ==> forall|s: Map<VariableId, Term>| #[trigger] subst(pattern@, s) != expression@,
    decreases pattern@,
{
    proof {
        lemma_expr_view(*pattern);
        lemma_expr_view(*expression);
    }
    match (pattern, expression) {
        (Expression::Variable(pv), e) => {
            let mut m = ExpressionMatch::new();
            m.set(*pv, e.clone());
            assert forall|v: VariableId| #[trigger] m@.contains_key(v) <==> has_var(pattern@, v) by {}
            Some(m)
        },
        (Expression::Symbol(s1), Expression::Symbol(s2)) => {
            if s1.id != s2.id || s1.children.len() != s2.children.len() {
                assert forall|s: Map<VariableId, Term>| #[trigger] subst(pattern@, s) != expression@ by {
                    lemma_subst_sym(pattern@->Sym_0, pattern@->1, s);
                }
                return None;
            }
            let ghost pc = s1.children@;
            let ghost ec = s2.children@;
            let mut acc = ExpressionMatch::new();
            let mut i: usize = 0;
            while i < s1.children.len()
                invariant
                    i <= pc.len(),
                    pc.len() == ec.len(),
                    forall|v: VariableId| #[trigger] acc@.contains_key(v) <==> exists|j: int| 0 <= j < i && has_var(#[trigger] pc[j]@, v),
                    forall|j: int| 0 <= j < i ==> subst(#[trigger] pc[j]@, acc@) == ec[j]@,
                    forall|s: Map<VariableId, Term>, v: VariableId|
                        #![trigger solves_prefix(pc, ec, s, i as int), lookup(s, v)]
                        solves_prefix(pc, ec, s, i as int) && acc@.contains_key(v) ==> lookup(s, v) == acc@[v],
                decreases pc.len() - i,
            {
                proof { assert(pattern@->1[i as int] == pc[i as int]@); }
                let child = match_expression(&s1.children[i], &s2.children[i]);
                match child {
                    None => {
                        assert forall|s: Map<VariableId, Term>| #[trigger] subst(pattern@, s) != expression@ by {
                            lemma_subst_sym(pattern@->Sym_0, pattern@->1, s);
                            if subst(pattern@, s) == expression@ {
                                assert(subst(pattern@, s)->1[i as int] == expression@->1[i as int]);
                                assert(subst(pc[i as int]@, s) == ec[i as int]@);
                            }
                        }
                        return None;
                    },
                    Some(mi) => {
                        match acc.try_merge(&mi) {
                            None => {
                                assert forall|s: Map<VariableId, Term>| #[trigger] subst(pattern@, s) != expression@ by {
                                    lemma_subst_sym(pattern@->Sym_0, pattern@->1, s);
                                    if subst(pattern@, s) == expression@ {
                                        assert(solves_prefix(pc, ec, s, i as int)) by {
                                            assert forall|j: int| 0 <= j < i implies #[trigger] subst(pc[j]@, s) == ec[j]@ by {
                                                assert(subst(pattern@, s)->1[j] == expression@->1[j]);
                                            }
                                        }
                                        assert(subst(pattern@, s)->1[i as int] == expression@->1[i as int]);
                                        assert(subst(pc[i as int]@, s) == ec[i as int]@);
                                        let k = choose|k: VariableId| acc@.contains_key(k) && mi@.contains_key(k) && acc@[k] != mi@[k];
                                        assert(lookup(s, k) == acc@[k]);
                                        assert(lookup(s, k) == mi@[k]);
                                    }
                                }
                                return None;
                            },
                            Some(merged) => {
                                proof {
                                    assert forall|j: int| 0 <= j < i + 1 implies subst(#[trigger] pc[j]@, merged@) == ec[j]@ by {
                                        if j < i {
                                            assert forall|v: VariableId| has_var(pc[j]@, v) implies lookup(merged@, v) == lookup(acc@, v) by {
                                                assert(acc@.contains_key(v));
                                            }
                                            lemma_subst_agree(pc[j]@, merged@, acc@);
                                        } else {
                                            assert forall|v: VariableId| has_var(pc[j]@, v) implies lookup(merged@, v) == lookup(mi@, v) by {
                                                assert(mi@.contains_key(v));
                                            }
                                            lemma_subst_agree(pc[j]@, merged@, mi@);
                                        }
                                    }
                                    assert forall|v: VariableId| #[trigger] merged@.contains_key(v) <==> exists|j: int| 0 <= j < i + 1 && has_var(#[trigger] pc[j]@, v) by {
                                        if mi@.contains_key(v) {
                                            assert(has_var(pc[i as int]@, v));
                                        }
                                        if exists|j: int| 0 <= j < i + 1 && has_var(#[trigger] pc[j]@, v) {
                                            let j = choose|j: int| 0 <= j < i + 1 && has_var(#[trigger] pc[j]@, v);
                                            if j == i {
                                                assert(mi@.contains_key(v));
                                            } else {
                                                assert(acc@.contains_key(v));
                                            }
                                        }
                                    }
                                    assert forall|s: Map<VariableId, Term>, v: VariableId|
                                        #![trigger solves_prefix(pc, ec, s, i + 1), lookup(s, v)]
                                        solves_prefix(pc, ec, s, i + 1) && merged@.contains_key(v) implies lookup(s, v) == merged@[v] by {
                                        assert(solves_prefix(pc, ec, s, i as int)) by {
                                            assert forall|j: int| 0 <= j < i implies #[trigger] subst(pc[j]@, s) == ec[j]@ by {
                                                assert(solves_prefix(pc, ec, s, i + 1));
                                            }
                                        }
                                        assert(subst(pc[i as int]@, s) == ec[i as int]@);
                                        if mi@.contains_key(v) {
                                            assert(has_var(pc[i as int]@, v));
                                            assert(lookup(s, v) == mi@[v]);
                                        } else {
                                            assert(lookup(s, v) == acc@[v]);
                                        }
                                    }
                                }
                                acc = merged;
                            },
                        }
                    },
                }
                i = i + 1;
            }
            proof {
                lemma_subst_sym(pattern@->Sym_0, pattern@->1, acc@);
                assert(subst(pattern@, acc@)->1 =~= expression@->1) by {
                    assert forall|j: int| 0 <= j < pc.len() implies subst(pattern@, acc@)->1[j] == expression@->1[j] by {
                        assert(subst(pc[j]@, acc@) == ec[j]@);
                    }
                }
                assert forall|v: VariableId| #[trigger] acc@.contains_key(v) <==> has_var(pattern@, v) by {
                    if has_var(pattern@, v) {
                        let j = choose|j: int| 0 <= j < pattern@->1.len() && has_var(#[trigger] pattern@->1[j], v);
                        assert(has_var(pc[j]@, v));
                    }
                    if acc@.contains_key(v) {
                        let j = choose|j: int| 0 <= j < i && has_var(#[trigger] pc[j]@, v);
                        assert(has_var(pattern@->1[j], v));
                    }
                }
                assert forall|s: Map<VariableId, Term>, v: VariableId|
                    #![trigger subst(pattern@, s), lookup(s, v)]
                    subst(pattern@, s) == expression@ && has_var(pattern@, v) implies lookup(s, v) == acc@[v] by {
                    lemma_subst_sym(pattern@->Sym_0, pattern@->1, s);
                    assert(solves_prefix(pc, ec, s, pc.len() as int)) by {
                        assert forall|j: int| 0 <= j < pc.len() implies #[trigger] subst(pc[j]@, s) == ec[j]@ by {
                            assert(subst(pattern@, s)->1[j] == expression@->1[j]);
                        }
                    }
                    assert(acc@.contains_key(v));
                }
            }
            Some(acc)
        },
        (Expression::Literal(a), Expression::Literal(b)) => {
            if *a == *b {
                let m = ExpressionMatch::new();
                Some(m)
            } else {
                None
            }
        },
        (Expression::Literal(_), _) => None,
        (Expression::Symbol(_), _) => {
            assert forall|s: Map<VariableId, Term>| #[trigger] subst(pattern@, s) != expression@ by {
                lemma_subst_sym(pattern@->Sym_0, pattern@->1, s);
            }
            None
        },
    }
}

impl Expression {
    /// Tries to match `pattern` against `expression`, whose variables are treated
    /// as constants.
    ///
    /// Returns a match exactly when some substitution of the pattern's variables
    /// turns the pattern into the expression; the match assigns exactly the
    /// pattern's variables.
    pub fn try_match_expression(pattern: &Expression, expression: &Expression) -> (r: Option<ExpressionMatch>)
        ensures
            r is Some == pattern_matches(pattern@, expression@),
            r matches Some(m) ==> subst(pattern@, m@) == expression@,
            r matches Some(m) ==> forall|v: VariableId| #[trigger] m@.contains_key(v) <==> has_var(pattern@, v),
    {
        let r = match_expression(pattern, expression);
        proof {
            if r is Some {
                assert(subst(pattern@, r->0@) == expression@);
            }
        }
        r
    }

    /// Instantiates a pattern: every variable assigned by `matching` is replaced
    /// by its expression, other variables are kept.
    #[verifier::loop_isolation(false)]
    pub fn instantiate_expression(pattern: &Expression, matching: &ExpressionMatch) -> (r: Expression)
        ensures
            r@ == subst(pattern@, matching@),
        decreases pattern@,
    {
        proof { lemma_expr_view(*pattern); }
        match pattern {
            Expression::Literal(lit) => Expression::Literal(*lit),
            Expression::Variable(var_id) => {
                match matching.at(*var_id) {
                    Some(e) => e.clone(),
                    None => Expression::Variable(*var_id),
                }
            },
            Expression::Symbol(symbol) => {
                let mut children: Vec<Expression> = Vec::new();
                let mut i: usize = 0;
                while i < symbol.children.len()
                    invariant
                        i <= symbol.children@.len(),
                        children@.len() == i,
                        forall|j: int| 0 <= j < i ==> #[trigger] children@[j]@ == subst(symbol.children@[j]@, matching@),
                    decreases symbol.children.len() - i,
                {
                    proof { assert(pattern@->1[i as int] == symbol.children@[i as int]@); }
                    children.push(Expression::instantiate_expression(&symbol.children[i], matching));
                    i = i + 1;
                }
                let r = Expression::Symbol(Symbol { id: symbol.id, children });
                proof {
                    lemma_expr_view(r);
                    lemma_subst_sym(pattern@->Sym_0, pattern@->1, matching@);
                    assert(r@->1 =~= subst(pattern@, matching@)->1) by {
                        assert forall|j: int| 0 <= j < symbol.children@.len() implies r@->1[j] == subst(pattern@, matching@)->1[j] by {
                            assert(children@[j]@ == subst(symbol.children@[j]@, matching@));
                        }
                    }
                }
                r
            },
        }
    }
}


/// Lemma: appending an entry inserts its view into the substitution.
pub proof fn lemma_ref_map_push<'e>(s: Seq<(VariableId, &'e VarFreeExpression)>, k: VariableId, e: &'e VarFreeExpression)
    ensures
        ref_map(s.push((k, e))) == ref_map(s).insert(k, e@),
{
    lemma_assoc_push(s, k, e);
    assert(ref_map(s.push((k, e))) =~= ref_map(s).insert(k, e@));
}

/// A match of a pattern against a variable-free expression: for each pattern
/// variable, a reference to the subexpression it matched.
#[derive(Debug)]
pub struct Match<'e> {
    substitutions: Vec<(VariableId, &'e VarFreeExpression)>,
}

impl<'e> View for Match<'e> {
    type V = Map<VariableId, Term>;

    closed spec fn view(&self) -> Map<VariableId, Term> {
        ref_map(self.substitutions@)
    }
}

impl<'e> Match<'e> {
    #[verifier::type_invariant]
    closed spec fn inv(&self) -> bool {
        assoc_wf(self.substitutions@)
    }

    /// The match that assigns nothing.
    pub fn new() -> (r: Self)
        ensures
            r@ == Map::<VariableId, Term>::empty(),
    {
        let r = Match { substitutions: Vec::new() };
        assert(r@ =~= Map::<VariableId, Term>::empty());
        r
    }

    /// Tries to merge two matches, returning `None` if they conflict.
    pub fn try_merge(&self, other: &Self) -> (r: Option<Self>)
        ensures
            r is Some == compatible(self@, other@),
            r matches Some(m) ==> m@ == self@.union_prefer_right(other@),
    {
        proof { use_type_invariant(self); }
        let copy = Match { substitutions: copy_ref_entries(&self.substitutions) };
        copy.try_add_match(other)
    }

    /// Tries to add the substitutions of another match to this one.
    #[verifier::loop_isolation(false)]
    fn try_add_match(self, other: &Match<'e>) -> (r: Option<Self>)
        ensures
            r is Some == compatible(self@, other@),
            r matches Some(m) ==> m@ == self@.union_prefer_right(other@),
    {
        proof {
            use_type_invariant(&self);
            use_type_invariant(other);
            lemma_assoc_map(self.substitutions@);
            lemma_assoc_map(other.substitutions@);
        }
        let os = &other.substitutions;
        let mut i: usize = 0;
        while i < os.len()
            invariant
                i <= os@.len(),
                forall|j: int| 0 <= j < i && self@.contains_key(#[trigger] os@[j].0) ==> self@[os@[j].0] == os@[j].1@,
            decreases os.len() - i,
        {
            match self.at(os[i].0) {
                Some(e) => {
                    if !e.same_as(os[i].1) {
                        proof {
                            assert(other@[os@[i as int].0] == os@[i as int].1@);
                        }
                        return None;
                    }
                },
                None => {},
            }
            i = i + 1;
        }
        assert(compatible(self@, other@)) by {
            assert forall|k: VariableId| self@.contains_key(k) && other@.contains_key(k) implies #[trigger] self@[k] == #[trigger] other@[k] by {
                let j = choose|j: int| 0 <= j < os@.len() && os@[j].0 == k;
                assert(other@[os@[j].0] == os@[j].1@);
            }
        }
        let ghost self_view = self@;
        let mut entries = self.substitutions;
        let mut i: usize = 0;
        while i < os.len()
            invariant
                i <= os@.len(),
                assoc_wf(entries@),
                ref_map(entries@) == self_view.union_prefer_right(ref_map(os@.take(i as int))),
            decreases os.len() - i,
        {
            proof {
                lemma_assoc_map(entries@);
                lemma_assoc_map(os@.take(i as int));
                lemma_ref_map_push(os@.take(i as int), os@[i as int].0, os@[i as int].1);
                assert(os@.take(i as int).push(os@[i as int]) =~= os@.take(i + 1));
                assert forall|j: int| 0 <= j < i implies os@.take(i as int)[j].0 != os@[i as int].0 by {
                    assert(os@[j].0 != os@[i as int].0);
                }
                assert(!ref_map(os@.take(i as int)).contains_key(os@[i as int].0));
                assert(other@[os@[i as int].0] == os@[i as int].1@);
            }
            let k = os[i].0;
            match assoc_find(&entries, k) {
                Some(_) => {
                    proof {
                        assert(ref_map(entries@).contains_key(k));
                        assert(self_view.contains_key(k));
                        assert(ref_map(entries@) =~= self_view.union_prefer_right(ref_map(os@.take(i + 1))));
                    }
                },
                None => {
                    let ghost before = entries@;
                    entries.push((k, os[i].1));
                    proof {
                        lemma_ref_map_push(before, k, os@[i as int].1);
                        assert forall|a: int, b: int| 0 <= a < entries@.len() && 0 <= b < entries@.len() && a != b implies entries@[a].0 != entries@[b].0 by {
                            if a == before.len() {
                                assert(before[b].0 != k);
                            } else if b == before.len() {
                                assert(before[a].0 != k);
                            }
                        }
                        assert(ref_map(entries@) =~= self_view.union_prefer_right(ref_map(os@.take(i + 1))));
                    }
                },
            }
            i = i + 1;
        }
        assert(os@.take(os@.len() as int) =~= os@);
        Some(Match { substitutions: entries })
    }

    /// The substitutions of this match, as a map from variables to the matched subexpressions.
    pub fn substitutions(&self) -> (r: std::collections::HashMap<VariableId, &'e VarFreeExpression>)
        ensures
            r@.map_values(|e: &VarFreeExpression| e@) == self@,
    {
        proof {
            use_type_invariant(self);
            broadcast use vstd::std_specs::hash::group_hash_axioms;
        }
        let mut map: std::collections::HashMap<VariableId, &'e VarFreeExpression> = std::collections::HashMap::new();
        let mut i: usize = 0;
        while i < self.substitutions.len()
            invariant
                i <= self.substitutions@.len(),
                map@ == assoc_map(self.substitutions@.take(i as int)),
            decreases self.substitutions.len() - i,
        {
            proof {
                lemma_assoc_push(self.substitutions@.take(i as int), self.substitutions@[i as int].0, self.substitutions@[i as int].1);
                assert(self.substitutions@.take(i as int).push(self.substitutions@[i as int]) =~= self.substitutions@.take(i + 1));
            }
            map.insert(self.substitutions[i].0, self.substitutions[i].1);
            i = i + 1;
        }
        assert(self.substitutions@.take(self.substitutions@.len() as int) =~= self.substitutions@);
        assert(map@.map_values(|e: &VarFreeExpression| e@) =~= self@);
        map
    }

    /// Gets the expression substituted for a variable, if the variable was matched.
    pub fn at(&self, variable: VariableId) -> (r: Option<&'e VarFreeExpression>)
        ensures
            r is Some == self@.contains_key(variable),
            r matches Some(e) ==> e@ == self@[variable],
    {
        proof {
            use_type_invariant(self);
            lemma_assoc_map(self.substitutions@);
        }
        match assoc_find(&self.substitutions, variable) {
            Some(i) => Some(self.substitutions[i].1),
            None => None,
        }
    }

    /// Sets the expression substituted for a variable.
    pub fn set(&mut self, variable: VariableId, expression: &'e VarFreeExpression)
        ensures
            final(self)@ == old(self)@.insert(variable, expression@),
    {
        proof {
            use_type_invariant(&*self);
            lemma_assoc_map(self.substitutions@);
        }
        let ghost before = self.substitutions@;
        let mut entries: Vec<(VariableId, &'e VarFreeExpression)> = Vec::new();
        std::mem::swap(&mut entries, &mut self.substitutions);
        match assoc_find(&entries, variable) {
            Some(i) => {
                entries.set(i, (variable, expression));
                proof {
                    lemma_assoc_map(entries@);
                    assert(assoc_wf(entries@));
                    assert(ref_map(entries@) =~= ref_map(before).insert(variable, expression@)) by {
                        assert forall|k: VariableId| #[trigger] ref_map(entries@).contains_key(k) == ref_map(before).insert(variable, expression@).contains_key(k) by {
                            if exists|j: int| 0 <= j < before.len() && before[j].0 == k {
                                let j = choose|j: int| 0 <= j < before.len() && before[j].0 == k;
                                assert(entries@[j].0 == k);
                            }
                            if exists|j: int| 0 <= j < entries@.len() && entries@[j].0 == k {
                                let j = choose|j: int| 0 <= j < entries@.len() && entries@[j].0 == k;
                                if j != i {
                                    assert(before[j].0 == k);
                                }
                            }
                        }
                        assert forall|k: VariableId| #[trigger] ref_map(entries@).contains_key(k) implies ref_map(entries@)[k] == ref_map(before).insert(variable, expression@)[k] by {
                            let j = choose|j: int| 0 <= j < entries@.len() && entries@[j].0 == k;
                            assert(assoc_map(entries@)[entries@[j].0] == entries@[j].1);
                            if j != i {
                                assert(assoc_map(before)[before[j].0] == before[j].1);
                            }
                        }
                    }
                }
            },
            None => {
                entries.push((variable, expression));
                proof {
                    lemma_ref_map_push(before, variable, expression);
                }
            },
        }
        self.substitutions = entries;
    }
}

/// Copies a list of (variable, reference) entries.
fn copy_ref_entries<'e>(entries: &Vec<(VariableId, &'e VarFreeExpression)>) -> (r: Vec<(VariableId, &'e VarFreeExpression)>)
    ensures
        r@ == entries@,
{
    let mut out: Vec<(VariableId, &'e VarFreeExpression)> = Vec::new();
    let mut i: usize = 0;
    while i < entries.len()
        invariant
            i <= entries@.len(),
            out@ == entries@.take(i as int),
        decreases entries.len() - i,
    {
        out.push((entries[i].0, entries[i].1));
        assert(out@ =~= entries@.take(i + 1));
        i = i + 1;
    }
    assert(out@ =~= entries@);
    out
}

impl<'e> Default for Match<'e> {
    fn default() -> (r: Self)
        ensures
            r@ == Map::<VariableId, Term>::empty(),
    {
        Match::new()
    }
}

impl<'e> Clone for Match<'e> {
    fn clone(&self) -> (r: Self)
        ensures
            r@ == self@,
    {
        proof { use_type_invariant(self); }
        Match { substitutions: copy_ref_entries(&self.substitutions) }
    }
}

/// `true` when `sigma` solves the first `n` child equations against variable-free children.
pub open spec fn solves_prefix_var_free(pc: Seq<Expression>, ec: Seq<VarFreeExpression>, sigma: Map<VariableId, Term>, n: int) -> bool {
    forall|j: int| 0 <= j < n ==> #[trigger] subst(pc[j]@, sigma) == ec[j]@
}

/// Matching against a variable-free expression, with the uniqueness facts used by the induction.
#[verifier::loop_isolation(false)]
fn match_var_free<'e>(pattern: &Expression, expression: &'e VarFreeExpression) -> (r: Option<Match<'e>>)
    ensures
        r matches Some(m) ==> {
            &&& subst(pattern@, m@) == expression@
            &&& forall|v: VariableId| #[trigger] m@.contains_key(v) <==> has_var(pattern@, v)
            &&& forall|s: Map<VariableId, Term>, v: VariableId|
                #![trigger subst(pattern@, s), lookup(s, v)]
                subst(pattern@, s) == expression@ && has_var(pattern@, v) ==> lookup(s, v) == m@[v]
        },
        r is None ==> forall|s: Map<VariableId, Term>| #[trigger] subst(pattern@, s) != expression@,
    decreases pattern@,
{
    proof {
        lemma_expr_view(*pattern);
        lemma_var_free_view(*expression);
    }
    match (pattern, expression) {
        (Expression::Variable(pv), e) => {
            let mut m = Match::new();
            m.set(*pv, e);
            assert forall|v: VariableId| #[trigger] m@.contains_key(v) <==> has_var(pattern@, v) by {}
            Some(m)
        },
        (Expression::Symbol(s1), VarFreeExpression::Symbol(s2)) => {
            if s1.id != s2.id || s1.children.len() != s2.children.len() {
                assert forall|s: Map<VariableId, Term>| #[trigger] subst(pattern@, s) != expression@ by {
                    lemma_subst_sym(pattern@->Sym_0, pattern@->1, s);
                }
                return None;
            }
            let ghost pc = s1.children@;
            let ghost ec = s2.children@;
            let mut acc = Match::new();
            let mut i: usize = 0;
            while i < s1.children.len()
                invariant
                    i <= pc.len(),
                    pc.len() == ec.len(),
                    forall|v: VariableId| #[trigger] acc@.contains_key(v) <==> exists|j: int| 0 <= j < i && has_var(#[trigger] pc[j]@, v),
                    forall|j: int| 0 <= j < i ==> subst(#[trigger] pc[j]@, acc@) == ec[j]@,
                    forall|s: Map<VariableId, Term>, v: VariableId|
                        #![trigger solves_prefix_var_free(pc, ec, s, i as int), lookup(s, v)]
                        solves_prefix_var_free(pc, ec, s, i as int) && acc@.contains_key(v) ==> lookup(s, v) == acc@[v],
                decreases pc.len() - i,
            {
                proof { assert(pattern@->1[i as int] == pc[i as int]@); }
                let child = match_var_free(&s1.children[i], &s2.children[i]);
                match child {
                    None => {
                        assert forall|s: Map<VariableId, Term>| #[trigger] subst(pattern@, s) != expression@ by {
                            lemma_subst_sym(pattern@->Sym_0, pattern@->1, s);
                            if subst(pattern@, s) == expression@ {
                                assert(subst(pattern@, s)->1[i as int] == expression@->1[i as int]);
                                assert(subst(pc[i as int]@, s) == ec[i as int]@);
                            }
                        }
                        return None;
                    },
                    Some(mi) => {
                        match acc.try_merge(&mi) {
                            None => {
                                assert forall|s: Map<VariableId, Term>| #[trigger] subst(pattern@, s) != expression@ by {
                                    lemma_subst_sym(pattern@->Sym_0, pattern@->1, s);
                                    if subst(pattern@, s) == expression@ {
                                        assert(solves_prefix_var_free(pc, ec, s, i as int)) by {
                                            assert forall|j: int| 0 <= j < i implies #[trigger] subst(pc[j]@, s) == ec[j]@ by {
                                                assert(subst(pattern@, s)->1[j] == expression@->1[j]);
                                            }
                                        }
                                        assert(subst(pattern@, s)->1[i as int] == expression@->1[i as int]);
                                        assert(subst(pc[i as int]@, s) == ec[i as int]@);
                                        let k = choose|k: VariableId| acc@.contains_key(k) && mi@.contains_key(k) && acc@[k] != mi@[k];
                                        assert(lookup(s, k) == acc@[k]);
                                        assert(lookup(s, k) == mi@[k]);
                                    }
                                }
                                return None;
                            },
                            Some(merged) => {
                                proof {
                                    assert forall|j: int| 0 <= j < i + 1 implies subst(#[trigger] pc[j]@, merged@) == ec[j]@ by {
                                        if j < i {
                                            assert forall|v: VariableId| has_var(pc[j]@, v) implies lookup(merged@, v) == lookup(acc@, v) by {
                                                assert(acc@.contains_key(v));
                                            }
                                            lemma_subst_agree(pc[j]@, merged@, acc@);
                                        } else {
                                            assert forall|v: VariableId| has_var(pc[j]@, v) implies lookup(merged@, v) == lookup(mi@, v) by {
                                                assert(mi@.contains_key(v));
                                            }
                                            lemma_subst_agree(pc[j]@, merged@, mi@);
                                        }
                                    }
                                    assert forall|v: VariableId| #[trigger] merged@.contains_key(v) <==> exists|j: int| 0 <= j < i + 1 && has_var(#[trigger] pc[j]@, v) by {
                                        if mi@.contains_key(v) {
                                            assert(has_var(pc[i as int]@, v));
                                        }
                                        if exists|j: int| 0 <= j < i + 1 && has_var(#[trigger] pc[j]@, v) {
                                            let j = choose|j: int| 0 <= j < i + 1 && has_var(#[trigger] pc[j]@, v);
                                            if j == i {
                                                assert(mi@.contains_key(v));
                                            } else {
                                                assert(acc@.contains_key(v));
                                            }
                                        }
                                    }
                                    assert forall|s: Map<VariableId, Term>, v: VariableId|
                                        #![trigger solves_prefix_var_free(pc, ec, s, i + 1), lookup(s, v)]
                                        solves_prefix_var_free(pc, ec, s, i + 1) && merged@.contains_key(v) implies lookup(s, v) == merged@[v] by {
                                        assert(solves_prefix_var_free(pc, ec, s, i as int)) by {
                                            assert forall|j: int| 0 <= j < i implies #[trigger] subst(pc[j]@, s) == ec[j]@ by {
                                                assert(solves_prefix_var_free(pc, ec, s, i + 1));
                                            }
                                        }
                                        assert(subst(pc[i as int]@, s) == ec[i as int]@);
                                        if mi@.contains_key(v) {
                                            assert(has_var(pc[i as int]@, v));
                                            assert(lookup(s, v) == mi@[v]);
                                        } else {
                                            assert(lookup(s, v) == acc@[v]);
                                        }
                                    }
                                }
                                acc = merged;
                            },
                        }
                    },
                }
                i = i + 1;
            }
            proof {
                lemma_subst_sym(pattern@->Sym_0, pattern@->1, acc@);
                assert(subst(pattern@, acc@)->1 =~= expression@->1) by {
                    assert forall|j: int| 0 <= j < pc.len() implies subst(pattern@, acc@)->1[j] == expression@->1[j] by {
                        assert(subst(pc[j]@, acc@) == ec[j]@);
                    }
                }
                assert forall|v: VariableId| #[trigger] acc@.contains_key(v) <==> has_var(pattern@, v) by {
                    if has_var(pattern@, v) {
                        let j = choose|j: int| 0 <= j < pattern@->1.len() && has_var(#[trigger] pattern@->1[j], v);
                        assert(has_var(pc[j]@, v));
                    }
                    if acc@.contains_key(v) {
                        let j = choose|j: int| 0 <= j < i && has_var(#[trigger] pc[j]@, v);
                        assert(has_var(pattern@->1[j], v));
                    }
                }
                assert forall|s: Map<VariableId, Term>, v: VariableId|
                    #![trigger subst(pattern@, s), lookup(s, v)]
                    subst(pattern@, s) == expression@ && has_var(pattern@, v) implies lookup(s, v) == acc@[v] by {
                    lemma_subst_sym(pattern@->Sym_0, pattern@->1, s);
                    assert(solves_prefix_var_free(pc, ec, s, pc.len() as int)) by {
                        assert forall|j: int| 0 <= j < pc.len() implies #[trigger] subst(pc[j]@, s) == ec[j]@ by {
                            assert(subst(pattern@, s)->1[j] == expression@->1[j]);
                        }
                    }
                    assert(acc@.contains_key(v));
                }
            }
            Some(acc)
        },
        (Expression::Literal(a), VarFreeExpression::Literal(b)) => {
            if *a == *b {
                Some(Match::new())
            } else {
                None
            }
        },
        (Expression::Literal(_), _) => None,
        (Expression::Symbol(_), _) => {
            assert forall|s: Map<VariableId, Term>| #[trigger] subst(pattern@, s) != expression@ by {
                lemma_subst_sym(pattern@->Sym_0, pattern@->1, s);
            }
            None
        },
    }
}

impl Expression {
    /// `self` is treated as a pattern which may match `expression`.
    ///
    /// Returns a match exactly when some substitution of the pattern's variables
    /// turns the pattern into `expression`; the match assigns exactly the pattern's
    /// variables, each to a subexpression of `expression`.
    pub fn try_match<'e>(&self, expression: &'e VarFreeExpression) -> (r: Option<Match<'e>>)
        ensures
            r is Some == pattern_matches(self@, expression@),
            r matches Some(m) ==> subst(self@, m@) == expression@,
            r matches Some(m) ==> forall|v: VariableId| #[trigger] m@.contains_key(v) <==> has_var(self@, v),
    {
        let r = match_var_free(self, expression);
        proof {
            if r is Some {
                assert(subst(self@, r->0@) == expression@);
            }
        }
        r
    }
}

} // verus!
