//! Matching patterns against the classes of an e-graph.

pub mod bottom_up;
pub mod top_down;

use vstd::prelude::*;

use crate::assoc::{assoc_find, assoc_map, assoc_wf, lemma_assoc_map, lemma_assoc_push};
use crate::language::expression::{
    has_var, lemma_expr_view, mixed_classes_below, mixed_size, mixed_sizes_sum, sizes_sum, term_size, Expression,
    MixedExpression, Term, VariableId,
};
use crate::language::symbol::Symbol;

use super::{canon_node, children_below, lemma_children_below_mono, mixed_represents, node_children, ClassId, EGraph, NodeView};

verus! {

broadcast use vstd::std_specs::vec::group_vec_axioms, vstd::seq::group_seq_axioms;

/// `true` when class `c` holds an instance of pattern `p` in which every
/// variable `v` stands for the class `sigma[v]`. Classes are compared by
/// representative.
pub open spec fn pattern_in_class(
    views: Seq<NodeView>,
    uf: Seq<ClassId>,
    p: Term,
    c: ClassId,
    sigma: Map<VariableId, ClassId>,
) -> bool
    decreases p,
{
    match p {
        Term::Lit(l) => exists|i: int|
            0 <= i < views.len() && uf[i] == uf[c as int] && #[trigger] views[i] == NodeView::Lit(l),
        Term::Var(v) => sigma.contains_key(v) && sigma[v] < uf.len() && uf[sigma[v] as int] == uf[c as int],
        Term::Sym(id, cs) => exists|i: int|
            0 <= i < views.len() && uf[i] == uf[c as int] && #[trigger] views[i] is Sym && views[i]->Sym_0 == id
                && views[i]->1.len() == cs.len() && forall|k: int|
                0 <= k < cs.len() ==> pattern_in_class(views, uf, #[trigger] cs[k], views[i]->1[k], sigma),
    }
}

/// `true` when `m` is a correct match of pattern `p` in `egraph`: its root is a
/// class that holds an instance of `p` under its substitution, which binds only
/// variables of `p`.
pub open spec fn sound_match<A>(egraph: &EGraph<A>, p: Term, m: (ClassId, Map<VariableId, ClassId>)) -> bool {
    &&& m.0 < egraph.nodes_view().len()
    &&& pattern_in_class(egraph.nodes_view(), egraph.uf_view(), p, m.0, m.1)
    &&& forall|v: VariableId| #[trigger] m.1.contains_key(v) ==> has_var(p, v) && m.1[v] < egraph.nodes_view().len()
}

/// Lemma: an instance stays one under a substitution that extends the one it was found with.
pub proof fn lemma_pattern_in_class_submap(
    views: Seq<NodeView>,
    uf: Seq<ClassId>,
    p: Term,
    c: ClassId,
    s1: Map<VariableId, ClassId>,
    s2: Map<VariableId, ClassId>,
)
    requires
        pattern_in_class(views, uf, p, c, s1),
        s1.submap_of(s2),
    ensures
        pattern_in_class(views, uf, p, c, s2),
    decreases p,
{
    match p {
        Term::Var(v) => {
            assert(s2.dom().contains(v));
            assert(s2[v] == s1[v]);
        },
        Term::Sym(id, cs) => {
            let i = choose|i: int|
                0 <= i < views.len() && uf[i] == uf[c as int] && #[trigger] views[i] is Sym && views[i]->Sym_0 == id
                    && views[i]->1.len() == cs.len() && forall|k: int|
                    0 <= k < cs.len() ==> pattern_in_class(views, uf, #[trigger] cs[k], views[i]->1[k], s1);
            assert forall|k: int| 0 <= k < cs.len() implies pattern_in_class(views, uf, #[trigger] cs[k], views[i]->1[k], s2) by {
                lemma_pattern_in_class_submap(views, uf, cs[k], views[i]->1[k], s1, s2);
            }
        },
        _ => {},
    }
}

/// Lemma: an instance found in an e-graph is still one after the e-graph evolves.
pub proof fn lemma_pattern_in_class_evolve<A>(
    before: &EGraph<A>,
    after: &EGraph<A>,
    p: Term,
    c: ClassId,
    sigma: Map<VariableId, ClassId>,
)
    requires
        before.wf(),
        after.wf(),
        after.evolved_from(before),
        c < before.nodes_view().len(),
        forall|v: VariableId| #[trigger] sigma.contains_key(v) ==> sigma[v] < before.nodes_view().len(),
        pattern_in_class(before.nodes_view(), before.uf_view(), p, c, sigma),
    ensures
        pattern_in_class(after.nodes_view(), after.uf_view(), p, c, sigma),
    decreases p,
{
    let views = before.nodes_view();
    let uf = before.uf_view();
    let views2 = after.nodes_view();
    let uf2 = after.uf_view();
    let n = views.len();
    match p {
        Term::Lit(l) => {
            let i = choose|i: int| 0 <= i < views.len() && uf[i] == uf[c as int] && #[trigger] views[i] == NodeView::Lit(l);
            assert(canon_node(views2[i], uf2) == canon_node(views[i], uf2));
            assert(uf2[i] == uf2[c as int]);
        },
        Term::Var(v) => {
            assert(uf2[sigma[v] as int] == uf2[c as int]);
        },
        Term::Sym(id, cs) => {
            let i = choose|i: int|
                0 <= i < views.len() && uf[i] == uf[c as int] && #[trigger] views[i] is Sym && views[i]->Sym_0 == id
                    && views[i]->1.len() == cs.len() && forall|k: int|
                    0 <= k < cs.len() ==> pattern_in_class(views, uf, #[trigger] cs[k], views[i]->1[k], sigma);
            let ks = views[i]->1;
            assert(canon_node(views2[i], uf2) == canon_node(views[i], uf2));
            assert(uf2[i] == uf2[c as int]);
            let ks2 = views2[i]->1;
            assert(ks.map_values(|x: ClassId| uf2[x as int]).len() == ks2.map_values(|x: ClassId| uf2[x as int]).len());
            assert(children_below(views[i], n));
            assert forall|k: int| 0 <= k < cs.len() implies pattern_in_class(views2, uf2, #[trigger] cs[k], ks2[k], sigma) by {
                assert(node_children(views[i])[k] == ks[k]);
                lemma_pattern_in_class_evolve(before, after, cs[k], ks[k], sigma);
                assert(ks.map_values(|x: ClassId| uf2[x as int])[k] == ks2.map_values(|x: ClassId| uf2[x as int])[k]);
                lemma_pattern_in_class_same_root(views2, uf2, cs[k], ks[k], ks2[k], sigma);
            }
        },
    }
}

/// Lemma: an instance in a class is an instance in any id of the same class.
pub proof fn lemma_pattern_in_class_same_root(
    views: Seq<NodeView>,
    uf: Seq<ClassId>,
    p: Term,
    c1: ClassId,
    c2: ClassId,
    sigma: Map<VariableId, ClassId>,
)
    requires
        pattern_in_class(views, uf, p, c1, sigma),
        uf[c1 as int] == uf[c2 as int],
    ensures
        pattern_in_class(views, uf, p, c2, sigma),
{
}

/// `true` when `m` is the instance of `t` whose variables are replaced by the
/// classes that `sigma` binds them to.
pub open spec fn mixed_instance(m: MixedExpression, t: Term, sigma: Map<VariableId, ClassId>) -> bool
    decreases m,
{
    match m {
        MixedExpression::Literal(l) => t == Term::Lit(l),
        MixedExpression::Class(c) => t is Var && sigma.contains_key(t->Var_0) && sigma[t->Var_0] == c,
        MixedExpression::Symbol(s) => t is Sym && t->Sym_0 == s.id && t->1.len() == s.children@.len() && forall|k: int|
            0 <= k < s.children@.len() ==> mixed_instance(#[trigger] s.children@[k], t->1[k], sigma),
    }
}

/// Lemma: a class that represents an instance of `t` holds an instance of the pattern `t`.
pub proof fn lemma_mixed_instance(
    views: Seq<NodeView>,
    uf: Seq<ClassId>,
    m: MixedExpression,
    t: Term,
    sigma: Map<VariableId, ClassId>,
    c: ClassId,
)
    requires
        mixed_instance(m, t, sigma),
        mixed_represents(views, uf, m, c),
        uf.len() == views.len(),
        c < uf.len(),
        uf[c as int] == c,
        forall|i: int| 0 <= i < uf.len() ==> #[trigger] uf[i] < uf.len() && uf[uf[i] as int] == uf[i],
        forall|i: int| 0 <= i < views.len() ==> #[trigger] children_below(views[i], views.len() as nat),
    ensures
        pattern_in_class(views, uf, t, c, sigma),
    decreases m,
{
    match m {
        MixedExpression::Literal(l) => {},
        MixedExpression::Class(k) => {},
        MixedExpression::Symbol(s) => {
            let cs = t->1;
            let i = choose|i: int|
                0 <= i < views.len() && uf[i] == c && #[trigger] views[i] is Sym && views[i]->Sym_0 == s.id
                    && views[i]->1.len() == s.children@.len() && forall|k: int|
                    0 <= k < s.children@.len() ==> mixed_represents(views, uf, #[trigger] s.children@[k], uf[views[i]->1[k] as int]);
            let ks = views[i]->1;
            assert(children_below(views[i], views.len() as nat));
            assert forall|k: int| 0 <= k < cs.len() implies pattern_in_class(views, uf, #[trigger] cs[k], ks[k], sigma) by {
                assert(node_children(views[i])[k] == ks[k]);
                assert(mixed_instance(s.children@[k], cs[k], sigma));
                assert(mixed_represents(views, uf, s.children@[k], uf[ks[k] as int]));
                lemma_mixed_instance(views, uf, s.children@[k], cs[k], sigma, uf[ks[k] as int]);
                lemma_pattern_in_class_same_root(views, uf, cs[k], uf[ks[k] as int], ks[k], sigma);
            }
        },
    }
}

/// Lemma: an instance built with classes below `n` has class leaves below `n`
/// and no more nodes than the term.
pub proof fn lemma_mixed_instance_bounds(m: MixedExpression, t: Term, sigma: Map<VariableId, ClassId>, n: nat)
    requires
        mixed_instance(m, t, sigma),
        forall|v: VariableId| #[trigger] sigma.contains_key(v) ==> sigma[v] < n,
    ensures
        mixed_classes_below(m, n),
        mixed_size(m) <= term_size(t),
    decreases m,
{
    match m {
        MixedExpression::Symbol(s) => {
            let cs = t->1;
            assert forall|k: int| 0 <= k < s.children@.len() implies mixed_classes_below(#[trigger] s.children@[k], n) by {
                lemma_mixed_instance_bounds(s.children@[k], cs[k], sigma, n);
            }
            lemma_mixed_sizes_le(s.children@, cs, sigma, n, s.children@.len() as int);
        },
        _ => {},
    }
}

proof fn lemma_mixed_sizes_le(ms: Seq<MixedExpression>, cs: Seq<Term>, sigma: Map<VariableId, ClassId>, n: nat, k: int)
    requires
        0 <= k <= ms.len() == cs.len(),
        forall|j: int| 0 <= j < ms.len() ==> mixed_instance(#[trigger] ms[j], cs[j], sigma),
        forall|v: VariableId| #[trigger] sigma.contains_key(v) ==> sigma[v] < n,
    ensures
        mixed_sizes_sum(ms, k) <= sizes_sum(cs, k),
    decreases ms, k,
{
    if k > 0 {
        lemma_mixed_sizes_le(ms, cs, sigma, n, k - 1);
        lemma_mixed_instance_bounds(ms[k - 1], cs[k - 1], sigma, n);
    }
}

/// Lemma: an instance of `p` in a class binds every variable of `p`.
pub proof fn lemma_pattern_binds(views: Seq<NodeView>, uf: Seq<ClassId>, p: Term, c: ClassId, sigma: Map<VariableId, ClassId>, v: VariableId)
    requires
        pattern_in_class(views, uf, p, c, sigma),
        has_var(p, v),
    ensures
        sigma.contains_key(v),
    decreases p,
{
    match p {
        Term::Sym(id, cs) => {
            let k = choose|k: int| 0 <= k < cs.len() && has_var(#[trigger] cs[k], v);
            let i = choose|i: int|
                0 <= i < views.len() && uf[i] == uf[c as int] && #[trigger] views[i] is Sym && views[i]->Sym_0 == id
                    && views[i]->1.len() == cs.len() && forall|k: int|
                    0 <= k < cs.len() ==> pattern_in_class(views, uf, #[trigger] cs[k], views[i]->1[k], sigma);
            lemma_pattern_binds(views, uf, cs[k], views[i]->1[k], sigma, v);
        },
        _ => {},
    }
}

/// A match of a pattern in an e-graph: the class matched by the pattern's root
/// and the class matched by each variable.
#[derive(Debug)]
pub struct EGraphMatch {
    root: ClassId,
    substitutions: Vec<(VariableId, ClassId)>,
}

impl View for EGraphMatch {
    type V = (ClassId, Map<VariableId, ClassId>);

    closed spec fn view(&self) -> (ClassId, Map<VariableId, ClassId>) {
        (self.root, assoc_map(self.substitutions@))
    }
}

/// `true` when two substitutions agree on every variable they both bind.
pub open spec fn agree(a: Map<VariableId, ClassId>, b: Map<VariableId, ClassId>) -> bool {
    forall|v: VariableId| a.contains_key(v) && b.contains_key(v) ==> #[trigger] a[v] == #[trigger] b[v]
}

/// Lemma: the number of entries of a well-formed association list is the size
/// of the domain of its map.
pub proof fn lemma_assoc_len(s: Seq<(VariableId, ClassId)>)
    requires
        assoc_wf(s),
    ensures
        assoc_map(s).dom().finite(),
        assoc_map(s).dom().len() == s.len(),
    decreases s.len(),
{
    if s.len() > 0 {
        let p = s.drop_last();
        assert(assoc_wf(p));
        lemma_assoc_len(p);
        lemma_assoc_map(p);
        if assoc_map(p).contains_key(s.last().0) {
            let i = choose|i: int| 0 <= i < p.len() && p[i].0 == s.last().0;
            assert(s[i].0 == s[s.len() - 1].0);
        }
        assert(assoc_map(s).dom() == assoc_map(p).dom().insert(s.last().0));
    }
}

impl EGraphMatch {
    #[verifier::type_invariant]
    closed spec fn inv(&self) -> bool {
        assoc_wf(self.substitutions@)
    }

    /// The match of class `root` that binds no variable.
    pub fn empty(root: ClassId) -> (r: Self)
        ensures
            r@ == (root, Map::<VariableId, ClassId>::empty()),
    {
        let r = EGraphMatch { root, substitutions: Vec::new() };
        assert(assoc_map(r.substitutions@) =~= Map::<VariableId, ClassId>::empty());
        r
    }

    /// Binds `variable` to class `class_id`.
    pub fn insert(&mut self, variable: VariableId, class_id: ClassId)
        ensures
            final(self)@ == (old(self)@.0, old(self)@.1.insert(variable, class_id)),
    {
        proof {
            use_type_invariant(&*self);
            lemma_assoc_map(self.substitutions@);
        }
        let ghost before = self.substitutions@;
        let mut entries: Vec<(VariableId, ClassId)> = Vec::new();
        std::mem::swap(&mut entries, &mut self.substitutions);
        match assoc_find(&entries, variable) {
            Some(i) => {
                entries.set(i, (variable, class_id));
                proof {
                    lemma_assoc_map(entries@);
                    assert(assoc_wf(entries@));
                    assert(assoc_map(entries@) =~= assoc_map(before).insert(variable, class_id)) by {
                        assert forall|k: VariableId| #[trigger] assoc_map(entries@).contains_key(k) == assoc_map(before).insert(variable, class_id).contains_key(k) by {
                            if exists|j: int| 0 <= j < before.len() && before[j].0 == k {
                                let j = choose|j: int| 0 <= j < before.len() && before[j].0 == k;
                                assert(entries@[j].0 == k);
                            }
                            if exists|j: int| 0 <= j < entries@.len() && entries@[j].0 == k {
                                let j = choose|j: int| 0 <= j < entries@.len() && entries@[j].0 == k;
                                if j != i {
                                    assert(before[j].0 == k);
                                }
                            }
                        }
                        assert forall|k: VariableId| #[trigger] assoc_map(entries@).contains_key(k) implies assoc_map(entries@)[k] == assoc_map(before).insert(variable, class_id)[k] by {
                            let j = choose|j: int| 0 <= j < entries@.len() && entries@[j].0 == k;
                            assert(assoc_map(entries@)[entries@[j].0] == entries@[j].1);
                            if j != i {
                                assert(assoc_map(before)[before[j].0] == before[j].1);
                            }
                        }
                    }
                }
            },
            None => {
                entries.push((variable, class_id));
                proof {
                    lemma_assoc_push(before, variable, class_id);
                    assert forall|a: int, b: int| 0 <= a < entries@.len() && 0 <= b < entries@.len() && a != b implies entries@[a].0 != entries@[b].0 by {
                        if a == before.len() {
                            assert(before[b].0 != variable);
                        } else if b == before.len() {
                            assert(before[a].0 != variable);
                        }
                    }
                }
            },
        }
        self.substitutions = entries;
    }

    /// The class bound to `variable`, if any.
    pub fn substitution(&self, variable: VariableId) -> (r: Option<ClassId>)
        ensures
            r is Some == self@.1.contains_key(variable),
            r matches Some(c) ==> c == self@.1[variable],
    {
        proof {
            use_type_invariant(self);
            lemma_assoc_map(self.substitutions@);
        }
        match assoc_find(&self.substitutions, variable) {
            Some(i) => Some(self.substitutions[i].1),
            None => None,
        }
    }

    /// The number of bound variables.
    pub fn substitution_count(&self) -> (r: usize)
        ensures
            r == self@.1.dom().len(),
    {
        proof {
            use_type_invariant(self);
            lemma_assoc_len(self.substitutions@);
        }
        self.substitutions.len()
    }

    /// A copy of the match.
    pub fn copy(&self) -> (r: Self)
        ensures
            r@ == self@,
    {
        proof {
            use_type_invariant(self);
        }
        let mut entries: Vec<(VariableId, ClassId)> = Vec::new();
        let mut i: usize = 0;
        while i < self.substitutions.len()
            invariant
                i <= self.substitutions@.len(),
                entries@ == self.substitutions@.take(i as int),
            decreases self.substitutions@.len() - i,
        {
            entries.push(self.substitutions[i]);
            assert(entries@ =~= self.substitutions@.take(i + 1));
            i = i + 1;
        }
        assert(entries@ =~= self.substitutions@);
        EGraphMatch { root: self.root, substitutions: entries }
    }

    /// Merges the bindings of `other` into this match, now rooted at `root`;
    /// `None` when both bind some variable to different classes.
    #[verifier::loop_isolation(false)]
    pub fn merge(self, root: ClassId, other: Self) -> (r: Option<EGraphMatch>)
        ensures
            r is Some == agree(self@.1, other@.1),
            r matches Some(m) ==> m@ == (root, self@.1.union_prefer_right(other@.1)),
    {
        proof {
            use_type_invariant(&self);
            use_type_invariant(&other);
            lemma_assoc_map(self.substitutions@);
            lemma_assoc_map(other.substitutions@);
        }
        let os = &other.substitutions;
        let mut result = EGraphMatch { root, substitutions: self.substitutions };
        let ghost mine = assoc_map(result.substitutions@);
        let mut i: usize = 0;
        while i < os.len()
            invariant
                i <= os@.len(),
                assoc_wf(os@),
                mine == self@.1,
                result@ == (root, mine.union_prefer_right(assoc_map(os@.take(i as int)))),
                forall|j: int| 0 <= j < i && mine.contains_key(#[trigger] os@[j].0) ==> mine[os@[j].0] == os@[j].1,
            decreases os@.len() - i,
        {
            proof {
                use_type_invariant(&result);
            }
            let (k, c) = os[i];
            match result.substitution(k) {
                Some(existing) => {
                    if existing != c {
                        proof {
                            assert(forall|j: int| 0 <= j < i ==> os@.take(i as int)[j].0 != k);
                            lemma_assoc_map(os@.take(i as int));
                            assert(!assoc_map(os@.take(i as int)).contains_key(k));
                            assert(mine.contains_key(k) && mine[k] == existing);
                            assert(other@.1[os@[i as int].0] == os@[i as int].1);
                        }
                        return None;
                    }
                },
                None => {},
            }
            proof {
                lemma_assoc_push(os@.take(i as int), k, c);
                assert(os@.take(i as int).push((k, c)) =~= os@.take(i + 1));
                assert(forall|j: int| 0 <= j < i ==> os@.take(i as int)[j].0 != k);
                lemma_assoc_map(os@.take(i as int));
            }
            result.insert(k, c);
            proof {
                assert(result@.1 =~= mine.union_prefer_right(assoc_map(os@.take(i + 1))));
            }
            i = i + 1;
        }
        assert(os@.take(os@.len() as int) =~= os@);
        proof {
            assert forall|v: VariableId| mine.contains_key(v) && other@.1.contains_key(v) implies #[trigger] mine[v] == #[trigger] other@.1[v] by {
                let j = choose|j: int| 0 <= j < os@.len() && os@[j].0 == v;
                assert(other@.1[os@[j].0] == os@[j].1);
            }
        }
        Some(result)
    }

    /// Moves the match to root `root`.
    pub fn set_root(&mut self, root: ClassId)
        ensures
            final(self)@ == (root, old(self)@.1),
    {
        proof {
            use_type_invariant(&*self);
        }
        self.root = root;
    }

    /// The class matched against the root of the pattern.
    pub fn root(&self) -> (r: ClassId)
        ensures
            r == self@.0,
    {
        self.root
    }

    /// The class matched against variable `variable_id`, which the match binds.
    pub fn class_variable(&self, variable_id: VariableId) -> (r: ClassId)
        requires
            self@.1.contains_key(variable_id),
        ensures
            r == self@.1[variable_id],
    {
        self.substitution(variable_id).unwrap()
    }
}

impl Expression {
    /// The expression with every variable replaced by the class that `matching`
    /// binds it to; every variable must be bound.
    pub fn mixed_expression(&self, matching: &EGraphMatch) -> (r: MixedExpression)
        requires
            forall|v: VariableId| has_var(self@, v) ==> #[trigger] matching@.1.contains_key(v),
        ensures
            mixed_instance(r, self@, matching@.1),
        decreases self@,
    {
        proof {
            lemma_expr_view(*self);
        }
        match self {
            Expression::Literal(l) => MixedExpression::Literal(*l),
            Expression::Variable(v) => {
                assert(has_var(self@, *v));
                MixedExpression::Class(matching.class_variable(*v))
            },
            Expression::Symbol(s) => {
                let ghost t = self@;
                let mut children: Vec<MixedExpression> = Vec::new();
                let mut i: usize = 0;
                while i < s.children.len()
                    invariant
                        t == self@,
                        t is Sym,
                        t->Sym_0 == s.id,
                        t->1.len() == s.children@.len(),
                        forall|j: int| 0 <= j < s.children@.len() ==> #[trigger] t->1[j] == s.children@[j]@,
                        forall|v: VariableId| has_var(t, v) ==> #[trigger] matching@.1.contains_key(v),
                        i <= s.children@.len(),
                        children@.len() == i,
                        forall|j: int| 0 <= j < i ==> mixed_instance(#[trigger] children@[j], t->1[j], matching@.1),
                    decreases s.children@.len() - i,
                {
                    assert(decreases_to!(t => t->1));
                    assert(decreases_to!(t->1 => t->1[i as int]));
                    proof {
                        assert forall|v: VariableId| has_var(s.children@[i as int]@, v) implies #[trigger] matching@.1.contains_key(v) by {
                            assert(has_var(t->1[i as int], v));
                            assert(has_var(t, v));
                        }
                    }
                    let c = s.children[i].mixed_expression(matching);
                    children.push(c);
                    i = i + 1;
                }
                let r = MixedExpression::Symbol(Symbol { id: s.id, children });
                proof {
                    assert(forall|j: int| 0 <= j < children@.len() ==> mixed_instance(#[trigger] children@[j], t->1[j], matching@.1));
                }
                r
            },
        }
    }

    /// The number of nodes of the expression, saturating at `usize::MAX`.
    pub fn size(&self) -> (r: usize)
        ensures
            r == (if term_size(self@) <= usize::MAX {
                term_size(self@)
            } else {
                usize::MAX as nat
            }),
        decreases self@,
    {
        proof {
            lemma_expr_view(*self);
        }
        match self {
            Expression::Symbol(s) => {
                let ghost t = self@;
                let mut total: usize = 1;
                let mut i: usize = 0;
                while i < s.children.len()
                    invariant
                        t == self@,
                        t is Sym,
                        t->1.len() == s.children@.len(),
                        forall|j: int| 0 <= j < s.children@.len() ==> #[trigger] t->1[j] == s.children@[j]@,
                        i <= s.children@.len(),
                        total == (if 1 + sizes_sum(t->1, i as int) <= usize::MAX {
                            1 + sizes_sum(t->1, i as int)
                        } else {
                            usize::MAX as nat
                        }),
                    decreases s.children@.len() - i,
                {
                    assert(decreases_to!(t => t->1));
                    assert(decreases_to!(t->1 => t->1[i as int]));
                    let c = s.children[i].size();
                    total = total.saturating_add(c);
                    i = i + 1;
                }
                total
            },
            _ => 1,
        }
    }
}

/// A way to find the matches of a pattern in an e-graph.
pub trait Matcher {
    /// Matches of `expression` in `egraph`; each of them is correct.
    fn try_match<A>(&self, egraph: &EGraph<A>, expression: &Expression) -> (r: Vec<EGraphMatch>)
        requires
            egraph.wf(),
        ensures
            forall|i: int| 0 <= i < r@.len() ==> sound_match(egraph, expression@, #[trigger] r@[i]@),
    ;
}

} // verus!
