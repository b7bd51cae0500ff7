//! E-graphs: classes of equivalent nodes kept closed under congruence.
//!
//! Every node gets the id of the class it was created in; a union-find
//! structure maps each class id to the representative of its class. Only
//! representatives carry a [`Class`].

pub mod class;
pub mod drawing;
pub mod extraction;
pub mod matching;
pub mod node;
pub mod saturation;

use vstd::prelude::*;

use crate::language::expression::{
    lemma_subterm_of_any_mono, lemma_var_free_view, mixed_classes_below, mixed_size, mixed_sizes_sum, subterm_of,
    subterm_of_any, term_size, Literal, MixedExpression, Term, VarFreeExpression,
};
use crate::language::symbol::{Symbol, SymbolId};
use crate::seen::Seen;
use crate::union_find::UnionFind;

pub use class::analysis::Analysis;
pub use class::{Class, DynClass};
pub use node::{canon_node, children_below, node_children, Node, NodeView};

verus! {

broadcast use vstd::std_specs::vec::group_vec_axioms, vstd::seq::group_seq_axioms;

/// Identifier of a node.
pub type NodeId = usize;

/// Identifier of an equivalence class.
pub type ClassId = usize;

/// An e-graph whose classes carry analysis data of type `A`.
pub struct EGraph<A> {
    union_find: UnionFind,
    nodes: Vec<Node>,
    classes: Vec<Option<Class<A>>>,
}

/// The number of representatives among the first `k` ids.
pub open spec fn roots_count(uf: Seq<ClassId>, k: int) -> nat
    decreases k,
{
    if k <= 0 {
        0
    } else {
        roots_count(uf, k - 1) + if uf[k - 1] == k - 1 {
            1nat
        } else {
            0nat
        }
    }
}

/// The representatives among the first `k` ids, in increasing order.
pub open spec fn roots_upto(uf: Seq<ClassId>, k: int) -> Seq<ClassId>
    decreases k,
{
    if k <= 0 {
        Seq::empty()
    } else if uf[k - 1] == k - 1 {
        roots_upto(uf, k - 1).push((k - 1) as ClassId)
    } else {
        roots_upto(uf, k - 1)
    }
}

/// Lemma: the representatives listed are ids below `k` that represent themselves.
pub proof fn lemma_roots_upto(uf: Seq<ClassId>, k: int)
    requires
        0 <= k <= uf.len(),
        uf.len() <= usize::MAX,
    ensures
        forall|j: int| 0 <= j < roots_upto(uf, k).len() ==> #[trigger] roots_upto(uf, k)[j] < k
            && uf[roots_upto(uf, k)[j] as int] == roots_upto(uf, k)[j],
    decreases k,
{
    if k > 0 {
        lemma_roots_upto(uf, k - 1);
        let prev = roots_upto(uf, k - 1);
        if uf[k - 1] == k - 1 {
            let cur = prev.push((k - 1) as ClassId);
            assert(roots_upto(uf, k) == cur);
            assert forall|j: int| 0 <= j < cur.len() implies #[trigger] cur[j] < k && uf[cur[j] as int] == cur[j] by {
                if j < prev.len() {
                    assert(cur[j] == prev[j]);
                }
            }
        }
    }
}

/// Lemma: every id below `k` that represents itself is listed.
pub proof fn lemma_roots_upto_complete(uf: Seq<ClassId>, k: int, r: ClassId)
    requires
        0 <= r < k <= uf.len(),
        uf[r as int] == r,
    ensures
        roots_upto(uf, k).contains(r),
    decreases k,
{
    if r < k - 1 {
        lemma_roots_upto_complete(uf, k - 1, r);
        let prev = roots_upto(uf, k - 1);
        let j = choose|j: int| 0 <= j < prev.len() && prev[j] == r;
        if uf[k - 1] == k - 1 {
            assert(roots_upto(uf, k)[j] == r);
        }
    } else {
        assert(roots_upto(uf, k).last() == r);
    }
}

/// Lemma: no id is listed twice among the representatives below `k`.
pub proof fn lemma_roots_upto_distinct(uf: Seq<ClassId>, k: int)
    requires
        0 <= k <= uf.len(),
        uf.len() <= usize::MAX,
    ensures
        roots_upto(uf, k).no_duplicates(),
    decreases k,
{
    if k > 0 {
        lemma_roots_upto_distinct(uf, k - 1);
        lemma_roots_upto(uf, k - 1);
        let prev = roots_upto(uf, k - 1);
        if uf[k - 1] == k - 1 {
            let cur = prev.push((k - 1) as ClassId);
            assert forall|i: int, j: int| 0 <= i < cur.len() && 0 <= j < cur.len() && i != j implies cur[i] != cur[j] by {
                if i < prev.len() && j < prev.len() {
                    assert(cur[i] == prev[i] && cur[j] == prev[j]);
                } else if i < prev.len() {
                    assert(cur[i] == prev[i]);
                } else {
                    assert(cur[j] == prev[j]);
                }
            }
        }
    }
}

/// Law: the classes that `iter_classes` lists are each listed once, are
/// representatives, and include every representative.
pub proof fn lemma_classes_listed<A>(g: &EGraph<A>)
    requires
        g.wf(),
    ensures
        roots_upto(g.uf_view(), g.nodes_view().len() as int).no_duplicates(),
        forall|j: int|
            0 <= j < roots_upto(g.uf_view(), g.nodes_view().len() as int).len() ==> #[trigger] roots_upto(
                g.uf_view(),
                g.nodes_view().len() as int,
            )[j] < g.nodes_view().len() && g.uf_view()[roots_upto(g.uf_view(), g.nodes_view().len() as int)[j] as int]
                == roots_upto(g.uf_view(), g.nodes_view().len() as int)[j],
        forall|c: ClassId|
            c < g.nodes_view().len() && g.uf_view()[c as int] == c ==> #[trigger] roots_upto(
                g.uf_view(),
                g.nodes_view().len() as int,
            ).contains(c),
{
    g.lemma_size_fits();
    let n = g.nodes_view().len() as int;
    lemma_roots_upto(g.uf_view(), n);
    lemma_roots_upto_distinct(g.uf_view(), n);
    assert forall|c: ClassId| c < n && g.uf_view()[c as int] == c implies #[trigger] roots_upto(g.uf_view(), n).contains(c) by {
        lemma_roots_upto_complete(g.uf_view(), n, c);
    }
}

/// The index of the first node among the first `k` whose canonical form is
/// that of `target`, if any.
pub open spec fn first_node_upto(views: Seq<NodeView>, uf: Seq<ClassId>, target: NodeView, k: int) -> Option<NodeId>
    decreases k,
{
    if k <= 0 {
        None
    } else {
        match first_node_upto(views, uf, target, k - 1) {
            Some(i) => Some(i),
            None => if canon_node(views[k - 1], uf) == canon_node(target, uf) {
                Some((k - 1) as NodeId)
            } else {
                None
            },
        }
    }
}

/// The ids of the first `k` nodes that are applications of symbol `id`.
pub open spec fn symbol_nodes_upto(views: Seq<NodeView>, id: SymbolId, k: int) -> Seq<NodeId>
    decreases k,
{
    if k <= 0 {
        Seq::empty()
    } else if views[k - 1] matches NodeView::Sym(s, _) && s == id {
        symbol_nodes_upto(views, id, k - 1).push((k - 1) as NodeId)
    } else {
        symbol_nodes_upto(views, id, k - 1)
    }
}

/// `true` when the class `c` holds a node that represents the term `t`: a
/// literal node equal to it, or an application of the same symbol whose
/// children's classes represent the children of `t`.
pub open spec fn represents(views: Seq<NodeView>, uf: Seq<ClassId>, t: Term, c: ClassId) -> bool
    decreases t,
{
    match t {
        Term::Lit(l) => exists|i: int| 0 <= i < views.len() && uf[i] == c && #[trigger] views[i] == NodeView::Lit(l),
        Term::Var(_) => false,
        Term::Sym(id, cs) => exists|i: int|
            0 <= i < views.len() && uf[i] == c && #[trigger] views[i] is Sym && views[i]->Sym_0 == id
                && views[i]->1.len() == cs.len() && forall|k: int|
                0 <= k < cs.len() ==> represents(views, uf, #[trigger] cs[k], uf[views[i]->1[k] as int]),
    }
}

/// `true` when node `i` itself is the root of `t`: the same literal, or the
/// same symbol with children whose classes represent the subterms.
pub open spec fn node_matches(views: Seq<NodeView>, uf: Seq<ClassId>, t: Term, i: int) -> bool {
    match t {
        Term::Lit(l) => views[i] == NodeView::Lit(l),
        Term::Var(_) => false,
        Term::Sym(id, cs) => views[i] is Sym && views[i]->Sym_0 == id && views[i]->1.len() == cs.len() && forall|k: int|
            0 <= k < cs.len() ==> represents(views, uf, #[trigger] cs[k], uf[views[i]->1[k] as int]),
    }
}

/// Lemma: in a congruence-closed e-graph a term is represented by at most one
/// class.
pub proof fn lemma_represents_unique<A>(g: &EGraph<A>, t: Term, c1: ClassId, c2: ClassId)
    requires
        g.congruence_closed(),
        represents(g.nodes_view(), g.uf_view(), t, c1),
        represents(g.nodes_view(), g.uf_view(), t, c2),
    ensures
        c1 == c2,
    decreases t,
{
    let views = g.nodes_view();
    let uf = g.uf_view();
    match t {
        Term::Lit(l) => {
            let i1 = choose|i: int| 0 <= i < views.len() && uf[i] == c1 && #[trigger] views[i] == NodeView::Lit(l);
            let i2 = choose|i: int| 0 <= i < views.len() && uf[i] == c2 && #[trigger] views[i] == NodeView::Lit(l);
            assert(g.congruent(i1, i2));
        },
        Term::Var(_) => {},
        Term::Sym(id, cs) => {
            let i1 = choose|i: int|
                0 <= i < views.len() && uf[i] == c1 && #[trigger] views[i] is Sym && views[i]->Sym_0 == id
                    && views[i]->1.len() == cs.len() && forall|k: int|
                    0 <= k < cs.len() ==> represents(views, uf, #[trigger] cs[k], uf[views[i]->1[k] as int]);
            let i2 = choose|i: int|
                0 <= i < views.len() && uf[i] == c2 && #[trigger] views[i] is Sym && views[i]->Sym_0 == id
                    && views[i]->1.len() == cs.len() && forall|k: int|
                    0 <= k < cs.len() ==> represents(views, uf, #[trigger] cs[k], uf[views[i]->1[k] as int]);
            let a = views[i1]->1;
            let b = views[i2]->1;
            assert forall|k: int| 0 <= k < cs.len() implies uf[a[k] as int] == uf[b[k] as int] by {
                assert(decreases_to!(t => cs[k]));
                lemma_represents_unique(g, cs[k], uf[a[k] as int], uf[b[k] as int]);
            }
            assert(a.map_values(|c: ClassId| uf[c as int]) =~= b.map_values(|c: ClassId| uf[c as int]));
            assert(g.congruent(i1, i2));
        },
    }
}

/// Lemma: in an e-graph whose classes are single nodes, a class represents at
/// most one term.
pub proof fn lemma_represents_injective<A>(g: &EGraph<A>, t1: Term, t2: Term, c: ClassId)
    requires
        forall|x: int| 0 <= x < g.nodes_view().len() ==> #[trigger] g.uf_view()[x] == x,
        represents(g.nodes_view(), g.uf_view(), t1, c),
        represents(g.nodes_view(), g.uf_view(), t2, c),
    ensures
        t1 == t2,
    decreases t1,
{
    let views = g.nodes_view();
    let uf = g.uf_view();
    match t1 {
        Term::Lit(l) => {
            let i = choose|i: int| 0 <= i < views.len() && uf[i] == c && #[trigger] views[i] == NodeView::Lit(l);
            assert(uf[i] == i);
        },
        Term::Var(_) => {},
        Term::Sym(id, cs) => {
            let i = choose|i: int|
                0 <= i < views.len() && uf[i] == c && #[trigger] views[i] is Sym && views[i]->Sym_0 == id
                    && views[i]->1.len() == cs.len() && forall|k: int|
                    0 <= k < cs.len() ==> represents(views, uf, #[trigger] cs[k], uf[views[i]->1[k] as int]);
            assert(uf[i] == i);
            match t2 {
                Term::Sym(id2, cs2) => {
                    let j = choose|j: int|
                        0 <= j < views.len() && uf[j] == c && #[trigger] views[j] is Sym && views[j]->Sym_0 == id2
                            && views[j]->1.len() == cs2.len() && forall|k: int|
                            0 <= k < cs2.len() ==> represents(views, uf, #[trigger] cs2[k], uf[views[j]->1[k] as int]);
                    assert(uf[j] == j);
                    assert(i == j);
                    assert forall|k: int| 0 <= k < cs.len() implies cs[k] == cs2[k] by {
                        assert(decreases_to!(t1 => cs[k]));
                        lemma_represents_injective(g, cs[k], cs2[k], uf[views[i]->1[k] as int]);
                    }
                    assert(cs =~= cs2);
                },
                Term::Lit(l2) => {
                    let j = choose|j: int| 0 <= j < views.len() && uf[j] == c && #[trigger] views[j] == NodeView::Lit(l2);
                    assert(uf[j] == j);
                },
                Term::Var(_) => {},
            }
        },
    }
}

/// `true` when the class `c` holds a node that represents the mixed expression
/// `m`, whose class leaves stand for the classes they name.
pub open spec fn mixed_represents(views: Seq<NodeView>, uf: Seq<ClassId>, m: MixedExpression, c: ClassId) -> bool
    decreases m,
{
    match m {
        MixedExpression::Literal(l) => exists|i: int| 0 <= i < views.len() && uf[i] == c && #[trigger] views[i] == NodeView::Lit(l),
        MixedExpression::Class(k) => k < uf.len() && uf[k as int] == c,
        MixedExpression::Symbol(s) => exists|i: int|
            0 <= i < views.len() && uf[i] == c && #[trigger] views[i] is Sym && views[i]->Sym_0 == s.id
                && views[i]->1.len() == s.children@.len() && forall|k: int|
                0 <= k < s.children@.len() ==> mixed_represents(views, uf, #[trigger] s.children@[k], uf[views[i]->1[k] as int]),
    }
}

/// Lemma: what `lemma_represents_grow` states, for mixed expressions.
pub proof fn lemma_mixed_represents_grow(
    views: Seq<NodeView>,
    uf: Seq<ClassId>,
    views2: Seq<NodeView>,
    uf2: Seq<ClassId>,
    m: MixedExpression,
    c: ClassId,
)
    requires
        mixed_represents(views, uf, m, c),
        uf.len() == views.len(),
        views.len() <= views2.len(),
        uf2.len() == views2.len(),
        forall|i: int| 0 <= i < views.len() ==> #[trigger] children_below(views[i], views.len() as nat),
        c < views.len(),
        forall|i: int, j: int| 0 <= i < views.len() && 0 <= j < views.len() && uf[i] == uf[j] ==> uf2[i] == uf2[j],
        forall|i: int| 0 <= i < views.len() ==> #[trigger] uf[i] < views.len() && uf[uf[i] as int] == uf[i],
        forall|i: int|
            0 <= i < views.len() ==> canon_node(#[trigger] views2[i], uf2) == canon_node(views[i], uf2),
    ensures
        mixed_represents(views2, uf2, m, uf2[c as int]),
    decreases m,
{
    match m {
        MixedExpression::Literal(l) => {
            let i = choose|i: int| 0 <= i < views.len() && uf[i] == c && #[trigger] views[i] == NodeView::Lit(l);
            assert(canon_node(views2[i], uf2) == canon_node(views[i], uf2));
            assert(uf[uf[i] as int] == uf[c as int]);
            assert(uf2[i] == uf2[c as int]);
            assert(views2[i] == NodeView::Lit(l));
        },
        MixedExpression::Class(k) => {
            assert(uf[uf[k as int] as int] == uf[k as int]);
        },
        MixedExpression::Symbol(s) => {
            let cs = s.children@;
            let i = choose|i: int|
                0 <= i < views.len() && uf[i] == c && #[trigger] views[i] is Sym && views[i]->Sym_0 == s.id
                    && views[i]->1.len() == cs.len() && forall|k: int|
                    0 <= k < cs.len() ==> mixed_represents(views, uf, #[trigger] cs[k], uf[views[i]->1[k] as int]);
            let ks = views[i]->1;
            assert(canon_node(views2[i], uf2) == canon_node(views[i], uf2));
            assert(uf[uf[i] as int] == uf[c as int]);
            assert(uf2[i] == uf2[c as int]);
            assert(views2[i] is Sym);
            let ks2 = views2[i]->1;
            assert(ks.map_values(|x: ClassId| uf2[x as int]).len() == ks2.map_values(|x: ClassId| uf2[x as int]).len());
            assert(ks2.len() == ks.len());
            assert forall|k: int| 0 <= k < cs.len() implies mixed_represents(views2, uf2, #[trigger] cs[k], uf2[ks2[k] as int]) by {
                assert(children_below(views[i], views.len() as nat));
                assert(node_children(views[i])[k] == ks[k]);
                assert(ks[k] < views.len());
                assert(mixed_represents(views, uf, cs[k], uf[ks[k] as int]));
                lemma_mixed_represents_grow(views, uf, views2, uf2, cs[k], uf[ks[k] as int]);
                assert(ks.map_values(|x: ClassId| uf2[x as int])[k] == uf2[ks[k] as int]);
                assert(ks2.map_values(|x: ClassId| uf2[x as int])[k] == uf2[ks2[k] as int]);
                assert(uf[uf[ks[k] as int] as int] == uf[ks[k] as int]);
            }
        },
    }
}

/// Lemma: a term represented in an e-graph stays represented when nodes are
/// added and classes are merged, as long as old nodes keep their children's
/// classes and old classes stay together.
pub proof fn lemma_represents_grow(
    views: Seq<NodeView>,
    uf: Seq<ClassId>,
    views2: Seq<NodeView>,
    uf2: Seq<ClassId>,
    t: Term,
    c: ClassId,
)
    requires
        represents(views, uf, t, c),
        uf.len() == views.len(),
        views.len() <= views2.len(),
        uf2.len() == views2.len(),
        forall|i: int| 0 <= i < views.len() ==> #[trigger] children_below(views[i], views.len() as nat),
        c < views.len(),
        forall|i: int, j: int| 0 <= i < views.len() && 0 <= j < views.len() && uf[i] == uf[j] ==> uf2[i] == uf2[j],
        forall|i: int| 0 <= i < views.len() ==> #[trigger] uf[i] < views.len() && uf[uf[i] as int] == uf[i],
        forall|i: int|
            0 <= i < views.len() ==> canon_node(#[trigger] views2[i], uf2) == canon_node(views[i], uf2),
    ensures
        represents(views2, uf2, t, uf2[c as int]),
    decreases t,
{
    match t {
        Term::Lit(l) => {
            let i = choose|i: int| 0 <= i < views.len() && uf[i] == c && #[trigger] views[i] == NodeView::Lit(l);
            assert(canon_node(views2[i], uf2) == canon_node(views[i], uf2));
            assert(uf[uf[i] as int] == uf[c as int]);
            assert(uf2[i] == uf2[c as int]);
            assert(views2[i] == NodeView::Lit(l));
        },
        Term::Var(_) => {},
        Term::Sym(id, cs) => {
            let i = choose|i: int|
                0 <= i < views.len() && uf[i] == c && #[trigger] views[i] is Sym && views[i]->Sym_0 == id
                    && views[i]->1.len() == cs.len() && forall|k: int|
                    0 <= k < cs.len() ==> represents(views, uf, #[trigger] cs[k], uf[views[i]->1[k] as int]);
            let ks = views[i]->1;
            assert(canon_node(views2[i], uf2) == canon_node(views[i], uf2));
            assert(uf[uf[i] as int] == uf[c as int]);
            assert(uf2[i] == uf2[c as int]);
            assert(views2[i] is Sym);
            let ks2 = views2[i]->1;
            assert(ks.map_values(|x: ClassId| uf2[x as int]).len() == ks2.map_values(|x: ClassId| uf2[x as int]).len());
            assert(ks2.len() == ks.len());
            assert(ks.map_values(|x: ClassId| uf2[x as int]) == ks2.map_values(|x: ClassId| uf2[x as int]));
            assert forall|k: int| 0 <= k < cs.len() implies represents(views2, uf2, #[trigger] cs[k], uf2[ks2[k] as int]) by {
                assert(children_below(views[i], views.len() as nat));
                assert(node_children(views[i])[k] == ks[k]);
                assert(ks[k] < views.len());
                assert(represents(views, uf, cs[k], uf[ks[k] as int]));
                lemma_represents_grow(views, uf, views2, uf2, cs[k], uf[ks[k] as int]);
                assert(ks.map_values(|x: ClassId| uf2[x as int])[k] == uf2[ks[k] as int]);
                assert(ks2.map_values(|x: ClassId| uf2[x as int])[k] == uf2[ks2[k] as int]);
                assert(uf[uf[ks[k] as int] as int] == uf[ks[k] as int]);
            }
        },
    }
}

impl<A> EGraph<A> {
    /// The nodes, by id.
    pub closed spec fn nodes_view(&self) -> Seq<NodeView> {
        Seq::new(self.nodes@.len(), |i: int| self.nodes@[i]@)
    }

    /// The representative of each class id.
    pub closed spec fn uf_view(&self) -> Seq<ClassId> {
        self.union_find@
    }

    /// The class stored under id `c` (present exactly for representatives).
    pub closed spec fn class_at(&self, c: int) -> Option<Class<A>> {
        self.classes@[c]
    }

    /// `true` when node `i` is listed among the parents of the class of `x`.
    pub closed spec fn parent_listed(&self, i: int, x: ClassId) -> bool {
        &&& self.classes@[self.uf_view()[x as int] as int] is Some
        &&& self.classes@[self.uf_view()[x as int] as int]->0.parents_view().contains(i as NodeId)
    }

    /// Every node is listed among the parents of the class of each of its children.
    pub closed spec fn parents_complete(&self) -> bool {
        forall|i: int, k: int|
            0 <= i < self.nodes_view().len() && 0 <= k < node_children(self.nodes_view()[i]).len()
                ==> #[trigger] self.parent_listed(i, node_children(self.nodes_view()[i])[k])
    }

    /// Consistency of the internal sizes and of the union-find structure.
    pub closed spec fn core_wf(&self) -> bool {
        &&& self.union_find.wf()
        &&& self.union_find@.len() == self.nodes@.len()
        &&& self.classes@.len() == self.nodes@.len()
    }

    /// The class stored under representative `c` is consistent: its nodes are
    /// distinct nodes of `c`, and its parents are distinct existing nodes.
    pub open spec fn class_ok(&self, c: int) -> bool {
        let cl = self.class_at(c)->0;
        let n = self.nodes_view().len();
        &&& cl.nodes_view().no_duplicates()
        &&& cl.parents_view().no_duplicates()
        &&& forall|k: int|
            0 <= k < cl.nodes_view().len() ==> #[trigger] cl.nodes_view()[k] < n && self.uf_view()[cl.nodes_view()[k] as int] == c
        &&& forall|k: int| 0 <= k < cl.parents_view().len() ==> #[trigger] cl.parents_view()[k] < n
    }

    /// Well-formedness of the e-graph, the parent lists aside.
    pub open spec fn wf_base(&self) -> bool {
        let n = self.nodes_view().len();
        let uf = self.uf_view();
        &&& self.core_wf()
        &&& uf.len() == n
        &&& forall|c: int| 0 <= c < n ==> #[trigger] uf[c] < n && uf[uf[c] as int] == uf[c]
        &&& forall|c: int| 0 <= c < n ==> (#[trigger] self.class_at(c) is Some <==> uf[c] == c)
        &&& forall|i: int| 0 <= i < n ==> children_below(#[trigger] self.nodes_view()[i], n)
        &&& forall|c: int| 0 <= c < n && #[trigger] self.class_at(c) is Some ==> self.class_ok(c)
    }

    /// Well-formedness of the e-graph.
    pub open spec fn wf(&self) -> bool {
        &&& self.wf_base()
        &&& self.parents_complete()
        &&& self.lists_cover()
    }

    /// `true` when the class of node `x` lists a node with the canonical form
    /// of `x`.
    pub open spec fn listed_alike(&self, x: int) -> bool {
        exists|k: int|
            0 <= k < self.class_at(self.uf_view()[x] as int)->0.nodes_view().len() && canon_node(
                self.nodes_view()[#[trigger] self.class_at(self.uf_view()[x] as int)->0.nodes_view()[k] as int],
                self.uf_view(),
            ) == canon_node(self.nodes_view()[x], self.uf_view())
    }

    /// `true` when every node has a node of its canonical form listed in its
    /// class: removing duplicates from a class's list never loses a form.
    pub open spec fn lists_cover(&self) -> bool {
        forall|x: int| 0 <= x < self.nodes_view().len() ==> #[trigger] self.listed_alike(x)
    }

    /// This e-graph holds the nodes of `before` unchanged under the same
    /// representatives, and possibly more.
    pub open spec fn extends(&self, before: &Self) -> bool {
        &&& before.nodes_view().len() <= self.nodes_view().len()
        &&& forall|i: int| 0 <= i < before.nodes_view().len() ==> #[trigger] self.nodes_view()[i] == before.nodes_view()[i]
        &&& forall|i: int| 0 <= i < before.nodes_view().len() ==> #[trigger] self.uf_view()[i] == before.uf_view()[i]
    }

    /// This e-graph holds the nodes of `before` (and possibly more), each with
    /// the same canonical form, in classes that are unions of the classes of
    /// `before`.
    pub open spec fn evolved_from(&self, before: &Self) -> bool {
        let n = before.nodes_view().len();
        &&& n <= self.nodes_view().len()
        &&& forall|i: int, j: int|
            0 <= i < n && 0 <= j < n && #[trigger] before.uf_view()[i] == #[trigger] before.uf_view()[j] ==> self.uf_view()[i]
                == self.uf_view()[j]
        &&& forall|i: int|
            0 <= i < n ==> canon_node(#[trigger] self.nodes_view()[i], self.uf_view()) == canon_node(
                before.nodes_view()[i],
                self.uf_view(),
            )
    }

    /// `true` when every node from id `k` on is alone in its class and has
    /// only children with smaller ids.
    pub open spec fn fresh_after(&self, k: nat) -> bool {
        forall|x: int|
            k <= x < self.nodes_view().len() ==> #[trigger] self.uf_view()[x] == x && children_below(
                self.nodes_view()[x],
                x as nat,
            )
    }

    /// Lemma: the nodes from id `k` on are fresh when each of them is.
    proof fn lemma_fresh_intro(&self, k: nat)
        requires
            forall|x: int|
                k <= x < self.nodes_view().len() ==> #[trigger] self.uf_view()[x] == x && children_below(
                    self.nodes_view()[x],
                    x as nat,
                ),
        ensures
            self.fresh_after(k),
    {
    }

    /// `true` when this e-graph holds more nodes than `before`, or holds in
    /// one class two nodes of `before` that `before` held in different classes.
    pub open spec fn changed_from(&self, before: &Self) -> bool {
        ||| self.nodes_view().len() > before.nodes_view().len()
        ||| exists|i: int, j: int|
            0 <= i < before.nodes_view().len() && 0 <= j < before.nodes_view().len() && before.uf_view()[i]
                != before.uf_view()[j] && #[trigger] self.uf_view()[i] == #[trigger] self.uf_view()[j]
    }

    /// `true` when nodes `i` and `j` have the same canonical form.
    pub open spec fn congruent(&self, i: int, j: int) -> bool {
        canon_node(self.nodes_view()[i], self.uf_view()) == canon_node(self.nodes_view()[j], self.uf_view())
    }

    /// `true` when any two nodes with the same canonical form lie in one class.
    pub open spec fn congruence_closed(&self) -> bool {
        forall|i: int, j: int|
            0 <= i < self.nodes_view().len() && 0 <= j < self.nodes_view().len() && #[trigger] self.congruent(i, j)
                ==> self.uf_view()[i] == self.uf_view()[j]
    }

    /// `true` when any two of the nodes of `before` that have the same
    /// canonical form here but lie in different classes already had the same
    /// canonical form in `before`.
    pub open spec fn congruences_from(&self, before: &Self) -> bool {
        forall|i: int, j: int|
            0 <= i < before.nodes_view().len() && 0 <= j < before.nodes_view().len() && #[trigger] self.congruent(i, j)
                && self.uf_view()[i] != self.uf_view()[j] ==> before.congruent(i, j)
    }

    /// This e-graph has the nodes of `before`, in classes that are unions of the
    /// classes of `before`, and each node keeps its canonical form.
    pub open spec fn merged_from(&self, before: &Self) -> bool {
        let n = before.nodes_view().len();
        &&& self.nodes_view().len() == n
        &&& forall|i: int, j: int|
            0 <= i < n && 0 <= j < n && #[trigger] before.uf_view()[i] == #[trigger] before.uf_view()[j] ==> self.uf_view()[i]
                == self.uf_view()[j]
        &&& forall|i: int|
            0 <= i < n ==> canon_node(#[trigger] self.nodes_view()[i], self.uf_view()) == canon_node(
                before.nodes_view()[i],
                self.uf_view(),
            )
    }

    /// The number of nodes held by the classes among the first `k` ids.
    pub open spec fn held_count(&self, k: int) -> nat
        decreases k,
    {
        if k <= 0 {
            0
        } else {
            self.held_count(k - 1) + match self.class_at(k - 1) {
                Some(cl) => cl.nodes_view().len(),
                None => 0,
            }
        }
    }

    /// `true` when some class represents the term `t`.
    pub open spec fn holds_term(&self, t: Term) -> bool {
        exists|c: ClassId| #[trigger] represents(self.nodes_view(), self.uf_view(), t, c)
    }

    /// The first node whose canonical form is that of `target`, if any.
    pub open spec fn first_node(&self, target: NodeView) -> Option<NodeId> {
        first_node_upto(self.nodes_view(), self.uf_view(), target, self.nodes_view().len() as int)
    }

    /// `true` when the class of each node from `m` on stands for a subterm of `e`.
    pub open spec fn added_for(&self, m: int, e: Term) -> bool {
        forall|x: int|
            m <= x < self.nodes_view().len() ==> #[trigger] stands_for_subterm(self.nodes_view(), self.uf_view(), x, e)
    }

    /// `true` when no node from `m` on has the canonical form of a node before
    /// it: each was added only when no node of that form was present.
    pub open spec fn added_distinct(&self, m: int) -> bool {
        forall|x: int, i: int|
            m <= x < self.nodes_view().len() && 0 <= i < x ==> #[trigger] canon_node(self.nodes_view()[i], self.uf_view())
                != #[trigger] canon_node(self.nodes_view()[x], self.uf_view())
    }

    /// The number of classes.
    pub open spec fn class_count_spec(&self) -> nat {
        roots_count(self.uf_view(), self.nodes_view().len() as int)
    }

    /// Twice the number of nodes less the number of classes: every change to
    /// the e-graph, a node added or two classes merged, makes it grow.
    pub open spec fn change_measure(&self) -> int {
        2 * self.nodes_view().len() - self.class_count_spec()
    }

}

/// Lemma: a term represented in an e-graph stays represented in any e-graph
/// that extends it.
pub proof fn lemma_represents_extend<A>(before: &EGraph<A>, after: &EGraph<A>, t: Term, c: ClassId)
    requires
        before.wf(),
        after.wf(),
        after.extends(before),
        c < before.nodes_view().len(),
        represents(before.nodes_view(), before.uf_view(), t, c),
    ensures
        represents(after.nodes_view(), after.uf_view(), t, c),
{
    let n = before.nodes_view().len();
    assert forall|i: int| 0 <= i < n implies #[trigger] before.uf_view()[i] < n
        && before.uf_view()[before.uf_view()[i] as int] == before.uf_view()[i] by {}
    assert forall|i: int| 0 <= i < n implies canon_node(#[trigger] after.nodes_view()[i], after.uf_view())
        == canon_node(before.nodes_view()[i], after.uf_view()) by {}
    assert forall|i: int| 0 <= i < n implies #[trigger] children_below(before.nodes_view()[i], n) by {}
    lemma_represents_grow(before.nodes_view(), before.uf_view(), after.nodes_view(), after.uf_view(), t, c);
}

/// Lemma: a mixed expression represented in an e-graph stays represented, in
/// the class of the same id, in any e-graph that extends it or is merged from it.
pub proof fn lemma_mixed_represents_later<A>(before: &EGraph<A>, after: &EGraph<A>, m: MixedExpression, c: ClassId)
    requires
        before.wf(),
        after.wf(),
        after.extends(before) || after.merged_from(before),
        c < before.nodes_view().len(),
        mixed_represents(before.nodes_view(), before.uf_view(), m, c),
    ensures
        mixed_represents(after.nodes_view(), after.uf_view(), m, after.uf_view()[c as int]),
{
    let n = before.nodes_view().len();
    assert forall|i: int| 0 <= i < n implies #[trigger] before.uf_view()[i] < n
        && before.uf_view()[before.uf_view()[i] as int] == before.uf_view()[i] by {}
    assert forall|i: int| 0 <= i < n implies #[trigger] children_below(before.nodes_view()[i], n) by {}
    if after.extends(before) {
        assert forall|i: int| 0 <= i < n implies canon_node(#[trigger] after.nodes_view()[i], after.uf_view())
            == canon_node(before.nodes_view()[i], after.uf_view()) by {}
    }
    lemma_mixed_represents_grow(before.nodes_view(), before.uf_view(), after.nodes_view(), after.uf_view(), m, c);
}

/// Lemma: class leaves below `n1` are below any larger `n2`.
pub proof fn lemma_mixed_classes_mono(m: MixedExpression, n1: nat, n2: nat)
    requires
        mixed_classes_below(m, n1),
        n1 <= n2,
    ensures
        mixed_classes_below(m, n2),
    decreases m,
{
    match m {
        MixedExpression::Symbol(s) => {
            assert forall|i: int| 0 <= i < s.children@.len() implies mixed_classes_below(#[trigger] s.children@[i], n2) by {
                lemma_mixed_classes_mono(s.children@[i], n1, n2);
            }
        },
        _ => {},
    }
}

/// Lemma: a change stays a change as the e-graph evolves further.
pub proof fn lemma_changed_persists<A>(a: &EGraph<A>, b: &EGraph<A>, c: &EGraph<A>)
    requires
        b.evolved_from(a),
        b.changed_from(a),
        c.evolved_from(b),
    ensures
        c.changed_from(a),
{
    if b.nodes_view().len() <= a.nodes_view().len() {
        let (i, j) = choose|i: int, j: int|
            0 <= i < a.nodes_view().len() && 0 <= j < a.nodes_view().len() && a.uf_view()[i] != a.uf_view()[j]
                && #[trigger] b.uf_view()[i] == #[trigger] b.uf_view()[j];
        assert(c.uf_view()[i] == c.uf_view()[j]);
    }
}

/// Lemma: growing and merging are evolutions, and evolutions compose.
pub proof fn lemma_evolved<A>(a: &EGraph<A>, b: &EGraph<A>, c: &EGraph<A>)
    requires
        a.wf(),
        b.wf(),
        c.wf(),
        b.evolved_from(a) || b.extends(a) || b.merged_from(a),
        c.evolved_from(b) || c.extends(b) || c.merged_from(b),
    ensures
        b.evolved_from(a),
        c.evolved_from(b),
        c.evolved_from(a),
{
    let n = a.nodes_view().len();
    let m = b.nodes_view().len();
    assert(b.evolved_from(a)) by {
        if b.extends(a) {
            assert forall|i: int, j: int|
                0 <= i < n && 0 <= j < n && #[trigger] a.uf_view()[i] == #[trigger] a.uf_view()[j] implies b.uf_view()[i]
                    == b.uf_view()[j] by {
                assert(b.uf_view()[i] == a.uf_view()[i]);
                assert(b.uf_view()[j] == a.uf_view()[j]);
            }
        }
    }
    assert(c.evolved_from(b)) by {
        if c.extends(b) {
            assert forall|i: int, j: int|
                0 <= i < m && 0 <= j < m && #[trigger] b.uf_view()[i] == #[trigger] b.uf_view()[j] implies c.uf_view()[i]
                    == c.uf_view()[j] by {
                assert(c.uf_view()[i] == b.uf_view()[i]);
                assert(c.uf_view()[j] == b.uf_view()[j]);
            }
        }
    }
    assert forall|i: int, j: int|
        0 <= i < n && 0 <= j < n && #[trigger] a.uf_view()[i] == #[trigger] a.uf_view()[j] implies c.uf_view()[i]
            == c.uf_view()[j] by {
        assert(b.uf_view()[i] == b.uf_view()[j]);
    }
    assert forall|i: int| 0 <= i < n implies canon_node(#[trigger] c.nodes_view()[i], c.uf_view()) == canon_node(
        a.nodes_view()[i],
        c.uf_view(),
    ) by {
        assert(canon_node(b.nodes_view()[i], b.uf_view()) == canon_node(a.nodes_view()[i], b.uf_view()));
        assert(children_below(b.nodes_view()[i], m));
        assert(children_below(a.nodes_view()[i], n));
        lemma_children_below_mono(a.nodes_view()[i], n, m);
        assert forall|x: int, y: int|
            0 <= x < m && 0 <= y < m && #[trigger] b.uf_view()[x] == #[trigger] b.uf_view()[y] implies c.uf_view()[x]
                == c.uf_view()[y] by {}
        lemma_canon_coarser_prefix(b.nodes_view()[i], a.nodes_view()[i], b.uf_view(), c.uf_view());
    }
}

/// Lemma: children below `n1` are below any larger `n2`.
pub proof fn lemma_children_below_mono(v: NodeView, n1: nat, n2: nat)
    requires
        children_below(v, n1),
        n1 <= n2,
    ensures
        children_below(v, n2),
{
    assert forall|i: int| 0 <= i < node_children(v).len() implies #[trigger] node_children(v)[i] < n2 by {
        assert(node_children(v)[i] < n1);
    }
}

/// `true` when nodes `i` and `j` of `views` are alike once their children are
/// read as their labels in `p`: the same literal, or the same symbol with
/// children of equal labels.
pub open spec fn alike_under(views: Seq<NodeView>, p: Seq<int>, i: int, j: int) -> bool {
    match (views[i], views[j]) {
        (NodeView::Lit(a), NodeView::Lit(b)) => a == b,
        (NodeView::Sym(f, cs), NodeView::Sym(g, ds)) => f == g && cs.len() == ds.len() && forall|k: int|
            0 <= k < cs.len() ==> #[trigger] p[cs[k] as int] == p[ds[k] as int],
        _ => false,
    }
}

/// `true` when the labelling `p` of node ids is a congruence on `views`: nodes
/// alike under `p` have equal labels.
pub open spec fn labels_closed(views: Seq<NodeView>, p: Seq<int>) -> bool {
    forall|i: int, j: int| 0 <= i < views.len() && 0 <= j < views.len() && #[trigger] alike_under(views, p, i, j) ==> p[i] == p[j]
}

/// `true` when the labelling `p` gives equal labels to ids with the same
/// representative in `uf`.
pub open spec fn labels_refine(uf: Seq<ClassId>, p: Seq<int>) -> bool {
    forall|i: int, j: int| 0 <= i < uf.len() && 0 <= j < uf.len() && #[trigger] uf[i] == #[trigger] uf[j] ==> p[i] == p[j]
}

/// Lemma: a congruence on the nodes of `a` that the classes of `b` refine is
/// a congruence on the nodes of `b`, when `b` has the nodes of `a` up to
/// canonical form.
pub proof fn lemma_labels_closed_merged<A>(a: &EGraph<A>, b: &EGraph<A>, p: Seq<int>)
    requires
        a.wf(),
        b.wf(),
        b.merged_from(a),
        labels_closed(a.nodes_view(), p),
        labels_refine(b.uf_view(), p),
    ensures
        labels_closed(b.nodes_view(), p),
{
    let n = a.nodes_view().len();
    let av = a.nodes_view();
    let bv = b.nodes_view();
    let buf = b.uf_view();
    assert forall|i: int, j: int| 0 <= i < n && 0 <= j < n && #[trigger] alike_under(bv, p, i, j) implies p[i] == p[j] by {
        assert(canon_node(bv[i], buf) == canon_node(av[i], buf));
        assert(canon_node(bv[j], buf) == canon_node(av[j], buf));
        assert(children_below(av[i], n) && children_below(av[j], n));
        assert(children_below(bv[i], n) && children_below(bv[j], n));
        match (av[i], av[j]) {
            (NodeView::Sym(f, cs), NodeView::Sym(g, ds)) => {
                let bcs = bv[i]->1;
                let bds = bv[j]->1;
                assert(bcs.map_values(|c: ClassId| buf[c as int]).len() == cs.map_values(|c: ClassId| buf[c as int]).len());
                assert(bds.map_values(|c: ClassId| buf[c as int]).len() == ds.map_values(|c: ClassId| buf[c as int]).len());
                assert forall|k: int| 0 <= k < cs.len() implies #[trigger] p[cs[k] as int] == p[ds[k] as int] by {
                    assert(bcs.map_values(|c: ClassId| buf[c as int])[k] == cs.map_values(|c: ClassId| buf[c as int])[k]);
                    assert(bds.map_values(|c: ClassId| buf[c as int])[k] == ds.map_values(|c: ClassId| buf[c as int])[k]);
                    assert(node_children(av[i])[k] == cs[k] && node_children(bv[i])[k] == bcs[k]);
                    assert(node_children(av[j])[k] == ds[k] && node_children(bv[j])[k] == bds[k]);
                    assert(p[bcs[k] as int] == p[bds[k] as int]);
                }
                assert(alike_under(av, p, i, j));
            },
            _ => {
                assert(alike_under(av, p, i, j));
            },
        }
    }
}

/// Lemma: a node is alike to any node equal to it.
pub proof fn lemma_alike_same(views: Seq<NodeView>, p: Seq<int>, i: int, j: int)
    requires
        views[i] == views[j],
    ensures
        alike_under(views, p, i, j),
{
}

/// `true` when the pair `e` is the pair of the classes (in `uf`) of two equal
/// nodes of `views`.
pub open spec fn pair_of_equal_nodes(views: Seq<NodeView>, uf: Seq<ClassId>, e: (ClassId, ClassId)) -> bool {
    exists|x: int, y: int|
        0 <= x < views.len() && 0 <= y < views.len() && #[trigger] uf[x] == e.0 && #[trigger] uf[y] == e.1 && views[x] == views[y]
}

/// `true` when class `c` stands for a subterm of `e`.
pub open spec fn stands_for_subterm(views: Seq<NodeView>, uf: Seq<ClassId>, c: int, e: Term) -> bool {
    exists|t: Term| #[trigger] subterm_of(t, e) && represents(views, uf, t, c as ClassId)
}

/// `true` when class `c` stands for a subterm of one of the first `n` terms of `cs`.
pub open spec fn stands_for_subterm_any(views: Seq<NodeView>, uf: Seq<ClassId>, c: int, cs: Seq<Term>, n: int) -> bool {
    exists|t: Term| #[trigger] subterm_of_any(t, cs, n) && represents(views, uf, t, c as ClassId)
}

/// Lemma: the cover of the class lists carries over to an e-graph with the
/// same classes, the same lists and the same canonical forms.
pub proof fn lemma_cover_transfer<A>(a: &EGraph<A>, b: &EGraph<A>)
    requires
        a.wf_base(),
        a.lists_cover(),
        b.nodes_view().len() == a.nodes_view().len(),
        b.uf_view() == a.uf_view(),
        forall|c: int|
            0 <= c < a.nodes_view().len() && a.uf_view()[c] == c ==> #[trigger] b.class_at(c)->0.nodes_view() == a.class_at(
                c,
            )->0.nodes_view(),
        forall|i: int|
            0 <= i < a.nodes_view().len() ==> #[trigger] canon_node(b.nodes_view()[i], b.uf_view()) == canon_node(
                a.nodes_view()[i],
                a.uf_view(),
            ),
    ensures
        b.lists_cover(),
{
    let n = a.nodes_view().len();
    let uf = a.uf_view();
    assert forall|x: int| 0 <= x < n implies #[trigger] b.listed_alike(x) by {
        assert(a.listed_alike(x));
        let c = uf[x];
        assert(uf[c as int] == c);
        let ids = a.class_at(c as int)->0.nodes_view();
        assert(b.class_at(c as int)->0.nodes_view() == ids);
        let k = choose|k: int|
            0 <= k < ids.len() && canon_node(a.nodes_view()[#[trigger] ids[k] as int], uf) == canon_node(a.nodes_view()[x], uf);
        assert(a.class_ok(c as int));
        assert(ids[k] < n);
        assert(canon_node(b.nodes_view()[ids[k] as int], uf) == canon_node(a.nodes_view()[ids[k] as int], uf));
        assert(canon_node(b.nodes_view()[x], uf) == canon_node(a.nodes_view()[x], uf));
        assert(b.class_at(b.uf_view()[x] as int)->0.nodes_view()[k] == ids[k]);
    }
}

/// Lemma: nodes with one canonical form keep one canonical form when classes
/// only merge.
pub proof fn lemma_canon_coarsen(v: NodeView, w: NodeView, uf: Seq<ClassId>, uf2: Seq<ClassId>, n: nat)
    requires
        children_below(v, n),
        children_below(w, n),
        canon_node(v, uf) == canon_node(w, uf),
        forall|i: int, j: int| 0 <= i < n && 0 <= j < n && #[trigger] uf[i] == #[trigger] uf[j] ==> uf2[i] == uf2[j],
    ensures
        canon_node(v, uf2) == canon_node(w, uf2),
{
    match (v, w) {
        (NodeView::Sym(f, cs), NodeView::Sym(g, ds)) => {
            assert(cs.map_values(|c: ClassId| uf[c as int]).len() == ds.map_values(|c: ClassId| uf[c as int]).len());
            assert forall|k: int| 0 <= k < cs.len() implies #[trigger] uf2[cs[k] as int] == uf2[ds[k] as int] by {
                assert(cs.map_values(|c: ClassId| uf[c as int])[k] == ds.map_values(|c: ClassId| uf[c as int])[k]);
                assert(node_children(v)[k] == cs[k] && node_children(w)[k] == ds[k]);
            }
            assert(cs.map_values(|c: ClassId| uf2[c as int]) =~= ds.map_values(|c: ClassId| uf2[c as int]));
        },
        _ => {},
    }
}

/// Lemma: joining class `c1` into class `c2`, with the list of `c1` appended
/// to that of `c2`, keeps the class lists covering the nodes.
pub proof fn lemma_cover_union<A>(before: &EGraph<A>, after: &EGraph<A>, c1: ClassId, c2: ClassId)
    requires
        before.wf(),
        after.nodes_view() == before.nodes_view(),
        c1 < before.nodes_view().len(),
        c2 < before.nodes_view().len(),
        before.uf_view()[c1 as int] == c1,
        before.uf_view()[c2 as int] == c2,
        c1 != c2,
        after.uf_view().len() == before.nodes_view().len(),
        forall|k: int|
            0 <= k < before.nodes_view().len() ==> #[trigger] after.uf_view()[k] == (if before.uf_view()[k] == c1 {
                c2
            } else {
                before.uf_view()[k]
            }),
        after.class_at(c2 as int)->0.nodes_view() == before.class_at(c2 as int)->0.nodes_view() + before.class_at(
            c1 as int,
        )->0.nodes_view(),
        forall|c: int|
            0 <= c < before.nodes_view().len() && c != c1 && c != c2 ==> #[trigger] after.class_at(c) == before.class_at(c),
    ensures
        after.lists_cover(),
{
    let n = before.nodes_view().len();
    let uf = before.uf_view();
    let uf2 = after.uf_view();
    let views = before.nodes_view();
    assert forall|i: int, j: int| 0 <= i < n && 0 <= j < n && #[trigger] uf[i] == #[trigger] uf[j] implies uf2[i] == uf2[j] by {}
    assert forall|x: int| 0 <= x < n implies #[trigger] after.listed_alike(x) by {
        assert(before.listed_alike(x));
        let c = uf[x];
        let ids = before.class_at(c as int)->0.nodes_view();
        let k = choose|k: int|
            0 <= k < ids.len() && canon_node(views[#[trigger] ids[k] as int], uf) == canon_node(views[x], uf);
        assert(uf[c as int] == c);
        assert(before.class_ok(c as int));
        let y = ids[k];
        assert(y < n);
        assert(children_below(views[y as int], n));
        assert(children_below(views[x], n));
        lemma_canon_coarsen(views[y as int], views[x], uf, uf2, n);
        let l2 = before.class_at(c2 as int)->0.nodes_view();
        let l1 = before.class_at(c1 as int)->0.nodes_view();
        if c == c2 {
            assert(uf2[x] == c2);
            assert(after.class_at(c2 as int)->0.nodes_view()[k] == y);
        } else if c == c1 {
            assert(uf2[x] == c2);
            assert(after.class_at(c2 as int)->0.nodes_view()[l2.len() + k] == l1[k]);
        } else {
            assert(uf2[x] == c);
            assert(after.class_at(c as int) == before.class_at(c as int));
            assert(after.class_at(uf2[x] as int)->0.nodes_view()[k] == y);
        }
    }
}

/// `true` when a node of `ids` greater than `x` is equal to node `x`.
pub open spec fn has_larger_twin(views: Seq<NodeView>, ids: Seq<NodeId>, x: NodeId) -> bool {
    exists|j: int| 0 <= j < ids.len() && x < #[trigger] ids[j] && views[x as int] == views[ids[j] as int]
}

/// Lemma: among the first `m` nodes of `ids`, those equal to `v` (if any)
/// have a greatest id.
pub proof fn lemma_max_twin(views: Seq<NodeView>, ids: Seq<NodeId>, v: NodeView, m: int)
    requires
        0 <= m <= ids.len(),
        exists|i: int| 0 <= i < m && #[trigger] views[ids[i] as int] == v,
    ensures
        exists|j: int|
            0 <= j < m && views[ids[j] as int] == v && forall|i: int|
                0 <= i < m && #[trigger] views[ids[i] as int] == v ==> ids[i] <= ids[j],
    decreases m,
{
    if exists|i: int| 0 <= i < m - 1 && #[trigger] views[ids[i] as int] == v {
        lemma_max_twin(views, ids, v, m - 1);
        let j = choose|j: int|
            0 <= j < m - 1 && views[ids[j] as int] == v && forall|i: int|
                0 <= i < m - 1 && #[trigger] views[ids[i] as int] == v ==> ids[i] <= ids[j];
        if views[ids[m - 1] as int] == v && ids[m - 1] > ids[j] {
            assert forall|i: int| 0 <= i < m && #[trigger] views[ids[i] as int] == v implies ids[i] <= ids[m - 1] by {
                if i < m - 1 {
                    assert(ids[i] <= ids[j]);
                }
            }
        } else {
            assert forall|i: int| 0 <= i < m && #[trigger] views[ids[i] as int] == v implies ids[i] <= ids[j] by {}
        }
    } else {
        let i0 = choose|i: int| 0 <= i < m && #[trigger] views[ids[i] as int] == v;
        assert(i0 == m - 1);
        assert forall|i: int| 0 <= i < m && #[trigger] views[ids[i] as int] == v implies ids[i] <= ids[m - 1] by {
            if i < m - 1 {
                assert(views[ids[i] as int] == v);
            }
        }
    }
}

/// Lemma: removing from a class's list only nodes that have a greater equal
/// node in the list keeps the class lists covering the nodes.
pub proof fn lemma_cover_retain<A>(pre: &EGraph<A>, post: &EGraph<A>, class_id: ClassId, removed: Seq<NodeId>)
    requires
        pre.wf(),
        post.nodes_view() == pre.nodes_view(),
        post.uf_view() == pre.uf_view(),
        class_id < pre.nodes_view().len(),
        pre.uf_view()[class_id as int] == class_id,
        post.class_at(class_id as int)->0.nodes_view() == pre.class_at(class_id as int)->0.nodes_view().filter(
            class::not_in(removed),
        ),
        forall|c: int| 0 <= c < pre.nodes_view().len() && c != class_id ==> #[trigger] post.class_at(c) == pre.class_at(c),
        forall|t: int|
            0 <= t < removed.len() ==> #[trigger] has_larger_twin(
                pre.nodes_view(),
                pre.class_at(class_id as int)->0.nodes_view(),
                removed[t],
            ),
    ensures
        post.lists_cover(),
{
    let n = pre.nodes_view().len();
    let uf = pre.uf_view();
    let views = pre.nodes_view();
    let old_nodes = pre.class_at(class_id as int)->0.nodes_view();
    let new_nodes = post.class_at(class_id as int)->0.nodes_view();
    assert forall|x: int| 0 <= x < n implies #[trigger] post.listed_alike(x) by {
        assert(pre.listed_alike(x));
        let c = uf[x];
        let ids = pre.class_at(c as int)->0.nodes_view();
        let k = choose|k: int|
            0 <= k < ids.len() && canon_node(views[#[trigger] ids[k] as int], uf) == canon_node(views[x], uf);
        if c != class_id {
            assert(post.class_at(c as int) == pre.class_at(c as int));
            assert(post.class_at(post.uf_view()[x] as int)->0.nodes_view()[k] == ids[k]);
        } else {
            let v = views[ids[k] as int];
            assert(views[old_nodes[k] as int] == v);
            lemma_max_twin(views, old_nodes, v, old_nodes.len() as int);
            let j = choose|j: int|
                0 <= j < old_nodes.len() && views[old_nodes[j] as int] == v && forall|i: int|
                    0 <= i < old_nodes.len() && #[trigger] views[old_nodes[i] as int] == v ==> old_nodes[i] <= old_nodes[j];
            let w = old_nodes[j];
            if removed.contains(w) {
                let t = choose|t: int| 0 <= t < removed.len() && removed[t] == w;
                assert(has_larger_twin(views, old_nodes, removed[t]));
                let j2 = choose|j2: int| 0 <= j2 < old_nodes.len() && w < #[trigger] old_nodes[j2] && views[w as int] == views[old_nodes[j2] as int];
                assert(views[old_nodes[j2] as int] == v);
                assert(false);
            }
            old_nodes.lemma_filter_contains(class::not_in(removed), j);
            assert(new_nodes.contains(w));
            let k2 = choose|k2: int| 0 <= k2 < new_nodes.len() && new_nodes[k2] == w;
            assert(post.class_at(post.uf_view()[x] as int)->0.nodes_view()[k2] == w);
        }
    }
}

/// Lemma: the number of representatives below `k` depends only on the
/// entries below `k`.
pub proof fn lemma_roots_count_prefix(uf: Seq<ClassId>, uf2: Seq<ClassId>, k: int)
    requires
        0 <= k <= uf.len(),
        k <= uf2.len(),
        forall|i: int| 0 <= i < k ==> #[trigger] uf2[i] == uf[i],
    ensures
        roots_count(uf2, k) == roots_count(uf, k),
    decreases k,
{
    if k > 0 {
        lemma_roots_count_prefix(uf, uf2, k - 1);
    }
}

/// Lemma: there are at most `k` representatives below `k`.
pub proof fn lemma_roots_count_bound(uf: Seq<ClassId>, k: int)
    requires
        0 <= k,
    ensures
        roots_count(uf, k) <= k,
    decreases k,
{
    if k > 0 {
        lemma_roots_count_bound(uf, k - 1);
    }
}

/// Lemma: the change measure is never negative.
pub proof fn lemma_change_measure_nonneg<A>(g: &EGraph<A>)
    ensures
        g.change_measure() >= g.nodes_view().len(),
{
    lemma_roots_count_bound(g.uf_view(), g.nodes_view().len() as int);
}

/// Lemma: appending a node in a class of its own adds one class.
pub proof fn lemma_count_push<A>(before: &EGraph<A>, after: &EGraph<A>)
    requires
        before.wf(),
        after.nodes_view().len() == before.nodes_view().len() + 1,
        after.uf_view() == before.uf_view().push(before.nodes_view().len() as ClassId),
    ensures
        after.class_count_spec() == before.class_count_spec() + 1,
{
    let n = before.nodes_view().len() as int;
    before.lemma_size_fits();
    after.lemma_size_fits();
    lemma_roots_count_prefix(before.uf_view(), after.uf_view(), n);
    assert(after.uf_view()[n] == n);
}

/// Lemma: appending a node in a class of its own keeps the class lists
/// covering the nodes.
pub proof fn lemma_cover_push<A>(before: &EGraph<A>, after: &EGraph<A>)
    requires
        before.wf(),
        after.nodes_view().len() == before.nodes_view().len() + 1,
        forall|i: int| 0 <= i < before.nodes_view().len() ==> #[trigger] after.nodes_view()[i] == before.nodes_view()[i],
        after.uf_view() == before.uf_view().push(before.nodes_view().len() as ClassId),
        after.class_at(before.nodes_view().len() as int)->0.nodes_view() == seq![before.nodes_view().len() as NodeId],
        forall|c: int| 0 <= c < before.nodes_view().len() ==> #[trigger] after.class_at(c) == before.class_at(c),
    ensures
        after.lists_cover(),
{
    let n = before.nodes_view().len();
    let uf = before.uf_view();
    let uf2 = after.uf_view();
    assert forall|x: int| 0 <= x < n + 1 implies #[trigger] after.listed_alike(x) by {
        if x < n {
            assert(before.listed_alike(x));
            let c = uf[x];
            assert(uf2[x] == c);
            let ids = before.class_at(c as int)->0.nodes_view();
            assert(after.class_at(c as int) == before.class_at(c as int));
            let k = choose|k: int|
                0 <= k < ids.len() && canon_node(before.nodes_view()[#[trigger] ids[k] as int], uf) == canon_node(
                    before.nodes_view()[x],
                    uf,
                );
            assert(before.class_ok(c as int));
            assert(ids[k] < n);
            assert(children_below(before.nodes_view()[ids[k] as int], n));
            assert(children_below(before.nodes_view()[x], n));
            assert forall|y: int| 0 <= y < uf.len() implies #[trigger] uf2[y] == uf[y] by {}
            lemma_canon_prefix(before.nodes_view()[ids[k] as int], uf, uf2);
            lemma_canon_prefix(before.nodes_view()[x], uf, uf2);
            assert(after.class_at(uf2[x] as int)->0.nodes_view()[k] == ids[k]);
        } else {
            assert(uf.len() == n);
            assert(x == n);
            before.lemma_size_fits();
            assert(uf2[x] == n);
            assert(after.class_at(uf2[x] as int)->0.nodes_view()[0] == n);
        }
    }
}

/// Lemma: when the search finds no node among the first `k` with the
/// canonical form of `target`, none of them has it.
pub proof fn lemma_first_node_none(views: Seq<NodeView>, uf: Seq<ClassId>, target: NodeView, k: int)
    requires
        0 <= k,
        first_node_upto(views, uf, target, k) is None,
    ensures
        forall|i: int| 0 <= i < k ==> #[trigger] canon_node(views[i], uf) != canon_node(target, uf),
{
    assert forall|i: int| 0 <= i < k implies #[trigger] canon_node(views[i], uf) != canon_node(target, uf) by {
        if canon_node(views[i], uf) == canon_node(target, uf) {
            lemma_first_node_exists(views, uf, target, k, i);
        }
    }
}

/// Lemma: the canonical form of a node whose children are below `a`'s size is
/// the same in an e-graph that extends `a`.
pub proof fn lemma_canon_extends<A>(a: &EGraph<A>, b: &EGraph<A>, v: NodeView)
    requires
        b.extends(a),
        children_below(v, a.nodes_view().len()),
    ensures
        canon_node(v, b.uf_view()) == canon_node(v, a.uf_view()),
{
    match v {
        NodeView::Lit(_) => {},
        NodeView::Sym(id, cs) => {
            assert forall|k: int| 0 <= k < cs.len() implies #[trigger] b.uf_view()[cs[k] as int] == a.uf_view()[cs[k] as int] by {
                assert(node_children(v)[k] == cs[k]);
            }
            assert(cs.map_values(|c: ClassId| b.uf_view()[c as int]) =~= cs.map_values(|c: ClassId| a.uf_view()[c as int]));
        },
    }
}

/// Lemma: nodes added without a canonical duplicate in two stages were added
/// without one overall.
pub proof fn lemma_added_distinct_trans<A>(a: &EGraph<A>, b: &EGraph<A>, m: int)
    requires
        a.wf(),
        b.extends(a),
        0 <= m <= a.nodes_view().len(),
        a.added_distinct(m),
        b.added_distinct(a.nodes_view().len() as int),
    ensures
        b.added_distinct(m),
{
    assert forall|x: int, i: int| m <= x < b.nodes_view().len() && 0 <= i < x implies #[trigger] canon_node(
        b.nodes_view()[i],
        b.uf_view(),
    ) != #[trigger] canon_node(b.nodes_view()[x], b.uf_view()) by {
        if x < a.nodes_view().len() {
            lemma_canon_extends(a, b, a.nodes_view()[i]);
            lemma_canon_extends(a, b, a.nodes_view()[x]);
            assert(canon_node(a.nodes_view()[i], a.uf_view()) != canon_node(a.nodes_view()[x], a.uf_view()));
        }
    }
}

/// Lemma: a node appended because no node had its canonical form is added
/// without a canonical duplicate.
pub proof fn lemma_added_node_distinct<A>(before: &EGraph<A>, after: &EGraph<A>, target: NodeView)
    requires
        before.wf(),
        children_below(target, before.nodes_view().len()),
        before.first_node(target) is None,
        after.nodes_view() == before.nodes_view().push(target),
        after.uf_view() == before.uf_view().push(before.nodes_view().len() as ClassId),
    ensures
        after.added_distinct(before.nodes_view().len() as int),
{
    let n = before.nodes_view().len();
    assert(after.extends(before));
    lemma_first_node_none(before.nodes_view(), before.uf_view(), target, n as int);
    assert forall|x: int, i: int| n <= x < after.nodes_view().len() && 0 <= i < x implies #[trigger] canon_node(
        after.nodes_view()[i],
        after.uf_view(),
    ) != #[trigger] canon_node(after.nodes_view()[x], after.uf_view()) by {
        assert(x == n);
        assert(after.nodes_view()[i] == before.nodes_view()[i]);
        lemma_canon_extends(before, after, before.nodes_view()[i]);
        lemma_canon_extends(before, after, target);
        assert(canon_node(before.nodes_view()[i], before.uf_view()) != canon_node(target, before.uf_view()));
    }
}

/// Lemma: a node among the first `k` with the canonical form of `target` is
/// found by the search.
pub proof fn lemma_first_node_exists(views: Seq<NodeView>, uf: Seq<ClassId>, target: NodeView, k: int, i: int)
    requires
        0 <= i < k,
        canon_node(views[i], uf) == canon_node(target, uf),
    ensures
        first_node_upto(views, uf, target, k) is Some,
    decreases k,
{
    if i < k - 1 {
        lemma_first_node_exists(views, uf, target, k - 1, i);
    }
}

/// Lemma: a node whose children are below `uf.len()` has the same canonical
/// form under any extension of `uf`.
proof fn lemma_canon_prefix(v: NodeView, uf: Seq<ClassId>, uf2: Seq<ClassId>)
    requires
        children_below(v, uf.len()),
        uf.len() <= uf2.len(),
        forall|x: int| 0 <= x < uf.len() ==> #[trigger] uf2[x] == uf[x],
    ensures
        canon_node(v, uf2) == canon_node(v, uf),
{
    match v {
        NodeView::Sym(_, xs) => {
            assert forall|k: int| 0 <= k < xs.len() implies uf2[#[trigger] xs[k] as int] == uf[xs[k] as int] by {
                assert(node_children(v)[k] == xs[k]);
            }
            assert(xs.map_values(|c: ClassId| uf2[c as int]) =~= xs.map_values(|c: ClassId| uf[c as int]));
        },
        _ => {},
    }
}

/// Lemma: what `lemma_canon_coarser` states, when the coarser partition has
/// more elements.
pub proof fn lemma_canon_coarser_prefix(a: NodeView, b: NodeView, uf: Seq<ClassId>, uf2: Seq<ClassId>)
    requires
        canon_node(a, uf) == canon_node(b, uf),
        children_below(a, uf.len()),
        children_below(b, uf.len()),
        uf.len() <= uf2.len(),
        forall|i: int, j: int|
            0 <= i < uf.len() && 0 <= j < uf.len() && #[trigger] uf[i] == #[trigger] uf[j] ==> uf2[i] == uf2[j],
    ensures
        canon_node(a, uf2) == canon_node(b, uf2),
{
    match (a, b) {
        (NodeView::Sym(_, xs), NodeView::Sym(_, ys)) => {
            assert(xs.map_values(|c: ClassId| uf[c as int]).len() == ys.map_values(|c: ClassId| uf[c as int]).len());
            let xm = xs.map_values(|c: ClassId| uf2[c as int]);
            let ym = ys.map_values(|c: ClassId| uf2[c as int]);
            assert forall|k: int| 0 <= k < xs.len() implies #[trigger] xm[k] == ym[k] by {
                assert(node_children(a)[k] == xs[k]);
                assert(node_children(b)[k] == ys[k]);
                assert(xs.map_values(|c: ClassId| uf[c as int])[k] == ys.map_values(|c: ClassId| uf[c as int])[k]);
                assert(uf[xs[k] as int] == uf[ys[k] as int]);
            }
            assert(xm =~= ym);
        },
        _ => {},
    }
}

/// Lemma: sums of mixed sizes grow with the number of expressions summed.
pub proof fn lemma_mixed_sizes_mono(cs: Seq<MixedExpression>, i: int, j: int)
    requires
        0 <= i <= j <= cs.len(),
    ensures
        mixed_sizes_sum(cs, i) <= mixed_sizes_sum(cs, j),
    decreases j - i,
{
    if i < j {
        lemma_mixed_sizes_mono(cs, i, j - 1);
    }
}

/// Lemma: sums of sizes grow with the number of terms summed.
pub proof fn lemma_sizes_mono(cs: Seq<Term>, i: int, j: int)
    requires
        0 <= i <= j <= cs.len(),
    ensures
        crate::language::expression::sizes_sum(cs, i) <= crate::language::expression::sizes_sum(cs, j),
    decreases j - i,
{
    if i < j {
        lemma_sizes_mono(cs, i, j - 1);
    }
}

/// Lemma: replacing children by representatives twice is the same as once.
pub proof fn lemma_canon_idem(v: NodeView, uf: Seq<ClassId>)
    requires
        children_below(v, uf.len()),
        forall|c: int| 0 <= c < uf.len() ==> #[trigger] uf[c] < uf.len() && uf[uf[c] as int] == uf[c],
    ensures
        canon_node(canon_node(v, uf), uf) == canon_node(v, uf),
        children_below(canon_node(v, uf), uf.len()),
{
    match v {
        NodeView::Lit(_) => {},
        NodeView::Sym(id, cs) => {
            let once = cs.map_values(|c: ClassId| uf[c as int]);
            assert forall|k: int| 0 <= k < cs.len() implies #[trigger] once[k] < uf.len() && uf[once[k] as int] == once[k] by {
                assert(node_children(v)[k] == cs[k]);
            }
            assert(once.map_values(|c: ClassId| uf[c as int]) =~= once);
            assert forall|k: int| 0 <= k < node_children(canon_node(v, uf)).len() implies #[trigger] node_children(canon_node(v, uf))[k] < uf.len() by {
                assert(node_children(canon_node(v, uf))[k] == once[k]);
            }
        },
    }
}

/// Lemma: nodes with the same canonical form under a partition have the same
/// canonical form under any coarser one.
pub proof fn lemma_canon_coarser(a: NodeView, b: NodeView, uf: Seq<ClassId>, uf2: Seq<ClassId>)
    requires
        canon_node(a, uf) == canon_node(b, uf),
        children_below(a, uf.len()),
        children_below(b, uf.len()),
        uf2.len() == uf.len(),
        forall|i: int, j: int|
            0 <= i < uf.len() && 0 <= j < uf.len() && #[trigger] uf[i] == #[trigger] uf[j] ==> uf2[i] == uf2[j],
    ensures
        canon_node(a, uf2) == canon_node(b, uf2),
{
    match (a, b) {
        (NodeView::Sym(_, xs), NodeView::Sym(_, ys)) => {
            assert(xs.map_values(|c: ClassId| uf[c as int]).len() == ys.map_values(|c: ClassId| uf[c as int]).len());
            let xm = xs.map_values(|c: ClassId| uf2[c as int]);
            let ym = ys.map_values(|c: ClassId| uf2[c as int]);
            assert forall|k: int| 0 <= k < xs.len() implies #[trigger] xm[k] == ym[k] by {
                assert(node_children(a)[k] == xs[k]);
                assert(node_children(b)[k] == ys[k]);
                assert(xs.map_values(|c: ClassId| uf[c as int])[k] == ys.map_values(|c: ClassId| uf[c as int])[k]);
                assert(uf[xs[k] as int] == uf[ys[k] as int]);
            }
            assert(xm =~= ym);
        },
        _ => {},
    }
}

/// Lemma: merging is transitive.
pub proof fn lemma_merged_trans<A>(a: &EGraph<A>, b: &EGraph<A>, c: &EGraph<A>)
    requires
        a.wf(),
        b.wf(),
        c.wf(),
        b.merged_from(a),
        c.merged_from(b),
    ensures
        c.merged_from(a),
{
    let n = a.nodes_view().len();
    assert forall|i: int, j: int|
        0 <= i < n && 0 <= j < n && #[trigger] a.uf_view()[i] == #[trigger] a.uf_view()[j] implies c.uf_view()[i]
            == c.uf_view()[j] by {
        assert(b.uf_view()[i] == b.uf_view()[j]);
    }
    assert forall|i: int| 0 <= i < n implies canon_node(#[trigger] c.nodes_view()[i], c.uf_view()) == canon_node(
        a.nodes_view()[i],
        c.uf_view(),
    ) by {
        assert(canon_node(b.nodes_view()[i], b.uf_view()) == canon_node(a.nodes_view()[i], b.uf_view()));
        assert(children_below(b.nodes_view()[i], n));
        assert(children_below(a.nodes_view()[i], n));
        lemma_canon_coarser(b.nodes_view()[i], a.nodes_view()[i], b.uf_view(), c.uf_view());
    }
}

/// Lemma: when class `c1` is sent into class `c2`, two nodes that become
/// congruent each have a child at the same position, one in `c1` and the other
/// in `c2`.
proof fn lemma_union_congruence(a: NodeView, b: NodeView, uf: Seq<ClassId>, uf2: Seq<ClassId>, c1: ClassId, c2: ClassId)
    requires
        uf2.len() == uf.len(),
        forall|x: int| 0 <= x < uf.len() ==> #[trigger] uf2[x] == (if uf[x] == c1 {
            c2
        } else {
            uf[x]
        }),
        children_below(a, uf.len()),
        children_below(b, uf.len()),
        canon_node(a, uf2) == canon_node(b, uf2),
        canon_node(a, uf) != canon_node(b, uf),
    ensures
        exists|k: int|
            0 <= k < node_children(a).len() && k < node_children(b).len() && ((uf[node_children(a)[k] as int] == c1
                && uf[node_children(b)[k] as int] == c2) || (uf[node_children(a)[k] as int] == c2 && uf[node_children(
                b,
            )[k] as int] == c1)),
{
    match (a, b) {
        (NodeView::Sym(ia, xs), NodeView::Sym(ib, ys)) => {
            let f = |c: ClassId| uf[c as int];
            let f2 = |c: ClassId| uf2[c as int];
            assert(xs.map_values(f2) == ys.map_values(f2));
            assert(xs.len() == ys.len());
            if forall|k: int| 0 <= k < xs.len() ==> uf[#[trigger] xs[k] as int] == uf[ys[k] as int] {
                assert(xs.map_values(f) =~= ys.map_values(f));
                assert(false);
            }
            let k = choose|k: int| 0 <= k < xs.len() && uf[#[trigger] xs[k] as int] != uf[ys[k] as int];
            assert(node_children(a)[k] == xs[k]);
            assert(node_children(b)[k] == ys[k]);
            assert(xs.map_values(f2)[k] == ys.map_values(f2)[k]);
            assert(xs[k] < uf.len() && ys[k] < uf.len());
        },
        _ => {},
    }
}

/// `true` when `tm` lists the pair `(x, y)`.
pub open spec fn merge_listed(tm: Seq<(ClassId, ClassId)>, x: ClassId, y: ClassId) -> bool {
    exists|t: int| 0 <= t < tm.len() && #[trigger] tm[t] == (x, y)
}

/// `true` when the pair `e` names the classes of `i` and `j`, in either order.
pub open spec fn pending_at(e: (ClassId, ClassId), uf: Seq<ClassId>, i: int, j: int) -> bool {
    ||| (uf[e.0 as int] == uf[i] && uf[e.1 as int] == uf[j])
    ||| (uf[e.0 as int] == uf[j] && uf[e.1 as int] == uf[i])
}

/// `true` when a pair of `tm` from position `k` on names the classes of `i` and `j`.
pub open spec fn merge_pending(tm: Seq<(ClassId, ClassId)>, k: int, uf: Seq<ClassId>, i: int, j: int) -> bool {
    exists|t: int| k <= t < tm.len() && #[trigger] pending_at(tm[t], uf, i, j)
}

/// `true` when the parents at positions `a` and `b`, if distinct, in different
/// classes and equal, have their classes listed in `tm`.
pub open spec fn pair_collected(
    views: Seq<NodeView>,
    uf: Seq<ClassId>,
    parents: Seq<NodeId>,
    tm: Seq<(ClassId, ClassId)>,
    a: int,
    b: int,
) -> bool {
    let p = parents[a];
    let q = parents[b];
    p < q && uf[p as int] != uf[q as int] && views[p as int] == views[q as int] ==> merge_listed(tm, uf[p as int], uf[q as int])
}

/// Lemma: a listed pair stays listed after a push.
proof fn lemma_merge_listed_push(tm: Seq<(ClassId, ClassId)>, e: (ClassId, ClassId), x: ClassId, y: ClassId)
    requires
        merge_listed(tm, x, y) || e == (x, y),
    ensures
        merge_listed(tm.push(e), x, y),
{
    if merge_listed(tm, x, y) {
        let t = choose|t: int| 0 <= t < tm.len() && #[trigger] tm[t] == (x, y);
        assert(tm.push(e)[t] == (x, y));
    } else {
        assert(tm.push(e)[tm.len() as int] == (x, y));
    }
}

/// Lemma: with the same representatives, nodes keep their congruences.
proof fn lemma_same_uf_congruent<A>(a: &EGraph<A>, b: &EGraph<A>)
    requires
        b.merged_from(a),
        b.uf_view() == a.uf_view(),
    ensures
        forall|i: int, j: int|
            0 <= i < a.nodes_view().len() && 0 <= j < a.nodes_view().len() ==> (#[trigger] b.congruent(i, j)
                <==> a.congruent(i, j)),
{
}

/// Lemma: merging adds no congruence to a congruence-closed e-graph that
/// leaves two nodes in different classes.
proof fn lemma_congruences_closed<A>(a: &EGraph<A>, b: &EGraph<A>)
    requires
        b.merged_from(a),
        b.congruences_from(a),
        a.congruence_closed(),
    ensures
        b.congruence_closed(),
{
    let n = a.nodes_view().len();
    assert forall|i: int, j: int| 0 <= i < n && 0 <= j < n && #[trigger] b.congruent(i, j) implies b.uf_view()[i]
        == b.uf_view()[j] by {
        if b.uf_view()[i] != b.uf_view()[j] {
            assert(a.congruent(i, j));
        }
    }
}

/// Lemma: a term represented in an e-graph stays represented, in the class of
/// the same id, in any e-graph evolved from it.
pub proof fn lemma_represents_evolved<A>(before: &EGraph<A>, after: &EGraph<A>, t: Term, c: ClassId)
    requires
        before.wf(),
        after.wf(),
        after.evolved_from(before),
        c < before.nodes_view().len(),
        represents(before.nodes_view(), before.uf_view(), t, c),
    ensures
        represents(after.nodes_view(), after.uf_view(), t, after.uf_view()[c as int]),
        after.uf_view()[c as int] < after.nodes_view().len(),
{
    let n = before.nodes_view().len();
    assert forall|i: int| 0 <= i < n implies #[trigger] children_below(before.nodes_view()[i], n) by {}
    assert forall|i: int| 0 <= i < n implies #[trigger] before.uf_view()[i] < n
        && before.uf_view()[before.uf_view()[i] as int] == before.uf_view()[i] by {}
    lemma_represents_grow(before.nodes_view(), before.uf_view(), after.nodes_view(), after.uf_view(), t, c);
}

/// Lemma: a term represented in an e-graph stays represented, in the class of
/// the same id, after classes are merged.
pub proof fn lemma_represents_merged<A>(before: &EGraph<A>, after: &EGraph<A>, t: Term, c: ClassId)
    requires
        before.wf(),
        after.wf(),
        after.merged_from(before),
        c < before.nodes_view().len(),
        represents(before.nodes_view(), before.uf_view(), t, c),
    ensures
        represents(after.nodes_view(), after.uf_view(), t, after.uf_view()[c as int]),
{
    let n = before.nodes_view().len();
    assert forall|i: int| 0 <= i < n implies #[trigger] children_below(before.nodes_view()[i], n) by {}
    assert forall|i: int| 0 <= i < n implies #[trigger] before.uf_view()[i] < n
        && before.uf_view()[before.uf_view()[i] as int] == before.uf_view()[i] by {}
    lemma_represents_grow(before.nodes_view(), before.uf_view(), after.nodes_view(), after.uf_view(), t, c);
}

/// Lemma: the number of representatives drops by one when the class of root
/// `r1` is merged into that of root `r2`.
pub proof fn lemma_roots_count_union(uf: Seq<ClassId>, uf2: Seq<ClassId>, r1: ClassId, r2: ClassId, k: int)
    requires
        0 <= k <= uf.len(),
        uf2.len() == uf.len(),
        r1 < uf.len(),
        r2 < uf.len(),
        r1 != r2,
        uf[r1 as int] == r1,
        forall|i: int| 0 <= i < uf.len() ==> (#[trigger] uf2[i] == i <==> (uf[i] == i && i != r1)),
    ensures
        roots_count(uf2, k) + (if r1 < k {
            1nat
        } else {
            0nat
        }) == roots_count(uf, k) + 0,
        r1 < k ==> roots_count(uf2, k) < roots_count(uf, k),
    decreases k,
{
    if k > 0 {
        lemma_roots_count_union(uf, uf2, r1, r2, k - 1);
        assert(uf2[k - 1] == k - 1 <==> (uf[k - 1] == k - 1 && k - 1 != r1));
    }
}

/// Lemma: filtering a list without repeated elements keeps it so.
pub proof fn lemma_filter_no_dups(s: Seq<NodeId>, removed: Seq<NodeId>)
    requires
        s.no_duplicates(),
    ensures
        s.filter(class::not_in(removed)).no_duplicates(),
        forall|x: NodeId| s.filter(class::not_in(removed)).contains(x) ==> s.contains(x),
    decreases s.len(),
{
    reveal(Seq::filter);
    if s.len() > 0 {
        lemma_filter_no_dups(s.drop_last(), removed);
        let sub = s.drop_last().filter(class::not_in(removed));
        assert(s.drop_last().no_duplicates());
        assert forall|x: NodeId| s.filter(class::not_in(removed)).contains(x) implies s.contains(x) by {
            if sub.contains(x) {
                assert(s.drop_last().contains(x));
                let k = choose|k: int| 0 <= k < s.drop_last().len() && s.drop_last()[k] == x;
                assert(s[k] == x);
            } else {
                assert(s.filter(class::not_in(removed)) == sub.push(s.last()));
                let k = choose|k: int| 0 <= k < sub.push(s.last()).len() && sub.push(s.last())[k] == x;
                if k < sub.len() {
                    assert(sub[k] == x);
                }
                assert(x == s.last());
                assert(s[s.len() - 1] == x);
            }
        }
        if (class::not_in(removed))(s.last()) {
            if sub.contains(s.last()) {
                assert(s.drop_last().contains(s.last()));
                let k = choose|k: int| 0 <= k < s.drop_last().len() && s.drop_last()[k] == s.last();
                assert(s[k] == s[s.len() - 1]);
            }
            assert forall|i: int, j: int| 0 <= i < j < sub.push(s.last()).len() implies sub.push(s.last())[i] != sub.push(s.last())[j] by {
                if j == sub.len() {
                    assert(sub.contains(sub[i]));
                }
            }
        }
    }
}

impl<A> EGraph<A> {
    proof fn lemma_roots(&self)
        requires
            self.core_wf(),
        ensures
            forall|c: int|
                0 <= c < self.uf_view().len() ==> #[trigger] self.uf_view()[c] < self.uf_view().len()
                    && self.uf_view()[self.uf_view()[c] as int] == self.uf_view()[c],
    {
        assert forall|c: int| 0 <= c < self.uf_view().len() implies #[trigger] self.uf_view()[c] < self.uf_view().len()
            && self.uf_view()[self.uf_view()[c] as int] == self.uf_view()[c] by {
            self.union_find.lemma_root(c);
        }
    }

    /// An empty e-graph.
    pub fn new() -> (r: Self)
        ensures
            r.wf(),
            r.nodes_view() == Seq::<NodeView>::empty(),
            r.congruence_closed(),
    {
        let r = EGraph { union_find: UnionFind::new(), nodes: Vec::new(), classes: Vec::new() };
        assert(r.nodes_view() =~= Seq::<NodeView>::empty());
        r
    }

    /// The number of nodes ever added.
    pub fn total_node_count(&self) -> (r: usize)
        ensures
            r == self.nodes_view().len(),
    {
        self.nodes.len()
    }

    /// The number of nodes ever added.
    pub fn node_count(&self) -> (r: usize)
        ensures
            r == self.nodes_view().len(),
    {
        self.nodes.len()
    }

    /// The node with id `node_id`.
    pub fn node(&self, node_id: NodeId) -> (r: &Node)
        requires
            node_id < self.nodes_view().len(),
        ensures
            r@ == self.nodes_view()[node_id as int],
    {
        &self.nodes[node_id]
    }

    /// The representative of class `class_id`.
    pub fn canonical_class(&self, class_id: ClassId) -> (r: ClassId)
        requires
            self.wf(),
            class_id < self.nodes_view().len(),
        ensures
            r == self.uf_view()[class_id as int],
    {
        self.union_find.find_no_compress(class_id)
    }

    /// The class that holds node `node_id`.
    pub fn containing_class(&self, node_id: NodeId) -> (r: ClassId)
        requires
            self.wf(),
            node_id < self.nodes_view().len(),
        ensures
            r == self.uf_view()[node_id as int],
    {
        self.union_find.find_no_compress(node_id)
    }

    /// The class of `class_id`.
    pub fn class(&self, class_id: ClassId) -> (r: &Class<A>)
        requires
            self.wf(),
            class_id < self.nodes_view().len(),
        ensures
            self.class_at(self.uf_view()[class_id as int] as int) == Some(*r),
    {
        let c = self.union_find.find_no_compress(class_id);
        assert(self.class_at(c as int) == self.classes@[c as int]);
        self.classes[c].as_ref().unwrap()
    }

    /// The class of `class_id`, to change in place. Changing it can break the
    /// e-graph's invariants, which the caller then restores.
    pub fn class_mut(&mut self, class_id: ClassId) -> (r: &mut Class<A>)
        requires
            old(self).wf(),
            class_id < old(self).nodes_view().len(),
        ensures
            old(self).class_at(old(self).uf_view()[class_id as int] as int) == Some(*r),
            final(self).nodes_view() == old(self).nodes_view(),
            final(self).uf_view() == old(self).uf_view(),
            forall|c: int|
                0 <= c < old(self).nodes_view().len() ==> #[trigger] final(self).class_at(c) == (if c == old(
                    self,
                ).uf_view()[class_id as int] {
                    Some(*final(r))
                } else {
                    old(self).class_at(c)
                }),
    {
        let c = self.union_find.find_no_compress(class_id);
        assert(self.class_at(c as int) == self.classes@[c as int]);
        self.classes[c].as_mut().unwrap()
    }

    /// The ids of the nodes of the class of `class_id`.
    pub fn nodes(&self, class_id: ClassId) -> (r: &Vec<NodeId>)
        requires
            self.wf(),
            class_id < self.nodes_view().len(),
        ensures
            r@ == self.class_at(self.uf_view()[class_id as int] as int)->0.nodes_view(),
    {
        self.class(class_id).nodes_ids()
    }

    /// The ids of the nodes that have the class of `class_id` as a child.
    pub fn parents(&self, class_id: ClassId) -> (r: &Vec<NodeId>)
        requires
            self.wf(),
            class_id < self.nodes_view().len(),
        ensures
            r@ == self.class_at(self.uf_view()[class_id as int] as int)->0.parents_view(),
    {
        self.class(class_id).parents_ids()
    }

    /// The number of classes.
    pub fn class_count(&self) -> (r: usize)
        requires
            self.wf(),
        ensures
            r == self.class_count_spec(),
    {
        let mut count: usize = 0;
        let mut i: usize = 0;
        while i < self.classes.len()
            invariant
                self.wf(),
                i <= self.classes@.len() == self.nodes_view().len(),
                count == roots_count(self.uf_view(), i as int),
                count <= i,
            decreases self.classes@.len() - i,
        {
            assert(self.class_at(i as int) == self.classes@[i as int]);
            if self.classes[i].is_some() {
                count = count + 1;
            }
            i = i + 1;
        }
        count
    }

    /// The ids of the representatives, in increasing order.
    pub fn iter_classes(&self) -> (r: Vec<ClassId>)
        requires
            self.wf(),
        ensures
            r@ == roots_upto(self.uf_view(), self.nodes_view().len() as int),
    {
        let mut out: Vec<ClassId> = Vec::new();
        let mut i: usize = 0;
        while i < self.classes.len()
            invariant
                self.wf(),
                i <= self.classes@.len() == self.nodes_view().len(),
                out@ == roots_upto(self.uf_view(), i as int),
            decreases self.classes@.len() - i,
        {
            assert(self.class_at(i as int) == self.classes@[i as int]);
            if self.classes[i].is_some() {
                out.push(i);
            }
            i = i + 1;
        }
        out
    }

    /// The number of nodes held by the classes (nodes found equal to another node
    /// of their class are no longer held); saturates at `usize::MAX`.
    pub fn actual_node_count(&self) -> (r: usize)
        requires
            self.wf(),
        ensures
            r == (if self.held_count(self.nodes_view().len() as int) <= usize::MAX {
                self.held_count(self.nodes_view().len() as int)
            } else {
                usize::MAX as nat
            }),
    {
        let mut total: usize = 0;
        let mut i: usize = 0;
        while i < self.classes.len()
            invariant
                self.wf(),
                i <= self.classes@.len() == self.nodes_view().len(),
                total == (if self.held_count(i as int) <= usize::MAX {
                    self.held_count(i as int)
                } else {
                    usize::MAX as nat
                }),
            decreases self.classes@.len() - i,
        {
            assert(self.class_at(i as int) == self.classes@[i as int]);
            match &self.classes[i] {
                Some(cl) => {
                    total = total.saturating_add(cl.nodes_ids().len());
                },
                None => {},
            }
            i = i + 1;
        }
        total
    }


    /// A copy of `node` whose children are replaced by their representatives.
    pub fn canonical_node(&self, node: &Node) -> (r: Node)
        requires
            self.wf(),
            children_below(node@, self.nodes_view().len()),
        ensures
            r@ == canon_node(node@, self.uf_view()),
    {
        match node {
            Node::Literal(l) => Node::Literal(*l),
            Node::Symbol(s) => {
                let mut children: Vec<ClassId> = Vec::new();
                let mut i: usize = 0;
                while i < s.children.len()
                    invariant
                        self.wf(),
                        node@ == NodeView::Sym(s.id, s.children@),
                        children_below(node@, self.nodes_view().len()),
                        i <= s.children@.len(),
                        children@ == s.children@.take(i as int).map_values(|c: ClassId| self.uf_view()[c as int]),
                    decreases s.children@.len() - i,
                {
                    assert(node_children(node@)[i as int] == s.children@[i as int]);
                    let c = self.union_find.find_no_compress(s.children[i]);
                    children.push(c);
                    assert(children@ =~= s.children@.take(i + 1).map_values(|c: ClassId| self.uf_view()[c as int]));
                    i = i + 1;
                }
                assert(s.children@.take(i as int) =~= s.children@);
                Node::Symbol(Symbol { id: s.id, children })
            },
        }
    }

    /// The id of the first node whose canonical form is that of `node`, if any.
    pub fn node_id(&self, node: &Node) -> (r: Option<NodeId>)
        requires
            self.wf(),
            children_below(node@, self.nodes_view().len()),
        ensures
            r == self.first_node(node@),
    {
        let target = self.canonical_node(node);
        let mut i: usize = 0;
        while i < self.nodes.len()
            invariant
                self.wf(),
                i <= self.nodes_view().len(),
                target@ == canon_node(node@, self.uf_view()),
                first_node_upto(self.nodes_view(), self.uf_view(), node@, i as int) is None,
            decreases self.nodes_view().len() - i,
        {
            assert(self.nodes_view()[i as int] == self.nodes@[i as int]@);
            let candidate = self.canonical_node(&self.nodes[i]);
            if candidate.same_as(&target) {
                proof {
                    self.lemma_first_node_stable(node@, i + 1, self.nodes_view().len() as int);
                }
                return Some(i);
            }
            i = i + 1;
        }
        None
    }

    /// The class of the first literal node equal to `literal`, if any.
    pub fn find_literal(&self, literal: Literal) -> (r: Option<ClassId>)
        requires
            self.wf(),
        ensures
            r == (match self.first_node(NodeView::Lit(literal)) {
                Some(i) => Some(self.uf_view()[i as int]),
                None => None,
            }),
    {
        let node = Node::Literal(literal);
        match self.node_id(&node) {
            Some(i) => {
                proof {
                    self.lemma_first_node_bound(NodeView::Lit(literal), self.nodes_view().len() as int);
                }
                Some(self.containing_class(i))
            },
            None => None,
        }
    }

    /// The class of the first node canonically equal to `symbol`, if any.
    pub fn find_symbol(&self, symbol: Symbol<ClassId>) -> (r: Option<ClassId>)
        requires
            self.wf(),
            forall|k: int| 0 <= k < symbol.children@.len() ==> #[trigger] symbol.children@[k] < self.nodes_view().len(),
        ensures
            r == (match self.first_node(NodeView::Sym(symbol.id, symbol.children@)) {
                Some(i) => Some(self.uf_view()[i as int]),
                None => None,
            }),
    {
        let ghost target = NodeView::Sym(symbol.id, symbol.children@);
        let node = Node::Symbol(symbol);
        assert(node@ == target);
        match self.node_id(&node) {
            Some(i) => {
                proof {
                    self.lemma_first_node_bound(target, self.nodes_view().len() as int);
                }
                Some(self.containing_class(i))
            },
            None => None,
        }
    }

    /// Lemma: the number of nodes fits in a `usize`.
    pub proof fn lemma_size_fits(&self)
        ensures
            self.nodes_view().len() <= usize::MAX,
    {
        assert(self.nodes@.len() == self.nodes.len());
    }

    /// Lemma: the listed representatives are class ids of the e-graph.
    pub proof fn lemma_roots_below(&self)
        requires
            self.wf(),
        ensures
            forall|j: int|
                0 <= j < roots_upto(self.uf_view(), self.nodes_view().len() as int).len() ==> #[trigger] roots_upto(
                    self.uf_view(),
                    self.nodes_view().len() as int,
                )[j] < self.nodes_view().len(),
    {
        self.lemma_size_fits();
        lemma_roots_upto(self.uf_view(), self.nodes_view().len() as int);
    }

    proof fn lemma_first_node_stable(&self, target: NodeView, k: int, k2: int)
        requires
            0 <= k <= k2,
            first_node_upto(self.nodes_view(), self.uf_view(), target, k) is Some,
        ensures
            first_node_upto(self.nodes_view(), self.uf_view(), target, k2) == first_node_upto(
                self.nodes_view(),
                self.uf_view(),
                target,
                k,
            ),
        decreases k2 - k,
    {
        if k2 > k {
            self.lemma_first_node_stable(target, k, k2 - 1);
        }
    }

    pub proof fn lemma_first_node_found(&self, target: NodeView, k: int)
        requires
            0 <= k <= self.nodes_view().len(),
            k <= usize::MAX,
        ensures
            first_node_upto(self.nodes_view(), self.uf_view(), target, k) matches Some(i) ==> i < k
                && canon_node(self.nodes_view()[i as int], self.uf_view()) == canon_node(target, self.uf_view()),
        decreases k,
    {
        if k > 0 {
            self.lemma_first_node_found(target, k - 1);
        }
    }

    /// Lemma: a node canonically equal to `target` among the first `k` is found.
    pub proof fn lemma_first_node_exists(&self, target: NodeView, k: int, j: int)
        requires
            0 <= j < k <= self.nodes_view().len(),
            canon_node(self.nodes_view()[j], self.uf_view()) == canon_node(target, self.uf_view()),
        ensures
            first_node_upto(self.nodes_view(), self.uf_view(), target, k) is Some,
        decreases k,
    {
        if j < k - 1 {
            self.lemma_first_node_exists(target, k - 1, j);
        }
    }

    proof fn lemma_first_node_bound(&self, target: NodeView, k: int)
        requires
            0 <= k <= self.nodes_view().len(),
        ensures
            first_node_upto(self.nodes_view(), self.uf_view(), target, k) matches Some(i) ==> i < k,
        decreases k,
    {
        if k > 0 {
            self.lemma_first_node_bound(target, k - 1);
        }
    }

    /// The ids of the nodes that apply symbol `symbol_id`, in increasing order.
    pub fn find_symbols(&self, symbol_id: SymbolId) -> (r: Vec<NodeId>)
        ensures
            r@ == symbol_nodes_upto(self.nodes_view(), symbol_id, self.nodes_view().len() as int),
    {
        let mut out: Vec<NodeId> = Vec::new();
        let mut i: usize = 0;
        while i < self.nodes.len()
            invariant
                i <= self.nodes_view().len(),
                out@ == symbol_nodes_upto(self.nodes_view(), symbol_id, i as int),
            decreases self.nodes_view().len() - i,
        {
            assert(self.nodes_view()[i as int] == self.nodes@[i as int]@);
            match self.nodes[i].try_as_symbol() {
                Some(s) => {
                    if s.id == symbol_id {
                        out.push(i);
                    }
                },
                None => {},
            }
            i = i + 1;
        }
        out
    }

    /// `true` when the class of `class_id` holds a literal node equal to `literal`.
    pub fn class_contains_literal(&self, class_id: ClassId, literal: &Literal) -> (r: bool)
        requires
            self.wf(),
            class_id < self.nodes_view().len(),
        ensures
            r == exists|k: int|
                0 <= k < self.class_at(self.uf_view()[class_id as int] as int)->0.nodes_view().len()
                    && self.nodes_view()[#[trigger] self.class_at(
                    self.uf_view()[class_id as int] as int,
                )->0.nodes_view()[k] as int] == NodeView::Lit(*literal),
    {
        let ghost c = self.uf_view()[class_id as int];
        let cl = self.class(class_id);
        let ids = cl.nodes_ids();
        assert(self.class_ok(c as int));
        let mut i: usize = 0;
        while i < ids.len()
            invariant
                self.wf(),
                self.class_at(c as int) == Some(*cl),
                class_id < self.nodes_view().len(),
                c == self.uf_view()[class_id as int],
                ids@ == cl.nodes_view(),
                self.class_ok(c as int),
                i <= ids@.len(),
                forall|k: int| 0 <= k < i ==> self.nodes_view()[#[trigger] ids@[k] as int] != NodeView::Lit(*literal),
            decreases ids@.len() - i,
        {
            let node_id = ids[i];
            assert(node_id < self.nodes_view().len());
            assert(self.nodes_view()[node_id as int] == self.nodes@[node_id as int]@);
            match &self.nodes[node_id] {
                Node::Literal(l) => {
                    if *l == *literal {
                        assert(self.class_at(c as int)->0.nodes_view()[i as int] == node_id);
                        assert(self.nodes_view()[node_id as int] == NodeView::Lit(*literal));
                        assert(self.uf_view()[class_id as int] == c);
                        assert(0 <= i < self.class_at(self.uf_view()[class_id as int] as int)->0.nodes_view().len());
                        assert(self.nodes_view()[self.class_at(self.uf_view()[class_id as int] as int)->0.nodes_view()[i as int] as int] == NodeView::Lit(*literal));
                        return true;
                    }
                },
                Node::Symbol(_) => {},
            }
            i = i + 1;
        }
        false
    }
}

/// `true` when `x` is what `A::merge` gives on some data.
pub open spec fn merge_result<A: Analysis>(x: A) -> bool {
    exists|a: A, b: A| #[trigger] call_ensures(A::merge, (a, b), x)
}

/// `true` when `x` is what `A::make` gives for some node of some e-graph.
pub open spec fn make_result<A: Analysis>(x: A) -> bool {
    exists|g: EGraph<A>, id: NodeId| #[trigger] call_ensures(A::make, (&g, id), x)
}

impl<A: Analysis + Clone + Default> EGraph<A> {
    /// `true` when the data of each class here is that class's data in
    /// `before`, what `A::merge` gave on the data of classes that were merged,
    /// or what `A::make` gave for the node of a new class.
    pub open spec fn analysis_from(&self, before: &Self) -> bool {
        forall|c: int|
            0 <= c < self.nodes_view().len() && #[trigger] self.class_at(c) is Some ==> (c < before.nodes_view().len()
                && before.class_at(c) is Some && self.class_at(c)->0.analysis_view() == before.class_at(c)->0.analysis_view())
                || merge_result::<A>(self.class_at(c)->0.analysis_view()) || make_result::<A>(
                self.class_at(c)->0.analysis_view(),
            )
    }

    /// `true` when the data of each class is what `A::make` gave for the node
    /// of a new class, or what `A::merge` gave on the data of classes that
    /// were merged.
    pub open spec fn data_accounted(&self) -> bool {
        forall|c: int|
            0 <= c < self.nodes_view().len() && #[trigger] self.class_at(c) is Some ==> merge_result::<A>(
                self.class_at(c)->0.analysis_view(),
            ) || make_result::<A>(self.class_at(c)->0.analysis_view())
    }

    /// Lemma: data accounted for stay so as the e-graph keeps its classes' data.
    pub proof fn lemma_data_accounted(a: &Self, b: &Self)
        requires
            a.data_accounted() || a.nodes_view().len() == 0,
            b.analysis_from(a),
        ensures
            b.data_accounted(),
    {
        assert forall|c: int| 0 <= c < b.nodes_view().len() && #[trigger] b.class_at(c) is Some implies merge_result::<A>(
            b.class_at(c)->0.analysis_view(),
        ) || make_result::<A>(b.class_at(c)->0.analysis_view()) by {
            if !merge_result::<A>(b.class_at(c)->0.analysis_view()) && !make_result::<A>(b.class_at(c)->0.analysis_view()) {
                assert(a.class_at(c) is Some);
            }
        }
    }

    /// Lemma: an e-graph with the same classes as `a` keeps their data.
    pub proof fn lemma_analysis_same_classes(a: &Self, b: &Self)
        requires
            b.nodes_view().len() == a.nodes_view().len(),
            forall|c: int| 0 <= c < a.nodes_view().len() ==> #[trigger] b.class_at(c) == a.class_at(c),
        ensures
            b.analysis_from(a),
    {
        assert forall|c: int| 0 <= c < b.nodes_view().len() && #[trigger] b.class_at(c) is Some implies (c
            < a.nodes_view().len() && a.class_at(c) is Some && b.class_at(c)->0.analysis_view() == a.class_at(
            c,
        )->0.analysis_view()) || merge_result::<A>(b.class_at(c)->0.analysis_view()) || make_result::<A>(
            b.class_at(c)->0.analysis_view(),
        ) by {
            assert(b.class_at(c) == a.class_at(c));
        }
    }

    /// Lemma: `analysis_from` is transitive.
    pub proof fn lemma_analysis_from_trans(a: &Self, b: &Self, c: &Self)
        requires
            b.analysis_from(a),
            c.analysis_from(b),
        ensures
            c.analysis_from(a),
    {
        assert forall|k: int| 0 <= k < c.nodes_view().len() && #[trigger] c.class_at(k) is Some implies (k
            < a.nodes_view().len() && a.class_at(k) is Some && c.class_at(k)->0.analysis_view() == a.class_at(
            k,
        )->0.analysis_view()) || merge_result::<A>(c.class_at(k)->0.analysis_view()) || make_result::<A>(
            c.class_at(k)->0.analysis_view(),
        ) by {
            if !merge_result::<A>(c.class_at(k)->0.analysis_view()) && !make_result::<A>(c.class_at(k)->0.analysis_view()) {
                assert(b.class_at(k) is Some);
            }
        }
    }

    /// Adds `parent_id` to the parents of the class of `class_id`.
    fn add_parent(&mut self, class_id: ClassId, parent_id: NodeId)
        requires
            old(self).wf_base(),
            class_id < old(self).nodes_view().len(),
            parent_id < old(self).nodes_view().len(),
        ensures
            final(self).wf_base(),
            final(self).nodes_view() == old(self).nodes_view(),
            final(self).uf_view() == old(self).uf_view(),
            forall|c: int|
                0 <= c < old(self).nodes_view().len() && c != old(self).uf_view()[class_id as int]
                    ==> #[trigger] final(self).class_at(c) == old(self).class_at(c),
            final(self).class_at(old(self).uf_view()[class_id as int] as int) is Some,
            final(self).class_at(old(self).uf_view()[class_id as int] as int)->0.nodes_view() == old(self).class_at(old(self).uf_view()[class_id as int] as int)->0.nodes_view(),
            final(self).class_at(old(self).uf_view()[class_id as int] as int)->0.parents_view()
                == class::union_list(
                old(self).class_at(old(self).uf_view()[class_id as int] as int)->0.parents_view(),
                seq![parent_id],
            ),
            forall|i: int, x: ClassId|
                #![trigger final(self).parent_listed(i, x)]
                0 <= i < old(self).nodes_view().len() && x < old(self).nodes_view().len() ==> (final(self).parent_listed(i, x)
                    <==> (old(self).parent_listed(i, x) || (i == parent_id && old(self).uf_view()[x as int]
                    == old(self).uf_view()[class_id as int]))),
            final(self).class_at(old(self).uf_view()[class_id as int] as int)->0.analysis_view() == old(self).class_at(
                old(self).uf_view()[class_id as int] as int,
            )->0.analysis_view(),
    {
        let c = self.union_find.find_no_compress(class_id);
        let ghost before = *self;
        assert(self.class_at(c as int) == self.classes@[c as int]);
        let mut slot: Option<Class<A>> = None;
        std::mem::swap(&mut slot, &mut self.classes[c]);
        let mut cl = slot.unwrap();
        cl.add_parent(parent_id);
        self.classes.set(c, Some(cl));
        proof {
            let n = self.nodes_view().len();
            assert(self.nodes_view() =~= before.nodes_view());
            assert forall|d: int| 0 <= d < n && d != c implies #[trigger] self.class_at(d) == before.class_at(d) by {
                assert(self.classes@[d] == before.classes@[d]);
            }
            assert(before.class_ok(c as int));
            class::lemma_union_list(before.class_at(c as int)->0.parents_view(), seq![parent_id]);
            let ps = self.class_at(c as int)->0.parents_view();
            assert forall|k: int| 0 <= k < ps.len() implies #[trigger] ps[k] < n by {
                assert(ps.contains(ps[k]));
                if before.class_at(c as int)->0.parents_view().contains(ps[k]) {
                    let j = choose|j: int| 0 <= j < before.class_at(c as int)->0.parents_view().len()
                        && before.class_at(c as int)->0.parents_view()[j] == ps[k];
                    assert(before.class_at(c as int)->0.parents_view()[j] < n);
                } else {
                    assert(seq![parent_id].contains(ps[k]));
                    assert(seq![parent_id][0] == parent_id);
                }
            }
            assert(self.class_ok(c as int));
            assert forall|d: int| 0 <= d < n && #[trigger] self.class_at(d) is Some implies self.class_ok(d) by {
                if d != c {
                    assert(before.class_ok(d));
                }
            }
            assert forall|i: int, x: ClassId| 0 <= i < n && x < n implies (#[trigger] self.parent_listed(i, x) <==> (
            before.parent_listed(i, x) || (i == parent_id && before.uf_view()[x as int] == before.uf_view()[class_id as int]))) by {
                let d = self.uf_view()[x as int];
                assert(self.class_at(d as int) == self.classes@[d as int]);
                assert(before.class_at(d as int) == before.classes@[d as int]);
                if d == c {
                    assert(seq![parent_id].contains(i as NodeId) <==> i == parent_id) by {
                        self.lemma_size_fits();
                        assert(seq![parent_id][0] == parent_id);
                        if seq![parent_id].contains(i as NodeId) {
                            let j = choose|j: int| 0 <= j < 1 && seq![parent_id][j] == i as NodeId;
                            assert(j == 0);
                        }
                    }
                }
            }
        }
    }

    /// Adds a node and returns `Old(id)` with the id of the first node canonically
    /// equal to it if there is one (and changes nothing), or `New(id)` with the id
    /// of the node just added, alone in a new class.
    pub fn add_node(&mut self, node: Node) -> (r: Seen<NodeId>)
        requires
            old(self).wf(),
            children_below(node@, old(self).nodes_view().len()),
            old(self).nodes_view().len() + 1 < usize::MAX,
        ensures
            final(self).wf(),
            old(self).first_node(node@) matches Some(i) ==> r == Seen::Old(i) && *final(self) == *old(self),
            old(self).first_node(node@) is None ==> {
                &&& r == Seen::New(old(self).nodes_view().len() as NodeId)
                &&& final(self).nodes_view() == old(self).nodes_view().push(node@)
                &&& final(self).uf_view() == old(self).uf_view().push(old(self).nodes_view().len() as ClassId)
                &&& final(self).class_at(old(self).nodes_view().len() as int)->0.nodes_view() == seq![
                    old(self).nodes_view().len() as NodeId,
                ]
                &&& forall|c: int|
                    0 <= c < old(self).nodes_view().len() && #[trigger] final(self).class_at(c) is Some ==> final(self).class_at(c)->0.nodes_view() == old(self).class_at(c)->0.nodes_view()
                &&& forall|c: int|
                    0 <= c < old(self).nodes_view().len() && #[trigger] final(self).class_at(c) is Some ==> final(self).class_at(c)->0.analysis_view() == old(self).class_at(c)->0.analysis_view()
                &&& exists|g: EGraph<A>|
                    g.nodes_view() == final(self).nodes_view() && g.uf_view() == final(self).uf_view() && #[trigger] call_ensures(
                        A::make,
                        (&g, old(self).nodes_view().len() as NodeId),
                        final(self).class_at(old(self).nodes_view().len() as int)->0.analysis_view(),
                    )
            },
            old(self).congruence_closed() ==> final(self).congruence_closed(),
            final(self).analysis_from(old(self)),
    {
        proof {
            Self::lemma_analysis_same_classes(old(self), old(self));
        }
        match self.node_id(&node) {
            Some(old_id) => {
                return Seen::Old(old_id);
            },
            None => {},
        }
        let ghost before = *self;
        let n = self.nodes.len();
        let children: Vec<ClassId> = match &node {
            Node::Literal(_) => Vec::new(),
            Node::Symbol(s) => node::copy_ids(&s.children),
        };
        assert(children@ == node_children(node@));
        self.union_find.add();
        self.nodes.push(node);
        let mut own: Vec<NodeId> = Vec::new();
        own.push(n);
        self.classes.push(Some(Class::with_parts(own, Vec::new(), A::default())));
        proof {
            self.lemma_roots();
            let m = self.nodes_view().len();
            assert(self.nodes_view() =~= before.nodes_view().push(node@));
            assert(self.class_at(n as int)->0.nodes_view() =~= seq![n]);
            assert forall|c: int| 0 <= c < m implies (#[trigger] self.class_at(c) is Some <==> self.uf_view()[c] == c) by {
                if c < n {
                    assert(self.class_at(c) == before.class_at(c));
                }
            }
            assert forall|i: int| 0 <= i < m implies children_below(#[trigger] self.nodes_view()[i], m) by {
                if i < n {
                    assert(children_below(before.nodes_view()[i], n as nat));
                }
            }
            assert forall|c: int| 0 <= c < m && #[trigger] self.class_at(c) is Some implies self.class_ok(c) by {
                if c < n {
                    assert(self.class_at(c) == before.class_at(c));
                    assert(before.class_ok(c));
                    let cl = self.class_at(c)->0;
                    assert forall|k: int| 0 <= k < cl.nodes_view().len() implies #[trigger] cl.nodes_view()[k] < m
                        && self.uf_view()[cl.nodes_view()[k] as int] == c by {
                        assert(before.uf_view()[cl.nodes_view()[k] as int] == c);
                    }
                } else {
                    assert(self.class_at(c)->0.nodes_view()[0] == n);
                }
            }
        }
        let ghost mid = *self;
        proof {
            assert forall|c: int| 0 <= c < n implies #[trigger] self.class_at(c) == before.class_at(c) by {}
            assert(self.uf_view() =~= before.uf_view().push(n));
            lemma_cover_push(&before, self);
            assert forall|j: int, k: int|
                0 <= j < n && 0 <= k < node_children(self.nodes_view()[j]).len() implies #[trigger] self.parent_listed(
                j,
                node_children(self.nodes_view()[j])[k],
            ) by {
                assert(before.parent_listed(j, node_children(before.nodes_view()[j])[k]));
                assert(children_below(before.nodes_view()[j], n as nat));
                let x = node_children(before.nodes_view()[j])[k];
                assert(self.uf_view()[x as int] == before.uf_view()[x as int]);
                assert(self.classes@[before.uf_view()[x as int] as int] == before.classes@[before.uf_view()[x as int] as int]);
            }
        }
        let mut i: usize = 0;
        while i < children.len()
            invariant
                self.wf_base(),
                forall|j: int, k: int|
                    0 <= j < n && 0 <= k < node_children(self.nodes_view()[j]).len() ==> #[trigger] self.parent_listed(
                        j,
                        node_children(self.nodes_view()[j])[k],
                    ),
                forall|k: int| 0 <= k < i ==> #[trigger] self.parent_listed(n as int, children@[k]),
                0 <= n,
                n + 1 == self.nodes_view().len(),
                children@ == node_children(node@),
                children_below(node@, n as nat),
                self.nodes_view() == mid.nodes_view(),
                self.uf_view() == mid.uf_view(),
                mid.wf_base(),
                mid.lists_cover(),
                self.lists_cover(),
                mid.uf_view()[n as int] == n,
                self.class_at(n as int)->0.nodes_view() == seq![n],
                forall|c: int|
                    0 <= c < self.nodes_view().len() && #[trigger] self.class_at(c) is Some ==> self.class_at(c)->0.nodes_view() == mid.class_at(c)->0.nodes_view(),
                forall|c: int|
                    0 <= c < self.nodes_view().len() && #[trigger] self.class_at(c) is Some ==> self.class_at(c)->0.analysis_view() == mid.class_at(c)->0.analysis_view(),
                i <= children@.len(),
            decreases children@.len() - i,
        {
            assert(node_children(node@)[i as int] < n);
            let ghost pre = *self;
            self.add_parent(children[i], n);
            proof {
                assert forall|j: int, k: int|
                    0 <= j < n && 0 <= k < node_children(self.nodes_view()[j]).len() implies #[trigger] self.parent_listed(
                    j,
                    node_children(self.nodes_view()[j])[k],
                ) by {
                    assert(pre.parent_listed(j, node_children(pre.nodes_view()[j])[k]));
                    assert(children_below(pre.nodes_view()[j], (n + 1) as nat));
                }
                assert forall|k: int| 0 <= k < i + 1 implies #[trigger] self.parent_listed(n as int, children@[k]) by {
                    assert(children@[k] < n);
                    if k < i {
                        assert(pre.parent_listed(n as int, children@[k]));
                    }
                }
                assert forall|c: int|
                    0 <= c < self.nodes_view().len() && #[trigger] self.class_at(c) is Some implies self.class_at(c)->0.nodes_view() == mid.class_at(c)->0.nodes_view() by {
                    if c != pre.uf_view()[children@[i as int] as int] {
                        assert(self.class_at(c) == pre.class_at(c));
                    }
                }
                assert forall|c: int|
                    0 <= c < self.nodes_view().len() && #[trigger] self.class_at(c) is Some implies self.class_at(c)->0.analysis_view() == mid.class_at(c)->0.analysis_view() by {
                    if c != pre.uf_view()[children@[i as int] as int] {
                        assert(self.class_at(c) == pre.class_at(c));
                    }
                }
                assert forall|c: int|
                    0 <= c < mid.nodes_view().len() && mid.uf_view()[c] == c implies #[trigger] self.class_at(c)->0.nodes_view()
                        == mid.class_at(c)->0.nodes_view() by {
                    assert(self.class_at(c) is Some);
                }
                lemma_cover_transfer(&mid, self);
            }
            i = i + 1;
        }
        let cl = Class::from_node(self, n);
        let ghost pre = *self;
        self.classes.set(n, Some(cl));
        proof {
            let m = self.nodes_view().len();
            assert(self.nodes_view() =~= pre.nodes_view());
            assert(self.class_at(n as int) == Some(cl));
            assert(pre.nodes_view() == self.nodes_view() && pre.uf_view() == self.uf_view() && call_ensures(
                A::make,
                (&pre, n),
                self.class_at(n as int)->0.analysis_view(),
            ));
            assert forall|c: int| 0 <= c < m && c != n implies #[trigger] self.class_at(c) == pre.class_at(c) by {
                assert(self.classes@[c] == pre.classes@[c]);
            }
            assert(self.class_at(n as int)->0.nodes_view()[0] == n);
            assert(self.class_at(n as int)->0.parents_view() =~= Seq::<NodeId>::empty());
            assert(self.class_ok(n as int));
            assert forall|c: int|
                0 <= c < mid.nodes_view().len() && mid.uf_view()[c] == c implies #[trigger] self.class_at(c)->0.nodes_view()
                    == mid.class_at(c)->0.nodes_view() by {
                if c != n {
                    assert(pre.class_at(c) is Some);
                }
            }
            lemma_cover_transfer(&mid, self);
            assert forall|c: int| 0 <= c < m && #[trigger] self.class_at(c) is Some implies self.class_ok(c) by {
                if c != n {
                    assert(pre.class_ok(c));
                }
            }
            assert(before.uf_view().push(n) =~= self.uf_view());
            assert forall|j: int, k: int|
                0 <= j < m && 0 <= k < node_children(self.nodes_view()[j]).len() implies #[trigger] self.parent_listed(
                j,
                node_children(self.nodes_view()[j])[k],
            ) by {
                let x = node_children(self.nodes_view()[j])[k];
                if j < n {
                    assert(pre.parent_listed(j, node_children(pre.nodes_view()[j])[k]));
                    assert(children_below(pre.nodes_view()[j], m));
                    assert(children_below(before.nodes_view()[j], n as nat));
                } else {
                    assert(pre.parent_listed(n as int, children@[k]));
                }
                assert(x < n);
                assert(self.uf_view()[x as int] < n);
                assert(self.classes@[self.uf_view()[x as int] as int] == pre.classes@[self.uf_view()[x as int] as int]);
            }
            if before.congruence_closed() {
                let uf0 = before.uf_view();
                let uf1 = self.uf_view();
                assert forall|i: int, j: int| 0 <= i < m && 0 <= j < m && #[trigger] self.congruent(i, j) implies uf1[i]
                    == uf1[j] by {
                    let vi = self.nodes_view()[i];
                    let vj = self.nodes_view()[j];
                    assert(children_below(vi, n as nat)) by {
                        if i < n {
                            assert(vi == before.nodes_view()[i]);
                            assert(children_below(before.nodes_view()[i], n as nat));
                        }
                    }
                    assert(children_below(vj, n as nat)) by {
                        if j < n {
                            assert(vj == before.nodes_view()[j]);
                            assert(children_below(before.nodes_view()[j], n as nat));
                        }
                    }
                    lemma_canon_prefix(vi, uf0, uf1);
                    lemma_canon_prefix(vj, uf0, uf1);
                    if i < n && j < n {
                        assert(before.congruent(i, j));
                    } else if i < n {
                        assert(vj == node@);
                        lemma_first_node_exists(before.nodes_view(), uf0, node@, n as int, i);
                    } else if j < n {
                        assert(vi == node@);
                        lemma_first_node_exists(before.nodes_view(), uf0, node@, n as int, j);
                    }
                }
            }
        }
        proof {
            let new_data = self.class_at(n as int)->0.analysis_view();
            assert(call_ensures(A::make, (&pre, n), new_data));
            assert(make_result::<A>(new_data));
            assert forall|c: int| 0 <= c < self.nodes_view().len() && #[trigger] self.class_at(c) is Some implies (c
                < before.nodes_view().len() && before.class_at(c) is Some && self.class_at(c)->0.analysis_view()
                == before.class_at(c)->0.analysis_view()) || merge_result::<A>(self.class_at(c)->0.analysis_view())
                || make_result::<A>(self.class_at(c)->0.analysis_view()) by {
                if c < n {
                    assert(before.class_at(c) is Some);
                }
            }
        }
        Seen::New(n)
    }

    /// Replaces the children of node `node_id` by their representatives.
    fn canonicalize_node(&mut self, node_id: NodeId)
        requires
            old(self).wf(),
            node_id < old(self).nodes_view().len(),
        ensures
            final(self).wf(),
            final(self).merged_from(old(self)),
            final(self).uf_view() == old(self).uf_view(),
            final(self).nodes_view() == old(self).nodes_view().update(
                node_id as int,
                canon_node(old(self).nodes_view()[node_id as int], old(self).uf_view()),
            ),
            forall|c: int| 0 <= c < old(self).nodes_view().len() ==> #[trigger] final(self).class_at(c) == old(self).class_at(c),
    {
        let ghost before = *self;
        assert(self.nodes_view()[node_id as int] == self.nodes@[node_id as int]@);
        assert(children_below(self.nodes_view()[node_id as int], self.nodes_view().len()));
        let canon = self.canonical_node(&self.nodes[node_id]);
        self.nodes.set(node_id, canon);
        proof {
            let n = self.nodes_view().len();
            assert(self.nodes_view() =~= before.nodes_view().update(
                node_id as int,
                canon_node(before.nodes_view()[node_id as int], before.uf_view()),
            ));
            lemma_canon_idem(before.nodes_view()[node_id as int], before.uf_view());
            assert forall|c: int| 0 <= c < n implies #[trigger] self.class_at(c) == before.class_at(c) by {}
            assert forall|i: int| 0 <= i < n implies #[trigger] canon_node(self.nodes_view()[i], self.uf_view()) == canon_node(
                before.nodes_view()[i],
                before.uf_view(),
            ) by {}
            lemma_cover_transfer(&before, self);
            assert forall|i: int| 0 <= i < n implies children_below(#[trigger] self.nodes_view()[i], n) by {
                if i != node_id {
                    assert(children_below(before.nodes_view()[i], n));
                }
            }
            assert forall|c: int| 0 <= c < n && #[trigger] self.class_at(c) is Some implies self.class_ok(c) by {
                assert(before.class_ok(c));
            }
            assert forall|j: int, k: int|
                0 <= j < n && 0 <= k < node_children(self.nodes_view()[j]).len() implies #[trigger] self.parent_listed(
                j,
                node_children(self.nodes_view()[j])[k],
            ) by {
                assert(before.parent_listed(j, node_children(before.nodes_view()[j])[k]));
                if j == node_id {
                    let x = node_children(before.nodes_view()[j])[k];
                    assert(children_below(before.nodes_view()[j], n));
                    assert(node_children(self.nodes_view()[j])[k] == before.uf_view()[x as int]);
                }
            }
        }
    }

    /// Replaces the children of every node of class `class_id` by their representatives.
    fn make_class_canonical(&mut self, class_id: ClassId)
        requires
            old(self).wf(),
            class_id < old(self).nodes_view().len(),
        ensures
            final(self).wf(),
            final(self).merged_from(old(self)),
            final(self).uf_view() == old(self).uf_view(),
            forall|c: int| 0 <= c < old(self).nodes_view().len() ==> #[trigger] final(self).class_at(c) == old(self).class_at(c),
            final(self).nodes_view().len() == old(self).nodes_view().len(),
            forall|x: int|
                0 <= x < old(self).nodes_view().len() ==> #[trigger] final(self).nodes_view()[x] == (if old(
                    self,
                ).class_at(old(self).uf_view()[class_id as int] as int)->0.nodes_view().contains(x as NodeId) {
                    canon_node(old(self).nodes_view()[x], old(self).uf_view())
                } else {
                    old(self).nodes_view()[x]
                }),
    {
        let ghost before = *self;
        let ids = node::copy_ids(self.nodes(class_id));
        let ghost c = self.uf_view()[class_id as int];
        assert(self.class_ok(c as int));
        let mut i: usize = 0;
        while i < ids.len()
            invariant
                self.wf(),
                before.wf(),
                self.merged_from(&before),
                self.uf_view() == before.uf_view(),
                forall|d: int| 0 <= d < before.nodes_view().len() ==> #[trigger] self.class_at(d) == before.class_at(d),
                forall|k: int| 0 <= k < ids@.len() ==> #[trigger] ids@[k] < before.nodes_view().len(),
                i <= ids@.len(),
                ids@ == before.class_at(c as int)->0.nodes_view(),
                ids@.no_duplicates(),
                self.nodes_view().len() == before.nodes_view().len(),
                forall|x: int|
                    0 <= x < before.nodes_view().len() ==> #[trigger] self.nodes_view()[x] == (if ids@.take(i as int).contains(
                        x as NodeId,
                    ) {
                        canon_node(before.nodes_view()[x], before.uf_view())
                    } else {
                        before.nodes_view()[x]
                    }),
            decreases ids@.len() - i,
        {
            let ghost pre = *self;
            self.canonicalize_node(ids[i]);
            proof {
                lemma_merged_trans(&before, &pre, self);
                let p = ids@[i as int];
                before.lemma_size_fits();
                assert(ids@.take(i + 1) =~= ids@.take(i as int).push(p));
                assert(!ids@.take(i as int).contains(p)) by {
                    if ids@.take(i as int).contains(p) {
                        let k = choose|k: int| 0 <= k < i && #[trigger] ids@.take(i as int)[k] == p;
                        assert(ids@[k] == ids@[i as int]);
                    }
                }
                assert forall|x: int| 0 <= x < before.nodes_view().len() implies #[trigger] self.nodes_view()[x] == (if ids@.take(
                    i + 1,
                ).contains(x as NodeId) {
                    canon_node(before.nodes_view()[x], before.uf_view())
                } else {
                    before.nodes_view()[x]
                }) by {
                    assert(pre.nodes_view()[x] == (if ids@.take(i as int).contains(x as NodeId) {
                        canon_node(before.nodes_view()[x], before.uf_view())
                    } else {
                        before.nodes_view()[x]
                    }));
                    if x == p {
                        assert(ids@.take(i + 1).contains(x as NodeId)) by {
                            assert(ids@.take(i + 1)[i as int] == p);
                        }
                    } else {
                        if ids@.take(i + 1).contains(x as NodeId) {
                            let k = choose|k: int| 0 <= k < i + 1 && #[trigger] ids@.take(i + 1)[k] == x as NodeId;
                            assert(k < i);
                            assert(ids@.take(i as int)[k] == x as NodeId);
                        }
                    }
                }
            }
            i = i + 1;
        }
        proof {
            assert forall|k: int| 0 <= k < ids@.len() implies #[trigger] ids@[k] < before.nodes_view().len() by {
                assert(before.class_at(c as int)->0.nodes_view()[k] < before.nodes_view().len());
            }
            assert(ids@.take(ids@.len() as int) =~= ids@);
        }
    }

    /// Merges the classes of `class_1_id` and `class_2_id`, then restores the
    /// invariants of the e-graph, merging further classes whose nodes became
    /// equal. Returns `Old(id)` with the representative of both if they were one
    /// class already (nothing changes then), or `New(id)` with the former
    /// representative of `class_2_id`, which represents the merged class. No
    /// classes merge beyond what the pair and congruence force: any labelling of
    /// the nodes that is a congruence, keeps the old classes together and gives
    /// the two classes one label, keeps the new classes together too.
    pub fn merge_classes(&mut self, class_1_id: ClassId, class_2_id: ClassId) -> (r: Seen<ClassId>)
        requires
            old(self).wf(),
            class_1_id < old(self).nodes_view().len(),
            class_2_id < old(self).nodes_view().len(),
        ensures
            final(self).wf(),
            final(self).merged_from(old(self)),
            final(self).uf_view()[class_1_id as int] == final(self).uf_view()[class_2_id as int],
            final(self).class_count_spec() <= old(self).class_count_spec(),
            old(self).uf_view()[class_1_id as int] == old(self).uf_view()[class_2_id as int] ==> r == Seen::Old(
                old(self).uf_view()[class_1_id as int],
            ) && *final(self) == *old(self),
            old(self).uf_view()[class_1_id as int] != old(self).uf_view()[class_2_id as int] ==> r == Seen::New(
                old(self).uf_view()[class_2_id as int],
            ) && final(self).class_count_spec() < old(self).class_count_spec(),
            final(self).congruences_from(old(self)),
            old(self).congruence_closed() ==> final(self).congruence_closed(),
            final(self).analysis_from(old(self)),
            forall|p: Seq<int>|
                labels_closed(old(self).nodes_view(), p) && labels_refine(old(self).uf_view(), p) && p[class_1_id as int]
                    == p[class_2_id as int] ==> #[trigger] labels_refine(final(self).uf_view(), p),
        decreases old(self).class_count_spec(), 0int,
    {
        let ghost before = *self;
        let c1 = self.union_find.find_no_compress(class_1_id);
        let c2 = self.union_find.find_no_compress(class_2_id);
        if c1 == c2 {
            return Seen::Old(c1);
        }
        let ghost n = self.nodes_view().len();
        let ghost uf = self.uf_view();
        assert(uf[c1 as int] == c1 && uf[c2 as int] == c2);
        assert(self.class_at(c1 as int) == self.classes@[c1 as int]);
        assert(self.class_at(c2 as int) == self.classes@[c2 as int]);
        assert(self.class_ok(c1 as int) && self.class_ok(c2 as int));
        self.union_find.union(c1, c2);
        let mut slot_1: Option<Class<A>> = None;
        std::mem::swap(&mut slot_1, &mut self.classes[c1]);
        let class_1 = slot_1.unwrap();
        let mut slot_2: Option<Class<A>> = None;
        std::mem::swap(&mut slot_2, &mut self.classes[c2]);
        let mut class_2 = slot_2.unwrap();
        let ghost nodes_1 = class_1.nodes_view();
        let ghost nodes_2 = class_2.nodes_view();
        let ghost parents_1 = class_1.parents_view();
        let ghost parents_2 = class_2.parents_view();
        let ghost data_1 = class_1.analysis_view();
        class_2.merge(class_1);
        proof {
            let cl = choose|cl: A|
                cloned::<A>(before.class_at(c2 as int)->0.analysis_view(), cl) && #[trigger] call_ensures(
                    A::merge,
                    (cl, data_1),
                    class_2.analysis_view(),
                );
            assert(merge_result::<A>(class_2.analysis_view()));
        }
        self.classes.set(c2, Some(class_2));
        proof {
            self.lemma_roots();
            let uf2 = self.uf_view();
            assert(self.nodes_view() =~= before.nodes_view());
            assert forall|k: int| 0 <= k < n implies #[trigger] uf2[k] == (if uf[k] == c1 {
                c2
            } else {
                uf[k]
            }) by {}
            assert forall|c: int| 0 <= c < n implies (#[trigger] self.class_at(c) is Some <==> uf2[c] == c) by {
                if c != c1 && c != c2 {
                    assert(self.class_at(c) == before.class_at(c));
                }
            }
            // the merged class
            let merged = self.class_at(c2 as int)->0;
            assert(merged.nodes_view() == nodes_1.add(nodes_2) || merged.nodes_view() == nodes_2 + nodes_1);
            assert forall|k: int| 0 <= k < merged.nodes_view().len() implies #[trigger] merged.nodes_view()[k] < n
                && uf2[merged.nodes_view()[k] as int] == c2 by {
                if k < nodes_2.len() {
                    assert(merged.nodes_view()[k] == nodes_2[k]);
                } else {
                    assert(merged.nodes_view()[k] == nodes_1[k - nodes_2.len()]);
                }
            }
            assert forall|i: int, j: int| 0 <= i < j < merged.nodes_view().len() implies merged.nodes_view()[i]
                != merged.nodes_view()[j] by {
                if j < nodes_2.len() {
                    assert(merged.nodes_view()[i] == nodes_2[i]);
                    assert(merged.nodes_view()[j] == nodes_2[j]);
                } else if i >= nodes_2.len() {
                    assert(merged.nodes_view()[i] == nodes_1[i - nodes_2.len()]);
                    assert(merged.nodes_view()[j] == nodes_1[j - nodes_2.len()]);
                } else {
                    assert(merged.nodes_view()[i] == nodes_2[i]);
                    assert(merged.nodes_view()[j] == nodes_1[j - nodes_2.len()]);
                    assert(uf[nodes_2[i] as int] == c2);
                    assert(uf[nodes_1[j - nodes_2.len()] as int] == c1);
                }
            }
            class::lemma_union_list(parents_2, parents_1);
            assert forall|k: int| 0 <= k < merged.parents_view().len() implies #[trigger] merged.parents_view()[k] < n by {
                let x = merged.parents_view()[k];
                assert(merged.parents_view().contains(x));
                if parents_2.contains(x) {
                    let j = choose|j: int| 0 <= j < parents_2.len() && parents_2[j] == x;
                    assert(parents_2[j] < n);
                } else {
                    let j = choose|j: int| 0 <= j < parents_1.len() && parents_1[j] == x;
                    assert(parents_1[j] < n);
                }
            }
            assert(self.class_ok(c2 as int));
            assert forall|c: int| 0 <= c < n && #[trigger] self.class_at(c) is Some implies self.class_ok(c) by {
                if c != c2 {
                    assert(self.class_at(c) == before.class_at(c));
                    assert(before.class_ok(c));
                    let cl = self.class_at(c)->0;
                    assert forall|k: int| 0 <= k < cl.nodes_view().len() implies #[trigger] cl.nodes_view()[k] < n
                        && uf2[cl.nodes_view()[k] as int] == c by {
                        assert(uf[cl.nodes_view()[k] as int] == c);
                    }
                }
            }
            assert forall|i: int| 0 <= i < n implies children_below(#[trigger] self.nodes_view()[i], n) by {
                assert(children_below(before.nodes_view()[i], n));
            }
            assert forall|i: int| 0 <= i < n implies (#[trigger] uf2[i] == i <==> (uf[i] == i && i != c1)) by {}
            lemma_roots_count_union(uf, uf2, c1, c2, n as int);
            assert forall|i: int, j: int|
                0 <= i < n && 0 <= j < n && #[trigger] uf[i] == #[trigger] uf[j] implies uf2[i] == uf2[j] by {}
            assert forall|j: int, k: int|
                0 <= j < n && 0 <= k < node_children(self.nodes_view()[j]).len() implies #[trigger] self.parent_listed(
                j,
                node_children(self.nodes_view()[j])[k],
            ) by {
                let x = node_children(before.nodes_view()[j])[k];
                assert(before.parent_listed(j, x));
                assert(children_below(before.nodes_view()[j], n));
                let d = uf[x as int];
                if d == c1 {
                    assert(parents_1.contains(j as NodeId));
                } else if d == c2 {
                    assert(parents_2.contains(j as NodeId));
                } else {
                    assert(self.classes@[d as int] == before.classes@[d as int]);
                }
            }
            assert(nodes_2 == before.class_at(c2 as int)->0.nodes_view());
            assert(nodes_1 == before.class_at(c1 as int)->0.nodes_view());
            assert forall|c: int| 0 <= c < n && c != c1 && c != c2 implies #[trigger] self.class_at(c) == before.class_at(c) by {
                assert(self.classes@[c] == before.classes@[c]);
            }
            lemma_cover_union(&before, self, c1, c2);
        }
        let ghost mid = *self;
        proof {
            let uf2 = self.uf_view();
            let merged = self.class_at(c2 as int)->0;
            assert(self.merged_from(&before));
            assert forall|i: int, j: int|
                0 <= i < n && 0 <= j < n && #[trigger] self.congruent(i, j) && uf2[i] != uf2[j] && !before.congruent(i, j)
                implies merged.parents_view().contains(i as NodeId) && merged.parents_view().contains(j as NodeId) by {
                let a = before.nodes_view()[i];
                let b = before.nodes_view()[j];
                assert(children_below(a, n));
                assert(children_below(b, n));
                lemma_union_congruence(a, b, uf, uf2, c1, c2);
                let k = choose|k: int|
                    0 <= k < node_children(a).len() && k < node_children(b).len() && ((uf[node_children(a)[k] as int] == c1
                        && uf[node_children(b)[k] as int] == c2) || (uf[node_children(a)[k] as int] == c2 && uf[node_children(
                        b,
                    )[k] as int] == c1));
                assert(before.parent_listed(i, node_children(a)[k]));
                assert(before.parent_listed(j, node_children(b)[k]));
                assert(before.classes@[c1 as int] == before.class_at(c1 as int));
                assert(before.classes@[c2 as int] == before.class_at(c2 as int));
                if uf[node_children(a)[k] as int] == c1 {
                    assert(parents_1.contains(i as NodeId));
                    assert(parents_2.contains(j as NodeId));
                } else {
                    assert(parents_2.contains(i as NodeId));
                    assert(parents_1.contains(j as NodeId));
                }
            }
        }
        proof {
            assert forall|c: int| 0 <= c < mid.nodes_view().len() && #[trigger] mid.class_at(c) is Some implies (c
                < before.nodes_view().len() && before.class_at(c) is Some && mid.class_at(c)->0.analysis_view()
                == before.class_at(c)->0.analysis_view()) || merge_result::<A>(mid.class_at(c)->0.analysis_view())
                || make_result::<A>(mid.class_at(c)->0.analysis_view()) by {
                if c != c2 && c != c1 {
                    assert(mid.classes@[c] == before.classes@[c]);
                    assert(mid.class_at(c) == before.class_at(c));
                }
            }
        }
        self.rebuild_class(c2, Ghost(before));
        proof {
            assert forall|k: int| 0 <= k < n implies #[trigger] mid.uf_view()[k] == (if uf[k] == c1 {
                c2
            } else {
                uf[k]
            }) by {}
            assert forall|p: Seq<int>|
                labels_closed(before.nodes_view(), p) && labels_refine(before.uf_view(), p) && p[class_1_id as int]
                    == p[class_2_id as int] implies #[trigger] labels_refine(self.uf_view(), p) by {
                let muf = mid.uf_view();
                assert forall|i: int, j: int| 0 <= i < muf.len() && 0 <= j < muf.len() && #[trigger] muf[i] == #[trigger] muf[j] implies p[i]
                    == p[j] by {
                    if uf[i] == c1 && uf[j] != c1 {
                        assert(uf[j] == c2);
                        assert(p[i] == p[class_1_id as int]);
                        assert(p[j] == p[class_2_id as int]);
                    } else if uf[i] != c1 && uf[j] == c1 {
                        assert(uf[i] == c2);
                        assert(p[i] == p[class_2_id as int]);
                        assert(p[j] == p[class_1_id as int]);
                    } else {
                        assert(uf[i] == uf[j]);
                    }
                }
                lemma_labels_closed_merged(&before, &mid, p);
            }
            Self::lemma_analysis_from_trans(&before, &mid, self);
            lemma_merged_trans(&before, &mid, self);
            if before.congruence_closed() {
                lemma_congruences_closed(&before, self);
            }
        }
        Seen::New(c2)
    }

    /// Restores the invariants around class `class_id` after it absorbed another
    /// class: canonicalizes its nodes, drops those equal to a later node of the
    /// class, canonicalizes its parents, and merges the classes of parents that
    /// became equal.
    #[verifier::spinoff_prover]
    fn rebuild_class(&mut self, class_id: ClassId, base: Ghost<Self>)
        requires
            old(self).wf(),
            class_id < old(self).nodes_view().len(),
            old(self).uf_view()[class_id as int] == class_id,
            base@.wf(),
            old(self).merged_from(&base@),
            forall|i: int, j: int|
                0 <= i < old(self).nodes_view().len() && 0 <= j < old(self).nodes_view().len() && #[trigger] old(
                    self,
                ).congruent(i, j) && old(self).uf_view()[i] != old(self).uf_view()[j] && !base@.congruent(i, j)
                    ==> old(self).class_at(class_id as int)->0.parents_view().contains(i as NodeId) && old(self).class_at(
                    class_id as int,
                )->0.parents_view().contains(j as NodeId),
        ensures
            final(self).wf(),
            final(self).merged_from(old(self)),
            final(self).class_count_spec() <= old(self).class_count_spec(),
            final(self).congruences_from(&base@),
            final(self).analysis_from(old(self)),
            forall|p: Seq<int>|
                labels_closed(old(self).nodes_view(), p) && labels_refine(old(self).uf_view(), p) ==> #[trigger] labels_refine(
                    final(self).uf_view(),
                    p,
                ),
        decreases old(self).class_count_spec(), 1int,
    {
        let ghost before = *self;
        let ghost n = self.nodes_view().len();
        self.make_class_canonical(class_id);
        proof {
            lemma_same_uf_congruent(&before, self);
            Self::lemma_analysis_same_classes(&before, self);
        }
        // Drop nodes equal to a later node of the class.
        let ids = node::copy_ids(self.nodes(class_id));
        proof {
            assert(self.class_ok(class_id as int));
        }
        let mut to_remove: Vec<NodeId> = Vec::new();
        let mut a: usize = 0;
        while a < ids.len()
            invariant
                self.wf(),
                n == self.nodes_view().len(),
                forall|k: int| 0 <= k < ids@.len() ==> #[trigger] ids@[k] < n,
                a <= ids@.len(),
                forall|t: int| 0 <= t < to_remove@.len() ==> #[trigger] has_larger_twin(self.nodes_view(), ids@, to_remove@[t]),
            decreases ids@.len() - a,
        {
            let mut b: usize = 0;
            while b < ids.len()
                invariant
                    self.wf(),
                    n == self.nodes_view().len(),
                    forall|k: int| 0 <= k < ids@.len() ==> #[trigger] ids@[k] < n,
                    a < ids@.len(),
                    b <= ids@.len(),
                    forall|t: int| 0 <= t < to_remove@.len() ==> #[trigger] has_larger_twin(self.nodes_view(), ids@, to_remove@[t]),
                decreases ids@.len() - b,
            {
                let x = ids[a];
                let y = ids[b];
                if x < y && self.nodes[x].same_as(&self.nodes[y]) {
                    let ghost tr0 = to_remove@;
                    proof {
                        assert(self.nodes@[x as int]@ == self.nodes_view()[x as int]);
                        assert(self.nodes@[y as int]@ == self.nodes_view()[y as int]);
                        assert(has_larger_twin(self.nodes_view(), ids@, x)) by {
                            assert(ids@[b as int] == y);
                        }
                    }
                    to_remove.push(x);
                    proof {
                        assert forall|t: int| 0 <= t < to_remove@.len() implies #[trigger] has_larger_twin(self.nodes_view(), ids@, to_remove@[t]) by {
                            if t < tr0.len() {
                                assert(to_remove@[t] == tr0[t]);
                            }
                        }
                    }
                }
                b = b + 1;
            }
            a = a + 1;
        }
        proof {
            assert forall|k: int| 0 <= k < ids@.len() implies #[trigger] ids@[k] < n by {
                assert(self.class_at(class_id as int)->0.nodes_view()[k] < n);
            }
        }
        let ghost pre_remove = *self;
        assert(self.class_at(class_id as int) == self.classes@[class_id as int]);
        let mut slot: Option<Class<A>> = None;
        std::mem::swap(&mut slot, &mut self.classes[class_id]);
        let mut cl = slot.unwrap();
        cl.retain_nodes(&to_remove);
        self.classes.set(class_id, Some(cl));
        proof {
            assert(self.nodes_view() =~= pre_remove.nodes_view());
            let old_nodes = pre_remove.class_at(class_id as int)->0.nodes_view();
            let new_nodes = self.class_at(class_id as int)->0.nodes_view();
            assert(pre_remove.class_ok(class_id as int));
            lemma_filter_no_dups(old_nodes, to_remove@);
            assert forall|k: int| 0 <= k < new_nodes.len() implies #[trigger] new_nodes[k] < n
                && self.uf_view()[new_nodes[k] as int] == class_id by {
                assert(new_nodes.contains(new_nodes[k]));
                assert(old_nodes.contains(new_nodes[k]));
                let j = choose|j: int| 0 <= j < old_nodes.len() && old_nodes[j] == new_nodes[k];
                assert(old_nodes[j] < n);
            }
            assert(self.class_ok(class_id as int));
            assert forall|c: int| 0 <= c < n && #[trigger] self.class_at(c) is Some implies self.class_ok(c) by {
                if c != class_id {
                    assert(self.class_at(c) == pre_remove.class_at(c));
                    assert(pre_remove.class_ok(c));
                }
            }
            assert forall|c: int| 0 <= c < n implies (#[trigger] self.class_at(c) is Some <==> self.uf_view()[c] == c) by {
                if c != class_id {
                    assert(self.class_at(c) == pre_remove.class_at(c));
                }
            }
            assert forall|i: int| 0 <= i < n implies children_below(#[trigger] self.nodes_view()[i], n) by {
                assert(children_below(pre_remove.nodes_view()[i], n));
            }
            assert forall|j: int, k: int|
                0 <= j < n && 0 <= k < node_children(self.nodes_view()[j]).len() implies #[trigger] self.parent_listed(
                j,
                node_children(self.nodes_view()[j])[k],
            ) by {
                let x = node_children(pre_remove.nodes_view()[j])[k];
                assert(pre_remove.parent_listed(j, x));
                assert(children_below(pre_remove.nodes_view()[j], n));
                let d = self.uf_view()[x as int];
                if d != class_id {
                    assert(self.classes@[d as int] == pre_remove.classes@[d as int]);
                }
            }
            assert(self.merged_from(&before));
            assert forall|c: int| 0 <= c < self.nodes_view().len() && #[trigger] self.class_at(c) is Some implies (c
                < pre_remove.nodes_view().len() && pre_remove.class_at(c) is Some && self.class_at(c)->0.analysis_view()
                == pre_remove.class_at(c)->0.analysis_view()) || merge_result::<A>(self.class_at(c)->0.analysis_view())
                || make_result::<A>(self.class_at(c)->0.analysis_view()) by {
                if c != class_id {
                    assert(self.class_at(c) == pre_remove.class_at(c));
                }
            }
            Self::lemma_analysis_from_trans(&before, &pre_remove, self);
            assert(ids@ == old_nodes);
            assert forall|c: int| 0 <= c < n && c != class_id implies #[trigger] self.class_at(c) == pre_remove.class_at(c) by {
                assert(self.classes@[c] == pre_remove.classes@[c]);
            }
            lemma_cover_retain(&pre_remove, self, class_id, to_remove@);
        }
        // Canonicalize the parents.
        let parents = node::copy_ids(self.parents(class_id));
        proof {
            assert(self.class_ok(class_id as int));
            assert forall|k: int| 0 <= k < parents@.len() implies #[trigger] parents@[k] < n by {
                assert(self.class_at(class_id as int)->0.parents_view()[k] < n);
            }
        }
        proof {
            assert(parents@ == before.class_at(class_id as int)->0.parents_view());
        }
        let mut i: usize = 0;
        while i < parents.len()
            invariant
                self.wf(),
                before.wf(),
                n == self.nodes_view().len(),
                self.merged_from(&before),
                self.uf_view() == before.uf_view(),
                forall|k: int| 0 <= k < parents@.len() ==> #[trigger] parents@[k] < n,
                i <= parents@.len(),
                forall|t: int|
                    0 <= t < i ==> #[trigger] self.nodes_view()[parents@[t] as int] == canon_node(
                        self.nodes_view()[parents@[t] as int],
                        self.uf_view(),
                    ),
                self.analysis_from(&before),
            decreases parents@.len() - i,
        {
            let ghost pre = *self;
            self.canonicalize_node(parents[i]);
            proof {
                Self::lemma_analysis_same_classes(&pre, self);
                Self::lemma_analysis_from_trans(&before, &pre, self);
                lemma_merged_trans(&before, &pre, self);
                let p = parents@[i as int];
                assert(children_below(pre.nodes_view()[p as int], n));
                lemma_canon_idem(pre.nodes_view()[p as int], pre.uf_view());
                assert forall|t: int| 0 <= t < i + 1 implies #[trigger] self.nodes_view()[parents@[t] as int] == canon_node(
                    self.nodes_view()[parents@[t] as int],
                    self.uf_view(),
                ) by {
                    if parents@[t] != p {
                        assert(self.nodes_view()[parents@[t] as int] == pre.nodes_view()[parents@[t] as int]);
                    }
                }
            }
            i = i + 1;
        }
        proof {
            lemma_same_uf_congruent(&before, self);
        }
        // Collect the classes of parents that became equal.
        let ghost s3 = *self;
        let ghost views = self.nodes_view();
        let ghost uf = self.uf_view();
        assert(s3.merged_from(&before) && s3.uf_view() == before.uf_view() && s3.wf());
        assert(forall|t: int| 0 <= t < parents@.len() ==> #[trigger] views[parents@[t] as int] == canon_node(views[parents@[t] as int], uf));
        let mut to_merge: Vec<(ClassId, ClassId)> = Vec::new();
        let mut a: usize = 0;
        while a < parents.len()
            invariant
                self.wf(),
                *self == s3,
                views == self.nodes_view(),
                uf == self.uf_view(),
                n == self.nodes_view().len(),
                forall|k: int| 0 <= k < parents@.len() ==> #[trigger] parents@[k] < n,
                forall|k: int| 0 <= k < to_merge@.len() ==> #[trigger] to_merge@[k].0 < n && to_merge@[k].1 < n,
                a <= parents@.len(),
                forall|a1: int, b1: int|
                    0 <= a1 < a && 0 <= b1 < parents@.len() ==> #[trigger] pair_collected(views, uf, parents@, to_merge@, a1, b1),
                forall|t: int| 0 <= t < to_merge@.len() ==> #[trigger] pair_of_equal_nodes(views, uf, to_merge@[t]),
            decreases parents@.len() - a,
        {
            let mut b: usize = 0;
            while b < parents.len()
                invariant
                    self.wf(),
                    *self == s3,
                    views == self.nodes_view(),
                    uf == self.uf_view(),
                    n == self.nodes_view().len(),
                    forall|k: int| 0 <= k < parents@.len() ==> #[trigger] parents@[k] < n,
                    forall|k: int| 0 <= k < to_merge@.len() ==> #[trigger] to_merge@[k].0 < n && to_merge@[k].1 < n,
                    a < parents@.len(),
                    b <= parents@.len(),
                    forall|a1: int, b1: int|
                        0 <= a1 < a && 0 <= b1 < parents@.len() ==> #[trigger] pair_collected(views, uf, parents@, to_merge@, a1, b1),
                    forall|b1: int| 0 <= b1 < b ==> #[trigger] pair_collected(views, uf, parents@, to_merge@, a as int, b1),
                    forall|t: int| 0 <= t < to_merge@.len() ==> #[trigger] pair_of_equal_nodes(views, uf, to_merge@[t]),
                decreases parents@.len() - b,
            {
                let p = parents[a];
                let q = parents[b];
                if p < q {
                    let class_p = self.containing_class(p);
                    let class_q = self.containing_class(q);
                    assert(self.nodes@[p as int]@ == views[p as int]);
                    assert(self.nodes@[q as int]@ == views[q as int]);
                    if class_p != class_q && self.nodes[p].same_as(&self.nodes[q]) {
                        let ghost tm0 = to_merge@;
                        to_merge.push((class_p, class_q));
                        proof {
                            assert(to_merge@[tm0.len() as int] == (class_p, class_q));
                            assert(uf[p as int] == class_p && uf[q as int] == class_q && views[p as int] == views[q as int]);
                            assert(pair_of_equal_nodes(views, uf, (class_p, class_q)));
                            assert forall|t: int| 0 <= t < to_merge@.len() implies #[trigger] pair_of_equal_nodes(views, uf, to_merge@[t]) by {
                                if t < tm0.len() {
                                    assert(to_merge@[t] == tm0[t]);
                                }
                            }
                            assert forall|a1: int, b1: int|
                                0 <= a1 < a && 0 <= b1 < parents@.len() implies #[trigger] pair_collected(views, uf, parents@, to_merge@, a1, b1) by {
                                assert(pair_collected(views, uf, parents@, tm0, a1, b1));
                                let pp = parents@[a1];
                                let qq = parents@[b1];
                                if pp < qq && uf[pp as int] != uf[qq as int] && views[pp as int] == views[qq as int] {
                                    lemma_merge_listed_push(tm0, (class_p, class_q), uf[pp as int], uf[qq as int]);
                                }
                            }
                            assert forall|b1: int| 0 <= b1 < b implies #[trigger] pair_collected(views, uf, parents@, to_merge@, a as int, b1) by {
                                assert(pair_collected(views, uf, parents@, tm0, a as int, b1));
                                let pp = parents@[a as int];
                                let qq = parents@[b1];
                                if pp < qq && uf[pp as int] != uf[qq as int] && views[pp as int] == views[qq as int] {
                                    lemma_merge_listed_push(tm0, (class_p, class_q), uf[pp as int], uf[qq as int]);
                                }
                            }
                        }
                    }
                }
                b = b + 1;
            }
            a = a + 1;
        }
        proof {
            let base_g = base@;
            assert forall|i: int, j: int|
                0 <= i < n && 0 <= j < n && #[trigger] self.congruent(i, j) && self.uf_view()[i] != self.uf_view()[j]
                    && !base_g.congruent(i, j) implies merge_pending(to_merge@, 0, self.uf_view(), i, j) by {
                assert(before.congruent(i, j));
                let ps = before.class_at(class_id as int)->0.parents_view();
                assert(ps.contains(i as NodeId) && ps.contains(j as NodeId));
                self.lemma_size_fits();
                let a1 = choose|a1: int| 0 <= a1 < parents@.len() && parents@[a1] == i as NodeId;
                let b1 = choose|b1: int| 0 <= b1 < parents@.len() && parents@[b1] == j as NodeId;
                assert(parents@[a1] as int == i);
                assert(parents@[b1] as int == j);
                assert(uf[uf[i] as int] == uf[i]);
                assert(uf[uf[j] as int] == uf[j]);
                assert(views[parents@[a1] as int] == canon_node(views[parents@[a1] as int], uf));
                assert(views[parents@[b1] as int] == canon_node(views[parents@[b1] as int], uf));
                assert(views[i] == views[j]);
                if i < j {
                    assert(pair_collected(views, uf, parents@, to_merge@, a1, b1));
                    let t = choose|t: int| 0 <= t < to_merge@.len() && #[trigger] to_merge@[t] == (uf[i], uf[j]);
                    assert(pending_at(to_merge@[t], uf, i, j));
                } else {
                    assert(pair_collected(views, uf, parents@, to_merge@, b1, a1));
                    let t = choose|t: int| 0 <= t < to_merge@.len() && #[trigger] to_merge@[t] == (uf[j], uf[i]);
                    assert(pending_at(to_merge@[t], uf, i, j));
                }
            }
        }
        // Merge them.
        let mut k: usize = 0;
        while k < to_merge.len()
            invariant
                self.wf(),
                before.wf(),
                n == self.nodes_view().len(),
                self.merged_from(&before),
                self.class_count_spec() <= before.class_count_spec(),
                before.class_count_spec() == old(self).class_count_spec(),
                forall|j: int| 0 <= j < to_merge@.len() ==> #[trigger] to_merge@[j].0 < n && to_merge@[j].1 < n,
                k <= to_merge@.len(),
                n == base@.nodes_view().len(),
                forall|i: int, j: int|
                    0 <= i < n && 0 <= j < n && #[trigger] self.congruent(i, j) && self.uf_view()[i] != self.uf_view()[j]
                        && !base@.congruent(i, j) ==> merge_pending(to_merge@, k as int, self.uf_view(), i, j),
                self.analysis_from(&before),
                s3.merged_from(&before),
                s3.uf_view() == before.uf_view(),
                s3.wf(),
                views == s3.nodes_view(),
                uf == s3.uf_view(),
                forall|t: int| 0 <= t < to_merge@.len() ==> #[trigger] pair_of_equal_nodes(views, uf, to_merge@[t]),
                forall|p: Seq<int>|
                    labels_closed(before.nodes_view(), p) && labels_refine(before.uf_view(), p) ==> #[trigger] labels_refine(
                        self.uf_view(),
                        p,
                    ),
            decreases to_merge@.len() - k,
        {
            let (x, y) = to_merge[k];
            let ghost pre = *self;
            self.merge_classes(x, y);
            proof {
                assert forall|p: Seq<int>|
                    labels_closed(before.nodes_view(), p) && labels_refine(before.uf_view(), p) implies #[trigger] labels_refine(
                    self.uf_view(),
                    p,
                ) by {
                    assert(labels_refine(pre.uf_view(), p));
                    lemma_labels_closed_merged(&before, &pre, p);
                    lemma_labels_closed_merged(&before, &s3, p);
                    let e = to_merge@[k as int];
                    assert(pair_of_equal_nodes(views, uf, e));
                    let (a1, b1) = choose|a1: int, b1: int|
                        0 <= a1 < views.len() && 0 <= b1 < views.len() && #[trigger] uf[a1] == e.0 && #[trigger] uf[b1] == e.1
                            && views[a1] == views[b1];
                    lemma_alike_same(views, p, a1, b1);
                    assert(p[a1] == p[b1]);
                    assert(uf[x as int] == uf[a1]);
                    assert(uf[y as int] == uf[b1]);
                    assert(p[x as int] == p[y as int]);
                }
                Self::lemma_analysis_from_trans(&before, &pre, self);
                lemma_merged_trans(&before, &pre, self);
                assert forall|i: int, j: int|
                    0 <= i < n && 0 <= j < n && #[trigger] self.congruent(i, j) && self.uf_view()[i] != self.uf_view()[j]
                        && !base@.congruent(i, j) implies merge_pending(to_merge@, k + 1, self.uf_view(), i, j) by {
                    assert(pre.congruent(i, j));
                    if pre.uf_view()[i] == pre.uf_view()[j] {
                        assert(self.uf_view()[i] == self.uf_view()[j]);
                    }
                    let t = choose|t: int| k <= t < to_merge@.len() && #[trigger] pending_at(to_merge@[t], pre.uf_view(), i, j);
                    let e = to_merge@[t];
                    if pre.uf_view()[e.0 as int] == pre.uf_view()[i] {
                        assert(self.uf_view()[e.0 as int] == self.uf_view()[i]);
                        assert(self.uf_view()[e.1 as int] == self.uf_view()[j]);
                    } else {
                        assert(self.uf_view()[e.0 as int] == self.uf_view()[j]);
                        assert(self.uf_view()[e.1 as int] == self.uf_view()[i]);
                    }
                    if t == k {
                        assert(self.uf_view()[x as int] == self.uf_view()[y as int]);
                        assert(false);
                    }
                    assert(pending_at(to_merge@[t], self.uf_view(), i, j));
                }
            }
            k = k + 1;
        }
    }

    /// Adds the nodes of `expression`, sharing the nodes already present, and
    /// returns the id of the node of its root.
    #[verifier::loop_isolation(false)]
    pub fn add_expression_ref(&mut self, expression: &VarFreeExpression) -> (r: NodeId)
        requires
            old(self).wf(),
            old(self).nodes_view().len() + term_size(expression@) < usize::MAX,
        ensures
            final(self).wf(),
            final(self).extends(old(self)),
            final(self).nodes_view().len() <= old(self).nodes_view().len() + term_size(expression@),
            r < final(self).nodes_view().len(),
            represents(final(self).nodes_view(), final(self).uf_view(), expression@, final(self).uf_view()[r as int]),
            old(self).congruence_closed() ==> final(self).congruence_closed(),
            final(self).analysis_from(old(self)),
            old(self).congruence_closed() && old(self).holds_term(expression@) ==> *final(self) == *old(self),
            forall|x: int| old(self).nodes_view().len() <= x < final(self).nodes_view().len() ==> #[trigger] final(self).uf_view()[x] == x,
            final(self).added_distinct(old(self).nodes_view().len() as int),
            final(self).added_for(old(self).nodes_view().len() as int, expression@),
            node_matches(final(self).nodes_view(), final(self).uf_view(), expression@, r as int),
        decreases expression@,
    {
        proof {
            lemma_var_free_view(*expression);
        }
        match expression {
            VarFreeExpression::Literal(l) => {
                let ghost before = *self;
                proof {
                    if before.congruence_closed() && before.holds_term(expression@) {
                        let c = choose|c: ClassId| #[trigger] represents(before.nodes_view(), before.uf_view(), expression@, c);
                        let i = choose|i: int|
                            0 <= i < before.nodes_view().len() && before.uf_view()[i] == c && #[trigger] before.nodes_view()[i]
                                == NodeView::Lit(*l);
                        before.lemma_first_node_exists(NodeView::Lit(*l), before.nodes_view().len() as int, i);
                    }
                }
                let r = self.add_node(Node::Literal(*l));
                let id = r.any();
                proof {
                    let views = self.nodes_view();
                    let uf = self.uf_view();
                    match before.first_node(NodeView::Lit(*l)) {
                        Some(i) => {
                            before.lemma_first_node_found(NodeView::Lit(*l), before.nodes_view().len() as int);
                            assert(views[id as int] == NodeView::Lit(*l));
                        },
                        None => {
                            assert(views[id as int] == NodeView::Lit(*l));
                            assert(uf[id as int] == id);
                            lemma_added_node_distinct(&before, self, NodeView::Lit(*l));
                        },
                    }
                    assert(uf[uf[id as int] as int] == uf[id as int]);
                    assert(represents(views, uf, Term::Lit(*l), uf[id as int]));
                    assert(node_matches(views, uf, expression@, id as int));
                    assert forall|x: int| before.nodes_view().len() <= x < views.len() implies #[trigger] stands_for_subterm(
                        views,
                        uf,
                        x,
                        expression@,
                    ) by {
                        assert(x == id && uf[id as int] == id);
                        assert(subterm_of(expression@, expression@));
                    }
                }
                id
            },
            VarFreeExpression::Symbol(symbol) => {
                let ghost start = *self;
                let ghost cs = expression@->1;
                proof {
                    Self::lemma_analysis_same_classes(&start, &start);
                }
                let mut children: Vec<ClassId> = Vec::new();
                let mut i: usize = 0;
                while i < symbol.children.len()
                    invariant
                        self.wf(),
                        self.extends(&start),
                        start.congruence_closed() ==> self.congruence_closed(),
                        i <= symbol.children@.len() == cs.len(),
                        children@.len() == i,
                        self.nodes_view().len() <= start.nodes_view().len() + crate::language::expression::sizes_sum(cs, i as int),
                        forall|k: int| 0 <= k < i ==> #[trigger] children@[k] < self.nodes_view().len(),
                        forall|k: int| 0 <= k < i ==> represents(self.nodes_view(), self.uf_view(), #[trigger] cs[k], self.uf_view()[children@[k] as int]),
                        self.analysis_from(&start),
                        start.congruence_closed() && start.holds_term(expression@) ==> *self == start,
                        forall|x: int| start.nodes_view().len() <= x < self.nodes_view().len() ==> #[trigger] self.uf_view()[x] == x,
                        self.added_distinct(start.nodes_view().len() as int),
                        forall|x: int|
                            start.nodes_view().len() <= x < self.nodes_view().len() ==> #[trigger] stands_for_subterm_any(
                                self.nodes_view(),
                                self.uf_view(),
                                x,
                                cs,
                                i as int,
                            ),
                    decreases symbol.children@.len() - i,
                {
                    let ghost pre = *self;
                    proof {
                        if start.congruence_closed() && start.holds_term(expression@) {
                            let c = choose|c: ClassId| #[trigger] represents(start.nodes_view(), start.uf_view(), expression@, c);
                            let views = start.nodes_view();
                            let uf = start.uf_view();
                            let j = choose|j: int|
                                0 <= j < views.len() && uf[j] == c && #[trigger] views[j] is Sym && views[j]->Sym_0
                                    == expression@->Sym_0 && views[j]->1.len() == cs.len() && forall|k: int|
                                    0 <= k < cs.len() ==> represents(views, uf, #[trigger] cs[k], uf[views[j]->1[k] as int]);
                            assert(represents(views, uf, cs[i as int], uf[views[j]->1[i as int] as int]));
                            assert(start.holds_term(cs[i as int]));
                        }
                        lemma_sizes_mono(cs, i + 1, cs.len() as int);
                        assert(cs[i as int] == symbol.children@[i as int]@);
                    }
                    let child = self.add_expression_ref(&symbol.children[i]);
                    proof {
                        lemma_added_distinct_trans(&pre, self, start.nodes_view().len() as int);
                        assert forall|x: int| start.nodes_view().len() <= x < self.nodes_view().len() implies #[trigger] stands_for_subterm_any(
                            self.nodes_view(),
                            self.uf_view(),
                            x,
                            cs,
                            i + 1,
                        ) by {
                            if x < pre.nodes_view().len() {
                                let t = choose|t: Term|
                                    #[trigger] subterm_of_any(t, cs, i as int) && represents(pre.nodes_view(), pre.uf_view(), t, x as ClassId);
                                assert(stands_for_subterm_any(pre.nodes_view(), pre.uf_view(), x, cs, i as int));
                                lemma_represents_extend(&pre, self, t, x as ClassId);
                                lemma_subterm_of_any_mono(t, cs, i as int, i + 1);
                            } else {
                                assert(stands_for_subterm(self.nodes_view(), self.uf_view(), x, cs[i as int]));
                                let t = choose|t: Term|
                                    #[trigger] subterm_of(t, cs[i as int]) && represents(self.nodes_view(), self.uf_view(), t, x as ClassId);
                                assert(subterm_of_any(t, cs, i + 1));
                            }
                        }
                        Self::lemma_analysis_from_trans(&start, &pre, self);
                        assert forall|k: int| 0 <= k < i implies represents(self.nodes_view(), self.uf_view(), #[trigger] cs[k], self.uf_view()[children@[k] as int]) by {
                            lemma_represents_extend(&pre, self, cs[k], pre.uf_view()[children@[k] as int]);
                        }
                    }
                    children.push(child);
                    i = i + 1;
                }
                let ghost before = *self;
                let node = Node::Symbol(Symbol { id: symbol.id, children });
                let ghost target = node@;
                assert(children_below(target, self.nodes_view().len()));
                proof {
                    lemma_sizes_mono(cs, cs.len() as int, cs.len() as int);
                    if start.congruence_closed() && start.holds_term(expression@) {
                        let c = choose|c: ClassId| #[trigger] represents(start.nodes_view(), start.uf_view(), expression@, c);
                        let views = start.nodes_view();
                        let uf = start.uf_view();
                        let j = choose|j: int|
                            0 <= j < views.len() && uf[j] == c && #[trigger] views[j] is Sym && views[j]->Sym_0
                                == expression@->Sym_0 && views[j]->1.len() == cs.len() && forall|k: int|
                                0 <= k < cs.len() ==> represents(views, uf, #[trigger] cs[k], uf[views[j]->1[k] as int]);
                        let a = views[j]->1;
                        assert forall|k: int| 0 <= k < cs.len() implies uf[a[k] as int] == uf[children@[k] as int] by {
                            lemma_represents_unique(&start, cs[k], uf[a[k] as int], uf[children@[k] as int]);
                        }
                        assert(a.map_values(|x: ClassId| uf[x as int]) =~= children@.map_values(|x: ClassId| uf[x as int]));
                        assert(target == NodeView::Sym(symbol.id, children@));
                        before.lemma_first_node_exists(target, before.nodes_view().len() as int, j);
                    }
                }
                let r = self.add_node(node);
                let id = r.any();
                proof {
                    Self::lemma_analysis_from_trans(&start, &before, self);
                    let views = self.nodes_view();
                    let uf = self.uf_view();
                    before.lemma_first_node_found(target, before.nodes_view().len() as int);
                    assert(uf[uf[id as int] as int] == uf[id as int]);
                    match before.first_node(target) {
                        Some(j) => {
                            assert(canon_node(views[id as int], uf) == canon_node(target, uf));
                            let ks = views[id as int]->1;
                            assert(ks.map_values(|x: ClassId| uf[x as int]).len() == children@.map_values(|x: ClassId| uf[x as int]).len());
                            assert forall|k: int| 0 <= k < cs.len() implies represents(views, uf, #[trigger] cs[k], uf[ks[k] as int]) by {
                                assert(ks.map_values(|x: ClassId| uf[x as int])[k] == children@.map_values(|x: ClassId| uf[x as int])[k]);
                            }
                        },
                        None => {
                            assert forall|k: int| 0 <= k < cs.len() implies represents(views, uf, #[trigger] cs[k], uf[views[id as int]->1[k] as int]) by {
                                lemma_represents_extend(&before, self, cs[k], before.uf_view()[children@[k] as int]);
                            }
                            lemma_added_node_distinct(&before, self, target);
                            lemma_added_distinct_trans(&before, self, start.nodes_view().len() as int);
                        },
                    }
                    assert(views[id as int] is Sym);
                    assert(represents(views, uf, expression@, uf[id as int]));
                    assert(node_matches(views, uf, expression@, id as int));
                    assert forall|x: int| start.nodes_view().len() <= x < views.len() implies #[trigger] stands_for_subterm(
                        views,
                        uf,
                        x,
                        expression@,
                    ) by {
                        if x < before.nodes_view().len() {
                            assert(stands_for_subterm_any(before.nodes_view(), before.uf_view(), x, cs, cs.len() as int));
                            let t = choose|t: Term|
                                #[trigger] subterm_of_any(t, cs, cs.len() as int) && represents(
                                    before.nodes_view(),
                                    before.uf_view(),
                                    t,
                                    x as ClassId,
                                );
                            lemma_represents_extend(&before, self, t, x as ClassId);
                            assert(subterm_of(t, expression@));
                        } else {
                            assert(before.first_node(target) is None);
                            assert(x == id && uf[id as int] == id);
                            assert(subterm_of(expression@, expression@));
                        }
                    }
                }
                id
            },
        }
    }

    /// Adds the nodes of `expression` whose class leaves stand for existing
    /// classes, and returns the class of its root: `Old(id)` when its root node
    /// was present already (or it is a class leaf), `New(id)` otherwise.
    #[verifier::loop_isolation(false)]
    #[verifier::spinoff_prover]
    #[verifier::rlimit(30)]
    pub fn add_mixed_expression(&mut self, expression: MixedExpression) -> (r: Seen<ClassId>)
        requires
            old(self).wf(),
            mixed_classes_below(expression, old(self).nodes_view().len()),
            old(self).nodes_view().len() + mixed_size(expression) < usize::MAX,
        ensures
            final(self).wf(),
            final(self).extends(old(self)),
            final(self).nodes_view().len() <= old(self).nodes_view().len() + mixed_size(expression),
            r.value() < final(self).nodes_view().len(),
            mixed_represents(final(self).nodes_view(), final(self).uf_view(), expression, final(self).uf_view()[r.value() as int]),
            old(self).congruence_closed() ==> final(self).congruence_closed(),
            r is Old ==> *final(self) == *old(self),
            r is New ==> old(self).nodes_view().len() <= r.value() && r.value() + 1 == final(self).nodes_view().len(),
            final(self).fresh_after(old(self).nodes_view().len()),
            final(self).analysis_from(old(self)),
            final(self).class_count_spec() + old(self).nodes_view().len()
                == old(self).class_count_spec() + final(self).nodes_view().len(),
        decreases expression,
    {
        proof {
            Self::lemma_analysis_same_classes(old(self), old(self));
        }
        match expression {
            MixedExpression::Literal(l) => {
                let ghost before = *self;
                let r = self.add_node(Node::Literal(l));
                proof {
                    before.lemma_first_node_found(NodeView::Lit(l), before.nodes_view().len() as int);
                    if before.first_node(NodeView::Lit(l)) is None {
                        lemma_count_push(&before, self);
                    }
                }
                let id = r.any();
                let c = self.containing_class(id);
                proof {
                    let views = self.nodes_view();
                    let uf = self.uf_view();
                    assert(views[id as int] == NodeView::Lit(l));
                    assert(uf[uf[id as int] as int] == uf[id as int]);
                    assert(mixed_represents(views, uf, MixedExpression::Literal(l), uf[c as int]));
                    assert forall|x: int|
                        before.nodes_view().len() <= x < self.nodes_view().len() implies #[trigger] self.uf_view()[x] == x
                            && children_below(self.nodes_view()[x], x as nat) by {
                        assert(x == before.nodes_view().len());
                        assert(self.nodes_view()[x] == NodeView::Lit(l));
                    }
                    assert(self.fresh_after(before.nodes_view().len()));
                }
                match r {
                    Seen::New(_) => Seen::New(c),
                    Seen::Old(_) => Seen::Old(c),
                }
            },
            MixedExpression::Class(k) => {
                proof {
                    assert(self.uf_view()[k as int] < self.nodes_view().len());
                    assert(self.fresh_after(self.nodes_view().len()));
                }
                Seen::Old(k)
            },
            MixedExpression::Symbol(symbol) => {
                let ghost start = *self;
                let ghost cs = symbol.children@;
                let ghost whole = MixedExpression::Symbol(symbol);
                let id = symbol.id;
                let mut rest = symbol.children;
                let mut children: Vec<ClassId> = Vec::new();
                let mut i: usize = 0;
                let len = rest.len();
                let ghost mut any_new = false;
                let ghost mut jw: int = 0;
                while i < len
                    invariant
                        self.wf(),
                        self.extends(&start),
                        !any_new ==> *self == start,
                        any_new ==> 0 <= jw < i && children@[jw] + 1 == self.nodes_view().len() && start.nodes_view().len()
                            <= children@[jw],
                        self.fresh_after(start.nodes_view().len()),
                        start.congruence_closed() ==> self.congruence_closed(),
                        len == cs.len(),
                        rest@.len() == len,
                        forall|k: int| i <= k < len ==> #[trigger] rest@[k] == cs[k],
                        i <= len,
                        children@.len() == i,
                        self.nodes_view().len() <= start.nodes_view().len() + mixed_sizes_sum(cs, i as int),
                        forall|k: int| 0 <= k < i ==> #[trigger] children@[k] < self.nodes_view().len(),
                        forall|k: int| 0 <= k < i ==> mixed_represents(self.nodes_view(), self.uf_view(), #[trigger] cs[k], self.uf_view()[children@[k] as int]),
                        self.analysis_from(&start),
                        self.class_count_spec() + start.nodes_view().len() == start.class_count_spec() + self.nodes_view().len(),
                    decreases len - i,
                {
                    let ghost pre = *self;
                    let mut child = MixedExpression::Class(0);
                    std::mem::swap(&mut child, &mut rest[i]);
                    proof {
                        lemma_mixed_sizes_mono(cs, i + 1, cs.len() as int);
                        assert(child == cs[i as int]);
                        assert(mixed_classes_below(child, start.nodes_view().len()));
                        lemma_mixed_classes_mono(child, start.nodes_view().len(), self.nodes_view().len());
                    }
                    let seen = self.add_mixed_expression(child);
                    let c = seen.any();
                    proof {
                        assert(self.fresh_after(start.nodes_view().len())) by {
                            assert forall|x: int|
                                start.nodes_view().len() <= x < self.nodes_view().len() implies #[trigger] self.uf_view()[x]
                                    == x && children_below(self.nodes_view()[x], x as nat) by {
                                if x < pre.nodes_view().len() {
                                    assert(pre.uf_view()[x] == x);
                                    assert(children_below(pre.nodes_view()[x], x as nat));
                                    assert(self.uf_view()[x] == pre.uf_view()[x]);
                                    assert(self.nodes_view()[x] == pre.nodes_view()[x]);
                                } else {
                                    assert(self.uf_view()[x] == x);
                                }
                            }
                        }
                        Self::lemma_analysis_from_trans(&start, &pre, self);
                        if seen is New {
                            any_new = true;
                            jw = i as int;
                        }
                        assert forall|k: int| 0 <= k < i implies mixed_represents(self.nodes_view(), self.uf_view(), #[trigger] cs[k], self.uf_view()[children@[k] as int]) by {
                            lemma_mixed_represents_later(&pre, self, cs[k], pre.uf_view()[children@[k] as int]);
                        }
                    }
                    children.push(c);
                    proof {
                        if any_new {
                            assert(children@[jw] + 1 == self.nodes_view().len());
                        }
                    }
                    i = i + 1;
                }
                let ghost before = *self;
                let node = Node::Symbol(Symbol { id, children });
                let ghost target = node@;
                assert(children_below(target, self.nodes_view().len()));
                proof {
                    lemma_mixed_sizes_mono(cs, cs.len() as int, cs.len() as int);
                }
                proof {
                    if any_new {
                        let k = children@[jw];
                        let sn = start.nodes_view().len();
                        if before.first_node(target) is Some {
                            before.lemma_first_node_found(target, before.nodes_view().len() as int);
                            let i0 = before.first_node(target)->0;
                            let v0 = before.nodes_view()[i0 as int];
                            let buf = before.uf_view();
                            assert(canon_node(v0, buf) == canon_node(target, buf));
                            assert(target == NodeView::Sym(id, children@));
                            assert(children_below(v0, before.nodes_view().len()));
                            assert(v0 is Sym);
                            let xs = v0->1;
                            assert(xs.map_values(|c: ClassId| buf[c as int]).len() == children@.map_values(|c: ClassId| buf[c as int]).len());
                            assert(xs.map_values(|c: ClassId| buf[c as int])[jw] == children@.map_values(|c: ClassId| buf[c as int])[jw]);
                            let x = xs[jw];
                            assert(node_children(v0)[jw] == x);
                            assert(buf[k as int] == k);
                            assert(buf[x as int] == k);
                            if x < sn {
                                assert(start.uf_view()[x as int] < sn);
                                assert(buf[x as int] == start.uf_view()[x as int]);
                            }
                            assert(x == k);
                            if i0 < sn {
                                assert(v0 == start.nodes_view()[i0 as int]);
                                assert(children_below(start.nodes_view()[i0 as int], sn));
                                assert(node_children(start.nodes_view()[i0 as int])[jw] == x);
                            }
                            assert(before.uf_view()[i0 as int] == i0);
                            assert(children_below(v0, i0 as nat));
                            assert(false);
                        }
                    }
                }
                let r = self.add_node(node);
                proof {
                    if before.first_node(target) is None {
                        lemma_count_push(&before, self);
                    }
                    before.lemma_first_node_found(target, before.nodes_view().len() as int);
                    Self::lemma_analysis_from_trans(&start, &before, self);
                }
                let node_id = r.any();
                let c = self.containing_class(node_id);
                proof {
                    let views = self.nodes_view();
                    let uf = self.uf_view();
                    assert(uf[uf[node_id as int] as int] == uf[node_id as int]);
                    match before.first_node(target) {
                        Some(j) => {
                            assert(canon_node(views[node_id as int], uf) == canon_node(target, uf));
                            let ks = views[node_id as int]->1;
                            assert(ks.map_values(|x: ClassId| uf[x as int]).len() == children@.map_values(|x: ClassId| uf[x as int]).len());
                            assert forall|k: int| 0 <= k < cs.len() implies mixed_represents(views, uf, #[trigger] cs[k], uf[ks[k] as int]) by {
                                assert(ks.map_values(|x: ClassId| uf[x as int])[k] == children@.map_values(|x: ClassId| uf[x as int])[k]);
                            }
                        },
                        None => {
                            assert forall|k: int| 0 <= k < cs.len() implies mixed_represents(views, uf, #[trigger] cs[k], uf[views[node_id as int]->1[k] as int]) by {
                                lemma_mixed_represents_later(&before, self, cs[k], before.uf_view()[children@[k] as int]);
                            }
                        },
                    }
                    assert(views[node_id as int] is Sym);
                    assert(mixed_represents(views, uf, whole, uf[c as int]));
                    assert(before.fresh_after(start.nodes_view().len()));
                    assert forall|x: int|
                        start.nodes_view().len() <= x < self.nodes_view().len() implies #[trigger] self.uf_view()[x] == x
                            && children_below(self.nodes_view()[x], x as nat) by {
                        if x < before.nodes_view().len() {
                            assert(before.uf_view()[x] == x);
                            assert(children_below(before.nodes_view()[x], x as nat));
                            assert(self.uf_view()[x] == before.uf_view()[x]);
                            assert(self.nodes_view()[x] == before.nodes_view()[x]);
                        } else {
                            assert(before.first_node(target) is None);
                            assert(x == before.nodes_view().len());
                            assert(self.nodes_view()[x] == target);
                            assert(self.uf_view()[x] == x);
                        }
                    }
                    let sl = start.nodes_view().len();
                    let cur = *self;
                    assert(forall|x: int| sl <= x < cur.nodes_view().len() ==> #[trigger] cur.uf_view()[x] == x && children_below(cur.nodes_view()[x], x as nat));
                    cur.lemma_fresh_intro(sl);
                    assert(self.fresh_after(sl));
                }
                match r {
                    Seen::New(_) => Seen::New(c),
                    Seen::Old(_) => Seen::Old(c),
                }
            },
        }
    }

    /// Adds the nodes of `expression`, sharing the nodes already present, and
    /// returns the id of the node of its root.
    pub fn add_expression(&mut self, expression: VarFreeExpression) -> (r: NodeId)
        requires
            old(self).wf(),
            old(self).nodes_view().len() + term_size(expression@) < usize::MAX,
        ensures
            final(self).wf(),
            final(self).extends(old(self)),
            final(self).nodes_view().len() <= old(self).nodes_view().len() + term_size(expression@),
            r < final(self).nodes_view().len(),
            represents(final(self).nodes_view(), final(self).uf_view(), expression@, final(self).uf_view()[r as int]),
            old(self).congruence_closed() ==> final(self).congruence_closed(),
            final(self).analysis_from(old(self)),
            old(self).congruence_closed() && old(self).holds_term(expression@) ==> *final(self) == *old(self),
            forall|x: int| old(self).nodes_view().len() <= x < final(self).nodes_view().len() ==> #[trigger] final(self).uf_view()[x] == x,
            final(self).added_distinct(old(self).nodes_view().len() as int),
            final(self).added_for(old(self).nodes_view().len() as int, expression@),
            node_matches(final(self).nodes_view(), final(self).uf_view(), expression@, r as int),
    {
        self.add_expression_ref(&expression)
    }

    /// An e-graph holding the nodes of `expression`, with the id of the class of its root.
    pub fn from_expression_with_id(expression: VarFreeExpression) -> (r: (Self, ClassId))
        requires
            term_size(expression@) < usize::MAX,
        ensures
            r.0.wf(),
            r.1 < r.0.nodes_view().len(),
            r.0.uf_view()[r.1 as int] == r.1,
            represents(r.0.nodes_view(), r.0.uf_view(), expression@, r.1),
            r.0.nodes_view().len() <= term_size(expression@),
            r.0.congruence_closed(),
            r.0.data_accounted(),
            forall|x: int| 0 <= x < r.0.nodes_view().len() ==> #[trigger] r.0.uf_view()[x] == x,
    {
        let mut egraph = Self::new();
        let ghost empty = egraph;
        let node_id = egraph.add_expression(expression);
        proof {
            Self::lemma_data_accounted(&empty, &egraph);
        }
        let class_id = egraph.containing_class(node_id);
        (egraph, class_id)
    }

    /// An e-graph holding the nodes of `expression`.
    pub fn from_expression(expression: VarFreeExpression) -> (r: Self)
        requires
            term_size(expression@) < usize::MAX,
        ensures
            r.wf(),
            exists|c: ClassId| c < r.nodes_view().len() && #[trigger] represents(r.nodes_view(), r.uf_view(), expression@, c),
            r.congruence_closed(),
            r.data_accounted(),
            forall|x: int| 0 <= x < r.nodes_view().len() ==> #[trigger] r.uf_view()[x] == x,
            r.nodes_view().len() <= term_size(expression@),
    {
        let (egraph, class_id) = Self::from_expression_with_id(expression);
        egraph
    }

}

impl Node {
    /// A copy of the node whose children are replaced by their representatives in `graph`.
    pub fn canonical<A>(&self, graph: &EGraph<A>) -> (r: Node)
        requires
            graph.wf(),
            children_below(self@, graph.nodes_view().len()),
        ensures
            r@ == canon_node(self@, graph.uf_view()),
    {
        graph.canonical_node(self)
    }

    /// Replaces the children of the node by their representatives in `graph`.
    pub fn make_canonical<A>(&mut self, graph: &EGraph<A>)
        requires
            graph.wf(),
            children_below(old(self)@, graph.nodes_view().len()),
        ensures
            final(self)@ == canon_node(old(self)@, graph.uf_view()),
    {
        *self = graph.canonical_node(self);
    }
}

impl<A: Analysis> Default for EGraph<A> {
    fn default() -> (r: Self)
        ensures
            r.wf(),
            r.nodes_view() == Seq::<NodeView>::empty(),
            r.congruence_closed(),
    {
        EGraph::new()
    }
}

} // verus!
