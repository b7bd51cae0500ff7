//! Matching from the pattern's root down: each class is tried against the
//! pattern, each node of a class against a symbol of the pattern, and the
//! matches of the children are combined.

use vstd::prelude::*;

use crate::language::expression::{has_var, lemma_expr_view, Expression, Term, VariableId};
use crate::language::symbol::Symbol;

use super::super::{children_below, node_children, ClassId, EGraph, NodeId, NodeView};
use super::bottom_up::{holds_match, keeps_prefix, lemma_holds_match_kept};
use super::{agree, lemma_pattern_binds, lemma_pattern_in_class_submap, pattern_in_class, sound_match, EGraphMatch, Matcher};

verus! {

broadcast use vstd::std_specs::vec::group_vec_axioms, vstd::seq::group_seq_axioms;

/// Matches patterns by descending from each class.
pub struct TopDownMatcher;

/// `true` when `m` is a correct match of `p` at class `c`: its root is in the
/// class of `c`, and `c` holds an instance of `p` under its substitution.
pub open spec fn match_at<A>(egraph: &EGraph<A>, p: Term, c: ClassId, m: (ClassId, Map<VariableId, ClassId>)) -> bool {
    &&& m.0 < egraph.nodes_view().len()
    &&& egraph.uf_view()[m.0 as int] == egraph.uf_view()[c as int]
    &&& pattern_in_class(egraph.nodes_view(), egraph.uf_view(), p, c, m.1)
    &&& forall|v: VariableId| #[trigger] m.1.contains_key(v) ==> has_var(p, v) && m.1[v] < egraph.nodes_view().len()
}

/// `true` when `m`, rooted at `root`, binds the children `cs` of a pattern
/// `Sym(id, cs)` to instances in the classes `children`.
pub open spec fn combo_ok<A>(
    egraph: &EGraph<A>,
    root: ClassId,
    id: usize,
    cs: Seq<Term>,
    children: Seq<ClassId>,
    m: (ClassId, Map<VariableId, ClassId>),
) -> bool {
    &&& m.0 == root
    &&& forall|j: int| 0 <= j < cs.len() ==> pattern_in_class(egraph.nodes_view(), egraph.uf_view(), #[trigger] cs[j], children[j], m.1)
    &&& forall|v: VariableId| #[trigger] m.1.contains_key(v) ==> has_var(Term::Sym(id, cs), v) && m.1[v] < egraph.nodes_view().len()
}

/// `true` when class `c` holds pattern `p` as read from the nodes listed in
/// the classes: a literal or a symbol application is one of the nodes listed
/// in the class of `c`, each child of such a node holds the pattern's child at
/// its position, and a variable stands for the very id `c` it is met at.
pub open spec fn listed_instance<A>(egraph: &EGraph<A>, p: Term, c: ClassId, sigma: Map<VariableId, ClassId>) -> bool
    decreases p,
{
    let ids = egraph.class_at(egraph.uf_view()[c as int] as int)->0.nodes_view();
    let views = egraph.nodes_view();
    match p {
        Term::Lit(l) => exists|k: int| 0 <= k < ids.len() && views[#[trigger] ids[k] as int] == NodeView::Lit(l),
        Term::Var(v) => sigma.contains_key(v) && sigma[v] == c,
        Term::Sym(id, cs) => exists|k: int|
            0 <= k < ids.len() && #[trigger] views[ids[k] as int] is Sym && views[ids[k] as int]->Sym_0 == id
                && views[ids[k] as int]->1.len() == cs.len() && forall|j: int|
                0 <= j < cs.len() ==> listed_instance(egraph, #[trigger] cs[j], views[ids[k] as int]->1[j], sigma),
    }
}

/// `true` when node `x` applies the symbol of `p`, a symbol application, to
/// as many children, each holding the child of `p` at its position.
pub open spec fn node_holds<A>(egraph: &EGraph<A>, x: NodeId, p: Term, sigma: Map<VariableId, ClassId>) -> bool {
    let views = egraph.nodes_view();
    match p {
        Term::Sym(id, cs) => {
            &&& views[x as int] is Sym
            &&& views[x as int]->Sym_0 == id
            &&& views[x as int]->1.len() == cs.len()
            &&& forall|j: int| 0 <= j < cs.len() ==> listed_instance(egraph, #[trigger] cs[j], views[x as int]->1[j], sigma)
        },
        _ => false,
    }
}

/// `true` when `sigma` binds exactly the variables of `p`.
pub open spec fn exact_vars(p: Term, sigma: Map<VariableId, ClassId>) -> bool {
    forall|v: VariableId| #[trigger] sigma.contains_key(v) <==> has_var(p, v)
}

/// `true` when `v` occurs in one of the first `k` patterns of `cs`.
pub open spec fn vars_upto(cs: Seq<Term>, k: int, v: VariableId) -> bool {
    exists|j: int| 0 <= j < k && has_var(#[trigger] cs[j], v)
}

/// `sigma` cut down to the variables of `p`.
pub open spec fn restrict_vars(sigma: Map<VariableId, ClassId>, p: Term) -> Map<VariableId, ClassId> {
    sigma.restrict(Set::new(|v: VariableId| has_var(p, v)))
}

/// Lemma: an instance read from the listed nodes depends only on the
/// variables of the pattern.
proof fn lemma_listed_agree<A>(egraph: &EGraph<A>, p: Term, c: ClassId, s1: Map<VariableId, ClassId>, s2: Map<VariableId, ClassId>)
    requires
        listed_instance(egraph, p, c, s1),
        forall|v: VariableId| has_var(p, v) ==> #[trigger] s2.contains_key(v) && s1.contains_key(v) && s2[v] == s1[v],
    ensures
        listed_instance(egraph, p, c, s2),
    decreases p,
{
    match p {
        Term::Lit(_) => {},
        Term::Var(v) => {
            assert(has_var(p, v));
        },
        Term::Sym(id, cs) => {
            let ids = egraph.class_at(egraph.uf_view()[c as int] as int)->0.nodes_view();
            let views = egraph.nodes_view();
            let k = choose|k: int|
                0 <= k < ids.len() && #[trigger] views[ids[k] as int] is Sym && views[ids[k] as int]->Sym_0 == id
                    && views[ids[k] as int]->1.len() == cs.len() && forall|j: int|
                    0 <= j < cs.len() ==> listed_instance(egraph, #[trigger] cs[j], views[ids[k] as int]->1[j], s1);
            let x = ids[k];
            assert forall|j: int| 0 <= j < cs.len() implies listed_instance(egraph, #[trigger] cs[j], views[x as int]->1[j], s2) by {
                assert forall|v: VariableId| has_var(cs[j], v) implies #[trigger] s2.contains_key(v) && s1.contains_key(v)
                    && s2[v] == s1[v] by {
                    assert(has_var(p, v));
                }
                lemma_listed_agree(egraph, cs[j], views[x as int]->1[j], s1, s2);
            }
        },
    }
}

/// Lemma: keeping a prefix is transitive.
proof fn lemma_keeps_prefix_trans(a: Seq<EGraphMatch>, b: Seq<EGraphMatch>, c: Seq<EGraphMatch>)
    requires
        keeps_prefix(a, b),
        keeps_prefix(b, c),
    ensures
        keeps_prefix(a, c),
{
    assert forall|i: int| 0 <= i < a.len() implies #[trigger] c[i]@ == a[i]@ by {
        assert(c[i]@ == b[i]@);
    }
}

impl TopDownMatcher {
    /// Extends `acc` with one match of each child from the `k`-th on, in every
    /// consistent way, pushing the complete combinations to `out`.
    fn combine<A>(
        &self,
        egraph: &EGraph<A>,
        root: ClassId,
        id: usize,
        cs: Ghost<Seq<Term>>,
        children: &Vec<ClassId>,
        child_matches: &Vec<Vec<EGraphMatch>>,
        k: usize,
        acc: EGraphMatch,
        out: &mut Vec<EGraphMatch>,
    )
        requires
            egraph.wf(),
            root < egraph.nodes_view().len(),
            children@.len() == cs@.len() == child_matches@.len(),
            k <= cs@.len(),
            forall|j: int| 0 <= j < children@.len() ==> #[trigger] children@[j] < egraph.nodes_view().len(),
            forall|j: int, q: int|
                0 <= j < child_matches@.len() && 0 <= q < child_matches@[j]@.len() ==> match_at(
                    egraph,
                    cs@[j],
                    children@[j],
                    #[trigger] child_matches@[j]@[q]@,
                ),
            acc@.0 == root,
            forall|j: int| 0 <= j < k ==> pattern_in_class(egraph.nodes_view(), egraph.uf_view(), #[trigger] cs@[j], children@[j], acc@.1),
            forall|v: VariableId| #[trigger] acc@.1.contains_key(v) ==> has_var(Term::Sym(id, cs@), v) && acc@.1[v] < egraph.nodes_view().len(),
            forall|i: int| 0 <= i < old(out)@.len() ==> combo_ok(egraph, root, id, cs@, children@, #[trigger] old(out)@[i]@),
            forall|j: int, sigma: Map<VariableId, ClassId>|
                0 <= j < cs@.len() && exact_vars(cs@[j], sigma) && #[trigger] listed_instance(egraph, cs@[j], children@[j], sigma)
                    ==> exists|q: int| 0 <= q < child_matches@[j]@.len() && #[trigger] child_matches@[j]@[q]@.1 == sigma,
            forall|v: VariableId| vars_upto(cs@, k as int, v) ==> #[trigger] acc@.1.contains_key(v),
        ensures
            forall|i: int| 0 <= i < final(out)@.len() ==> combo_ok(egraph, root, id, cs@, children@, #[trigger] final(out)@[i]@),
            keeps_prefix(old(out)@, final(out)@),
            forall|sigma: Map<VariableId, ClassId>|
                #[trigger] exact_vars(Term::Sym(id, cs@), sigma) && (forall|v: VariableId|
                    #[trigger] acc@.1.contains_key(v) ==> sigma.contains_key(v) && acc@.1[v] == sigma[v]) && (forall|j: int|
                    k <= j < cs@.len() ==> #[trigger] listed_instance(egraph, cs@[j], children@[j], sigma)) ==> holds_match(
                    final(out)@,
                    root,
                    sigma,
                ),
        decreases cs@.len() - k,
    {
        let ghost out0 = out@;
        let n_children = child_matches.len();
        if k == n_children {
            let ghost accv = acc@;
            out.push(acc);
            proof {
                assert(out@[out0.len() as int]@ == accv);
                assert forall|sigma: Map<VariableId, ClassId>|
                    #[trigger] exact_vars(Term::Sym(id, cs@), sigma) && (forall|v: VariableId|
                        #[trigger] accv.1.contains_key(v) ==> sigma.contains_key(v) && accv.1[v] == sigma[v]) && (forall|j: int|
                        k <= j < cs@.len() ==> #[trigger] listed_instance(egraph, cs@[j], children@[j], sigma)) implies holds_match(
                    out@,
                    root,
                    sigma,
                ) by {
                    assert forall|v: VariableId| sigma.contains_key(v) implies #[trigger] accv.1.contains_key(v) by {
                        assert(has_var(Term::Sym(id, cs@), v));
                        let j = choose|j: int| 0 <= j < cs@.len() && has_var(#[trigger] cs@[j], v);
                        assert(vars_upto(cs@, k as int, v));
                    }
                    assert(accv.1 =~= sigma);
                    assert(out@[out0.len() as int]@ == (root, sigma));
                }
            }
            return;
        }
        let options = &child_matches[k];
        let mut q: usize = 0;
        while q < options.len()
            invariant
                egraph.wf(),
                root < egraph.nodes_view().len(),
                children@.len() == cs@.len() == child_matches@.len(),
                k < cs@.len(),
                n_children == child_matches@.len(),
                options@ == child_matches@[k as int]@,
                forall|j: int| 0 <= j < children@.len() ==> #[trigger] children@[j] < egraph.nodes_view().len(),
                forall|j: int, q: int|
                    0 <= j < child_matches@.len() && 0 <= q < child_matches@[j]@.len() ==> match_at(
                        egraph,
                        cs@[j],
                        children@[j],
                        #[trigger] child_matches@[j]@[q]@,
                    ),
                acc@.0 == root,
                forall|j: int| 0 <= j < k ==> pattern_in_class(egraph.nodes_view(), egraph.uf_view(), #[trigger] cs@[j], children@[j], acc@.1),
                forall|v: VariableId| #[trigger] acc@.1.contains_key(v) ==> has_var(Term::Sym(id, cs@), v) && acc@.1[v] < egraph.nodes_view().len(),
                forall|i: int| 0 <= i < out@.len() ==> combo_ok(egraph, root, id, cs@, children@, #[trigger] out@[i]@),
                q <= options@.len(),
                forall|j: int, sigma: Map<VariableId, ClassId>|
                    0 <= j < cs@.len() && exact_vars(cs@[j], sigma) && #[trigger] listed_instance(egraph, cs@[j], children@[j], sigma)
                        ==> exists|q: int| 0 <= q < child_matches@[j]@.len() && #[trigger] child_matches@[j]@[q]@.1 == sigma,
                forall|v: VariableId| vars_upto(cs@, k as int, v) ==> #[trigger] acc@.1.contains_key(v),
                keeps_prefix(out0, out@),
                forall|sigma: Map<VariableId, ClassId>|
                    #[trigger] exact_vars(Term::Sym(id, cs@), sigma) && (forall|v: VariableId|
                        #[trigger] acc@.1.contains_key(v) ==> sigma.contains_key(v) && acc@.1[v] == sigma[v]) && (forall|j: int|
                        k <= j < cs@.len() ==> #[trigger] listed_instance(egraph, cs@[j], children@[j], sigma)) && (exists|q2: int|
                        0 <= q2 < q && #[trigger] options@[q2]@.1 == restrict_vars(sigma, cs@[k as int])) ==> holds_match(out@, root, sigma),
            decreases options@.len() - q,
        {
            let candidate = options[q].copy();
            let base = acc.copy();
            let ghost cm = candidate@;
            let ghost am = acc@;
            assert(match_at(egraph, cs@[k as int], children@[k as int], child_matches@[k as int]@[q as int]@));
            match base.merge(root, candidate) {
                Some(merged) => {
                    proof {
                        let m = merged@.1;
                        assert(am.1.submap_of(m));
                        assert(cm.1.submap_of(m)) by {
                            assert forall|v: VariableId| cm.1.dom().contains(v) implies #[trigger] m.dom().contains(v) && cm.1[v] == m[v] by {
                                if am.1.contains_key(v) {
                                    assert(agree(am.1, cm.1));
                                }
                            }
                        }
                        assert forall|j: int| 0 <= j < k + 1 implies pattern_in_class(egraph.nodes_view(), egraph.uf_view(), #[trigger] cs@[j], children@[j], m) by {
                            if j < k {
                                lemma_pattern_in_class_submap(egraph.nodes_view(), egraph.uf_view(), cs@[j], children@[j], am.1, m);
                            } else {
                                lemma_pattern_in_class_submap(egraph.nodes_view(), egraph.uf_view(), cs@[j], children@[j], cm.1, m);
                            }
                        }
                        assert forall|v: VariableId| #[trigger] m.contains_key(v) implies has_var(Term::Sym(id, cs@), v) && m[v] < egraph.nodes_view().len() by {
                            if !am.1.contains_key(v) {
                                assert(cm.1.contains_key(v));
                                assert(has_var(cs@[k as int], v));
                                assert(Term::Sym(id, cs@)->1[k as int] == cs@[k as int]);
                            }
                        }
                    }
                    proof {
                        let m = merged@.1;
                        assert forall|v: VariableId| vars_upto(cs@, k + 1, v) implies #[trigger] m.contains_key(v) by {
                            let j = choose|j: int| 0 <= j < k + 1 && has_var(#[trigger] cs@[j], v);
                            if j < k {
                                assert(vars_upto(cs@, k as int, v));
                            } else {
                                lemma_pattern_binds(egraph.nodes_view(), egraph.uf_view(), cs@[k as int], children@[k as int], cm.1, v);
                            }
                        }
                    }
                    let ghost before_call = out@;
                    self.combine(egraph, root, id, cs, children, child_matches, k + 1, merged, out);
                    proof {
                        lemma_keeps_prefix_trans(out0, before_call, out@);
                        assert forall|sigma: Map<VariableId, ClassId>|
                            #[trigger] exact_vars(Term::Sym(id, cs@), sigma) && (forall|v: VariableId|
                                #[trigger] am.1.contains_key(v) ==> sigma.contains_key(v) && am.1[v] == sigma[v]) && (forall|j: int|
                                k <= j < cs@.len() ==> #[trigger] listed_instance(egraph, cs@[j], children@[j], sigma)) && (exists|q2: int|
                                0 <= q2 < q + 1 && #[trigger] options@[q2]@.1 == restrict_vars(sigma, cs@[k as int])) implies holds_match(
                            out@,
                            root,
                            sigma,
                        ) by {
                            if options@[q as int]@.1 == restrict_vars(sigma, cs@[k as int]) {
                                let m = merged@.1;
                                assert forall|v: VariableId| #[trigger] m.contains_key(v) implies sigma.contains_key(v) && m[v] == sigma[v] by {
                                    if cm.1.contains_key(v) {
                                        assert(restrict_vars(sigma, cs@[k as int]).contains_key(v));
                                    }
                                }
                            } else {
                                let q2 = choose|q2: int| 0 <= q2 < q + 1 && #[trigger] options@[q2]@.1 == restrict_vars(sigma, cs@[k as int]);
                                assert(q2 < q);
                                assert(holds_match(before_call, root, sigma));
                                lemma_holds_match_kept(before_call, out@, root, sigma);
                            }
                        }
                    }
                },
                None => {
                    proof {
                        assert forall|sigma: Map<VariableId, ClassId>|
                            #[trigger] exact_vars(Term::Sym(id, cs@), sigma) && (forall|v: VariableId|
                                #[trigger] am.1.contains_key(v) ==> sigma.contains_key(v) && am.1[v] == sigma[v]) && (forall|j: int|
                                k <= j < cs@.len() ==> #[trigger] listed_instance(egraph, cs@[j], children@[j], sigma)) && (exists|q2: int|
                                0 <= q2 < q + 1 && #[trigger] options@[q2]@.1 == restrict_vars(sigma, cs@[k as int])) implies holds_match(
                            out@,
                            root,
                            sigma,
                        ) by {
                            if options@[q as int]@.1 == restrict_vars(sigma, cs@[k as int]) {
                                assert forall|v: VariableId| am.1.contains_key(v) && cm.1.contains_key(v) implies #[trigger] am.1[v]
                                    == #[trigger] cm.1[v] by {
                                    assert(restrict_vars(sigma, cs@[k as int]).contains_key(v));
                                }
                                assert(agree(am.1, cm.1));
                            }
                        }
                    }
                },
            }
            q = q + 1;
        }
        proof {
            assert forall|sigma: Map<VariableId, ClassId>|
                #[trigger] exact_vars(Term::Sym(id, cs@), sigma) && (forall|v: VariableId|
                    #[trigger] acc@.1.contains_key(v) ==> sigma.contains_key(v) && acc@.1[v] == sigma[v]) && (forall|j: int|
                    k <= j < cs@.len() ==> #[trigger] listed_instance(egraph, cs@[j], children@[j], sigma)) implies holds_match(
                out@,
                root,
                sigma,
            ) by {
                let r = restrict_vars(sigma, cs@[k as int]);
                assert(listed_instance(egraph, cs@[k as int], children@[k as int], sigma));
                assert forall|v: VariableId| has_var(cs@[k as int], v) implies #[trigger] r.contains_key(v) && sigma.contains_key(v)
                    && r[v] == sigma[v] by {
                    assert(has_var(Term::Sym(id, cs@), v));
                }
                lemma_listed_agree(egraph, cs@[k as int], children@[k as int], sigma, r);
                assert(exact_vars(cs@[k as int], r));
                let q2 = choose|q2: int| 0 <= q2 < child_matches@[k as int]@.len() && #[trigger] child_matches@[k as int]@[q2]@.1 == r;
                assert(options@[q2]@.1 == r);
            }
        }
    }

    /// The matches of `symbol` at node `node_id`.
    fn try_match_symbol_at_node<A>(&self, egraph: &EGraph<A>, node_id: NodeId, symbol: &Symbol<Expression>) -> (r: Vec<
        EGraphMatch,
    >)
        requires
            egraph.wf(),
            node_id < egraph.nodes_view().len(),
        ensures
            forall|i: int| 0 <= i < r@.len() ==> match_at(egraph, Expression::Symbol(*symbol)@, node_id, #[trigger] r@[i]@),
            forall|sigma: Map<VariableId, ClassId>|
                exact_vars(Expression::Symbol(*symbol)@, sigma) && #[trigger] node_holds(
                    egraph,
                    node_id,
                    Expression::Symbol(*symbol)@,
                    sigma,
                ) ==> holds_match(r@, egraph.uf_view()[node_id as int], sigma),
        decreases Expression::Symbol(*symbol)@, 0int,
    {
        let ghost p = Expression::Symbol(*symbol)@;
        proof {
            lemma_expr_view(Expression::Symbol(*symbol));
        }
        let node = egraph.node(node_id);
        let node_symbol = match node.try_as_symbol() {
            Some(s) => s,
            None => {
                return Vec::new();
            },
        };
        if !node_symbol.same_shape_as(symbol) {
            return Vec::new();
        }
        let children = &node_symbol.children;
        let ghost cs = p->1;
        assert(p == Term::Sym(symbol.id, cs));
        proof {
            assert(children_below(egraph.nodes_view()[node_id as int], egraph.nodes_view().len()));
        }
        let mut child_matches: Vec<Vec<EGraphMatch>> = Vec::new();
        let mut k: usize = 0;
        while k < children.len()
            invariant
                egraph.wf(),
                node_id < egraph.nodes_view().len(),
                egraph.nodes_view()[node_id as int] == NodeView::Sym(node_symbol.id, children@),
                children_below(egraph.nodes_view()[node_id as int], egraph.nodes_view().len()),
                children@.len() == symbol.children@.len() == cs.len(),
                p == Expression::Symbol(*symbol)@,
                p == Term::Sym(symbol.id, cs),
                forall|j: int| 0 <= j < cs.len() ==> #[trigger] cs[j] == symbol.children@[j]@,
                child_matches@.len() == k,
                k <= children@.len(),
                forall|j: int, q: int|
                    0 <= j < child_matches@.len() && 0 <= q < child_matches@[j]@.len() ==> match_at(
                        egraph,
                        cs[j],
                        children@[j],
                        #[trigger] child_matches@[j]@[q]@,
                    ),
                forall|j: int, sigma: Map<VariableId, ClassId>|
                    0 <= j < k && exact_vars(cs[j], sigma) && #[trigger] listed_instance(egraph, cs[j], children@[j], sigma)
                        ==> exists|q: int| 0 <= q < child_matches@[j]@.len() && #[trigger] child_matches@[j]@[q]@.1 == sigma,
            decreases children@.len() - k,
        {
            assert(node_children(egraph.nodes_view()[node_id as int])[k as int] == children@[k as int]);
            assert(cs[k as int] == symbol.children@[k as int]@);
            assert(decreases_to!(p => p->1));
            assert(decreases_to!(p->1 => p->1[k as int]));
            let ms = self.try_match_at_class(egraph, children[k], &symbol.children[k]);
            let ghost before_cm = child_matches@;
            let ghost msv = ms@;
            child_matches.push(ms);
            proof {
                assert forall|j: int, sigma: Map<VariableId, ClassId>|
                    0 <= j < k + 1 && exact_vars(cs[j], sigma) && #[trigger] listed_instance(egraph, cs[j], children@[j], sigma)
                    implies exists|q: int| 0 <= q < child_matches@[j]@.len() && #[trigger] child_matches@[j]@[q]@.1 == sigma by {
                    if j < k {
                        assert(child_matches@[j] == before_cm[j]);
                        let q = choose|q: int| 0 <= q < before_cm[j]@.len() && #[trigger] before_cm[j]@[q]@.1 == sigma;
                        assert(child_matches@[j]@[q]@.1 == sigma);
                    } else {
                        assert(child_matches@[j]@ == msv);
                        let q = choose|q: int| 0 <= q < msv.len() && #[trigger] msv[q]@.1 == sigma;
                        assert(child_matches@[j]@[q]@.1 == sigma);
                    }
                }
            }
            k = k + 1;
        }
        let root = egraph.containing_class(node_id);
        let mut out: Vec<EGraphMatch> = Vec::new();
        proof {
            assert forall|j: int| 0 <= j < children@.len() implies #[trigger] children@[j] < egraph.nodes_view().len() by {
                assert(node_children(egraph.nodes_view()[node_id as int])[j] == children@[j]);
            }
            assert(egraph.uf_view()[root as int] == root);
        }
        let acc = EGraphMatch::empty(root);
        proof {
            assert forall|v: VariableId| vars_upto(cs, 0, v) implies #[trigger] acc@.1.contains_key(v) by {}
        }
        self.combine(egraph, root, symbol.id, Ghost(cs), children, &child_matches, 0, acc, &mut out);
        proof {
            assert forall|sigma: Map<VariableId, ClassId>|
                exact_vars(p, sigma) && #[trigger] node_holds(egraph, node_id, p, sigma) implies holds_match(
                out@,
                egraph.uf_view()[node_id as int],
                sigma,
            ) by {
                assert(egraph.nodes_view()[node_id as int]->1 == children@);
                assert forall|j: int| 0 <= j < cs.len() implies #[trigger] listed_instance(egraph, cs[j], children@[j], sigma) by {}
            }
        }
        proof {
            assert(p == Term::Sym(symbol.id, cs));
            assert forall|i: int| 0 <= i < out@.len() implies match_at(egraph, p, node_id, #[trigger] out@[i]@) by {
                let m = out@[i]@;
                let views = egraph.nodes_view();
                assert(combo_ok(egraph, root, symbol.id, cs, children@, m));
                assert(views[node_id as int] is Sym);
                assert(views[node_id as int]->1 == children@);
                assert(views[node_id as int]->Sym_0 == symbol.id);
                assert(forall|k: int| 0 <= k < cs.len() ==> pattern_in_class(views, egraph.uf_view(), #[trigger] cs[k], views[node_id as int]->1[k], m.1));
                assert(pattern_in_class(views, egraph.uf_view(), p, node_id, m.1));
                assert forall|v: VariableId| #[trigger] m.1.contains_key(v) implies has_var(p, v) && m.1[v] < egraph.nodes_view().len() by {}
            }
        }
        out
    }

    /// The matches of `expression` at class `class_id`.
    fn try_match_at_class<A>(&self, egraph: &EGraph<A>, class_id: ClassId, expression: &Expression) -> (r: Vec<
        EGraphMatch,
    >)
        requires
            egraph.wf(),
            class_id < egraph.nodes_view().len(),
        ensures
            forall|i: int| 0 <= i < r@.len() ==> match_at(egraph, expression@, class_id, #[trigger] r@[i]@),
            forall|sigma: Map<VariableId, ClassId>|
                exact_vars(expression@, sigma) && #[trigger] listed_instance(egraph, expression@, class_id, sigma)
                    ==> exists|i: int| 0 <= i < r@.len() && #[trigger] r@[i]@.1 == sigma,
        decreases expression@, 1int,
    {
        proof {
            lemma_expr_view(*expression);
        }
        match expression {
            Expression::Literal(literal) => {
                let mut out: Vec<EGraphMatch> = Vec::new();
                if egraph.class_contains_literal(class_id, literal) {
                    proof {
                        let c = egraph.uf_view()[class_id as int];
                        assert(egraph.class_ok(c as int));
                        let cl = egraph.class_at(c as int)->0;
                        let k = choose|k: int|
                            0 <= k < cl.nodes_view().len() && egraph.nodes_view()[#[trigger] cl.nodes_view()[k] as int]
                                == NodeView::Lit(*literal);
                        let x = cl.nodes_view()[k];
                        assert(egraph.nodes_view()[x as int] == NodeView::Lit(*literal));
                        assert(egraph.uf_view()[x as int] == egraph.uf_view()[class_id as int]);
                    }
                    out.push(EGraphMatch::empty(class_id));
                }
                proof {
                    assert forall|i: int| 0 <= i < out@.len() implies match_at(egraph, expression@, class_id, #[trigger] out@[i]@) by {
                        assert(out@[i]@.1 =~= Map::<VariableId, ClassId>::empty());
                    }
                    assert forall|sigma: Map<VariableId, ClassId>|
                        exact_vars(expression@, sigma) && #[trigger] listed_instance(egraph, expression@, class_id, sigma)
                        implies exists|i: int| 0 <= i < out@.len() && #[trigger] out@[i]@.1 == sigma by {
                        assert(sigma =~= Map::<VariableId, ClassId>::empty());
                        assert(out@[0]@.1 == sigma);
                    }
                }
                out
            },
            Expression::Symbol(symbol) => {
                assert(*expression == Expression::Symbol(*symbol));
                let ids = egraph.nodes(class_id);
                let ghost c = egraph.uf_view()[class_id as int];
                proof {
                    assert(egraph.class_ok(c as int));
                }
                let mut out: Vec<EGraphMatch> = Vec::new();
                let mut i: usize = 0;
                while i < ids.len()
                    invariant
                        egraph.wf(),
                        class_id < egraph.nodes_view().len(),
                        c == egraph.uf_view()[class_id as int],
                        ids@ == egraph.class_at(c as int)->0.nodes_view(),
                        egraph.class_ok(c as int),
                        expression@ == Expression::Symbol(*symbol)@,
                        i <= ids@.len(),
                        forall|j: int| 0 <= j < out@.len() ==> match_at(egraph, expression@, class_id, #[trigger] out@[j]@),
                        forall|sigma: Map<VariableId, ClassId>|
                            exact_vars(expression@, sigma) && (exists|kk: int|
                                0 <= kk < i && #[trigger] node_holds(egraph, ids@[kk], expression@, sigma)) ==> exists|t: int|
                                0 <= t < out@.len() && #[trigger] out@[t]@.1 == sigma,
                    decreases ids@.len() - i,
                {
                    let ghost out_before = out@;
                    let node_id = ids[i];
                    assert(node_id < egraph.nodes_view().len());
                    assert(egraph.uf_view()[node_id as int] == c);
                    let found = self.try_match_symbol_at_node(egraph, node_id, symbol);
                    let mut q: usize = 0;
                    while q < found.len()
                        invariant
                            egraph.wf(),
                            class_id < egraph.nodes_view().len(),
                            node_id < egraph.nodes_view().len(),
                            egraph.uf_view()[node_id as int] == egraph.uf_view()[class_id as int],
                            expression@ == Expression::Symbol(*symbol)@,
                            forall|j: int| 0 <= j < found@.len() ==> match_at(egraph, expression@, node_id, #[trigger] found@[j]@),
                            forall|j: int| 0 <= j < out@.len() ==> match_at(egraph, expression@, class_id, #[trigger] out@[j]@),
                            q <= found@.len(),
                            out@.len() == out_before.len() + q,
                            forall|t: int| 0 <= t < out_before.len() ==> #[trigger] out@[t]@ == out_before[t]@,
                            forall|t: int| 0 <= t < q ==> #[trigger] out@[out_before.len() + t]@ == found@[t]@,
                        decreases found@.len() - q,
                    {
                        let m = found[q].copy();
                        proof {
                            let mv = found@[q as int]@;
                            assert(match_at(egraph, expression@, node_id, mv));
                            assert(pattern_in_class(egraph.nodes_view(), egraph.uf_view(), expression@, class_id, mv.1));
                        }
                        out.push(m);
                        q = q + 1;
                    }
                    proof {
                        assert forall|sigma: Map<VariableId, ClassId>|
                            exact_vars(expression@, sigma) && (exists|kk: int|
                                0 <= kk < i + 1 && #[trigger] node_holds(egraph, ids@[kk], expression@, sigma)) implies exists|t: int|
                            0 <= t < out@.len() && #[trigger] out@[t]@.1 == sigma by {
                            let kk = choose|kk: int| 0 <= kk < i + 1 && #[trigger] node_holds(egraph, ids@[kk], expression@, sigma);
                            if kk < i {
                                let t = choose|t: int| 0 <= t < out_before.len() && #[trigger] out_before[t]@.1 == sigma;
                                assert(out@[t]@ == out_before[t]@);
                            } else {
                                assert(holds_match(found@, egraph.uf_view()[node_id as int], sigma));
                                let t = choose|t: int| 0 <= t < found@.len() && #[trigger] found@[t]@ == (egraph.uf_view()[node_id as int], sigma);
                                assert(out@[out_before.len() + t]@ == found@[t]@);
                            }
                        }
                    }
                    i = i + 1;
                }
                proof {
                    assert forall|sigma: Map<VariableId, ClassId>|
                        exact_vars(expression@, sigma) && #[trigger] listed_instance(egraph, expression@, class_id, sigma)
                        implies exists|i: int| 0 <= i < out@.len() && #[trigger] out@[i]@.1 == sigma by {
                        let p = expression@;
                        let views = egraph.nodes_view();
                        let kk = choose|kk: int|
                            0 <= kk < ids@.len() && #[trigger] views[ids@[kk] as int] is Sym && views[ids@[kk] as int]->Sym_0 == p->Sym_0
                                && views[ids@[kk] as int]->1.len() == p->1.len() && forall|j: int|
                                0 <= j < p->1.len() ==> listed_instance(egraph, #[trigger] p->1[j], views[ids@[kk] as int]->1[j], sigma);
                        assert(node_holds(egraph, ids@[kk], p, sigma));
                    }
                }
                out
            },
            Expression::Variable(variable_id) => {
                let mut m = EGraphMatch::empty(class_id);
                m.insert(*variable_id, class_id);
                let mut out: Vec<EGraphMatch> = Vec::new();
                out.push(m);
                proof {
                    assert forall|j: int| 0 <= j < out@.len() implies match_at(egraph, expression@, class_id, #[trigger] out@[j]@) by {
                        let mv = out@[j]@;
                        assert(mv.1 =~= Map::<VariableId, ClassId>::empty().insert(*variable_id, class_id));
                        assert(egraph.uf_view()[class_id as int] < egraph.nodes_view().len());
                    }
                    assert forall|sigma: Map<VariableId, ClassId>|
                        exact_vars(expression@, sigma) && #[trigger] listed_instance(egraph, expression@, class_id, sigma)
                        implies exists|i: int| 0 <= i < out@.len() && #[trigger] out@[i]@.1 == sigma by {
                        assert(sigma =~= Map::<VariableId, ClassId>::empty().insert(*variable_id, class_id));
                        assert(out@[0]@.1 == sigma);
                    }
                }
                out
            },
        }
    }
}

impl Matcher for TopDownMatcher {
    /// The matches of `expression` at every class, by increasing class id.
    fn try_match<A>(&self, egraph: &EGraph<A>, expression: &Expression) -> (r: Vec<EGraphMatch>)
        ensures
            forall|c: ClassId, sigma: Map<VariableId, ClassId>|
                c < egraph.nodes_view().len() && egraph.uf_view()[c as int] == c && exact_vars(expression@, sigma)
                    && #[trigger] listed_instance(egraph, expression@, c, sigma) ==> exists|i: int|
                    0 <= i < r@.len() && #[trigger] r@[i]@.1 == sigma && egraph.uf_view()[r@[i]@.0 as int] == c,
    {
        let classes = egraph.iter_classes();
        let ghost n = egraph.nodes_view().len();
        proof {
            egraph.lemma_size_fits();
            crate::rewriting::egraph::lemma_roots_upto(egraph.uf_view(), n as int);
        }
        let mut out: Vec<EGraphMatch> = Vec::new();
        let mut i: usize = 0;
        proof {
            egraph.lemma_roots_below();
        }
        while i < classes.len()
            invariant
                egraph.wf(),
                forall|j: int| 0 <= j < classes@.len() ==> #[trigger] classes@[j] < egraph.nodes_view().len(),
                forall|j: int| 0 <= j < out@.len() ==> sound_match(egraph, expression@, #[trigger] out@[j]@),
                i <= classes@.len(),
                n == egraph.nodes_view().len(),
                forall|j: int| 0 <= j < classes@.len() ==> egraph.uf_view()[#[trigger] classes@[j] as int] == classes@[j],
                forall|c: ClassId, sigma: Map<VariableId, ClassId>|
                    (exists|t: int| 0 <= t < i && #[trigger] classes@[t] == c) && exact_vars(expression@, sigma)
                        && #[trigger] listed_instance(egraph, expression@, c, sigma) ==> exists|j: int|
                        0 <= j < out@.len() && #[trigger] out@[j]@.1 == sigma && egraph.uf_view()[out@[j]@.0 as int] == c,
            decreases classes@.len() - i,
        {
            let ghost out_before = out@;
            let found = self.try_match_at_class(egraph, classes[i], expression);
            let mut q: usize = 0;
            while q < found.len()
                invariant
                    egraph.wf(),
                    classes[i as int] < egraph.nodes_view().len(),
                    forall|j: int| 0 <= j < found@.len() ==> match_at(egraph, expression@, classes[i as int], #[trigger] found@[j]@),
                    forall|j: int| 0 <= j < out@.len() ==> sound_match(egraph, expression@, #[trigger] out@[j]@),
                    q <= found@.len(),
                    out@.len() == out_before.len() + q,
                    forall|t: int| 0 <= t < out_before.len() ==> #[trigger] out@[t]@ == out_before[t]@,
                    forall|t: int| 0 <= t < q ==> #[trigger] out@[out_before.len() + t]@ == found@[t]@,
                decreases found@.len() - q,
            {
                let m = found[q].copy();
                proof {
                    let mv = found@[q as int]@;
                    assert(match_at(egraph, expression@, classes[i as int], mv));
                    assert(pattern_in_class(egraph.nodes_view(), egraph.uf_view(), expression@, mv.0, mv.1));
                }
                out.push(m);
                q = q + 1;
            }
            proof {
                assert forall|c: ClassId, sigma: Map<VariableId, ClassId>|
                    (exists|t: int| 0 <= t < i + 1 && #[trigger] classes@[t] == c) && exact_vars(expression@, sigma)
                        && #[trigger] listed_instance(egraph, expression@, c, sigma) implies exists|j: int|
                    0 <= j < out@.len() && #[trigger] out@[j]@.1 == sigma && egraph.uf_view()[out@[j]@.0 as int] == c by {
                    let t = choose|t: int| 0 <= t < i + 1 && #[trigger] classes@[t] == c;
                    if t < i {
                        let j = choose|j: int|
                            0 <= j < out_before.len() && #[trigger] out_before[j]@.1 == sigma && egraph.uf_view()[out_before[j]@.0 as int] == c;
                        assert(out@[j]@ == out_before[j]@);
                    } else {
                        let q2 = choose|q2: int| 0 <= q2 < found@.len() && #[trigger] found@[q2]@.1 == sigma;
                        assert(match_at(egraph, expression@, classes[i as int], found@[q2]@));
                        assert(out@[out_before.len() + q2]@ == found@[q2]@);
                    }
                }
            }
            i = i + 1;
        }
        proof {
            assert forall|c: ClassId, sigma: Map<VariableId, ClassId>|
                c < egraph.nodes_view().len() && egraph.uf_view()[c as int] == c && exact_vars(expression@, sigma)
                    && #[trigger] listed_instance(egraph, expression@, c, sigma) implies exists|j: int|
                0 <= j < out@.len() && #[trigger] out@[j]@.1 == sigma && egraph.uf_view()[out@[j]@.0 as int] == c by {
                crate::rewriting::egraph::lemma_roots_upto_complete(egraph.uf_view(), n as int, c);
                let t = choose|t: int| 0 <= t < classes@.len() && classes@[t] == c;
                assert(classes@[t] == c);
            }
        }
        out
    }
}

} // verus!
