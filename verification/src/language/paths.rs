//! Positions in expressions: paths from the root, the subexpressions they
//! reach, and replacement of the subexpression at a path.

use vstd::prelude::*;

use super::expression::{has_var, lemma_expr_view, Expression, Term, VariableId};
use super::symbol::Symbol;

verus! {

broadcast use vstd::std_specs::vec::group_vec_axioms, vstd::seq::group_seq_axioms;

/// A path from the root of an expression: the index of the child taken at each step.
#[derive(Debug, Clone, PartialEq, Eq, Hash)]
pub struct OwnedPath(pub Vec<usize>);

impl View for OwnedPath {
    type V = Seq<usize>;

    open spec fn view(&self) -> Seq<usize> {
        self.0@
    }
}

impl OwnedPath {
    /// The path as a slice of child indices.
    pub fn as_path(&self) -> (r: &[usize])
        ensures
            r@ == self@,
    {
        self.0.as_slice()
    }

    /// A copy of the path.
    pub fn copy(&self) -> (r: OwnedPath)
        ensures
            r@ == self@,
    {
        OwnedPath(copy_indices(&self.0))
    }
}

/// Copies a list of indices.
pub fn copy_indices(v: &Vec<usize>) -> (r: Vec<usize>)
    ensures
        r@ == v@,
{
    let mut out: Vec<usize> = Vec::new();
    let mut i: usize = 0;
    while i < v.len()
        invariant
            i <= v@.len(),
            out@ == v@.take(i as int),
        decreases v.len() - i,
    {
        out.push(v[i]);
        assert(out@ =~= v@.take(i + 1));
        i = i + 1;
    }
    assert(out@ =~= v@);
    out
}

/// The views of a list of paths.
pub open spec fn path_views(v: Seq<OwnedPath>) -> Seq<Seq<usize>> {
    v.map_values(|p: OwnedPath| p@)
}

/// The subterm of `t` reached by following `p`, if `p` is a position of `t`.
pub open spec fn subterm(t: Term, p: Seq<usize>) -> Option<Term>
    decreases p.len(),
{
    if p.len() == 0 {
        Some(t)
    } else if t is Sym && p[0] < t->1.len() {
        subterm(t->1[p[0] as int], p.drop_first())
    } else {
        None
    }
}

/// Lemma: the variables of a subterm are variables of the whole term.
pub proof fn lemma_subterm_vars(t: Term, p: Seq<usize>, v: VariableId)
    requires
        subterm(t, p) matches Some(s) && has_var(s, v),
    ensures
        has_var(t, v),
    decreases p.len(),
{
    if p.len() > 0 {
        let c = t->1[p[0] as int];
        lemma_subterm_vars(c, p.drop_first(), v);
        assert(has_var(t->1[p[0] as int], v));
    }
}

/// `t` with the subterm at `p` replaced by `n`; `t` itself when `p` is not a position of `t`.
pub open spec fn replace_at(t: Term, p: Seq<usize>, n: Term) -> Term
    decreases p.len(),
{
    if p.len() == 0 {
        n
    } else if t is Sym && p[0] < t->1.len() {
        Term::Sym(t->Sym_0, t->1.update(p[0] as int, replace_at(t->1[p[0] as int], p.drop_first(), n)))
    } else {
        t
    }
}

/// All positions of `t` in pre-order: the root first, then the positions of each child in order.
pub open spec fn paths_of(t: Term) -> Seq<Seq<usize>>
    decreases t, 0int,
{
    match t {
        Term::Sym(_, cs) => seq![Seq::<usize>::empty()] + child_paths(cs, cs.len() as int),
        _ => seq![Seq::<usize>::empty()],
    }
}

/// The positions inside the first `n` children, each prefixed by the child index.
pub open spec fn child_paths(cs: Seq<Term>, n: int) -> Seq<Seq<usize>>
    decreases cs, n,
{
    if n <= 0 || n > cs.len() {
        Seq::empty()
    } else {
        child_paths(cs, n - 1) + paths_of(cs[n - 1]).map_values(|p: Seq<usize>| seq![(n - 1) as usize] + p)
    }
}

/// Every element of `s` with `prefix` in front.
pub open spec fn prefixed(s: Seq<Seq<usize>>, prefix: Seq<usize>) -> Seq<Seq<usize>> {
    s.map_values(|p: Seq<usize>| prefix + p)
}

proof fn lemma_prefixed_add(a: Seq<Seq<usize>>, b: Seq<Seq<usize>>, prefix: Seq<usize>)
    ensures
        prefixed(a + b, prefix) == prefixed(a, prefix) + prefixed(b, prefix),
{
    assert(prefixed(a + b, prefix) =~= prefixed(a, prefix) + prefixed(b, prefix));
}

proof fn lemma_prefixed_twice(s: Seq<Seq<usize>>, i: usize, prefix: Seq<usize>)
    ensures
        prefixed(s.map_values(|p: Seq<usize>| seq![i] + p), prefix) == prefixed(s, prefix.push(i)),
{
    let l = prefixed(s.map_values(|p: Seq<usize>| seq![i] + p), prefix);
    let r = prefixed(s, prefix.push(i));
    assert forall|k: int| 0 <= k < s.len() implies l[k] == r[k] by {
        assert(prefix + (seq![i] + s[k]) =~= prefix.push(i) + s[k]);
    }
    assert(l =~= r);
}

impl Expression {
    /// Appends the positions of the expression, each behind `prefix`, to `out`.
    #[verifier::loop_isolation(false)]
    fn collect_paths(&self, prefix: &Vec<usize>, out: &mut Vec<OwnedPath>)
        ensures
            path_views(final(out)@) == path_views(old(out)@) + prefixed(paths_of(self@), prefix@),
        decreases self@,
    {
        proof { lemma_expr_view(*self); }
        let ghost start = path_views(out@);
        out.push(OwnedPath(copy_indices(prefix)));
        proof {
            assert(path_views(out@) =~= start.push(prefix@));
        }
        match self {
            Expression::Symbol(s) => {
                let ghost cs = self@->1;
                let mut i: usize = 0;
                while i < s.children.len()
                    invariant
                        i <= s.children@.len(),
                        cs.len() == s.children@.len(),
                        path_views(out@) == start.push(prefix@) + prefixed(child_paths(cs, i as int), prefix@),
                    decreases s.children.len() - i,
                {
                    proof { assert(cs[i as int] == s.children@[i as int]@); }
                    let mut child_prefix = copy_indices(prefix);
                    child_prefix.push(i);
                    let ghost before = path_views(out@);
                    s.children[i].collect_paths(&child_prefix, out);
                    proof {
                        let m = paths_of(cs[i as int]).map_values(|p: Seq<usize>| seq![i] + p);
                        assert(child_paths(cs, i + 1) == child_paths(cs, i as int) + m);
                        lemma_prefixed_add(child_paths(cs, i as int), m, prefix@);
                        lemma_prefixed_twice(paths_of(cs[i as int]), i, prefix@);
                        assert(child_prefix@ == prefix@.push(i));
                    }
                    i = i + 1;
                }
                proof {
                    assert(paths_of(self@) == seq![Seq::<usize>::empty()] + child_paths(cs, cs.len() as int));
                    lemma_prefixed_add(seq![Seq::<usize>::empty()], child_paths(cs, cs.len() as int), prefix@);
                    assert(prefixed(seq![Seq::<usize>::empty()], prefix@) =~= seq![prefix@]);
                    assert(path_views(out@) =~= start + prefixed(paths_of(self@), prefix@));
                }
            },
            _ => {
                proof {
                    assert(prefixed(paths_of(self@), prefix@) =~= seq![prefix@]);
                }
            },
        }
    }

    /// All positions of the expression, in pre-order (the root first).
    pub fn iter_paths(&self) -> (r: Vec<OwnedPath>)
        ensures
            path_views(r@) == paths_of(self@),
    {
        let mut out: Vec<OwnedPath> = Vec::new();
        let empty: Vec<usize> = Vec::new();
        self.collect_paths(&empty, &mut out);
        proof {
            assert(path_views(out@) =~= paths_of(self@)) by {
                assert forall|k: int| 0 <= k < paths_of(self@).len() implies path_views(out@)[k] == paths_of(self@)[k] by {
                    assert(Seq::<usize>::empty() + paths_of(self@)[k] =~= paths_of(self@)[k]);
                }
            }
        }
        out
    }

    /// The subexpression at `path`, if `path` is a position of the expression.
    pub fn subexpression(&self, path: &[usize]) -> (r: Option<&Expression>)
        ensures
            r is Some == subterm(self@, path@) is Some,
            r matches Some(e) ==> subterm(self@, path@) == Some(e@),
    {
        let mut current = self;
        let mut k: usize = 0;
        assert(path@.skip(0) =~= path@);
        while k < path.len()
            invariant
                k <= path@.len(),
                subterm(self@, path@) == subterm(current@, path@.skip(k as int)),
            decreases path.len() - k,
        {
            proof {
                lemma_expr_view(*current);
                assert(path@.skip(k as int).drop_first() =~= path@.skip(k + 1));
            }
            match current {
                Expression::Symbol(s) => {
                    if path[k] < s.children.len() {
                        current = &s.children[path[k]];
                    } else {
                        return None;
                    }
                },
                _ => {
                    return None;
                },
            }
            k = k + 1;
        }
        assert(path@.skip(k as int) =~= Seq::<usize>::empty());
        Some(current)
    }

    /// The expression with the subexpression at `path[from..]` replaced by `new`;
    /// unchanged when that path is not a position.
    #[verifier::loop_isolation(false)]
    fn replace_from(self, path: &[usize], from: usize, new: Expression) -> (r: Expression)
        requires
            from <= path@.len(),
        ensures
            r@ == replace_at(self@, path@.skip(from as int), new@),
        decreases path@.len() - from,
    {
        proof {
            lemma_expr_view(self);
            assert(path@.skip(from as int).len() == path@.len() - from);
        }
        if from == path.len() {
            return new;
        }
        let ghost orig = self@;
        proof {
            assert(path@.skip(from as int)[0] == path@[from as int]);
            assert(path@.skip(from as int).drop_first() =~= path@.skip(from + 1));
        }
        match self {
            Expression::Symbol(s) => {
                let idx = path[from];
                if idx < s.children.len() {
                    let Symbol { id, mut children } = s;
                    let ghost cv = children@;
                    let child = children.remove(idx);
                    proof { assert(orig->1[idx as int] == child@); }
                    let replaced = child.replace_from(path, from + 1, new);
                    children.insert(idx, replaced);
                    let r = Expression::Symbol(Symbol { id, children });
                    proof {
                        lemma_expr_view(r);
                        assert(r@->1 =~= orig->1.update(idx as int, replace_at(orig->1[idx as int], path@.skip(from + 1), new@))) by {
                            assert forall|j: int| 0 <= j < cv.len() && j != idx implies r@->1[j] == orig->1[j] by {
                                assert(orig->1[j] == cv[j]@);
                            }
                        }
                    }
                    r
                } else {
                    Expression::Symbol(s)
                }
            },
            other => other,
        }
    }

    /// The expression with the subexpression at `path` replaced by `new`;
    /// unchanged when `path` is not a position of the expression.
    pub fn replace_at_path(self, path: &[usize], new: Expression) -> (r: Expression)
        ensures
            r@ == replace_at(self@, path@, new@),
    {
        assert(path@.skip(0) =~= path@);
        self.replace_from(path, 0, new)
    }
}

} // verus!
