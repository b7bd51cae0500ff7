//! Equations between two expressions.

use vstd::prelude::*;

use crate::language::expression::{lemma_expr_view, Expression, Term};

verus! {

broadcast use vstd::std_specs::vec::group_vec_axioms, vstd::seq::group_seq_axioms;

/// The equation `left = right`.
#[derive(Debug)]
pub struct Equation {
    pub left: Expression,
    pub right: Expression,
}

impl View for Equation {
    type V = (Term, Term);

    open spec fn view(&self) -> (Term, Term) {
        (self.left@, self.right@)
    }
}

/// The equations between the children of two symbols of the same shape.
pub open spec fn child_equations(ls: Seq<Term>, rs: Seq<Term>) -> Seq<(Term, Term)> {
    Seq::new(ls.len(), |i: int| (ls[i], rs[i]))
}

impl Equation {
    /// The equation `left = right`.
    pub fn new(left: Expression, right: Expression) -> (r: Self)
        ensures
            r@ == (left@, right@),
    {
        Equation { left, right }
    }

    /// `true` when both sides are the same expression.
    pub fn is_trivial(&self) -> (r: bool)
        ensures
            r == (self@.0 == self@.1),
    {
        self.left.same_as(&self.right)
    }

    /// Swaps the sides.
    pub fn reorient(&mut self)
        ensures
            final(self)@ == (old(self)@.1, old(self)@.0),
    {
        std::mem::swap(&mut self.left, &mut self.right);
    }

    /// When both sides apply the same symbol to the same number of children,
    /// the equations between their children, in order; `None` otherwise.
    pub fn decompose_if_matching_symbol(&self) -> (r: Option<Vec<Equation>>)
        ensures
            r is Some == (self@.0 is Sym && self@.1 is Sym && self@.0->Sym_0 == self@.1->Sym_0 && self@.0->1.len()
                == self@.1->1.len()),
            r matches Some(es) ==> es@.map_values(|e: Equation| e@) == child_equations(self@.0->1, self@.1->1),
    {
        proof {
            lemma_expr_view(self.left);
            lemma_expr_view(self.right);
        }
        match (&self.left, &self.right) {
            (Expression::Symbol(a), Expression::Symbol(b)) => {
                if a.id != b.id || a.children.len() != b.children.len() {
                    return None;
                }
                let mut out: Vec<Equation> = Vec::new();
                let mut i: usize = 0;
                while i < a.children.len()
                    invariant
                        self@.0 is Sym && self@.1 is Sym,
                        self@.0->1.len() == a.children@.len() == b.children@.len(),
                        self@.1->1.len() == b.children@.len(),
                        forall|j: int| 0 <= j < a.children@.len() ==> #[trigger] self@.0->1[j] == a.children@[j]@,
                        forall|j: int| 0 <= j < b.children@.len() ==> #[trigger] self@.1->1[j] == b.children@[j]@,
                        i <= a.children@.len(),
                        out@.len() == i,
                        forall|j: int| 0 <= j < i ==> #[trigger] out@[j]@ == (self@.0->1[j], self@.1->1[j]),
                    decreases a.children@.len() - i,
                {
                    out.push(Equation::new(a.children[i].clone(), b.children[i].clone()));
                    i = i + 1;
                }
                assert(out@.map_values(|e: Equation| e@) =~= child_equations(self@.0->1, self@.1->1));
                Some(out)
            },
            _ => None,
        }
    }
}

impl Clone for Equation {
    fn clone(&self) -> (r: Self)
        ensures
            r@ == self@,
    {
        Equation { left: self.left.clone(), right: self.right.clone() }
    }
}

} // verus!
