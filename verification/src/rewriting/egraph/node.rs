//! E-graph nodes: a literal, or a symbol whose children are class ids.

use vstd::prelude::*;

use crate::language::expression::Literal;
use crate::language::symbol::{Symbol, SymbolId};

verus! {

broadcast use vstd::std_specs::vec::group_vec_axioms, vstd::seq::group_seq_axioms;

/// Identifier of a node.
pub type NodeId = usize;

/// Identifier of an equivalence class.
pub type ClassId = usize;

/// A node in an e-graph.
#[derive(Debug, PartialEq, Eq, Hash)]
pub enum Node {
    /// A literal constant value
    Literal(Literal),
    /// A function symbol with child class IDs
    Symbol(Symbol<ClassId>),
}

/// The mathematical model of a node.
pub enum NodeView {
    Lit(Literal),
    Sym(SymbolId, Seq<ClassId>),
}

impl View for Node {
    type V = NodeView;

    open spec fn view(&self) -> NodeView {
        match self {
            Node::Literal(l) => NodeView::Lit(*l),
            Node::Symbol(s) => NodeView::Sym(s.id, s.children@),
        }
    }
}

/// The children of a node (none for a literal).
pub open spec fn node_children(n: NodeView) -> Seq<ClassId> {
    match n {
        NodeView::Lit(_) => Seq::empty(),
        NodeView::Sym(_, cs) => cs,
    }
}

/// The node with every child replaced by its representative in `uf`.
pub open spec fn canon_node(n: NodeView, uf: Seq<usize>) -> NodeView {
    match n {
        NodeView::Lit(l) => NodeView::Lit(l),
        NodeView::Sym(id, cs) => NodeView::Sym(id, cs.map_values(|c: ClassId| uf[c as int])),
    }
}

/// `true` when every child of `n` is below `len`.
pub open spec fn children_below(n: NodeView, len: nat) -> bool {
    forall|i: int| 0 <= i < node_children(n).len() ==> #[trigger] node_children(n)[i] < len
}

/// Copies a list of ids.
pub fn copy_ids(v: &Vec<usize>) -> (r: Vec<usize>)
    ensures
        r@ == v@,
{
    let mut out: Vec<usize> = Vec::new();
    let mut i: usize = 0;
    while i < v.len()
        invariant
            i <= v@.len(),
            out@ == v@.take(i as int),
        decreases v.len() - i,
    {
        out.push(v[i]);
        assert(out@ =~= v@.take(i + 1));
        i = i + 1;
    }
    assert(out@ =~= v@);
    out
}

impl Node {
    /// The child class ids of the node (empty for a literal).
    pub fn iter_children(&self) -> (r: &[ClassId])
        ensures
            r@ == node_children(self@),
    {
        match self {
            Node::Literal(_) => &[],
            Node::Symbol(symbol) => symbol.children.as_slice(),
        }
    }

    /// The child class ids of the node (none for a literal), to change in place.
    pub fn iter_mut_children(&mut self) -> (r: &mut [ClassId])
        ensures
            r@ == node_children(old(self)@),
            final(self)@ == (match old(self)@ {
                NodeView::Lit(l) => NodeView::Lit(l),
                NodeView::Sym(id, _) => NodeView::Sym(id, final(r)@),
            }),
    {
        match self {
            Node::Literal(_) => &mut [],
            Node::Symbol(symbol) => symbol.children.as_mut_slice(),
        }
    }

    /// Returns the symbol; the node must be a symbol.
    pub fn as_symbol(&self) -> (r: &Symbol<ClassId>)
        requires
            self@ is Sym,
        ensures
            self@ == NodeView::Sym(r.id, r.children@),
    {
        self.try_as_symbol().unwrap()
    }

    /// Returns the symbol if this node is a symbol, `None` if it's a literal.
    pub fn try_as_symbol(&self) -> (r: Option<&Symbol<ClassId>>)
        ensures
            r is Some == self@ is Sym,
            r matches Some(s) ==> self@ == NodeView::Sym(s.id, s.children@),
    {
        match self {
            Node::Literal(_) => None,
            Node::Symbol(symbol) => Some(symbol),
        }
    }

    /// `true` when both nodes are equal.
    pub fn same_as(&self, other: &Node) -> (r: bool)
        ensures
            r == (self@ == other@),
    {
        match (self, other) {
            (Node::Literal(a), Node::Literal(b)) => *a == *b,
            (Node::Symbol(a), Node::Symbol(b)) => {
                if a.id != b.id || a.children.len() != b.children.len() {
                    assert(a.id != b.id || a.children@.len() != b.children@.len());
                    assert(self@ == NodeView::Sym(a.id, a.children@));
                    assert(other@ == NodeView::Sym(b.id, b.children@));
                    return false;
                }
                let mut i: usize = 0;
                while i < a.children.len()
                    invariant
                        i <= a.children@.len(),
                        a.children@.len() == b.children@.len(),
                        self@ == NodeView::Sym(a.id, a.children@),
                        other@ == NodeView::Sym(b.id, b.children@),
                        forall|j: int| 0 <= j < i ==> a.children@[j] == b.children@[j],
                    decreases a.children.len() - i,
                {
                    if a.children[i] != b.children[i] {
                        assert(self@->1[i as int] != other@->1[i as int]);
                        return false;
                    }
                    i = i + 1;
                }
                assert(a.children@ =~= b.children@);
                true
            },
            _ => false,
        }
    }

    /// A node with the given view's shape and children `children`.
    pub fn with_children(&self, children: Vec<ClassId>) -> (r: Node)
        requires
            children@.len() == node_children(self@).len(),
        ensures
            r@ == match self@ {
                NodeView::Lit(l) => NodeView::Lit(l),
                NodeView::Sym(id, _) => NodeView::Sym(id, children@),
            },
    {
        match self {
            Node::Literal(l) => Node::Literal(*l),
            Node::Symbol(s) => Node::Symbol(Symbol { id: s.id, children }),
        }
    }
}

impl Clone for Node {
    fn clone(&self) -> (r: Self)
        ensures
            r@ == self@,
    {
        match self {
            Node::Literal(l) => Node::Literal(*l),
            Node::Symbol(s) => Node::Symbol(Symbol { id: s.id, children: copy_ids(&s.children) }),
        }
    }
}

} // verus!
