//! Drawing e-graphs: a description in the `dot` language of Graphviz, with a
//! cluster for each class, a box for each node, and an edge from each node to
//! (the cluster of) each child class.

use vstd::prelude::*;

use crate::language::expression::Literal;
use crate::language::parse::chars_of;
use crate::language::table::{decimal, decimal_chars, signed_decimal, signed_decimal_chars, string_from_chars};
use crate::language::Language;
use crate::rewriting::egraph::{children_below, roots_upto, Analysis, ClassId, EGraph, Node, NodeId, NodeView};

verus! {

broadcast use vstd::std_specs::vec::group_vec_axioms, vstd::seq::group_seq_axioms;

/// How a literal is shown: `Int(-3)`, `UInt(4)`.
pub open spec fn literal_label(l: Literal) -> Seq<char> {
    match l {
        Literal::Int(v) => "Int("@ + signed_decimal(v) + ")"@,
        Literal::UInt(v) => "UInt("@ + decimal(v as nat) + ")"@,
    }
}

/// How a node is shown: its literal, or the name of its symbol.
pub open spec fn node_label(n: NodeView, names: Seq<Seq<char>>) -> Seq<char> {
    match n {
        NodeView::Lit(l) => literal_label(l),
        NodeView::Sym(id, _) => names[id as int],
    }
}

/// The line of node `id`.
pub open spec fn node_line(id: NodeId, n: NodeView, names: Seq<Seq<char>>) -> Seq<char> {
    "    "@ + decimal(id as nat) + " [label=\""@ + node_label(n, names) + "\"];\n"@
}

/// The lines of the first `k` nodes of `ids`.
pub open spec fn node_lines(views: Seq<NodeView>, ids: Seq<NodeId>, names: Seq<Seq<char>>, k: int) -> Seq<char>
    decreases k,
{
    if k <= 0 {
        Seq::empty()
    } else {
        node_lines(views, ids, names, k - 1) + node_line(ids[k - 1], views[ids[k - 1] as int], names)
    }
}

/// The cluster of class `c`, with the text `label` of its data if it has one,
/// around the lines `body` of its nodes.
pub open spec fn cluster_text(c: ClassId, label: Option<Seq<char>>, body: Seq<char>) -> Seq<char> {
    "  subgraph cluster_"@ + decimal(c as nat) + " {\n"@ + "    label = \"Class "@ + decimal(c as nat) + match label {
        Some(s) => " ("@ + s + ")"@,
        None => Seq::empty(),
    } + "\";\n"@ + body + "  }\n"@
}

/// The nodes of class `c` of `eg`.
pub open spec fn class_nodes<A>(eg: &EGraph<A>, c: ClassId) -> Seq<NodeId> {
    eg.class_at(c as int)->0.nodes_view()
}

/// The clusters of the first `k` classes of `roots`, with the data texts `labels`.
pub open spec fn clusters_text<A>(
    eg: &EGraph<A>,
    names: Seq<Seq<char>>,
    labels: Seq<Option<Seq<char>>>,
    roots: Seq<ClassId>,
    k: int,
) -> Seq<char>
    decreases k,
{
    if k <= 0 {
        Seq::empty()
    } else {
        clusters_text(eg, names, labels, roots, k - 1) + cluster_text(
            roots[k - 1],
            labels[k - 1],
            node_lines(eg.nodes_view(), class_nodes(eg, roots[k - 1]), names, class_nodes(eg, roots[k - 1]).len() as int),
        )
    }
}

/// The node that stands for class `c` in edges: its first node, if any.
pub open spec fn class_repr<A>(eg: &EGraph<A>, c: ClassId) -> Option<NodeId> {
    if class_nodes(eg, c).len() > 0 {
        Some(class_nodes(eg, c)[0])
    } else {
        None
    }
}

/// The edge from node `from` to node `to` of cluster `cluster`, labelled `label`.
pub open spec fn edge_text(from: NodeId, to: NodeId, cluster: ClassId, label: nat) -> Seq<char> {
    "  "@ + decimal(from as nat) + " -> "@ + decimal(to as nat) + " [lhead=cluster_"@ + decimal(cluster as nat)
        + ", taillabel=\""@ + decimal(label) + "\"];\n"@
}

/// Appends the edge from node `from` to node `to` of cluster `cluster`, labelled `label`.
fn write_edge(out: &mut Vec<char>, from: NodeId, to: NodeId, cluster: ClassId, label: usize)
    ensures
        final(out)@ == old(out)@ + edge_text(from, to, cluster, label as nat),
{
    let ghost start = out@;
    push_str(out, "  ");
    push_decimal(out, from);
    push_str(out, " -> ");
    push_decimal(out, to);
    push_str(out, " [lhead=cluster_");
    push_decimal(out, cluster);
    push_str(out, ", taillabel=\"");
    push_decimal(out, label);
    push_str(out, "\"];\n");
    assert(out@ =~= start + edge_text(from, to, cluster, label as nat));
}

/// The edges from node `id` to the first `k` of its child classes `children`.
pub open spec fn edge_lines<A>(eg: &EGraph<A>, id: NodeId, children: Seq<ClassId>, k: int) -> Seq<char>
    decreases k,
{
    if k <= 0 {
        Seq::empty()
    } else {
        let canon = eg.uf_view()[children[k - 1] as int];
        edge_lines(eg, id, children, k - 1) + match class_repr(eg, canon) {
            Some(t) => edge_text(id, t, canon, (k - 1) as nat),
            None => Seq::empty(),
        }
    }
}

/// The edges from the first `k` nodes of `ids`.
pub open spec fn nodes_edges<A>(eg: &EGraph<A>, ids: Seq<NodeId>, k: int) -> Seq<char>
    decreases k,
{
    if k <= 0 {
        Seq::empty()
    } else {
        nodes_edges(eg, ids, k - 1) + match eg.nodes_view()[ids[k - 1] as int] {
            NodeView::Sym(_, ch) => edge_lines(eg, ids[k - 1], ch, ch.len() as int),
            NodeView::Lit(_) => Seq::empty(),
        }
    }
}

/// The edges from the nodes of the first `k` classes of `roots`.
pub open spec fn classes_edges<A>(eg: &EGraph<A>, roots: Seq<ClassId>, k: int) -> Seq<char>
    decreases k,
{
    if k <= 0 {
        Seq::empty()
    } else {
        classes_edges(eg, roots, k - 1) + nodes_edges(eg, class_nodes(eg, roots[k - 1]), class_nodes(eg, roots[k - 1]).len() as int)
    }
}

/// The opening lines of the description.
pub open spec fn dot_header() -> Seq<char> {
    "digraph egraph {\n"@ + "  compound=true;\n"@ + "  node [shape=\"box\"];\n"@
        + "  graph [splines=true, nodesep=1, ranksep=1.2];\n"@
}

/// The description of `eg` with the symbol names `names`, the classes showing
/// the data texts `labels`.
pub open spec fn dot_text<A>(eg: &EGraph<A>, names: Seq<Seq<char>>, labels: Seq<Option<Seq<char>>>) -> Seq<char> {
    let roots = roots_upto(eg.uf_view(), eg.nodes_view().len() as int);
    dot_header() + clusters_text(eg, names, labels, roots, roots.len() as int) + classes_edges(eg, roots, roots.len() as int)
        + "}\n\n"@
}

/// Appends the characters of `s` to `out`.
fn push_str(out: &mut Vec<char>, s: &str)
    ensures
        final(out)@ == old(out)@ + s@,
{
    let cs = chars_of(s);
    push_chars(out, &cs);
}

/// Appends the characters `cs` to `out`.
fn push_chars(out: &mut Vec<char>, cs: &Vec<char>)
    ensures
        final(out)@ == old(out)@ + cs@,
{
    let ghost start = out@;
    let mut i: usize = 0;
    while i < cs.len()
        invariant
            i <= cs@.len(),
            out@ == start + cs@.take(i as int),
        decreases cs.len() - i,
    {
        out.push(cs[i]);
        assert(out@ =~= start + cs@.take(i + 1));
        i = i + 1;
    }
    assert(cs@.take(cs@.len() as int) =~= cs@);
}

/// Appends the decimal text of `n` to `out`.
fn push_decimal(out: &mut Vec<char>, n: usize)
    ensures
        final(out)@ == old(out)@ + decimal(n as nat),
{
    let digits = decimal_chars(n as u64);
    push_chars(out, &digits);
}

/// The text of a literal.
fn literal_chars(l: Literal) -> (r: Vec<char>)
    ensures
        r@ == literal_label(l),
{
    let mut out: Vec<char> = Vec::new();
    match l {
        Literal::Int(v) => {
            push_str(&mut out, "Int(");
            let digits = signed_decimal_chars(v);
            push_chars(&mut out, &digits);
            push_str(&mut out, ")");
            assert(out@ =~= "Int("@ + signed_decimal(v) + ")"@);
        },
        Literal::UInt(v) => {
            push_str(&mut out, "UInt(");
            let digits = decimal_chars(v);
            push_chars(&mut out, &digits);
            push_str(&mut out, ")");
            assert(out@ =~= "UInt("@ + decimal(v as nat) + ")"@);
        },
    }
    out
}

/// `true` when the symbols of the nodes of `eg` are named in `names`.
pub open spec fn symbols_named<A>(eg: &EGraph<A>, names: Seq<Seq<char>>) -> bool {
    forall|i: int| 0 <= i < eg.nodes_view().len() && #[trigger] eg.nodes_view()[i] is Sym ==> eg.nodes_view()[i]->Sym_0 < names.len()
}

/// `true` when the symbols of the nodes of `egraph` are named in `language`.
pub fn symbols_named_check<A>(egraph: &EGraph<A>, language: &Language) -> (r: bool)
    ensures
        r == symbols_named(egraph, language.names()),
{
    let n = egraph.total_node_count();
    let mut i: usize = 0;
    while i < n
        invariant
            n == egraph.nodes_view().len(),
            i <= n,
            forall|j: int| 0 <= j < i && #[trigger] egraph.nodes_view()[j] is Sym ==> egraph.nodes_view()[j]->Sym_0 < language.names().len(),
        decreases n - i,
    {
        match egraph.node(i) {
            Node::Symbol(s) => {
                if s.id >= language.symbol_count() {
                    return false;
                }
            },
            Node::Literal(_) => {},
        }
        i = i + 1;
    }
    true
}

impl<A: Analysis> EGraph<A> {
    /// Appends the line of node `node_id`.
    fn write_node_line(&self, language: &Language, out: &mut Vec<char>, node_id: NodeId)
        requires
            self.wf(),
            symbols_named(self, language.names()),
            node_id < self.nodes_view().len(),
        ensures
            final(out)@ == old(out)@ + node_line(node_id, self.nodes_view()[node_id as int], language.names()),
    {
        let ghost start = out@;
        push_str(out, "    ");
        push_decimal(out, node_id);
        push_str(out, " [label=\"");
        match self.node(node_id) {
            Node::Literal(l) => {
                let text = literal_chars(*l);
                push_chars(out, &text);
            },
            Node::Symbol(s) => {
                proof {
                    assert(self.nodes_view()[node_id as int] is Sym);
                }
                push_str(out, language.get_symbol(s.id));
            },
        }
        push_str(out, "\"];\n");
        assert(out@ =~= start + node_line(node_id, self.nodes_view()[node_id as int], language.names()));
    }

    /// Appends the cluster of class `c`; returns the text of its data shown.
    #[verifier::loop_isolation(false)]
    fn write_cluster(&self, language: &Language, out: &mut Vec<char>, c: ClassId) -> (label: Ghost<Option<Seq<char>>>)
        requires
            self.wf(),
            symbols_named(self, language.names()),
            c < self.nodes_view().len(),
            self.uf_view()[c as int] == c,
        ensures
            final(out)@ == old(out)@ + cluster_text(
                c,
                label@,
                node_lines(self.nodes_view(), class_nodes(self, c), language.names(), class_nodes(self, c).len() as int),
            ),
            data_label(self.class_at(c as int)->0.analysis_view(), label@),
    {
        let ghost names = language.names();
        let ghost n = self.nodes_view().len();
        let ghost before = out@;
        proof {
            assert(self.class_at(c as int) is Some);
            assert(self.class_ok(c as int));
        }
        push_str(out, "  subgraph cluster_");
        push_decimal(out, c);
        push_str(out, " {\n");
        push_str(out, "    label = \"Class ");
        push_decimal(out, c);
        let ghost mid = out@;
        let ghost mut label: Option<Seq<char>> = None;
        let data = self.class(c).analysis();
        let shown = data.to_string();
        proof {
            assert(data_label(self.class_at(c as int)->0.analysis_view(), match shown {
                Some(t) => Some(t@),
                None => None,
            }));
        }
        match shown {
            Some(text) => {
                push_str(out, " (");
                push_str(out, text.as_str());
                push_str(out, ")");
                proof {
                    label = Some(text@);
                    assert(out@ =~= mid + (" ("@ + text@ + ")"@));
                }
            },
            None => {
                proof {
                    assert(out@ =~= mid + Seq::<char>::empty());
                }
            },
        }
        push_str(out, "\";\n");
        let ghost body_start = out@;
        let nodes = self.nodes(c);
        let mut j: usize = 0;
        while j < nodes.len()
            invariant
                j <= nodes@.len(),
                nodes@ == class_nodes(self, c),
                out@ == body_start + node_lines(self.nodes_view(), nodes@, names, j as int),
            decreases nodes.len() - j,
        {
            let node_id = nodes[j];
            proof {
                assert(nodes@[j as int] < n);
            }
            self.write_node_line(language, out, node_id);
            assert(out@ =~= body_start + node_lines(self.nodes_view(), nodes@, names, j + 1));
            j = j + 1;
        }
        push_str(out, "  }\n");
        assert(out@ =~= before + cluster_text(c, label, node_lines(self.nodes_view(), nodes@, names, nodes@.len() as int)));
        Ghost(label)
    }

    /// Appends the edges from node `node_id`.
    #[verifier::loop_isolation(false)]
    fn write_node_edges(&self, out: &mut Vec<char>, node_id: NodeId)
        requires
            self.wf(),
            node_id < self.nodes_view().len(),
        ensures
            final(out)@ == old(out)@ + match self.nodes_view()[node_id as int] {
                NodeView::Sym(_, ch) => edge_lines(self, node_id, ch, ch.len() as int),
                NodeView::Lit(_) => Seq::empty(),
            },
    {
        let ghost n = self.nodes_view().len();
        let ghost node_start = out@;
        match self.node(node_id) {
            Node::Symbol(s) => {
                let ghost ch = s.children@;
                proof {
                    assert(self.nodes_view()[node_id as int] == NodeView::Sym(s.id, ch));
                    assert(children_below(self.nodes_view()[node_id as int], n));
                }
                let mut i: usize = 0;
                while i < s.children.len()
                    invariant
                        i <= ch.len(),
                        ch == s.children@,
                        out@ == node_start + edge_lines(self, node_id, ch, i as int),
                    decreases s.children.len() - i,
                {
                    let child = s.children[i];
                    proof {
                        assert(crate::rewriting::egraph::node_children(self.nodes_view()[node_id as int])[i as int] == child);
                    }
                    let canonical = self.canonical_class(child);
                    proof {
                        assert(self.class_at(canonical as int) is Some);
                    }
                    let targets = self.nodes(canonical);
                    if targets.len() > 0 {
                        let target = targets[0];
                        write_edge(out, node_id, target, canonical, i);
                        proof {
                            assert(class_repr(self, canonical) == Some(target));
                            assert(out@ =~= node_start + edge_lines(self, node_id, ch, i + 1));
                        }
                    } else {
                        proof {
                            assert(class_repr(self, canonical) is None);
                            assert(out@ =~= node_start + edge_lines(self, node_id, ch, i + 1));
                        }
                    }
                    i = i + 1;
                }
            },
            Node::Literal(_) => {
                assert(out@ =~= node_start + Seq::<char>::empty());
            },
        }
    }

    /// The description of the e-graph in the `dot` language: a cluster for
    /// each class (in the order of their ids) labelled with its id and, where
    /// it has one, the text of its data, holding a box for each of its nodes
    /// labelled with its literal or symbol name; then, for each node, an edge
    /// to the first node of the class of each child.
    #[verifier::loop_isolation(false)]
    pub fn dot(&self, language: &Language) -> (r: String)
        requires
            self.wf(),
            symbols_named(self, language.names()),
        ensures
            exists|labels: Seq<Option<Seq<char>>>|
                r@ == #[trigger] dot_text(self, language.names(), labels) && labels_of_data(
                    self,
                    roots_upto(self.uf_view(), self.nodes_view().len() as int),
                    labels,
                    labels.len() as int,
                ) && labels.len() == roots_upto(self.uf_view(), self.nodes_view().len() as int).len(),
    {
        let ghost names = language.names();
        let nn = self.total_node_count();
        let mut out: Vec<char> = Vec::new();
        push_str(&mut out, "digraph egraph {\n");
        push_str(&mut out, "  compound=true;\n");
        push_str(&mut out, "  node [shape=\"box\"];\n");
        push_str(&mut out, "  graph [splines=true, nodesep=1, ranksep=1.2];\n");
        assert(out@ =~= dot_header());
        let roots = self.iter_classes();
        proof {
            crate::rewriting::egraph::lemma_roots_upto(self.uf_view(), nn as int);
        }
        let ghost mut labels: Seq<Option<Seq<char>>> = Seq::empty();
        let mut k: usize = 0;
        while k < roots.len()
            invariant
                k <= roots@.len(),
                labels.len() == k,
                out@ == dot_header() + clusters_text(self, names, labels, roots@, k as int),
                labels_of_data(self, roots@, labels, k as int),
            decreases roots.len() - k,
        {
            let c = roots[k];
            proof {
                assert(roots@[k as int] < nn && self.uf_view()[roots@[k as int] as int] == roots@[k as int]);
            }
            let ghost before = out@;
            let label = self.write_cluster(language, &mut out, c);
            proof {
                let old_labels = labels;
                labels = labels.push(label@);
                lemma_clusters_labels(self, names, old_labels, labels, roots@, k as int);
                assert forall|i: int| 0 <= i < k + 1 implies data_label(
                    self.class_at(roots@[i] as int)->0.analysis_view(),
                    #[trigger] labels[i],
                ) by {
                    if i < k {
                        assert(labels[i] == old_labels[i]);
                    }
                }
                assert(out@ =~= dot_header() + clusters_text(self, names, labels, roots@, k + 1));
            }
            k = k + 1;
        }
        let ghost after_clusters = out@;
        let mut k: usize = 0;
        while k < roots.len()
            invariant
                k <= roots@.len(),
                out@ == after_clusters + classes_edges(self, roots@, k as int),
            decreases roots.len() - k,
        {
            let c = roots[k];
            proof {
                assert(roots@[k as int] < nn && self.uf_view()[roots@[k as int] as int] == roots@[k as int]);
                assert(self.class_at(c as int) is Some);
                assert(self.class_ok(c as int));
            }
            let ghost class_start = out@;
            let nodes = self.nodes(c);
            let mut j: usize = 0;
            while j < nodes.len()
                invariant
                    j <= nodes@.len(),
                    nodes@ == class_nodes(self, c),
                    out@ == class_start + nodes_edges(self, nodes@, j as int),
                decreases nodes.len() - j,
            {
                let node_id = nodes[j];
                proof {
                    assert(nodes@[j as int] < nn);
                }
                self.write_node_edges(&mut out, node_id);
                assert(out@ =~= class_start + nodes_edges(self, nodes@, j + 1));
                j = j + 1;
            }
            assert(out@ =~= after_clusters + classes_edges(self, roots@, k + 1));
            k = k + 1;
        }
        push_str(&mut out, "}\n\n");
        assert(out@ =~= dot_text(self, names, labels));
        string_from_chars(out.as_slice())
    }
}

/// `true` when `label` is the text that the analysis's `to_string` gives for
/// the data `data`.
pub open spec fn data_label<A: Analysis>(data: A, label: Option<Seq<char>>) -> bool {
    exists|s: Option<String>|
        #[trigger] call_ensures(A::to_string, (&data,), s) && label == match s {
            Some(t) => Some(t@),
            None => None,
        }
}

/// `true` when each of the first `k` labels is the text of the data of the
/// class of `roots` at its place.
pub open spec fn labels_of_data<A: Analysis>(eg: &EGraph<A>, roots: Seq<ClassId>, labels: Seq<Option<Seq<char>>>, k: int) -> bool {
    forall|i: int| 0 <= i < k ==> data_label(eg.class_at(roots[i] as int)->0.analysis_view(), #[trigger] labels[i])
}

/// Lemma: the clusters of the first `k` classes only read the first `k` labels.
proof fn lemma_clusters_labels<A>(
    eg: &EGraph<A>,
    names: Seq<Seq<char>>,
    l1: Seq<Option<Seq<char>>>,
    l2: Seq<Option<Seq<char>>>,
    roots: Seq<ClassId>,
    k: int,
)
    requires
        k <= l1.len(),
        k <= l2.len(),
        forall|i: int| 0 <= i < k ==> l1[i] == l2[i],
    ensures
        clusters_text(eg, names, l1, roots, k) == clusters_text(eg, names, l2, roots, k),
    decreases k,
{
    if k > 0 {
        lemma_clusters_labels(eg, names, l1, l2, roots, k - 1);
    }
}

} // verus!
