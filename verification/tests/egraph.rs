use verbum::language::expression::{Literal, VarFreeExpression};
use verbum::language::symbol::Symbol;
use verbum::language::Language;
use verbum::rewriting::egraph::class::literal_count::LiteralCountAnalysis;
use verbum::rewriting::egraph::{DynClass, EGraph, Node};

fn check_from_expression() {
    let lang = Language::simple_math();
    let expression: VarFreeExpression = lang.parse_no_vars("(* 1 2 3 (+ 4 5))").unwrap();
    let graph = EGraph::<()>::from_expression(expression);
    assert_eq!(graph.class_count(), 7);
    assert_eq!(graph.total_node_count(), 7);
    assert_eq!(graph.actual_node_count(), 7);
}

#[test]
fn egraph_from_expression() {
    let lang = Language::math();
    let expression: VarFreeExpression = lang.parse_no_vars("(* 1 2 3 (+ 4 5))").unwrap();
    let graph = EGraph::<()>::from_expression(expression);
    assert_eq!(graph.class_count(), 7);
    assert_eq!(graph.node_count(), 7);
}

#[test]
fn mod_from_expression() {
    check_from_expression();
}

#[test]
fn egraph_merge() {
    let lang = Language::math();
    let expression_1: VarFreeExpression = lang.parse_no_vars("(+ 1 5)").unwrap();
    let expression_2: VarFreeExpression = lang.parse_no_vars("(+ 2 4)").unwrap();
    let mut graph = EGraph::<()>::default();
    let node_1_id = graph.add_expression(expression_1);
    let node_2_id = graph.add_expression(expression_2);
    assert_eq!(graph.class_count(), 6);
    assert_eq!(graph.node_count(), 6);
    let class_1_id = graph.containing_class(node_1_id);
    let class_2_id = graph.containing_class(node_2_id);
    graph.merge_classes(class_1_id, class_2_id);
    let class_1_id = graph.containing_class(node_1_id);
    let class_2_id = graph.containing_class(node_2_id);
    assert_eq!(class_1_id, class_2_id);
    assert_eq!(graph.class_count(), 5);
    assert_eq!(graph.node_count(), 6);
}

#[test]
fn mod_merge() {
    let lang = Language::simple_math();
    let expression_1: VarFreeExpression = lang.parse_no_vars("(+ 1 5)").unwrap();
    let expression_2: VarFreeExpression = lang.parse_no_vars("(+ 2 4)").unwrap();
    let mut graph = EGraph::<()>::default();
    let node_1_id = graph.add_expression(expression_1);
    let node_2_id = graph.add_expression(expression_2);
    assert_eq!(graph.class_count(), 6);
    assert_eq!(graph.total_node_count(), 6);
    assert_eq!(graph.actual_node_count(), 6);
    let class_1_id = graph.containing_class(node_1_id);
    let class_2_id = graph.containing_class(node_2_id);
    graph.merge_classes(class_1_id, class_2_id);
    let class_1_id = graph.containing_class(node_1_id);
    let class_2_id = graph.containing_class(node_2_id);
    assert_eq!(class_1_id, class_2_id);
    assert_eq!(graph.class_count(), 5);
    assert_eq!(graph.total_node_count(), 6);
    assert_eq!(graph.actual_node_count(), 6);
}

fn check_node_and_node_id() {
    let mut egraph = EGraph::<()>::default();
    let nodes: Vec<Node> = (0..10u64).map(|i| Node::Literal(Literal::UInt(i))).collect();
    let node_ids: Vec<usize> = nodes.iter().cloned().map(|node| egraph.add_node(node).any()).collect();
    for i in 0..10 {
        assert_eq!(*egraph.node(node_ids[i]), nodes[i]);
        assert_eq!(egraph.node_id(&nodes[i]).unwrap(), node_ids[i]);
    }
}

#[test]
fn egraph_node_and_node_id() {
    check_node_and_node_id();
}

#[test]
fn mod_node_and_node_id() {
    check_node_and_node_id();
}

fn check_parents(lang: Language) {
    let expression: VarFreeExpression = lang.parse_no_vars("(+ 1 5)").unwrap();
    let mut graph = EGraph::<()>::default();
    let node_id = graph.add_expression(expression);
    let class_id = graph.containing_class(node_id);
    assert!(graph.parents(class_id).is_empty());
    assert_eq!(graph.nodes(class_id).len(), 1);
    let first = graph.nodes(class_id)[0];
    let Node::Symbol(plus) = graph.node(first) else { panic!("Unxepected variant") };
    for child_id in &plus.children {
        let parent_ids = graph.class(*child_id).parents_ids();
        assert_eq!(parent_ids.len(), 1);
        assert_eq!(parent_ids[0], node_id);
    }
}

#[test]
fn egraph_parents() {
    check_parents(Language::math());
}

#[test]
fn mod_parents() {
    check_parents(Language::simple_math());
}

fn check_double_node_addition() {
    let mut egraph = EGraph::<()>::default();
    let literal_1 = Node::Literal(Literal::UInt(5));
    let literal_2 = Node::Literal(Literal::UInt(7));
    let node_1_id = egraph.add_node(literal_1.clone()).new().unwrap();
    let node_1_id_ = egraph.add_node(literal_1).old_value().unwrap();
    assert_eq!(node_1_id, node_1_id_);
    let node_2_id = egraph.add_node(literal_2).any();
    let class_1_id = egraph.containing_class(node_1_id);
    let class_2_id = egraph.containing_class(node_2_id);
    let symbol_1 = Node::Symbol(Symbol { id: 0, children: vec![class_1_id, class_2_id] });
    let node_3_id = egraph.add_node(symbol_1.clone());
    egraph.merge_classes(class_1_id, class_2_id);
    let symbol_2 = Node::Symbol(Symbol { id: 0, children: vec![class_2_id, class_1_id] });
    let node_4_id = egraph.add_node(symbol_2.clone());
    assert_eq!(egraph.node_id(&symbol_1), egraph.node_id(&symbol_2));
    assert_eq!(node_3_id.new().unwrap(), node_4_id.old_value().unwrap());
}

#[test]
fn egraph_double_node_addition() {
    check_double_node_addition();
}

#[test]
fn mod_double_node_addition() {
    check_double_node_addition();
}

#[test]
fn literal_sharing() {
    let mut egraph = EGraph::<()>::default();
    let lang = Language::simple_math();
    let expr_1: VarFreeExpression = lang.parse_no_vars("(+ 1 5)").unwrap();
    let expr_2: VarFreeExpression = lang.parse_no_vars("(* 6 5)").unwrap();
    egraph.add_expression(expr_1);
    egraph.add_expression(expr_2);
    assert_eq!(egraph.actual_node_count(), 5);
    assert_eq!(egraph.total_node_count(), 5);
    assert_eq!(egraph.class_count(), 5);
}

#[test]
fn class_merge_with_same_nodes() {
    let mut egraph = EGraph::<()>::default();
    let lang = Language::simple_math();
    let expr_1: VarFreeExpression = lang.parse_no_vars("(+ 1 5)").unwrap();
    let expr_2: VarFreeExpression = lang.parse_no_vars("(+ 1 2)").unwrap();
    let expr_1_id = egraph.add_expression(expr_1);
    let expr_2_id = egraph.add_expression(expr_2);
    let class_5 = egraph.node(expr_1_id).as_symbol().children[1];
    let class_2 = egraph.node(expr_2_id).as_symbol().children[1];
    egraph.merge_classes(class_5, class_2);
    assert_eq!(egraph.total_node_count(), 5);
    assert_eq!(egraph.class_count(), 3);
    assert_eq!(egraph.actual_node_count(), 4);
}

#[test]
fn cascading_rebuild() {
    let lang = Language::simple_math();
    let expr = lang.parse_no_vars("(* (+ 5 (sin (* 1 7))) (+ 5 (sin (* 1 8))))").unwrap();
    let mut egraph = EGraph::<()>::from_expression(expr);
    let id_7 = egraph.node_id(&Node::Literal(Literal::Int(7))).unwrap();
    let id_8 = egraph.node_id(&Node::Literal(Literal::Int(8))).unwrap();
    let id_7_class = egraph.containing_class(id_7);
    let id_8_class = egraph.containing_class(id_8);
    assert_eq!(egraph.total_node_count(), 11);
    assert_eq!(egraph.actual_node_count(), 11);
    assert_eq!(egraph.class_count(), 11);
    egraph.merge_classes(id_7_class, id_8_class);
    assert_eq!(egraph.total_node_count(), 11);
    assert_eq!(egraph.actual_node_count(), 8);
    assert_eq!(egraph.class_count(), 7);
}

#[test]
fn self_merge() {
    let lang = Language::simple_math();
    let mut egraph = EGraph::<()>::from_expression(lang.parse_no_vars("(+ 2 (sin 5))").unwrap());
    egraph.merge_classes(0, 1);
    egraph.merge_classes(0, 2);
    let class_count = egraph.class_count();
    egraph.merge_classes(0, 0);
    egraph.merge_classes(0, 1);
    egraph.merge_classes(0, 2);
    assert_eq!(egraph.class_count(), class_count);
}

#[test]
fn literal_count_analysis() {
    let lang = Language::simple_math();
    let expr = lang.parse_no_vars("(* 1 2 (+ 3 4))").unwrap();
    let mut egraph = EGraph::<LiteralCountAnalysis>::from_expression(expr);

    let literal_1_id = egraph.node_id(&Node::Literal(Literal::Int(1))).unwrap();
    let class_1_id = egraph.containing_class(literal_1_id);
    assert_eq!(egraph.class(class_1_id).analysis().count(), 1);
    let literal_2_id = egraph.node_id(&Node::Literal(Literal::Int(2))).unwrap();
    let class_2_id = egraph.containing_class(literal_2_id);
    assert_eq!(egraph.class(class_2_id).analysis().count(), 1);
    let literal_3_id = egraph.node_id(&Node::Literal(Literal::Int(3))).unwrap();
    let class_3_id = egraph.containing_class(literal_3_id);
    assert_eq!(egraph.class(class_3_id).analysis().count(), 1);
    let literal_4_id = egraph.node_id(&Node::Literal(Literal::Int(4))).unwrap();
    let class_4_id = egraph.containing_class(literal_4_id);
    assert_eq!(egraph.class(class_4_id).analysis().count(), 1);

    let plus_id = egraph.find_symbols(lang.get_id("+"))[0];
    let plus_class_id = egraph.containing_class(plus_id);
    assert_eq!(egraph.class(plus_class_id).analysis().count(), 0);
    let mul_id = egraph.find_symbols(lang.get_id("*"))[0];
    let mul_class_id = egraph.containing_class(mul_id);
    assert_eq!(egraph.class(mul_class_id).analysis().count(), 0);

    egraph.merge_classes(class_3_id, class_4_id);
    let merged_plus_class_id = egraph.containing_class(class_3_id);
    assert_eq!(egraph.class(merged_plus_class_id).analysis().count(), 2);

    egraph.merge_classes(class_1_id, class_2_id);
    let merged_mul_class_id = egraph.containing_class(class_1_id);
    assert_eq!(egraph.class(merged_mul_class_id).analysis().count(), 2);

    egraph.merge_classes(plus_class_id, merged_mul_class_id);
    let final_plus_class_id = egraph.containing_class(plus_class_id);
    assert_eq!(egraph.class(final_plus_class_id).analysis().count(), 2);
}

#[test]
fn added_expression_is_represented_in_its_class() {
    let lang = Language::simple_math();
    let (egraph, id) = EGraph::<()>::from_expression_with_id(lang.parse_no_vars("(+ 1 (sin 1))").unwrap());
    assert_eq!(egraph.class_count(), 3);
    assert_eq!(egraph.containing_class(id), id);
    let Node::Symbol(plus) = egraph.node(egraph.nodes(id)[0]) else { panic!("expected a symbol") };
    assert_eq!(plus.id, lang.get_id("+"));
    assert_eq!(plus.children.len(), 2);
}

#[test]
fn dot_describes_classes_nodes_and_edges() {
    let lang = verbum::language::Language::simple_math();
    let egraph = EGraph::<()>::from_expression(lang.parse_no_vars("(+ 1 -2)").unwrap());
    let text = egraph.dot(&lang);
    assert!(text.starts_with(
        "digraph egraph {\n  compound=true;\n  node [shape=\"box\"];\n  graph [splines=true, nodesep=1, ranksep=1.2];\n"
    ));
    assert!(text.ends_with("}\n\n"));
    assert_eq!(text.matches("subgraph cluster_").count(), 3);
    assert!(text.contains("[label=\"+\"];"));
    assert!(text.contains("[label=\"Int(1)\"];"));
    assert!(text.contains("[label=\"Int(-2)\"];"));
    assert!(text.contains("label = \"Class 0\";"));
    assert_eq!(text.matches(" -> ").count(), 2);
    assert!(text.contains("taillabel=\"1\"];"));
}

#[test]
fn add_expression_returns_root_node() {
    let mut egraph = EGraph::<()>::default();
    let lang = Language::simple_math();
    let id = egraph.add_expression(lang.parse_no_vars("(+ 1 5)").unwrap());
    let root = egraph.node(id).as_symbol();
    assert_eq!(root.id, lang.try_get_id("+").unwrap());
    assert_eq!(root.children.len(), 2);
    assert_eq!(Some(egraph.canonical_class(root.children[0])), egraph.find_literal(Literal::Int(1)));
    assert_eq!(Some(egraph.canonical_class(root.children[1])), egraph.find_literal(Literal::Int(5)));
    let again = egraph.add_expression(lang.parse_no_vars("(+ 1 5)").unwrap());
    assert_eq!(again, id);
    assert_eq!(egraph.total_node_count(), 3);
}
