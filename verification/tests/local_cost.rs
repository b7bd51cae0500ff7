use verbum::language::Language;
use verbum::rewriting::egraph::class::simple_math_local_cost::SimpleMathLocalCost;
use verbum::rewriting::egraph::EGraph;

#[test]
fn test_literal_cost() {
    let lang = Language::simple_math();
    let expr = lang.parse_no_vars("5").unwrap();
    let egraph = EGraph::<SimpleMathLocalCost>::from_expression(expr);
    let class_id = egraph.containing_class(egraph.node_id(egraph.node(0)).unwrap());
    assert_eq!(egraph.class(class_id).analysis().0, 1);

    let expr = lang.parse_no_vars("-10").unwrap();
    let egraph = EGraph::<SimpleMathLocalCost>::from_expression(expr);
    let class_id = egraph.containing_class(egraph.node_id(egraph.node(0)).unwrap());
    assert_eq!(egraph.class(class_id).analysis().0, 1);
}

#[test]
fn test_symbol_cost() {
    let lang = Language::simple_math();
    let (egraph, root_class_id) =
        EGraph::<SimpleMathLocalCost>::from_expression_with_id(lang.parse_no_vars("(+ 1 2)").unwrap());
    assert_eq!(egraph.class(root_class_id).analysis().0, 3);
    let (egraph, root_class_id) =
        EGraph::<SimpleMathLocalCost>::from_expression_with_id(lang.parse_no_vars("(* 3 4)").unwrap());
    assert_eq!(egraph.class(root_class_id).analysis().0, 6);
}

#[test]
fn test_merge_cost() {
    let lang = Language::simple_math();
    let (mut egraph, root_class_id_1) =
        EGraph::<SimpleMathLocalCost>::from_expression_with_id(lang.parse_no_vars("(+ 1 2)").unwrap());
    let (_egraph_2, root_class_id_2) =
        EGraph::<SimpleMathLocalCost>::from_expression_with_id(lang.parse_no_vars("(* 1 2)").unwrap());
    egraph.merge_classes(root_class_id_1, root_class_id_2);
    let merged_class_id = egraph.containing_class(root_class_id_1);
    assert_eq!(egraph.class(merged_class_id).analysis().0, 3);
}
