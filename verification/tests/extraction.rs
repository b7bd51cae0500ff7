use verbum::language::expression::Literal;
use verbum::language::Language;
use verbum::rewriting::egraph::extraction::{children_cost_sum, settle_class_costs, Extractor, SimpleExtractor};
use verbum::rewriting::egraph::matching::bottom_up::BottomUpMatcher;
use verbum::rewriting::egraph::saturation::{SaturationConfig, Saturator, SimpleSaturator};
use verbum::rewriting::egraph::EGraph;
use verbum::rewriting::rule::Rule;
use verbum::language::symbol::Symbol;

#[test]
fn literal_cost() {
    let lang = Language::simple_math();
    let mut egraph = EGraph::<()>::default();

    let expr_1 = lang.parse_no_vars("4u").unwrap();
    let expr_2 = lang.parse_no_vars("8u").unwrap();

    let node_1_id = egraph.add_expression(expr_1.clone());
    let class_1_id = egraph.containing_class(node_1_id);
    let node_2_id = egraph.add_expression(expr_2);
    let class_2_id = egraph.containing_class(node_2_id);

    let merged_id = egraph.merge_classes(class_1_id, class_2_id).new().unwrap();

    let extractor = SimpleExtractor::<usize, _, _>::new(
        |literal| match literal {
            Literal::UInt(x) => *x as usize,
            Literal::Int(_) => 0,
        },
        |_, _| Some(0),
    );

    let extraction_result = extractor.extract(&egraph, merged_id).unwrap();

    assert_eq!(extraction_result.winner, expr_1);
    assert_eq!(extraction_result.cost, 4);
}

#[test]
fn symbol_cost() {
    let lang = Language::simple_math();
    let mut egraph = EGraph::<()>::default();

    let expr_1 = lang.parse_no_vars("(+ 2u 3u)").unwrap();
    let expr_2 = lang.parse_no_vars("(* 1u 2u)").unwrap();

    let node_1_id = egraph.add_expression(expr_1.clone());
    let class_1_id = egraph.containing_class(node_1_id);
    let node_2_id = egraph.add_expression(expr_2);
    let class_2_id = egraph.containing_class(node_2_id);

    let merged_id = egraph.merge_classes(class_1_id, class_2_id).new().unwrap();

    let extractor = SimpleExtractor::<usize, _, _>::new(
        |literal| match literal {
            Literal::UInt(x) => *x as usize,
            Literal::Int(_) => 0,
        },
        |symbol, costs| {
            Some(match lang.get_symbol(symbol.id) {
                "+" => 1usize + children_cost_sum(symbol, costs)?,
                "*" => 1usize + 2usize * children_cost_sum(symbol, costs)?,
                _ => None?,
            })
        },
    );

    let extraction_result = extractor.extract(&egraph, merged_id).unwrap();

    assert_eq!(extraction_result.winner, expr_1);
    assert_eq!(extraction_result.cost, 6);
}

#[test]
fn saturated_cost() {
    let lang = Language::simple_math();
    let rules = vec![
        Rule::from_strings("(* $0 2)", "(<< $0 1)", &lang).unwrap(),
        Rule::from_strings("(* $0 1)", "$0", &lang).unwrap(),
        Rule::from_strings("(/ (* $0 $1) $2)", "(* $0 (/ $1 $2))", &lang).unwrap(),
        Rule::from_strings("(/ $0 $0)", "1", &lang).unwrap(),
    ];

    let mut egraph = EGraph::<()>::from_expression(lang.parse_no_vars("(/ (* (sin 5) 2) 2)").unwrap());
    let top_class_id = egraph.containing_class(egraph.find_symbols(lang.get_id("/"))[0]);

    let saturator = SimpleSaturator::new(BottomUpMatcher);
    let _ = saturator.saturate(&mut egraph, &rules, &SaturationConfig::default());

    let extractor = SimpleExtractor::<usize, _, _>::new(
        |_| 1,
        |symbol, costs| {
            Some(match lang.get_symbol(symbol.id) {
                "/" => 8usize + children_cost_sum(symbol, costs)?,
                "*" => 4usize + children_cost_sum(symbol, costs)?,
                "<<" => 2usize + children_cost_sum(symbol, costs)?,
                "sin" => 2usize + children_cost_sum(symbol, costs)?,
                _ => None?,
            })
        },
    );

    let extraction_result = extractor.extract(&egraph, top_class_id).unwrap();

    assert_eq!(extraction_result.winner, lang.parse_no_vars("(sin 5)").unwrap());
    assert_eq!(extraction_result.cost, 3);
}

#[test]
fn children_cost_sum_adds_child_class_costs() {
    let costs = vec![Some(2usize), None, Some(5usize)];
    let both = Symbol { id: 0, children: vec![0, 2] };
    assert_eq!(children_cost_sum(&both, &costs), Some(7));
    let missing = Symbol { id: 0, children: vec![0, 1] };
    assert_eq!(children_cost_sum(&missing, &costs), None);
    let outside = Symbol { id: 0, children: vec![3] };
    assert_eq!(children_cost_sum(&outside, &costs), None);
    let overflow = vec![Some(usize::MAX), Some(1usize)];
    let sym = Symbol { id: 0, children: vec![0, 1] };
    assert_eq!(children_cost_sum(&sym, &overflow), None);
}

#[test]
fn extraction_fails_without_costs() {
    let lang = Language::simple_math();
    let mut egraph = EGraph::<()>::default();
    let node = egraph.add_expression(lang.parse_no_vars("(sin 1)").unwrap());
    let class = egraph.containing_class(node);
    let extractor = SimpleExtractor::<usize, _, _>::new(|_| 1, |_, _| None);
    assert!(extractor.extract(&egraph, class).is_none());
}

type LitCost = fn(&Literal) -> usize;
type SymCost = fn(&Symbol<usize>, &Vec<Option<usize>>) -> Option<usize>;

#[test]
fn extraction_from_given_costs() {
    let lang = Language::simple_math();
    let expr = lang.parse_no_vars("(sin 5)").unwrap();
    let egraph = EGraph::<()>::from_expression(expr.clone());
    let sin = egraph.find_symbols(lang.try_get_id("sin").unwrap())[0];
    let five = egraph.find_literal(Literal::Int(5)).unwrap();
    let mut cheapest = vec![None; egraph.total_node_count()];
    let mut costs = vec![None; egraph.total_node_count()];
    cheapest[five] = Some(five);
    costs[five] = Some(1);
    cheapest[sin] = Some(sin);
    costs[sin] = Some(2);
    let result = SimpleExtractor::<usize, SymCost, LitCost>::extract_with_costs(&egraph, &cheapest, &costs, sin).unwrap();
    assert_eq!(result.winner, expr);
    assert_eq!(result.cost, 2);
    costs[sin] = None;
    assert!(SimpleExtractor::<usize, SymCost, LitCost>::extract_with_costs(&egraph, &cheapest, &costs, sin).is_none());
    costs[sin] = Some(2);
    cheapest[five] = None;
    assert!(SimpleExtractor::<usize, SymCost, LitCost>::extract_with_costs(&egraph, &cheapest, &costs, sin).is_none());
}

#[test]
fn class_step_takes_given_costs() {
    let lang = Language::simple_math();
    let mut egraph = EGraph::<()>::default();
    let node_1_id = egraph.add_expression(lang.parse_no_vars("4u").unwrap());
    let class_1_id = egraph.containing_class(node_1_id);
    let node_2_id = egraph.add_expression(lang.parse_no_vars("8u").unwrap());
    let class_2_id = egraph.containing_class(node_2_id);
    let merged_id = egraph.merge_classes(class_1_id, class_2_id).new().unwrap();
    let n = egraph.total_node_count();
    let nodes = egraph.nodes(merged_id).clone();
    let given: Vec<Option<usize>> = nodes.iter().map(|&id| Some(if id == node_1_id { 4 } else { 8 })).collect();
    let mut node_costs = vec![None; n];
    let mut class_costs = vec![None; n];
    let mut cheapest = vec![None; n];

    assert!(settle_class_costs(&egraph, merged_id, &given, &mut node_costs, &mut class_costs, &mut cheapest));
    assert_eq!(node_costs[node_1_id], Some(4));
    assert_eq!(node_costs[node_2_id], Some(8));
    assert_eq!(class_costs[merged_id], Some(4));
    assert_eq!(cheapest[merged_id], Some(node_1_id));

    assert!(!settle_class_costs(&egraph, merged_id, &given, &mut node_costs, &mut class_costs, &mut cheapest));
    let none: Vec<Option<usize>> = vec![None; nodes.len()];
    assert!(!settle_class_costs(&egraph, merged_id, &none, &mut node_costs, &mut class_costs, &mut cheapest));
    assert_eq!(class_costs[merged_id], Some(4));

    let cheaper: Vec<Option<usize>> = nodes.iter().map(|&id| Some(if id == node_1_id { 9 } else { 8 })).collect();
    assert!(settle_class_costs(&egraph, merged_id, &cheaper, &mut node_costs, &mut class_costs, &mut cheapest));
    assert_eq!(class_costs[merged_id], Some(8));
    assert_eq!(cheapest[merged_id], Some(node_2_id));
}
