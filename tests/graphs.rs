use wb_front::cst::Type;
use wb_front::front::{check_source, parse_source};
use wb_front::graphviz::{
    ast_block_graph_size, cst_block_graph_size, AstGraphvizVisualizer, CstGraphvizVisualizer,
};
use wb_front::text::decimal;

#[test]
fn ast_graph_of_declaration() {
    let block = parse_source("let y = 2 + 3\n").unwrap();
    assert_eq!(ast_block_graph_size(&block), Some(6));
    let mut v = AstGraphvizVisualizer::new();
    let root = v.visit_stmt_block(&block);
    assert_eq!(root, 1);
    assert_eq!(v.counter, 6);
    let labels: Vec<&str> = v.nodes.iter().map(|(_, l)| l.as_str()).collect();
    assert_eq!(labels, vec!["Block", "Name Declaration", "y", "+", "2", "3"]);
    assert_eq!(v.edges.len(), 5);
    assert_eq!(
        v.dump(),
        "digraph {\n\trankdir=LR;\n\t1 [label=\"Block\"]\n\t2 [label=\"Name Declaration\"]\n\t3 [label=\"y\"]\n\t4 [label=\"+\"]\n\t5 [label=\"2\"]\n\t6 [label=\"3\"]\n\t4->5 [label=\"lhs\"]\n\t4->6 [label=\"rhs\"]\n\t2->3 [label=\"name\"]\n\t2->4 [label=\"value\"]\n\t1->2 [label=\"1\"]\n}\n"
    );
}

#[test]
fn ast_graph_of_while_and_application() {
    let block = parse_source("while f (1):\n    x\n").unwrap();
    let mut v = AstGraphvizVisualizer::new();
    v.visit_stmt_block(&block);
    let labels: Vec<&str> = v.nodes.iter().map(|(_, l)| l.as_str()).collect();
    assert_eq!(
        labels,
        vec!["Block", "While", "Function Application", "f", "Grouping", "1", "Block", "x"]
    );
    let edge_labels: Vec<&str> = v.edges.iter().map(|(_, _, l)| l.as_str()).collect();
    assert_eq!(edge_labels, vec!["func", "", "1", "1", "pred", "body", "1"]);
}

#[test]
fn cst_graph_of_declaration() {
    let (block, _) = check_source("let x = 1\n").unwrap();
    assert_eq!(cst_block_graph_size(&block), Some(5));
    let mut v = CstGraphvizVisualizer::new();
    v.visit_stmt_block(&block);
    assert_eq!(v.nodes.len(), 4);
    assert_eq!(v.type_nodes.len(), 1);
    assert_eq!(
        v.dump(),
        "digraph {\n\t1 [label=\"Block\"]\n\t2 [label=\"Name Declaration\"]\n\t3 [label=\"x\"]\n\t4 [label=\"1\"]\n\t5 [label=\"Integer\" shape=none color=gray fontcolor=gray]\n\t4->5 [arrowhead=onormal color=gray fontcolor=gray]\n\t2->3 [label=\"name\"]\n\t2->4 [label=\"value\"]\n\t1->2 [label=\"1\"]\n}\n"
    );
}

#[test]
fn type_node_labels() {
    let mut v = CstGraphvizVisualizer::new();
    let a = v.get_type_node(&Type::Variable(12));
    let b = v.get_type_node(&Type::Bool);
    assert_eq!((a, b), (1, 2));
    assert_eq!(v.type_nodes[0].1, "T12");
    assert_eq!(v.type_nodes[1].1, "Bool");
}

#[test]
fn decimal_numerals() {
    assert_eq!(decimal(0), "0");
    assert_eq!(decimal(7), "7");
    assert_eq!(decimal(1024), "1024");
}
