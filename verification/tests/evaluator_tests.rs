use dataflow_engine::data_type::TypedData;
use dataflow_engine::node_graph::DemoViewer;
use dataflow_engine::node_graph::NodeGraph;
use dataflow_engine::nodes::AddNode;
use dataflow_engine::nodes::DemoNode;
use dataflow_engine::nodes::NumberNode;
use dataflow_engine::nodes::SinkNode;

fn number(v: i64) -> DemoNode {
    DemoNode::Number(NumberNode::new(v))
}

fn add() -> DemoNode {
    DemoNode::Add(AddNode::default())
}

fn sink() -> DemoNode {
    DemoNode::Sink(SinkNode)
}

/// Number(3) and Number(4) feeding a sum node feeding a sink.
fn sum_graph() -> (NodeGraph, u64, u64, u64, u64) {
    let mut g = NodeGraph::new();
    let a1 = g.insert_node(number(3));
    let a2 = g.insert_node(number(4));
    let b = g.insert_node(add());
    let s = g.insert_node(sink());
    assert_eq!(g.connect(a1, 0, b, 0), Ok(()));
    assert_eq!(g.connect(a2, 0, b, 1), Ok(()));
    assert_eq!(g.connect(b, 0, s, 0), Ok(()));
    (g, a1, a2, b, s)
}

#[test]
fn sum_of_three_and_four_reaches_sink() {
    let (g, _a1, _a2, b, s) = sum_graph();
    assert_eq!(g.output_value(b, 0), Some(TypedData::Number(7)));
    assert_eq!(g.input_value(s, 0), Some(TypedData::Number(7)));
}

#[test]
fn sum_with_one_input_connected_treats_absent_as_zero() {
    let mut g = NodeGraph::new();
    let a = g.insert_node(number(5));
    let b = g.insert_node(add());
    assert_eq!(g.connect(a, 0, b, 0), Ok(()));
    assert_eq!(g.output_value(b, 0), Some(TypedData::Number(5)));
}

#[test]
fn fresh_sum_node_has_no_output() {
    let mut g = NodeGraph::new();
    let b = g.insert_node(add());
    assert_eq!(g.output_value(b, 0), None);
}

#[test]
fn evaluate_is_idempotent() {
    let (mut g, a1, a2, b, s) = sum_graph();
    DemoViewer::evaluate(&mut g, None);
    let out_a1 = g.output_value(a1, 0);
    let out_a2 = g.output_value(a2, 0);
    let out_b = g.output_value(b, 0);
    let in_s = g.input_value(s, 0);
    let edges = g.edge_list();
    DemoViewer::evaluate(&mut g, None);
    assert_eq!(g.output_value(a1, 0), out_a1);
    assert_eq!(g.output_value(a2, 0), out_a2);
    assert_eq!(g.output_value(b, 0), out_b);
    assert_eq!(g.input_value(s, 0), in_s);
    assert_eq!(g.edge_list(), edges);
}

#[test]
fn seeded_evaluation_leaves_other_components_alone() {
    // two disconnected sum pipelines
    let mut g = NodeGraph::new();
    let a1 = g.insert_node(number(1));
    let b1 = g.insert_node(add());
    let a2 = g.insert_node(number(10));
    let b2 = g.insert_node(add());
    assert_eq!(g.connect(a1, 0, b1, 0), Ok(()));
    assert_eq!(g.connect(a2, 0, b2, 0), Ok(()));
    assert_eq!(g.output_value(b1, 0), Some(TypedData::Number(1)));
    assert_eq!(g.output_value(b2, 0), Some(TypedData::Number(10)));
    // change the first pipeline's source: the second is untouched
    assert_eq!(g.set_literal_value(a1, TypedData::Number(2)), Ok(()));
    assert_eq!(g.output_value(b1, 0), Some(TypedData::Number(2)));
    assert_eq!(g.output_value(b2, 0), Some(TypedData::Number(10)));
}

#[test]
fn set_literal_value_propagates_downstream() {
    let (mut g, a1, _a2, b, s) = sum_graph();
    assert_eq!(g.set_literal_value(a1, TypedData::Number(10)), Ok(()));
    assert_eq!(g.output_value(a1, 0), Some(TypedData::Number(10)));
    assert_eq!(g.output_value(b, 0), Some(TypedData::Number(14)));
    assert_eq!(g.input_value(s, 0), Some(TypedData::Number(14)));
}

#[test]
fn sum_wraps_on_overflow() {
    let mut g = NodeGraph::new();
    let a1 = g.insert_node(number(i64::MAX));
    let a2 = g.insert_node(number(1));
    let b = g.insert_node(add());
    assert_eq!(g.connect(a1, 0, b, 0), Ok(()));
    assert_eq!(g.connect(a2, 0, b, 1), Ok(()));
    assert_eq!(g.output_value(b, 0), Some(TypedData::Number(i64::MIN)));
}

#[test]
fn chained_sums_propagate() {
    // Number(1) -> b1; Number(2) -> b1; b1 -> b2; Number(4) -> b2
    let mut g = NodeGraph::new();
    let a1 = g.insert_node(number(1));
    let a2 = g.insert_node(number(2));
    let a3 = g.insert_node(number(4));
    let b1 = g.insert_node(add());
    let b2 = g.insert_node(add());
    assert_eq!(g.connect(a1, 0, b1, 0), Ok(()));
    assert_eq!(g.connect(a2, 0, b1, 1), Ok(()));
    assert_eq!(g.connect(b1, 0, b2, 0), Ok(()));
    assert_eq!(g.connect(a3, 0, b2, 1), Ok(()));
    assert_eq!(g.output_value(b2, 0), Some(TypedData::Number(7)));
    assert_eq!(g.set_literal_value(a1, TypedData::Number(100)), Ok(()));
    assert_eq!(g.output_value(b1, 0), Some(TypedData::Number(102)));
    assert_eq!(g.output_value(b2, 0), Some(TypedData::Number(106)));
}

#[test]
fn evaluating_an_empty_graph_is_a_noop() {
    let mut g = NodeGraph::new();
    DemoViewer::evaluate(&mut g, None);
    assert!(g.node_list().is_empty());
    assert!(g.edge_list().is_empty());
}

#[test]
fn node_metadata_matches_catalog() {
    let n = number(0);
    let b = add();
    let s = sink();
    assert_eq!(n.name(), "Number");
    assert_eq!(b.name(), "Add");
    assert_eq!(s.name(), "Sink");
    assert_eq!(n.inputs().len(), 0);
    assert_eq!(n.outputs().len(), 1);
    assert_eq!(b.inputs().len(), 2);
    assert_eq!(b.outputs().len(), 1);
    assert_eq!(s.inputs().len(), 1);
    assert_eq!(s.outputs().len(), 0);
}
