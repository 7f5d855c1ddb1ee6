use dataflow_engine::data_type::DataType;
use dataflow_engine::data_type::TypedData;
use dataflow_engine::node_graph::Edge;
use dataflow_engine::node_graph::GraphError;
use dataflow_engine::node_graph::NodeGraph;
use dataflow_engine::nodes::AddNode;
use dataflow_engine::nodes::DemoNode;
use dataflow_engine::nodes::NumberNode;
use dataflow_engine::nodes::SinkNode;
use dataflow_engine::nodes::StringNode;

fn number(v: i64) -> DemoNode {
    DemoNode::Number(NumberNode::new(v))
}

fn add() -> DemoNode {
    DemoNode::Add(AddNode::default())
}

fn sink() -> DemoNode {
    DemoNode::Sink(SinkNode)
}

fn text(s: &str) -> DemoNode {
    DemoNode::Text(StringNode::new(String::from(s)))
}

#[test]
fn compatibility_table() {
    assert!(DataType::Number.compatible_with(DataType::Number));
    assert!(!DataType::Number.compatible_with(DataType::String));
    assert!(DataType::Number.compatible_with(DataType::Unknown));
    assert!(!DataType::String.compatible_with(DataType::Number));
    assert!(DataType::String.compatible_with(DataType::String));
    assert!(DataType::String.compatible_with(DataType::Unknown));
    assert!(!DataType::Unknown.compatible_with(DataType::Number));
    assert!(!DataType::Unknown.compatible_with(DataType::String));
    assert!(DataType::Unknown.compatible_with(DataType::Unknown));
}

#[test]
fn insert_assigns_fresh_ids() {
    let mut g = NodeGraph::new();
    let a = g.insert_node(number(1));
    let b = g.insert_node(add());
    let c = g.insert_node(sink());
    assert_ne!(a, b);
    assert_ne!(b, c);
    assert_ne!(a, c);
    assert_eq!(g.node_list(), vec![a, b, c]);
    assert!(g.edge_list().is_empty());
}

#[test]
fn connect_unknown_node_rejected() {
    let mut g = NodeGraph::new();
    let a = g.insert_node(number(1));
    let s = g.insert_node(sink());
    assert_eq!(g.connect(a, 0, 999, 0), Err(GraphError::UnknownNode));
    assert_eq!(g.connect(999, 0, s, 0), Err(GraphError::UnknownNode));
    assert!(g.edge_list().is_empty());
}

#[test]
fn connect_port_out_of_range_rejected() {
    let mut g = NodeGraph::new();
    let a = g.insert_node(number(1));
    let b = g.insert_node(add());
    assert_eq!(g.connect(a, 1, b, 0), Err(GraphError::PortOutOfRange));
    assert_eq!(g.connect(a, 0, b, 2), Err(GraphError::PortOutOfRange));
    assert!(g.edge_list().is_empty());
}

#[test]
fn connect_type_mismatch_rejected() {
    // a text source cannot feed the sum node's number input
    let mut g = NodeGraph::new();
    let t = g.insert_node(text("five"));
    let b = g.insert_node(add());
    assert_eq!(g.connect(t, 0, b, 0), Err(GraphError::TypeMismatch));
    assert!(g.edge_list().is_empty());
}

#[test]
fn connect_self_cycle_rejected() {
    let mut g = NodeGraph::new();
    let b = g.insert_node(add());
    let before = g.edge_list();
    assert_eq!(g.connect(b, 0, b, 0), Err(GraphError::WouldCreateCycle));
    assert_eq!(g.edge_list(), before);
}

#[test]
fn connect_two_node_cycle_rejected() {
    let mut g = NodeGraph::new();
    let b1 = g.insert_node(add());
    let b2 = g.insert_node(add());
    assert_eq!(g.connect(b1, 0, b2, 0), Ok(()));
    let before = g.edge_list();
    assert_eq!(g.connect(b2, 0, b1, 0), Err(GraphError::WouldCreateCycle));
    assert_eq!(g.edge_list(), before);
    assert_eq!(g.node_list(), vec![b1, b2]);
}

#[test]
fn connect_replaces_existing_edge_on_input_port() {
    let mut g = NodeGraph::new();
    let a1 = g.insert_node(number(1));
    let a2 = g.insert_node(number(2));
    let b = g.insert_node(add());
    assert_eq!(g.connect(a1, 0, b, 0), Ok(()));
    assert_eq!(g.connect(a2, 0, b, 0), Ok(()));
    let edges = g.edge_list();
    assert_eq!(edges.len(), 1);
    assert_eq!(
        edges[0],
        Edge { src_node: a2, src_port: 0, dst_node: b, dst_port: 0 }
    );
    assert_eq!(g.output_value(b, 0), Some(TypedData::Number(2)));
}

#[test]
fn string_source_feeds_wildcard_sink() {
    let mut g = NodeGraph::new();
    let t = g.insert_node(text("hi"));
    let s = g.insert_node(sink());
    assert_eq!(g.connect(t, 0, s, 0), Ok(()));
    assert_eq!(
        g.input_value(s, 0),
        Some(TypedData::String(String::from("hi")))
    );
}

#[test]
fn disconnect_removes_matching_edge() {
    let mut g = NodeGraph::new();
    let a = g.insert_node(number(1));
    let b = g.insert_node(add());
    assert_eq!(g.connect(a, 0, b, 0), Ok(()));
    assert_eq!(g.edge_list().len(), 1);
    g.disconnect(a, 0, b, 0);
    assert!(g.edge_list().is_empty());
}

#[test]
fn disconnect_of_absent_edge_is_noop() {
    let mut g = NodeGraph::new();
    let a = g.insert_node(number(1));
    let b = g.insert_node(add());
    assert_eq!(g.connect(a, 0, b, 0), Ok(()));
    let before = g.edge_list();
    // wrong source port: not the edge that is present
    g.disconnect(a, 1, b, 0);
    g.disconnect(b, 0, a, 0);
    assert_eq!(g.edge_list(), before);
}

#[test]
fn remove_node_removes_incident_edges() {
    let mut g = NodeGraph::new();
    let a1 = g.insert_node(number(3));
    let a2 = g.insert_node(number(4));
    let b = g.insert_node(add());
    let s = g.insert_node(sink());
    assert_eq!(g.connect(a1, 0, b, 0), Ok(()));
    assert_eq!(g.connect(a2, 0, b, 1), Ok(()));
    assert_eq!(g.connect(b, 0, s, 0), Ok(()));
    assert_eq!(g.remove_node(b), Ok(()));
    assert_eq!(g.node_list(), vec![a1, a2, s]);
    assert!(g.edge_list().is_empty());
}

#[test]
fn remove_unknown_node_rejected() {
    let mut g = NodeGraph::new();
    let a = g.insert_node(number(1));
    assert_eq!(g.remove_node(a + 1), Err(GraphError::UnknownNode));
    assert_eq!(g.node_list(), vec![a]);
}

#[test]
fn downstream_closure_contents() {
    let mut g = NodeGraph::new();
    let a = g.insert_node(number(3));
    let b = g.insert_node(add());
    let s = g.insert_node(sink());
    let other = g.insert_node(number(9));
    assert_eq!(g.connect(a, 0, b, 0), Ok(()));
    assert_eq!(g.connect(b, 0, s, 0), Ok(()));
    let mut down_a = g.downstream_closure(a);
    down_a.sort_unstable();
    assert_eq!(down_a, vec![a, b, s]);
    assert_eq!(g.downstream_closure(s), vec![s]);
    assert_eq!(g.downstream_closure(other), vec![other]);
}

#[test]
fn set_literal_value_errors() {
    let mut g = NodeGraph::new();
    let a = g.insert_node(number(1));
    let b = g.insert_node(add());
    assert_eq!(
        g.set_literal_value(a + 100, TypedData::Number(5)),
        Err(GraphError::UnknownNode)
    );
    assert_eq!(
        g.set_literal_value(a, TypedData::String(String::from("x"))),
        Err(GraphError::TypeMismatch)
    );
    assert_eq!(
        g.set_literal_value(b, TypedData::Number(5)),
        Err(GraphError::TypeMismatch)
    );
    assert_eq!(g.output_value(a, 0), Some(TypedData::Number(1)));
}
