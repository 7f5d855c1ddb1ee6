use dataflow_engine::execution_engine::TaskDag;
use dataflow_engine::node_graph::GraphError;
use dataflow_engine::node_graph::NodeGraph;
use dataflow_engine::nodes::AddNode;
use dataflow_engine::nodes::DemoNode;
use dataflow_engine::nodes::NumberNode;

fn number(v: i64) -> DemoNode {
    DemoNode::Number(NumberNode::new(v))
}

fn add() -> DemoNode {
    DemoNode::Add(AddNode::default())
}

fn sorted(mut v: Vec<u64>) -> Vec<u64> {
    v.sort_unstable();
    v
}

/// The diamond task graph: A with no predecessors, B and C each
/// depending on A, and D depending on both B and C.
fn diamond() -> (TaskDag, u64, u64, u64, u64) {
    let mut g = NodeGraph::new();
    let a = g.insert_node(number(0));
    let b = g.insert_node(add());
    let c = g.insert_node(add());
    let d = g.insert_node(add());
    assert_eq!(g.connect(a, 0, b, 0), Ok(()));
    assert_eq!(g.connect(a, 0, c, 0), Ok(()));
    assert_eq!(g.connect(b, 0, d, 0), Ok(()));
    assert_eq!(g.connect(c, 0, d, 1), Ok(()));
    (TaskDag::new(&g), a, b, c, d)
}

#[test]
fn diamond_completion_order() {
    let (mut dag, a, b, c, d) = diamond();
    assert_eq!(dag.ready_tasks(), vec![a]);
    let unblocked = dag.complete_task(a).unwrap();
    assert_eq!(sorted(unblocked), sorted(vec![b, c]));
    let unblocked = dag.complete_task(b).unwrap();
    assert!(unblocked.is_empty());
    let unblocked = dag.complete_task(c).unwrap();
    assert_eq!(unblocked, vec![d]);
    let unblocked = dag.complete_task(d).unwrap();
    assert!(unblocked.is_empty());
    assert!(dag.ready_tasks().is_empty());
    assert!(dag.blocked_tasks().is_empty());
}

#[test]
fn blocked_tasks_initially() {
    let (mut dag, a, b, c, d) = diamond();
    assert_eq!(sorted(dag.blocked_tasks()), sorted(vec![b, c, d]));
    let _ = dag.complete_task(a).unwrap();
    assert_eq!(sorted(dag.ready_tasks()), sorted(vec![b, c]));
    assert_eq!(dag.blocked_tasks(), vec![d]);
}

#[test]
fn ready_and_blocked_partition_pending() {
    let (mut dag, a, b, _c, _d) = diamond();
    // always: ready + blocked = pending universe
    let mut all = sorted([dag.ready_tasks(), dag.blocked_tasks()].concat());
    assert_eq!(all, sorted(vec![a, b, _c, _d]));
    let _ = dag.complete_task(a).unwrap();
    all = sorted([dag.ready_tasks(), dag.blocked_tasks()].concat());
    assert_eq!(all, sorted(vec![b, _c, _d]));
    let _ = dag.complete_task(b).unwrap();
    all = sorted([dag.ready_tasks(), dag.blocked_tasks()].concat());
    assert_eq!(all, sorted(vec![_c, _d]));
}

#[test]
fn tracker_of_empty_graph_has_no_tasks() {
    let g = NodeGraph::new();
    let mut dag = TaskDag::new(&g);
    assert!(dag.ready_tasks().is_empty());
    assert!(dag.blocked_tasks().is_empty());
    assert_eq!(dag.complete_task(0), Err(GraphError::NotPending));
}

#[test]
fn completing_a_completed_or_unknown_task_fails() {
    let (mut dag, a, _b, _c, _d) = diamond();
    assert_eq!(dag.complete_task(999), Err(GraphError::NotPending));
    let _ = dag.complete_task(a).unwrap();
    assert_eq!(dag.complete_task(a), Err(GraphError::NotPending));
}

#[test]
fn parallel_edges_count_as_one_predecessor() {
    // two edges from the same source node into both inputs of one sum
    let mut g = NodeGraph::new();
    let a = g.insert_node(number(0));
    let b = g.insert_node(add());
    assert_eq!(g.connect(a, 0, b, 0), Ok(()));
    assert_eq!(g.connect(a, 0, b, 1), Ok(()));
    let mut dag = TaskDag::new(&g);
    assert_eq!(dag.ready_tasks(), vec![a]);
    assert_eq!(dag.blocked_tasks(), vec![b]);
    let unblocked = dag.complete_task(a).unwrap();
    assert_eq!(unblocked, vec![b]);
}

#[test]
fn tracker_snapshot_is_independent_of_later_graph_edits() {
    let mut g = NodeGraph::new();
    let a = g.insert_node(number(0));
    let b = g.insert_node(add());
    assert_eq!(g.connect(a, 0, b, 0), Ok(()));
    let mut dag = TaskDag::new(&g);
    // mutating the graph afterwards does not change the tracker
    g.disconnect(a, 0, b, 0);
    assert_eq!(dag.ready_tasks(), vec![a]);
    assert_eq!(dag.blocked_tasks(), vec![b]);
    assert_eq!(dag.complete_task(a).unwrap(), vec![b]);
}
