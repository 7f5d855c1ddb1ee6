//! A typed dataflow node-graph engine.
//!
//! The library keeps a mutable directed graph of typed, value-producing
//! nodes connected by single-writer edges.  Every mutation is validated:
//! an edge is only committed when both ports exist, their kinds are
//! compatible, and the edge closes no cycle.  An evaluator recomputes the
//! cached output of every node downstream of a change, in topological
//! order.  A separate task-dependency tracker classifies the nodes of a
//! snapshot of the same kind of graph as ready or blocked while
//! completions are reported to it.

pub mod data_type;
pub mod digraph;
pub mod execution_engine;
pub mod node_graph;
pub mod nodes;
