//! Evaluation-order resolution for dependency graphs of compute nodes.
//!
//! Given an array of nodes, each listing the indices of the nodes that
//! produce its inputs, the library linearizes the graph into a schedule:
//! a sequence of node indices in which every producer precedes each of
//! its consumers, or an error when a dependency cycle makes that
//! impossible.

pub mod bits;
pub mod graph;
pub mod memory;
pub mod order;

pub use graph::Fact;
pub use graph::Graph;
pub use graph::Node;
pub use graph::OrderError;
pub use order::eval_order;
pub use order::eval_order_for_nodes;
pub use memory::eval_order_for_nodes_memory;
pub use memory::node_cost;
