//! A directed acyclic graph of named computation nodes. Each node is a
//! function of the values of its declared inputs; one node is the output.
//! `compute` orders the nodes the output needs, drops the rest, runs each
//! needed node once and releases intermediate values as soon as their last
//! consumer has run.
pub mod arena;
pub mod count;
pub mod dot;
pub mod graph;
pub mod node;
pub mod paths;

pub use graph::{ComputationGraph, GraphError, NodeHandle};
pub use node::Node;
