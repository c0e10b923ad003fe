//! Incremental columnar computation over a DAG of typed column nodes.

pub mod dag;
pub mod column;
pub mod kernel;
pub mod executor;
pub mod node;
pub mod fusion;
pub mod bool_node;
pub mod string_node;
pub mod frame;
pub mod col_ops;
pub mod text;
pub mod macro_plan;

pub use bool_node::BoolNode;
pub use node::{ColRef, Node};
pub use string_node::StringNode;
