//! Mutable parse-tree arena and whitespace reflow for SQL linting.

pub mod arena;
pub mod edit;
pub mod frame;
pub mod kind;
pub mod marker;
pub mod match_result;
pub mod node;
pub mod reflow;
pub mod revalidate;
pub mod table_driven;
pub mod tables;
pub mod text;
pub mod token;
pub mod tree;
