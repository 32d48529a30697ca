//! Parse data: syntax records, green trees, products and the graph-structured
//! stack.

pub mod ast;
pub mod frontier;
pub mod green;
pub mod gss;
pub mod matching;
pub mod product;
pub mod shape_laws;
