//! An incremental language framework: source revisions, lexing, parsing,
//! scope graphs and elaboration, with every data structure and rule verified.

pub mod collections;
pub mod component;
pub mod framework;
pub mod shape;
pub mod shape_graph;
pub mod sort;
pub mod store;
pub mod text;
pub mod utils;
