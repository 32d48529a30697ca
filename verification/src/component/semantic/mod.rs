//! Elaborators: rules that run over the nodes of a parsed document and build
//! scopes.

pub mod context;
pub mod node;
pub mod rules;
pub mod run_laws;
pub mod task;
