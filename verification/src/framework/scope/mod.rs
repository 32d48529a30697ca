//! Scope graphs: the scopes, declarations and references of one domain, and
//! the resolution of paths through them.

pub mod graph;
pub mod order;
pub mod path;
pub mod resolve;
