//! The parser: grammar symbols, parse data, replay and its published changes.

pub mod child_laws;
pub mod component;
pub mod data;
pub mod delta;
pub mod diagnostics;
pub mod grammar;
pub mod identity;
pub mod parsing;
pub mod plan_laws;
pub mod recovery_policy;
pub mod snapshot;
pub mod stages;
pub mod tables;
pub mod tables_laws;
pub mod tokens;
pub mod types;
