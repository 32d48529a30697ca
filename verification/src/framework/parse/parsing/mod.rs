//! Replaying a parse and publishing what changed.

pub mod build_laws;
pub mod change_laws;
pub mod columns;
pub mod document;
pub mod error;
pub mod freeze;
pub mod freeze_laws;
pub mod growth;
pub mod work;
pub mod inherit_laws;
pub mod lineage;
pub mod lineage_laws;
pub mod reachability;
pub mod path_laws;
pub mod reading_laws;
pub mod recover;
pub mod reduce;
pub mod reductions;
pub mod repairs;
pub mod replay;
pub mod restart;
pub mod reuse;
pub mod segment;
pub mod session;
pub mod shift;
pub mod shift_laws;
pub mod stack;
pub mod undo_laws;
pub mod repair_laws;
pub mod column_laws;
pub mod record_laws;
