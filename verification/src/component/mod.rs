//! The components of an incremental compiler over source documents.

pub mod semantic;
pub mod source;
pub mod source_laws;
pub mod structural;
pub mod workspace;
