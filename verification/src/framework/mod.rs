//! The language framework: source documents and the passes over them.

pub mod change;
pub mod coordinates;
pub mod lex;
pub mod parse;
pub mod revision;
pub mod scope;
pub mod source;
pub mod work_laws;
