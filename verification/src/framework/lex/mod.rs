//! Lexing.

pub mod afresh_laws;
pub mod context;
pub mod coverage;
pub mod cursor;
pub mod lexed;
pub mod lexer;
pub mod mode;
pub mod tape_laws;
pub mod token;
pub mod patch;
pub mod relex;
pub mod derive;
pub mod publish;
pub mod component;
pub mod laws;
pub mod edit_laws;
pub mod fact_laws;
