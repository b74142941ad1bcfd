//! IF Lang: an intent-first, constrained functional language. The library
//! lexes, parses, validates, lowers, evaluates and formats programs.
pub mod ast;
pub mod error;
pub mod eval;
pub mod format;
pub mod lexer;
pub mod lower;
pub mod parser;
pub mod parser_spec;
pub mod purity;
pub mod show;
pub mod text;
pub mod validate;
pub mod value;
