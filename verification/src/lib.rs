//! Front end of a small S-expression language: a lexical scanner, a
//! stack-based syntactic parser with precise diagnostics, a validated
//! symbol type and the tree node model, together with a plain
//! command-line argument matcher.

pub mod cli;
pub mod error;
pub mod laws;
pub mod parser;
pub mod syntax;
