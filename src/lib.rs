//! Token-level indexing of deterministic automata, and a compiler from JSON
//! Schema documents to regular expressions.

pub mod automaton;
pub mod encoding;
pub mod scan;
pub mod index;
pub mod json;
pub mod laws;
pub mod schema;
