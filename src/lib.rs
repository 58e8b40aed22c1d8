//! Syntax trees of WIT interface definitions, and what is read from them: a
//! walk in document order, the nodes of a kind, a semantic tree without
//! punctuation, and the interfaces, functions and parameters they declare.

pub mod extract;
pub mod parse;
pub mod tree;
pub mod trim;
pub mod walk;
