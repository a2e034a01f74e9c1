//! Semantic analysis of one compilation unit: a fixpoint loop that types the
//! unit's top-level nodes in any textual order, and a finaliser that shapes the
//! typed nodes by program kind (script, predicate, contract, library).
pub mod error;
pub mod fixpoint;
pub mod independence;
pub mod parse_tree;
pub mod span;
pub mod syntax_tree;
pub mod typed_ast;
pub mod types;
