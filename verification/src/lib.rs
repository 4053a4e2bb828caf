//! Termpose: a lexer and tree builder for an indentation-sensitive,
//! S-expression-like notation for ordered trees of tagged nodes.
//!
//! The crate has two layers. The [`lexer`] module turns a complete text
//! buffer into a sequence of per-line token streams, handling quoting,
//! escaping, and raw indentation strings. The [`tree`] module consumes
//! those token streams one line at a time and grows a tree under a
//! cursor, using an explicit indentation stack to decide when to descend
//! into a new child scope or ascend back to an ancestor.

pub mod laws;
pub mod lexer;
pub mod tree;

pub use tree::BuildError;
pub use tree::Node;
pub use tree::Protonode;
pub use tree::Protonodule;
pub use tree::Termpose;
