//! An in-memory directory tree built from a flat list of slash-delimited paths,
//! with a cursor that walks it in the manner of `cd` and `ls`.
//!
//! The functions of this library are verified: their contracts are stated
//! over sequences of characters and over the sequence of entries that a tree
//! holds. Three calls into the standard library are taken on trust: the
//! trimming and the lower-casing of a line of the prompt, and the `{:?}`
//! formatting of an argument that a command refuses.

pub mod acli;
pub mod commands;
pub mod laws;
pub mod model;
pub mod node;
pub mod order;
pub mod parser;
pub mod text;
pub mod tree;
