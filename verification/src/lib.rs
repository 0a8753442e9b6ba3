//! Keeps the references inside a tree of build project descriptors intact
//! while a project is moved, and folds a discovered set of projects into a
//! nested solution tree.
//!
//! The crate is organised bottom up: `paths` does the lexical path
//! arithmetic, `xml` models the descriptor documents, `relocate` plans and
//! applies a single move, and `tree` builds the solution view.

pub mod paths;
pub mod relocate;
pub mod tree;
pub mod xml;
