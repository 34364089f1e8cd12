//! Build-order computation for a tree of C source files.
//!
//! The library models file identities as byte-string paths, extracts quoted
//! import targets from file text, resolves each target against the importing
//! file's own directory, builds a dependency graph over the collected files,
//! and produces a topological order (dependencies first) or reports a cycle.

pub mod extract;
pub mod graph;
pub mod paths;
pub mod record;
pub mod sort;
