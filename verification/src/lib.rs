//! Merging of layered directory trees.
//!
//! An ordered stack of source directories ("layers") is combined into one
//! merged tree under first-writer-wins semantics: layers are processed in
//! descending lexical order of their paths, and the first layer to offer a
//! file at a relative path owns that path. Structural exclusion rules keep
//! directories, metadata subtrees and stray top-level files out of the merge.
//! The modules here plan that merge and decide how the result is published;
//! the surrounding application performs the filesystem work the plan calls
//! for.

pub mod lex;
pub mod paths;
pub mod filter;
pub mod layers;
pub mod plan;
pub mod publish;
