//! Incremental build orchestrator for scripted container-image definitions.
//!
//! A *definition* is a script whose first line names an interpreter and whose
//! marked comment lines declare dependencies on other definitions.  This crate
//! resolves a requested set of definitions to its transitive closure, hashes
//! file contents, propagates combined ("tree") hashes across the dependency
//! graph, rejects cycles, orders builds so that dependencies come first, and
//! decides which definitions can be skipped because their recorded artifacts
//! are up to date.

pub mod config;
pub mod fuzzy;
pub mod graph;
pub mod hashing;
pub mod hex;
pub mod interp;
pub mod parse;
pub mod reach;
pub mod resolver;
pub mod store;

pub use hashing::content_hash;
