//! Traversals that the caller steers.

pub mod walk;
