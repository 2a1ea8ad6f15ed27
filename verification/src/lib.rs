//! Deterministic manifests of directory trees: which paths are in scope,
//! how a walk proceeds, how file contents are hashed, and how the records of
//! one run are put into their canonical order.

pub mod lexical;
pub mod exclusion;
pub mod walker;
pub mod digest;
pub mod record;
pub mod manifest;
pub mod worker;
pub mod clock;
pub mod tree;
