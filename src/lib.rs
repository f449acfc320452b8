//! A searchable in-memory index over a directory tree of skill definitions.
//!
//! The library holds the logic: manifest validation, the combined metadata and
//! content index with its incremental updates, weighted search and snippet
//! extraction, and the decisions that keep the index in step with changes on
//! disk. Reading the disk, locking and serving requests are left to the caller.

use vstd::prelude::*;

pub mod content;
pub mod index;
pub mod meta;
pub mod order;
pub mod report;
pub mod requests;
pub mod score;
pub mod search;
pub mod snippet;
pub mod stats;
pub mod store;
pub mod text;
pub mod validation;
pub mod watch;

verus! {

} // verus!
