//! A conflict-free replicated document engine, with a small chat layer on top.
//!
//! Independent replicas mutate a shared map-of-maps document without
//! coordination.  Every local commit produces an immutable [`types::Change`]:
//! a batch of operations carrying the issuing actor, a starting logical
//! counter, and the set of causal predecessors.  Replicas exchange changes in
//! any order; a change is buffered until its dependencies are present, applied
//! at most once, and concurrent writes to the same key are resolved
//! deterministically, so all replicas that hold the same set of changes read
//! the same document.

pub mod chat;
pub mod doc;
pub mod laws;
pub mod order;
pub mod resolve;
pub mod sync;
pub mod types;
