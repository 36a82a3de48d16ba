//! Builder and server-side core for a Cincinnati-style update graph.
//!
//! Releases become graph nodes in chronological order; barrier and rollout
//! policy entries determine the permitted update edges; dead-end releases are
//! filtered out of every served graph. One cache slot per (architecture,
//! stream, scheme) scope holds the latest successfully assembled graph.

pub mod cache;
pub mod graph;
pub mod metadata;
pub mod numtext;
pub mod policy;
pub mod router;
