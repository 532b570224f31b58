//! A persistent, structurally shared B+ tree used as an ordered sequence
//! container. Every node caches a [`summary::Summary`] of its contents, so
//! the tree answers lookups both by ordinal position and by cumulative
//! summary offset in logarithmic time. Edits never mutate a node: they build
//! new nodes along the affected path and share everything else, so older
//! handles remain valid snapshots.

pub mod summary;
pub mod bptree;
pub mod edit;
pub mod seek;
pub mod laws;
