//! A verified core for a `tree`-style directory lister: filesystem entries,
//! identified by slash-separated paths, are filtered by inclusion and
//! exclusion glob patterns and assembled into a nested tree of labelled
//! nodes keyed by path segments.

pub mod entry;
pub mod filter;
pub mod laws;
pub mod matcher;
pub mod pipeline;
pub mod segments;
pub mod tree;
