//! Merging separately committed blocks by a selector.

pub mod merge;
pub mod merge_laws;
pub mod sumcheck;
