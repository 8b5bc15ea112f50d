//! Parameters of the batched protocol.

pub mod config;
pub mod fault;
pub mod level_laws;
pub mod place;
pub mod placement;
pub mod pre_merge;
pub mod spec;
pub mod structure_laws;
pub mod validate;
