//! Parameters: what a caller asks for, and the configurations derived from it.

pub mod adaptive;
pub mod adaptive_laws;
pub mod basecase;
pub mod batched;
pub mod branch;
pub mod build_round;
pub mod checks;
pub mod code_switch;
pub mod config;
pub mod derive;
pub mod error;
pub mod layout;
pub mod level_laws;
pub mod mask_proximity;
pub mod planning;
pub mod solved;
pub mod spec;
pub mod sumcheck;
pub mod validate;
