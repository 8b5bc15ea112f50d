//! Batching: several polynomials in a bundle, several bundles in a proof.

pub mod batch_laws;
pub mod binding_laws;
pub mod bundle;
pub mod bundle_laws;
pub mod claim_laws;
pub mod commit;
pub mod final_bundles;
pub mod join_laws;
pub mod protocol_laws;
pub mod prove;
pub mod selector;
pub mod verify;
pub mod walk_laws;
