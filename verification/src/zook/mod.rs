//! The Zook protocol: rounds of sumcheck and code-switching, and a base case.

pub mod batched;
pub mod block;
pub mod claim_laws;
pub mod combination_laws;
pub mod commit;
pub mod covector_laws;
pub mod final_claim;
pub mod masking_laws;
pub mod masks;
pub mod protocol_laws;
pub mod prove;
pub mod round;
pub mod round_laws;
pub mod slot_weights;
pub mod verify;
