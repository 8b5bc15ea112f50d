//! Zero-knowledge WHIR polynomial commitments ("Zook"): the field and vector
//! algebra, the Fiat-Shamir transcript, the sub-protocols and the parameter
//! derivation, each with a machine-checked contract.

pub mod algebra;
pub mod arith;
pub mod basecase;
pub mod basecase_laws;
pub mod binding_laws;
pub mod bits;
pub mod challenge_indices;
pub mod chunks;
pub mod code_laws;
pub mod code_switch;
pub mod code_switch_laws;
pub mod draw_laws;
pub mod embedding;
pub mod field;
pub mod hiding_laws;
pub mod irs_commit;
pub mod irs_laws;
pub mod irs_ood;
pub mod linear_form;
pub mod mask_proximity;
pub mod mask_proximity_laws;
pub mod matrix_commit;
pub mod multilinear_laws;
pub mod orders;
pub mod params;
pub mod polynomial_laws;
pub mod prime;
pub mod geometric_challenge;
pub mod proof_of_work;
pub mod round_poly;
pub mod soundness_laws;
pub mod sumcheck;
pub mod sumcheck_laws;
pub mod sums;
pub mod text;
pub mod transcript;
pub mod vector_laws;
pub mod whir;
pub mod whir_laws;
pub mod whir_transcript_laws;
pub mod zook;
pub mod transcript_laws;
