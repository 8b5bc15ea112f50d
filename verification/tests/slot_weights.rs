use zook::algebra::{dot, eq_weights};
use zook::field::Field64;
use zook::transcript::Sponge;
use zook::zook::slot_weights::build;

fn random_vector(seed: u64, n: usize) -> Vec<Field64> {
    let mut sponge = Sponge::new(b"slot weights");
    sponge.absorb_word(seed);
    sponge.challenge_fields(n)
}

#[test]
fn single_block_slot_weights_equal_eq_weights() {
    let folding = random_vector(0, 3);
    let collapse = eq_weights(&folding);
    let slot = build(&[Field64::one()], &folding);
    assert_eq!(slot, collapse);
}

#[test]
fn empty_theta_yields_empty() {
    let theta: Vec<Field64> = Vec::new();
    let folding: Vec<Field64> = vec![Field64::new(2), Field64::new(3)];
    assert!(build(&theta, &folding).is_empty());
}

#[test]
fn tensor_layout_block_outer_slot_inner() {
    let folding = random_vector(7, 2);
    let collapse = eq_weights(&folding);
    let theta = random_vector(8, 2);
    let slot = build(&theta, &folding);
    assert_eq!(slot.len(), 2 * 4);
    for b in 0..2 {
        for s in 0..4 {
            assert_eq!(slot[b * 4 + s], theta[b].mul(collapse[s]));
        }
    }
}

#[test]
fn slot_weights_match_per_block_then_combine_reduction() {
    let folding = random_vector(11, 2);
    let collapse = eq_weights(&folding);
    let theta = random_vector(12, 2);
    let row = random_vector(13, 8);
    let slot = build(&theta, &folding);
    let one_step = dot(&slot, &row);
    let mut two_step = Field64::zero();
    for b in 0..2 {
        let mut per_block = Field64::zero();
        for s in 0..4 {
            per_block = per_block.add(collapse[s].mul(row[b * 4 + s]));
        }
        two_step = two_step.add(theta[b].mul(per_block));
    }
    assert_eq!(one_step, two_step);
}
