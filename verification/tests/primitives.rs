use zook::algebra::{
    copied, eq_weights, fold, folded_len, geometric_accumulate, geometric_sequence, scalar_mul,
    univariate_evaluate, zeros,
};
use zook::arith::{ceil_log2, checked_power_of_two, is_power_of_two, next_power_of_two, power_of_two};
use zook::chunks::{combine_chunks, fold_chunks};
use zook::field::{erase, wipe, Field64, MODULUS};
use zook::geometric_challenge::{
    geometric_challenge, geometric_challenge_base, geometric_challenge_buffer,
    geometric_challenge_groups, geometric_challenge_groups_with_offset,
};
use zook::linear_form::{eq_polynomial, mle_of_powers, LinearForm};
use zook::orders::next_order;
use zook::proof_of_work::{Config as PowConfig, HashId};
use zook::round_poly::{compute_round_poly_degree2, compute_round_poly_degree3};
use zook::text::{decimal, numbered};
use zook::transcript::{ProverState, Sponge, VerifierState};

fn f(x: u64) -> Field64 {
    Field64::new(x)
}

#[test]
fn field_arithmetic() {
    assert_eq!(f(MODULUS - 1).add(f(1)), f(0));
    assert_eq!(f(0).sub(f(1)), f(MODULUS - 1));
    assert_eq!(f(1 << 32).mul(f(1 << 32)), f((1 << 32) - 1));
    assert_eq!(f(3).pow(5), f(243));
    assert_eq!(f(7).pow(MODULUS - 1), f(1));
    assert_eq!(f(6).divide(f(3)), Some(f(2)));
    assert_eq!(f(6).divide(f(0)), None);
    assert_eq!(f(0).inverse(), None);
    assert_eq!(f(5).inverse().unwrap().mul(f(5)), f(1));
    // Words at and above the modulus stand for smaller elements.
    assert_eq!(f(MODULUS), f(0));
    assert_eq!(f(MODULUS + 5).to_u64(), 5);
    assert!(f(MODULUS).is_zero());
    assert_eq!(Field64::default(), Field64::zero());
}

#[test]
fn wiping_leaves_zeros() {
    let mut xs = vec![f(1), f(2), f(MODULUS - 1)];
    erase(&mut xs);
    assert_eq!(xs, vec![f(0), f(0), f(0)]);
    wipe(&mut xs);
    assert!(xs.is_empty());
}

#[test]
fn powers_of_two() {
    assert_eq!(ceil_log2(1), 0);
    assert_eq!(ceil_log2(5), 3);
    assert_eq!(ceil_log2(8), 3);
    assert_eq!(power_of_two(10), 1024);
    assert_eq!(checked_power_of_two(200), None);
    assert_eq!(checked_power_of_two(4), Some(16));
    assert_eq!(next_power_of_two(9), 16);
    assert!(is_power_of_two(64));
    assert!(!is_power_of_two(0));
    assert!(!is_power_of_two(12));
}

#[test]
fn polynomials_and_sequences() {
    assert_eq!(univariate_evaluate(&[f(1), f(2), f(3)], f(10)), f(321));
    assert_eq!(univariate_evaluate(&[], f(10)), f(0));
    assert_eq!(geometric_sequence(f(2), f(3), 4), vec![f(2), f(6), f(18), f(54)]);
    assert_eq!(zeros(2), vec![f(0), f(0)]);
    assert_eq!(copied(&[f(4)]), vec![f(4)]);
    let mut v = vec![f(1), f(2)];
    scalar_mul(&mut v, f(5));
    assert_eq!(v, vec![f(5), f(10)]);
    let mut acc = vec![f(1), f(1), f(1)];
    geometric_accumulate(&mut acc, &[f(10)], &[f(2)], 2);
    assert_eq!(acc, vec![f(11), f(21), f(1)]);
}

#[test]
fn folding_pads_with_zeros() {
    let mut v = vec![f(1), f(2), f(3)];
    fold(&mut v, f(10));
    // The halves are (1, 2) and (3, 0).
    assert_eq!(v, vec![f(21), f(2).sub(f(20))]);
    assert_eq!(folded_len(3), 2);
    assert_eq!(folded_len(4), 2);
}

#[test]
fn weights_of_a_point() {
    let w = eq_weights(&[f(3), f(5)]);
    let one = Field64::one();
    let a = [one.sub(f(3)), f(3)];
    let b = [one.sub(f(5)), f(5)];
    assert_eq!(w, vec![a[0].mul(b[0]), a[0].mul(b[1]), a[1].mul(b[0]), a[1].mul(b[1])]);
    assert_eq!(eq_weights(&[]), vec![one]);
    assert_eq!(
        eq_polynomial(&[f(3), f(5)], &[f(2), f(9)]),
        LinearForm::Covector { vector: w }.mle_evaluate(&[f(2), f(9)])
    );
}

#[test]
fn linear_forms_agree_with_their_covectors() {
    let point = vec![f(4), f(9), f(2)];
    let at = vec![f(7), f(1), f(5)];
    let forms = [
        LinearForm::MultilinearExtension { point },
        LinearForm::UnivariateEvaluation { x: f(11), size: 8 },
        LinearForm::Covector { vector: (1..=8).map(f).collect() },
    ];
    for form in &forms {
        assert_eq!(form.size(), 8);
        let covector = LinearForm::Covector { vector: form.to_covector() };
        assert_eq!(form.mle_evaluate(&at), covector.mle_evaluate(&at));
        let mut acc = vec![f(1); 10];
        form.accumulate(&mut acc, 2, f(3));
        assert_eq!(acc[0], f(1));
        assert_eq!(acc[2], f(1).add(f(3).mul(form.to_covector()[0])));
    }
    let powers = LinearForm::UnivariateEvaluation { x: f(11), size: 8 };
    assert_eq!(mle_of_powers(f(11), &at), powers.mle_evaluate(&at));
}

#[test]
fn chunks_are_combined() {
    let values: Vec<Field64> = (1..=6).map(f).collect();
    assert_eq!(
        combine_chunks(&values, 2, &[f(1), f(10), f(100)]),
        vec![f(531), f(642)]
    );
    let four: Vec<Field64> = (1..=4).map(f).collect();
    let mut folded = four.clone();
    fold(&mut folded, f(6));
    assert_eq!(fold_chunks(&four, 2, &[f(6)]), folded);
}

#[test]
fn round_polynomials() {
    // a = 1 + 2X, b = 3 + 4X: the product is 3 + 10X + 8X^2.
    let (c0, c2) = compute_round_poly_degree2(&[f(1), f(3)], &[f(3), f(7)]);
    assert_eq!((c0, c2), (f(3), f(8)));
    // Times 5 + X: 15 + 53X + 50X^2 + 8X^3.
    let (c0, c2, c3) =
        compute_round_poly_degree3(&[f(5), f(6)], &[f(1), f(3)], &[f(3), f(7)]);
    assert_eq!((c0, c2, c3), (f(15), f(50), f(8)));
}

#[test]
fn geometric_challenges_share_one_base() {
    let mut a = Sponge::new(b"rlc");
    let mut b = Sponge::new(b"rlc");
    let mut c = Sponge::new(b"rlc");
    let mut d = Sponge::new(b"rlc");
    let whole = geometric_challenge(&mut a, 6);
    assert_eq!(whole[0], Field64::one());
    assert_eq!(whole[1].mul(whole[1]), whole[2]);
    let groups = geometric_challenge_groups(&mut b, &[1, 3, 2]);
    assert_eq!(groups.concat(), whole);
    let (base, rest) = geometric_challenge_groups_with_offset(&mut c, 2, &[4]);
    assert_eq!(base, whole[1]);
    assert_eq!(rest[0], whole[2..].to_vec());
    assert_eq!(geometric_challenge_buffer(&mut d, 6), whole);
    assert_eq!(a.peek(8), d.peek(8));
    // Nothing is drawn where there is nothing to combine.
    let mut e = Sponge::new(b"rlc");
    assert_eq!(geometric_challenge(&mut e, 1), vec![Field64::one()]);
    assert_eq!(geometric_challenge_base(&mut e, 0), Field64::one());
    assert_eq!(e.peek(8), Sponge::new(b"rlc").peek(8));
}

#[test]
fn sponge_output_depends_on_what_was_absorbed() {
    let mut a = Sponge::new(b"label");
    let b = Sponge::new(b"label");
    assert_eq!(a.peek(32), b.peek(32));
    assert_ne!(a.peek(16), b"label".to_vec());
    a.absorb_word(1);
    assert_ne!(a.peek(32), b.peek(32));
    let before = a.duplicate();
    let first = a.squeeze_bytes(4);
    assert_eq!(first, before.peek(4));
    // Squeezing moves on.
    assert_ne!(a.peek(4), first);
}

#[test]
fn shake_of_the_empty_string() {
    // The first bytes of SHAKE128 of nothing.
    assert_eq!(
        Sponge::new(b"").peek(8),
        vec![0x7f, 0x9c, 0x2b, 0xa4, 0xe8, 0x8f, 0x82, 0x7d]
    );
}

#[test]
fn what_is_sent_is_read() {
    let mut ps = ProverState::new(b"transcript", b"coins");
    ps.prover_message(f(5));
    ps.prover_messages(&[f(6), f(7)]);
    let c = ps.verifier_message();
    ps.send_words(&[1, 2]);
    let cs = ps.verifier_message_vec(3);
    let mut vs = VerifierState::new(b"transcript", ps.narg);
    assert_eq!(vs.prover_message().unwrap(), f(5));
    assert_eq!(vs.prover_messages(2).unwrap(), vec![f(6), f(7)]);
    assert_eq!(vs.verifier_message(), c);
    assert!(vs.check_eof().is_err());
    assert_eq!(vs.read_words(2).unwrap(), vec![1, 2]);
    assert_eq!(vs.verifier_message_vec(3), cs);
    vs.check_eof().unwrap();
    assert!(vs.read_word().is_err());
}

#[test]
fn words_above_the_modulus_are_no_field_elements() {
    let mut vs = VerifierState::new(b"transcript", vec![MODULUS]);
    assert!(vs.prover_message().is_err());
}

#[test]
fn prover_randomness_is_private() {
    let mut a = ProverState::new(b"t", b"one");
    let mut b = ProverState::new(b"t", b"two");
    assert_ne!(a.random_vector(2), b.random_vector(2));
    assert!(a.narg.is_empty());
    assert_eq!(a.verifier_message(), b.verifier_message());
}

#[test]
fn work_is_found_and_checked() {
    let config = PowConfig { bits: 8, hash_id: HashId::blake3() };
    let mut ps = ProverState::new(b"work", b"coins");
    config.prove(&mut ps);
    assert_eq!(ps.narg.len(), 1);
    let nonce = ps.narg[0];
    let mut vs = VerifierState::new(b"work", ps.narg);
    config.verify(&mut vs).unwrap();
    vs.check_eof().unwrap();
    if nonce > 0 {
        let mut vs = VerifierState::new(b"work", vec![nonce - 1]);
        assert!(config.verify(&mut vs).is_err());
    }
    let mut vs = VerifierState::new(b"work", vec![]);
    assert!(config.verify(&mut vs).is_err());
    PowConfig::none().verify(&mut vs).unwrap();
}

#[test]
fn the_engine_is_bound_into_the_work() {
    let blake = PowConfig { bits: 12, hash_id: HashId::blake3() };
    let sha = PowConfig { bits: 12, hash_id: HashId::sha2() };
    let mut ps = ProverState::new(b"work", b"coins");
    blake.prove(&mut ps);
    assert!(!ps.stuck);
    let mut other = ProverState::new(b"work", b"coins");
    sha.prove(&mut other);
    assert_ne!(ps.narg, other.narg);
    let mut vs = VerifierState::new(b"work", ps.narg);
    assert!(sha.verify(&mut vs).is_err());
    let mut vs = VerifierState::new(b"work", other.narg);
    sha.verify(&mut vs).unwrap();
}

#[test]
fn orders_of_codewords() {
    assert_eq!(next_order(0), Some(1));
    assert_eq!(next_order(1), Some(1));
    assert_eq!(next_order(3), Some(3));
    assert_eq!(next_order(5), Some(6));
    assert_eq!(next_order(7), Some(8));
    assert_eq!(next_order(9), Some(12));
    assert_eq!(next_order(1000), Some(1024));
    assert_eq!(next_order(1025), Some(1536));
    assert_eq!(next_order(usize::MAX), None);
    for n in [2, 6, 48, 1 << 20] {
        assert_eq!((MODULUS - 1) % next_order(n).unwrap() as u64, 0);
    }
}

#[test]
fn numbers_as_text() {
    assert_eq!(decimal(0), "0");
    assert_eq!(decimal(10), "10");
    assert_eq!(decimal(9081726354), "9081726354");
    assert_eq!(numbered("a", 42, "b"), "a42b");
}
