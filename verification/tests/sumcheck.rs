use zook::algebra::{dot, univariate_evaluate};
use zook::embedding::{lift, Identity, SmallWords};
use zook::field::Field64;
use zook::linear_form::LinearForm;
use zook::proof_of_work::{self, HashId};
use zook::sumcheck::{Config, SumcheckMaskLen, SumcheckMode};
use zook::transcript::{ProverState, Sponge, VerifierState};

fn values(label: &[u8], seed: u64, n: usize) -> Vec<Field64> {
    let mut sponge = Sponge::new(label);
    sponge.absorb_word(seed);
    sponge.challenge_fields(n)
}

fn multilinear_extend(values: &[Field64], point: &[Field64]) -> Field64 {
    let mut padded = values.to_vec();
    padded.resize(1 << point.len(), Field64::zero());
    LinearForm::Covector { vector: padded }.mle_evaluate(point)
}

fn test_config(seed: u64, config: &Config) {
    let initial_vector = values(b"vector", seed, config.initial_size());
    let initial_covector = values(b"covector", seed, config.initial_size());
    let initial_sum = dot(&initial_vector, &initial_covector);
    let masks = values(b"masks", seed, config.mask_length() * config.num_rounds());

    let mut sum = initial_sum;
    let mut prover_state = ProverState::new(b"sumcheck", b"seed");
    let (vector, covector, opening) = config.prove(
        &mut prover_state,
        &Identity,
        initial_vector.clone(),
        initial_covector.clone(),
        &mut sum,
        &masks,
    );
    let point = opening.round_challenges;
    let mask_rlc = opening.mask_rlc;
    assert_eq!(vector.len(), config.final_size());
    assert_eq!(covector.len(), config.final_size());
    if config.final_size() == 1 {
        assert_eq!(multilinear_extend(&initial_vector, &point), vector[0]);
        assert_eq!(multilinear_extend(&initial_covector, &point), covector[0]);
    }
    let mut expected = mask_rlc.mul(dot(&vector, &covector));
    for (i, x) in point.iter().enumerate() {
        let len = config.mask_length();
        expected = expected.add(univariate_evaluate(&masks[i * len..(i + 1) * len], *x));
    }
    assert_eq!(sum, expected);

    let mut verifier_sum = initial_sum;
    let mut verifier_state = VerifierState::new(b"sumcheck", prover_state.narg);
    let verifier = config.verify(&mut verifier_state, &mut verifier_sum).unwrap();
    assert_eq!(verifier.round_challenges, point);
    assert_eq!(verifier.mask_rlc, mask_rlc);
    assert_eq!(verifier_sum, sum);
    verifier_state.check_eof().unwrap();
    if matches!(config.mode(), SumcheckMode::Standard) || config.num_rounds() == 0 {
        assert_eq!(mask_rlc, Field64::one());
    }
}

fn zk(initial_size: usize, num_rounds: usize, mask: usize) -> Config {
    Config::new(
        initial_size,
        proof_of_work::Config::none(),
        num_rounds,
        SumcheckMode::ZeroKnowledge { mask_length: SumcheckMaskLen::new(mask) },
        2,
    )
}

fn standard(initial_size: usize, num_rounds: usize) -> Config {
    Config::new(
        initial_size,
        proof_of_work::Config::none(),
        num_rounds,
        SumcheckMode::Standard,
        2,
    )
}

#[test]
fn test_single_round() {
    test_config(0, &zk(2, 1, 3));
}

#[test]
fn test_two_rounds() {
    test_config(0, &zk(3, 2, 3));
}

#[test]
fn test_three_rounds() {
    test_config(0, &zk(5, 3, 3));
}

#[test]
fn sumcheck_test_field64_1() {
    let sizes = [0usize, 1, 2, 3, 7, 16, 33, 100, 256, 300];
    for (i, &size) in sizes.iter().enumerate() {
        let most = size.next_power_of_two().trailing_zeros() as usize;
        for rounds in 0..=most {
            test_config(i as u64, &standard(size, rounds));
            test_config(i as u64, &zk(size, rounds, 3 + (i % 5)));
        }
    }
}

#[test]
fn work_is_done_in_every_round() {
    let config = Config::new(
        8,
        proof_of_work::Config { bits: 3, hash_id: HashId::blake3() },
        3,
        SumcheckMode::Standard,
        2,
    );
    test_config(11, &config);
}

#[test]
fn mixed_prove_matches_lifted_transcript() {
    for (seed, config) in [
        (1, standard(8, 3)),
        (2, standard(9, 2)),
        (3, standard(0, 0)),
        (4, zk(16, 4, 3)),
        (5, zk(12, 2, 5)),
    ] {
        let n = config.initial_size();
        let a_source: Vec<u32> = values(b"source", seed, n)
            .iter()
            .map(|x| (x.to_u64() >> 40) as u32)
            .collect();
        let covector = values(b"covector", seed, n);
        let masks = values(b"masks", seed, config.mask_length() * config.num_rounds());
        let a_lifted = lift(&SmallWords, &a_source);
        let initial_sum = dot(&a_lifted, &covector);

        let mut mixed_sum = initial_sum;
        let mut mixed = ProverState::new(b"mixed", b"seed");
        let (a, b, opening) =
            config.prove(&mut mixed, &SmallWords, a_source, covector.clone(), &mut mixed_sum, &masks);
        let mut lifted_sum = initial_sum;
        let mut lifted = ProverState::new(b"mixed", b"seed");
        let (lifted_a, lifted_b, lifted_opening) =
            config.prove(&mut lifted, &Identity, a_lifted, covector, &mut lifted_sum, &masks);
        assert_eq!(mixed.narg, lifted.narg);
        assert_eq!(a, lifted_a);
        assert_eq!(b, lifted_b);
        assert_eq!(mixed_sum, lifted_sum);
        assert_eq!(opening.round_challenges, lifted_opening.round_challenges);
        assert_eq!(opening.mask_rlc, lifted_opening.mask_rlc);
    }
}

#[test]
fn a_changed_message_changes_the_sum() {
    let config = standard(8, 3);
    let vector = values(b"vector", 4, 8);
    let covector = values(b"covector", 4, 8);
    let initial = dot(&vector, &covector);
    let mut sum = initial;
    let mut ps = ProverState::new(b"sumcheck", b"seed");
    config.prove(&mut ps, &Identity, vector, covector, &mut sum, &[]);
    let mut narg = ps.narg;
    narg[0] = Field64::new(narg[0]).add(Field64::one()).to_u64();
    let mut other = initial;
    let mut vs = VerifierState::new(b"sumcheck", narg);
    let r = config.verify(&mut vs, &mut other);
    assert!(r.is_err() || other != sum);
}

#[test]
fn a_short_proof_is_rejected() {
    let config = zk(8, 3, 3);
    let mut sum = Field64::one();
    let mut vs = VerifierState::new(b"sumcheck", vec![1, 2]);
    assert!(config.verify(&mut vs, &mut sum).is_err());
}

#[test]
fn mask_length_of_modes() {
    assert_eq!(standard(8, 2).mask_length(), 0);
    assert_eq!(zk(8, 2, 5).mask_length(), 5);
    assert_eq!(SumcheckMaskLen::new(4).get(), 4);
    assert_eq!(SumcheckMaskLen::MIN, 3);
    assert_eq!(standard(9, 2).final_size(), 4);
}
