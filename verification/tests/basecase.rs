use zook::algebra::dot;
use zook::basecase::{BasecaseMode, Config};
use zook::bits::Bits;
use zook::field::Field64;
use zook::irs_commit::{Config as IrsConfig, IrsMode, MaskLen};
use zook::linear_form::LinearForm;
use zook::proof_of_work;
use zook::sumcheck::{Config as SumcheckConfig, SumcheckMode};
use zook::transcript::{ProverState, Sponge, VerifierState};

fn random_vector(label: &[u8], seed: u64, n: usize) -> Vec<Field64> {
    let mut sponge = Sponge::new(label);
    sponge.absorb_word(seed);
    sponge.challenge_fields(n)
}

fn config(size: usize, mask: usize, zk: bool) -> Config {
    Config {
        commit: IrsConfig {
            num_vectors: 1,
            vector_size: size,
            codeword_length: (2 * (size + mask)).next_power_of_two(),
            interleaving_depth: 1,
            in_domain_samples: 5,
            deduplicate_in_domain: false,
            mode: if mask == 0 {
                IrsMode::Standard
            } else {
                IrsMode::ZeroKnowledge { mask_length: MaskLen::new(mask).unwrap() }
            },
        },
        sumcheck: SumcheckConfig::new(
            size,
            proof_of_work::Config::none(),
            size.next_power_of_two().trailing_zeros() as usize,
            SumcheckMode::Standard,
            2,
        ),
        mode: if zk { BasecaseMode::ZeroKnowledge } else { BasecaseMode::Standard },
        pow: proof_of_work::Config::none(),
    }
}

fn multilinear_extend(values: &[Field64], point: &[Field64]) -> Field64 {
    let mut padded = values.to_vec();
    padded.resize(1 << point.len(), Field64::zero());
    LinearForm::Covector { vector: padded }.mle_evaluate(point)
}

fn test_config(seed: u64, config: &Config) {
    let vector = random_vector(b"vector", seed, config.size());
    let covector = random_vector(b"covector", seed, config.size());
    let sum = dot(&vector, &covector);
    let mut ps = ProverState::new(b"basecase", b"coins");
    let witness = config.commit.commit(&mut ps, &[vector.clone()]);
    let prover = config
        .prove(&mut ps, vector, witness, covector.clone(), sum)
        .unwrap();
    assert_eq!(
        multilinear_extend(&covector, &prover.evaluation_points),
        prover.linear_form_evaluation
    );
    let mut vs = VerifierState::new(b"basecase", ps.narg);
    let commitment = config.commit.receive_commitment(&mut vs).unwrap();
    let verifier = config.verify(&mut vs, &commitment, sum).unwrap();
    assert_eq!(verifier.evaluation_points, prover.evaluation_points);
    assert_eq!(
        verifier.linear_form_evaluation,
        prover.linear_form_evaluation
    );
    vs.check_eof().unwrap();
}

#[test]
fn basecase_test_field64_1() {
    let mut seed = 0;
    for size in [1usize, 2, 3, 5, 8, 16, 31] {
        for mask in [0usize, 1, 4, 9] {
            for zk in [false, true] {
                test_config(seed, &config(size, mask, zk));
                seed += 1;
            }
        }
    }
}

#[test]
fn a_wrong_sum_is_rejected() {
    for zk in [false, true] {
        let c = config(8, 2, zk);
        let vector = random_vector(b"vector", 3, 8);
        let covector = random_vector(b"covector", 3, 8);
        let sum = dot(&vector, &covector);
        let mut ps = ProverState::new(b"basecase", b"coins");
        let witness = c.commit.commit(&mut ps, &[vector.clone()]);
        c.prove(&mut ps, vector, witness, covector, sum).unwrap();
        let mut vs = VerifierState::new(b"basecase", ps.narg);
        let commitment = c.commit.receive_commitment(&mut vs).unwrap();
        let wrong = sum.add(Field64::one());
        match c.verify(&mut vs, &commitment, wrong) {
            Err(_) => {}
            // Without a check of the sum itself, the claim that is left differs.
            Ok(opening) => {
                let mut again = ProverState::new(b"basecase", b"coins");
                let covector = random_vector(b"covector", 3, 8);
                let vector = random_vector(b"vector", 3, 8);
                let w = c.commit.commit(&mut again, &[vector.clone()]);
                let honest = c.prove(&mut again, vector, w, covector, sum).unwrap();
                assert_ne!(
                    opening.linear_form_evaluation,
                    honest.linear_form_evaluation
                );
            }
        }
    }
}

#[test]
fn a_truncated_proof_is_rejected() {
    let c = config(8, 2, true);
    let vector = random_vector(b"vector", 3, 8);
    let covector = random_vector(b"covector", 3, 8);
    let sum = dot(&vector, &covector);
    let mut ps = ProverState::new(b"basecase", b"coins");
    let witness = c.commit.commit(&mut ps, &[vector.clone()]);
    c.prove(&mut ps, vector, witness, covector, sum).unwrap();
    let mut narg = ps.narg;
    narg.pop();
    let mut vs = VerifierState::new(b"basecase", narg);
    let commitment = c.commit.receive_commitment(&mut vs).unwrap();
    assert!(c.verify(&mut vs, &commitment, sum).is_err());
}

#[test]
fn floors_of_both_slots() {
    let a = Bits::whole(60);
    let b = Bits::whole(40);
    assert_eq!(config(4, 1, false).analytic_bits(a, b), a);
    assert_eq!(config(4, 1, true).analytic_bits(a, b), b);
    assert_eq!(config(4, 1, true).analytic_bits(b, a), b);
    assert!(config(4, 1, true).is_zk());
    assert_eq!(config(4, 1, true).size(), 4);
}
