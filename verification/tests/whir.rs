use zook::algebra::dot;
use zook::field::Field64;
use zook::irs_commit::{Config as IrsConfig, IrsMode};
use zook::linear_form::LinearForm;
use zook::proof_of_work::{self, HashId};
use zook::sumcheck::{Config as SumcheckConfig, SumcheckMode};
use zook::transcript::{ProverState, Sponge};
use zook::whir::{linear_combination, Config, RoundConfig, Witness};

fn random_vector(seed: u64, stream: u64, n: usize) -> Vec<Field64> {
    let mut sponge = Sponge::new(b"whir tests");
    sponge.absorb_word(seed);
    sponge.absorb_word(stream);
    sponge.challenge_fields(n)
}

fn code(num_vectors: usize, vector_size: usize) -> IrsConfig {
    IrsConfig {
        num_vectors,
        vector_size,
        codeword_length: vector_size / 2,
        interleaving_depth: 4,
        in_domain_samples: 3,
        deduplicate_in_domain: true,
        mode: IrsMode::Standard,
    }
}

fn sumcheck(size: usize, rounds: usize) -> SumcheckConfig {
    SumcheckConfig::new(size, proof_of_work::Config { bits: 1, hash_id: HashId::blake3() }, rounds, SumcheckMode::Standard, 2)
}

fn config(num_vectors: usize) -> Config {
    Config {
        initial_committer: code(num_vectors, 64),
        initial_sumcheck: sumcheck(64, 2),
        initial_skip_pow: proof_of_work::Config { bits: 1, hash_id: HashId::blake3() },
        round_configs: vec![RoundConfig {
            irs_committer: code(1, 16),
            sumcheck: sumcheck(16, 2),
            pow: proof_of_work::Config { bits: 1, hash_id: HashId::blake3() },
            out_domain_samples: 2,
        }],
        final_sumcheck: sumcheck(4, 2),
        final_pow: proof_of_work::Config { bits: 1, hash_id: HashId::blake3() },
    }
}

struct Proof {
    claim: zook::whir::FinalClaim,
    vectors: Vec<Vec<Field64>>,
    narg: Vec<u64>,
}

fn prove(seed: u64, commitments: usize, num_vectors: usize, num_forms: usize, ood: usize) -> Proof {
    let c = config(num_vectors);
    assert_eq!(c.initial_size(), 64);
    let vectors: Vec<Vec<Field64>> = (0..commitments * num_vectors)
        .map(|i| random_vector(seed, i as u64, 64))
        .collect();
    let forms: Vec<LinearForm> = (0..num_forms)
        .map(|i| LinearForm::MultilinearExtension { point: random_vector(seed, 100 + i as u64, 6) })
        .collect();
    let mut evaluations = Vec::new();
    for f in &forms {
        for v in &vectors {
            evaluations.push(dot(v, &f.to_covector()));
        }
    }
    let mut ps = ProverState::new(b"whir", b"coins");
    let witnesses: Vec<Witness> = vectors
        .chunks(num_vectors)
        .map(|part| {
            let (irs, out_of_domain) = c.initial_committer.commit_with_ood(&mut ps, part, ood);
            Witness { irs, out_of_domain }
        })
        .collect();
    let refs: Vec<&LinearForm> = forms.iter().collect();
    let claim = c.prove(&mut ps, &vectors, witnesses, &refs, &evaluations);
    Proof { claim, vectors, narg: ps.narg }
}

#[test]
fn the_claim_that_is_left_has_a_point_and_weights() {
    for (commitments, num_vectors, num_forms, ood) in
        [(1, 1, 1, 1), (1, 2, 3, 2), (2, 1, 2, 1), (1, 1, 2, 0)]
    {
        let p = prove(1, commitments, num_vectors, num_forms, ood);
        assert_eq!(p.claim.evaluation_point.len(), 6);
        assert_eq!(p.claim.rlc_coefficients.len(), num_forms);
        // The prover leaves the value to the verifier.
        assert_eq!(p.claim.linear_form_rlc, Field64::zero());
        let again = prove(1, commitments, num_vectors, num_forms, ood);
        assert_eq!(again.claim.evaluation_point, p.claim.evaluation_point);
        assert_eq!(again.narg, p.narg);
        assert!(!p.narg.is_empty());
        assert_eq!(p.vectors.len(), commitments * num_vectors);
    }
}

#[test]
fn nothing_is_sent_without_vectors() {
    let c = config(1);
    let mut ps = ProverState::new(b"whir", b"coins");
    let claim = c.prove(&mut ps, &[], vec![], &[], &[]);
    assert!(ps.narg.is_empty());
    assert!(claim.evaluation_point.is_empty());
    assert!(claim.rlc_coefficients.is_empty());
    assert_eq!(claim.linear_form_rlc, Field64::zero());
}

#[test]
fn vectors_are_combined() {
    let f = Field64::new;
    let vectors = vec![vec![f(1), f(2)], vec![f(3), f(4)]];
    assert_eq!(linear_combination(&vectors, &[f(1), f(10)], 2), vec![f(31), f(42)]);
    assert_eq!(linear_combination(&[], &[], 2), vec![f(0), f(0)]);
}
