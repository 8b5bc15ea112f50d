use zook::algebra::{dot, univariate_evaluate};
use zook::embedding::{lift, Identity, SmallWords};
use zook::field::Field64;
use zook::irs_commit::{CodewordLengthError, Config, Evaluations, IrsMode, MaskLen};
use zook::irs_ood::IrsParams;
use zook::linear_form::LinearForm;
use zook::transcript::{ProverState, Sponge, VerifierState};

fn random_vector(seed: u64, n: usize) -> Vec<Field64> {
    let mut sponge = Sponge::new(b"irs");
    sponge.absorb_word(seed);
    sponge.challenge_fields(n)
}

fn config(
    num_vectors: usize,
    vector_size: usize,
    depth: usize,
    mask: usize,
    samples: usize,
    dedup: bool,
) -> Config {
    let masked = vector_size / depth + mask;
    Config {
        num_vectors,
        vector_size,
        codeword_length: (2 * masked).next_power_of_two(),
        interleaving_depth: depth,
        in_domain_samples: samples,
        deduplicate_in_domain: dedup,
        mode: if mask == 0 {
            IrsMode::Standard
        } else {
            IrsMode::ZeroKnowledge { mask_length: MaskLen::new(mask).unwrap() }
        },
    }
}

fn test(seed: u64, config: &Config) {
    let vectors: Vec<Vec<Field64>> = (0..config.num_vectors())
        .map(|i| random_vector(seed * 100 + i as u64, config.vector_size()))
        .collect();
    let mut ps = ProverState::new(b"irs commit", b"coins");
    let witness = config.commit(&mut ps, &vectors);
    let evals = config.open(&mut ps, &[witness]);
    if config.deduplicate_in_domain() {
        assert!(evals.points.len() <= config.in_domain_samples());
        let mut unique: Vec<u64> = evals.points.iter().map(|p| p.to_u64()).collect();
        unique.sort_unstable();
        unique.dedup();
        assert_eq!(unique.len(), evals.points.len());
    } else {
        assert_eq!(evals.points.len(), config.in_domain_samples());
    }
    let cols = config.num_vectors() * config.interleaving_depth();
    assert_eq!(evals.matrix.len(), evals.points.len() * cols);
    if config.num_vectors() > 0 && config.mask_length() == 0 {
        let base = config.vector_size() / config.interleaving_depth();
        for (i, point) in evals.points.iter().enumerate() {
            let mut at = i * cols;
            for poly in &vectors {
                for j in 0..config.interleaving_depth() {
                    let coeffs = &poly[j * base..(j + 1) * base];
                    assert_eq!(univariate_evaluate(coeffs, *point), evals.matrix[at]);
                    at += 1;
                }
            }
        }
    }
    let mut vs = VerifierState::new(b"irs commit", ps.narg);
    let commitment = config.receive_commitment(&mut vs).unwrap();
    let received = config.verify(&mut vs, &[commitment]).unwrap();
    assert_eq!(received.points, evals.points);
    assert_eq!(received.matrix, evals.matrix);
    vs.check_eof().unwrap();
}

#[test]
fn irs_commit_test_field64_1() {
    let mut seed = 0;
    for num_vectors in 0..=3 {
        for (size, depth) in [(1usize, 1usize), (4, 2), (8, 4), (6, 3), (16, 1)] {
            for mask in [0usize, 1, 5] {
                for dedup in [false, true] {
                    test(
                        seed,
                        &config(num_vectors, size * depth, depth, mask, (seed % 11) as usize, dedup),
                    );
                    seed += 1;
                }
            }
        }
    }
}

#[test]
fn codewords_of_other_orders() {
    // The multiplicative group has subgroups of orders 3 and 5 too.
    for length in [3usize, 5, 12, 15, 48] {
        let c = Config { codeword_length: length, ..config(1, 2, 1, 0, 4, false) };
        test(length as u64, &c);
    }
}

#[test]
fn several_commitments_are_opened_side_by_side() {
    let c = config(2, 8, 2, 1, 5, false);
    let mut ps = ProverState::new(b"side by side", b"coins");
    let a = c.commit(&mut ps, &[random_vector(1, 8), random_vector(2, 8)]);
    let b = c.commit(&mut ps, &[random_vector(3, 8), random_vector(4, 8)]);
    let evals = c.open(&mut ps, &[a, b]);
    assert_eq!(evals.num_columns(), 8);
    let mut vs = VerifierState::new(b"side by side", ps.narg);
    let ca = c.receive_commitment(&mut vs).unwrap();
    let cb = c.receive_commitment(&mut vs).unwrap();
    let received = c.verify(&mut vs, &[ca, cb]).unwrap();
    assert_eq!(received.matrix, evals.matrix);
    vs.check_eof().unwrap();
}

#[test]
fn a_changed_row_is_rejected() {
    let c = config(1, 8, 2, 0, 3, false);
    let mut ps = ProverState::new(b"tamper", b"coins");
    let w = c.commit(&mut ps, &[random_vector(9, 8)]);
    c.open(&mut ps, &[w]);
    for at in [0usize, 4, 5] {
        let mut narg = ps.narg.clone();
        narg[at] ^= 1;
        let mut vs = VerifierState::new(b"tamper", narg);
        let commitment = c.receive_commitment(&mut vs).unwrap();
        assert!(c.verify(&mut vs, &[commitment]).is_err(), "word {at}");
    }
}

#[test]
fn commitment_with_samples_roundtrip() {
    let c = config(2, 8, 2, 1, 3, false);
    let vectors = vec![random_vector(21, 8), random_vector(22, 8)];
    let mut ps = ProverState::new(b"ood", b"coins");
    let (_, evals) = c.commit_with_ood(&mut ps, &vectors, 3);
    assert_eq!(evals.num_points(), 3);
    assert_eq!(evals.num_columns(), 2);
    for (i, row) in evals.rows().iter().enumerate() {
        for (j, v) in vectors.iter().enumerate() {
            assert_eq!(row[j], univariate_evaluate(v, evals.points[i]));
        }
    }
    let mut vs = VerifierState::new(b"ood", ps.narg);
    let (_, received) = c.receive_commitment_with_ood(&mut vs, 3).unwrap();
    assert_eq!(received.points, evals.points);
    assert_eq!(received.matrix, evals.matrix);
    vs.check_eof().unwrap();
}

#[test]
fn evaluations_by_row() {
    let e = Evaluations {
        points: vec![Field64::new(2), Field64::new(3)],
        matrix: (1..=6).map(Field64::new).collect(),
    };
    assert_eq!(e.num_points(), 2);
    assert_eq!(e.num_columns(), 3);
    assert_eq!(e.rows()[1], &[Field64::new(4), Field64::new(5), Field64::new(6)]);
    let weights = [Field64::new(1), Field64::new(10), Field64::new(100)];
    assert_eq!(e.values(&weights), vec![Field64::new(321), Field64::new(654)]);
    assert_eq!(dot(&weights, e.rows()[0]), Field64::new(321));
    let forms = e.evaluators(4);
    assert_eq!(forms.len(), 2);
    assert_eq!(
        forms[1].to_covector(),
        vec![Field64::new(1), Field64::new(3), Field64::new(9), Field64::new(27)]
    );
    assert!(matches!(forms[0], LinearForm::UnivariateEvaluation { size: 4, .. }));
    let lifted = e.lift(&Identity);
    assert_eq!(lifted.points, e.points);
    assert_eq!(lifted.matrix, e.matrix);
    let empty: Evaluations = Evaluations { points: vec![], matrix: vec![] };
    assert_eq!(empty.num_columns(), 0);
    assert!(empty.rows().is_empty());
}

#[test]
fn evaluations_are_lifted_element_by_element() {
    let e = Evaluations { points: vec![5u32, 7], matrix: vec![1u32, 2, 3, 4, 5, 6] };
    let lifted = e.lift(&SmallWords);
    assert_eq!(lifted.num_points(), e.num_points());
    assert_eq!(lifted.num_columns(), e.num_columns());
    assert_eq!(lifted.points, vec![Field64::new(5), Field64::new(7)]);
    assert_eq!(lifted.matrix, (1..=6).map(Field64::new).collect::<Vec<_>>());
    assert_eq!(e.points, vec![5, 7]);
    assert_eq!(lift(&SmallWords, &[3, 1]), vec![Field64::new(3), Field64::new(1)]);
}

#[test]
fn codes_need_a_supported_order() {
    let params = IrsParams {
        num_vectors: 1,
        vector_size: 16,
        interleaving_depth: 4,
        mode: IrsMode::ZeroKnowledge { mask_length: MaskLen::new(2).unwrap() },
    };
    let c = Config::try_new(params, 12, Some(12), 7).unwrap();
    assert_eq!(c.codeword_length(), 12);
    assert_eq!(c.in_domain_samples(), 7);
    assert_eq!(c.message_length(), 4);
    assert_eq!(c.masked_message_length(), 6);
    assert_eq!(c.num_messages(), 4);
    assert_eq!(c.num_cols(), 4);
    assert_eq!(c.size(), 48);
    assert_eq!(c.mode().mask_length(), 2);
    assert!(!c.deduplicate_in_domain());
    assert_eq!(
        Config::try_new(params, 1 << 40, None, 7),
        Err(CodewordLengthError { length: 1 << 40 })
    );
    assert_eq!(IrsMode::Standard.mask_length(), 0);
    assert!(MaskLen::new(0).is_none());
    assert_eq!(MaskLen::new(7).unwrap().get(), 7);
}

#[test]
fn points_are_powers_of_one_root() {
    let c = config(1, 8, 1, 0, 3, false);
    let points = c.evaluation_points(&[0, 1, 2, 3]);
    assert_eq!(points[0], Field64::one());
    assert_eq!(points[1].mul(points[1]), points[2]);
    assert_eq!(points[1].mul(points[2]), points[3]);
    assert_eq!(points[1].pow(c.codeword_length() as u64), Field64::one());
    assert_ne!(points[1].pow(c.codeword_length() as u64 / 2), Field64::one());
}
