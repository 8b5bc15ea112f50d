use zook::algebra::dot;
use zook::chunks::fold_chunks;
use zook::code_switch::{CodeSwitchMode, Config};
use zook::field::Field64;
use zook::irs_commit::{Config as IrsConfig, IrsMode, MaskLen, Witness};
use zook::proof_of_work;
use zook::transcript::{ProverState, Sponge, VerifierState};

fn random_vector(label: &[u8], seed: u64, n: usize) -> Vec<Field64> {
    let mut sponge = Sponge::new(label);
    sponge.absorb_word(seed);
    sponge.challenge_fields(n)
}

fn code(vector_size: usize, depth: usize, mask: usize, samples: usize) -> IrsConfig {
    let masked = vector_size / depth + mask;
    IrsConfig {
        num_vectors: 1,
        vector_size,
        codeword_length: (2 * masked).next_power_of_two(),
        interleaving_depth: depth,
        in_domain_samples: samples,
        deduplicate_in_domain: false,
        mode: if mask == 0 {
            IrsMode::Standard
        } else {
            IrsMode::ZeroKnowledge { mask_length: MaskLen::new(mask).unwrap() }
        },
    }
}

struct Shape {
    size: usize,
    src_mask: usize,
    zk: bool,
    ood: usize,
    fresh: usize,
    iota_s: usize,
    iota_t: usize,
    t_in: usize,
}

fn build(s: &Shape) -> Config {
    let fresh = if s.zk {
        s.fresh.max(s.ood).max(usize::from(s.src_mask == 0))
    } else {
        s.fresh
    };
    let target_mask = if s.zk { s.t_in + s.ood } else { 0 };
    let source_mask = if s.zk { s.src_mask } else { 0 };
    let source = code(s.size, s.iota_s, source_mask, 4);
    let target = code(s.size / s.iota_s, s.iota_t, target_mask, s.t_in);
    let mode = if s.zk {
        CodeSwitchMode::ZeroKnowledge { message_mask_length: source_mask + fresh }
    } else {
        CodeSwitchMode::Standard
    };
    Config::new(source, target, s.ood, mode, proof_of_work::Config::none())
}

fn shapes() -> Vec<Shape> {
    let mut out = Vec::new();
    let mut k = 0usize;
    for size in [4usize, 8, 32] {
        for iota_s in [1usize, 2, 4] {
            for iota_t in [1usize, 2] {
                if (size / iota_s) % iota_t != 0 {
                    continue;
                }
                for zk in [false, true] {
                    out.push(Shape {
                        size,
                        src_mask: k % 4,
                        zk,
                        ood: 1 + k % 5,
                        fresh: k % 6,
                        iota_s,
                        iota_t,
                        t_in: k % 7,
                    });
                    k += 1;
                }
            }
        }
    }
    out
}

fn folding(config: &Config, seed: u64) -> Vec<Field64> {
    let log_iota = config.source().interleaving_depth().trailing_zeros() as usize;
    random_vector(b"folding", seed, log_iota)
}

fn mask_message(config: &Config, witness: &Witness, folding: &[Field64], seed: u64) -> Vec<Field64> {
    if !config.is_zk() {
        return Vec::new();
    }
    let mut mask = fold_chunks(&witness.masks, config.source().mask_length(), folding);
    mask.extend(random_vector(
        b"fresh",
        seed,
        config.message_mask_length() - mask.len(),
    ));
    mask
}

fn run(seed: u64, config: &Config, true_sum: bool, tamper: bool) -> (Vec<Field64>, Vec<Field64>, Field64) {
    let f_full = random_vector(b"message", seed, config.source().vector_size());
    let mut covector = random_vector(b"covector", seed, config.source().message_length());
    covector.resize(config.covector_length(), Field64::zero());
    let mut verifier_covector = covector.clone();
    let mut ps = ProverState::new(b"code switch", b"coins");
    let witness = config.source().commit(&mut ps, &[f_full.clone()]);
    let gamma = folding(config, seed);
    let folded = fold_chunks(&f_full, config.source().message_length(), &gamma);
    let mask = mask_message(config, &witness, &gamma, seed);
    let mut h = folded.clone();
    h.extend(mask.iter().copied());
    let initial = if true_sum {
        dot(&h, &covector)
    } else {
        Field64::new(seed + 5)
    };
    let mut prover_sum = initial;
    let mut message = folded.clone();
    if tamper {
        message[0] = message[0].add(Field64::one());
    }
    let (out, _) = config.prove(
        &mut ps,
        message.clone(),
        witness,
        &mut covector,
        &mut prover_sum,
        &gamma,
        &mask,
    );
    assert_eq!(out.message, message);
    let mut vs = VerifierState::new(b"code switch", ps.narg);
    let commitment = config.source().receive_commitment(&mut vs).unwrap();
    let mut verifier_sum = initial;
    config
        .verify(&mut vs, &mut verifier_sum, &mut verifier_covector, &gamma, &commitment)
        .unwrap();
    vs.check_eof().unwrap();
    assert_eq!(covector, verifier_covector);
    assert_eq!(prover_sum, verifier_sum);
    (h, verifier_covector, verifier_sum)
}

#[test]
fn test_field64() {
    for (i, s) in shapes().iter().enumerate() {
        run(i as u64, &build(s), false, false);
    }
}

#[test]
fn test_ior_identity() {
    for (i, s) in shapes().iter().enumerate() {
        let (h, covector, sum) = run(100 + i as u64, &build(s), true, false);
        assert_eq!(dot(&h, &covector), sum);
    }
}

#[test]
fn test_tampered_ood() {
    for (i, s) in shapes().iter().enumerate() {
        if s.zk {
            continue;
        }
        let (h, covector, sum) = run(200 + i as u64, &build(s), true, true);
        // The sum diverges; a sumcheck after it would reject.
        assert_ne!(dot(&h, &covector), sum);
    }
}

#[test]
fn a_wrong_folding_is_rejected() {
    let config = build(&shapes()[4]);
    let mut vs = VerifierState::new(b"code switch", vec![]);
    let mut covector = vec![Field64::zero(); config.covector_length()];
    let mut sum = Field64::zero();
    let commitment = zook::irs_commit::Commitment {
        matrix_commitment: zook::matrix_commit::Commitment {
            root: zook::matrix_commit::Digest { a: 0, b: 0, c: 0, d: 0 },
        },
    };
    let gamma = vec![Field64::one(); 7];
    assert!(config
        .verify(&mut vs, &mut sum, &mut covector, &gamma, &commitment)
        .is_err());
}
