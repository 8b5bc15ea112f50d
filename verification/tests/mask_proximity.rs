use zook::algebra::dot;
use zook::bits::Bits;
use zook::field::Field64;
use zook::irs_commit::{Config as IrsConfig, IrsMode, MaskLen};
use zook::mask_proximity::Config;
use zook::params::mask_proximity::{analytic_error_bits, combined_degree, solve};
use zook::params::spec::{PowBudget, SecuritySpec};
use zook::proof_of_work::{self, HashId};
use zook::transcript::{ProverState, Sponge, VerifierState};

fn random_vector(label: &[u8], seed: u64, n: usize) -> Vec<Field64> {
    let mut sponge = Sponge::new(label);
    sponge.absorb_word(seed);
    sponge.challenge_fields(n)
}

fn c_zk(size: usize, num_masks: usize, mask: usize) -> IrsConfig {
    IrsConfig {
        num_vectors: 2 * num_masks,
        vector_size: size,
        codeword_length: (2 * (size + mask)).next_power_of_two(),
        interleaving_depth: 1,
        in_domain_samples: 4,
        deduplicate_in_domain: false,
        mode: IrsMode::ZeroKnowledge { mask_length: MaskLen::new(mask).unwrap() },
    }
}

#[test]
fn masks_and_their_products_roundtrip() {
    for (size, num_masks) in [(4usize, 1usize), (4, 3), (8, 2)] {
        let pow = proof_of_work::Config { bits: 2, hash_id: HashId::blake3() };
        let config = Config::new(c_zk(size, num_masks, 4), num_masks, pow);
        let masks = random_vector(b"masks", size as u64, size * num_masks);
        let covectors = random_vector(b"covectors", size as u64, size * num_masks);
        let mut ps = ProverState::new(b"masks", b"coins");
        let witness = config.commit(&mut ps, &masks);
        config.prove(&mut ps, witness, &masks, &covectors);
        let mut vs = VerifierState::new(b"masks", ps.narg.clone());
        let commitment = config.receive_commitment(&mut vs).unwrap();
        let products = config.verify(&mut vs, &commitment, &covectors).unwrap();
        vs.check_eof().unwrap();
        for (i, p) in products.iter().enumerate() {
            let range = i * size..(i + 1) * size;
            assert_eq!(*p, dot(&masks[range.clone()], &covectors[range]));
        }
        // A word of the opening that is changed is noticed.
        let mut narg = ps.narg;
        let last = narg.len() - 1;
        narg[last] ^= 1;
        let mut vs = VerifierState::new(b"masks", narg);
        let commitment = config.receive_commitment(&mut vs).unwrap();
        assert!(config.verify(&mut vs, &commitment, &covectors).is_err());
    }
}

#[test]
fn mask_proximity_analytic_error_formula() {
    // log|F| - log(num_masks * (deg - 1)), with three masks of degree below twelve.
    let code = c_zk(8, 3, 4);
    assert_eq!(combined_degree(&code, 3), Some(33));
    let field_bits = 64.0_f64;
    let log_combined = 33.0_f64.log2();
    let got = analytic_error_bits(
        Bits::new((field_bits * 1e6) as u64),
        Some(Bits::new((log_combined * 1e6).round() as u64)),
    );
    assert!((got.micro as f64 / 1e6 - (field_bits - log_combined)).abs() < 1e-5);
}

#[test]
fn analytic_error_saturates_when_no_masks() {
    let code = c_zk(2, 1, 1);
    assert_eq!(combined_degree(&code, 0), None);
    assert_eq!(analytic_error_bits(Bits::whole(64), None), Bits::whole(64));
    assert_eq!(
        analytic_error_bits(Bits::whole(5), Some(Bits::whole(9))),
        Bits::whole(0)
    );
    let config = Config::new(code, 1, proof_of_work::Config::none());
    assert_eq!(
        config.analytic_bits(Bits::whole(64), Bits::whole(1)),
        Bits::whole(63)
    );
}

#[test]
fn solving_grinds_the_gap() {
    let spec = SecuritySpec::new(40).with_pow_budget(PowBudget::per_slot(10));
    let solved = solve(&spec, c_zk(4, 2, 1), 2, Bits::whole(34), 1).unwrap();
    assert_eq!(solved.config.num_masks, 2);
    assert_eq!(solved.config.c_zk_commit.num_vectors, 4);
    assert_eq!(solved.config.pow.bits, 6);
    assert_eq!(solved.analytic, Bits::whole(34));
    assert!(solve(&spec, c_zk(4, 2, 1), 2, Bits::whole(20), 1).is_err());
}
