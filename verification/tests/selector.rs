use zook::algebra::{dot, eq_weights};
use zook::field::Field64;
use zook::linear_form::LinearForm;
use zook::proof_of_work::{self, HashId};
use zook::transcript::{ProverState, Sponge, VerifierState};
use zook::zook::batched::bundle::{
    build_bundle_claim, flatten_polys, BundleClaim, BundleDescriptor, WitnessBundle,
};
use zook::zook::batched::selector::{merge, sumcheck};

fn random_vector(seed: u64, stream: u64, n: usize) -> Vec<Field64> {
    let mut sponge = Sponge::new(b"selector tests");
    sponge.absorb_word(seed);
    sponge.absorb_word(stream);
    sponge.challenge_fields(n)
}

fn sum_of(terms: impl Iterator<Item = Field64>) -> Field64 {
    terms.fold(Field64::zero(), |a, b| a.add(b))
}

// ── Selector sumcheck ────────────────────────────────────────────────────────

fn dim(t: usize) -> usize {
    if t > 1 {
        t.next_power_of_two().trailing_zeros() as usize
    } else {
        0
    }
}

fn sumcheck_roundtrip(t: usize, l: usize, seed: u64) {
    let messages: Vec<Vec<Field64>> = (0..t).map(|b| random_vector(seed, b as u64, l)).collect();
    let covectors: Vec<Vec<Field64>> =
        (0..t).map(|b| random_vector(seed, 100 + b as u64, l)).collect();
    let ell = dim(t);
    let h = 1usize << ell;
    let beta = random_vector(seed, 200, ell);
    let weights = eq_weights(&beta);
    assert_eq!(weights.len(), h);
    let mut eq = Vec::new();
    let mut m = Vec::new();
    let mut v = Vec::new();
    let mut claimed = Field64::zero();
    for b in 0..h {
        for i in 0..l {
            eq.push(weights[b]);
            m.push(if b < t { messages[b][i] } else { Field64::zero() });
            v.push(if b < t { covectors[b][i] } else { Field64::zero() });
        }
        if b < t {
            claimed = claimed.add(weights[b].mul(dot(&messages[b], &covectors[b])));
        }
    }
    let cfg = sumcheck::Config::new(t, l, proof_of_work::Config::none());
    let mut ps = ProverState::new(b"selector sumcheck", b"coins");
    let proved = cfg.prove(&mut ps, claimed, &mut eq, &mut m, &mut v);
    let mut vs = VerifierState::new(b"selector sumcheck", ps.narg);
    let checked = cfg.verify(&mut vs, claimed).unwrap();
    vs.check_eof().unwrap();
    let one = Field64::one();
    let mut eta = one;
    for (d, b) in checked.delta.iter().zip(&beta) {
        eta = eta.mul(one.sub(*d).mul(one.sub(*b)).add(d.mul(*b)));
    }
    assert_eq!(proved.delta, checked.delta);
    assert_eq!(proved.final_scalar, checked.final_scalar);
    assert_eq!(proved.eta, eta);
    assert_eq!(m.len(), l);
    assert_eq!(v.len(), l);
    assert_eq!(proved.final_scalar, proved.eta.mul(dot(&m, &v)));
    if ell > 0 {
        let theta = eq_weights(&proved.delta);
        for i in 0..l {
            assert_eq!(m[i], sum_of((0..t).map(|b| theta[b].mul(messages[b][i]))));
            assert_eq!(v[i], sum_of((0..t).map(|b| theta[b].mul(covectors[b][i]))));
        }
    }
}

#[test]
fn single_block_is_noop() {
    sumcheck_roundtrip(1, 4, 0);
}

#[test]
fn sumcheck_two_blocks() {
    sumcheck_roundtrip(2, 4, 1);
    sumcheck_roundtrip(2, 8, 2);
}

#[test]
fn sumcheck_four_blocks() {
    sumcheck_roundtrip(4, 8, 3);
}

#[test]
fn sumcheck_padded_three_blocks() {
    sumcheck_roundtrip(3, 8, 4);
}

// ── Merge ────────────────────────────────────────────────────────────────────

struct Blocks {
    messages: Vec<Vec<Field64>>,
    covectors: Vec<Vec<Field64>>,
    sums: Vec<Field64>,
}

fn build_blocks(t: usize, l: usize, seed: u64) -> Blocks {
    let messages: Vec<Vec<Field64>> = (0..t).map(|b| random_vector(seed, b as u64, l)).collect();
    let covectors: Vec<Vec<Field64>> =
        (0..t).map(|b| random_vector(seed, 100 + b as u64, l)).collect();
    let sums = messages.iter().zip(&covectors).map(|(m, c)| dot(m, c)).collect();
    Blocks { messages, covectors, sums }
}

fn merge_roundtrip(t: usize, l: usize, seed: u64) {
    let b = build_blocks(t, l, seed);
    let cfg = merge::Config::new(t, l, proof_of_work::Config { bits: 1, hash_id: HashId::blake3() });
    let mut ps = ProverState::new(b"selector merge", b"coins");
    let w = cfg.prove(&mut ps, &b.messages, &b.covectors, &b.sums);
    let mut vs = VerifierState::new(b"selector merge", ps.narg);
    let opening = cfg.verify(&mut vs, &b.sums).unwrap();
    vs.check_eof().unwrap();
    assert_eq!(w.sum, opening.sum);
    assert_eq!(w.delta, opening.delta);
    assert_eq!(w.eta, opening.eta);
    assert_eq!(w.theta, opening.theta);
    assert_eq!(dot(&w.merged_message, &w.merged_covector), w.sum);
}

#[test]
fn single_block_is_noop_byte_identical_proof() {
    let b = build_blocks(1, 4, 0);
    let cfg = merge::Config::new(1, 4, proof_of_work::Config::none());
    let mut ps = ProverState::new(b"noop", b"coins");
    let w = cfg.prove(&mut ps, &b.messages, &b.covectors, &b.sums);
    assert!(ps.narg.is_empty());
    assert_eq!(w.merged_message, b.messages[0]);
    assert_eq!(w.merged_covector, b.covectors[0]);
    assert_eq!(w.sum, b.sums[0]);
    assert!(w.delta.is_empty());
    assert_eq!(w.eta, Field64::one());
    assert_eq!(w.theta, vec![Field64::one()]);
}

#[test]
fn merge_two_blocks() {
    merge_roundtrip(2, 4, 1);
    merge_roundtrip(2, 8, 2);
}

#[test]
fn merge_four_blocks() {
    merge_roundtrip(4, 8, 3);
}

#[test]
fn merge_padded_three_blocks() {
    merge_roundtrip(3, 8, 4);
}

#[test]
fn merged_message_is_theta_weighted_combination() {
    let b = build_blocks(3, 8, 5);
    let cfg = merge::Config::new(3, 8, proof_of_work::Config::none());
    assert_eq!(cfg.t(), 3);
    assert_eq!(cfg.message_length(), 8);
    assert_eq!(cfg.selector_dim(), 2);
    assert_eq!(cfg.padded_size(), 4);
    let mut ps = ProverState::new(b"theta", b"coins");
    let w = cfg.prove(&mut ps, &b.messages, &b.covectors, &b.sums);
    for i in 0..8 {
        let m = sum_of((0..3).map(|k| w.theta[k].mul(b.messages[k][i])));
        assert_eq!(w.merged_message[i], m);
        let v = sum_of((0..3).map(|k| w.theta[k].mul(b.covectors[k][i])));
        assert_eq!(w.merged_covector[i], w.eta.mul(v));
    }
}

#[test]
fn an_altered_sum_breaks_the_merged_claim() {
    let mut b = build_blocks(3, 4, 11);
    b.sums[1] = b.sums[1].add(Field64::one());
    let cfg = merge::Config::new(3, 4, proof_of_work::Config::none());
    let mut ps = ProverState::new(b"bad sum", b"coins");
    let w = cfg.prove(&mut ps, &b.messages, &b.covectors, &b.sums);
    assert_ne!(dot(&w.merged_message, &w.merged_covector), w.sum);
}

// ── Bundles ──────────────────────────────────────────────────────────────────

struct RandomBundle {
    polys: Vec<Vec<Field64>>,
    claims: Vec<Vec<(LinearForm, Field64)>>,
}

fn random_bundle(n: usize, d: usize, claims_per_poly: usize, seed: u64) -> RandomBundle {
    let polys: Vec<Vec<Field64>> = (0..n).map(|i| random_vector(seed, i as u64, 1 << d)).collect();
    let claims = polys
        .iter()
        .enumerate()
        .map(|(i, poly)| {
            (0..claims_per_poly)
                .map(|k| {
                    let point = random_vector(seed, 300 + (10 * i + k) as u64, d);
                    let form = LinearForm::MultilinearExtension { point };
                    let value = dot(poly, &form.to_covector());
                    (form, value)
                })
                .collect()
        })
        .collect();
    RandomBundle { polys, claims }
}

fn claims_view(rb: &RandomBundle) -> Vec<Vec<BundleClaim<'_>>> {
    rb.claims
        .iter()
        .map(|cl| cl.iter().map(|(form, value)| BundleClaim { form, value: *value }).collect())
        .collect()
}

fn bundle_view(rb: &RandomBundle) -> WitnessBundle<'_> {
    WitnessBundle {
        polys: rb.polys.iter().map(Vec::as_slice).collect(),
        per_poly_claims: claims_view(rb),
    }
}

#[test]
fn flatten_concatenates_high_bits_poly_index() {
    let f = Field64::new;
    let rb = RandomBundle {
        polys: vec![vec![f(1), f(2)], vec![f(3), f(4)]],
        claims: vec![vec![], vec![]],
    };
    assert_eq!(flatten_polys(&bundle_view(&rb)), vec![f(1), f(2), f(3), f(4)]);
}

#[test]
fn inner_product_identity_holds_distinct_forms_per_poly() {
    for (k, (n, d, claims)) in [(1, 3, 2), (2, 4, 1), (3, 5, 3), (4, 2, 2)].into_iter().enumerate() {
        let rb = random_bundle(n, d, claims, 42 + k as u64);
        let bundle = bundle_view(&rb);
        let flat = flatten_polys(&bundle);
        let challenge = random_vector(42, 999, 1)[0];
        let reduced = build_bundle_claim(&bundle, challenge);
        assert_eq!(reduced.covector.len(), bundle.num_polys() * bundle.poly_len());
        assert_eq!(dot(&flat, &reduced.covector), reduced.sum);
    }
}

#[test]
fn altered_value_breaks_the_identity() {
    let mut rb = random_bundle(3, 4, 2, 7);
    rb.claims[1][0].1 = rb.claims[1][0].1.add(Field64::one());
    let bundle = bundle_view(&rb);
    let flat = flatten_polys(&bundle);
    let reduced = build_bundle_claim(&bundle, random_vector(7, 999, 1)[0]);
    assert_ne!(dot(&flat, &reduced.covector), reduced.sum);
}

#[test]
fn no_claims_bundle_has_zero_sum_zero_covector() {
    let rb = random_bundle(2, 2, 0, 0);
    let reduced = build_bundle_claim(&bundle_view(&rb), Field64::new(7));
    assert_eq!(reduced.sum, Field64::zero());
    assert!(reduced.covector.iter().all(|x| x.is_zero()));
    assert!(reduced.claim_weights.is_empty());
}

#[test]
fn claim_weights_are_geometric_sequence() {
    let rb = random_bundle(2, 3, 3, 99);
    let bundle = bundle_view(&rb);
    let challenge = random_vector(99, 999, 1)[0];
    let reduced = build_bundle_claim(&bundle, challenge);
    assert_eq!(reduced.claim_weights.len(), bundle.total_claims());
    assert_eq!(reduced.claim_weights[0], Field64::one());
    for w in reduced.claim_weights.windows(2) {
        assert_eq!(w[1], w[0].mul(challenge));
    }
}

#[test]
fn descriptors_agree_with_their_bundles() {
    let rb = random_bundle(4, 3, 2, 5);
    let bundle = bundle_view(&rb);
    assert!(bundle.is_well_formed());
    let descriptor = BundleDescriptor {
        num_polys: 4,
        length: 8,
        per_poly_claims: claims_view(&rb),
    };
    descriptor.validate().unwrap();
    assert_eq!(descriptor.total_claims(), 8);
    assert_eq!(descriptor.log_num_polys(), 2);
    assert_eq!(descriptor.log_length(), 3);
    assert_eq!(descriptor.domain_bits(), 5);
    let challenge = Field64::new(1234);
    let reduced = build_bundle_claim(&bundle, challenge);
    assert_eq!(descriptor.initial_sum(challenge), reduced.sum);
    let point = random_vector(5, 777, 5);
    let covector = LinearForm::Covector { vector: reduced.covector };
    assert_eq!(descriptor.form_sum(challenge, &point), covector.mle_evaluate(&point));
}

#[test]
fn malformed_bundles_are_noticed() {
    let rb = random_bundle(2, 2, 1, 5);
    let mut bundle = bundle_view(&rb);
    bundle.per_poly_claims.pop();
    assert!(!bundle.is_well_formed());
    let mut bundle = bundle_view(&rb);
    bundle.polys[1] = &rb.polys[1][..2];
    assert!(!bundle.is_well_formed());
    let bad = |num_polys: usize, length: usize| BundleDescriptor {
        num_polys,
        length,
        per_poly_claims: claims_view(&rb),
    };
    bad(2, 4).validate().unwrap();
    assert!(bad(1, 4).validate().is_err());
    assert!(bad(2, 3).validate().is_err());
    assert!(bad(2, 8).validate().is_err());
    assert!(bad(0, 4).validate().is_err());
}
