use zook::algebra::dot;
use zook::basecase::BasecaseMode;
use zook::bits::Bits;
use zook::field::Field64;
use zook::irs_commit::{Config as IrsConfig, IrsMode, MaskLen};
use zook::linear_form::LinearForm;
use zook::params::batched::config::{
    irs_shape_matches, BatchedFloors, BatchedProtocolConfig, MergeSchedule, RoundJoin,
};
use zook::params::batched::fault::BatchedFault;
use zook::params::batched::place::place;
use zook::params::batched::placement::plan_merge;
use zook::params::batched::pre_merge::auto_pre_merge_plan;
use zook::params::batched::spec::{BatchedTuningSpec, BundleSpec};
use zook::params::build_round::{compute_l_zk, solve_t_ood, target_shape, MaskQuote, RoundQuote};
use zook::params::checks::{checked_shapes, placement_is_fit, quotes_are_fit};
use zook::params::config::{ProtocolConfig, RoundMode};
use zook::params::derive::{codes_chain, PlanQuotes};
use zook::params::error::{ChainSource, ChainTarget, DeriveError, Pow};
use zook::params::layout::{round_layout, RoundShape, RoundSlot};
use zook::params::spec::{
    DecodingRegime, FoldingFactor, Mode, PowBudget, RateSchedule, SecuritySpec, TuningSpec,
};
use zook::params::validate::{PlanFloors, RoundFloors};
use zook::proof_of_work::{self, HashId};
use zook::transcript::{ProverState, Sponge, VerificationError, VerifierState};
use zook::zook::batched::bundle::{BundleClaim, BundleDescriptor, WitnessBundle};
use zook::zook::batched::selector::merge;
use zook::zook::commit::CommittedState;
use zook::zook::final_claim::FinalClaim;

// ── Plans ────────────────────────────────────────────────────────────────────

const SAMPLES: usize = 3;
const MASK: usize = 4;

fn floor() -> Bits {
    Bits::whole(38)
}

fn spec_for(mode: Mode) -> SecuritySpec {
    SecuritySpec::new(40)
        .with_mode(mode)
        .with_pow_budget(PowBudget::per_slot(20))
}

fn code(num_vectors: usize, vector_size: usize, depth: usize, rate: u32, zk: bool) -> IrsConfig {
    let mask = if zk { MASK } else { 0 };
    let masked = vector_size / depth + mask;
    IrsConfig {
        num_vectors,
        vector_size,
        codeword_length: (masked << rate).next_power_of_two(),
        interleaving_depth: depth,
        in_domain_samples: SAMPLES,
        deduplicate_in_domain: false,
        mode: if zk {
            IrsMode::ZeroKnowledge { mask_length: MaskLen::new(mask).unwrap() }
        } else {
            IrsMode::Standard
        },
    }
}

fn round_quote(shape: &RoundShape, target_fold: u32, zk: bool) -> RoundQuote {
    let fold = shape.source_folding_factor;
    let source = code(1, shape.source_vector_size, 1 << fold, shape.source_log_inv_rate, zk);
    let target = code(
        1,
        shape.source_vector_size >> fold,
        1 << target_fold,
        shape.target_log_inv_rate,
        zk,
    );
    let masks = if zk {
        Some(MaskQuote {
            sumcheck_c_zk: code(2 * fold as usize, 4, 1, 1, true),
            cs_c_zk: code(2, compute_l_zk(&source, 1), 1, 1, true),
            sumcheck_masks_floor: floor(),
            cs_mask_floor: floor(),
        })
    } else {
        None
    };
    RoundQuote {
        source,
        target,
        t_ood: 1,
        masks,
        sumcheck_floor: floor(),
        code_switch_floor: floor(),
    }
}

fn plan_quotes(spec: &SecuritySpec, tuning: &TuningSpec) -> PlanQuotes {
    let zk = spec.mode == Mode::ZeroKnowledge;
    let (rounds, size, rate) = match round_layout(tuning) {
        Ok(layout) => {
            let n = layout.shapes.len();
            let rounds = layout
                .shapes
                .iter()
                .enumerate()
                // The last target is the base case's code.
                .map(|(i, s)| {
                    round_quote(s, if i + 1 < n { s.target_folding_factor } else { 0 }, zk)
                })
                .collect();
            (rounds, layout.basecase_vector_size, layout.basecase_log_inv_rate)
        }
        Err(_) => (vec![], 1, 1),
    };
    PlanQuotes {
        rounds,
        commit: code(1, size, 1, rate, zk),
        sumcheck_floor: floor(),
        gamma_floor: floor(),
    }
}

fn floors_of(plan: &ProtocolConfig) -> PlanFloors {
    PlanFloors {
        rounds: plan
            .rounds()
            .iter()
            .map(|_| RoundFloors {
                sumcheck: floor(),
                code_switch: floor(),
                sumcheck_masks: floor(),
                cs_mask: floor(),
            })
            .collect(),
        basecase_sumcheck: floor(),
        basecase_gamma: floor(),
    }
}

fn tuning(log_size: u32) -> TuningSpec {
    TuningSpec {
        vector_size: 1 << log_size,
        starting_log_inv_rate: 1,
        folding_factor: FoldingFactor::Constant(2),
        rate_schedule: RateSchedule::Stepping,
    }
}

fn derived_for(spec: SecuritySpec, log_size: u32) -> Result<ProtocolConfig, DeriveError> {
    let t = tuning(log_size);
    let quotes = plan_quotes(&spec, &t);
    assert!(codes_chain(&quotes));
    assert!(quotes_are_fit(&spec, &t, &quotes));
    ProtocolConfig::derive(spec, t, &quotes)
}

fn derived(mode: Mode, log_size: u32) -> ProtocolConfig {
    derived_for(spec_for(mode), log_size).unwrap()
}

fn batched_for(
    spec: SecuritySpec,
    bundles: Vec<BundleSpec>,
    folding_factor: FoldingFactor,
    selector_floor: Bits,
) -> Result<(BatchedProtocolConfig, BatchedFloors), DeriveError> {
    let zk = spec.mode == Mode::ZeroKnowledge;
    let count = bundles.len();
    let tuning = BatchedTuningSpec {
        bundles,
        starting_log_inv_rate: 1,
        folding_factor,
        rate_schedule: RateSchedule::Stepping,
    };
    let plan = plan_merge(&tuning)?;
    let inner_tuning = TuningSpec {
        vector_size: plan.vector_size,
        starting_log_inv_rate: tuning.starting_log_inv_rate,
        folding_factor: tuning.folding_factor,
        rate_schedule: tuning.rate_schedule,
    };
    let inner = ProtocolConfig::derive(spec, inner_tuning, &plan_quotes(&spec, &inner_tuning))?;
    let shared = tuning.folding_factor.at_round(0) as u32;
    let mut quotes = Vec::new();
    for (b, folds) in plan.folds.iter().enumerate() {
        let shapes = checked_shapes(plan.num_polys, 1, shared, b, &tuning.bundles[b], folds).unwrap();
        let rounds = shapes
            .iter()
            .map(|shape| round_quote(shape, shape.target_folding_factor, zk))
            .collect();
        quotes.push(rounds);
    }
    assert!(placement_is_fit(&spec, &tuning, &plan, &quotes, &inner));
    let placement = place(&spec, &tuning, &plan, &quotes, selector_floor, &inner)?;
    let floors = BatchedFloors {
        inner: floors_of(&inner),
        selectors: placement.schedule.joins.iter().map(|_| selector_floor).collect(),
        claims: vec![Bits::whole(50); count],
    };
    let config = BatchedProtocolConfig::try_new(
        inner,
        placement.schedule,
        placement.bundle_configs,
        tuning,
        &floors,
    )?;
    Ok((config, floors))
}

fn shapes(list: &[(usize, u32)]) -> Vec<BundleSpec> {
    list.iter()
        .map(|(num_polys, log)| BundleSpec { length: 1 << log, num_polys: *num_polys })
        .collect()
}

fn batched(mode: Mode, list: &[(usize, u32)]) -> (BatchedProtocolConfig, BatchedFloors) {
    batched_for(spec_for(mode), shapes(list), FoldingFactor::Constant(2), floor()).unwrap()
}

fn rejected(bundles: Vec<BundleSpec>) -> BatchedFault {
    let spec = spec_for(Mode::ZeroKnowledge);
    match batched_for(spec, bundles, FoldingFactor::Constant(2), floor()) {
        Err(DeriveError::BatchedUnsupported { reason }) => reason,
        other => panic!("expected BatchedUnsupported, got: {other:?}"),
    }
}

// ── Derivation ───────────────────────────────────────────────────────────────

#[test]
fn derive_standard_with_no_rounds_uses_basecase_only() {
    let plan = derived(Mode::Standard, 3);
    assert!(plan.rounds().is_empty());
    assert_eq!(plan.basecase().commit.vector_size(), 8);
}

#[test]
fn derive_zk_with_no_rounds_uses_zk_basecase_only() {
    let plan = derived(Mode::ZeroKnowledge, 3);
    assert!(plan.rounds().is_empty());
    assert!(matches!(plan.basecase().mode, BasecaseMode::ZeroKnowledge));
}

#[test]
fn t_ood_pinned_to_one_in_unique_zk() {
    assert_eq!(solve_t_ood(DecodingRegime::Unique, &[], Bits::whole(40), 0), Ok(1));
    let spec = spec_for(Mode::ZeroKnowledge).with_decoding_regime(DecodingRegime::Unique);
    let plan = derived_for(spec, 8).unwrap();
    assert!(!plan.rounds().is_empty());
    for r in plan.rounds() {
        match r.mode() {
            RoundMode::ZeroKnowledge { t_ood, .. } => assert_eq!(*t_ood, 1),
            RoundMode::Standard => panic!("expected ZK round"),
        }
    }
}

#[test]
fn fewest_samples_that_reach_the_target() {
    let mut bits: Vec<Option<Bits>> = (1..=32).map(|t| Some(Bits::whole(10 * t))).collect();
    bits[0] = None;
    assert_eq!(solve_t_ood(DecodingRegime::Johnson, &bits, Bits::whole(35), 5), Ok(4));
    assert_eq!(solve_t_ood(DecodingRegime::Capacity, &bits, Bits::whole(5), 5), Ok(2));
    assert_eq!(
        solve_t_ood(DecodingRegime::Johnson, &bits, Bits::whole(321), 5),
        Err(DeriveError::FixedPointDidNotConverge { round_index: 5 })
    );
}

#[test]
fn codes_that_do_not_chain_are_noticed() {
    let spec = spec_for(Mode::ZeroKnowledge);
    let mut quotes = plan_quotes(&spec, &tuning(8));
    assert!(codes_chain(&quotes));
    quotes.rounds[1].source.codeword_length *= 2;
    assert!(!codes_chain(&quotes));
    let mut quotes = plan_quotes(&spec, &tuning(8));
    quotes.commit.mode = IrsMode::Standard;
    assert!(!codes_chain(&quotes));
}

#[test]
fn codes_that_do_not_fit_are_noticed() {
    let spec = spec_for(Mode::ZeroKnowledge);
    let t = tuning(8);
    let mut quotes = plan_quotes(&spec, &t);
    assert!(quotes_are_fit(&spec, &t, &quotes));
    // One code more than there are rounds.
    let extra = quotes.rounds[0];
    quotes.rounds.push(extra);
    assert!(!quotes_are_fit(&spec, &t, &quotes));
    quotes.rounds.pop();
    // A source of another size than the round's.
    quotes.rounds[0].source.vector_size *= 2;
    assert!(!quotes_are_fit(&spec, &t, &quotes));
    // A base case that is interleaved.
    let mut quotes = plan_quotes(&spec, &t);
    quotes.commit.interleaving_depth = 2;
    assert!(!quotes_are_fit(&spec, &t, &quotes));
    // Masks in standard mode, and none in zero-knowledge mode.
    let standard = spec_for(Mode::Standard);
    assert!(!quotes_are_fit(&standard, &t, &plan_quotes(&spec, &t)));
    assert!(!quotes_are_fit(&spec, &t, &plan_quotes(&standard, &t)));
    assert!(quotes_are_fit(&standard, &t, &plan_quotes(&standard, &t)));
    // Without a layout there is nothing to fit.
    let none = TuningSpec { vector_size: 0, ..t };
    assert!(round_layout(&none).is_err());
    assert!(quotes_are_fit(&spec, &none, &quotes));
}

#[test]
fn bundles_without_codes_are_noticed() {
    let spec = spec_for(Mode::Standard);
    let tuning = BatchedTuningSpec {
        bundles: shapes(&[(1, 8), (1, 6)]),
        starting_log_inv_rate: 1,
        folding_factor: FoldingFactor::Constant(2),
        rate_schedule: RateSchedule::Stepping,
    };
    let plan = plan_merge(&tuning).unwrap();
    let inner_tuning = TuningSpec {
        vector_size: plan.vector_size,
        starting_log_inv_rate: 1,
        folding_factor: tuning.folding_factor,
        rate_schedule: tuning.rate_schedule,
    };
    let inner =
        ProtocolConfig::derive(spec, inner_tuning, &plan_quotes(&spec, &inner_tuning)).unwrap();
    assert!(!inner.rounds().is_empty());
    assert!(!placement_is_fit(&spec, &tuning, &plan, &vec![], &inner));
    assert!(!placement_is_fit(&spec, &tuning, &plan, &vec![vec![], vec![]], &inner));
}

#[test]
fn shapes_of_a_bundles_own_rounds() {
    let bundle = BundleSpec { length: 1 << 7, num_polys: 2 };
    let shapes = checked_shapes(2, 3, 4, 5, &bundle, &vec![2, 1]).unwrap();
    assert_eq!(shapes.len(), 2);
    assert_eq!(shapes[0].round_slot, RoundSlot::PreMerge(5));
    assert_eq!(shapes[0].source_vector_size, 1 << 8);
    assert_eq!(shapes[0].source_folding_factor, 2);
    assert_eq!(shapes[0].target_folding_factor, 1);
    assert_eq!(shapes[1].source_vector_size, 1 << 6);
    assert_eq!(shapes[1].source_folding_factor, 1);
    assert_eq!(shapes[1].target_folding_factor, 4);
    assert_eq!(shapes[1].source_log_inv_rate, 3);
    assert_eq!(shapes[1].target_log_inv_rate, 3);
    assert!(checked_shapes(usize::MAX, 3, 4, 5, &bundle, &vec![2]).is_none());
    assert!(checked_shapes(2, 3, 4, 5, &bundle, &vec![60, 4]).is_none());
}

#[test]
fn target_shape_of_a_round() {
    let layout = round_layout(&tuning(8)).unwrap();
    assert_eq!(target_shape(&layout.shapes[0]), (6, 2));
}

#[test]
fn derive_plans_basecase() {
    let plan = derived(Mode::ZeroKnowledge, 8);
    assert!(matches!(plan.basecase().mode, BasecaseMode::ZeroKnowledge));
    assert_eq!(plan.basecase().commit.interleaving_depth(), 1);
    assert_eq!(plan.basecase().sumcheck.final_size(), 1);
}

#[test]
fn zk_rounds_have_masks_for_every_fold() {
    let plan = derived(Mode::ZeroKnowledge, 8);
    for r in plan.rounds() {
        let masks = r.mask_oracle().expect("a zero-knowledge round has masks");
        assert_eq!(masks.sumcheck_masks().config.num_masks, 2);
        assert_eq!(masks.cs_mask().config.num_masks, 1);
        let source = r.code_switch().config.source();
        assert!(masks.l_zk() >= source.mask_length() + masks.t_ood());
        assert!(masks.l_zk().is_power_of_two());
        assert!(r.mode().is_zk());
    }
    for r in derived(Mode::Standard, 8).rounds() {
        assert!(r.mask_oracle().is_none());
    }
}

#[test]
fn check_pow_bits_passes_on_derived_plan() {
    let plan = derived(Mode::ZeroKnowledge, 8);
    assert!(plan.check_pow_bits(&floors_of(&plan)));
}

#[test]
fn check_pow_bits_detects_over_budget_slot() {
    let mut plan = derived(Mode::ZeroKnowledge, 8);
    plan.basecase.config.pow = proof_of_work::Config { bits: 50, hash_id: HashId::blake3() };
    assert!(!plan.check_pow_bits(&floors_of(&plan)));
}

#[test]
fn validate_round_chaining_detects_adjacent_round_mismatch() {
    let mut plan = derived(Mode::ZeroKnowledge, 8);
    assert!(plan.rounds().len() >= 2);
    assert!(plan.check_all_invariants(&floors_of(&plan)));
    plan.rounds[0].code_switch.config.target.vector_size += 1;
    assert!(matches!(
        plan.validate_round_chaining(),
        Err(DeriveError::RoundChainBroken {
            from: ChainSource::Round(0),
            to: ChainTarget::NextRound(1),
            ..
        })
    ));
    assert!(!plan.check_all_invariants(&floors_of(&plan)));
}

#[test]
fn validate_round_chaining_detects_basecase_mismatch() {
    let mut plan = derived(Mode::ZeroKnowledge, 8);
    let n = plan.rounds().len();
    assert!(n >= 2);
    assert!(plan.check_all_invariants(&floors_of(&plan)));
    plan.rounds.truncate(n - 1);
    assert!(matches!(
        plan.validate_round_chaining(),
        Err(DeriveError::RoundChainBroken { to: ChainTarget::Basecase, .. })
    ));
    assert!(!plan.check_all_invariants(&floors_of(&plan)));
}

#[test]
fn validate_security_target_met_passes_on_fresh_plan() {
    let plan = derived(Mode::ZeroKnowledge, 8);
    plan.validate_security_target_met(&floors_of(&plan)).unwrap();
    for slot in plan.pow_slots(&floors_of(&plan)) {
        assert!(slot.recompute.micro + 1_000_000 * u64::from(slot.pow.bits) >= 40_000_000);
    }
}

#[test]
fn validate_security_target_met_catches_recorded_analytic_drift() {
    let mut plan = derived(Mode::ZeroKnowledge, 8);
    let recorded = plan.rounds()[0].sumcheck().analytic();
    plan.rounds[0].sumcheck.analytic = Bits::new(recorded.micro + 10_000_000);
    assert!(matches!(
        plan.validate_security_target_met(&floors_of(&plan)),
        Err(DeriveError::AnalyticDrift { pow: Pow::RoundSumcheck { index: 0 }, .. })
    ));
}

#[test]
fn validate_security_target_met_catches_missing_work() {
    let mut plan = derived(Mode::Standard, 8);
    plan.rounds[1].code_switch.config.pow = proof_of_work::Config::none();
    assert!(matches!(
        plan.validate_security_target_met(&floors_of(&plan)),
        Err(DeriveError::SecurityTargetNotMet { pow: Pow::RoundCodeSwitch { index: 1 }, .. })
    ));
}

#[test]
fn derive_reports_pow_ungrindable() {
    let spec = SecuritySpec::new(200).with_pow_budget(PowBudget::per_slot(60));
    assert!(matches!(derived_for(spec, 8), Err(DeriveError::PowUngrindable { .. })));
}

#[test]
fn derive_reports_pow_budget_exceeded() {
    let spec = SecuritySpec::new(45)
        .with_mode(Mode::ZeroKnowledge)
        .with_pow_budget(PowBudget::per_slot(5));
    assert!(matches!(derived_for(spec, 8), Err(DeriveError::PowBudgetExceeded { .. })));
}

#[test]
fn derive_reports_bad_layouts() {
    let spec = spec_for(Mode::Standard);
    let t = TuningSpec { vector_size: 100, ..tuning(8) };
    assert!(matches!(
        ProtocolConfig::derive(spec, t, &plan_quotes(&spec, &t)),
        Err(DeriveError::Layout(_))
    ));
}

#[test]
fn analytic_bits_is_the_lowest_floor() {
    let plan = derived(Mode::ZeroKnowledge, 8);
    let mut floors = floors_of(&plan);
    assert_eq!(plan.analytic_bits(&floors), floor());
    floors.rounds[1].code_switch = Bits::whole(30);
    assert_eq!(plan.analytic_bits(&floors), Bits::whole(30));
    floors.basecase_gamma = Bits::whole(20);
    assert_eq!(plan.analytic_bits(&floors), Bits::whole(20));
    let standard = derived(Mode::Standard, 8);
    let mut floors = floors_of(&standard);
    floors.rounds[1].cs_mask = Bits::whole(30);
    floors.basecase_gamma = Bits::whole(20);
    assert_eq!(standard.analytic_bits(&floors), floor());
}

#[test]
fn analytic_bits_finite_and_positive_standard() {
    let plan = derived(Mode::Standard, 8);
    let mut floors = floors_of(&plan);
    floors.rounds[0].sumcheck = Bits::whole(33);
    let bits = plan.analytic_bits(&floors);
    let min_round = plan
        .rounds()
        .iter()
        .zip(&floors.rounds)
        .map(|(r, f)| r.analytic_bits(f).micro)
        .min()
        .unwrap();
    let basecase = plan
        .basecase()
        .analytic_bits(floors.basecase_sumcheck, floors.basecase_gamma);
    assert!(bits.micro > 0);
    assert_eq!(bits.micro, min_round.min(basecase.micro));
}

#[test]
fn analytic_bits_includes_mask_oracle_in_zk() {
    let mut plan = derived(Mode::ZeroKnowledge, 8);
    if let RoundMode::ZeroKnowledge { mask_oracle, .. } = &mut plan.rounds[1].mode {
        mask_oracle.cs_mask.analytic = Bits::whole(31);
    }
    let floors = floors_of(&plan);
    let lowest_mask = plan
        .rounds()
        .iter()
        .map(|r| r.mask_oracle().unwrap().analytic_bits().micro)
        .min()
        .unwrap();
    assert_eq!(lowest_mask, 31_000_000);
    assert_eq!(plan.analytic_bits(&floors), Bits::whole(31));
}

fn regime_plan(regime: DecodingRegime, mode: Mode) {
    let plan = derived_for(spec_for(mode).with_decoding_regime(regime), 8).unwrap();
    assert!(!plan.rounds().is_empty());
    assert_eq!(plan.security().decoding_regime, regime);
    for r in plan.rounds() {
        assert_eq!(r.mask_oracle().is_some(), mode == Mode::ZeroKnowledge);
        assert!(r.code_switch().config().out_domain_samples() >= 1);
    }
}

#[test]
fn derive_multi_round_unique_decoding_succeeds() {
    regime_plan(DecodingRegime::Unique, Mode::Standard);
}

#[test]
fn derive_multi_round_unique_decoding_zk_succeeds() {
    regime_plan(DecodingRegime::Unique, Mode::ZeroKnowledge);
}

#[test]
fn derive_multi_round_capacity_decoding_succeeds() {
    regime_plan(DecodingRegime::Capacity, Mode::Standard);
}

#[test]
fn derive_multi_round_capacity_decoding_zk_succeeds() {
    regime_plan(DecodingRegime::Capacity, Mode::ZeroKnowledge);
}

#[test]
fn t_ood_nonzero_in_johnson_zk() {
    let spec = spec_for(Mode::ZeroKnowledge).with_decoding_regime(DecodingRegime::Johnson);
    for r in derived_for(spec, 8).unwrap().rounds() {
        match r.mode() {
            RoundMode::ZeroKnowledge { t_ood, .. } => assert!(*t_ood >= 1),
            RoundMode::Standard => panic!("expected ZK round"),
        }
    }
}

#[test]
fn every_tuning_gives_a_plan() {
    for mode in [Mode::Standard, Mode::ZeroKnowledge] {
        for log_size in 4..=8 {
            for starting_log_inv_rate in 1..=3 {
                for folding_factor in [
                    FoldingFactor::Constant(1),
                    FoldingFactor::Constant(2),
                    FoldingFactor::Constant(3),
                    FoldingFactor::ConstantFromSecondRound { initial: 3, rest: 1 },
                    FoldingFactor::ConstantFromSecondRound { initial: 1, rest: 2 },
                ] {
                    let t = TuningSpec {
                        vector_size: 1 << log_size,
                        starting_log_inv_rate,
                        folding_factor,
                        rate_schedule: RateSchedule::Stepping,
                    };
                    let spec = spec_for(mode);
                    let plan = ProtocolConfig::derive(spec, t, &plan_quotes(&spec, &t)).unwrap();
                    assert!(plan.check_all_invariants(&floors_of(&plan)));
                    assert_eq!(plan.basecase().commit.interleaving_depth(), 1);
                    for r in plan.rounds() {
                        assert_eq!(r.mask_oracle().is_some(), mode == Mode::ZeroKnowledge);
                    }
                }
            }
        }
    }
}

// ── Single witness ───────────────────────────────────────────────────────────

fn random_vector(seed: u64, stream: u64, n: usize) -> Vec<Field64> {
    let mut sponge = Sponge::new(b"protocol tests");
    sponge.absorb_word(seed);
    sponge.absorb_word(stream);
    sponge.challenge_fields(n)
}

struct Run {
    narg: Vec<u64>,
    forms: Vec<LinearForm>,
    values: Vec<Field64>,
}

fn build_and_prove(config: &ProtocolConfig, num_claims: usize, seed: u64, label: &[u8]) -> Run {
    let size = config.tuning().vector_size;
    let witness = random_vector(seed, 0, size);
    let mu = size.trailing_zeros() as usize;
    let forms: Vec<LinearForm> = (0..num_claims)
        .map(|i| LinearForm::MultilinearExtension {
            point: random_vector(seed, 1 + i as u64, mu),
        })
        .collect();
    let values: Vec<Field64> = forms.iter().map(|f| dot(&witness, &f.to_covector())).collect();
    let refs: Vec<&LinearForm> = forms.iter().collect();
    let mut ps = ProverState::new(label, b"coins");
    let committed = config.commit(&mut ps, &witness);
    config.prove(&mut ps, committed, &refs, &values).unwrap();
    Run { narg: ps.narg, forms, values }
}

fn verify(
    config: &ProtocolConfig,
    label: &[u8],
    narg: Vec<u64>,
    forms: &[LinearForm],
    values: &[Field64],
) -> Result<FinalClaim, VerificationError> {
    let refs: Vec<&LinearForm> = forms.iter().collect();
    let mut vs = VerifierState::new(label, narg);
    let commitment = config.receive_commitment(&mut vs)?;
    let claim = config.verify(&mut vs, commitment, &refs, values)?;
    claim.verify(&refs)?;
    vs.check_eof()?;
    Ok(claim)
}

fn full_roundtrip(config: &ProtocolConfig, num_claims: usize, seed: u64, label: &[u8]) {
    let run = build_and_prove(config, num_claims, seed, label);
    verify(config, label, run.narg, &run.forms, &run.values).unwrap();
}

#[test]
fn roundtrip_zk_with_rounds() {
    let config = derived(Mode::ZeroKnowledge, 8);
    assert!(config.has_rounds());
    full_roundtrip(&config, 1, 0, b"roundtrip_zk_with_rounds");
}

#[test]
fn roundtrip_standard_with_rounds() {
    let config = derived(Mode::Standard, 8);
    assert!(config.has_rounds());
    full_roundtrip(&config, 1, 1, b"roundtrip_standard_with_rounds");
}

#[test]
fn roundtrip_zk_basecase_only() {
    let config = derived(Mode::ZeroKnowledge, 3);
    assert!(!config.has_rounds());
    full_roundtrip(&config, 1, 2, b"roundtrip_zk_basecase_only");
}

#[test]
fn roundtrip_standard_basecase_only() {
    let config = derived(Mode::Standard, 3);
    assert!(config.rounds().is_empty());
    full_roundtrip(&config, 1, 3, b"roundtrip_standard_basecase_only");
}

#[test]
fn roundtrip_multiple_claims_zk() {
    full_roundtrip(&derived(Mode::ZeroKnowledge, 8), 4, 4, b"roundtrip_multiple_claims_zk");
}

#[test]
fn roundtrip_multiple_claims_standard() {
    full_roundtrip(&derived(Mode::Standard, 8), 4, 5, b"roundtrip_multiple_claims_standard");
}

#[test]
fn forms_of_all_kinds() {
    let config = derived(Mode::ZeroKnowledge, 8);
    let witness = random_vector(7, 0, 256);
    let forms = vec![
        LinearForm::Covector { vector: random_vector(7, 1, 256) },
        LinearForm::UnivariateEvaluation { x: Field64::new(17), size: 256 },
        LinearForm::MultilinearExtension { point: random_vector(7, 2, 8) },
    ];
    let values: Vec<Field64> = forms.iter().map(|f| dot(&witness, &f.to_covector())).collect();
    let refs: Vec<&LinearForm> = forms.iter().collect();
    let mut ps = ProverState::new(b"kinds", b"coins");
    let committed = config.commit(&mut ps, &witness);
    config.prove(&mut ps, committed, &refs, &values).unwrap();
    verify(&config, b"kinds", ps.narg, &forms, &values).unwrap();
}

#[test]
fn verify_rejects_wrong_evaluation_zk() {
    let config = derived(Mode::ZeroKnowledge, 8);
    let label = b"verify_rejects_wrong_evaluation_zk";
    let run = build_and_prove(&config, 1, 10, label);
    let wrong = vec![run.values[0].add(Field64::one())];
    assert!(verify(&config, label, run.narg, &run.forms, &wrong).is_err());
}

#[test]
fn verify_rejects_wrong_evaluation_standard() {
    let config = derived(Mode::Standard, 8);
    let label = b"verify_rejects_wrong_evaluation_standard";
    let run = build_and_prove(&config, 1, 11, label);
    let wrong = vec![run.values[0].add(Field64::one())];
    assert!(verify(&config, label, run.narg, &run.forms, &wrong).is_err());
}

#[test]
fn verify_rejects_wrong_evaluation_multiple_claims() {
    let config = derived(Mode::ZeroKnowledge, 8);
    let label = b"verify_rejects_wrong_evaluation_multiple_claims";
    let mut run = build_and_prove(&config, 3, 12, label);
    run.values[1] = run.values[1].add(Field64::new(42));
    assert!(verify(&config, label, run.narg, &run.forms, &run.values).is_err());
}

#[test]
fn final_claim_rejects_wrong_form() {
    let config = derived(Mode::ZeroKnowledge, 8);
    let label = b"final_claim_rejects_wrong_form";
    let run = build_and_prove(&config, 1, 20, label);
    let claim = verify(&config, label, run.narg, &run.forms, &run.values).unwrap();
    let wrong = LinearForm::MultilinearExtension { point: random_vector(999, 0, 8) };
    assert!(claim.verify(&[&wrong]).is_err());
}

#[test]
fn verify_rejects_tampered_proof() {
    let config = derived(Mode::ZeroKnowledge, 8);
    let label = b"verify_rejects_tampered_proof";
    let run = build_and_prove(&config, 1, 30, label);
    let mid = run.narg.len() / 2;
    // The last word is the nonce of the last work; another nonce that does the work, and
    // the challenge that follows from it, are as good.
    for at in [0, mid, run.narg.len() - 2] {
        let mut narg = run.narg.clone();
        narg[at] ^= 0xff;
        assert!(verify(&config, label, narg, &run.forms, &run.values).is_err());
    }
    let mut longer = run.narg.clone();
    longer.push(0);
    assert!(verify(&config, label, longer, &run.forms, &run.values).is_err());
}

fn commit_roundtrip(config: &ProtocolConfig, seed: u64) -> CommittedState {
    let witness = random_vector(seed, 0, config.tuning().vector_size);
    let mut ps = ProverState::new(b"commit", b"coins");
    let committed = config.commit(&mut ps, &witness);
    let mut vs = VerifierState::new(b"commit", ps.narg);
    config.receive_commitment(&mut vs).unwrap();
    vs.check_eof().unwrap();
    committed.state
}

#[test]
fn commit_receive_roundtrip_with_rounds_zk() {
    let config = derived(Mode::ZeroKnowledge, 8);
    assert!(!config.rounds().is_empty());
    assert!(matches!(commit_roundtrip(&config, 0), CommittedState::Round { .. }));
}

#[test]
fn commit_receive_roundtrip_with_rounds_standard() {
    let config = derived(Mode::Standard, 8);
    assert!(matches!(commit_roundtrip(&config, 1), CommittedState::Round { .. }));
}

#[test]
fn commit_receive_roundtrip_basecase_only() {
    let config = derived(Mode::ZeroKnowledge, 3);
    assert!(config.rounds().is_empty());
    assert!(matches!(commit_roundtrip(&config, 2), CommittedState::Basecase { .. }));
}

// ── Batched derivation ───────────────────────────────────────────────────────

#[test]
fn derive_single_bundle_single_poly() {
    let (cfg, _) = batched(Mode::ZeroKnowledge, &[(1, 8)]);
    assert_eq!(cfg.bundle_configs().len(), 1);
    assert_eq!(cfg.schedule().joins.len(), 1);
    let join = &cfg.schedule().joins[0];
    assert_eq!(join.round_index, Some(0));
    assert_eq!(join.t, 1);
    assert_eq!(join.selector.selector_dim(), 0);
    assert!(cfg.bundle_configs()[0].pre_merge_rounds.is_empty());
}

#[test]
fn derive_committed_together_multi_poly_flattens_to_round_zero() {
    let (cfg, _) = batched(Mode::ZeroKnowledge, &[(4, 8)]);
    assert_eq!(cfg.bundle_configs().len(), 1);
    assert_eq!(cfg.inner().tuning().vector_size, 4 * (1 << 8));
    assert!(cfg.bundle_configs()[0].pre_merge_rounds.is_empty());
}

#[test]
fn derive_same_size_bundles_merge_at_round_zero() {
    let (cfg, _) = batched(Mode::ZeroKnowledge, &[(1, 8), (1, 8), (1, 8)]);
    assert_eq!(cfg.bundle_configs().len(), 3);
    assert_eq!(cfg.schedule().joins.len(), 1);
    let join = &cfg.schedule().joins[0];
    assert_eq!(join.round_index, Some(0));
    assert_eq!(join.t, 3);
    assert_eq!(join.bundle_indices, vec![0, 1, 2]);
    assert_eq!(join.selector.selector_dim(), 2);
    let first = &cfg.bundle_configs()[0].irs_config;
    for b in cfg.bundle_configs() {
        assert!(b.pre_merge_rounds.is_empty());
        assert_eq!(&b.irs_config, first);
    }
}

fn merge_size(cfg: &BatchedProtocolConfig) -> usize {
    cfg.inner().rounds()[0].code_switch().config().source().vector_size()
}

#[test]
fn derive_smaller_bundle_at_merge_point_only_bigger_folds() {
    let (cfg, _) = batched(Mode::ZeroKnowledge, &[(1, 8), (1, 6)]);
    assert_eq!(cfg.bundle_configs()[0].pre_merge_rounds.len(), 1);
    assert!(cfg.bundle_configs()[1].pre_merge_rounds.is_empty());
    assert_eq!(cfg.bundle_configs()[0].join_round, Some(0));
    assert_eq!(cfg.bundle_configs()[1].join_round, Some(0));
    assert_eq!(cfg.schedule().joins.len(), 1);
    assert_eq!(cfg.schedule().joins[0].round_index, Some(0));
    assert_eq!(cfg.schedule().joins[0].t, 2);
    assert_eq!(merge_size(&cfg), 1 << 6);
}

#[test]
fn derive_two_diff_sizes_both_run_one_pre_merge_round() {
    let (cfg, _) = batched(Mode::ZeroKnowledge, &[(1, 10), (1, 9)]);
    assert_eq!(cfg.bundle_configs()[0].pre_merge_rounds.len(), 1);
    assert_eq!(cfg.bundle_configs()[1].pre_merge_rounds.len(), 1);
    assert_eq!(cfg.bundle_configs()[0].join_round, Some(0));
    assert_eq!(cfg.bundle_configs()[1].join_round, Some(0));
    assert_eq!(cfg.schedule().joins.len(), 1);
    assert_eq!(cfg.schedule().joins[0].t, 2);
    assert_eq!(cfg.bundle_configs()[0].irs_config.vector_size(), 1 << 10);
    assert_eq!(cfg.bundle_configs()[1].irs_config.vector_size(), 1 << 9);
    assert_eq!(merge_size(&cfg), 1 << 8);
}

#[test]
fn derive_2_pow_19_and_2_pow_20_fold_2_converges_at_2_pow_18() {
    let (cfg, _) = batched(Mode::ZeroKnowledge, &[(1, 19), (1, 20)]);
    assert_eq!(cfg.bundle_configs()[0].pre_merge_rounds.len(), 1);
    assert_eq!(cfg.bundle_configs()[1].pre_merge_rounds.len(), 1);
    assert_eq!(cfg.bundle_configs()[0].join_round, Some(0));
    assert_eq!(cfg.bundle_configs()[1].join_round, Some(0));
    assert_eq!(cfg.bundle_configs()[0].irs_config.vector_size(), 1 << 19);
    assert_eq!(cfg.bundle_configs()[1].irs_config.vector_size(), 1 << 20);
    assert_eq!(cfg.schedule().joins.len(), 1);
    assert_eq!(cfg.schedule().joins[0].round_index, Some(0));
    assert_eq!(cfg.schedule().joins[0].t, 2);
    assert_eq!(cfg.schedule().joins[0].bundle_indices, vec![0, 1]);
    assert_eq!(merge_size(&cfg), 1 << 18);
}

#[test]
fn folds_before_the_merge() {
    assert_eq!(auto_pre_merge_plan(&[64, 64], 2).unwrap(), vec![Vec::<usize>::new(), vec![]]);
    assert_eq!(auto_pre_merge_plan(&[256, 64], 2).unwrap(), vec![vec![2], vec![]]);
    assert_eq!(auto_pre_merge_plan(&[1024, 512], 2).unwrap(), vec![vec![2], vec![1]]);
    assert_eq!(
        auto_pre_merge_plan(&[], 2),
        Err(DeriveError::BatchedUnsupported { reason: BatchedFault::PlanWithoutBundles })
    );
    assert_eq!(
        auto_pre_merge_plan(&[8], 0),
        Err(DeriveError::BatchedUnsupported { reason: BatchedFault::PlanWithoutFold })
    );
    assert_eq!(
        auto_pre_merge_plan(&[8, 12], 2),
        Err(DeriveError::BatchedUnsupported {
            reason: BatchedFault::PlanLengthNotPowerOfTwo { bundle: 1, length: 12 }
        })
    );
}

#[test]
fn derive_rejects_non_constant_folding() {
    let err = batched_for(
        spec_for(Mode::ZeroKnowledge),
        shapes(&[(1, 8)]),
        FoldingFactor::ConstantFromSecondRound { initial: 1, rest: 2 },
        floor(),
    )
    .unwrap_err();
    assert_eq!(
        err,
        DeriveError::BatchedUnsupported { reason: BatchedFault::FoldingNotConstant }
    );
}

#[test]
fn derive_rejects_gap_larger_than_folding_factor() {
    assert!(matches!(
        rejected(shapes(&[(1, 10), (1, 6)])),
        BatchedFault::BelowMergePoint { bundle: 1, .. }
    ));
}

#[test]
fn derive_rejects_mixed_num_polys() {
    assert_eq!(
        rejected(shapes(&[(2, 8), (4, 8)])),
        BatchedFault::NumPolysDiffer { bundle: 1, num_polys: 4, expected: 2 }
    );
}

#[test]
fn derive_rejects_non_power_of_two_length() {
    assert_eq!(
        rejected(vec![BundleSpec { length: 100, num_polys: 1 }]),
        BatchedFault::LengthNotPowerOfTwo { bundle: 0, length: 100 }
    );
}

#[test]
fn derive_rejects_non_power_of_two_num_polys() {
    assert_eq!(
        rejected(shapes(&[(3, 8)])),
        BatchedFault::NumPolysNotPowerOfTwo { bundle: 0, num_polys: 3 }
    );
    assert_eq!(rejected(shapes(&[(0, 8)])), BatchedFault::NoPolys { bundle: 0 });
}

#[test]
fn derive_rejects_empty_bundles() {
    assert_eq!(rejected(vec![]), BatchedFault::NoBundles);
}

#[test]
fn derive_rejects_plans_without_shared_rounds() {
    assert_eq!(rejected(shapes(&[(1, 3)])), BatchedFault::NoSharedRounds);
}

#[test]
fn selector_merge_gets_pow_when_analytic_slot_is_below_target() {
    let spec = SecuritySpec::new(59).with_pow_budget(PowBudget::per_slot(60));
    let (cfg, floors) = batched_for(
        spec,
        shapes(&vec![(1, 8); 512]),
        FoldingFactor::Constant(2),
        Bits::whole(55),
    )
    .unwrap();
    let pow = cfg.schedule().joins[0].selector.selector().sumcheck().round_pow;
    assert_eq!(pow.bits, 4);
    let floors = BatchedFloors { claims: vec![Bits::whole(63); 512], ..floors };
    cfg.validate_security_target_met_for_claims(&vec![1; 512], &floors).unwrap();
}

#[test]
fn runtime_claim_count_validation_rejects_oversized_intra_bundle_rlc() {
    let (cfg, floors) = batched(Mode::ZeroKnowledge, &[(1, 8)]);
    // Of 64 bits, 2^30 claims leave 34.
    let floors = BatchedFloors { claims: vec![Bits::whole(34)], ..floors };
    assert!(matches!(
        cfg.validate_security_target_met_for_claims(&[1 << 30], &floors),
        Err(DeriveError::SecurityTargetNotMet {
            pow: Pow::BatchedIntraBundleRlc { index: 0 },
            ..
        })
    ));
}

#[test]
fn try_new_rejects_inconsistent_join_t() {
    let (cfg, floors) = batched(Mode::ZeroKnowledge, &[(1, 8), (1, 8)]);
    let BatchedProtocolConfig { inner, mut schedule, bundle_configs, tuning } = cfg;
    schedule.joins[0].t += 1;
    let err = BatchedProtocolConfig::try_new(inner, schedule, bundle_configs, tuning, &floors)
        .unwrap_err();
    assert_eq!(
        err,
        DeriveError::BatchedUnsupported {
            reason: BatchedFault::JoinCountMismatch { join: 0, t: 3, bundles: 2, carrier: false }
        }
    );
}

fn broken(change: impl FnOnce(&mut BatchedProtocolConfig)) -> BatchedFault {
    let (mut cfg, _) = batched(Mode::ZeroKnowledge, &[(1, 8), (1, 6)]);
    cfg.validate_structure().unwrap();
    change(&mut cfg);
    cfg.validate_structure().unwrap_err()
}

#[test]
fn structural_faults_are_named() {
    assert_eq!(broken(|c| c.schedule.joins.clear()), BatchedFault::NoJoins);
    assert_eq!(
        broken(|c| c.bundle_configs.clear()),
        BatchedFault::NoBundleConfigs
    );
    assert_eq!(
        broken(|c| {
            c.bundle_configs.pop();
        }),
        BatchedFault::BundleCountMismatch { declared: 2, configured: 1 }
    );
    assert_eq!(
        broken(|c| c.tuning.bundles[1].length = 8),
        BatchedFault::BundleSpecMismatch { bundle: 1 }
    );
    assert_eq!(
        broken(|c| c.schedule.joins[0].round_index = None),
        BatchedFault::BasecaseJoin
    );
    assert_eq!(
        broken(|c| c.schedule.joins[0].round_index = Some(1)),
        BatchedFault::FirstJoinNotAtStart
    );
    assert_eq!(
        broken(|c| c.schedule.joins[0].round_index = Some(99)),
        BatchedFault::JoinRoundOutOfRange { join: 0, round: 99, rounds: 2 }
    );
    assert_eq!(
        broken(|c| c.schedule.joins[0].bundle_indices.clear()),
        BatchedFault::JoinWithoutBundles { join: 0 }
    );
    assert_eq!(
        broken(|c| c.schedule.joins[0].bundle_indices = vec![0, 7]),
        BatchedFault::BundleOutOfRange { join: 0, bundle: 7 }
    );
    assert_eq!(
        broken(|c| c.schedule.joins[0].bundle_indices = vec![0, 0]),
        BatchedFault::BundleJoinsTwice { bundle: 0 }
    );
    assert_eq!(
        broken(|c| c.bundle_configs[1].join_round = Some(1)),
        BatchedFault::BundleJoinMismatch { bundle: 1, round: 0 }
    );
    assert_eq!(
        broken(|c| c.bundle_configs[1].irs_config.vector_size = 32),
        BatchedFault::JoinSourceMismatch { bundle: 1, round: 0 }
    );
}

#[test]
fn schedule_lookup_round_vs_basecase() {
    let joins = vec![
        RoundJoin {
            round_index: Some(0),
            bundle_indices: vec![0, 1],
            t: 2,
            selector: merge::Config::new(2, 16, proof_of_work::Config::none()),
        },
        RoundJoin {
            round_index: None,
            bundle_indices: vec![2],
            t: 2,
            selector: merge::Config::new(2, 1, proof_of_work::Config::none()),
        },
    ];
    let schedule = MergeSchedule { joins };
    assert_eq!(schedule.bundle_count(), 3);
    assert_eq!(schedule.join_at(0).unwrap().bundle_indices, vec![0, 1]);
    assert!(schedule.join_at(1).is_none());
    assert_eq!(schedule.basecase_join().unwrap().bundle_indices, vec![2]);
    assert_eq!(MergeSchedule::empty().bundle_count(), 0);
    assert!(MergeSchedule::empty().basecase_join().is_none());
}

#[test]
fn shapes_of_codes_are_compared() {
    let a = code(1, 64, 4, 1, true);
    assert!(irs_shape_matches(&a, &a));
    assert!(!irs_shape_matches(&a, &code(1, 64, 2, 1, true)));
    assert!(!irs_shape_matches(&a, &code(1, 64, 4, 2, true)));
    assert!(!irs_shape_matches(&a, &code(1, 64, 4, 1, false)));
}

// ── Batched protocol ─────────────────────────────────────────────────────────

struct RandomBundle {
    polys: Vec<Vec<Field64>>,
    per_poly_forms: Vec<Vec<LinearForm>>,
    per_poly_values: Vec<Vec<Field64>>,
}

fn random_bundle(num_polys: usize, log_m: usize, claims_per_poly: usize, seed: u64) -> RandomBundle {
    let polys: Vec<Vec<Field64>> = (0..num_polys)
        .map(|i| random_vector(seed, i as u64, 1 << log_m))
        .collect();
    let mut per_poly_forms = Vec::new();
    let mut per_poly_values = Vec::new();
    for (i, poly) in polys.iter().enumerate() {
        let forms: Vec<LinearForm> = (0..claims_per_poly)
            .map(|k| LinearForm::MultilinearExtension {
                point: random_vector(seed, 1000 + (10 * i + k) as u64, log_m),
            })
            .collect();
        per_poly_values.push(forms.iter().map(|f| dot(poly, &f.to_covector())).collect());
        per_poly_forms.push(forms);
    }
    RandomBundle { polys, per_poly_forms, per_poly_values }
}

fn claims_of(rb: &RandomBundle) -> Vec<Vec<BundleClaim<'_>>> {
    rb.per_poly_forms
        .iter()
        .zip(&rb.per_poly_values)
        .map(|(forms, values)| {
            forms
                .iter()
                .zip(values)
                .map(|(form, value)| BundleClaim { form, value: *value })
                .collect()
        })
        .collect()
}

fn witness_bundle(rb: &RandomBundle) -> WitnessBundle<'_> {
    WitnessBundle {
        polys: rb.polys.iter().map(Vec::as_slice).collect(),
        per_poly_claims: claims_of(rb),
    }
}

fn bundle_descriptor(rb: &RandomBundle) -> BundleDescriptor<'_> {
    BundleDescriptor {
        num_polys: rb.polys.len(),
        length: rb.polys[0].len(),
        per_poly_claims: claims_of(rb),
    }
}

fn batched_proof(
    cfg: &BatchedProtocolConfig,
    floors: &BatchedFloors,
    data: &[RandomBundle],
    label: &[u8],
) -> Vec<u64> {
    let mut ps = ProverState::new(label, b"coins");
    let bundles: Vec<WitnessBundle> = data.iter().map(witness_bundle).collect();
    let committed = bundles
        .iter()
        .enumerate()
        .map(|(i, b)| cfg.commit_bundle(&mut ps, i, b))
        .collect();
    let refs: Vec<&WitnessBundle> = bundles.iter().collect();
    cfg.prove(&mut ps, committed, &refs, floors).unwrap();
    ps.narg
}

fn batched_verify(
    cfg: &BatchedProtocolConfig,
    floors: &BatchedFloors,
    descriptors: &[BundleDescriptor],
    label: &[u8],
    narg: Vec<u64>,
) -> Result<(), VerificationError> {
    let mut vs = VerifierState::new(label, narg);
    let mut commitments = Vec::new();
    for i in 0..cfg.bundle_configs().len() {
        commitments.push(cfg.receive_bundle_commitment(&mut vs, i)?);
    }
    let refs: Vec<&BundleDescriptor> = descriptors.iter().collect();
    let claim = cfg.verify(&mut vs, commitments, &refs, floors)?;
    assert_eq!(claim.groups.len(), descriptors.len());
    for (group, d) in claim.groups.iter().zip(descriptors) {
        let bits = (d.num_polys * d.length).trailing_zeros() as usize;
        assert_eq!(group.evaluation_point.len(), bits);
    }
    claim.verify_bundles(&refs)?;
    vs.check_eof()
}

fn batched_roundtrip(mode: Mode, list: &[(usize, u32)], data: &[RandomBundle], label: &[u8]) {
    let (cfg, floors) = batched(mode, list);
    let narg = batched_proof(&cfg, &floors, data, label);
    let descriptors: Vec<BundleDescriptor> = data.iter().map(bundle_descriptor).collect();
    batched_verify(&cfg, &floors, &descriptors, label, narg).unwrap();
}

#[test]
fn roundtrip_single_bundle_single_poly_single_claim_zk() {
    let data = [random_bundle(1, 8, 1, 0)];
    batched_roundtrip(Mode::ZeroKnowledge, &[(1, 8)], &data, b"single claim zk");
}

#[test]
fn roundtrip_single_bundle_single_poly_single_claim_standard() {
    let data = [random_bundle(1, 8, 1, 1)];
    batched_roundtrip(Mode::Standard, &[(1, 8)], &data, b"single claim standard");
}

#[test]
fn roundtrip_single_bundle_single_poly_multi_claim_zk() {
    let data = [random_bundle(1, 8, 3, 2)];
    batched_roundtrip(Mode::ZeroKnowledge, &[(1, 8)], &data, b"multi claim zk");
}

#[test]
fn roundtrip_two_bundles_round_zero_zk() {
    let data = [random_bundle(1, 8, 1, 10), random_bundle(1, 8, 1, 11)];
    batched_roundtrip(Mode::ZeroKnowledge, &[(1, 8), (1, 8)], &data, b"two bundles zk");
}

#[test]
fn roundtrip_three_bundles_round_zero_standard() {
    let data = [
        random_bundle(1, 8, 2, 20),
        random_bundle(1, 8, 1, 21),
        random_bundle(1, 8, 3, 22),
    ];
    batched_roundtrip(Mode::Standard, &[(1, 8), (1, 8), (1, 8)], &data, b"three bundles");
}

#[test]
fn roundtrip_single_bundle_multi_poly_zk() {
    let data = [random_bundle(4, 8, 1, 40)];
    batched_roundtrip(Mode::ZeroKnowledge, &[(4, 8)], &data, b"multi poly zk");
}

#[test]
fn roundtrip_single_bundle_multi_poly_distinct_forms_per_poly_zk() {
    let data = [random_bundle(2, 8, 2, 41)];
    batched_roundtrip(Mode::ZeroKnowledge, &[(2, 8)], &data, b"distinct forms");
}

#[test]
fn roundtrip_two_multi_poly_bundles_round_zero_zk() {
    let data = [random_bundle(4, 6, 1, 50), random_bundle(4, 6, 2, 51)];
    batched_roundtrip(Mode::ZeroKnowledge, &[(4, 6), (4, 6)], &data, b"two multi poly");
}

#[test]
fn roundtrip_multi_poly_diff_sizes_converge_zk() {
    let data = [random_bundle(4, 8, 1, 60), random_bundle(4, 6, 2, 61)];
    batched_roundtrip(Mode::ZeroKnowledge, &[(4, 8), (4, 6)], &data, b"multi poly converge");
}

#[test]
fn roundtrip_diff_sizes_only_bigger_folds_zk() {
    let data = [random_bundle(1, 8, 1, 30), random_bundle(1, 6, 1, 31)];
    batched_roundtrip(Mode::ZeroKnowledge, &[(1, 8), (1, 6)], &data, b"only bigger folds");
}

#[test]
fn roundtrip_diff_sizes_converge_zk() {
    let data = [random_bundle(1, 10, 1, 80), random_bundle(1, 9, 1, 81)];
    batched_roundtrip(Mode::ZeroKnowledge, &[(1, 10), (1, 9)], &data, b"converge zk");
}

#[test]
fn roundtrip_diff_sizes_converge_standard() {
    let data = [random_bundle(1, 10, 1, 93), random_bundle(1, 9, 1, 94)];
    batched_roundtrip(Mode::Standard, &[(1, 10), (1, 9)], &data, b"converge standard");
}

#[test]
fn verify_rejects_wrong_value_zk() {
    let (cfg, floors) = batched(Mode::ZeroKnowledge, &[(1, 8)]);
    let mut data = [random_bundle(1, 8, 1, 100)];
    let narg = batched_proof(&cfg, &floors, &data, b"wrong value");
    data[0].per_poly_values[0][0] = data[0].per_poly_values[0][0].add(Field64::one());
    let descriptors = [bundle_descriptor(&data[0])];
    assert!(batched_verify(&cfg, &floors, &descriptors, b"wrong value", narg).is_err());
}

#[test]
fn verify_rejects_malformed_descriptor_without_panic() {
    let (cfg, floors) = batched(Mode::ZeroKnowledge, &[(1, 8)]);
    let data = [random_bundle(1, 8, 1, 101)];
    let narg = batched_proof(&cfg, &floors, &data, b"malformed");
    let mut descriptors = [bundle_descriptor(&data[0])];
    descriptors[0].per_poly_claims.push(Vec::new());
    assert!(batched_verify(&cfg, &floors, &descriptors, b"malformed", narg.clone()).is_err());
    let mut descriptors = [bundle_descriptor(&data[0])];
    descriptors[0].length = 128;
    assert!(batched_verify(&cfg, &floors, &descriptors, b"malformed", narg).is_err());
}

#[test]
fn verify_rejects_tampered_batched_proof() {
    let (cfg, floors) = batched(Mode::ZeroKnowledge, &[(1, 8), (1, 6)]);
    let data = [random_bundle(1, 8, 1, 102), random_bundle(1, 6, 1, 103)];
    let narg = batched_proof(&cfg, &floors, &data, b"tampered");
    let descriptors: Vec<BundleDescriptor> = data.iter().map(bundle_descriptor).collect();
    for part in 0..8 {
        let mut changed = narg.clone();
        // The last word is the nonce of the last work, which another may replace.
        let at = part * (narg.len() - 2) / 7;
        changed[at] ^= 1;
        assert!(batched_verify(&cfg, &floors, &descriptors, b"tampered", changed).is_err());
    }
    batched_verify(&cfg, &floors, &descriptors, b"tampered", narg).unwrap();
}

fn no_claim_bundle(polys: &[Vec<Field64>]) -> WitnessBundle<'_> {
    WitnessBundle {
        polys: polys.iter().map(Vec::as_slice).collect(),
        per_poly_claims: polys.iter().map(|_| Vec::new()).collect(),
    }
}

#[test]
fn commit_bundle_single_bundle_single_poly_roundtrip() {
    let (cfg, _) = batched(Mode::ZeroKnowledge, &[(1, 8)]);
    let polys = vec![random_vector(0, 0, 1 << 8)];
    let mut ps = ProverState::new(b"bundle", b"coins");
    let committed = cfg.commit_bundle(&mut ps, 0, &no_claim_bundle(&polys));
    let mut vs = VerifierState::new(b"bundle", ps.narg);
    cfg.receive_bundle_commitment(&mut vs, 0).unwrap();
    vs.check_eof().unwrap();
    assert!(matches!(committed.state, CommittedState::Round { .. }));
}

#[test]
fn commit_bundle_multi_poly_roundtrip() {
    let (cfg, _) = batched(Mode::ZeroKnowledge, &[(4, 6)]);
    let polys: Vec<Vec<Field64>> = (0..4).map(|i| random_vector(1, i, 1 << 6)).collect();
    let mut ps = ProverState::new(b"bundle", b"coins");
    cfg.commit_bundle(&mut ps, 0, &no_claim_bundle(&polys));
    let mut vs = VerifierState::new(b"bundle", ps.narg);
    cfg.receive_bundle_commitment(&mut vs, 0).unwrap();
    vs.check_eof().unwrap();
}

#[test]
fn multiple_bundles_bind_batching_challenge_at_commit_time() {
    let (cfg, _) = batched(Mode::ZeroKnowledge, &[(1, 6), (1, 6), (1, 6)]);
    let polys: Vec<Vec<Vec<Field64>>> = (0..3).map(|i| vec![random_vector(2, i, 1 << 6)]).collect();
    let mut ps = ProverState::new(b"interleaved", b"coins");
    let mut challenges = Vec::new();
    for (i, p) in polys.iter().enumerate() {
        let committed = cfg.commit_bundle(&mut ps, i, &no_claim_bundle(p));
        challenges.push(committed.batching_challenge);
        challenges.push(ps.verifier_message());
    }
    let mut vs = VerifierState::new(b"interleaved", ps.narg);
    let mut received = Vec::new();
    for i in 0..3 {
        let commitment = cfg.receive_bundle_commitment(&mut vs, i).unwrap();
        received.push(commitment.batching_challenge);
        received.push(vs.verifier_message());
    }
    vs.check_eof().unwrap();
    assert_eq!(challenges, received);
}
