use zook::bits::Bits;
use zook::irs_commit::CodewordLengthError;
use zook::params::branch::Branch;
use zook::params::error::{grind_to_at, ChainSource, ChainTarget, DeriveError, Pow, PowResultExt};
use zook::params::layout::{round_context, round_layout, target_context, LayoutError, RoundSlot};
use zook::params::solved::Solved;
use zook::params::spec::{
    DecodingRegime, FoldingFactor, HashId, KneeWeight, LogInvRate, Mode, NonZeroBits,
    OodSampleBudget, PowBudget, RateSchedule, SecuritySpec, Tagged, TuningSpec, ZkSpec, DEFAULT_POW_BUDGET_BITS,
};
use zook::proof_of_work::{Config as PowConfig, PowError};

const TARGET_BITS: u32 = 100;

fn spec(pow_budget: PowBudget) -> SecuritySpec {
    SecuritySpec::new(TARGET_BITS)
        .with_mode(Mode::ZeroKnowledge)
        .with_pow_budget(pow_budget)
}

#[test]
fn from_str_round_trips_display() {
    for r in [
        DecodingRegime::Unique,
        DecodingRegime::Johnson,
        DecodingRegime::Capacity,
    ] {
        assert_eq!(r.name().parse::<DecodingRegime>().unwrap(), r);
    }
}

#[test]
fn from_str_rejects_unknown() {
    assert!("johnson".parse::<DecodingRegime>().is_err()); // case-sensitive
    assert!("".parse::<DecodingRegime>().is_err());
    assert!("capacity".parse::<DecodingRegime>().is_err());
    assert_eq!("unique".parse::<DecodingRegime>().unwrap_err().name, "unique");
}

#[test]
fn new_uses_documented_defaults() {
    let spec = SecuritySpec::new(128);
    assert_eq!(spec.mode, Mode::Standard);
    assert_eq!(spec.decoding_regime, DecodingRegime::Johnson);
    assert_eq!(spec.target_security_bits, 128);
    assert_eq!(
        spec.pow_budget,
        PowBudget::per_slot(DEFAULT_POW_BUDGET_BITS)
    );
    assert_eq!(spec.hash_id, HashId::blake3());
}

#[test]
fn forbidden_means_no_pow_credit() {
    assert_eq!(
        spec(PowBudget::Forbidden).protocol_security_target_bits(),
        Bits::whole(TARGET_BITS),
    );
}

#[test]
fn per_slot_zero_collapses_to_forbidden() {
    assert_eq!(PowBudget::per_slot(0), PowBudget::Forbidden);
}

#[test]
fn a_budget_of_no_bits_cannot_be_made() {
    assert!(NonZeroBits::new(0).is_none());
    let bits = NonZeroBits::new(9).unwrap();
    assert_eq!(bits.get(), 9);
    assert_eq!(PowBudget::PerSlot { bits }, PowBudget::per_slot(9));
}

#[test]
fn per_slot_bits_round_trip() {
    assert_eq!(PowBudget::per_slot(20).bits(), 20);
    assert_eq!(PowBudget::Forbidden.bits(), 0);
    for budget in [PowBudget::Forbidden, PowBudget::per_slot(1), PowBudget::per_slot(60)] {
        assert_eq!(PowBudget::per_slot(budget.bits()), budget);
    }
}

#[test]
fn pow_credit_shifts_analytic_floor() {
    assert_eq!(
        spec(PowBudget::per_slot(20)).protocol_security_target_bits(),
        Bits::whole(80),
    );
    assert_eq!(
        spec(PowBudget::per_slot(60)).protocol_security_target_bits(),
        Bits::whole(40),
    );
}

#[test]
fn pow_exceeding_target_saturates_to_zero() {
    let pow_over_target = TARGET_BITS + 100;
    assert_eq!(
        spec(PowBudget::per_slot(pow_over_target)).protocol_security_target_bits(),
        Bits::whole(0),
    );
}

#[test]
fn rate_schedule_stepping_unbounded() {
    assert_eq!(RateSchedule::Stepping.step(2, 3), 4);
    assert_eq!(RateSchedule::Stepping.step(100, 5), 104);
}

#[test]
fn rate_schedule_capped_clamps_above_cap() {
    let cap = RateSchedule::Capped { max_log_inv_rate: 5 };
    assert_eq!(cap.step(2, 3), 4); // below cap: step normally
    assert_eq!(cap.step(4, 3), 5); // would step to 6: clamp to 5
    assert_eq!(cap.step(5, 3), 5); // already at cap: stays
    assert_eq!(cap.step(10, 3), 5); // above cap: snaps back to cap
}

#[test]
fn rate_schedule_folding_factor_one_never_steps() {
    assert_eq!(RateSchedule::Stepping.step(2, 1), 2);
    assert_eq!(
        RateSchedule::Capped { max_log_inv_rate: 5 }.step(2, 1),
        2,
    );
}

#[test]
fn builders_set_one_field_each() {
    let s = SecuritySpec::new(90)
        .with_mode(Mode::ZeroKnowledge)
        .with_decoding_regime(DecodingRegime::Capacity)
        .with_hash(HashId::sha2());
    assert_eq!(s.mode, Mode::ZeroKnowledge);
    assert_eq!(s.decoding_regime, DecodingRegime::Capacity);
    assert_eq!(s.hash_id, HashId::sha2());
    assert_eq!(s.target_security_bits, 90);
    assert_eq!(s.pow_budget.bits(), DEFAULT_POW_BUDGET_BITS);
}

#[test]
fn zk_spec_only_of_zero_knowledge() {
    let standard = SecuritySpec::new(80);
    assert!(standard.as_zk().is_none());
    assert!(ZkSpec::try_new(&standard).is_none());
    let zk = standard.with_mode(Mode::ZeroKnowledge);
    assert_eq!(*zk.as_zk().unwrap().as_inner(), zk);
}

#[test]
fn tagged_and_solved_hold_their_values() {
    let rate: LogInvRate = Tagged::new(4);
    assert_eq!(rate.get(), 4);
    let copy = rate;
    assert_eq!(copy.get(), rate.get());
    assert_eq!(copy, rate);
    let other: LogInvRate = Tagged::new(5);
    assert!(rate != other);
    assert_eq!(OodSampleBudget::zero().get(), 0);
    assert!(OodSampleBudget::zero() == Tagged::new(0));
    let solved = Solved::new(7u32, Bits::whole(40));
    assert_eq!(*solved.config(), 7);
    assert_eq!(solved.analytic(), Bits::whole(40));
    assert_eq!(solved.into_config(), 7);
    assert_eq!(KneeWeight::new(250_000).get(), 250_000);
}

#[test]
fn folding_factor_by_round() {
    let f = FoldingFactor::ConstantFromSecondRound { initial: 4, rest: 2 };
    assert_eq!(f.at_round(0), 4);
    assert_eq!(f.at_round(1), 2);
    assert_eq!(f.at_round(9), 2);
    assert_eq!(f.min(), 2);
    assert_eq!(FoldingFactor::Constant(3).at_round(5), 3);
    assert_eq!(FoldingFactor::Constant(3).min(), 3);
}

#[test]
fn branch_maps_its_payload() {
    let b: Branch<u32> = Branch::ZeroKnowledge(3);
    assert!(b.is_zk());
    assert!(matches!(b.map(|x: u32| x + 1), Branch::ZeroKnowledge(4)));
    assert!(matches!(b.as_ref(), Branch::ZeroKnowledge(&3)));
    let s: Branch<u32> = Branch::Standard;
    assert!(!s.is_zk());
    assert!(matches!(s.map(|x: u32| x + 1), Branch::Standard));
    assert!(matches!(s.as_ref(), Branch::Standard));
}

#[test]
fn labels_of_slots_and_chains() {
    assert_eq!(Pow::BasecaseGammaCombination.label(), "basecase γ-combination");
    assert_eq!(Pow::BasecaseSumcheck.label(), "basecase sumcheck");
    assert_eq!(Pow::RoundSumcheck { index: 0 }.label(), "round 0 sumcheck");
    assert_eq!(Pow::RoundCodeSwitch { index: 12 }.label(), "round 12 code-switch");
    assert_eq!(
        Pow::RoundMaskProximity { index: 305 }.label(),
        "round 305 mask-proximity"
    );
    assert_eq!(ChainSource::Tuning.label(), "tuning");
    assert_eq!(ChainSource::Round(7).label(), "round 7");
    assert_eq!(ChainTarget::NextRound(10).label(), "round 10");
    assert_eq!(ChainTarget::Basecase.label(), "basecase");
}

#[test]
fn grind_closes_the_gap_within_the_budget() {
    let s = SecuritySpec::new(80).with_pow_budget(PowBudget::per_slot(20));
    let slot = Pow::BasecaseSumcheck;
    assert_eq!(grind_to_at(&s, Bits::whole(70), slot).unwrap().bits, 10);
    assert_eq!(grind_to_at(&s, Bits::whole(90), slot).unwrap(), PowConfig::none());
    // A fraction of a bit costs a whole one.
    assert_eq!(grind_to_at(&s, Bits::new(70_500_000), slot).unwrap().bits, 10);
    assert_eq!(
        grind_to_at(&s, Bits::whole(50), slot),
        Err(DeriveError::PowBudgetExceeded {
            pow: slot,
            required: Bits::whole(30),
            max: Bits::whole(20),
        })
    );
    assert_eq!(
        grind_to_at(&s, Bits::whole(10), slot),
        Err(DeriveError::PowUngrindable {
            pow: slot,
            source: PowError { required: Bits::whole(70) },
        })
    );
}

#[test]
fn failures_are_lifted_with_their_slot() {
    let slot = Pow::RoundCodeSwitch { index: 2 };
    let ok: Result<u32, PowError> = Ok(5);
    assert_eq!(ok.at(slot), Ok(5));
    let source = PowError { required: Bits::whole(61) };
    let bad: Result<u32, PowError> = Err(source);
    assert_eq!(bad.at(slot), Err(DeriveError::PowUngrindable { pow: slot, source }));
    assert_eq!(
        DeriveError::from(CodewordLengthError { length: 9 }),
        DeriveError::CodewordExceedsNtt { length: 9 }
    );
    assert_eq!(
        DeriveError::from(LayoutError::StartingRateBelowOne),
        DeriveError::Layout(LayoutError::StartingRateBelowOne)
    );
}

#[test]
fn levels_differ_by_their_distance() {
    assert_eq!(Bits::whole(3).abs_diff(Bits::whole(5)), Bits::whole(2));
    assert_eq!(Bits::whole(5).abs_diff(Bits::whole(3)), Bits::new(2_000_000));
}

const FIXTURE_FOLDING_FACTOR: usize = 2;
const FIXTURE_LOG_INV_RATE: u32 = 1;
const LOG_VECTOR_SIZE_NO_ROUNDS: u32 = 3;
const LOG_VECTOR_SIZE_MULTI_ROUND: u32 = 8;
const VARIED_INITIAL_FOLDING: usize = 3;
const VARIED_STEADY_FOLDING: usize = 2;
const RATE_STEPPING_STARTING_LOG_INV_RATE: u32 = 2;

fn tuning_with(vector_size: usize) -> TuningSpec {
    TuningSpec {
        vector_size,
        starting_log_inv_rate: FIXTURE_LOG_INV_RATE,
        folding_factor: FoldingFactor::Constant(FIXTURE_FOLDING_FACTOR),
        rate_schedule: RateSchedule::Stepping,
    }
}

fn varied(starting_log_inv_rate: u32) -> TuningSpec {
    TuningSpec {
        vector_size: 1 << LOG_VECTOR_SIZE_MULTI_ROUND,
        starting_log_inv_rate,
        folding_factor: FoldingFactor::ConstantFromSecondRound {
            initial: VARIED_INITIAL_FOLDING,
            rest: VARIED_STEADY_FOLDING,
        },
        rate_schedule: RateSchedule::Stepping,
    }
}

#[test]
fn round_layout_rate_steps_up_by_folding_minus_one() {
    let layout = round_layout(&varied(RATE_STEPPING_STARTING_LOG_INV_RATE)).unwrap();
    let mut expected_log_inv_rate = RATE_STEPPING_STARTING_LOG_INV_RATE;
    for shape in &layout.shapes {
        assert_eq!(shape.source_log_inv_rate, expected_log_inv_rate);
        expected_log_inv_rate += shape.source_folding_factor.saturating_sub(1);
        assert_eq!(shape.target_log_inv_rate, expected_log_inv_rate);
    }
    assert_eq!(layout.basecase_log_inv_rate, expected_log_inv_rate);
}

#[test]
fn round_layout_chains_target_to_next_source_folding() {
    let layout = round_layout(&varied(FIXTURE_LOG_INV_RATE)).unwrap();
    assert!(layout.shapes.len() >= 2, "need two rounds to test chaining");
    for window in layout.shapes.windows(2) {
        assert_eq!(
            window[0].target_folding_factor,
            window[1].source_folding_factor
        );
    }
}

#[test]
fn round_layout_basecase_size_consumes_remaining_num_vars() {
    let tuning = tuning_with(1 << LOG_VECTOR_SIZE_MULTI_ROUND);
    let layout = round_layout(&tuning).unwrap();
    let consumed: u32 = layout.shapes.iter().map(|s| s.source_folding_factor).sum();
    let initial_num_vars = tuning.vector_size.trailing_zeros();
    let remaining = initial_num_vars - consumed;
    assert_eq!(layout.basecase_vector_size, 1usize << remaining);
    assert_eq!(layout.shapes.len(), 3);
    assert_eq!(layout.shapes[1].source_vector_size, 1 << 6);
    assert_eq!(layout.shapes[1].round_slot, RoundSlot::Round(1));
}

#[test]
fn round_layout_stops_when_no_room_for_source_plus_target() {
    let vector_size = 1usize << LOG_VECTOR_SIZE_NO_ROUNDS;
    let layout = round_layout(&tuning_with(vector_size)).unwrap();
    assert!(layout.shapes.is_empty());
    assert_eq!(layout.basecase_vector_size, vector_size);
    assert_eq!(layout.basecase_log_inv_rate, FIXTURE_LOG_INV_RATE);
}

#[test]
fn round_layout_rejects_non_pow2_vector_size() {
    let err = round_layout(&tuning_with(12)).expect_err("non-pow2 vector_size must fail");
    assert!(
        matches!(err, LayoutError::VectorSizeNotPowerOfTwo { vector_size: 12 }),
        "got {err:?}",
    );
}

#[test]
fn round_layout_rejects_zero_folding_factor() {
    let tuning = TuningSpec {
        folding_factor: FoldingFactor::Constant(0),
        ..tuning_with(1 << LOG_VECTOR_SIZE_MULTI_ROUND)
    };
    let err = round_layout(&tuning).expect_err("folding_factor = 0 must fail");
    assert!(
        matches!(err, LayoutError::FoldingFactorBelowOne { min: 0 }),
        "got {err:?}",
    );
}

#[test]
fn round_layout_rejects_zero_starting_rate() {
    let tuning = TuningSpec {
        starting_log_inv_rate: 0,
        ..tuning_with(1 << LOG_VECTOR_SIZE_MULTI_ROUND)
    };
    let err = round_layout(&tuning).expect_err("starting_log_inv_rate = 0 must fail");
    assert!(matches!(err, LayoutError::StartingRateBelowOne), "got {err:?}");
}

#[test]
fn contexts_of_a_shape() {
    let layout = round_layout(&tuning_with(1 << LOG_VECTOR_SIZE_MULTI_ROUND)).unwrap();
    let shape = layout.shapes[0];
    let ctx = round_context(&shape);
    assert_eq!(ctx.vector_size, 256);
    assert_eq!(ctx.log_inv_rate, 1);
    assert_eq!(ctx.folding_factor, 2);
    let source = zook::irs_commit::Config {
        num_vectors: 1,
        vector_size: 256,
        codeword_length: 128,
        interleaving_depth: 4,
        in_domain_samples: 3,
        deduplicate_in_domain: false,
        mode: zook::irs_commit::IrsMode::Standard,
    };
    let target = target_context(&shape, &source);
    assert_eq!(target.vector_size, 64);
    assert_eq!(target.log_inv_rate, 2);
    assert_eq!(target.folding_factor, 2);
}

#[test]
fn capped_schedule_holds_the_rate() {
    let tuning = TuningSpec {
        rate_schedule: RateSchedule::Capped { max_log_inv_rate: 2 },
        ..tuning_with(1 << 12)
    };
    let layout = round_layout(&tuning).unwrap();
    assert_eq!(layout.shapes[0].target_log_inv_rate, 2);
    for shape in &layout.shapes {
        assert!(shape.target_log_inv_rate <= 2);
    }
    assert_eq!(layout.basecase_log_inv_rate, 2);
}
