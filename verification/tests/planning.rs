use zook::bits::Bits;
use zook::irs_commit::{Config as IrsConfig, IrsMode, MaskLen};
use zook::params::adaptive::{
    basecase_feasible, fits, pareto_frontier, pick_knee, plan_adaptive_rates, round_feasible,
    Candidate, Cost, CostTable, LogCost, RATES,
};
use zook::params::batched::placement::PRE_MERGE_MASK_LOG_INV_RATE;
use zook::params::branch::Branch;
use zook::params::build_round::{checked_l_zk, compute_l_zk, MaskQuote};
use zook::params::error::{DeriveError, Pow};
use zook::params::layout::{RoundShape, RoundSlot};
use zook::params::planning::{
    budget_beside, chained_rates, last_rate, masks_floor, shared_budget, target_fold,
};
use zook::params::spec::{Mode, PowBudget, RoundContext, SecuritySpec};
use zook::params::{basecase, code_switch, sumcheck};
use zook::sumcheck::SumcheckMode;

fn bits(x: f64) -> Bits {
    Bits::new((x * 1e6).round() as u64)
}

fn spec(mode: Mode) -> SecuritySpec {
    SecuritySpec::new(40).with_mode(mode).with_pow_budget(PowBudget::per_slot(20))
}

fn code(vector_size: usize, depth: usize, mask: usize) -> IrsConfig {
    IrsConfig {
        num_vectors: 1,
        vector_size,
        codeword_length: (2 * (vector_size / depth + mask)).next_power_of_two(),
        interleaving_depth: depth,
        in_domain_samples: 5,
        deduplicate_in_domain: false,
        mode: if mask == 0 {
            IrsMode::Standard
        } else {
            IrsMode::ZeroKnowledge { mask_length: MaskLen::new(mask).unwrap() }
        },
    }
}

#[test]
fn zk_mode_has_three_mask_coefficients() {
    let ctx = RoundContext { vector_size: 16, log_inv_rate: 1, folding_factor: 2 };
    let pow = Pow::RoundSumcheck { index: 0 };
    let solved = sumcheck::solve(&spec(Mode::ZeroKnowledge), &ctx, true, bits(38.0), pow).unwrap();
    match solved.config.mode {
        SumcheckMode::ZeroKnowledge { mask_length } => assert_eq!(mask_length.get(), 3),
        SumcheckMode::Standard => panic!("expected ZK"),
    }
    assert_eq!(solved.config.num_rounds, 2);
    assert_eq!(solved.config.round_pow.bits, 2);
    let standard = sumcheck::solve(&spec(Mode::Standard), &ctx, false, bits(38.0), pow).unwrap();
    assert!(matches!(standard.config.mode, SumcheckMode::Standard));
    assert_eq!(sumcheck::masks_required(&ctx), 2);
}

/// The field's size in bits, a list size and a proximity-gap error of a code at the Johnson
/// bound, as the formulas take them.
const FIELD_BITS: f64 = 64.0;

fn johnson_list_size(log_inv_rate: f64) -> f64 {
    let rate = 2_f64.powf(-log_inv_rate);
    1.0 / (2.0 * (rate.sqrt() / 20.0) * rate.sqrt())
}

fn johnson_gaps(message_length: f64, log_inv_rate: f64) -> f64 {
    FIELD_BITS
        - (2.0 * 10.5_f64.powi(5) / 3.0).log2()
        - message_length.log2()
        - 2.5 * log_inv_rate
}

fn close(got: Bits, expected: f64) {
    assert!((got.micro as f64 / 1e6 - expected).abs() < 1e-5, "{got:?} vs {expected}");
}

fn terms(mask: Option<(f64, f64)>) -> sumcheck::SumcheckTerms {
    sumcheck::SumcheckTerms {
        field_bits: bits(FIELD_BITS),
        log_list_size: bits(johnson_list_size(1.0).log2()),
        prox_gaps: bits(johnson_gaps(4.0, 1.0)),
        mask: mask.map(|(a, b)| (bits(a), bits(b))),
    }
}

#[test]
fn sumcheck_analytic_error_standard_formula() {
    let got = sumcheck::analytic_error_bits(&terms(None));
    let poly_id = FIELD_BITS - johnson_list_size(1.0).log2() - 1.0;
    close(got, johnson_gaps(4.0, 1.0).min(poly_id).max(0.0));
    let wide = sumcheck::SumcheckTerms { prox_gaps: bits(63.9), ..terms(None) };
    close(sumcheck::analytic_error_bits(&wide), poly_id);
}

#[test]
fn sumcheck_analytic_error_zk_formula() {
    let log_c_zk_list = 4.0_f64.log2();
    let log_l_zk = 8.0_f64.log2();
    let got = sumcheck::analytic_error_bits(&terms(Some((log_c_zk_list, log_l_zk))));
    let poly_id = FIELD_BITS - johnson_list_size(1.0).log2() - log_c_zk_list - log_l_zk;
    close(got, johnson_gaps(4.0, 1.0).min(poly_id).max(0.0));
    let wide = sumcheck::SumcheckTerms {
        prox_gaps: bits(63.9),
        ..terms(Some((log_c_zk_list, log_l_zk)))
    };
    close(sumcheck::analytic_error_bits(&wide), poly_id);
}

#[test]
fn analytic_error_clamps_to_zero() {
    close(sumcheck::analytic_error_bits(&terms(Some((60.0, 30.0)))), 0.0);
}

#[test]
fn basecase_analytic_error_formula() {
    let log_list = johnson_list_size(2.0).log2();
    let gaps = johnson_gaps(16.0, 2.0);
    let got = basecase::analytic_error_bits(bits(FIELD_BITS), bits(log_list), bits(gaps));
    close(got, gaps.min(FIELD_BITS - log_list).max(0.0));
    let wide = basecase::analytic_error_bits(bits(FIELD_BITS), bits(log_list), bits(63.0));
    close(wide, FIELD_BITS - log_list);
}

#[test]
fn analytic_error_uses_eps_mca_when_limiting() {
    let log_list = johnson_list_size(1.0).log2();
    let gaps = johnson_gaps(16.0, 1.0);
    assert!(gaps < FIELD_BITS - log_list);
    let got = basecase::analytic_error_bits(bits(FIELD_BITS), bits(log_list), bits(gaps));
    close(got, gaps.max(0.0));
}

fn code_switch_terms(l_zk: Option<usize>, c_zk_list: f64, in_domain: f64) -> (f64, f64, f64) {
    let source = code(64, 4, 0);
    let t_ood = 1;
    let combined = johnson_list_size(2.0) * c_zk_list;
    let degree = code_switch::ood_degree(&source, l_zk) as f64;
    let ood = t_ood as f64 * (FIELD_BITS - (degree - 1.0).log2())
        - (combined * (combined - 1.0) / 2.0).log2();
    let count = code_switch::combination_count(&source, t_ood) as f64;
    (ood, in_domain, FIELD_BITS - count.log2() - combined.log2())
}

#[test]
fn code_switch_analytic_error_standard_formula() {
    let (ood, in_domain, comb) = code_switch_terms(None, 1.0, 80.0);
    let got = code_switch::analytic_error_bits(bits(ood), bits(in_domain), bits(comb));
    close(got, ood.min(in_domain).min(comb).max(0.0));
}

#[test]
fn code_switch_analytic_error_zk_formula() {
    let (ood, in_domain, comb) = code_switch_terms(Some(8), 4.0, 80.0);
    let got = code_switch::analytic_error_bits(bits(ood), bits(in_domain), bits(comb));
    close(got, ood.min(in_domain).min(comb).max(0.0));
}

#[test]
fn analytic_error_uses_in_domain_when_limiting() {
    let (ood, in_domain, comb) = code_switch_terms(None, 1.0, 16.0);
    assert!(in_domain < ood && in_domain < comb);
    let got = code_switch::analytic_error_bits(bits(ood), bits(in_domain), bits(comb));
    close(got, in_domain);
}

#[test]
fn code_switch_floor_is_the_lowest_term() {
    assert_eq!(code_switch::analytic_error_bits(bits(3.0), bits(2.0), bits(1.0)), bits(1.0));
    assert_eq!(code_switch::analytic_error_bits(bits(1.0), bits(2.0), bits(3.0)), bits(1.0));
    assert_eq!(code_switch::analytic_error_bits(bits(3.0), bits(1.0), bits(2.0)), bits(1.0));
    assert_eq!(code_switch::masks_required(), 1);
}

#[test]
fn code_switch_counts() {
    let source = code(64, 4, 0);
    assert_eq!(code_switch::ood_degree(&source, None), 16);
    assert_eq!(code_switch::ood_degree(&source, Some(8)), 24);
    assert_eq!(code_switch::combination_count(&source, 2), 22);
}

#[test]
fn code_switch_is_solved() {
    let solved = code_switch::solve(
        &spec(Mode::Standard),
        code(64, 4, 0),
        code(16, 4, 0),
        1,
        Branch::Standard,
        bits(35.5),
        3,
    )
    .unwrap();
    assert_eq!(solved.config.pow.bits, 5);
    assert_eq!(solved.config.out_domain_samples(), 1);
    assert!(!solved.config.is_zk());
    let masked = code_switch::solve(
        &spec(Mode::ZeroKnowledge),
        code(64, 4, 3),
        code(16, 4, 6),
        1,
        Branch::ZeroKnowledge(4),
        bits(40.0),
        3,
    )
    .unwrap();
    assert_eq!(masked.config.message_mask_length(), 4);
    assert_eq!(masked.config.pow.bits, 0);
}

#[test]
fn basecase_is_solved() {
    let plan =
        basecase::solve_with_commit(&spec(Mode::Standard), code(16, 1, 0), bits(38.0), bits(1.0))
            .unwrap();
    assert_eq!(plan.config.pow.bits, 0);
    assert_eq!(plan.config.sumcheck.round_pow.bits, 2);
    assert_eq!(plan.config.sumcheck.num_rounds, 4);
    let zk =
        basecase::solve_with_commit(&spec(Mode::ZeroKnowledge), code(16, 1, 2), bits(38.0), bits(36.0))
            .unwrap();
    assert!(zk.config.is_zk());
    assert_eq!(zk.config.pow.bits, 4);
    assert!(basecase::solve_with_commit(
        &spec(Mode::ZeroKnowledge),
        code(16, 1, 2),
        bits(38.0),
        bits(1.0)
    )
    .is_err());
}

fn cost(encode: u64, proof: u64) -> Cost {
    Cost { encode, proof }
}

#[test]
fn feasibility_counts_the_budget() {
    let s = spec(Mode::Standard);
    assert!(fits(&s, bits(20.0)));
    assert!(!fits(&s, bits(19.9)));
    assert!(round_feasible(&s, None, bits(20.0), bits(30.0)));
    assert!(!round_feasible(&s, Some(bits(1.0)), bits(20.0), bits(30.0)));
    assert!(!round_feasible(&s, None, bits(20.0), bits(3.0)));
    assert!(basecase_feasible(&s, bits(20.0), bits(0.0)));
    assert!(!basecase_feasible(&spec(Mode::ZeroKnowledge), bits(20.0), bits(0.0)));
}

#[test]
fn costs_add_up_and_dominate() {
    assert_eq!(cost(1, 2).plus(cost(3, 4)), cost(4, 6));
    assert_eq!(cost(u64::MAX, 0).plus(cost(1, 0)), cost(u64::MAX, 0));
    assert!(cost(1, 2).dominates(cost(1, 3)));
    assert!(!cost(1, 2).dominates(cost(1, 2)));
    assert!(!cost(0, 3).dominates(cost(1, 2)));
    assert_eq!(Cost::zero().plus(cost(5, 6)), cost(5, 6));
}

#[test]
fn frontier_keeps_what_nothing_dominates() {
    let costs = [cost(5, 5), cost(1, 9), cost(9, 1), cost(6, 6), cost(5, 4), cost(1, 9)];
    let kept = pareto_frontier(&costs);
    let mut values: Vec<(u64, u64)> = kept.iter().map(|i| (costs[*i].encode, costs[*i].proof)).collect();
    values.sort_unstable();
    values.dedup();
    assert_eq!(values, vec![(1, 9), (5, 4), (9, 1)]);
    assert!(pareto_frontier(&[]).is_empty());
}

#[test]
fn knee_follows_the_weight() {
    let logs = [
        LogCost { encode: 0, proof: 100 },
        LogCost { encode: 20, proof: 20 },
        LogCost { encode: 100, proof: 0 },
    ];
    assert_eq!(pick_knee(&logs, 500_000), 1);
    let ends = [pick_knee(&logs, 0), pick_knee(&logs, 1_000_000)];
    assert!(ends == [0, 2] || ends == [2, 0]);
}

#[test]
fn schedules_are_searched_and_planned() {
    // One round; only two target rates are feasible.
    let mut rounds = vec![None; RATES * RATES];
    rounds[RATES + 1] = Some(cost(10, 50));
    rounds[RATES + 2] = Some(cost(20, 20));
    let mut basecase_costs = vec![None; RATES];
    basecase_costs[1] = Some(cost(1, 2));
    basecase_costs[2] = Some(cost(3, 1));
    let table = CostTable { folding: vec![2], rounds, basecase: basecase_costs };
    let found = table.search(1);
    let summary: Vec<(Vec<u32>, u64, u64)> =
        found.iter().map(|c| (c.rates.clone(), c.cost.encode, c.cost.proof)).collect();
    assert_eq!(summary, vec![(vec![1], 11, 52), (vec![2], 23, 21)]);
    let logs = [LogCost { encode: 35, proof: 57 }, LogCost { encode: 45, proof: 44 }];
    let rates = plan_adaptive_rates(&found, &logs, 500_000).unwrap();
    assert!(rates == vec![1] || rates == vec![2]);
    let none: [Candidate; 0] = [];
    assert_eq!(
        plan_adaptive_rates(&none, &[], 500_000),
        Err(DeriveError::AdaptiveNoFeasibleSchedule)
    );
}

#[test]
fn rates_chain() {
    assert_eq!(chained_rates(2, &[3, 5]), vec![(2, 3), (3, 5)]);
    assert!(chained_rates(2, &[]).is_empty());
    assert_eq!(last_rate(2, &[3, 5]), 5);
    assert_eq!(last_rate(2, &[]), 2);
}

#[test]
fn folds_and_budgets_of_rounds() {
    let shape = |target_folding_factor| RoundShape {
        round_slot: RoundSlot::Round(0),
        source_vector_size: 64,
        source_log_inv_rate: 1,
        source_folding_factor: 2,
        target_folding_factor,
        target_log_inv_rate: 2,
    };
    let shapes = [shape(3), shape(4)];
    assert_eq!(target_fold(&shapes, 0), 3);
    assert_eq!(target_fold(&shapes, 1), 0);
    assert_eq!(shared_budget(&[2, 7, 5]), 7);
    assert_eq!(shared_budget(&[]), 0);
    let mut code = IrsConfig {
        num_vectors: 1,
        vector_size: 64,
        codeword_length: 256,
        interleaving_depth: 4,
        in_domain_samples: 3,
        deduplicate_in_domain: false,
        mode: IrsMode::ZeroKnowledge { mask_length: MaskLen::new(8).unwrap() },
    };
    assert_eq!(budget_beside(&code, 2), 5);
    assert_eq!(budget_beside(&code, 6), 6);
    assert_eq!(checked_l_zk(&code, 2), Some(16));
    assert_eq!(compute_l_zk(&code, 2), 16);
    assert_eq!(checked_l_zk(&code, usize::MAX), None);
    code.in_domain_samples = 20;
    assert_eq!(budget_beside(&code, 0), 0);
    let masks = MaskQuote {
        sumcheck_c_zk: code,
        cs_c_zk: code,
        sumcheck_masks_floor: Bits::whole(41),
        cs_mask_floor: Bits::whole(40),
    };
    assert_eq!(masks_floor(&masks), Bits::whole(40));
    assert_eq!(PRE_MERGE_MASK_LOG_INV_RATE, 4);
}
