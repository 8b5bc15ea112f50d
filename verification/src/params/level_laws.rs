//! What the levels of a plan mean: every level is the greatest that its terms leave,
//! every slot's work the least that closes its gap, and a plan that passes its checks
//! reaches the target everywhere.

use crate::arith::{
    ceil_log2_spec, is_pow2, lemma_ceil_log2, lemma_ceil_log2_monotone, lemma_ceil_log2_pow2,
};
use crate::bits::Bits;
use crate::irs_commit;
use crate::params::basecase::{gamma_bits, planned};
use crate::params::build_round::{l_zk_for, round_fault, RoundQuote};
use crate::params::code_switch::capped_sum;
use crate::params::config::{ProtocolConfig, RoundConfig, RoundMode};
use crate::params::error::{ground_at, Pow};
use crate::params::derive::first_round_fault;
use crate::params::layout::{has_round, layout_from, shape_at, RoundShape};
use crate::params::mask_proximity::{combination_bits, combined};
use crate::params::spec::{FoldingFactor, RateSchedule, SecuritySpec, TuningSpec};
use crate::params::sumcheck::SumcheckTerms;
use crate::params::validate::{
    first_broken_link, law_plan_meets_target_per_slot, plan_analytic, round_slots, rounds_slots,
    target_fault, PlanFloors, PowSlot, RoundFloors,
};
use crate::proof_of_work;
use crate::proof_of_work::work_needed;
use vstd::arithmetic::power2::{lemma_pow2_strictly_increases, pow2};
use vstd::prelude::*;

verus! {

/// A sumcheck's level is the greatest that does not exceed the proximity gap and that,
/// together with what is lost, the field still holds; it is zero where the field does
/// not even hold the losses. Lost are the list size and one bit, or with masks both list
/// sizes and the masks' length.
pub proof fn law_sumcheck_level(terms: SumcheckTerms, level: nat)
    ensures
        ({
            let lost = match terms.mask {
                None => terms.log_list_size.micro + 1_000_000,
                Some((list, len)) => terms.log_list_size.micro + list.micro + len.micro,
            };
            let r = terms.spec_analytic().micro;
            &&& r <= terms.prox_gaps.micro
            &&& r == 0 || r + lost <= terms.field_bits.micro
            &&& level <= terms.prox_gaps.micro && level + lost <= terms.field_bits.micro ==> level
                <= r
        }),
{
}

/// The level of the base case's combination is the greatest that does not exceed the
/// proximity gap and that the field holds together with the list size.
pub proof fn law_gamma_level(field_bits: Bits, log_list_size: Bits, prox_gaps: Bits, level: nat)
    ensures
        ({
            let r = gamma_bits(field_bits, log_list_size, prox_gaps).micro;
            &&& r <= prox_gaps.micro
            &&& r == 0 || r + log_list_size.micro <= field_bits.micro
            &&& level <= prox_gaps.micro && level + log_list_size.micro <= field_bits.micro ==> level
                <= r
        }),
{
}

/// The level of the masks' combination is the greatest that the field holds together
/// with the logarithm of what is combined, and all of the field where nothing is.
pub proof fn law_masks_level(field_bits: Bits, log_combined: Bits, level: nat)
    ensures
        combination_bits(field_bits, None) == field_bits,
        ({
            let r = combination_bits(field_bits, Some(log_combined)).micro;
            &&& r == 0 || r + log_combined.micro <= field_bits.micro
            &&& level + log_combined.micro <= field_bits.micro ==> level <= r
        }),
{
}

/// What is combined: every mask counts with its degree, one less than the length of a
/// masked message; nothing is where there is no mask or all are constants.
pub proof fn law_combined_masks(c_zk: &irs_commit::Config, num_masks: nat)
    ensures
        combined(c_zk, num_masks) is None <==> num_masks == 0 || c_zk.masked_len() <= 1,
        combined(c_zk, num_masks) matches Some(n) ==> n + num_masks == num_masks * c_zk.masked_len(),
{
    let (a, b) = (num_masks as int, c_zk.masked_len() as int);
    assert(a * (b - 1) + a == a * b) by (nonlinear_arith);
    if num_masks > 0 && b > 1 {
        assert(a * (b - 1) >= 0) by (nonlinear_arith)
            requires
                a >= 0,
                b >= 1,
        ;
    }
}

/// The work that is needed closes the gap, and a bit less of it does not.
pub proof fn law_work_is_least(target: Bits, analytic: Bits)
    ensures
        ({
            let w = work_needed(target, analytic);
            &&& analytic.micro + 1_000_000 * w >= target.micro
            &&& w > 0 ==> analytic.micro + 1_000_000 * (w - 1) < target.micro
        }),
{
}

/// A slot is ground to the least work that lifts its floor to the target, with the hash
/// that was asked for; and a slot is refused only where no work within the budget, and
/// of at most sixty bits, would do.
pub proof fn law_slot_is_ground(spec: SecuritySpec, analytic: Bits, pow: Pow, bits: nat)
    ensures
        match ground_at(spec, analytic, pow) {
            Ok(slot) => {
                &&& slot.hash_id == spec.hash_id
                &&& slot.bits <= spec.pow_budget.spec_bits()
                &&& slot.bits <= 60
                &&& analytic.micro + 1_000_000 * slot.bits >= 1_000_000 * spec.target_security_bits
                &&& analytic.micro + 1_000_000 * bits >= 1_000_000 * spec.target_security_bits
                    ==> slot.bits <= bits
            },
            Err(e) => bits <= 60 && bits <= spec.pow_budget.spec_bits() ==> analytic.micro
                + 1_000_000 * bits < 1_000_000 * spec.target_security_bits,
        },
{
    let target = Bits::spec_whole(spec.target_security_bits);
    assert(target.micro == 1_000_000 * spec.target_security_bits);
    law_work_is_least(target, analytic);
}

/// The protocol and the work that may be done reach the target together, and the
/// protocol is asked for no more than that.
pub proof fn law_target_is_shared(spec: SecuritySpec, level: nat)
    ensures
        ({
            let r = spec.spec_protocol_target().micro;
            let (target, work) = (
                1_000_000 * spec.target_security_bits,
                1_000_000 * spec.pow_budget.spec_bits(),
            );
            &&& r + work >= target
            &&& level + work >= target ==> r <= level
        }),
{
}

/// The rate's logarithm grows by one less than the fold, as far as the cap and the range
/// of numbers allow.
pub proof fn law_rate_growth(schedule: RateSchedule, current: u32, fold: u32)
    requires
        fold >= 1,
        current + fold <= u32::MAX,
    ensures
        !(schedule is Capped) ==> schedule.spec_step(current, fold) + 1 == current + fold,
        schedule matches RateSchedule::Capped { max_log_inv_rate } ==> {
            let next = schedule.spec_step(current, fold);
            &&& next <= max_log_inv_rate
            &&& next + 1 <= current + fold
            &&& next == max_log_inv_rate || next + 1 == current + fold
        },
{
}

/// The first round folds by the first number, every other one by the second; a constant
/// factor is the same in all.
pub proof fn law_folds(initial: usize, rest: usize, round: nat)
    ensures
        FoldingFactor::Constant(initial).spec_at_round(round) == initial,
        (FoldingFactor::ConstantFromSecondRound { initial, rest }).spec_at_round(0) == initial,
        round > 0 ==> (FoldingFactor::ConstantFromSecondRound { initial, rest }).spec_at_round(round)
            == rest,
{
}

/// The length of a code-switch's mask is the least power of two that covers the source's
/// mask and all samples.
pub proof fn law_l_zk_is_least(source: irs_commit::Config, t_ood: usize, k: nat)
    requires
        source.mode.mask_len() + t_ood <= usize::MAX,
    ensures
        l_zk_for(source, t_ood) >= source.mode.mask_len() + t_ood,
        is_pow2(l_zk_for(source, t_ood)),
        pow2(k) >= source.mode.mask_len() + t_ood ==> l_zk_for(source, t_ood) <= pow2(k),
{
    let n = source.mode.mask_len() + t_ood as nat;
    let e = ceil_log2_spec(n);
    lemma_ceil_log2(n);
    lemma_ceil_log2_pow2(e);
    if pow2(k) >= n {
        lemma_ceil_log2_monotone(n, pow2(k));
        lemma_ceil_log2_pow2(k);
        if e < k {
            lemma_pow2_strictly_increases(e, k);
        }
    }
}

/// The folds of the rounds from `from` up to round `from + k`.
pub open spec fn folded_before(tuning: TuningSpec, from: nat, k: nat) -> nat
    decreases k,
{
    if k == 0 {
        0
    } else {
        folded_before(tuning, from, (k - 1) as nat) + tuning.folding_factor.spec_at_round(
            (from + k - 1) as nat,
        ) as nat
    }
}

proof fn lemma_folded_front(tuning: TuningSpec, from: nat, k: nat)
    requires
        k > 0,
    ensures
        folded_before(tuning, from, k) == tuning.folding_factor.spec_at_round(from) + folded_before(
            tuning,
            from + 1,
            (k - 1) as nat,
        ),
    decreases k,
{
    if k > 1 {
        lemma_folded_front(tuning, from, (k - 1) as nat);
        assert(from + 1 + (k - 1) - 1 == from + k - 1);
    } else {
        assert(folded_before(tuning, from, 0) == 0);
    }
}

/// A layout has a round exactly as long as the folds of this round and of the next fit:
/// every round starts with what the folds before it leave and has room for both folds,
/// and what is left for the base case has not.
pub proof fn law_layout_is_longest(tuning: TuningSpec, vars: nat, rate: u32, from: nat)
    requires
        pow2(vars) <= usize::MAX,
        forall|round: nat| #[trigger] tuning.folding_factor.spec_at_round(round) >= 1,
        from + vars <= 64,
    ensures
        ({
            let (shapes, left, last) = layout_from(tuning, vars, rate, from);
            let n = shapes.len();
            &&& left + folded_before(tuning, from, n) == vars
            &&& left < tuning.folding_factor.spec_at_round(from + n)
                + tuning.folding_factor.spec_at_round(from + n + 1)
            &&& forall|i: int|
                0 <= i < n ==> {
                    let here = tuning.folding_factor.spec_at_round((from + i) as nat);
                    let next = tuning.folding_factor.spec_at_round((from + i + 1) as nat);
                    &&& folded_before(tuning, from, i as nat) + here + next <= vars
                    &&& (#[trigger] shapes[i]).source_folding_factor == here
                    &&& shapes[i].target_folding_factor == next
                    &&& shapes[i].source_vector_size == pow2(
                        (vars - folded_before(tuning, from, i as nat)) as nat,
                    )
                    &&& shapes[i].round_slot.spec_index() == from + i
                }
        }),
    decreases vars,
{
    let (shapes, left, last) = layout_from(tuning, vars, rate, from);
    let fold = tuning.folding_factor.spec_at_round(from);
    assert(fold >= 1);
    assert(tuning.folding_factor.spec_at_round(from + 1) >= 1);
    if has_round(tuning, vars, from) {
        let shape = shape_at(tuning, vars, rate, from);
        let less = (vars - fold) as nat;
        lemma_pow2_strictly_increases(less, vars);
        law_layout_is_longest(tuning, less, shape.target_log_inv_rate, from + 1);
        let rest = layout_from(tuning, less, shape.target_log_inv_rate, from + 1).0;
        assert(shapes == seq![shape] + rest);
        let n = shapes.len();
        lemma_folded_front(tuning, from, n);
        assert(from + 1 + rest.len() == from + n);
        assert forall|i: int| 0 <= i < n implies {
            let here = tuning.folding_factor.spec_at_round((from + i) as nat);
            let next = tuning.folding_factor.spec_at_round((from + i + 1) as nat);
            &&& folded_before(tuning, from, i as nat) + here + next <= vars
            &&& (#[trigger] shapes[i]).source_folding_factor == here
            &&& shapes[i].target_folding_factor == next
            &&& shapes[i].source_vector_size == pow2(
                (vars - folded_before(tuning, from, i as nat)) as nat,
            )
            &&& shapes[i].round_slot.spec_index() == from + i
        } by {
            if i > 0 {
                lemma_folded_front(tuning, from, i as nat);
                assert(shapes[i] == rest[i - 1]);
                assert(from + 1 + (i - 1) == from + i);
            } else {
                assert(folded_before(tuning, from, 0) == 0);
            }
        }
    } else {
        assert(folded_before(tuning, from, 0) == 0);
    }
}

/// Is a slot within the budget, is its recorded floor within a thousandth of a bit of the
/// fresh one, and does it reach the target but for a thousandth of a bit?
pub open spec fn secure(spec: SecuritySpec, pow: proof_of_work::Config, recorded: Bits, fresh: Bits) -> bool {
    &&& pow.bits <= spec.pow_budget.spec_bits()
    &&& recorded.micro <= fresh.micro + 1_000
    &&& fresh.micro <= recorded.micro + 1_000
    &&& recorded.micro + 1_000_000 * pow.bits + 1_000 >= 1_000_000 * spec.target_security_bits
}

/// Are all slots of a round secure: of the sumcheck, of the code-switch, and in
/// zero-knowledge mode of both trees of masks?
pub open spec fn round_secure(spec: SecuritySpec, round: RoundConfig, fresh: RoundFloors) -> bool {
    &&& secure(spec, round.sc().round_pow, round.sumcheck.analytic, fresh.sumcheck)
    &&& secure(spec, round.cs().pow, round.code_switch.analytic, fresh.code_switch)
    &&& round.mode matches RoundMode::ZeroKnowledge { t_ood, mask_oracle } ==> {
        let (sc, cs) = (mask_oracle.sumcheck_masks, mask_oracle.cs_mask);
        &&& secure(spec, sc.config.pow, sc.analytic, fresh.sumcheck_masks)
        &&& secure(spec, cs.config.pow, cs.analytic, fresh.cs_mask)
    }
}

/// Does a slot pass both checks?
spec fn slot_passes(spec: SecuritySpec, slot: PowSlot) -> bool {
    &&& slot.pow.bits <= spec.pow_budget.spec_bits()
    &&& target_fault(slot, spec.target_security_bits) is None
}

proof fn lemma_slot(spec: SecuritySpec, slot: PowSlot)
    ensures
        slot_passes(spec, slot) <==> secure(spec, slot.pow, slot.recorded, slot.recompute),
{
    assert(Bits::spec_whole(slot.pow.bits).micro == 1_000_000 * slot.pow.bits);
    assert(Bits::spec_whole(spec.target_security_bits).micro == 1_000_000
        * spec.target_security_bits);
}

spec fn all_pass(spec: SecuritySpec, slots: Seq<PowSlot>) -> bool {
    forall|i: int| 0 <= i < slots.len() ==> slot_passes(spec, #[trigger] slots[i])
}

proof fn lemma_all_pass_parts(spec: SecuritySpec, a: Seq<PowSlot>, b: Seq<PowSlot>)
    ensures
        all_pass(spec, a + b) <==> all_pass(spec, a) && all_pass(spec, b),
{
    if all_pass(spec, a + b) {
        assert forall|i: int| 0 <= i < a.len() implies slot_passes(spec, #[trigger] a[i]) by {
            assert((a + b)[i] == a[i]);
        }
        assert forall|i: int| 0 <= i < b.len() implies slot_passes(spec, #[trigger] b[i]) by {
            assert((a + b)[a.len() + i] == b[i]);
        }
    }
}

proof fn lemma_round_slots(spec: SecuritySpec, round: RoundConfig, fresh: RoundFloors)
    ensures
        all_pass(spec, round_slots(round, fresh)) <==> round_secure(spec, round, fresh),
{
    let slots = round_slots(round, fresh);
    lemma_slot(spec, slots[0]);
    lemma_slot(spec, slots[1]);
    if round.mode is ZeroKnowledge {
        lemma_slot(spec, slots[2]);
        lemma_slot(spec, slots[3]);
        assert(slots.len() == 4);
        if all_pass(spec, slots) {
            assert(slot_passes(spec, slots[0]) && slot_passes(spec, slots[1]));
            assert(slot_passes(spec, slots[2]) && slot_passes(spec, slots[3]));
        }
    } else {
        assert(slots.len() == 2);
        if all_pass(spec, slots) {
            assert(slot_passes(spec, slots[0]) && slot_passes(spec, slots[1]));
        }
    }
}

proof fn lemma_rounds_slots(
    spec: SecuritySpec,
    rounds: Seq<RoundConfig>,
    fresh: Seq<RoundFloors>,
    k: nat,
)
    ensures
        all_pass(spec, rounds_slots(rounds, fresh, k)) <==> forall|i: int|
            0 <= i < k ==> round_secure(spec, #[trigger] rounds[i], fresh[i]),
    decreases k,
{
    if k > 0 {
        let m = (k - 1) as nat;
        lemma_rounds_slots(spec, rounds, fresh, m);
        lemma_all_pass_parts(
            spec,
            rounds_slots(rounds, fresh, m),
            round_slots(rounds[m as int], fresh[m as int]),
        );
        lemma_round_slots(spec, rounds[m as int], fresh[m as int]);
    }
}

proof fn lemma_links(rounds: Seq<RoundConfig>, k: nat)
    requires
        k <= rounds.len(),
    ensures
        first_broken_link(rounds, k) is None <==> forall|i: int|
            0 < i < k ==> rounds[i - 1].cs().target.vector_size == (
            #[trigger] rounds[i]).cs().source.vector_size,
    decreases k,
{
    if k > 1 {
        lemma_links(rounds, (k - 1) as nat);
        assert(rounds[k - 1 - 1] == rounds[k - 2]);
    }
}

/// A plan passes its checks exactly if every round starts from the size that the one
/// before it switches to, the base case from the size that is left, and every slot of
/// every round and of the base case is secure.
pub proof fn law_accepted_plan_is_secure(plan: ProtocolConfig, fresh: PlanFloors)
    requires
        fresh.rounds@.len() == plan.rounds@.len(),
    ensures
        plan.fault(fresh) is None <==> ({
            let n = plan.rounds@.len();
            let base = plan.basecase;
            &&& forall|i: int|
                0 < i < n ==> plan.rounds@[i - 1].cs().target.vector_size == (
                #[trigger] plan.rounds@[i]).cs().source.vector_size
            &&& base.config.commit.vector_size == (if n == 0 {
                plan.tuning.vector_size
            } else {
                plan.rounds@[n - 1].cs().target.vector_size
            })
            &&& forall|i: int|
                0 <= i < n ==> round_secure(
                    plan.security,
                    #[trigger] plan.rounds@[i],
                    fresh.rounds@[i],
                )
            &&& secure(
                plan.security,
                base.config.sumcheck.round_pow,
                base.sumcheck_analytic,
                fresh.basecase_sumcheck,
            )
            &&& base.config.mode is ZeroKnowledge ==> secure(
                plan.security,
                base.config.pow,
                base.gamma_analytic,
                fresh.basecase_gamma,
            )
        }),
{
    let spec = plan.security;
    let n = plan.rounds@.len();
    let (a, b) = (rounds_slots(plan.rounds@, fresh.rounds@, n), plan.basecase_slots(fresh));
    lemma_links(plan.rounds@, n);
    law_plan_meets_target_per_slot(plan, fresh);
    lemma_rounds_slots(spec, plan.rounds@, fresh.rounds@, n);
    lemma_all_pass_parts(spec, a, b);
    let slots = plan.slots(fresh);
    assert(slots == a + b);
    assert(all_pass(spec, slots) <==> plan.pow_budget_fault(fresh) is None && plan.target_fault(
        fresh,
    ) is None) by {
        if all_pass(spec, slots) {
            assert forall|i: int| 0 <= i < slots.len() implies (#[trigger] slots[i]).pow.bits
                <= spec.pow_budget.spec_bits() && target_fault(
                slots[i],
                spec.target_security_bits,
            ) is None by {
                assert(slot_passes(spec, slots[i]));
            }
        }
    }
    lemma_slot(spec, b[0]);
    if plan.basecase.config.mode is ZeroKnowledge {
        assert(b.len() == 2);
        lemma_slot(spec, b[1]);
        if all_pass(spec, b) {
            assert(slot_passes(spec, b[0]) && slot_passes(spec, b[1]));
        }
    } else {
        assert(b.len() == 1);
        if all_pass(spec, b) {
            assert(slot_passes(spec, b[0]));
        }
    }
}

/// The plan's level is below those of all parts, and is that of one of them.
pub proof fn law_plan_level_is_attained(
    rounds: Seq<RoundConfig>,
    fresh: Seq<RoundFloors>,
    basecase: Bits,
    k: nat,
    level: nat,
)
    ensures
        level <= plan_analytic(rounds, fresh, basecase, k).micro <==> {
            &&& level <= basecase.micro
            &&& forall|i: int|
                0 <= i < k ==> {
                    &&& level <= fresh[i].sumcheck.micro
                    &&& level <= fresh[i].code_switch.micro
                    &&& (#[trigger] rounds[i]).mode matches RoundMode::ZeroKnowledge {
                        t_ood,
                        mask_oracle,
                    } ==> level <= mask_oracle.sumcheck_masks.analytic.micro && level
                        <= mask_oracle.cs_mask.analytic.micro
                }
        },
    decreases k,
{
    if k > 0 {
        law_plan_level_is_attained(rounds, fresh, basecase, (k - 1) as nat, level);
    }
}

/// The level of the base case is below that of its sumcheck, and in zero-knowledge mode
/// below that of its combination, and is no lower than it must be.
pub proof fn law_basecase_level(cfg: crate::basecase::Config, sumcheck: Bits, gamma: Bits, level: nat)
    ensures
        level <= cfg.spec_analytic(sumcheck, gamma).micro <==> {
            &&& level <= sumcheck.micro
            &&& cfg.mode is ZeroKnowledge ==> level <= gamma.micro
        },
{
}

/// Does the most work that a slot may ask for lift the floor to the target?
pub open spec fn reachable(spec: SecuritySpec, floor: Bits) -> bool {
    let most = if spec.pow_budget.spec_bits() < 60 {
        spec.pow_budget.spec_bits()
    } else {
        60u32
    };
    floor.micro + 1_000_000 * most >= 1_000_000 * spec.target_security_bits
}

/// A slot is ground exactly if the target can be reached.
pub proof fn law_slot_is_refused_only_if_unreachable(spec: SecuritySpec, floor: Bits, pow: Pow)
    ensures
        ground_at(spec, floor, pow) is Ok <==> reachable(spec, floor),
{
    let most = if spec.pow_budget.spec_bits() < 60 {
        spec.pow_budget.spec_bits()
    } else {
        60u32
    };
    law_slot_is_ground(spec, floor, pow, most as nat);
}

/// A round is built exactly if the target can be reached in each of its slots: those of
/// the sumcheck and of the code-switch, and with masks those of both trees.
pub proof fn law_round_is_refused_only_if_unreachable(spec: SecuritySpec, index: usize, quote: RoundQuote)
    ensures
        round_fault(spec, index, quote) is None <==> {
            &&& reachable(spec, quote.sumcheck_floor)
            &&& reachable(spec, quote.code_switch_floor)
            &&& quote.masks matches Some(m) ==> reachable(spec, m.sumcheck_masks_floor)
                && reachable(spec, m.cs_mask_floor)
        },
{
    let masks = Pow::RoundMaskProximity { index };
    law_slot_is_refused_only_if_unreachable(spec, quote.sumcheck_floor, Pow::RoundSumcheck { index });
    law_slot_is_refused_only_if_unreachable(
        spec,
        quote.code_switch_floor,
        Pow::RoundCodeSwitch { index },
    );
    if let Some(m) = quote.masks {
        law_slot_is_refused_only_if_unreachable(spec, m.sumcheck_masks_floor, masks);
        law_slot_is_refused_only_if_unreachable(spec, m.cs_mask_floor, masks);
    }
}

/// All rounds are built exactly if each is.
pub proof fn law_rounds_are_refused_one_by_one(
    spec: SecuritySpec,
    shapes: Seq<RoundShape>,
    quotes: Seq<RoundQuote>,
    k: nat,
)
    ensures
        first_round_fault(spec, shapes, quotes, k) is None <==> forall|i: int|
            0 <= i < k ==> round_fault(
                spec,
                shapes[i].round_slot.spec_index(),
                #[trigger] quotes[i],
            ) is None,
    decreases k,
{
    if k > 0 {
        law_rounds_are_refused_one_by_one(spec, shapes, quotes, (k - 1) as nat);
        assert(round_fault(
            spec,
            shapes[k - 1].round_slot.spec_index(),
            quotes[k - 1],
        ) == round_fault(spec, shapes[k - 1].round_slot.spec_index(), quotes[k - 1]));
    }
}

/// The base case is planned exactly if the target can be reached by its sumcheck, and in
/// zero-knowledge mode by its combination; without zero knowledge the combination asks for
/// no work.
pub proof fn law_basecase_is_refused_only_if_unreachable(
    spec: SecuritySpec,
    sumcheck: Bits,
    gamma: Bits,
)
    ensures
        planned(spec, sumcheck, gamma) is Ok <==> {
            &&& reachable(spec, sumcheck)
            &&& spec.mode is ZeroKnowledge ==> reachable(spec, gamma)
        },
        planned(spec, sumcheck, gamma) matches Ok((first, second)) ==> {
            &&& sumcheck.micro + 1_000_000 * first.bits >= 1_000_000 * spec.target_security_bits
            &&& spec.mode is ZeroKnowledge ==> gamma.micro + 1_000_000 * second.bits >= 1_000_000
                * spec.target_security_bits
            &&& spec.mode is Standard ==> second.bits == 0
        },
{
    law_slot_is_refused_only_if_unreachable(spec, sumcheck, Pow::BasecaseSumcheck);
    law_slot_is_refused_only_if_unreachable(spec, gamma, Pow::BasecaseGammaCombination);
    law_slot_is_ground(spec, sumcheck, Pow::BasecaseSumcheck, 0);
    law_slot_is_ground(spec, gamma, Pow::BasecaseGammaCombination, 0);
}

/// A capped sum is the sum where that is a machine size, and the greatest one otherwise.
pub proof fn law_capped_sum(a: nat, b: nat)
    ensures
        capped_sum(a, b) <= usize::MAX,
        capped_sum(a, b) <= a + b,
        capped_sum(a, b) == a + b || capped_sum(a, b) == usize::MAX,
{
}

} // verus!
