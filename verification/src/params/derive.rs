//! Deriving a plan from what is asked for and the codes that were chosen for it.

use crate::arith::{ceil_log2_spec, is_pow2, lemma_ceil_log2_monotone, lemma_ceil_log2_pow2};
use crate::bits::Bits;
use crate::irs_commit;
use crate::irs_laws::same_shape;
use crate::params::basecase as basecase_params;
use crate::params::basecase::planned;
use crate::params::build_round::{
    build_round_config, ground_is, quote_fits, round_built, round_fault, RoundQuote,
};
use crate::params::config::{BasecasePlan, ProtocolConfig, RoundConfig};
use crate::params::error::{law_ground_closes_gap, DeriveError, Pow};
use crate::params::batched::config::irs_shape_matches;
use crate::params::layout::{
    has_round, layout_from, round_layout, shape_at, LayoutError, RoundLayout, RoundShape,
};
use crate::params::spec::{SecuritySpec, TuningSpec};
use crate::params::validate::{
    law_plan_meets_target_per_slot, rounds_slots, target_fault, PlanFloors, PowSlot, RoundFloors,
};
use crate::sumcheck::max_table_len;
use vstd::arithmetic::power2::{lemma2_to64, pow2};
use vstd::prelude::*;

verus! {

/// The codes of all rounds and of the base case, and the base case's analytic floors.
#[derive(Debug)]
pub struct PlanQuotes {
    pub rounds: Vec<RoundQuote>,
    pub commit: irs_commit::Config,
    pub sumcheck_floor: Bits,
    pub gamma_floor: Bits,
}

/// The first of the first `k` rounds that cannot be built.
pub open spec fn first_round_fault(
    spec: SecuritySpec,
    shapes: Seq<RoundShape>,
    quotes: Seq<RoundQuote>,
    k: nat,
) -> Option<DeriveError>
    decreases k,
{
    if k == 0 {
        None
    } else {
        match first_round_fault(spec, shapes, quotes, (k - 1) as nat) {
            Some(e) => Some(e),
            None => round_fault(spec, shapes[k - 1].round_slot.spec_index(), quotes[k - 1]),
        }
    }
}

proof fn lemma_first_round_fault(
    spec: SecuritySpec,
    shapes: Seq<RoundShape>,
    quotes: Seq<RoundQuote>,
    j: nat,
    k: nat,
)
    requires
        j <= k,
        first_round_fault(spec, shapes, quotes, j) is Some,
    ensures
        first_round_fault(spec, shapes, quotes, k) == first_round_fault(spec, shapes, quotes, j),
    decreases k,
{
    if j < k {
        lemma_first_round_fault(spec, shapes, quotes, j, (k - 1) as nat);
    }
}

/// What is wrong with a tuning, apart from its codes.
pub open spec fn layout_fault(tuning: TuningSpec) -> Option<LayoutError> {
    if !is_pow2(tuning.vector_size as nat) {
        Some(LayoutError::VectorSizeNotPowerOfTwo { vector_size: tuning.vector_size })
    } else if tuning.folding_factor.spec_min() < 1 {
        Some(LayoutError::FoldingFactorBelowOne { min: tuning.folding_factor.spec_min() })
    } else if tuning.starting_log_inv_rate < 1 {
        Some(LayoutError::StartingRateBelowOne)
    } else {
        None
    }
}

/// The shapes of a tuning's rounds.
pub open spec fn shapes_of(tuning: TuningSpec) -> Seq<RoundShape> {
    layout_from(
        tuning,
        ceil_log2_spec(tuning.vector_size as nat),
        tuning.starting_log_inv_rate,
        0,
    ).0
}

/// Is there a fitting code for every round, and for the base case?
pub open spec fn quotes_fit(spec: SecuritySpec, tuning: TuningSpec, quotes: PlanQuotes) -> bool {
    let shapes = shapes_of(tuning);
    &&& quotes.rounds@.len() == shapes.len()
    &&& forall|i: int|
        0 <= i < shapes.len() ==> quote_fits(spec, #[trigger] shapes[i], quotes.rounds@[i])
    &&& quotes.commit.wf()
    &&& quotes.commit.interleaving_depth == 1
    &&& quotes.commit.num_vectors == 1
    &&& 0 < quotes.commit.vector_size <= max_table_len()
}

/// Is this the plan that the codes give?
pub open spec fn plan_built(spec: SecuritySpec, tuning: TuningSpec, quotes: PlanQuotes, plan: ProtocolConfig) -> bool {
    let shapes = shapes_of(tuning);
    &&& plan.security == spec
    &&& plan.tuning == tuning
    &&& plan.rounds@.len() == shapes.len()
    &&& forall|i: int|
        0 <= i < shapes.len() ==> round_built(
            spec,
            #[trigger] shapes[i],
            quotes.rounds@[i],
            plan.rounds@[i],
        )
    &&& plan.basecase.config.wf()
    &&& plan.basecase.config.commit == quotes.commit
    &&& plan.basecase.sumcheck_analytic == quotes.sumcheck_floor
    &&& plan.basecase.gamma_analytic == quotes.gamma_floor
    &&& plan.basecase.config.mode is ZeroKnowledge <==> spec.mode is ZeroKnowledge
    &&& ground_is(
        spec,
        quotes.sumcheck_floor,
        Pow::BasecaseSumcheck,
        plan.basecase.config.sumcheck.round_pow,
    )
    &&& spec.mode is ZeroKnowledge ==> ground_is(
        spec,
        quotes.gamma_floor,
        Pow::BasecaseGammaCombination,
        plan.basecase.config.pow,
    )
}

/// Does every round start from a code of the shape that the round before it switches to,
/// and the base case from that of the last round?
pub open spec fn quotes_chain(quotes: PlanQuotes) -> bool {
    let n = quotes.rounds@.len();
    &&& forall|i: int|
        0 < i < n ==> same_shape(
            &quotes.rounds@[i - 1].target,
            &(#[trigger] quotes.rounds@[i]).source,
        )
    &&& n > 0 ==> same_shape(&quotes.rounds@[n - 1].target, &quotes.commit)
    &&& n > 0 ==> quotes.rounds@[0].source.num_vectors == 1
}

/// Do the codes chain?
pub fn codes_chain(quotes: &PlanQuotes) -> (r: bool)
    ensures
        r == quotes_chain(*quotes),
{
    let n: usize = quotes.rounds.len();
    if n == 0 {
        return true;
    }
    for i in 0..n
        invariant
            n == quotes.rounds@.len(),
            forall|j: int|
                0 < j < i ==> same_shape(
                    &quotes.rounds@[j - 1].target,
                    &(#[trigger] quotes.rounds@[j]).source,
                ),
    {
        if i > 0 && !irs_shape_matches(&quotes.rounds[i - 1].target, &quotes.rounds[i].source) {
            assert(!same_shape(&quotes.rounds@[i - 1].target, &quotes.rounds@[i as int].source));
            return false;
        }
    }
    irs_shape_matches(&quotes.rounds[n - 1].target, &quotes.commit)
        && quotes.rounds[0].source.num_vectors == 1
}

proof fn lemma_layout_len(tuning: TuningSpec, vars: nat, rate: u32, round: nat)
    ensures
        layout_from(tuning, vars, rate, round).0.len() <= vars,
    decreases vars,
{
    if has_round(tuning, vars, round) {
        let fold = tuning.folding_factor.spec_at_round(round);
        let rate2 = shape_at(tuning, vars, rate, round).target_log_inv_rate;
        lemma_layout_len(tuning, (vars - fold) as nat, rate2, round + 1);
    }
}

/// A derived plan whose codes chain is well formed: it can prove and verify.
#[verifier::rlimit(40)]
pub proof fn law_derived_plan_is_wf(
    spec: SecuritySpec,
    tuning: TuningSpec,
    quotes: PlanQuotes,
    plan: ProtocolConfig,
)
    requires
        layout_fault(tuning) is None,
        quotes_fit(spec, tuning, quotes),
        quotes_chain(quotes),
        plan_built(spec, tuning, quotes, plan),
        plan.chain_fault() is None,
    ensures
        plan.wf(),
{
    let shapes = shapes_of(tuning);
    let vars = ceil_log2_spec(tuning.vector_size as nat);
    lemma_layout_len(tuning, vars, tuning.starting_log_inv_rate, 0);
    assert(vars <= 64) by {
        lemma2_to64();
        lemma_ceil_log2_monotone(tuning.vector_size as nat, pow2(64));
        lemma_ceil_log2_pow2(64);
    }
    assert forall|i: int| 0 <= i < plan.rounds@.len() implies (#[trigger] plan.rounds@[i]).wf()
        && plan.rounds@[i].cs().source == quotes.rounds@[i].source && plan.rounds@[i].cs().target
        == quotes.rounds@[i].target by {
        assert(round_built(spec, shapes[i], quotes.rounds@[i], plan.rounds@[i]));
    }
    assert forall|i: int| 0 < i < plan.rounds@.len() implies same_shape(
        &plan.rounds@[i - 1].cs().target,
        &(#[trigger] plan.rounds@[i]).cs().source,
    ) by {
        assert(plan.rounds@[i - 1].cs().target == quotes.rounds@[i - 1].target);
        assert(quotes.rounds@[i].source == plan.rounds@[i].cs().source);
    }
    if shapes.len() > 0 {
        assert(quote_fits(spec, shapes[0], quotes.rounds@[0]));
        assert(shapes[0] == shape_at(tuning, vars, tuning.starting_log_inv_rate, 0));
        assert(plan.rounds@[0].cs().source == quotes.rounds@[0].source);
        assert(plan.rounds@[shapes.len() - 1].cs().target == quotes.rounds@[shapes.len()
            - 1].target);
    }
}

/// The floors of one round.
pub open spec fn floors_of(quote: RoundQuote) -> RoundFloors {
    let zero = Bits { micro: 0 };
    RoundFloors {
        sumcheck: quote.sumcheck_floor,
        code_switch: quote.code_switch_floor,
        sumcheck_masks: match quote.masks {
            None => zero,
            Some(m) => m.sumcheck_masks_floor,
        },
        cs_mask: match quote.masks {
            None => zero,
            Some(m) => m.cs_mask_floor,
        },
    }
}

/// Are these the floors that the codes were quoted with?
pub open spec fn floors_quoted(quotes: PlanQuotes, floors: PlanFloors) -> bool {
    &&& floors.rounds@.len() == quotes.rounds@.len()
    &&& forall|i: int|
        0 <= i < floors.rounds@.len() ==> #[trigger] floors.rounds@[i] == floors_of(quotes.rounds@[i])
    &&& floors.basecase_sumcheck == quotes.sumcheck_floor
    &&& floors.basecase_gamma == quotes.gamma_floor
}

/// A slot that was ground passes both checks.
proof fn lemma_ground_slot(spec: SecuritySpec, slot: PowSlot)
    requires
        ground_is(spec, slot.recorded, slot.kind, slot.pow),
        slot.recompute == slot.recorded,
    ensures
        slot.pow.bits <= spec.pow_budget.spec_bits(),
        target_fault(slot, spec.target_security_bits) is None,
{
    law_ground_closes_gap(spec, slot.recorded, slot.kind);
}

/// Every slot of a plan was ground.
proof fn lemma_slots_ground(
    spec: SecuritySpec,
    tuning: TuningSpec,
    quotes: PlanQuotes,
    plan: ProtocolConfig,
    floors: PlanFloors,
    k: nat,
    i: int,
)
    requires
        plan_built(spec, tuning, quotes, plan),
        quotes.rounds@.len() == plan.rounds@.len(),
        floors_quoted(quotes, floors),
        k <= plan.rounds@.len(),
        0 <= i < rounds_slots(plan.rounds@, floors.rounds@, k).len(),
    ensures
        ({
            let slot = rounds_slots(plan.rounds@, floors.rounds@, k)[i];
            ground_is(spec, slot.recorded, slot.kind, slot.pow) && slot.recompute == slot.recorded
        }),
    decreases k,
{
    let m = (k - 1) as nat;
    let before = rounds_slots(plan.rounds@, floors.rounds@, m);
    if i < before.len() {
        lemma_slots_ground(spec, tuning, quotes, plan, floors, m, i);
    } else {
        let shapes = shapes_of(tuning);
        assert(round_built(spec, shapes[m as int], quotes.rounds@[m as int], plan.rounds@[m as int]));
        assert(floors.rounds@[m as int] == floors_of(quotes.rounds@[m as int]));
    }
}

/// A derived plan meets the target in every slot, within the budget.
pub proof fn law_derived_plan_meets_target(
    spec: SecuritySpec,
    tuning: TuningSpec,
    quotes: PlanQuotes,
    plan: ProtocolConfig,
    floors: PlanFloors,
)
    requires
        plan_built(spec, tuning, quotes, plan),
        quotes.rounds@.len() == plan.rounds@.len(),
        floors_quoted(quotes, floors),
    ensures
        plan.pow_budget_fault(floors) is None,
        plan.target_fault(floors) is None,
{
    law_plan_meets_target_per_slot(plan, floors);
    let slots = plan.slots(floors);
    let n = rounds_slots(plan.rounds@, floors.rounds@, plan.rounds@.len()).len();
    assert forall|i: int| 0 <= i < slots.len() implies (#[trigger] slots[i]).pow.bits
        <= spec.pow_budget.spec_bits() && target_fault(slots[i], spec.target_security_bits) is None by {
        if i < n {
            lemma_slots_ground(spec, tuning, quotes, plan, floors, plan.rounds@.len(), i);
        }
        lemma_ground_slot(spec, slots[i]);
    }
}

impl ProtocolConfig {
    /// The plan for what is asked for, given the codes of all rounds and of the base
    /// case. An error if there is no layout, if a slot cannot be ground, or if the sizes
    /// do not chain.
    pub fn derive(spec: SecuritySpec, tuning: TuningSpec, quotes: &PlanQuotes) -> (r: Result<
        ProtocolConfig,
        DeriveError,
    >)
        requires
            layout_fault(tuning) is None ==> quotes_fit(spec, tuning, *quotes),
        ensures
            match layout_fault(tuning) {
                Some(e) => r == Err::<ProtocolConfig, DeriveError>(DeriveError::Layout(e)),
                None => match first_round_fault(
                    spec,
                    shapes_of(tuning),
                    quotes.rounds@,
                    shapes_of(tuning).len(),
                ) {
                    Some(e) => r == Err::<ProtocolConfig, DeriveError>(e),
                    None => match planned(spec, quotes.sumcheck_floor, quotes.gamma_floor) {
                        Err(e) => r == Err::<ProtocolConfig, DeriveError>(e),
                        Ok(works) => exists|plan: ProtocolConfig|
                            {
                                &&& #[trigger] plan_built(spec, tuning, *quotes, plan)
                                &&& match plan.chain_fault() {
                                    Some(e) => r == Err::<ProtocolConfig, DeriveError>(e),
                                    None => r == Ok::<ProtocolConfig, DeriveError>(plan),
                                }
                            },
                    },
                },
            },
    {
        let layout: RoundLayout = match round_layout(&tuning) {
            Ok(l) => l,
            Err(e) => {
                return Err(DeriveError::from(e));
            },
        };
        let ghost shapes = shapes_of(tuning);
        let n: usize = layout.shapes.len();
        let mut rounds: Vec<RoundConfig> = Vec::new();
        let mut floors: Vec<RoundFloors> = Vec::new();
        for i in 0..n
            invariant
                n == shapes.len(),
                shapes == shapes_of(tuning),
                layout_fault(tuning) is None,
                layout.shapes@ == shapes,
                quotes_fit(spec, tuning, *quotes),
                first_round_fault(spec, shapes, quotes.rounds@, i as nat) is None,
                rounds@.len() == i,
                floors@.len() == i,
                forall|j: int|
                    0 <= j < i ==> round_built(
                        spec,
                        #[trigger] shapes[j],
                        quotes.rounds@[j],
                        rounds@[j],
                    ),
                forall|j: int| 0 <= j < i ==> #[trigger] floors@[j] == floors_of(quotes.rounds@[j]),
        {
            let quote: &RoundQuote = &quotes.rounds[i];
            assert(quote_fits(spec, shapes[i as int], quotes.rounds@[i as int]));
            match build_round_config(&spec, &layout.shapes[i], quote) {
                Ok(round) => {
                    rounds.push(round);
                },
                Err(e) => {
                    proof {
                        lemma_first_round_fault(
                            spec,
                            shapes,
                            quotes.rounds@,
                            (i + 1) as nat,
                            n as nat,
                        );
                    }
                    return Err(e);
                },
            }
            floors.push(quoted_floors(quote));
        }
        let basecase: BasecasePlan = match basecase_params::solve_with_commit(
            &spec,
            quotes.commit,
            quotes.sumcheck_floor,
            quotes.gamma_floor,
        ) {
            Ok(b) => b,
            Err(e) => {
                return Err(e);
            },
        };
        let plan = ProtocolConfig { security: spec, tuning, rounds, basecase };
        let fresh = PlanFloors {
            rounds: floors,
            basecase_sumcheck: quotes.sumcheck_floor,
            basecase_gamma: quotes.gamma_floor,
        };
        proof {
            assert(plan_built(spec, tuning, *quotes, plan));
            law_derived_plan_meets_target(spec, tuning, *quotes, plan, fresh);
        }
        match plan.validate(&fresh) {
            Ok(()) => Ok(plan),
            Err(e) => Err(e),
        }
    }
}

/// The floors of one round.
fn quoted_floors(quote: &RoundQuote) -> (r: RoundFloors)
    ensures
        r == floors_of(*quote),
{
    let (sumcheck_masks, cs_mask): (Bits, Bits) = match &quote.masks {
        None => (Bits { micro: 0 }, Bits { micro: 0 }),
        Some(m) => (m.sumcheck_masks_floor, m.cs_mask_floor),
    };
    RoundFloors {
        sumcheck: quote.sumcheck_floor,
        code_switch: quote.code_switch_floor,
        sumcheck_masks,
        cs_mask,
    }
}

} // verus!
