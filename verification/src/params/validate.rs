//! Checks of a derived plan: sizes chain from round to round, and every proof-of-work
//! slot is within the budget and reaches the target.

use crate::basecase::BasecaseMode;
use crate::bits::Bits;
use crate::params::config::{MaskOracleConfig, ProtocolConfig, RoundConfig, RoundMode};
use crate::params::error::{ChainSource, ChainTarget, DeriveError, Pow};
use crate::proof_of_work;
use vstd::prelude::*;

verus! {

/// How far a recorded floor may be from a fresh one, and the work from the target: a
/// thousandth of a bit.
pub const SLACK: u64 = 1000;

/// One proof-of-work slot of a plan: what it is for, its work, the analytic floor
/// recorded when it was solved, and one computed anew.
#[derive(Clone, Copy, Debug, PartialEq, Eq, Structural)]
pub struct PowSlot {
    pub kind: Pow,
    pub pow: proof_of_work::Config,
    pub recorded: Bits,
    pub recompute: Bits,
}

/// Analytic floors of one round, computed anew. Those of the masks count in
/// zero-knowledge rounds only.
#[derive(Clone, Copy, Debug, PartialEq, Eq, Structural)]
pub struct RoundFloors {
    pub sumcheck: Bits,
    pub code_switch: Bits,
    pub sumcheck_masks: Bits,
    pub cs_mask: Bits,
}

/// Analytic floors of a plan, computed anew.
#[derive(Debug)]
pub struct PlanFloors {
    pub rounds: Vec<RoundFloors>,
    pub basecase_sumcheck: Bits,
    pub basecase_gamma: Bits,
}

/// The slots of one round.
pub open spec fn round_slots(round: RoundConfig, fresh: RoundFloors) -> Seq<PowSlot> {
    let index = round.round_index;
    let always = seq![
        PowSlot {
            kind: Pow::RoundSumcheck { index },
            pow: round.sc().round_pow,
            recorded: round.sumcheck.analytic,
            recompute: fresh.sumcheck,
        },
        PowSlot {
            kind: Pow::RoundCodeSwitch { index },
            pow: round.cs().pow,
            recorded: round.code_switch.analytic,
            recompute: fresh.code_switch,
        },
    ];
    match round.mode {
        RoundMode::Standard => always,
        RoundMode::ZeroKnowledge { t_ood, mask_oracle } => always + seq![
            PowSlot {
                kind: Pow::RoundMaskProximity { index },
                pow: mask_oracle.sumcheck_masks.config.pow,
                recorded: mask_oracle.sumcheck_masks.analytic,
                recompute: fresh.sumcheck_masks,
            },
            PowSlot {
                kind: Pow::RoundMaskProximity { index },
                pow: mask_oracle.cs_mask.config.pow,
                recorded: mask_oracle.cs_mask.analytic,
                recompute: fresh.cs_mask,
            },
        ],
    }
}

/// The slots of the first `k` rounds.
pub open spec fn rounds_slots(rounds: Seq<RoundConfig>, fresh: Seq<RoundFloors>, k: nat) -> Seq<PowSlot>
    decreases k,
{
    if k == 0 {
        Seq::empty()
    } else {
        rounds_slots(rounds, fresh, (k - 1) as nat) + round_slots(rounds[k - 1], fresh[k - 1])
    }
}

/// Is the slot's work over the budget?
pub open spec fn budget_fault(slot: PowSlot, max: u32) -> Option<DeriveError> {
    if slot.pow.bits > max {
        Some(
            DeriveError::PowBudgetExceeded {
                pow: slot.kind,
                required: Bits::spec_whole(slot.pow.bits),
                max: Bits::spec_whole(max),
            },
        )
    } else {
        None
    }
}

/// Has the slot's floor drifted, or does its work not reach the target?
pub open spec fn target_fault(slot: PowSlot, target: u32) -> Option<DeriveError> {
    let goal = Bits::spec_whole(target);
    if slot.recorded.micro > slot.recompute.micro + SLACK || slot.recompute.micro
        > slot.recorded.micro + SLACK {
        Some(
            DeriveError::AnalyticDrift {
                pow: slot.kind,
                recorded: slot.recorded,
                recompute: slot.recompute,
            },
        )
    } else if slot.recorded.micro + Bits::spec_whole(slot.pow.bits).micro + SLACK < goal.micro {
        Some(
            DeriveError::SecurityTargetNotMet {
                pow: slot.kind,
                analytic: slot.recorded,
                pow_bits: Bits::spec_whole(slot.pow.bits),
                target: goal,
            },
        )
    } else {
        None
    }
}

/// The first of the first `k` slots that is over the budget.
pub open spec fn first_over_budget(slots: Seq<PowSlot>, max: u32, k: nat) -> Option<DeriveError>
    decreases k,
{
    if k == 0 {
        None
    } else {
        match first_over_budget(slots, max, (k - 1) as nat) {
            Some(e) => Some(e),
            None => budget_fault(slots[k - 1], max),
        }
    }
}

/// The first of the first `k` slots that misses the target.
pub open spec fn first_off_target(slots: Seq<PowSlot>, target: u32, k: nat) -> Option<DeriveError>
    decreases k,
{
    if k == 0 {
        None
    } else {
        match first_off_target(slots, target, (k - 1) as nat) {
            Some(e) => Some(e),
            None => target_fault(slots[k - 1], target),
        }
    }
}

/// Does a round not start from the size that the one before it leaves?
pub open spec fn link_fault(prev: RoundConfig, next: RoundConfig) -> Option<DeriveError> {
    let expected = prev.cs().target.vector_size;
    let found = next.cs().source.vector_size;
    if expected != found {
        Some(
            DeriveError::RoundChainBroken {
                from: ChainSource::Round(prev.round_index),
                to: ChainTarget::NextRound(next.round_index),
                expected,
                found,
            },
        )
    } else {
        None
    }
}

/// The first broken link before round `k`.
pub open spec fn first_broken_link(rounds: Seq<RoundConfig>, k: nat) -> Option<DeriveError>
    decreases k,
{
    if k <= 1 {
        None
    } else {
        match first_broken_link(rounds, (k - 1) as nat) {
            Some(e) => Some(e),
            None => link_fault(rounds[k - 2], rounds[k - 1]),
        }
    }
}

/// `Err` with the fault, if there is one.
pub open spec fn outcome(fault: Option<DeriveError>) -> Result<(), DeriveError> {
    match fault {
        Some(e) => Err(e),
        None => Ok(()),
    }
}

/// The smaller of two levels.
pub open spec fn lower(a: Bits, b: Bits) -> Bits {
    if a.micro <= b.micro {
        a
    } else {
        b
    }
}

fn min_bits(a: Bits, b: Bits) -> (r: Bits)
    ensures
        r == lower(a, b),
{
    if a.micro <= b.micro {
        a
    } else {
        b
    }
}

impl MaskOracleConfig {
    /// The analytic floor of both trees of masks: the smaller one.
    pub fn analytic_bits(&self) -> (r: Bits)
        ensures
            r == lower(self.sumcheck_masks.analytic, self.cs_mask.analytic),
    {
        min_bits(self.sumcheck_masks.analytic, self.cs_mask.analytic)
    }
}

impl RoundConfig {
    /// The analytic floor of a round: the smallest of its sub-protocols' ones.
    pub open spec fn spec_analytic(&self, fresh: RoundFloors) -> Bits {
        let both = lower(fresh.sumcheck, fresh.code_switch);
        match self.mode {
            RoundMode::Standard => both,
            RoundMode::ZeroKnowledge { t_ood, mask_oracle } => lower(
                both,
                lower(mask_oracle.sumcheck_masks.analytic, mask_oracle.cs_mask.analytic),
            ),
        }
    }

    /// The analytic floor of a round: the smallest of its sub-protocols' ones.
    pub fn analytic_bits(&self, fresh: &RoundFloors) -> (r: Bits)
        ensures
            r == self.spec_analytic(*fresh),
    {
        let both: Bits = min_bits(fresh.sumcheck, fresh.code_switch);
        match &self.mode {
            RoundMode::Standard => both,
            RoundMode::ZeroKnowledge { t_ood, mask_oracle } => min_bits(
                both,
                mask_oracle.analytic_bits(),
            ),
        }
    }
}

/// The smallest floor of the first `k` rounds and of the base case.
pub open spec fn plan_analytic(
    rounds: Seq<RoundConfig>,
    fresh: Seq<RoundFloors>,
    basecase: Bits,
    k: nat,
) -> Bits
    decreases k,
{
    if k == 0 {
        basecase
    } else {
        lower(
            plan_analytic(rounds, fresh, basecase, (k - 1) as nat),
            rounds[k - 1].spec_analytic(fresh[k - 1]),
        )
    }
}

/// The plan's floor is below every round's and the base case's.
pub proof fn law_plan_analytic_is_lowest(
    rounds: Seq<RoundConfig>,
    fresh: Seq<RoundFloors>,
    basecase: Bits,
    k: nat,
)
    ensures
        plan_analytic(rounds, fresh, basecase, k).micro <= basecase.micro,
        forall|i: int|
            0 <= i < k ==> plan_analytic(rounds, fresh, basecase, k).micro <= (
            #[trigger] rounds[i]).spec_analytic(fresh[i]).micro,
    decreases k,
{
    if k > 0 {
        law_plan_analytic_is_lowest(rounds, fresh, basecase, (k - 1) as nat);
    }
}

impl crate::basecase::Config {
    /// The analytic floor of the base case, given those of its two slots: that of the
    /// combination counts in zero-knowledge mode only.
    pub open spec fn spec_analytic(&self, sumcheck: Bits, gamma: Bits) -> Bits {
        match self.mode {
            BasecaseMode::Standard => sumcheck,
            BasecaseMode::ZeroKnowledge => lower(sumcheck, gamma),
        }
    }

    /// The analytic floor of the base case, given those of its two slots: that of the
    /// combination counts in zero-knowledge mode only.
    pub fn analytic_bits(&self, sumcheck: Bits, gamma: Bits) -> (r: Bits)
        ensures
            r == self.spec_analytic(sumcheck, gamma),
    {
        match self.mode {
            BasecaseMode::Standard => sumcheck,
            BasecaseMode::ZeroKnowledge => min_bits(sumcheck, gamma),
        }
    }
}

impl ProtocolConfig {
    /// The slots of the base case.
    pub open spec fn basecase_slots(&self, fresh: PlanFloors) -> Seq<PowSlot> {
        let sumcheck = PowSlot {
            kind: Pow::BasecaseSumcheck,
            pow: self.basecase.config.sumcheck.round_pow,
            recorded: self.basecase.sumcheck_analytic,
            recompute: fresh.basecase_sumcheck,
        };
        match self.basecase.config.mode {
            BasecaseMode::Standard => seq![sumcheck],
            BasecaseMode::ZeroKnowledge => seq![
                sumcheck,
                PowSlot {
                    kind: Pow::BasecaseGammaCombination,
                    pow: self.basecase.config.pow,
                    recorded: self.basecase.gamma_analytic,
                    recompute: fresh.basecase_gamma,
                },
            ],
        }
    }

    /// Every slot, those of the rounds in order and then those of the base case.
    pub open spec fn slots(&self, fresh: PlanFloors) -> Seq<PowSlot> {
        rounds_slots(self.rounds@, fresh.rounds@, self.rounds@.len()) + self.basecase_slots(fresh)
    }

    /// The first place where the sizes do not chain.
    pub open spec fn chain_fault(&self) -> Option<DeriveError> {
        let n = self.rounds@.len();
        match first_broken_link(self.rounds@, n) {
            Some(e) => Some(e),
            None => {
                let found = self.basecase.config.commit.vector_size;
                let (from, expected) = if n == 0 {
                    (ChainSource::Tuning, self.tuning.vector_size)
                } else {
                    (
                        ChainSource::Round(self.rounds@[n - 1].round_index),
                        self.rounds@[n - 1].cs().target.vector_size,
                    )
                };
                if expected != found {
                    Some(
                        DeriveError::RoundChainBroken {
                            from,
                            to: ChainTarget::Basecase,
                            expected,
                            found,
                        },
                    )
                } else {
                    None
                }
            },
        }
    }

    /// The first slot over the budget.
    pub open spec fn pow_budget_fault(&self, fresh: PlanFloors) -> Option<DeriveError> {
        let slots = self.slots(fresh);
        first_over_budget(slots, self.security.pow_budget.spec_bits(), slots.len())
    }

    /// The first slot that misses the target.
    pub open spec fn target_fault(&self, fresh: PlanFloors) -> Option<DeriveError> {
        let slots = self.slots(fresh);
        first_off_target(slots, self.security.target_security_bits, slots.len())
    }

    /// The first fault of the plan: of its sizes, then of its work, then of its level.
    pub open spec fn fault(&self, fresh: PlanFloors) -> Option<DeriveError> {
        match self.chain_fault() {
            Some(e) => Some(e),
            None => match self.pow_budget_fault(fresh) {
                Some(e) => Some(e),
                None => self.target_fault(fresh),
            },
        }
    }

    /// Every proof-of-work slot of the plan, those of the rounds in order and then
    /// those of the base case, with the given fresh floors.
    pub fn pow_slots(&self, fresh: &PlanFloors) -> (r: Vec<PowSlot>)
        requires
            fresh.rounds@.len() == self.rounds@.len(),
        ensures
            r@ == self.slots(*fresh),
    {
        let mut slots: Vec<PowSlot> = Vec::new();
        let n: usize = self.rounds.len();
        for i in 0..n
            invariant
                n == self.rounds@.len(),
                fresh.rounds@.len() == n,
                slots@ == rounds_slots(self.rounds@, fresh.rounds@, i as nat),
        {
            let round: &RoundConfig = &self.rounds[i];
            let floors: &RoundFloors = &fresh.rounds[i];
            let index: usize = round.round_index;
            slots.push(
                PowSlot {
                    kind: Pow::RoundSumcheck { index },
                    pow: round.sumcheck.config.round_pow,
                    recorded: round.sumcheck.analytic,
                    recompute: floors.sumcheck,
                },
            );
            slots.push(
                PowSlot {
                    kind: Pow::RoundCodeSwitch { index },
                    pow: round.code_switch.config.pow,
                    recorded: round.code_switch.analytic,
                    recompute: floors.code_switch,
                },
            );
            match &round.mode {
                RoundMode::Standard => {},
                RoundMode::ZeroKnowledge { t_ood, mask_oracle } => {
                    slots.push(
                        PowSlot {
                            kind: Pow::RoundMaskProximity { index },
                            pow: mask_oracle.sumcheck_masks.config.pow,
                            recorded: mask_oracle.sumcheck_masks.analytic,
                            recompute: floors.sumcheck_masks,
                        },
                    );
                    slots.push(
                        PowSlot {
                            kind: Pow::RoundMaskProximity { index },
                            pow: mask_oracle.cs_mask.config.pow,
                            recorded: mask_oracle.cs_mask.analytic,
                            recompute: floors.cs_mask,
                        },
                    );
                },
            }
            assert(slots@ =~= rounds_slots(self.rounds@, fresh.rounds@, (i + 1) as nat));
        }
        slots.push(
            PowSlot {
                kind: Pow::BasecaseSumcheck,
                pow: self.basecase.config.sumcheck.round_pow,
                recorded: self.basecase.sumcheck_analytic,
                recompute: fresh.basecase_sumcheck,
            },
        );
        match self.basecase.config.mode {
            BasecaseMode::Standard => {},
            BasecaseMode::ZeroKnowledge => {
                slots.push(
                    PowSlot {
                        kind: Pow::BasecaseGammaCombination,
                        pow: self.basecase.config.pow,
                        recorded: self.basecase.gamma_analytic,
                        recompute: fresh.basecase_gamma,
                    },
                );
            },
        }
        assert(slots@ =~= self.slots(*fresh));
        slots
    }

    /// Does every slot's recorded floor agree with the fresh one, and reach the target
    /// with its work?
    pub fn validate_security_target_met(&self, fresh: &PlanFloors) -> (r: Result<(), DeriveError>)
        requires
            fresh.rounds@.len() == self.rounds@.len(),
        ensures
            r == outcome(self.target_fault(*fresh)),
    {
        let slots: Vec<PowSlot> = self.pow_slots(fresh);
        let target: Bits = Bits::whole(self.security.target_security_bits);
        for i in 0..slots.len()
            invariant
                target == Bits::spec_whole(self.security.target_security_bits),
                slots@ == self.slots(*fresh),
                first_off_target(slots@, self.security.target_security_bits, i as nat) is None,
        {
            let slot: &PowSlot = &slots[i];
            let pow_bits: Bits = slot.pow.difficulty();
            if slot.recorded.abs_diff(slot.recompute).micro > SLACK {
                proof {
                    lemma_off_target(
                        slots@,
                        self.security.target_security_bits,
                        (i + 1) as nat,
                        slots@.len(),
                    );
                }
                return Err(
                    DeriveError::AnalyticDrift {
                        pow: slot.kind,
                        recorded: slot.recorded,
                        recompute: slot.recompute,
                    },
                );
            }
            if slot.recorded.micro.saturating_add(pow_bits.micro).saturating_add(SLACK)
                < target.micro {
                proof {
                    lemma_off_target(
                        slots@,
                        self.security.target_security_bits,
                        (i + 1) as nat,
                        slots@.len(),
                    );
                }
                return Err(
                    DeriveError::SecurityTargetNotMet {
                        pow: slot.kind,
                        analytic: slot.recorded,
                        pow_bits,
                        target,
                    },
                );
            }
        }
        Ok(())
    }

    /// Is every slot's work within the budget?
    pub fn validate_pow_budget(&self, fresh: &PlanFloors) -> (r: Result<(), DeriveError>)
        requires
            fresh.rounds@.len() == self.rounds@.len(),
        ensures
            r == outcome(self.pow_budget_fault(*fresh)),
    {
        let slots: Vec<PowSlot> = self.pow_slots(fresh);
        let max: Bits = Bits::whole(self.security.pow_budget.bits());
        for i in 0..slots.len()
            invariant
                max == Bits::spec_whole(self.security.pow_budget.spec_bits()),
                max.micro == self.security.pow_budget.spec_bits() * crate::bits::UNITS_PER_BIT,
                slots@ == self.slots(*fresh),
                first_over_budget(slots@, self.security.pow_budget.spec_bits(), i as nat) is None,
        {
            let required: Bits = slots[i].pow.difficulty();
            if required.micro > max.micro {
                proof {
                    lemma_over_budget(
                        slots@,
                        self.security.pow_budget.spec_bits(),
                        (i + 1) as nat,
                        slots@.len(),
                    );
                }
                return Err(DeriveError::PowBudgetExceeded { pow: slots[i].kind, required, max });
            }
        }
        Ok(())
    }

    /// Does every round, and the base case, start from the size that is left to it?
    pub fn validate_round_chaining(&self) -> (r: Result<(), DeriveError>)
        ensures
            r == outcome(self.chain_fault()),
    {
        let n: usize = self.rounds.len();
        for i in 0..n
            invariant
                n == self.rounds@.len(),
                first_broken_link(self.rounds@, i as nat) is None,
        {
            if i > 0 {
                let prev: &RoundConfig = &self.rounds[i - 1];
                let next: &RoundConfig = &self.rounds[i];
                let expected: usize = prev.code_switch.config.target.vector_size;
                let found: usize = next.code_switch.config.source.vector_size;
                if expected != found {
                    proof {
                        lemma_broken_link(self.rounds@, (i + 1) as nat, n as nat);
                    }
                    return Err(
                        DeriveError::RoundChainBroken {
                            from: ChainSource::Round(prev.round_index),
                            to: ChainTarget::NextRound(next.round_index),
                            expected,
                            found,
                        },
                    );
                }
            }
        }
        let found: usize = self.basecase.config.commit.vector_size;
        let (from, expected): (ChainSource, usize) = if n == 0 {
            (ChainSource::Tuning, self.tuning.vector_size)
        } else {
            (
                ChainSource::Round(self.rounds[n - 1].round_index),
                self.rounds[n - 1].code_switch.config.target.vector_size,
            )
        };
        if expected != found {
            return Err(
                DeriveError::RoundChainBroken { from, to: ChainTarget::Basecase, expected, found },
            );
        }
        Ok(())
    }

    /// Every check of a plan: its sizes first, then its work, then its level.
    pub fn validate(&self, fresh: &PlanFloors) -> (r: Result<(), DeriveError>)
        requires
            fresh.rounds@.len() == self.rounds@.len(),
        ensures
            r == outcome(self.fault(*fresh)),
    {
        match self.validate_round_chaining() {
            Err(e) => {
                return Err(e);
            },
            Ok(()) => {},
        }
        match self.validate_pow_budget(fresh) {
            Err(e) => {
                return Err(e);
            },
            Ok(()) => {},
        }
        self.validate_security_target_met(fresh)
    }

    /// Is every slot's work within the budget?
    pub fn check_pow_bits(&self, fresh: &PlanFloors) -> (r: bool)
        requires
            fresh.rounds@.len() == self.rounds@.len(),
        ensures
            r == self.pow_budget_fault(*fresh) is None,
    {
        match self.validate_pow_budget(fresh) {
            Ok(()) => true,
            Err(e) => false,
        }
    }

    /// Does every check of the plan pass?
    pub fn check_all_invariants(&self, fresh: &PlanFloors) -> (r: bool)
        requires
            fresh.rounds@.len() == self.rounds@.len(),
        ensures
            r == self.fault(*fresh) is None,
    {
        match self.validate(fresh) {
            Ok(()) => true,
            Err(e) => false,
        }
    }

    /// The analytic floor of the plan: the smallest of the rounds' and the base case's.
    pub fn analytic_bits(&self, fresh: &PlanFloors) -> (r: Bits)
        requires
            fresh.rounds@.len() == self.rounds@.len(),
        ensures
            r == plan_analytic(
                self.rounds@,
                fresh.rounds@,
                self.basecase.config.spec_analytic(fresh.basecase_sumcheck, fresh.basecase_gamma),
                self.rounds@.len(),
            ),
    {
        let ghost base = self.basecase.config.spec_analytic(
            fresh.basecase_sumcheck,
            fresh.basecase_gamma,
        );
        let mut lowest: Bits = self.basecase.config.analytic_bits(
            fresh.basecase_sumcheck,
            fresh.basecase_gamma,
        );
        for i in 0..self.rounds.len()
            invariant
                fresh.rounds@.len() == self.rounds@.len(),
                lowest == plan_analytic(self.rounds@, fresh.rounds@, base, i as nat),
        {
            lowest = min_bits(lowest, self.rounds[i].analytic_bits(&fresh.rounds[i]));
        }
        lowest
    }
}

proof fn lemma_off_target(slots: Seq<PowSlot>, target: u32, j: nat, k: nat)
    requires
        j <= k,
        first_off_target(slots, target, j) is Some,
    ensures
        first_off_target(slots, target, k) == first_off_target(slots, target, j),
    decreases k,
{
    if j < k {
        lemma_off_target(slots, target, j, (k - 1) as nat);
    }
}

proof fn lemma_over_budget(slots: Seq<PowSlot>, max: u32, j: nat, k: nat)
    requires
        j <= k,
        first_over_budget(slots, max, j) is Some,
    ensures
        first_over_budget(slots, max, k) == first_over_budget(slots, max, j),
    decreases k,
{
    if j < k {
        lemma_over_budget(slots, max, j, (k - 1) as nat);
    }
}

proof fn lemma_broken_link(rounds: Seq<RoundConfig>, j: nat, k: nat)
    requires
        j <= k,
        first_broken_link(rounds, j) is Some,
    ensures
        first_broken_link(rounds, k) == first_broken_link(rounds, j),
    decreases k,
{
    if j < k {
        lemma_broken_link(rounds, j, (k - 1) as nat);
    }
}

/// A plan passes the checks of its work and its level exactly if every slot does.
pub proof fn law_plan_meets_target_per_slot(cfg: ProtocolConfig, fresh: PlanFloors)
    ensures
        cfg.pow_budget_fault(fresh) is None <==> forall|i: int|
            0 <= i < cfg.slots(fresh).len() ==> (#[trigger] cfg.slots(fresh)[i]).pow.bits
                <= cfg.security.pow_budget.spec_bits(),
        cfg.target_fault(fresh) is None <==> forall|i: int|
            0 <= i < cfg.slots(fresh).len() ==> target_fault(
                #[trigger] cfg.slots(fresh)[i],
                cfg.security.target_security_bits,
            ) is None,
{
    let slots = cfg.slots(fresh);
    lemma_budget_iff(slots, cfg.security.pow_budget.spec_bits(), slots.len());
    lemma_target_iff(slots, cfg.security.target_security_bits, slots.len());
}

proof fn lemma_budget_iff(slots: Seq<PowSlot>, max: u32, k: nat)
    requires
        k <= slots.len(),
    ensures
        first_over_budget(slots, max, k) is None <==> forall|i: int|
            0 <= i < k ==> (#[trigger] slots[i]).pow.bits <= max,
    decreases k,
{
    if k > 0 {
        lemma_budget_iff(slots, max, (k - 1) as nat);
        assert(budget_fault(slots[k - 1], max) is None <==> slots[k - 1].pow.bits <= max);
    }
}

proof fn lemma_target_iff(slots: Seq<PowSlot>, target: u32, k: nat)
    requires
        k <= slots.len(),
    ensures
        first_off_target(slots, target, k) is None <==> forall|i: int|
            0 <= i < k ==> target_fault(#[trigger] slots[i], target) is None,
    decreases k,
{
    if k > 0 {
        lemma_target_iff(slots, target, (k - 1) as nat);
        assert(target_fault(slots[k - 1], target) is None || target_fault(
            slots[k - 1],
            target,
        ) is Some);
    }
}

} // verus!
