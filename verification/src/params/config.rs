//! Derived configurations: rounds, mask oracles, the base case, and the whole plan.

use crate::arith::is_pow2;
use crate::basecase;
use crate::bits::Bits;
use crate::code_switch;
use crate::code_switch::CodeSwitchMode;
use crate::irs_commit;
use crate::irs_laws::same_shape;
use crate::mask_proximity;
use crate::params::solved::Solved;
use crate::params::spec::{SecuritySpec, TuningSpec};
use crate::sumcheck;
use vstd::arithmetic::power2::pow2;
use vstd::prelude::*;

verus! {

/// The masks of one round, in two trees: those of the sumcheck, committed to before
/// it, and that of the code-switch, committed to after it.
#[derive(Clone, Copy, Debug)]
pub struct MaskOracleConfig {
    pub sumcheck_masks: Solved<mask_proximity::Config>,
    pub cs_mask: Solved<mask_proximity::Config>,
    /// The length of the code-switch's mask.
    pub l_zk: usize,
    /// The number of out-of-domain samples.
    pub t_ood: usize,
}

/// Standard or zero-knowledge round.
#[derive(Clone, Copy, Debug)]
pub enum RoundMode {
    Standard,
    ZeroKnowledge { t_ood: usize, mask_oracle: MaskOracleConfig },
}

/// One round: a sumcheck and a code-switch.
#[derive(Clone, Copy, Debug)]
pub struct RoundConfig {
    pub round_index: usize,
    pub sumcheck: Solved<sumcheck::Config>,
    pub code_switch: Solved<code_switch::Config>,
    pub mode: RoundMode,
}

impl RoundConfig {
    /// The sumcheck's configuration.
    pub open spec fn sc(&self) -> sumcheck::Config {
        self.sumcheck.config
    }

    /// The code-switch's configuration.
    pub open spec fn cs(&self) -> code_switch::Config {
        self.code_switch.config
    }

    /// The sumcheck folds the source's interleaving away, and the masks fit both
    /// sub-protocols.
    pub open spec fn wf(&self) -> bool {
        let sc = self.sc();
        let cs = self.cs();
        &&& sc.wf()
        &&& cs.wf()
        &&& sc.degree == 2
        &&& sc.initial_size == cs.source.vector_size
        &&& pow2(sc.num_rounds as nat) == cs.source.interleaving_depth
        &&& sc.spec_final_size() == cs.source.message_len()
        &&& is_pow2(cs.source.vector_size as nat)
        &&& match self.mode {
            RoundMode::Standard => sc.mode is Standard && cs.mode is Standard,
            RoundMode::ZeroKnowledge { t_ood, mask_oracle } => {
                let sm = mask_oracle.sumcheck_masks.config;
                let cm = mask_oracle.cs_mask.config;
                &&& sc.mode is ZeroKnowledge
                &&& sc.num_rounds > 0
                &&& cs.mode == (CodeSwitchMode::ZeroKnowledge { message_mask_length: mask_oracle.l_zk })
                &&& sm.wf()
                &&& cm.wf()
                &&& sm.num_masks == sc.num_rounds
                &&& sc.mask_len() <= sm.size()
                &&& sc.num_rounds * sc.mask_len() <= usize::MAX
                &&& cm.num_masks == 1
                &&& cm.size() == mask_oracle.l_zk
            },
        }
    }

    /// Does this round ask for no work?
    pub open spec fn free(&self) -> bool {
        &&& self.sc().round_pow.bits == 0
        &&& self.cs().pow.bits == 0
        &&& self.mode matches RoundMode::ZeroKnowledge { t_ood, mask_oracle } ==> {
            &&& mask_oracle.sumcheck_masks.config.pow.bits == 0
            &&& mask_oracle.cs_mask.config.pow.bits == 0
        }
    }

    /// The round's index.
    pub fn round_index(&self) -> (r: usize)
        ensures
            r == self.round_index,
    {
        self.round_index
    }

    /// The round's mask oracle, if it has one.
    pub fn mask_oracle(&self) -> (r: Option<MaskOracleConfig>)
        ensures
            match self.mode {
                RoundMode::Standard => r is None,
                RoundMode::ZeroKnowledge { t_ood, mask_oracle } => r == Some(mask_oracle),
            },
    {
        match self.mode {
            RoundMode::Standard => None,
            RoundMode::ZeroKnowledge { t_ood, mask_oracle } => Some(mask_oracle),
        }
    }
}

impl RoundMode {
    /// Is this a zero-knowledge round?
    pub fn is_zk(&self) -> (r: bool)
        ensures
            r == self is ZeroKnowledge,
    {
        match self {
            RoundMode::Standard => false,
            RoundMode::ZeroKnowledge { t_ood, mask_oracle } => true,
        }
    }
}

/// The base case, with the analytic floors of its two proof-of-work slots.
#[derive(Clone, Copy, Debug)]
pub struct BasecasePlan {
    pub config: basecase::Config,
    pub sumcheck_analytic: Bits,
    pub gamma_analytic: Bits,
}

/// A derived plan: rounds, then a base case.
#[derive(Debug)]
pub struct ProtocolConfig {
    pub security: SecuritySpec,
    pub tuning: TuningSpec,
    pub rounds: Vec<RoundConfig>,
    pub basecase: BasecasePlan,
}

/// Does every round start from a code of the shape that the round before it switched
/// to?
pub open spec fn rounds_chained(rounds: Seq<RoundConfig>) -> bool {
    &&& forall|i: int| 0 <= i < rounds.len() ==> (#[trigger] rounds[i]).wf()
    &&& forall|i: int|
        0 < i < rounds.len() ==> same_shape(
            &rounds[i - 1].cs().target,
            &(#[trigger] rounds[i]).cs().source,
        )
}

impl ProtocolConfig {
    /// The code that the base case's message is committed to under.
    pub open spec fn last_code(&self) -> irs_commit::Config {
        if self.rounds@.len() == 0 {
            self.basecase.config.commit
        } else {
            self.rounds@[self.rounds@.len() - 1].cs().target
        }
    }

    /// The code that the witness is committed to under.
    pub open spec fn first_code(&self) -> irs_commit::Config {
        if self.rounds@.len() == 0 {
            self.basecase.config.commit
        } else {
            self.rounds@[0].cs().source
        }
    }

    /// Every round and the base case start from a code of the shape that was switched to
    /// before.
    pub open spec fn wf(&self) -> bool {
        &&& rounds_chained(self.rounds@)
        &&& self.rounds@.len() < usize::MAX
        &&& self.basecase.config.wf()
        &&& same_shape(&self.last_code(), &self.basecase.config.commit)
        &&& self.first_code().num_vectors == 1
        &&& self.first_code().vector_size == self.tuning.vector_size
        &&& is_pow2(self.tuning.vector_size as nat)
    }
}

impl ProtocolConfig {
    /// The security level that was asked for.
    pub fn security(&self) -> (r: &SecuritySpec)
        ensures
            *r == self.security,
    {
        &self.security
    }

    /// The tradeoffs that were asked for.
    pub fn tuning(&self) -> (r: &TuningSpec)
        ensures
            *r == self.tuning,
    {
        &self.tuning
    }

    /// The rounds.
    pub fn rounds(&self) -> (r: &[RoundConfig])
        ensures
            r@ == self.rounds@,
    {
        self.rounds.as_slice()
    }

    /// The base case.
    pub fn basecase(&self) -> (r: &basecase::Config)
        ensures
            *r == self.basecase.config,
    {
        &self.basecase.config
    }

    /// The base case, with its analytic floors.
    pub fn basecase_plan(&self) -> (r: &BasecasePlan)
        ensures
            *r == self.basecase,
    {
        &self.basecase
    }

    /// Is there a round before the base case?
    pub fn has_rounds(&self) -> (r: bool)
        ensures
            r == (self.rounds@.len() > 0),
    {
        self.rounds.len() > 0
    }
}

impl BasecasePlan {
    /// The base case.
    pub fn config(&self) -> (r: &basecase::Config)
        ensures
            *r == self.config,
    {
        &self.config
    }

    /// The floor of the sumcheck's slot.
    pub fn sumcheck_analytic(&self) -> (r: Bits)
        ensures
            r == self.sumcheck_analytic,
    {
        self.sumcheck_analytic
    }

    /// The floor of the combination's slot.
    pub fn gamma_analytic(&self) -> (r: Bits)
        ensures
            r == self.gamma_analytic,
    {
        self.gamma_analytic
    }
}

impl RoundConfig {
    /// The sumcheck.
    pub fn sumcheck(&self) -> (r: &Solved<sumcheck::Config>)
        ensures
            *r == self.sumcheck,
    {
        &self.sumcheck
    }

    /// The code-switch.
    pub fn code_switch(&self) -> (r: &Solved<code_switch::Config>)
        ensures
            *r == self.code_switch,
    {
        &self.code_switch
    }

    /// Standard or zero-knowledge.
    pub fn mode(&self) -> (r: &RoundMode)
        ensures
            *r == self.mode,
    {
        &self.mode
    }
}

impl MaskOracleConfig {
    /// The sumcheck's masks.
    pub fn sumcheck_masks(&self) -> (r: &Solved<mask_proximity::Config>)
        ensures
            *r == self.sumcheck_masks,
    {
        &self.sumcheck_masks
    }

    /// The code-switch's mask.
    pub fn cs_mask(&self) -> (r: &Solved<mask_proximity::Config>)
        ensures
            *r == self.cs_mask,
    {
        &self.cs_mask
    }

    /// The length of the code-switch's mask.
    pub fn l_zk(&self) -> (r: usize)
        ensures
            r == self.l_zk,
    {
        self.l_zk
    }

    /// The number of out-of-domain samples.
    pub fn t_ood(&self) -> (r: usize)
        ensures
            r == self.t_ood,
    {
        self.t_ood
    }
}

} // verus!
