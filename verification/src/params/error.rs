//! Why a plan cannot be derived or is not valid.

use crate::bits::Bits;
use crate::irs_commit::CodewordLengthError;
use crate::params::batched::fault::BatchedFault;
use crate::params::layout::LayoutError;
use crate::params::spec::SecuritySpec;
use crate::proof_of_work;
use crate::proof_of_work::{work_needed, PowError};
use crate::text::{decimal_of, numbered};
use vstd::prelude::*;

verus! {

/// Identifies one proof-of-work slot of a plan.
#[derive(Clone, Copy, Debug, PartialEq, Eq, Structural)]
pub enum Pow {
    /// The base case's combination; in zero-knowledge mode only.
    BasecaseGammaCombination,
    /// The base case's sumcheck.
    BasecaseSumcheck,
    /// The sumcheck of a round.
    RoundSumcheck { index: usize },
    /// The code-switch of a round.
    RoundCodeSwitch { index: usize },
    /// The mask proximity of a round; in zero-knowledge mode only.
    RoundMaskProximity { index: usize },
    /// The selector-merge of a join.
    BatchedSelectorMerge { index: usize },
    /// The combination of one bundle's claims.
    BatchedIntraBundleRlc { index: usize },
}

impl Pow {
    /// What the slot is called.
    pub open spec fn spec_label(self) -> Seq<char> {
        match self {
            Pow::BasecaseGammaCombination => "basecase γ-combination"@,
            Pow::BasecaseSumcheck => "basecase sumcheck"@,
            Pow::RoundSumcheck { index } => "round "@ + decimal_of(index as nat) + " sumcheck"@,
            Pow::RoundCodeSwitch { index } => "round "@ + decimal_of(index as nat) + " code-switch"@,
            Pow::RoundMaskProximity { index } => "round "@ + decimal_of(index as nat)
                + " mask-proximity"@,
            Pow::BatchedSelectorMerge { index } => "join "@ + decimal_of(index as nat)
                + " selector-merge"@,
            Pow::BatchedIntraBundleRlc { index } => "bundle "@ + decimal_of(index as nat)
                + " claim combination"@,
        }
    }

    /// What the slot is called.
    pub fn label(self) -> (r: String)
        ensures
            r@ == self.spec_label(),
    {
        match self {
            Pow::BasecaseGammaCombination => "basecase γ-combination".to_owned(),
            Pow::BasecaseSumcheck => "basecase sumcheck".to_owned(),
            Pow::RoundSumcheck { index } => numbered("round ", index, " sumcheck"),
            Pow::RoundCodeSwitch { index } => numbered("round ", index, " code-switch"),
            Pow::RoundMaskProximity { index } => numbered("round ", index, " mask-proximity"),
            Pow::BatchedSelectorMerge { index } => numbered("join ", index, " selector-merge"),
            Pow::BatchedIntraBundleRlc { index } => numbered("bundle ", index, " claim combination"),
        }
    }
}

/// Where a broken chain starts: at a round, or at the tuning's vector if there is none.
#[derive(Clone, Copy, Debug, PartialEq, Eq, Structural)]
pub enum ChainSource {
    Tuning,
    Round(usize),
}

impl ChainSource {
    /// The place in words.
    pub open spec fn spec_label(self) -> Seq<char> {
        match self {
            ChainSource::Tuning => "tuning"@,
            ChainSource::Round(i) => "round "@ + decimal_of(i as nat) + ""@,
        }
    }

    /// The place in words.
    pub fn label(self) -> (r: String)
        ensures
            r@ == self.spec_label(),
    {
        match self {
            ChainSource::Tuning => "tuning".to_owned(),
            ChainSource::Round(i) => numbered("round ", i, ""),
        }
    }
}

/// Where a broken chain ends: at the next round, or at the base case.
#[derive(Clone, Copy, Debug, PartialEq, Eq, Structural)]
pub enum ChainTarget {
    NextRound(usize),
    Basecase,
}

impl ChainTarget {
    /// The place in words.
    pub open spec fn spec_label(self) -> Seq<char> {
        match self {
            ChainTarget::NextRound(i) => "round "@ + decimal_of(i as nat) + ""@,
            ChainTarget::Basecase => "basecase"@,
        }
    }

    /// The place in words.
    pub fn label(self) -> (r: String)
        ensures
            r@ == self.spec_label(),
    {
        match self {
            ChainTarget::NextRound(i) => numbered("round ", i, ""),
            ChainTarget::Basecase => "basecase".to_owned(),
        }
    }
}

/// Why a plan cannot be derived or is not valid.
#[derive(Clone, Copy, Debug, PartialEq, Eq, Structural)]
pub enum DeriveError {
    /// No number of out-of-domain samples up to the limit reaches the target.
    FixedPointDidNotConverge { round_index: usize },
    /// No work closes the gap to the target.
    PowUngrindable { pow: Pow, source: PowError },
    /// The work that closes the gap is over the budget of a slot.
    PowBudgetExceeded { pow: Pow, required: Bits, max: Bits },
    /// The codeword's length exceeds every order that the field supports.
    CodewordExceedsNtt { length: usize },
    /// The tuning has no valid round layout.
    Layout(LayoutError),
    /// The size that a round or the base case starts from is not the one it is left.
    RoundChainBroken { from: ChainSource, to: ChainTarget, expected: usize, found: usize },
    /// A slot's analytic floor and work stay below the target.
    SecurityTargetNotMet { pow: Pow, analytic: Bits, pow_bits: Bits, target: Bits },
    /// A slot's recorded floor is not the one that its configuration gives.
    AnalyticDrift { pow: Pow, recorded: Bits, recompute: Bits },
    /// No schedule of rates fits the budget.
    AdaptiveNoFeasibleSchedule,
    /// The batched protocol does not support these bundles.
    BatchedUnsupported { reason: BatchedFault },
}

impl From<CodewordLengthError> for DeriveError {
    fn from(e: CodewordLengthError) -> (r: Self) {
        DeriveError::CodewordExceedsNtt { length: e.length }
    }
}

impl vstd::std_specs::convert::FromSpecImpl<CodewordLengthError> for DeriveError {
    open spec fn obeys_from_spec() -> bool {
        true
    }

    open spec fn from_spec(e: CodewordLengthError) -> Self {
        DeriveError::CodewordExceedsNtt { length: e.length }
    }
}

impl From<LayoutError> for DeriveError {
    fn from(e: LayoutError) -> (r: Self) {
        DeriveError::Layout(e)
    }
}

impl vstd::std_specs::convert::FromSpecImpl<LayoutError> for DeriveError {
    open spec fn obeys_from_spec() -> bool {
        true
    }

    open spec fn from_spec(e: LayoutError) -> Self {
        DeriveError::Layout(e)
    }
}

/// Attaches the slot to a failure of its proof of work.
pub trait PowResultExt<T>: Sized {
    /// The outcome without the slot.
    spec fn outcome(self) -> Result<T, PowError>;

    /// The same outcome, a failure with the slot it is of.
    fn at(self, pow: Pow) -> (r: Result<T, DeriveError>)
        ensures
            match self.outcome() {
                Ok(t) => r == Ok::<T, DeriveError>(t),
                Err(source) => r == Err::<T, DeriveError>(
                    (DeriveError::PowUngrindable { pow, source }),
                ),
            },
    ;
}

impl<T> PowResultExt<T> for Result<T, PowError> {
    open spec fn outcome(self) -> Result<T, PowError> {
        self
    }

    fn at(self, pow: Pow) -> (r: Result<T, DeriveError>) {
        match self {
            Ok(t) => Ok(t),
            Err(source) => Err(DeriveError::PowUngrindable { pow, source }),
        }
    }
}

/// The slot that lifts `analytic` to the target, if it can be ground and is within
/// the budget.
pub open spec fn ground_at(spec: SecuritySpec, analytic: Bits, pow: Pow) -> Result<
    proof_of_work::Config,
    DeriveError,
> {
    let target = Bits::spec_whole(spec.target_security_bits);
    let work = work_needed(target, analytic);
    let max = spec.pow_budget.spec_bits();
    if work > proof_of_work::MAX_DIFFICULTY {
        Err(
            DeriveError::PowUngrindable {
                pow,
                source: PowError { required: Bits { micro: (target.micro - analytic.micro) as u64 } },
            },
        )
    } else if work > max {
        Err(
            DeriveError::PowBudgetExceeded {
                pow,
                required: Bits::spec_whole(work as u32),
                max: Bits::spec_whole(max),
            },
        )
    } else {
        Ok(proof_of_work::Config { bits: work as u32, hash_id: spec.hash_id })
    }
}

/// Lift `analytic` to the target by proof of work, within the budget of a slot.
pub fn grind_to_at(spec: &SecuritySpec, analytic: Bits, pow_kind: Pow) -> (r: Result<
    proof_of_work::Config,
    DeriveError,
>)
    ensures
        r == ground_at(*spec, analytic, pow_kind),
{
    let target: Bits = Bits::whole(spec.target_security_bits);
    let ground: Result<proof_of_work::Config, PowError> = proof_of_work::Config::grind_to(
        target,
        analytic,
        spec.hash_id,
    );
    match ground.at(pow_kind) {
        Err(e) => Err(e),
        Ok(pow) => {
            let required: Bits = pow.difficulty();
            let max: Bits = Bits::whole(spec.pow_budget.bits());
            if required.micro > max.micro {
                Err(DeriveError::PowBudgetExceeded { pow: pow_kind, required, max })
            } else {
                Ok(pow)
            }
        },
    }
}

/// A slot that was ground closes the gap to the target and is within the budget.
pub proof fn law_ground_closes_gap(spec: SecuritySpec, analytic: Bits, pow: Pow)
    requires
        ground_at(spec, analytic, pow) is Ok,
    ensures
        ({
            let bits = ground_at(spec, analytic, pow)->Ok_0.bits;
            &&& analytic.micro + Bits::spec_whole(bits).micro >= Bits::spec_whole(
                spec.target_security_bits,
            ).micro
            &&& bits <= spec.pow_budget.spec_bits()
        }),
{
    let target = Bits::spec_whole(spec.target_security_bits);
    let w = work_needed(target, analytic);
    assert(w as u32 == w);
    assert(w * crate::bits::UNITS_PER_BIT <= u64::MAX);
}

} // verus!
