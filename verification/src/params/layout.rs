//! The rounds' shapes: a walk over the size of the witness.

use crate::arith::{
    ceil_log2, ceil_log2_spec, is_pow2, is_power_of_two, lemma_ceil_log2, lemma_exponent_small,
    power_of_two,
};
use crate::irs_commit;
use crate::params::spec::{RoundContext, TuningSpec};
use vstd::arithmetic::power2::{lemma_pow2_strictly_increases, pow2};
use vstd::prelude::*;

verus! {

/// Why a tuning has no valid round layout.
#[derive(Clone, Copy, Debug, PartialEq, Eq, Structural)]
pub enum LayoutError {
    /// The vector's size must be a power of two.
    VectorSizeNotPowerOfTwo { vector_size: usize },
    /// Every round must fold.
    FoldingFactorBelowOne { min: usize },
    /// The starting rate must be below one.
    StartingRateBelowOne,
}

/// Where a round stands: in the shared sequence, or before a bundle's merge.
#[derive(Clone, Copy, Debug, PartialEq, Eq, Structural)]
pub enum RoundSlot {
    Round(usize),
    PreMerge(usize),
}

impl RoundSlot {
    /// The index of the round or of the bundle.
    pub open spec fn spec_index(self) -> usize {
        match self {
            RoundSlot::Round(i) => i,
            RoundSlot::PreMerge(b) => b,
        }
    }

    /// The index of the round or of the bundle.
    pub fn index(self) -> (r: usize)
        ensures
            r == self.spec_index(),
    {
        match self {
            RoundSlot::Round(i) => i,
            RoundSlot::PreMerge(b) => b,
        }
    }
}

/// The shape of one round.
#[derive(Clone, Copy, Debug, PartialEq, Eq, Structural)]
pub struct RoundShape {
    pub round_slot: RoundSlot,
    pub source_vector_size: usize,
    pub source_log_inv_rate: u32,
    pub source_folding_factor: u32,
    pub target_folding_factor: u32,
    pub target_log_inv_rate: u32,
}

/// The shapes of all rounds, and what is left for the base case.
#[derive(Debug)]
pub struct RoundLayout {
    pub shapes: Vec<RoundShape>,
    pub basecase_vector_size: usize,
    pub basecase_log_inv_rate: u32,
}

/// Is there room for the folds of this round and of the next?
pub open spec fn has_round(tuning: TuningSpec, vars: nat, round: nat) -> bool {
    let source = tuning.folding_factor.spec_at_round(round);
    let target = tuning.folding_factor.spec_at_round(round + 1);
    source >= 1 && source + target <= vars
}

/// The shape of a round that starts with `vars` variables.
pub open spec fn shape_at(tuning: TuningSpec, vars: nat, rate: u32, round: nat) -> RoundShape {
    let source = tuning.folding_factor.spec_at_round(round) as u32;
    RoundShape {
        round_slot: RoundSlot::Round(round as usize),
        source_vector_size: pow2(vars) as usize,
        source_log_inv_rate: rate,
        source_folding_factor: source,
        target_folding_factor: tuning.folding_factor.spec_at_round(round + 1) as u32,
        target_log_inv_rate: tuning.rate_schedule.spec_step(rate, source),
    }
}

/// The rounds from a given one on, the variables that they leave and the rate that
/// they end with.
pub open spec fn layout_from(tuning: TuningSpec, vars: nat, rate: u32, round: nat) -> (
    Seq<RoundShape>,
    nat,
    u32,
)
    decreases vars,
{
    if !has_round(tuning, vars, round) {
        (Seq::empty(), vars, rate)
    } else {
        let shape = shape_at(tuning, vars, rate, round);
        let rest = layout_from(
            tuning,
            (vars - tuning.folding_factor.spec_at_round(round)) as nat,
            shape.target_log_inv_rate,
            round + 1,
        );
        (seq![shape] + rest.0, rest.1, rest.2)
    }
}

/// Lay out the rounds: every round folds its source as far as the tuning says, and
/// there is a round as long as this and the next fold fit.
pub fn round_layout(tuning: &TuningSpec) -> (r: Result<RoundLayout, LayoutError>)
    ensures
        if !is_pow2(tuning.vector_size as nat) {
            r matches Err(e) && e == (LayoutError::VectorSizeNotPowerOfTwo {
                vector_size: tuning.vector_size,
            })
        } else if tuning.folding_factor.spec_min() < 1 {
            r matches Err(e) && e == (LayoutError::FoldingFactorBelowOne {
                min: tuning.folding_factor.spec_min(),
            })
        } else if tuning.starting_log_inv_rate < 1 {
            r matches Err(e) && e == LayoutError::StartingRateBelowOne
        } else {
            let (shapes, left, rate) = layout_from(
                *tuning,
                ceil_log2_spec(tuning.vector_size as nat),
                tuning.starting_log_inv_rate,
                0,
            );
            r matches Ok(layout) && layout.shapes@ == shapes && layout.basecase_vector_size == pow2(
                left,
            ) && layout.basecase_log_inv_rate == rate
        },
{
    if !is_power_of_two(tuning.vector_size) {
        return Err(LayoutError::VectorSizeNotPowerOfTwo { vector_size: tuning.vector_size });
    }
    let min: usize = tuning.folding_factor.min();
    if min < 1 {
        return Err(LayoutError::FoldingFactorBelowOne { min });
    }
    if tuning.starting_log_inv_rate < 1 {
        return Err(LayoutError::StartingRateBelowOne);
    }
    let ghost vars0 = ceil_log2_spec(tuning.vector_size as nat);
    let ghost rate0 = tuning.starting_log_inv_rate;
    let mut num_vars: usize = ceil_log2(tuning.vector_size) as usize;
    let mut log_inv_rate: u32 = tuning.starting_log_inv_rate;
    let mut shapes: Vec<RoundShape> = Vec::new();
    proof {
        lemma_ceil_log2(tuning.vector_size as nat);
        lemma_exponent_small(tuning.vector_size);
        let rest = layout_from(*tuning, vars0, rate0, 0);
        assert(shapes@ + rest.0 =~= rest.0);
    }
    loop
        invariant
            tuning.folding_factor.spec_min() >= 1,
            num_vars <= vars0,
            vars0 <= 64,
            shapes@.len() + num_vars <= vars0,
            pow2(vars0) <= usize::MAX,
            ({
                let rest = layout_from(*tuning, num_vars as nat, log_inv_rate, shapes@.len());
                layout_from(*tuning, vars0, rate0, 0) == (shapes@ + rest.0, rest.1, rest.2)
            }),
        ensures
            !has_round(*tuning, num_vars as nat, shapes@.len()),
        decreases num_vars,
    {
        let round: usize = shapes.len();
        let source_folding: usize = tuning.folding_factor.at_round(round);
        let target_folding: usize = tuning.folding_factor.at_round(round + 1);
        if source_folding > num_vars || target_folding > num_vars - source_folding {
            break;
        }
        proof {
            assert(tuning.folding_factor.spec_min() <= tuning.folding_factor.spec_at_round(round as nat));
            if num_vars < vars0 {
                lemma_pow2_strictly_increases(num_vars as nat, vars0);
            }
        }
        let ghost rest = layout_from(*tuning, num_vars as nat, log_inv_rate, shapes@.len());
        let target_log_inv_rate: u32 = tuning.rate_schedule.step(log_inv_rate, source_folding as u32);
        let shape = RoundShape {
            round_slot: RoundSlot::Round(round),
            source_vector_size: power_of_two(num_vars),
            source_log_inv_rate: log_inv_rate,
            source_folding_factor: source_folding as u32,
            target_folding_factor: target_folding as u32,
            target_log_inv_rate,
        };
        let ghost before = shapes@;
        shapes.push(shape);
        num_vars = num_vars - source_folding;
        log_inv_rate = target_log_inv_rate;
        proof {
            let more = layout_from(*tuning, num_vars as nat, log_inv_rate, shapes@.len());
            assert(shape == shape_at(*tuning, (num_vars + source_folding) as nat, shape.source_log_inv_rate, round as nat));
            assert(before + rest.0 =~= shapes@ + more.0);
        }
    }
    proof {
        let rest = layout_from(*tuning, num_vars as nat, log_inv_rate, shapes@.len());
        assert(shapes@ + rest.0 =~= shapes@);
        if num_vars < vars0 {
            lemma_pow2_strictly_increases(num_vars as nat, vars0);
        }
    }
    Ok(
        RoundLayout {
            shapes,
            basecase_vector_size: power_of_two(num_vars),
            basecase_log_inv_rate: log_inv_rate,
        },
    )
}

/// The folds of some rounds together.
pub open spec fn total_folds(shapes: Seq<RoundShape>) -> nat
    decreases shapes.len(),
{
    if shapes.len() == 0 {
        0
    } else {
        shapes[0].source_folding_factor as nat + total_folds(shapes.drop_first())
    }
}

/// The base case takes the variables that the rounds leave, and every round continues
/// the one before it: it starts with the variables, the rate and the fold that the
/// one before left it.
pub proof fn law_layout_chains(tuning: TuningSpec, vars: nat, rate: u32, round: nat)
    requires
        vars <= 64,
        round + vars <= 64,
    ensures
        ({
            let (shapes, left, last) = layout_from(tuning, vars, rate, round);
            &&& total_folds(shapes) + left == vars
            &&& shapes.len() > 0 ==> shapes[0] == shape_at(tuning, vars, rate, round)
            &&& shapes.len() == 0 ==> last == rate
            &&& shapes.len() > 0 ==> last == shapes[shapes.len() - 1].target_log_inv_rate
            &&& forall|i: int|
                0 <= i < shapes.len() - 1 ==> {
                    &&& (#[trigger] shapes[i]).target_folding_factor == shapes[i
                        + 1].source_folding_factor
                    &&& shapes[i].target_log_inv_rate == shapes[i + 1].source_log_inv_rate
                    &&& shapes[i].target_log_inv_rate == tuning.rate_schedule.spec_step(
                        shapes[i].source_log_inv_rate,
                        shapes[i].source_folding_factor,
                    )
                }
        }),
    decreases vars,
{
    let (shapes, left, last) = layout_from(tuning, vars, rate, round);
    if has_round(tuning, vars, round) {
        let shape = shape_at(tuning, vars, rate, round);
        let fold = tuning.folding_factor.spec_at_round(round);
        let next = (vars - fold) as nat;
        law_layout_chains(tuning, next, shape.target_log_inv_rate, round + 1);
        let rest = layout_from(tuning, next, shape.target_log_inv_rate, round + 1).0;
        assert(shapes.drop_first() =~= rest);
        assert forall|i: int| 0 <= i < shapes.len() - 1 implies {
            &&& (#[trigger] shapes[i]).target_folding_factor == shapes[i + 1].source_folding_factor
            &&& shapes[i].target_log_inv_rate == shapes[i + 1].source_log_inv_rate
            &&& shapes[i].target_log_inv_rate == tuning.rate_schedule.spec_step(
                shapes[i].source_log_inv_rate,
                shapes[i].source_folding_factor,
            )
        } by {
            assert(shapes[i + 1] == rest[i]);
            if i > 0 {
                assert(shapes[i] == rest[i - 1]);
            }
        }
        if rest.len() > 0 {
            assert(shapes[shapes.len() - 1] == rest[rest.len() - 1]);
        }
    }
}

/// The source's size, rate and fold.
pub fn round_context(shape: &RoundShape) -> (r: RoundContext)
    ensures
        r.vector_size == shape.source_vector_size,
        r.log_inv_rate == shape.source_log_inv_rate,
        r.folding_factor == shape.source_folding_factor,
{
    RoundContext {
        vector_size: shape.source_vector_size,
        log_inv_rate: shape.source_log_inv_rate,
        folding_factor: shape.source_folding_factor,
    }
}

/// The target's size, rate and fold: the source's messages are switched to it.
pub fn target_context(shape: &RoundShape, source: &irs_commit::Config) -> (r: RoundContext)
    requires
        source.wf(),
    ensures
        r.vector_size == source.message_len(),
        r.log_inv_rate == shape.target_log_inv_rate,
        r.folding_factor == shape.target_folding_factor,
{
    RoundContext {
        vector_size: source.message_length(),
        log_inv_rate: shape.target_log_inv_rate,
        folding_factor: shape.target_folding_factor,
    }
}

} // verus!
