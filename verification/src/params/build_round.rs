//! Building a round from the codes that were chosen for it.

use crate::arith::{
    ceil_log2, ceil_log2_spec, checked_power_of_two, is_pow2, lemma_ceil_log2, lemma_ceil_log2_pow2,
    next_pow2, next_power_of_two,
};
use crate::bits::Bits;
use crate::code_switch;
use crate::irs_commit;
use crate::mask_proximity;
use crate::params::branch::Branch;
use crate::params::code_switch as code_switch_params;
use crate::params::code_switch::{capped_sum, mode_for};
use crate::params::config::{MaskOracleConfig, RoundConfig, RoundMode};
use crate::params::error::{ground_at, DeriveError, Pow};
use crate::params::layout::{round_context, RoundShape};
use crate::params::mask_proximity as mask_proximity_params;
use crate::params::solved::Solved;
use crate::params::spec::{DecodingRegime, RoundContext, SecuritySpec};
use crate::params::sumcheck as sumcheck_params;
use crate::proof_of_work;
use crate::sumcheck;
use crate::sumcheck::max_table_len;
use vstd::arithmetic::power2::pow2;
use vstd::prelude::*;

verus! {

/// The most out-of-domain samples that are tried.
pub const T_OOD_MAX_ITER: usize = 32;

/// The codes of a round's masks, and their analytic floors.
#[derive(Clone, Copy, Debug)]
pub struct MaskQuote {
    pub sumcheck_c_zk: irs_commit::Config,
    pub cs_c_zk: irs_commit::Config,
    pub sumcheck_masks_floor: Bits,
    pub cs_mask_floor: Bits,
}

/// The codes of a round, the number of its out-of-domain samples, and its analytic
/// floors; masks in zero-knowledge mode only.
#[derive(Clone, Copy, Debug)]
pub struct RoundQuote {
    pub source: irs_commit::Config,
    pub target: irs_commit::Config,
    pub t_ood: usize,
    pub masks: Option<MaskQuote>,
    pub sumcheck_floor: Bits,
    pub code_switch_floor: Bits,
}

/// The length of a code-switch's mask: the source's mask and the out-of-domain samples,
/// padded to a power of two.
pub open spec fn l_zk_for(source: irs_commit::Config, t_ood: usize) -> nat {
    next_pow2(capped_sum(source.mode.mask_len(), t_ood as nat))
}

/// The length of a code-switch's mask: the source's mask and the out-of-domain samples,
/// padded to a power of two.
pub fn compute_l_zk(source: &irs_commit::Config, t_ood: usize) -> (r: usize)
    requires
        l_zk_for(*source, t_ood) <= usize::MAX,
    ensures
        r == l_zk_for(*source, t_ood),
{
    next_power_of_two(source.mode.mask_length().saturating_add(t_ood))
}

/// The length of a code-switch's mask, unless it is too large a number.
pub fn checked_l_zk(source: &irs_commit::Config, t_ood: usize) -> (r: Option<usize>)
    ensures
        r is Some <==> l_zk_for(*source, t_ood) <= usize::MAX,
        r matches Some(l) ==> l == l_zk_for(*source, t_ood),
{
    let needed: usize = source.mode.mask_length().saturating_add(t_ood);
    checked_power_of_two(ceil_log2(needed) as usize)
}

/// The mask of a code-switch is long enough for the source's mask and all samples.
pub proof fn law_l_zk_covers(source: irs_commit::Config, t_ood: usize)
    requires
        source.mode.mask_len() + t_ood <= usize::MAX,
    ensures
        l_zk_for(source, t_ood) >= source.mode.mask_len() + t_ood,
        is_pow2(l_zk_for(source, t_ood)),
{
    let n = source.mode.mask_len() + t_ood as nat;
    lemma_ceil_log2(n);
    lemma_ceil_log2_pow2(ceil_log2_spec(n));
}

/// Do `t` samples reach the target?
pub open spec fn enough(bits: Seq<Option<Bits>>, target: Bits, t: int) -> bool {
    bits[t - 1] matches Some(b) && b.micro >= target.micro
}

/// The number of out-of-domain samples: one under unique decoding; otherwise the
/// smallest number that reaches the target, given the security of every number from one
/// on, `None` where it is negative.
pub fn solve_t_ood(
    regime: DecodingRegime,
    bits: &[Option<Bits>],
    target: Bits,
    round_index: usize,
) -> (r: Result<usize, DeriveError>)
    requires
        regime is Unique || bits@.len() == T_OOD_MAX_ITER,
    ensures
        regime is Unique ==> r == Ok::<usize, DeriveError>(1),
        r matches Ok(t) ==> 1 <= t <= 32,
        r is Err ==> forall|u: int| 1 <= u <= 32 ==> !#[trigger] enough(bits@, target, u),
        !(regime is Unique) ==> match r {
            Ok(t) => 1 <= t <= T_OOD_MAX_ITER && enough(bits@, target, t as int) && forall|u: int|
                1 <= u < t ==> !#[trigger] enough(bits@, target, u),
            Err(e) => e == (DeriveError::FixedPointDidNotConverge { round_index }) && forall|u: int|
                1 <= u <= T_OOD_MAX_ITER ==> !#[trigger] enough(bits@, target, u),
        },
{
    match regime {
        DecodingRegime::Unique => {
            return Ok(1);
        },
        _ => {},
    }
    for i in 0..T_OOD_MAX_ITER
        invariant
            bits@.len() == T_OOD_MAX_ITER,
            !(regime is Unique),
            forall|u: int| 1 <= u <= i ==> !#[trigger] enough(bits@, target, u),
    {
        match bits[i] {
            Some(b) => {
                if b.micro >= target.micro {
                    assert(enough(bits@, target, i + 1));
                    return Ok(i + 1);
                }
            },
            None => {},
        }
        assert(!enough(bits@, target, i + 1));
    }
    Err(DeriveError::FixedPointDidNotConverge { round_index })
}

/// The number of variables and the rate of the code that a round switches to.
pub fn target_shape(shape: &RoundShape) -> (r: (u32, u32))
    requires
        is_pow2(shape.source_vector_size as nat),
    ensures
        r.0 == (if ceil_log2_spec(shape.source_vector_size as nat) >= shape.source_folding_factor {
            ceil_log2_spec(shape.source_vector_size as nat) - shape.source_folding_factor
        } else {
            0
        }),
        r.1 == shape.target_log_inv_rate,
{
    (
        ceil_log2(shape.source_vector_size).saturating_sub(shape.source_folding_factor),
        shape.target_log_inv_rate,
    )
}

/// The mask length of a round; none in standard mode.
pub open spec fn quoted_l_zk(quote: RoundQuote) -> Branch<usize> {
    match quote.masks {
        None => Branch::Standard,
        Some(m) => Branch::ZeroKnowledge(l_zk_for(quote.source, quote.t_ood) as usize),
    }
}

/// Are the codes those of a round of the given shape, with masks in zero-knowledge mode
/// only?
pub open spec fn quote_fits(spec: SecuritySpec, shape: RoundShape, quote: RoundQuote) -> bool {
    let fold = shape.source_folding_factor as nat;
    &&& quote.masks is Some <==> spec.mode is ZeroKnowledge
    &&& is_pow2(shape.source_vector_size as nat)
    &&& 0 < shape.source_vector_size <= max_table_len()
    &&& fold <= ceil_log2_spec(shape.source_vector_size as nat)
    &&& quote.source.vector_size == shape.source_vector_size
    &&& quote.source.interleaving_depth == pow2(fold)
    &&& forall|pow: proof_of_work::Config|
        (#[trigger] (code_switch::Config {
            source: quote.source,
            target: quote.target,
            mode: mode_for(quoted_l_zk(quote)),
            out_domain_samples: quote.t_ood,
            pow,
        }).wf())
    &&& quote.masks matches Some(m) ==> {
        &&& fold > 0
        &&& fold * 3 <= usize::MAX
        &&& l_zk_for(quote.source, quote.t_ood) <= usize::MAX
        &&& forall|pow: proof_of_work::Config|
            (#[trigger] (mask_proximity::Config {
                c_zk_commit: m.sumcheck_c_zk,
                num_masks: shape.source_folding_factor as usize,
                pow,
            }).wf())
        &&& m.sumcheck_c_zk.vector_size >= 3
        &&& forall|pow: proof_of_work::Config|
            (#[trigger] (mask_proximity::Config { c_zk_commit: m.cs_c_zk, num_masks: 1, pow }).wf())
        &&& m.cs_c_zk.vector_size == l_zk_for(quote.source, quote.t_ood)
    }
}

/// The error of a slot that cannot be ground.
pub open spec fn slot_fault(spec: SecuritySpec, floor: Bits, pow: Pow) -> Option<DeriveError> {
    match ground_at(spec, floor, pow) {
        Ok(p) => None,
        Err(e) => Some(e),
    }
}

/// The first slot of a round that cannot be ground: the masks', the sumcheck's, the
/// code-switch's.
pub open spec fn round_fault(spec: SecuritySpec, index: usize, quote: RoundQuote) -> Option<DeriveError> {
    let masks = match quote.masks {
        None => None,
        Some(m) => match slot_fault(spec, m.sumcheck_masks_floor, Pow::RoundMaskProximity { index }) {
            Some(e) => Some(e),
            None => slot_fault(spec, m.cs_mask_floor, Pow::RoundMaskProximity { index }),
        },
    };
    match masks {
        Some(e) => Some(e),
        None => match slot_fault(spec, quote.sumcheck_floor, Pow::RoundSumcheck { index }) {
            Some(e) => Some(e),
            None => slot_fault(spec, quote.code_switch_floor, Pow::RoundCodeSwitch { index }),
        },
    }
}

/// Is this the round that the codes give? Its slots close the gaps to the target, and its
/// parts fit together.
pub open spec fn round_built(spec: SecuritySpec, shape: RoundShape, quote: RoundQuote, round: RoundConfig) -> bool {
    let index = shape.round_slot.spec_index();
    &&& round.wf()
    &&& round.mode is ZeroKnowledge <==> spec.mode is ZeroKnowledge
    &&& round.round_index == index
    &&& round.cs().source == quote.source
    &&& round.cs().target == quote.target
    &&& round.cs().out_domain_samples == quote.t_ood
    &&& round.cs().mode == mode_for(quoted_l_zk(quote))
    &&& round.sc().num_rounds == shape.source_folding_factor
    &&& round.sumcheck.analytic == quote.sumcheck_floor
    &&& round.code_switch.analytic == quote.code_switch_floor
    &&& ground_is(spec, quote.sumcheck_floor, Pow::RoundSumcheck { index }, round.sc().round_pow)
    &&& ground_is(spec, quote.code_switch_floor, Pow::RoundCodeSwitch { index }, round.cs().pow)
    &&& match quote.masks {
        None => round.mode is Standard,
        Some(m) => match round.mode {
            RoundMode::Standard => false,
            RoundMode::ZeroKnowledge { t_ood, mask_oracle } => {
                let pow = Pow::RoundMaskProximity { index };
                &&& t_ood == quote.t_ood
                &&& mask_oracle.t_ood == quote.t_ood
                &&& mask_oracle.l_zk == l_zk_for(quote.source, quote.t_ood)
                &&& mask_oracle.sumcheck_masks.config.c_zk_commit == m.sumcheck_c_zk
                &&& mask_oracle.cs_mask.config.c_zk_commit == m.cs_c_zk
                &&& mask_oracle.sumcheck_masks.analytic == m.sumcheck_masks_floor
                &&& mask_oracle.cs_mask.analytic == m.cs_mask_floor
                &&& ground_is(
                    spec,
                    m.sumcheck_masks_floor,
                    pow,
                    mask_oracle.sumcheck_masks.config.pow,
                )
                &&& ground_is(spec, m.cs_mask_floor, pow, mask_oracle.cs_mask.config.pow)
            },
        },
    }
}

/// Is this the work of a slot that was ground?
pub open spec fn ground_is(spec: SecuritySpec, floor: Bits, pow: Pow, work: proof_of_work::Config) -> bool {
    ground_at(spec, floor, pow) == Ok::<proof_of_work::Config, DeriveError>(work)
}

/// The round that the codes give, if every slot can be ground.
pub fn build_round_config(spec: &SecuritySpec, shape: &RoundShape, quote: &RoundQuote) -> (r: Result<
    RoundConfig,
    DeriveError,
>)
    requires
        quote_fits(*spec, *shape, *quote),
    ensures
        match round_fault(*spec, shape.round_slot.spec_index(), *quote) {
            Some(e) => r == Err::<RoundConfig, DeriveError>(e),
            None => r is Ok && round_built(*spec, *shape, *quote, r->Ok_0),
        },
{
    let index: usize = shape.round_slot.index();
    let ctx: RoundContext = round_context(shape);
    proof {
        lemma_shape_sizes(*spec, *shape, *quote);
    }
    let (l_zk, mode): (Branch<usize>, RoundMode) = match &quote.masks {
        None => (Branch::Standard, RoundMode::Standard),
        Some(m) => {
            let sumcheck_masks: Solved<mask_proximity::Config> = match mask_proximity_params::solve(
                spec,
                m.sumcheck_c_zk,
                sumcheck_params::masks_required(&ctx),
                m.sumcheck_masks_floor,
                index,
            ) {
                Ok(s) => s,
                Err(e) => {
                    return Err(e);
                },
            };
            let cs_mask: Solved<mask_proximity::Config> = match mask_proximity_params::solve(
                spec,
                m.cs_c_zk,
                code_switch_params::masks_required(),
                m.cs_mask_floor,
                index,
            ) {
                Ok(s) => s,
                Err(e) => {
                    return Err(e);
                },
            };
            let l: usize = compute_l_zk(&quote.source, quote.t_ood);
            let mask_oracle = MaskOracleConfig {
                sumcheck_masks,
                cs_mask,
                l_zk: l,
                t_ood: quote.t_ood,
            };
            (Branch::ZeroKnowledge(l), RoundMode::ZeroKnowledge { t_ood: quote.t_ood, mask_oracle })
        },
    };
    let zk: bool = l_zk.is_zk();
    let sumcheck: Solved<sumcheck::Config> = match sumcheck_params::solve(
        spec,
        &ctx,
        zk,
        quote.sumcheck_floor,
        Pow::RoundSumcheck { index },
    ) {
        Ok(s) => s,
        Err(e) => {
            return Err(e);
        },
    };
    let code_switch: Solved<code_switch::Config> = match code_switch_params::solve(
        spec,
        quote.source,
        quote.target,
        quote.t_ood,
        l_zk,
        quote.code_switch_floor,
        index,
    ) {
        Ok(s) => s,
        Err(e) => {
            return Err(e);
        },
    };
    Ok(RoundConfig { round_index: index, sumcheck, code_switch, mode })
}

/// The sizes of a round of the given shape.
proof fn lemma_shape_sizes(spec: SecuritySpec, shape: RoundShape, quote: RoundQuote)
    requires
        quote_fits(spec, shape, quote),
    ensures
        next_pow2(shape.source_vector_size as nat) >= pow2(shape.source_folding_factor as nat),
        shape.source_folding_factor > 0 ==> next_pow2(shape.source_vector_size as nat) / pow2(
            shape.source_folding_factor as nat,
        ) == quote.source.message_len(),
        shape.source_folding_factor == 0 ==> shape.source_vector_size == quote.source.message_len(),
{
    let m = ceil_log2_spec(shape.source_vector_size as nat);
    let n = shape.source_folding_factor as nat;
    crate::arith::lemma_pow2_sum((m - n) as nat, n);
    vstd::arithmetic::power2::lemma_pow2_pos(n);
    vstd::arithmetic::power2::lemma_pow2_pos((m - n) as nat);
    let (a, d, q) = (pow2(m) as int, pow2(n) as int, pow2((m - n) as nat) as int);
    assert(a >= d) by (nonlinear_arith)
        requires
            a == q * d,
            q >= 1,
            d >= 1,
    ;
    if n == 0 {
        vstd::arithmetic::power2::lemma2_to64();
        assert(shape.source_vector_size as int / 1 == shape.source_vector_size);
    }
}

} // verus!
