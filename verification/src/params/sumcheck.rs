//! Parameters of a round's sumcheck.

use crate::arith::next_pow2;
use crate::bits::{Bits, UNITS_PER_BIT};
use crate::params::error::{grind_to_at, ground_at, DeriveError, Pow};
use crate::params::solved::Solved;
use crate::params::spec::{RoundContext, SecuritySpec};
use crate::sumcheck::{max_table_len, Config, SumcheckMaskLen, SumcheckMode};
use vstd::arithmetic::power2::pow2;
use vstd::prelude::*;

verus! {

/// What the soundness of a sumcheck round depends on, as binary logarithms: the size of
/// the field, the list size of the source's code and its proximity gap; and in
/// zero-knowledge mode the list size of the masks' code and the masks' length.
#[derive(Clone, Copy, Debug)]
pub struct SumcheckTerms {
    pub field_bits: Bits,
    pub log_list_size: Bits,
    pub prox_gaps: Bits,
    pub mask: Option<(Bits, Bits)>,
}

impl SumcheckTerms {
    /// What is taken from the field's size: the list size and one bit; with masks both
    /// list sizes and the masks' length.
    pub open spec fn loss(self) -> nat {
        match self.mask {
            None => (self.log_list_size.micro + UNITS_PER_BIT) as nat,
            Some((list, len)) => (self.log_list_size.micro + list.micro + len.micro) as nat,
        }
    }

    /// The smaller of the proximity gap and what the polynomial identity leaves.
    pub open spec fn spec_analytic(self) -> Bits {
        let poly_id = if self.field_bits.micro >= self.loss() {
            (self.field_bits.micro - self.loss()) as u64
        } else {
            0u64
        };
        if self.prox_gaps.micro <= poly_id {
            self.prox_gaps
        } else {
            Bits { micro: poly_id }
        }
    }
}

/// The soundness of a sumcheck round in bits.
pub fn analytic_error_bits(terms: &SumcheckTerms) -> (r: Bits)
    ensures
        r == terms.spec_analytic(),
{
    let after_list: u64 = terms.field_bits.micro.saturating_sub(terms.log_list_size.micro);
    let poly_id: u64 = match terms.mask {
        None => after_list.saturating_sub(UNITS_PER_BIT),
        Some((list, len)) => after_list.saturating_sub(list.micro).saturating_sub(len.micro),
    };
    if terms.prox_gaps.micro <= poly_id {
        terms.prox_gaps
    } else {
        Bits { micro: poly_id }
    }
}

/// Masks never make a sumcheck sounder: a mask of length at least two takes at least
/// as much as no mask.
pub proof fn law_masks_cost(terms: SumcheckTerms, list: Bits, len: Bits)
    requires
        len.micro >= UNITS_PER_BIT,
    ensures
        (SumcheckTerms { mask: Some((list, len)), ..terms }).spec_analytic().micro <= (
        SumcheckTerms { mask: None, ..terms }).spec_analytic().micro,
{
}

/// The number of masks that a round's sumcheck needs: one for every round polynomial.
pub fn masks_required(ctx: &RoundContext) -> (r: usize)
    ensures
        r == ctx.folding_factor,
{
    num_sumcheck_rounds(ctx)
}

fn num_sumcheck_rounds(ctx: &RoundContext) -> (r: usize)
    ensures
        r == ctx.folding_factor,
{
    ctx.folding_factor as usize
}

/// The length of a mask: round polynomials are of degree two, so three coefficients
/// suffice.
pub fn zk_mask_length() -> (r: SumcheckMaskLen)
    ensures
        r.spec_len() == 3,
{
    SumcheckMaskLen::new(3)
}

/// The sumcheck of a round, with the work that its analytic floor leaves to be done.
pub fn solve(
    spec: &SecuritySpec,
    ctx: &RoundContext,
    zero_knowledge: bool,
    analytic: Bits,
    pow: Pow,
) -> (r: Result<Solved<Config>, DeriveError>)
    requires
        ctx.folding_factor == 0 || next_pow2(ctx.vector_size as nat) >= pow2(ctx.folding_factor as nat),
        ctx.vector_size <= max_table_len(),
    ensures
        match ground_at(*spec, analytic, pow) {
            Err(e) => r == Err::<Solved<Config>, DeriveError>(e),
            Ok(round_pow) => {
                &&& r is Ok
                &&& r->Ok_0.analytic == analytic
                &&& r->Ok_0.config.wf()
                &&& r->Ok_0.config.initial_size == ctx.vector_size
                &&& r->Ok_0.config.num_rounds == ctx.folding_factor
                &&& r->Ok_0.config.round_pow == round_pow
                &&& r->Ok_0.config.degree == 2
                &&& r->Ok_0.config.mode is ZeroKnowledge <==> zero_knowledge
                &&& zero_knowledge ==> r->Ok_0.config.mask_len() == 3
            },
        },
{
    let mode: SumcheckMode = if zero_knowledge {
        SumcheckMode::ZeroKnowledge { mask_length: zk_mask_length() }
    } else {
        SumcheckMode::Standard
    };
    match grind_to_at(spec, analytic, pow) {
        Err(e) => Err(e),
        Ok(round_pow) => Ok(
            Solved::new(
                Config::new(ctx.vector_size, round_pow, num_sumcheck_rounds(ctx), mode, 2),
                analytic,
            ),
        ),
    }
}

} // verus!
