//! Parameters of the base case.

use crate::arith::{ceil_log2, ceil_log2_spec, lemma_ceil_log2};
use crate::basecase::{BasecaseMode, Config};
use crate::bits::Bits;
use crate::irs_commit;
use crate::params::config::BasecasePlan;
use crate::params::error::{grind_to_at, ground_at, DeriveError, Pow};
use crate::params::spec::{Mode, SecuritySpec};
use crate::proof_of_work;
use crate::sumcheck;
use crate::sumcheck::{max_table_len, SumcheckMode};
use vstd::arithmetic::power2::pow2;
use vstd::prelude::*;

verus! {

/// The soundness of the combination in bits: the smaller of the proximity gap and of the
/// field's size without the list size.
pub open spec fn gamma_bits(field_bits: Bits, log_list_size: Bits, prox_gaps: Bits) -> Bits {
    let poly_id = if field_bits.micro >= log_list_size.micro {
        (field_bits.micro - log_list_size.micro) as u64
    } else {
        0u64
    };
    if prox_gaps.micro <= poly_id {
        prox_gaps
    } else {
        Bits { micro: poly_id }
    }
}

/// The soundness of the combination in bits: the smaller of the proximity gap and of the
/// field's size without the list size.
pub fn analytic_error_bits(field_bits: Bits, log_list_size: Bits, prox_gaps: Bits) -> (r: Bits)
    ensures
        r == gamma_bits(field_bits, log_list_size, prox_gaps),
{
    let poly_id: u64 = field_bits.micro.saturating_sub(log_list_size.micro);
    if prox_gaps.micro <= poly_id {
        prox_gaps
    } else {
        Bits { micro: poly_id }
    }
}

/// The base case for the given code: its two slots, ground one after the other; an
/// error if one cannot be.
pub open spec fn planned(
    spec: SecuritySpec,
    sumcheck_analytic: Bits,
    gamma_analytic: Bits,
) -> Result<(proof_of_work::Config, proof_of_work::Config), DeriveError> {
    match ground_at(spec, sumcheck_analytic, Pow::BasecaseSumcheck) {
        Err(e) => Err(e),
        Ok(first) => match spec.mode {
            Mode::Standard => Ok((first, proof_of_work::Config::spec_none())),
            Mode::ZeroKnowledge => match ground_at(
                spec,
                gamma_analytic,
                Pow::BasecaseGammaCombination,
            ) {
                Err(e) => Err(e),
                Ok(second) => Ok((first, second)),
            },
        },
    }
}

/// The base case for the given code, with the work that its analytic floors leave to be
/// done: the whole vector is folded to one entry.
pub fn solve_with_commit(
    spec: &SecuritySpec,
    commit: irs_commit::Config,
    sumcheck_analytic: Bits,
    gamma_analytic: Bits,
) -> (r: Result<BasecasePlan, DeriveError>)
    requires
        commit.wf(),
        commit.interleaving_depth == 1,
        commit.num_vectors == 1,
        0 < commit.vector_size <= max_table_len(),
    ensures
        match planned(*spec, sumcheck_analytic, gamma_analytic) {
            Err(e) => r == Err::<BasecasePlan, DeriveError>(e),
            Ok((first, second)) => {
                &&& r is Ok
                &&& r->Ok_0.config.wf()
                &&& r->Ok_0.config.commit == commit
                &&& r->Ok_0.config.sumcheck == (sumcheck::Config {
                    initial_size: commit.vector_size,
                    round_pow: first,
                    num_rounds: ceil_log2_spec(commit.vector_size as nat) as usize,
                    mode: SumcheckMode::Standard,
                    degree: 2,
                })
                &&& r->Ok_0.config.mode is ZeroKnowledge <==> spec.mode is ZeroKnowledge
                &&& r->Ok_0.config.pow == second
                &&& r->Ok_0.sumcheck_analytic == sumcheck_analytic
                &&& r->Ok_0.gamma_analytic == gamma_analytic
            },
        },
{
    let vector_size: usize = commit.vector_size;
    let round_pow: proof_of_work::Config = match grind_to_at(
        spec,
        sumcheck_analytic,
        Pow::BasecaseSumcheck,
    ) {
        Ok(p) => p,
        Err(e) => {
            return Err(e);
        },
    };
    let (mode, pow): (BasecaseMode, proof_of_work::Config) = match spec.mode {
        Mode::Standard => (BasecaseMode::Standard, proof_of_work::Config::none()),
        Mode::ZeroKnowledge => match grind_to_at(
            spec,
            gamma_analytic,
            Pow::BasecaseGammaCombination,
        ) {
            Ok(p) => (BasecaseMode::ZeroKnowledge, p),
            Err(e) => {
                return Err(e);
            },
        },
    };
    proof {
        lemma_ceil_log2(vector_size as nat);
        crate::arith::lemma_exponent_small(vector_size);
    }
    let rounds: usize = ceil_log2(vector_size) as usize;
    let sumcheck: sumcheck::Config = sumcheck::Config::new(
        vector_size,
        round_pow,
        rounds,
        SumcheckMode::Standard,
        2,
    );
    proof {
        crate::arith::lemma_ceil_log2_pow2(rounds as nat);
        vstd::arithmetic::power2::lemma_pow2_pos(rounds as nat);
        if rounds == 0 {
            vstd::arithmetic::power2::lemma2_to64();
        } else {
            vstd::arithmetic::div_mod::lemma_div_by_self(pow2(rounds as nat) as int);
        }
    }
    let config = Config { commit, sumcheck, mode, pow };
    Ok(BasecasePlan { config, sumcheck_analytic, gamma_analytic })
}

} // verus!
