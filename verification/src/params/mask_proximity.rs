//! Parameters of the proximity of a round's masks.

use crate::bits::Bits;
use crate::irs_commit;
use crate::mask_proximity::Config;
use crate::params::error::{grind_to_at, ground_at, DeriveError, Pow};
use crate::params::solved::Solved;
use crate::params::spec::SecuritySpec;
use crate::proof_of_work;
use vstd::prelude::*;

verus! {

/// How many polynomials, times their degrees, the combination of masks is about; none
/// where there is nothing to combine.
pub open spec fn combined(c_zk: &irs_commit::Config, num_masks: nat) -> Option<nat> {
    if c_zk.masked_len() <= 1 || num_masks == 0 {
        None
    } else {
        Some((num_masks * (c_zk.masked_len() - 1)) as nat)
    }
}

/// How many polynomials, times their degrees, the combination of masks is about; none
/// where there is nothing to combine.
pub fn combined_degree(c_zk: &irs_commit::Config, num_masks: usize) -> (r: Option<usize>)
    requires
        c_zk.wf(),
        num_masks * c_zk.masked_len() <= usize::MAX,
    ensures
        match combined(c_zk, num_masks as nat) {
            None => r is None,
            Some(n) => r matches Some(m) && m == n,
        },
{
    let deg: usize = c_zk.masked_message_length();
    if deg <= 1 || num_masks == 0 {
        None
    } else {
        proof {
            let (a, b) = (num_masks as int, deg as int);
            assert(a * (b - 1) <= a * b && a * (b - 1) >= 0) by (nonlinear_arith)
                requires
                    a >= 0,
                    b >= 1,
            ;
        }
        Some(num_masks * (deg - 1))
    }
}

/// The soundness of the combination in bits: the field's size without the logarithm of
/// what is combined; all of it where nothing is.
pub open spec fn combination_bits(field_bits: Bits, log_combined: Option<Bits>) -> Bits {
    match log_combined {
        None => field_bits,
        Some(l) => Bits {
            micro: if field_bits.micro >= l.micro {
                (field_bits.micro - l.micro) as u64
            } else {
                0u64
            },
        },
    }
}

/// The soundness of the combination in bits: the field's size without the logarithm of
/// what is combined; all of it where nothing is.
pub fn analytic_error_bits(field_bits: Bits, log_combined: Option<Bits>) -> (r: Bits)
    ensures
        r == combination_bits(field_bits, log_combined),
{
    match log_combined {
        None => field_bits,
        Some(l) => Bits { micro: field_bits.micro.saturating_sub(l.micro) },
    }
}

impl Config {
    /// The soundness of the masks' combination in bits, given the logarithm of what is
    /// combined.
    pub fn analytic_bits(&self, field_bits: Bits, log_combined: Bits) -> (r: Bits)
        requires
            self.wf(),
        ensures
            r == combination_bits(
                field_bits,
                match combined(&self.c_zk_commit, self.num_masks as nat) {
                    None => None,
                    Some(n) => Some(log_combined),
                },
            ),
    {
        let deg: usize = self.c_zk_commit.masked_message_length();
        if deg <= 1 || self.num_masks == 0 {
            analytic_error_bits(field_bits, None)
        } else {
            analytic_error_bits(field_bits, Some(log_combined))
        }
    }
}

/// The proximity of a round's masks, with the work that its analytic floor leaves to be
/// done.
pub fn solve(
    spec: &SecuritySpec,
    c_zk: irs_commit::Config,
    num_masks: usize,
    analytic: Bits,
    round_index: usize,
) -> (r: Result<Solved<Config>, DeriveError>)
    requires
        forall|pow: proof_of_work::Config|
            (#[trigger] (Config { c_zk_commit: c_zk, num_masks, pow }).wf()),
    ensures
        match ground_at(*spec, analytic, Pow::RoundMaskProximity { index: round_index }) {
            Err(e) => r == Err::<Solved<Config>, DeriveError>(e),
            Ok(pow) => {
                &&& r is Ok
                &&& r->Ok_0.analytic == analytic
                &&& r->Ok_0.config == (Config { c_zk_commit: c_zk, num_masks, pow })
            },
        },
{
    match grind_to_at(spec, analytic, Pow::RoundMaskProximity { index: round_index }) {
        Err(e) => Err(e),
        Ok(pow) => Ok(Solved::new(Config::new(c_zk, num_masks, pow), analytic)),
    }
}

} // verus!
