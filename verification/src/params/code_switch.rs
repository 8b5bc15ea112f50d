//! Parameters of a round's code-switch.

use crate::bits::Bits;
use crate::code_switch::{CodeSwitchMode, Config};
use crate::irs_commit;
use crate::params::branch::Branch;
use crate::params::error::{grind_to_at, ground_at, DeriveError, Pow};
use crate::params::solved::Solved;
use crate::params::spec::SecuritySpec;
use crate::proof_of_work;
use vstd::prelude::*;

verus! {

/// The number of masks that a code-switch needs.
pub fn masks_required() -> (r: usize)
    ensures
        r == 1,
{
    1
}

/// A sum, or the greatest machine size if that is exceeded.
pub open spec fn capped_sum(a: nat, b: nat) -> nat {
    if a + b <= usize::MAX {
        a + b
    } else {
        usize::MAX as nat
    }
}

/// The length of the witness that is sampled out of domain: the message, and the mask
/// of length `l_zk` behind it.
pub fn ood_degree(source: &irs_commit::Config, l_zk: Option<usize>) -> (r: usize)
    requires
        source.wf(),
    ensures
        r == (match l_zk {
            None => source.message_len(),
            Some(l) => capped_sum(source.message_len(), l as nat),
        }),
{
    match l_zk {
        None => source.message_length(),
        Some(l) => source.message_length().saturating_add(l),
    }
}

/// How many claims a code-switch combines: one for every out-of-domain sample and one
/// for every opened column.
pub fn combination_count(source: &irs_commit::Config, t_ood: usize) -> (r: usize)
    requires
        source.in_domain_samples * source.interleaving_depth <= usize::MAX,
    ensures
        r == capped_sum(
            t_ood as nat,
            (source.in_domain_samples * source.interleaving_depth) as nat,
        ),
{
    t_ood.saturating_add(source.in_domain_samples * source.interleaving_depth)
}

/// The soundness of a code-switch in bits: the least of its out-of-domain, in-domain
/// and combination terms.
pub fn analytic_error_bits(ood_term: Bits, in_domain_term: Bits, combination_term: Bits) -> (r: Bits)
    ensures
        r == ood_term || r == in_domain_term || r == combination_term,
        r.micro <= ood_term.micro,
        r.micro <= in_domain_term.micro,
        r.micro <= combination_term.micro,
{
    let first: Bits = if ood_term.micro <= in_domain_term.micro {
        ood_term
    } else {
        in_domain_term
    };
    if first.micro <= combination_term.micro {
        first
    } else {
        combination_term
    }
}

/// The mode of a code-switch with a mask of length `l_zk`.
pub open spec fn mode_for(l_zk: Branch<usize>) -> CodeSwitchMode {
    match l_zk {
        Branch::Standard => CodeSwitchMode::Standard,
        Branch::ZeroKnowledge(l) => CodeSwitchMode::ZeroKnowledge { message_mask_length: l },
    }
}

/// The code-switch of a round, with the work that its analytic floor leaves to be done.
pub fn solve(
    spec: &SecuritySpec,
    source: irs_commit::Config,
    target: irs_commit::Config,
    t_ood: usize,
    l_zk: Branch<usize>,
    analytic: Bits,
    round_index: usize,
) -> (r: Result<Solved<Config>, DeriveError>)
    requires
        forall|pow: proof_of_work::Config|
            (#[trigger] (Config {
                source,
                target,
                mode: mode_for(l_zk),
                out_domain_samples: t_ood,
                pow,
            }).wf()),
    ensures
        match ground_at(*spec, analytic, Pow::RoundCodeSwitch { index: round_index }) {
            Err(e) => r == Err::<Solved<Config>, DeriveError>(e),
            Ok(pow) => {
                &&& r is Ok
                &&& r->Ok_0.analytic == analytic
                &&& r->Ok_0.config == (Config {
                    source,
                    target,
                    mode: mode_for(l_zk),
                    out_domain_samples: t_ood,
                    pow,
                })
            },
        },
{
    let mode: CodeSwitchMode = match l_zk {
        Branch::Standard => CodeSwitchMode::Standard,
        Branch::ZeroKnowledge(l) => CodeSwitchMode::ZeroKnowledge { message_mask_length: l },
    };
    match grind_to_at(spec, analytic, Pow::RoundCodeSwitch { index: round_index }) {
        Err(e) => Err(e),
        Ok(pow) => Ok(Solved::new(Config::new(source, target, t_ood, mode, pow), analytic)),
    }
}

} // verus!
