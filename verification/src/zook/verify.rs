//! The verifier: the mirror of the prover on the receiving side.

use crate::algebra::{dot, dot_spec, geometric, geometric_sequence};
use crate::arith::{ceil_log2_spec, is_pow2, lemma_ceil_log2_pow2};
use crate::basecase;
use crate::code_switch::concat;
use crate::field::{fsub, lemma_vals_push, vals, Field64};
use crate::irs_commit;
use crate::linear_form::LinearForm;
use crate::matrix_commit::Digest;
use crate::params::config::{rounds_chained, ProtocolConfig, RoundConfig};
use crate::sums::fsum;
use crate::transcript::{challenge, VerificationError, VerifierState, VerifierView};
use crate::zook::block::{CheckBlock, VerifierBlock};
use crate::zook::commit::Commitment;
use crate::zook::final_claim::{
    constraint_sum, constraint_terms, constraint_views, group_views, push_constraints,
    round_constraints, scale_suffix, scale_suffixes, ClaimGroup, ConstraintView, FinalClaim,
    GroupView, ImplicitConstraint,
};
use crate::zook::prove::code_after;
use crate::zook::round::{verify_whir_round, VerifyRoundOutput};
use vstd::prelude::*;

verus! {

/// What the verifier has gathered after some rounds.
pub struct Walk {
    pub block: CheckBlock,
    pub points: Seq<int>,
    /// How many challenges were drawn before every round, and in all.
    pub starts: Seq<usize>,
    pub scales: Seq<int>,
    pub constraints: Seq<ConstraintView>,
    pub view: VerifierView,
}

/// The verifier before the first round.
pub open spec fn walk_start(block: CheckBlock, v: VerifierView) -> Walk {
    Walk {
        block,
        points: Seq::empty(),
        starts: seq![0usize],
        scales: Seq::empty(),
        constraints: Seq::empty(),
        view: v,
    }
}

/// The verifier after the first `k` rounds; `None` if one is rejected.
pub open spec fn rounds_checked(rounds: Seq<RoundConfig>, k: nat, block: CheckBlock, v: VerifierView) -> Option<
    Walk,
>
    decreases k,
{
    if k == 0 {
        Some(walk_start(block, v))
    } else {
        match rounds_checked(rounds, (k - 1) as nat, block, v) {
            None => None,
            Some(w) => match rounds[k - 1].round_checked(w.block, w.view) {
                None => None,
                Some(o) => Some(
                    Walk {
                        block: o.block,
                        points: w.points + o.points,
                        starts: w.starts.push((w.points + o.points).len() as usize),
                        scales: w.scales.push(o.update.scale),
                        constraints: w.constraints + round_constraints(
                            o.update,
                            ceil_log2_spec(rounds[k - 1].cs().source.message_len()),
                            (k - 1) as nat,
                        ),
                        view: o.view,
                    },
                ),
            },
        }
    }
}

/// What a verification leaves to check.
pub struct Verified {
    pub group: GroupView,
    pub contribution: int,
    pub view: VerifierView,
}

impl ProtocolConfig {
    /// What the verification of claimed values leaves to check; `None` if it rejects.
    pub open spec fn verified(&self, root: Digest, evaluations: Seq<int>, v: VerifierView) -> Option<
        Verified,
    > {
        let batching = challenge(v.sponge);
        let block = CheckBlock {
            sum: dot_spec(evaluations, geometric(1, batching, evaluations.len())),
            roots: seq![root],
            theta: seq![1int],
        };
        match rounds_checked(self.rounds@, self.rounds@.len(), block, v.draw()) {
            None => None,
            Some(w) => match self.basecase.config.open_checked(w.block.roots[0], w.block.sum, w.view) {
                None => None,
                Some(o) => {
                    let full = w.points + o.points;
                    Some(
                        Verified {
                            group: GroupView {
                                point: full,
                                scale: scale_suffix(w.scales, 0),
                                batching,
                            },
                            contribution: fsub(
                                o.value,
                                fsum(
                                    constraint_terms(w.constraints, w.scales, w.starts, full),
                                    w.constraints.len(),
                                ),
                            ),
                            view: o.view,
                        },
                    )
                },
            },
        }
    }
}

/// What the verifier carries from round to round.
#[derive(Debug)]
pub struct RoundWalk {
    pub block: VerifierBlock,
    pub points: Vec<Field64>,
    pub starts: Vec<usize>,
    pub scales: Vec<Field64>,
    pub constraints: Vec<ImplicitConstraint>,
}

impl RoundWalk {
    /// Does this hold what the verifier has gathered, up to the transcript?
    pub open spec fn is(&self, w: Walk) -> bool {
        &&& self.block@ == w.block
        &&& vals(self.points@) == w.points
        &&& self.starts@ == w.starts
        &&& vals(self.scales@) == w.scales
        &&& constraint_views(self.constraints@) == w.constraints
        &&& self.block.commitments@.len() == self.block.theta@.len()
    }
}

/// A round takes as many variables as its sumcheck has rounds.
pub proof fn lemma_round_variables(round: &RoundConfig)
    requires
        round.wf(),
    ensures
        ceil_log2_spec(round.cs().source.vector_size as nat) == round.sc().num_rounds + ceil_log2_spec(
            round.cs().source.message_len(),
        ),
        round.cs().target.vector_size == round.cs().source.message_len(),
        is_pow2(round.cs().source.message_len()),
{
    crate::zook::round_laws::lemma_source_sizes(round);
    let s = round.cs().source;
    let k = round.sc().num_rounds as nat;
    let m = ceil_log2_spec(s.message_len());
    crate::arith::lemma_pow2_sum(m, k);
    lemma_ceil_log2_pow2(m + k);
}

/// Where the verifier is after some rounds: the points and the code's size account for
/// all variables, and every constraint ends with the point.
pub open spec fn walk_fits(w: Walk, rounds: nat, variables: nat, left: nat) -> bool {
    &&& w.points.len() + left == variables
    &&& w.starts.len() == rounds + 1
    &&& w.scales.len() == rounds
    &&& w.starts[rounds as int] == w.points.len()
    &&& forall|i: int|
        0 <= i < w.constraints.len() ==> (#[trigger] w.constraints[i]).round < rounds
            && w.starts[w.constraints[i].round as int + 1] + w.constraints[i].bits == variables
}

/// Verify rounds one after the other.
#[verifier::rlimit(40)]
pub fn verify_rounds(
    rounds: &[RoundConfig],
    start: VerifierBlock,
    vs: &mut VerifierState,
    Ghost(first): Ghost<irs_commit::Config>,
) -> (r: Result<RoundWalk, VerificationError>)
    requires
        rounds_chained(rounds@),
        rounds@.len() > 0 ==> first == rounds@[0].cs().source,
        start.commitments@.len() == 1,
        start.theta@.len() == 1,
    ensures
        match rounds_checked(rounds@, rounds@.len(), start@, old(vs)@) {
            None => r is Err,
            Some(w) => {
                &&& r is Ok
                &&& r->Ok_0.is(w)
                &&& r->Ok_0.block.commitments@.len() == 1
                &&& final(vs)@ == w.view
                &&& walk_fits(
                    w,
                    rounds@.len(),
                    ceil_log2_spec(first.vector_size as nat),
                    ceil_log2_spec(code_after(rounds@, first, rounds@.len()).vector_size as nat),
                )
            },
        },
{
    let ghost b0 = start@;
    let ghost variables = ceil_log2_spec(first.vector_size as nat);
    let mut walk: RoundWalk = RoundWalk {
        block: start,
        points: Vec::new(),
        starts: vec![0],
        scales: Vec::new(),
        constraints: Vec::new(),
    };
    let ghost mut w: Walk = walk_start(b0, vs@);
    proof {
        assert(vals(walk.points@) =~= Seq::<int>::empty());
        assert(vals(walk.scales@) =~= Seq::<int>::empty());
        assert(constraint_views(walk.constraints@) =~= Seq::<ConstraintView>::empty());
        assert(walk.starts@ =~= seq![0usize]);
    }
    for i in 0..rounds.len()
        invariant
            rounds_chained(rounds@),
            rounds@.len() > 0 ==> first == rounds@[0].cs().source,
            b0 == start@,
            variables == ceil_log2_spec(first.vector_size as nat),
            rounds_checked(rounds@, i as nat, b0, old(vs)@) == Some(w),
            walk.is(w),
            walk.block.commitments@.len() == 1,
            vs@ == w.view,
            walk_fits(
                w,
                i as nat,
                variables,
                ceil_log2_spec(code_after(rounds@, first, i as nat).vector_size as nat),
            ),
    {
        assert(rounds@[i as int].wf());
        let ghost before = w;
        proof {
            lemma_round_variables(&rounds@[i as int]);
        }
        let msg_len: usize = rounds[i].code_switch.config.source.message_length();
        let RoundWalk { block, points, starts, scales, constraints } = walk;
        let (next, out): (VerifierBlock, VerifyRoundOutput) = match verify_whir_round(
            &rounds[i],
            block,
            vs,
        ) {
            Ok(x) => x,
            Err(e) => {
                proof {
                    lemma_walk_fails(rounds@, (i + 1) as nat, rounds@.len(), b0, old(vs)@);
                }
                return Err(e);
            },
        };
        let new_points: Vec<Field64> = concat(points.as_slice(), out.round_challenges.as_slice());
        let mut new_starts: Vec<usize> = starts;
        new_starts.push(new_points.len());
        let mut new_scales: Vec<Field64> = scales;
        proof {
            lemma_vals_push(new_scales@, out.update_params.original_sl_coeff);
        }
        new_scales.push(out.update_params.original_sl_coeff);
        let mut new_constraints: Vec<ImplicitConstraint> = constraints;
        push_constraints(&mut new_constraints, &out.update_params, msg_len, i);
        walk =
        RoundWalk {
            block: next,
            points: new_points,
            starts: new_starts,
            scales: new_scales,
            constraints: new_constraints,
        };
        proof {
            w = rounds_checked(rounds@, (i + 1) as nat, b0, old(vs)@).unwrap();
            assert(vals(new_points@).len() == new_points@.len());
            assert(walk.is(w));
            assert forall|j: int| 0 <= j < w.constraints.len() implies (#[trigger] w.constraints[j]).round
                < i + 1 && w.starts[w.constraints[j].round as int + 1] + w.constraints[j].bits
                == variables by {
                if j < before.constraints.len() {
                    assert(w.constraints[j] == before.constraints[j]);
                    assert(before.constraints[j].round < i);
                }
            }
        }
    }
    Ok(walk)
}

proof fn lemma_walk_fails(rounds: Seq<RoundConfig>, j: nat, k: nat, block: CheckBlock, v: VerifierView)
    requires
        j <= k,
        rounds_checked(rounds, j, block, v) is None,
    ensures
        rounds_checked(rounds, k, block, v) is None,
    decreases k,
{
    if j < k {
        lemma_walk_fails(rounds, j, (k - 1) as nat, block, v);
    }
}

impl ProtocolConfig {
    /// Verify claimed values of linear forms of the committed witness. The claim that
    /// is left must be checked against the forms.
    pub fn verify(
        &self,
        vs: &mut VerifierState,
        commitment: Commitment,
        linear_forms: &[&LinearForm],
        evaluations: &[Field64],
    ) -> (r: Result<FinalClaim, VerificationError>)
        requires
            self.wf(),
            linear_forms@.len() == evaluations@.len(),
            linear_forms@.len() > 0,
        ensures
            match self.verified(
                commitment.irs_commitment.matrix_commitment.root,
                vals(evaluations@),
                old(vs)@,
            ) {
                None => r is Err,
                Some(o) => {
                    &&& r is Ok
                    &&& group_views(r->Ok_0.groups@) == seq![o.group]
                    &&& r->Ok_0.linear_forms_contribution@ == o.contribution
                    &&& final(vs)@ == o.view
                    &&& r->Ok_0.groups@.len() == 1
                    &&& r->Ok_0.groups@[0].evaluation_point@.len() == ceil_log2_spec(
                        self.tuning.vector_size as nat,
                    )
                    &&& r->Ok_0.groups@[0].batching_challenge@ == challenge(old(vs)@.sponge)
                },
            },
    {
        let batching_challenge: Field64 = vs.verifier_message();
        let weights: Vec<Field64> = geometric_sequence(
            Field64::one(),
            batching_challenge,
            linear_forms.len(),
        );
        assert(weights@.len() == vals(weights@).len());
        let sum: Field64 = dot(evaluations, weights.as_slice());
        let start: VerifierBlock = VerifierBlock::single_source(sum, commitment.irs_commitment);
        let ghost b0 = start@;
        let ghost v1 = vs@;
        let walk: RoundWalk = match verify_rounds(
            self.rounds.as_slice(),
            start,
            vs,
            Ghost(self.first_code()),
        ) {
            Ok(w) => w,
            Err(e) => {
                return Err(e);
            },
        };
        let ghost w = rounds_checked(self.rounds@, self.rounds@.len(), b0, v1).unwrap();
        let opening: basecase::Opening = match self.basecase.config.verify(
            vs,
            &walk.block.commitments[0],
            walk.block.sum,
        ) {
            Ok(o) => o,
            Err(e) => {
                return Err(e);
            },
        };
        proof {
            let size = self.basecase.config.spec_size();
            assert(size == code_after(self.rounds@, self.first_code(), self.rounds@.len()).vector_size);
            if self.rounds@.len() > 0 {
                let last = self.rounds@[self.rounds@.len() - 1];
                assert(last.wf());
                lemma_round_variables(&last);
                crate::zook::round_laws::lemma_source_sizes(&last);
            } else {
                crate::arith::lemma_ceil_log2(self.tuning.vector_size as nat);
            }
            assert(size > 0);
            crate::sumcheck_laws::lemma_size_bound(&self.basecase.config.sumcheck);
        }
        let evaluation_point: Vec<Field64> = concat(
            walk.points.as_slice(),
            opening.evaluation_points.as_slice(),
        );
        let suffixes: Vec<Field64> = scale_suffixes(walk.scales.as_slice());
        proof {
            assert(walk.points@.len() == vals(walk.points@).len());
            assert(walk.scales@.len() == vals(walk.scales@).len());
            assert(evaluation_point@.len() == ceil_log2_spec(self.tuning.vector_size as nat));
        }
        let constraints_value: Field64 = constraint_sum(
            walk.constraints.as_slice(),
            suffixes.as_slice(),
            walk.starts.as_slice(),
            evaluation_point.as_slice(),
            Ghost(w.scales),
        );
        let contribution: Field64 = opening.linear_form_evaluation.sub(constraints_value);
        let group = ClaimGroup {
            evaluation_point,
            initial_claim_scale: suffixes[0],
            batching_challenge,
        };
        let ghost gv = group@;
        let mut groups: Vec<ClaimGroup> = Vec::new();
        groups.push(group);
        assert(group_views(groups@) =~= seq![gv]);
        Ok(FinalClaim { groups, linear_forms_contribution: contribution })
    }
}

} // verus!
