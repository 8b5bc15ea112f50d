//! The prover: batch the claims, run the rounds, then the base case.

use crate::algebra::{dot, dot_spec, geometric, geometric_sequence, zeros, zeros_spec};
use crate::basecase;
use crate::field::{vals, Field64};
use crate::irs_commit;
use crate::linear_form::{added_at, LinearForm};
use crate::params::config::{rounds_chained, ProtocolConfig, RoundConfig};
use crate::transcript::{challenge, ProverState, ProverView};
use crate::zook::block::{lemma_prover_block_shape, single_block, BlockView, ProverBlock};
use crate::zook::commit::CommittedWitness;
use crate::zook::final_claim::covectors_of;
use crate::zook::round::prove_whir_round;
use vstd::prelude::*;

verus! {

/// The sum of the first `k` covectors, each times its weight.
pub open spec fn batched_covector(covectors: Seq<Seq<int>>, weights: Seq<int>, n: nat, k: nat) -> Seq<int>
    decreases k,
{
    if k == 0 {
        zeros_spec(n)
    } else {
        added_at(
            batched_covector(covectors, weights, n, (k - 1) as nat),
            0,
            covectors[k - 1],
            weights[k - 1],
        )
    }
}

/// The prover after the first `k` rounds; `None` if one fails.
pub open spec fn rounds_proved(rounds: Seq<RoundConfig>, k: nat, block: BlockView, p: ProverView) -> Option<
    (BlockView, ProverView),
>
    decreases k,
{
    if k == 0 {
        Some((block, p))
    } else {
        match rounds_proved(rounds, (k - 1) as nat, block, p) {
            None => None,
            Some((b, mid)) => match rounds[k - 1].round_proved(b, mid) {
                None => None,
                Some(o) => Some((o.block, o.view)),
            },
        }
    }
}

/// An opening by a prover that is not stuck.
pub open spec fn unstuck(opened: Option<basecase::Opened>) -> Option<basecase::Opened> {
    match opened {
        None => None,
        Some(o) => if o.view.stuck {
            None
        } else {
            Some(o)
        },
    }
}

impl ProtocolConfig {
    /// The prover's first block: the witness against the batched claims.
    pub open spec fn first_block(
        &self,
        message: Seq<int>,
        masks: Seq<int>,
        matrix: Seq<int>,
        covectors: Seq<Seq<int>>,
        evaluations: Seq<int>,
        batching: int,
    ) -> BlockView {
        let weights = geometric(1, batching, covectors.len());
        single_block(
            message,
            batched_covector(
                covectors,
                weights,
                self.tuning.vector_size as nat,
                covectors.len(),
            ),
            dot_spec(evaluations, weights),
            matrix,
            masks,
        )
    }

    /// The prover at the end; `None`, with negligible probability, if a challenge that
    /// must not be zero is, the folded witness is zero, or some work has no solution.
    pub open spec fn proved(
        &self,
        message: Seq<int>,
        masks: Seq<int>,
        matrix: Seq<int>,
        covectors: Seq<Seq<int>>,
        evaluations: Seq<int>,
        p: ProverView,
    ) -> Option<basecase::Opened> {
        let block = self.first_block(
            message,
            masks,
            matrix,
            covectors,
            evaluations,
            challenge(p.sponge),
        );
        match rounds_proved(self.rounds@, self.rounds@.len(), block, p.draw()) {
            None => None,
            Some((b, mid)) => unstuck(
                self.basecase.config.opened(
                    b.message,
                    b.masks[0],
                    b.matrices[0],
                    b.covector,
                    b.sum,
                    mid,
                ),
            ),
        }
    }

    /// Prove the values of linear forms of the committed witness. `None`, with
    /// negligible probability, if a challenge that must not be zero is, the folded witness
    /// is zero, or some work has no solution.
    pub fn prove(
        &self,
        ps: &mut ProverState,
        committed: CommittedWitness,
        linear_forms: &[&LinearForm],
        evaluations: &[Field64],
    ) -> (r: Option<()>)
        requires
            self.wf(),
            committed.state.wf(&self.first_code()),
            linear_forms@.len() == evaluations@.len(),
            linear_forms@.len() > 0,
            forall|j: int|
                0 <= j < linear_forms@.len() ==> (#[trigger] linear_forms@[j]).wf()
                    && linear_forms@[j].covector().len() == self.tuning.vector_size,
        ensures
            match self.proved(
                vals(committed.state.message()),
                vals(committed.state.irs().masks@),
                vals(committed.state.irs().matrix@),
                covectors_of(linear_forms@),
                vals(evaluations@),
                old(ps)@,
            ) {
                None => r is None,
                Some(o) => r is Some && final(ps)@ == o.view,
            },
    {
        let ghost cs = covectors_of(linear_forms@);
        let batching: Field64 = ps.verifier_message();
        let weights: Vec<Field64> = geometric_sequence(
            Field64::one(),
            batching,
            linear_forms.len(),
        );
        assert(weights@.len() == vals(weights@).len());
        let n: usize = self.tuning.vector_size;
        let mut covector: Vec<Field64> = zeros(n);
        for j in 0..linear_forms.len()
            invariant
                cs == covectors_of(linear_forms@),
                n == self.tuning.vector_size,
                weights@.len() == linear_forms@.len(),
                covector@.len() == n,
                vals(covector@) == batched_covector(cs, vals(weights@), n as nat, j as nat),
                forall|i: int|
                    0 <= i < linear_forms@.len() ==> (#[trigger] linear_forms@[i]).wf()
                        && linear_forms@[i].covector().len() == self.tuning.vector_size,
        {
            let form: &LinearForm = linear_forms[j];
            assert(linear_forms@[j as int].wf());
            form.accumulate(&mut covector, 0, weights[j]);
        }
        let sum: Field64 = dot(evaluations, weights.as_slice());
        let (message, irs_witness): (Vec<Field64>, irs_commit::Witness) = committed.state.into_parts();
        let start: ProverBlock = ProverBlock::single_source(message, covector, sum, irs_witness);
        let block: ProverBlock = match prove_rounds(
            self.rounds.as_slice(),
            start,
            ps,
            Ghost(self.first_code()),
        ) {
            Some(b) => b,
            None => {
                return None;
            },
        };
        proof {
            lemma_prover_block_shape(&block, &self.last_code(), &self.basecase.config.commit);
        }
        let ProverBlock { message, covector, sum, witnesses, theta } = block;
        let mut ws: Vec<irs_commit::Witness> = witnesses;
        let ghost w0 = ws@[0];
        match ws.pop() {
            Some(witness) => match self.basecase.config.prove(ps, message, witness, covector, sum) {
                Some(opening) => if ps.stuck {
                    None
                } else {
                    Some(())
                },
                None => None,
            },
            None => None,
        }
    }
}

/// The code that the block after `k` rounds is committed to under.
pub open spec fn code_after(rounds: Seq<RoundConfig>, first: irs_commit::Config, k: nat) -> irs_commit::Config {
    if k == 0 {
        first
    } else {
        rounds[k - 1].cs().target
    }
}

/// Run rounds one after the other.
pub fn prove_rounds(
    rounds: &[RoundConfig],
    start: ProverBlock,
    ps: &mut ProverState,
    Ghost(first): Ghost<irs_commit::Config>,
) -> (r: Option<ProverBlock>)
    requires
        rounds_chained(rounds@),
        rounds@.len() > 0 ==> first == rounds@[0].cs().source,
        start.wf(&first),
        start.witnesses@.len() == 1,
    ensures
        match rounds_proved(rounds@, rounds@.len(), start@, old(ps)@) {
            None => r is None,
            Some((b, view)) => r is Some && r.unwrap()@ == b && final(ps)@ == view
                && r.unwrap().wf(&code_after(rounds@, first, rounds@.len()))
                && r.unwrap().witnesses@.len() == 1,
        },
{
    let ghost b0 = start@;
    let mut block: ProverBlock = start;
    for i in 0..rounds.len()
        invariant
            rounds_chained(rounds@),
            rounds@.len() > 0 ==> first == rounds@[0].cs().source,
            b0 == start@,
            rounds_proved(rounds@, i as nat, b0, old(ps)@) == Some((block@, ps@)),
            block.wf(&code_after(rounds@, first, i as nat)),
            block.witnesses@.len() == 1,
    {
        assert(rounds@[i as int].wf());
        proof {
            lemma_prover_block_shape(
                &block,
                &code_after(rounds@, first, i as nat),
                &rounds@[i as int].cs().source,
            );
        }
        match prove_whir_round(&rounds[i], block, ps) {
            Some(next) => {
                block = next;
            },
            None => {
                proof {
                    lemma_rounds_fail(rounds@, (i + 1) as nat, rounds@.len(), b0, old(ps)@);
                }
                return None;
            },
        }
    }
    Some(block)
}

proof fn lemma_rounds_fail(rounds: Seq<RoundConfig>, j: nat, k: nat, block: BlockView, p: ProverView)
    requires
        j <= k,
        rounds_proved(rounds, j, block, p) is None,
    ensures
        rounds_proved(rounds, k, block, p) is None,
    decreases k,
{
    if j < k {
        lemma_rounds_fail(rounds, j, (k - 1) as nat, block, p);
    }
}

} // verus!
