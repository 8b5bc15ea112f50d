//! Commitments to bundles.

use crate::field::{vals, Field64};
use crate::irs_commit;
use crate::irs_commit::all_vals;
use crate::matrix_commit::Digest;
use crate::params::batched::config::BatchedProtocolConfig;
use crate::params::batched::structure_laws::law_structure_accepted;
use crate::transcript::{challenge, ProverState, VerificationError, VerifierState};
use crate::zook::batched::bundle::{flat_polys, flatten_polys, WitnessBundle};
use crate::zook::commit::CommittedState;
use vstd::prelude::*;

verus! {

/// The prover's handle on a committed bundle, with the challenge that its claims are
/// combined by.
#[derive(Debug)]
pub struct BundleCommittedWitness {
    pub state: CommittedState,
    pub batching_challenge: Field64,
}

/// The verifier's handle on a committed bundle.
#[derive(Clone, Copy, Debug)]
pub struct BundleCommitment {
    pub irs_commitment: irs_commit::Commitment,
    pub batching_challenge: Field64,
}

impl BatchedProtocolConfig {
    /// Commit to a bundle, and draw the challenge for its claims.
    pub fn commit_bundle(&self, ps: &mut ProverState, bundle_idx: usize, bundle: &WitnessBundle<'_>) -> (r:
        BundleCommittedWitness)
        requires
            self.wf(),
            bundle_idx < self.bundle_configs@.len(),
            bundle.polys@.len() == self.bundle_configs@[bundle_idx as int].spec.num_polys,
            bundle.spec_poly_len() == self.bundle_configs@[bundle_idx as int].spec.length,
            forall|k: int|
                0 <= k < bundle.polys@.len() ==> (#[trigger] bundle.polys@[k])@.len()
                    == bundle.spec_poly_len(),
        ensures
            ({
                let code = self.bundle_configs@[bundle_idx as int].irs_config;
                let flat = flat_polys(bundle.values(), bundle.polys@.len());
                let sent = code.committed(seq![flat], old(ps)@);
                &&& r.state is Round
                &&& r.state.wf(&code)
                &&& vals(r.state.message()) == flat
                &&& vals(r.state.irs().masks@) == code.masks_of(old(ps)@)
                &&& vals(r.state.irs().matrix@) == code.encoded(seq![flat], code.masks_of(old(ps)@))
                &&& r.batching_challenge@ == challenge(sent.sponge)
                &&& final(ps)@ == sent.draw()
            }),
    {
        let code: irs_commit::Config = self.bundle_configs[bundle_idx].irs_config;
        proof {
            self.lemma_single_vector(bundle_idx as int);
            assert(self.bundle_wf(bundle_idx as int));
        }
        let flat: Vec<Field64> = flatten_polys(bundle);
        proof {
            lemma_flat_len(bundle.values(), bundle.spec_poly_len(), bundle.polys@.len());
            assert(flat@.len() == vals(flat@).len());
        }
        let mut vectors: Vec<Vec<Field64>> = Vec::new();
        vectors.push(crate::algebra::copied(flat.as_slice()));
        assert(all_vals(vectors@) =~= seq![vals(flat@)]);
        let irs_witness: irs_commit::Witness = code.commit(ps, vectors.as_slice());
        let batching_challenge: Field64 = ps.verifier_message();
        BundleCommittedWitness {
            state: CommittedState::Round { message: flat, irs_witness },
            batching_challenge,
        }
    }

    /// Receive the commitment to a bundle, and draw the challenge for its claims.
    pub fn receive_bundle_commitment(&self, vs: &mut VerifierState, bundle_idx: usize) -> (r: Result<
        BundleCommitment,
        VerificationError,
    >)
        requires
            self.wf(),
            bundle_idx < self.bundle_configs@.len(),
        ensures
            match old(vs)@.read_all(4) {
                None => r is Err,
                Some((ws, next)) => {
                    &&& r is Ok
                    &&& r->Ok_0.irs_commitment.matrix_commitment.root == (Digest {
                        a: ws[0],
                        b: ws[1],
                        c: ws[2],
                        d: ws[3],
                    })
                    &&& r->Ok_0.batching_challenge@ == challenge(next.sponge)
                    &&& final(vs)@ == next.draw()
                },
            },
    {
        proof {
            assert(self.bundle_wf(bundle_idx as int));
        }
        match self.bundle_configs[bundle_idx].irs_config.receive_commitment(vs) {
            Ok(irs_commitment) => {
                let batching_challenge: Field64 = vs.verifier_message();
                Ok(BundleCommitment { irs_commitment, batching_challenge })
            },
            Err(e) => Err(e),
        }
    }

    /// A bundle's code is for one vector.
    pub proof fn lemma_single_vector(&self, b: int)
        requires
            self.wf(),
            0 <= b < self.bundle_configs@.len(),
        ensures
            self.bundle_configs@[b].irs_config.num_vectors == 1,
    {
        law_structure_accepted(self);
        assert(self.bundle_ok(b)) by {
            self.lemma_bundle_ok(b);
        }
        assert(self.bundle_wf(b));
        let cfg = self.bundle_configs@[b];
        if cfg.pre_merge_rounds@.len() > 0 {
            assert(cfg.pre_merge_rounds@[0].wf());
        } else {
            assert(self.inner.rounds@[cfg.join_round.unwrap() as int].wf());
        }
    }
}

/// The length of the polynomials one after the other.
pub proof fn lemma_flat_len(polys: Seq<Seq<int>>, len: nat, n: nat)
    requires
        n <= polys.len(),
        forall|i: int| 0 <= i < polys.len() ==> (#[trigger] polys[i]).len() == len,
    ensures
        flat_polys(polys, n).len() == n * len,
    decreases n,
{
    if n == 0 {
        assert(0 * len == 0) by (nonlinear_arith);
    } else {
        lemma_flat_len(polys, len, (n - 1) as nat);
        assert(n * len == (n - 1) * len + len) by (nonlinear_arith);
    }
}

} // verus!
