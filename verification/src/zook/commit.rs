//! Commitment to the initial witness.

use crate::field::{vals, Field64};
use crate::irs_commit;
use crate::irs_commit::all_vals;
use crate::matrix_commit::Digest;
use crate::params::config::ProtocolConfig;
use crate::transcript::{ProverState, VerificationError, VerifierState};
use vstd::prelude::*;

verus! {

/// The prover's handle on a committed witness; consumed by `prove`.
#[derive(Debug)]
pub struct CommittedWitness {
    pub state: CommittedState,
}

/// Whether the witness was committed to for a round or for the base case.
#[derive(Debug)]
pub enum CommittedState {
    /// The plan has a round; committed under its source code.
    Round { message: Vec<Field64>, irs_witness: irs_commit::Witness },
    /// The plan has no rounds; committed under the base case's code.
    Basecase { message: Vec<Field64>, irs_witness: irs_commit::Witness },
}

impl CommittedState {
    /// The witness.
    pub open spec fn message(&self) -> Seq<Field64> {
        match self {
            CommittedState::Round { message, irs_witness } => message@,
            CommittedState::Basecase { message, irs_witness } => message@,
        }
    }

    /// The commitment's witness.
    pub open spec fn irs(&self) -> irs_commit::Witness {
        match self {
            CommittedState::Round { message, irs_witness } => *irs_witness,
            CommittedState::Basecase { message, irs_witness } => *irs_witness,
        }
    }

    /// Is this a commitment of a witness of the code's size?
    pub open spec fn wf(&self, code: &irs_commit::Config) -> bool {
        &&& self.message().len() == code.vector_size
        &&& self.irs().wf(code)
    }

    /// The witness and the commitment's witness.
    pub fn into_parts(self) -> (r: (Vec<Field64>, irs_commit::Witness))
        ensures
            r.0@ == self.message(),
            r.1 == self.irs(),
    {
        match self {
            CommittedState::Round { message, irs_witness } => (message, irs_witness),
            CommittedState::Basecase { message, irs_witness } => (message, irs_witness),
        }
    }
}

/// The verifier's handle on a commitment; consumed by `verify`.
#[derive(Clone, Copy, Debug)]
pub struct Commitment {
    pub irs_commitment: irs_commit::Commitment,
}

impl ProtocolConfig {
    /// The code that the witness is committed to under.
    pub fn initial_code(&self) -> (r: irs_commit::Config)
        ensures
            r == self.first_code(),
    {
        if self.rounds.len() == 0 {
            self.basecase.config.commit
        } else {
            self.rounds[0].code_switch.config.source
        }
    }

    /// Commit to the initial witness.
    pub fn commit(&self, ps: &mut ProverState, witness: &[Field64]) -> (r: CommittedWitness)
        requires
            self.wf(),
            self.first_code().wf(),
            witness@.len() == self.tuning.vector_size,
        ensures
            r.state is Round <==> self.rounds@.len() > 0,
            r.state.wf(&self.first_code()),
            r.state.message() == witness@,
            vals(r.state.irs().masks@) == self.first_code().masks_of(old(ps)@),
            vals(r.state.irs().matrix@) == self.first_code().encoded(
                seq![vals(witness@)],
                self.first_code().masks_of(old(ps)@),
            ),
            final(ps)@ == self.first_code().committed(seq![vals(witness@)], old(ps)@),
    {
        let code: irs_commit::Config = self.initial_code();
        let mut vectors: Vec<Vec<Field64>> = Vec::new();
        vectors.push(crate::algebra::copied(witness));
        assert(all_vals(vectors@) =~= seq![vals(witness@)]);
        let irs_witness: irs_commit::Witness = code.commit(ps, vectors.as_slice());
        let message: Vec<Field64> = crate::algebra::copied(witness);
        if self.rounds.len() == 0 {
            CommittedWitness { state: CommittedState::Basecase { message, irs_witness } }
        } else {
            CommittedWitness { state: CommittedState::Round { message, irs_witness } }
        }
    }

    /// Receive the commitment to the initial witness.
    pub fn receive_commitment(&self, vs: &mut VerifierState) -> (r: Result<Commitment, VerificationError>)
        requires
            self.first_code().wf(),
        ensures
            match old(vs)@.read_all(4) {
                None => r is Err,
                Some((ws, next)) => r is Ok && final(vs)@ == next
                    && r->Ok_0.irs_commitment.matrix_commitment.root == (Digest {
                    a: ws[0],
                    b: ws[1],
                    c: ws[2],
                    d: ws[3],
                }),
            },
    {
        match self.initial_code().receive_commitment(vs) {
            Ok(irs_commitment) => Ok(Commitment { irs_commitment }),
            Err(e) => Err(e),
        }
    }
}

} // verus!
