//! The state of a round: a claim `<message, covector> == sum` and the commitments
//! that it is opened against.

use crate::algebra::dot_spec;
use crate::field::{all_canonical, fmul, vals, Field64};
use crate::irs_commit;
use crate::irs_commit::{matrices_of, roots_of};
use crate::irs_laws::{law_same_shape, same_shape};
use crate::matrix_commit::Digest;
use crate::sums::fsum;
use vstd::prelude::*;

verus! {

/// Prover-side round state.
///
/// The claim's message is the combination by `theta` of the vectors behind the
/// witnesses; before a merge there is one witness, with weight one.
#[derive(Debug)]
pub struct ProverBlock {
    pub message: Vec<Field64>,
    pub covector: Vec<Field64>,
    pub sum: Field64,
    pub witnesses: Vec<irs_commit::Witness>,
    pub theta: Vec<Field64>,
}

/// [`ProverBlock`] as a mathematical value.
pub struct BlockView {
    pub message: Seq<int>,
    pub covector: Seq<int>,
    pub sum: int,
    pub matrices: Seq<Seq<int>>,
    pub masks: Seq<Seq<int>>,
    pub theta: Seq<int>,
}

/// The mask coefficients of several witnesses.
pub open spec fn masks_of(witnesses: Seq<irs_commit::Witness>) -> Seq<Seq<int>> {
    Seq::new(witnesses.len(), |b: int| vals(witnesses[b].masks@))
}

impl View for ProverBlock {
    type V = BlockView;

    open spec fn view(&self) -> BlockView {
        BlockView {
            message: vals(self.message@),
            covector: vals(self.covector@),
            sum: self.sum@,
            matrices: matrices_of(self.witnesses@),
            masks: masks_of(self.witnesses@),
            theta: vals(self.theta@),
        }
    }
}

impl ProverBlock {
    /// Are the message and the covector of the source's size, and is there a weight
    /// for every witness?
    pub open spec fn wf(&self, source: &irs_commit::Config) -> bool {
        &&& self.message@.len() == source.vector_size
        &&& self.covector@.len() == source.vector_size
        &&& self.witnesses@.len() == self.theta@.len()
        &&& self.witnesses@.len() >= 1
        &&& forall|b: int| 0 <= b < self.witnesses@.len() ==> (#[trigger] self.witnesses@[b]).wf(source)
    }

    /// A block with one witness, of weight one.
    pub fn single_source(
        message: Vec<Field64>,
        covector: Vec<Field64>,
        sum: Field64,
        witness: irs_commit::Witness,
    ) -> (r: Self)
        ensures
            r.message == message,
            r.covector == covector,
            r.sum == sum,
            r.witnesses@ == seq![witness],
            vals(r.theta@) == seq![1int],
            r.theta@.len() == 1,
            r@ == single_block(
                vals(message@),
                vals(covector@),
                sum@,
                vals(witness.matrix@),
                vals(witness.masks@),
            ),
    {
        let mut witnesses: Vec<irs_commit::Witness> = Vec::new();
        witnesses.push(witness);
        let theta: Vec<Field64> = vec![Field64::one()];
        assert(vals(theta@) =~= seq![1int]);
        assert(witnesses@ =~= seq![witness]);
        assert(matrices_of(witnesses@) =~= seq![vals(witness.matrix@)]);
        assert(masks_of(witnesses@) =~= seq![vals(witness.masks@)]);
        ProverBlock { message, covector, sum, witnesses, theta }
    }
}

/// A block with one witness, of weight one.
pub open spec fn single_block(
    message: Seq<int>,
    covector: Seq<int>,
    sum: int,
    matrix: Seq<int>,
    masks: Seq<int>,
) -> BlockView {
    BlockView {
        message,
        covector,
        sum,
        matrices: seq![matrix],
        masks: seq![masks],
        theta: seq![1int],
    }
}

/// Entry `i` of every vector, times the vector's weight.
pub open spec fn theta_terms(theta: Seq<int>, vectors: Seq<Seq<int>>, i: int) -> spec_fn(int) -> int {
    |b: int| fmul(theta[b], vectors[b][i])
}

/// The sum of vectors of length `len`, each times its weight.
pub open spec fn theta_combined(theta: Seq<int>, vectors: Seq<Seq<int>>, len: nat) -> Seq<int> {
    Seq::new(len, |i: int| fsum(theta_terms(theta, vectors, i), theta.len()))
}

impl BlockView {
    /// Does the claim hold, and do the witnesses commit to vectors whose combination
    /// is the message?
    pub open spec fn valid(self, source: &irs_commit::Config, vectors: Seq<Seq<int>>) -> bool {
        &&& self.theta.len() >= 1
        &&& vectors.len() == self.theta.len()
        &&& self.masks.len() == self.theta.len()
        &&& self.matrices.len() == self.theta.len()
        &&& all_canonical(self.theta)
        &&& all_canonical(self.message)
        &&& all_canonical(self.covector)
        &&& self.message.len() == source.vector_size
        &&& self.covector.len() == source.vector_size
        &&& forall|b: int|
            0 <= b < vectors.len() ==> all_canonical(#[trigger] vectors[b]) && vectors[b].len()
                == source.vector_size
        &&& forall|b: int|
            0 <= b < self.masks.len() ==> all_canonical(#[trigger] self.masks[b])
                && self.masks[b].len() == source.num_mask_coefficients()
        &&& forall|b: int|
            0 <= b < self.matrices.len() ==> #[trigger] self.matrices[b] == source.encoded(
                seq![vectors[b]],
                self.masks[b],
            )
        &&& self.message == theta_combined(self.theta, vectors, source.vector_size as nat)
        &&& self.sum == dot_spec(self.message, self.covector)
    }
}

/// A block for one code is a block for every code of the same shape.
pub proof fn lemma_block_shape(
    block: BlockView,
    a: &irs_commit::Config,
    b: &irs_commit::Config,
    vectors: Seq<Seq<int>>,
)
    requires
        same_shape(a, b),
        block.valid(a, vectors),
    ensures
        block.valid(b, vectors),
{
    law_same_shape(a, b);
}

/// A block for one code is a block for every code of the same shape.
pub proof fn lemma_prover_block_shape(block: &ProverBlock, a: &irs_commit::Config, b: &irs_commit::Config)
    requires
        same_shape(a, b),
        block.wf(a),
    ensures
        block.wf(b),
{
    law_same_shape(a, b);
}

/// The sum of vectors, each times its weight.
pub fn theta_combine(theta: &[Field64], vectors: &[irs_commit::Witness], len: usize) -> (r: Vec<Field64>)
    requires
        theta@.len() == vectors@.len(),
        forall|b: int| 0 <= b < vectors@.len() ==> (#[trigger] vectors@[b]).masks@.len() == len,
    ensures
        vals(r@) == theta_combined(vals(theta@), masks_of(vectors@), len as nat),
        r@.len() == len,
{
    let ghost th = vals(theta@);
    let ghost ms = masks_of(vectors@);
    let mut out: Vec<Field64> = Vec::new();
    for i in 0..len
        invariant
            theta@.len() == vectors@.len(),
            forall|b: int| 0 <= b < vectors@.len() ==> (#[trigger] vectors@[b]).masks@.len() == len,
            th == vals(theta@),
            ms == masks_of(vectors@),
            out@.len() == i,
            forall|j: int| 0 <= j < i ==> (#[trigger] out@[j])@ == theta_combined(th, ms, len as nat)[j],
    {
        let mut acc: Field64 = Field64::zero();
        for b in 0..theta.len()
            invariant
                i < len,
                theta@.len() == vectors@.len(),
                forall|b: int| 0 <= b < vectors@.len() ==> (#[trigger] vectors@[b]).masks@.len() == len,
                th == vals(theta@),
                ms == masks_of(vectors@),
                acc@ == fsum(theta_terms(th, ms, i as int), b as nat),
        {
            assert(vectors@[b as int].masks@.len() == len);
            acc = acc.add(theta[b].mul(vectors[b].masks[i]));
        }
        out.push(acc);
    }
    assert(vals(out@) =~= theta_combined(th, ms, len as nat));
    out
}

/// Verifier-side round state.
#[derive(Debug)]
pub struct VerifierBlock {
    pub sum: Field64,
    pub commitments: Vec<irs_commit::Commitment>,
    pub theta: Vec<Field64>,
}

/// [`VerifierBlock`] as a mathematical value.
pub struct CheckBlock {
    pub sum: int,
    pub roots: Seq<Digest>,
    pub theta: Seq<int>,
}

impl View for VerifierBlock {
    type V = CheckBlock;

    open spec fn view(&self) -> CheckBlock {
        CheckBlock {
            sum: self.sum@,
            roots: roots_of(self.commitments@),
            theta: vals(self.theta@),
        }
    }
}

impl VerifierBlock {
    /// A block with one commitment, of weight one.
    pub fn single_source(sum: Field64, commitment: irs_commit::Commitment) -> (r: Self)
        ensures
            r@ == (CheckBlock {
                sum: sum@,
                roots: seq![commitment.matrix_commitment.root],
                theta: seq![1int],
            }),
            r.commitments@.len() == 1,
            r.commitments@[0] == commitment,
            r.theta@.len() == 1,
    {
        let commitments: Vec<irs_commit::Commitment> = vec![commitment];
        let theta: Vec<Field64> = vec![Field64::one()];
        assert(roots_of(commitments@) =~= seq![commitment.matrix_commitment.root]);
        assert(vals(theta@) =~= seq![1int]);
        VerifierBlock { sum, commitments, theta }
    }
}

} // verus!
