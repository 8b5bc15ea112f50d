//! Code-switching: move a claim on a vector behind one Reed-Solomon commitment to
//! one behind another.
//!
//! The folded message is committed to under the target code. Out-of-domain values
//! bind the prover to one message, in-domain rows of the source commitments tie it
//! to the old one, and both kinds of constraints are added to the claim by powers
//! of a challenge.

use crate::algebra::{
    accumulated, dot, dot_spec, eq_table, eq_weights, evaluate, geometric_accumulate, scalar_mul,
    scaled, univariate_evaluate,
};
use crate::arith::is_pow2;
use crate::field::{
    all_canonical, canonical, fadd, fmul, fpow, lemma_vals_canonical, lemma_vals_push, vals,
    Field64,
};
use crate::geometric_challenge::{after_base, combination, geometric_challenge};
use crate::irs_commit;
use crate::irs_commit::{
    all_vals, lemma_challenges_len, lemma_num_indices, lemma_read_fields_len, matrices_of, roots_of,
};
use crate::matrix_commit::{row_of, Digest};
use crate::proof_of_work;
use crate::transcript::{
    challenges, ProverState, ProverView, VerificationError, VerifierState, VerifierView,
};
use vstd::arithmetic::power2::pow2;
use vstd::prelude::*;

verus! {

/// Whether the message is masked.
#[derive(Clone, Copy, Debug, PartialEq, Eq, Structural)]
pub enum CodeSwitchMode {
    Standard,
    ZeroKnowledge { message_mask_length: usize },
}

/// Parameters of a code-switch.
#[derive(Clone, Copy, Debug, PartialEq, Eq, Structural)]
pub struct Config {
    pub source: irs_commit::Config,
    pub target: irs_commit::Config,
    pub mode: CodeSwitchMode,
    pub out_domain_samples: usize,
    pub pow: proof_of_work::Config,
}

/// The prover's output: the message and its new commitment's witness.
#[derive(Debug)]
pub struct Witness {
    pub message: Vec<Field64>,
    pub target_witness: irs_commit::Witness,
}

/// How a code-switch changes the covector: it is scaled, and powers of the
/// out-of-domain and in-domain points are added.
#[derive(Debug)]
pub struct CovectorUpdateParams {
    /// The factor of the old covector.
    pub original_sl_coeff: Field64,
    /// The coefficient of every out-of-domain constraint.
    pub ood_rlc_coeffs: Vec<Field64>,
    /// The out-of-domain points.
    pub ood_eval_points: Vec<Field64>,
    /// The coefficient of every in-domain constraint.
    pub in_domain_rlc_coeffs: Vec<Field64>,
    /// The in-domain points.
    pub in_domain_eval_points: Vec<Field64>,
}

/// [`CovectorUpdateParams`] as a mathematical value.
pub struct Update {
    pub scale: int,
    pub ood_coeffs: Seq<int>,
    pub ood_points: Seq<int>,
    pub in_coeffs: Seq<int>,
    pub in_points: Seq<int>,
}

impl View for CovectorUpdateParams {
    type V = Update;

    open spec fn view(&self) -> Update {
        Update {
            scale: self.original_sl_coeff@,
            ood_coeffs: vals(self.ood_rlc_coeffs@),
            ood_points: vals(self.ood_eval_points@),
            in_coeffs: vals(self.in_domain_rlc_coeffs@),
            in_points: vals(self.in_domain_eval_points@),
        }
    }
}

/// Is there a coefficient for every point?
pub open spec fn update_wf(u: Update) -> bool {
    &&& u.ood_coeffs.len() == u.ood_points.len()
    &&& u.in_coeffs.len() == u.in_points.len()
    &&& canonical(u.scale)
    &&& all_canonical(u.ood_coeffs)
    &&& all_canonical(u.ood_points)
    &&& all_canonical(u.in_coeffs)
    &&& all_canonical(u.in_points)
}

/// Every row's inner product with the weights.
pub open spec fn collapsed(matrix: Seq<int>, weights: Seq<int>, n: nat) -> Seq<int> {
    Seq::new(n, |i: int| dot_spec(weights, row_of(matrix, weights.len(), i)))
}

/// The update that the batching coefficients give.
pub open spec fn update_of(coeffs: Seq<int>, ood_points: Seq<int>, in_points: Seq<int>) -> Update {
    let k = 1 + ood_points.len();
    Update {
        scale: coeffs[0],
        ood_coeffs: coeffs.subrange(1, k as int),
        ood_points,
        in_coeffs: coeffs.subrange(k as int, (k + in_points.len()) as int),
        in_points,
    }
}

/// The claim's sum after the update.
pub open spec fn updated_sum(sum: int, u: Update, ood_answers: Seq<int>, in_values: Seq<int>) -> int {
    fadd(
        fadd(fmul(u.scale, sum), dot_spec(u.ood_coeffs, ood_answers)),
        dot_spec(u.in_coeffs, in_values),
    )
}

/// The prover after a code-switch.
pub struct Switched {
    pub sum: int,
    pub update: Update,
    pub view: ProverView,
}

/// The verifier after a code-switch.
pub struct SwitchChecked {
    pub root: Digest,
    pub sum: int,
    pub update: Update,
    pub view: VerifierView,
}

impl Config {
    /// The length of the mask; zero in standard mode.
    pub open spec fn mask_len(&self) -> nat {
        match self.mode {
            CodeSwitchMode::Standard => 0,
            CodeSwitchMode::ZeroKnowledge { message_mask_length } => message_mask_length as nat,
        }
    }

    /// The length of the covector.
    pub open spec fn covector_len(&self) -> nat {
        self.source.message_len() + self.mask_len()
    }

    /// What the construction demands: single vectors, an out-of-domain sample, a
    /// target for the source's messages, power-of-two interleavings; masks long
    /// enough for all queries in zero-knowledge mode and none otherwise.
    pub open spec fn admissible(&self) -> bool {
        &&& self.source.num_vectors == 1
        &&& self.target.num_vectors == 1
        &&& self.out_domain_samples > 0
        &&& self.target.vector_size == self.source.message_len()
        &&& is_pow2(self.target.interleaving_depth as nat)
        &&& is_pow2(self.source.interleaving_depth as nat)
        &&& match self.mode {
            CodeSwitchMode::Standard => self.source.mode.mask_len() == 0,
            CodeSwitchMode::ZeroKnowledge { message_mask_length } => {
                &&& message_mask_length >= self.source.mode.mask_len()
                &&& message_mask_length - self.source.mode.mask_len() >= self.out_domain_samples
                &&& self.target.mode.mask_len() >= self.target.in_domain_samples
                    + self.out_domain_samples
            },
        }
    }

    /// Are the parameters consistent, and do all sizes fit a machine size?
    pub open spec fn wf(&self) -> bool {
        &&& self.source.wf()
        &&& self.target.wf()
        &&& self.admissible()
        &&& self.covector_len() <= usize::MAX
        &&& 1 + self.out_domain_samples + self.source.in_domain_samples <= usize::MAX
        &&& 1 + self.out_domain_samples + self.source.codeword_length <= usize::MAX
        &&& self.source.deduplicate_in_domain || self.source.in_domain_samples
            * self.source.cols() <= usize::MAX
    }

    /// The message's value at an out-of-domain point, the mask's shifted behind it.
    pub open spec fn ood_answer(&self, message: Seq<int>, mask: Seq<int>, x: int) -> int {
        match self.mode {
            CodeSwitchMode::Standard => evaluate(message, x),
            CodeSwitchMode::ZeroKnowledge { message_mask_length } => fadd(
                evaluate(message, x),
                fmul(fpow(x, message.len()), evaluate(mask, x)),
            ),
        }
    }

    /// The out-of-domain answers.
    pub open spec fn ood_answers(&self, message: Seq<int>, mask: Seq<int>, points: Seq<int>) -> Seq<int> {
        Seq::new(points.len(), |i: int| self.ood_answer(message, mask, points[i]))
    }

    /// The covector after an update: in standard mode every point's powers are added
    /// over the whole of it; in zero-knowledge mode the in-domain points' only as far
    /// as the source's masks reach.
    pub open spec fn updated_covector(&self, covector: Seq<int>, u: Update) -> Seq<int> {
        match self.mode {
            CodeSwitchMode::Standard => accumulated(
                scaled(covector, u.scale),
                u.ood_coeffs + u.in_coeffs,
                u.ood_points + u.in_points,
                covector.len(),
            ),
            CodeSwitchMode::ZeroKnowledge { message_mask_length } => accumulated(
                accumulated(
                    scaled(covector, u.scale),
                    u.ood_coeffs,
                    u.ood_points,
                    covector.len(),
                ),
                u.in_coeffs,
                u.in_points,
                self.source.masked_len(),
            ),
        }
    }

    /// The prover's transcript after the commitment and the work.
    pub open spec fn target_committed(&self, message: Seq<int>, p: ProverView) -> ProverView {
        self.pow.proved(self.target.committed(seq![message], p))
    }

    /// The prover after a code-switch of a message with the given mask, from source
    /// commitments to the given matrices whose rows are combined by `weights`.
    pub open spec fn switched(
        &self,
        message: Seq<int>,
        mask: Seq<int>,
        matrices: Seq<Seq<int>>,
        weights: Seq<int>,
        sum: int,
        p: ProverView,
    ) -> Switched {
        let worked = self.target_committed(message, p);
        let ood_points = challenges(worked.sponge, self.out_domain_samples as nat);
        let answers = self.ood_answers(message, mask, ood_points);
        let answered = worked.draw_many(self.out_domain_samples as nat).send_fields(answers);
        let (in_points, matrix, opened) = self.source.opened(answered, matrices);
        let values = collapsed(matrix, weights, in_points.len());
        let count = 1 + ood_points.len() + in_points.len();
        let update = update_of(combination(opened.sponge, count), ood_points, in_points);
        Switched {
            sum: updated_sum(sum, update, answers, values),
            update,
            view: ProverView { sponge: after_base(opened.sponge, count), ..opened },
        }
    }

    /// The verifier after a code-switch; `None` if it rejects.
    pub open spec fn switch_checked(
        &self,
        roots: Seq<Digest>,
        weights: Seq<int>,
        sum: int,
        v: VerifierView,
    ) -> Option<SwitchChecked> {
        match v.read_all(4) {
            None => None,
            Some((ws, v1)) => match self.pow.verified(v1) {
                None => None,
                Some(v2) => {
                    let ood_points = challenges(v2.sponge, self.out_domain_samples as nat);
                    match v2.draw_many(self.out_domain_samples as nat).read_fields(
                        self.out_domain_samples as nat,
                    ) {
                        None => None,
                        Some((answers, v3)) => match self.source.verified(v3, roots) {
                            None => None,
                            Some((in_points, matrix, v4)) => {
                                let values = collapsed(matrix, weights, in_points.len());
                                let count = 1 + ood_points.len() + in_points.len();
                                let update = update_of(
                                    combination(v4.sponge, count),
                                    ood_points,
                                    in_points,
                                );
                                Some(
                                    SwitchChecked {
                                        root: Digest { a: ws[0], b: ws[1], c: ws[2], d: ws[3] },
                                        sum: updated_sum(sum, update, answers, values),
                                        update,
                                        view: VerifierView {
                                            sponge: after_base(v4.sponge, count),
                                            ..v4
                                        },
                                    },
                                )
                            },
                        },
                    }
                },
            },
        }
    }
}

/// The elements from `from` to `to`.
pub fn sub_vec(xs: &[Field64], from: usize, to: usize) -> (r: Vec<Field64>)
    requires
        from <= to <= xs@.len(),
    ensures
        r@ == xs@.subrange(from as int, to as int),
{
    crate::algebra::copied(vstd::slice::slice_subrange(xs, from, to))
}

/// Every row's inner product with the weights.
pub fn collapse(matrix: &[Field64], weights: &[Field64], n: usize) -> (r: Vec<Field64>)
    requires
        matrix@.len() == n * weights@.len(),
    ensures
        vals(r@) == collapsed(vals(matrix@), vals(weights@), n as nat),
        r@.len() == n,
{
    let stride: usize = weights.len();
    let len: usize = matrix.len();
    let mut out: Vec<Field64> = Vec::new();
    for i in 0..n
        invariant
            len == matrix@.len(),
            stride == weights@.len(),
            matrix@.len() == n * weights@.len(),
            out@.len() == i,
            forall|j: int|
                0 <= j < i ==> (#[trigger] out@[j])@ == collapsed(
                    vals(matrix@),
                    vals(weights@),
                    n as nat,
                )[j],
    {
        proof {
            let (a, b, c) = (i as int, n as int, stride as int);
            assert(a * c + c <= b * c) by (nonlinear_arith)
                requires
                    a < b,
                    c >= 0,
            ;
            assert(a * c >= 0) by (nonlinear_arith)
                requires
                    a >= 0,
                    c >= 0,
            ;
        }
        let row: &[Field64] = vstd::slice::slice_subrange(matrix, i * stride, i * stride + stride);
        assert(vals(row@) =~= row_of(vals(matrix@), stride as nat, i as int));
        out.push(dot(weights, row));
    }
    assert(vals(out@) =~= collapsed(vals(matrix@), vals(weights@), n as nat));
    out
}

impl Config {
    /// A code-switch.
    pub fn new(
        source: irs_commit::Config,
        target: irs_commit::Config,
        out_domain_samples: usize,
        mode: CodeSwitchMode,
        pow: proof_of_work::Config,
    ) -> (r: Self)
        requires
            (Config { source, target, mode, out_domain_samples, pow }).wf(),
        ensures
            r == (Config { source, target, mode, out_domain_samples, pow }),
            r.wf(),
    {
        Config { source, target, mode, out_domain_samples, pow }
    }

    /// The length of the mask; zero in standard mode.
    pub fn message_mask_length(&self) -> (r: usize)
        ensures
            r == self.mask_len(),
    {
        match self.mode {
            CodeSwitchMode::Standard => 0,
            CodeSwitchMode::ZeroKnowledge { message_mask_length } => message_mask_length,
        }
    }

    /// Is the protocol configured for zero knowledge?
    pub fn is_zk(&self) -> (r: bool)
        ensures
            r == self.mode is ZeroKnowledge,
    {
        match self.mode {
            CodeSwitchMode::Standard => false,
            CodeSwitchMode::ZeroKnowledge { message_mask_length } => true,
        }
    }

    /// The length of the covector.
    pub fn covector_length(&self) -> (r: usize)
        requires
            self.wf(),
        ensures
            r == self.covector_len(),
    {
        self.source.message_length() + self.message_mask_length()
    }

    /// Send the message's values at the out-of-domain points.
    fn maybe_send_ood_answers(
        &self,
        ps: &mut ProverState,
        message: &[Field64],
        mask: &[Field64],
        ood_points: &[Field64],
    ) -> (r: Vec<Field64>)
        ensures
            vals(r@) == self.ood_answers(vals(message@), vals(mask@), vals(ood_points@)),
            r@.len() == ood_points@.len(),
            final(ps)@ == old(ps)@.send_fields(vals(r@)),
    {
        let mut answers: Vec<Field64> = Vec::new();
        assert(vals(answers@) =~= Seq::<int>::empty());
        for i in 0..ood_points.len()
            invariant
                answers@.len() == i,
                forall|j: int|
                    0 <= j < i ==> (#[trigger] answers@[j])@ == self.ood_answer(
                        vals(message@),
                        vals(mask@),
                        ood_points@[j]@,
                    ),
                ps@ == old(ps)@.send_fields(vals(answers@)),
        {
            let point: Field64 = ood_points[i];
            let f_eval: Field64 = univariate_evaluate(message, point);
            let answer: Field64 = match self.mode {
                CodeSwitchMode::Standard => f_eval,
                CodeSwitchMode::ZeroKnowledge { message_mask_length } => {
                    let mask_eval: Field64 = univariate_evaluate(mask, point);
                    let shift: Field64 = point.pow(message.len() as u64);
                    f_eval.add(shift.mul(mask_eval))
                },
            };
            ps.prover_message(answer);
            proof {
                lemma_vals_push(answers@, answer);
                assert(vals(answers@).push(answer@).drop_last() =~= vals(answers@));
            }
            answers.push(answer);
        }
        assert(vals(answers@) =~= self.ood_answers(
            vals(message@),
            vals(mask@),
            vals(ood_points@),
        ));
        answers
    }

    /// Add the weights of the constraints to the covector.
    pub fn update_covector(&self, covector: &mut Vec<Field64>, params: &CovectorUpdateParams)
        requires
            self.wf(),
            update_wf(params@),
            old(covector)@.len() == self.covector_len(),
        ensures
            vals(final(covector)@) == self.updated_covector(vals(old(covector)@), params@),
            final(covector)@.len() == old(covector)@.len(),
    {
        scalar_mul(covector, params.original_sl_coeff);
        match self.mode {
            CodeSwitchMode::Standard => {
                let all_points: Vec<Field64> = concat(
                    params.ood_eval_points.as_slice(),
                    params.in_domain_eval_points.as_slice(),
                );
                let all_coeffs: Vec<Field64> = concat(
                    params.ood_rlc_coeffs.as_slice(),
                    params.in_domain_rlc_coeffs.as_slice(),
                );
                let len: usize = covector.len();
                proof {
                    assert(all_points@.len() == vals(all_points@).len());
                    assert(all_coeffs@.len() == vals(all_coeffs@).len());
                }
                geometric_accumulate(covector, all_coeffs.as_slice(), all_points.as_slice(), len);
            },
            CodeSwitchMode::ZeroKnowledge { message_mask_length } => {
                let len: usize = covector.len();
                proof {
                    assert(params.ood_eval_points@.len() == vals(params.ood_eval_points@).len());
                    assert(params.ood_rlc_coeffs@.len() == vals(params.ood_rlc_coeffs@).len());
                    assert(params.in_domain_eval_points@.len() == vals(
                        params.in_domain_eval_points@,
                    ).len());
                    assert(params.in_domain_rlc_coeffs@.len() == vals(
                        params.in_domain_rlc_coeffs@,
                    ).len());
                }
                geometric_accumulate(
                    covector,
                    params.ood_rlc_coeffs.as_slice(),
                    params.ood_eval_points.as_slice(),
                    len,
                );
                geometric_accumulate(
                    covector,
                    params.in_domain_rlc_coeffs.as_slice(),
                    params.in_domain_eval_points.as_slice(),
                    self.source.masked_message_length(),
                );
            },
        }
    }

    /// Draw the batching coefficients and update the sum.
    fn batch(
        &self,
        sponge: &mut crate::transcript::Sponge,
        sum: &mut Field64,
        ood_points: Vec<Field64>,
        ood_answers: &[Field64],
        evaluations: irs_commit::Evaluations,
        weights: &[Field64],
    ) -> (r: CovectorUpdateParams)
        requires
            self.wf(),
            ood_points@.len() == self.out_domain_samples,
            ood_answers@.len() == self.out_domain_samples,
            evaluations.points@.len() <= self.source.in_domain_samples || evaluations.points@.len()
                <= self.source.codeword_length,
            evaluations.matrix@.len() == evaluations.points@.len() * weights@.len(),
        ensures
            ({
                let n = evaluations.points@.len();
                let count = 1 + ood_points@.len() + n;
                let update = update_of(
                    combination(old(sponge)@, count),
                    vals(ood_points@),
                    vals(evaluations.points@),
                );
                &&& r@ == update
                &&& final(sponge)@ == after_base(old(sponge)@, count)
                &&& final(sum)@ == updated_sum(
                    old(sum)@,
                    update,
                    vals(ood_answers@),
                    collapsed(vals(evaluations.matrix@), vals(weights@), n),
                )
            }),
            update_wf(r@),
    {
        broadcast use {lemma_vals_canonical, crate::field::lemma_view_canonical};

        let num_ood: usize = self.out_domain_samples;
        let num_in: usize = evaluations.points.len();
        let values: Vec<Field64> = collapse(evaluations.matrix.as_slice(), weights, num_in);
        let coeffs: Vec<Field64> = geometric_challenge(sponge, 1 + num_ood + num_in);
        let scale: Field64 = coeffs[0];
        let ood_rlc_coeffs: Vec<Field64> = sub_vec(coeffs.as_slice(), 1, 1 + num_ood);
        let in_domain_rlc_coeffs: Vec<Field64> = sub_vec(
            coeffs.as_slice(),
            1 + num_ood,
            1 + num_ood + num_in,
        );
        *sum = scale.mul(*sum).add(dot(ood_rlc_coeffs.as_slice(), ood_answers)).add(
            dot(in_domain_rlc_coeffs.as_slice(), values.as_slice()),
        );
        let r = CovectorUpdateParams {
            original_sl_coeff: scale,
            ood_rlc_coeffs,
            ood_eval_points: ood_points,
            in_domain_rlc_coeffs,
            in_domain_eval_points: evaluations.points,
        };
        proof {
            let update = update_of(vals(coeffs@), vals(ood_points@), vals(evaluations.points@));
            assert(r@.ood_coeffs =~= update.ood_coeffs);
            assert(r@.in_coeffs =~= update.in_coeffs);
        }
        r
    }

    /// Prove a code-switch from one or more source commitments, whose opened rows are
    /// combined by `slot_weights`.
    ///
    /// `message` is the folded message, `mask` the mask oracle's polynomial; the
    /// covector and the sum are updated to the new claim.
    pub fn prove_virtual(
        &self,
        ps: &mut ProverState,
        message: Vec<Field64>,
        witnesses: &[irs_commit::Witness],
        slot_weights: &[Field64],
        covector: &mut Vec<Field64>,
        sum: &mut Field64,
        mask: &[Field64],
    ) -> (r: (Witness, CovectorUpdateParams))
        requires
            self.wf(),
            message@.len() == self.source.message_len(),
            old(covector)@.len() == self.covector_len(),
            mask@.len() == self.mask_len(),
            forall|b: int| 0 <= b < witnesses@.len() ==> (#[trigger] witnesses@[b]).wf(&self.source),
            slot_weights@.len() == witnesses@.len() * self.source.cols(),
        ensures
            ({
                let s = self.switched(
                    vals(message@),
                    vals(mask@),
                    matrices_of(witnesses@),
                    vals(slot_weights@),
                    old(sum)@,
                    old(ps)@,
                );
                &&& final(ps)@ == s.view
                &&& final(sum)@ == s.sum
                &&& vals(final(covector)@) == self.updated_covector(vals(old(covector)@), s.update)
                &&& r.1@ == s.update
            }),
            final(covector)@.len() == old(covector)@.len(),
            r.0.message@ == message@,
            r.0.target_witness.wf(&self.target),
            vals(r.0.target_witness.masks@) == self.target.masks_of(old(ps)@),
            vals(r.0.target_witness.matrix@) == self.target.encoded(
                seq![vals(message@)],
                self.target.masks_of(old(ps)@),
            ),
            update_wf(r.1@),
    {
        let ghost p0 = ps@;
        let ghost msg = vals(message@);
        let mut vectors: Vec<Vec<Field64>> = Vec::new();
        vectors.push(crate::algebra::copied(message.as_slice()));
        assert(all_vals(vectors@) =~= seq![vals(message@)]);
        let target_witness: irs_commit::Witness = self.target.commit(ps, vectors.as_slice());
        self.pow.prove(ps);
        proof {
            lemma_challenges_len(ps@.sponge, self.out_domain_samples as nat);
        }
        let ood_points: Vec<Field64> = ps.verifier_message_vec(self.out_domain_samples);
        assert(ood_points@.len() == vals(ood_points@).len());
        let ood_answers: Vec<Field64> = self.maybe_send_ood_answers(
            ps,
            message.as_slice(),
            mask,
            ood_points.as_slice(),
        );
        proof {
            lemma_num_indices(&self.source, ps@.sponge);
            lemma_few_indices(&self.source, ps@.sponge);
        }
        let evaluations: irs_commit::Evaluations = self.source.open(ps, witnesses);
        let params: CovectorUpdateParams = self.batch(
            &mut ps.sponge,
            sum,
            ood_points,
            ood_answers.as_slice(),
            evaluations,
            slot_weights,
        );
        self.update_covector(covector, &params);
        (Witness { message, target_witness }, params)
    }

    /// Prove a code-switch from one source commitment, whose columns are collapsed by
    /// the sumcheck's folding randomness.
    pub fn prove(
        &self,
        ps: &mut ProverState,
        message: Vec<Field64>,
        witness: irs_commit::Witness,
        covector: &mut Vec<Field64>,
        sum: &mut Field64,
        folding_randomness: &[Field64],
        mask: &[Field64],
    ) -> (r: (Witness, CovectorUpdateParams))
        requires
            self.wf(),
            message@.len() == self.source.message_len(),
            old(covector)@.len() == self.covector_len(),
            mask@.len() == self.mask_len(),
            witness.wf(&self.source),
            pow2(folding_randomness@.len()) == self.source.interleaving_depth,
        ensures
            ({
                let s = self.switched(
                    vals(message@),
                    vals(mask@),
                    seq![vals(witness.matrix@)],
                    eq_table(vals(folding_randomness@)),
                    old(sum)@,
                    old(ps)@,
                );
                &&& final(ps)@ == s.view
                &&& final(sum)@ == s.sum
                &&& vals(final(covector)@) == self.updated_covector(vals(old(covector)@), s.update)
                &&& r.1@ == s.update
            }),
            final(covector)@.len() == old(covector)@.len(),
            r.0.message@ == message@,
            r.0.target_witness.wf(&self.target),
            vals(r.0.target_witness.masks@) == self.target.masks_of(old(ps)@),
            vals(r.0.target_witness.matrix@) == self.target.encoded(
                seq![vals(message@)],
                self.target.masks_of(old(ps)@),
            ),
            update_wf(r.1@),
    {
        let weights: Vec<Field64> = eq_weights(folding_randomness);
        let mut witnesses: Vec<irs_commit::Witness> = Vec::new();
        let ghost matrix = vals(witness.matrix@);
        witnesses.push(witness);
        assert(matrices_of(witnesses@) =~= seq![matrix]);
        self.prove_virtual(
            ps,
            message,
            witnesses.as_slice(),
            weights.as_slice(),
            covector,
            sum,
            mask,
        )
    }

    /// Verify a code-switch from one or more source commitments, without an explicit
    /// covector.
    pub fn verify_virtual_for_implicit(
        &self,
        vs: &mut VerifierState,
        sum: &mut Field64,
        commitments: &[irs_commit::Commitment],
        slot_weights: &[Field64],
    ) -> (r: Result<(irs_commit::Commitment, CovectorUpdateParams), VerificationError>)
        requires
            self.wf(),
            slot_weights@.len() == commitments@.len() * self.source.cols(),
        ensures
            match self.switch_checked(
                roots_of(commitments@),
                vals(slot_weights@),
                old(sum)@,
                old(vs)@,
            ) {
                None => r is Err,
                Some(s) => {
                    &&& r is Ok
                    &&& r->Ok_0.0.matrix_commitment.root == s.root
                    &&& r->Ok_0.1@ == s.update
                    &&& final(sum)@ == s.sum
                    &&& final(vs)@ == s.view
                    &&& update_wf(r->Ok_0.1@)
                },
            },
    {
        let target_commitment: irs_commit::Commitment = match self.target.receive_commitment(vs) {
            Ok(c) => c,
            Err(e) => {
                return Err(e);
            },
        };
        match self.pow.verify(vs) {
            Ok(()) => {},
            Err(e) => {
                return Err(e);
            },
        }
        proof {
            lemma_challenges_len(vs@.sponge, self.out_domain_samples as nat);
        }
        let ood_points: Vec<Field64> = vs.verifier_message_vec(self.out_domain_samples);
        assert(ood_points@.len() == vals(ood_points@).len());
        proof {
            lemma_read_fields_len(vs@, self.out_domain_samples as nat);
        }
        let ood_answers: Vec<Field64> = match vs.prover_messages(self.out_domain_samples) {
            Ok(a) => a,
            Err(e) => {
                return Err(e);
            },
        };
        assert(ood_answers@.len() == vals(ood_answers@).len());
        proof {
            lemma_num_indices(&self.source, vs@.sponge);
            lemma_few_indices(&self.source, vs@.sponge);
        }
        let evaluations: irs_commit::Evaluations = match self.source.verify(vs, commitments) {
            Ok(e) => e,
            Err(e) => {
                return Err(e);
            },
        };
        let params: CovectorUpdateParams = self.batch(
            &mut vs.sponge,
            sum,
            ood_points,
            ood_answers.as_slice(),
            evaluations,
            slot_weights,
        );
        Ok((target_commitment, params))
    }

    /// Verify a code-switch from one source commitment, without an explicit covector.
    /// Rejects folding randomness of the wrong length.
    pub fn verify_for_implicit(
        &self,
        vs: &mut VerifierState,
        sum: &mut Field64,
        folding_randomness: &[Field64],
        commitment: &irs_commit::Commitment,
    ) -> (r: Result<(irs_commit::Commitment, CovectorUpdateParams), VerificationError>)
        requires
            self.wf(),
        ensures
            pow2(folding_randomness@.len()) != self.source.interleaving_depth ==> r is Err,
            pow2(folding_randomness@.len()) == self.source.interleaving_depth ==> match self.switch_checked(
                seq![commitment.matrix_commitment.root],
                eq_table(vals(folding_randomness@)),
                old(sum)@,
                old(vs)@,
            ) {
                None => r is Err,
                Some(s) => {
                    &&& r is Ok
                    &&& r->Ok_0.0.matrix_commitment.root == s.root
                    &&& r->Ok_0.1@ == s.update
                    &&& final(sum)@ == s.sum
                    &&& final(vs)@ == s.view
                },
            },
            r is Ok ==> update_wf(r->Ok_0.1@),
    {
        match crate::arith::checked_power_of_two(folding_randomness.len()) {
            Some(n) => if n != self.source.interleaving_depth {
                return Err(VerificationError);
            },
            None => {
                return Err(VerificationError);
            },
        }
        let weights: Vec<Field64> = eq_weights(folding_randomness);
        let commitments: Vec<irs_commit::Commitment> = vec![*commitment];
        assert(roots_of(commitments@) =~= seq![commitment.matrix_commitment.root]);
        self.verify_virtual_for_implicit(vs, sum, commitments.as_slice(), weights.as_slice())
    }

    /// Verify a code-switch from one source commitment and update the covector.
    /// Rejects folding randomness of the wrong length.
    pub fn verify(
        &self,
        vs: &mut VerifierState,
        sum: &mut Field64,
        covector: &mut Vec<Field64>,
        folding_randomness: &[Field64],
        commitment: &irs_commit::Commitment,
    ) -> (r: Result<irs_commit::Commitment, VerificationError>)
        requires
            self.wf(),
            old(covector)@.len() == self.covector_len(),
        ensures
            pow2(folding_randomness@.len()) != self.source.interleaving_depth ==> r is Err,
            pow2(folding_randomness@.len()) == self.source.interleaving_depth ==> match self.switch_checked(
                seq![commitment.matrix_commitment.root],
                eq_table(vals(folding_randomness@)),
                old(sum)@,
                old(vs)@,
            ) {
                None => r is Err,
                Some(s) => {
                    &&& r is Ok
                    &&& r->Ok_0.matrix_commitment.root == s.root
                    &&& vals(final(covector)@) == self.updated_covector(
                        vals(old(covector)@),
                        s.update,
                    )
                    &&& final(sum)@ == s.sum
                    &&& final(vs)@ == s.view
                },
            },
    {
        match self.verify_for_implicit(vs, sum, folding_randomness, commitment) {
            Ok((target, params)) => {
                self.update_covector(covector, &params);
                Ok(target)
            },
            Err(e) => Err(e),
        }
    }
}

/// The concatenation.
pub fn concat(a: &[Field64], b: &[Field64]) -> (r: Vec<Field64>)
    ensures
        vals(r@) == vals(a@) + vals(b@),
        r@ == a@ + b@,
{
    let mut out: Vec<Field64> = crate::algebra::copied(a);
    for i in 0..b.len()
        invariant
            out@ =~= a@ + b@.take(i as int),
    {
        out.push(b[i]);
    }
    assert(out@ =~= a@ + b@);
    assert(vals(out@) =~= vals(a@) + vals(b@));
    out
}

/// An opening has no more rows than samples, or than the codeword is long.
proof fn lemma_few_indices(cfg: &irs_commit::Config, sponge: Seq<u8>)
    requires
        cfg.wf(),
        cfg.deduplicate_in_domain || cfg.in_domain_samples * cfg.cols() <= usize::MAX,
    ensures
        cfg.indices(sponge).0.len() <= cfg.in_domain_samples || cfg.indices(sponge).0.len()
            <= cfg.codeword_length,
{
    irs_commit::lemma_num_indices(cfg, sponge);
    irs_commit::lemma_index_count(cfg, sponge);
}

impl Config {
    /// The code that is switched from.
    pub fn source(&self) -> (r: &irs_commit::Config)
        ensures
            *r == self.source,
    {
        &self.source
    }

    /// The code that is switched to.
    pub fn target(&self) -> (r: &irs_commit::Config)
        ensures
            *r == self.target,
    {
        &self.target
    }

    /// The number of out-of-domain samples.
    pub fn out_domain_samples(&self) -> (r: usize)
        ensures
            r == self.out_domain_samples,
    {
        self.out_domain_samples
    }

    /// Standard or zero-knowledge.
    pub fn mode(&self) -> (r: CodeSwitchMode)
        ensures
            r == self.mode,
    {
        self.mode
    }

    /// The work before the queries.
    pub fn pow(&self) -> (r: proof_of_work::Config)
        ensures
            r == self.pow,
    {
        self.pow
    }
}

} // verus!
