//! Constructing interleaved codes, values at points, and commitments with
//! out-of-domain samples.

use crate::algebra::{dot, dot_spec, evaluate, univariate_evaluate};
use crate::embedding::{images, lift, Embedding};
use crate::field::{canonical, lemma_vals_push, vals, Field64};
use crate::irs_commit::{
    all_vals, lemma_challenges_len, CodewordLengthError, Commitment, Config, Evaluations, IrsMode,
    Witness,
};
use crate::linear_form::LinearForm;
use crate::matrix_commit::{row_of, Digest};
use crate::transcript::{
    challenges, ProverState, ProverView, VerificationError, VerifierState, VerifierView,
};
use crate::transcript_laws::{
    follows, law_read_fields, lemma_follows_draw, lemma_follows_send_fields, lemma_follows_trans,
    pending,
};
use vstd::arithmetic::div_mod::lemma_fundamental_div_mod_converse;
use vstd::prelude::*;

verus! {

/// What an interleaved code is built from. The codeword's length and the number of
/// samples are given beside it.
#[derive(Clone, Copy, Debug, PartialEq, Eq, Structural)]
pub struct IrsParams {
    pub num_vectors: usize,
    pub vector_size: usize,
    pub interleaving_depth: usize,
    pub mode: IrsMode,
}

impl Config {
    /// The code with codewords of length at least `raw_codeword_length`, where `order`
    /// is the length that the field supports for it; an error if there is none.
    pub fn try_new(
        params: IrsParams,
        raw_codeword_length: usize,
        order: Option<usize>,
        in_domain_samples: usize,
    ) -> (r: Result<Self, CodewordLengthError>)
        ensures
            match order {
                None => r == Err::<Self, CodewordLengthError>(
                    (CodewordLengthError { length: raw_codeword_length }),
                ),
                Some(codeword_length) => r == Ok::<Self, CodewordLengthError>(
                    (Config {
                        num_vectors: params.num_vectors,
                        vector_size: params.vector_size,
                        codeword_length,
                        interleaving_depth: params.interleaving_depth,
                        in_domain_samples,
                        deduplicate_in_domain: false,
                        mode: params.mode,
                    }),
                ),
            },
    {
        match order {
            None => Err(CodewordLengthError { length: raw_codeword_length }),
            Some(codeword_length) => Ok(
                Config {
                    num_vectors: params.num_vectors,
                    vector_size: params.vector_size,
                    codeword_length,
                    interleaving_depth: params.interleaving_depth,
                    in_domain_samples,
                    deduplicate_in_domain: false,
                    mode: params.mode,
                },
            ),
        }
    }
}

impl<F> Evaluations<F> {
    /// The number of columns: the number of entries, cut into as many rows as there are
    /// points.
    pub open spec fn spec_columns(&self) -> nat {
        if self.points@.len() == 0 {
            0
        } else {
            (self.matrix@.len() / self.points@.len()) as nat
        }
    }

    /// The number of points.
    pub fn num_points(&self) -> (r: usize)
        ensures
            r == self.points@.len(),
    {
        self.points.len()
    }

    /// The number of columns.
    pub fn num_columns(&self) -> (r: usize)
        ensures
            r == self.spec_columns(),
    {
        if self.points.len() == 0 {
            0
        } else {
            self.matrix.len() / self.points.len()
        }
    }

    /// The same with every element replaced by its image.
    pub fn lift<M: Embedding<Source = F>>(&self, embedding: &M) -> (r: Evaluations)
        ensures
            vals(r.points@) == images(*embedding, self.points@),
            vals(r.matrix@) == images(*embedding, self.matrix@),
            r.points@.len() == self.points@.len(),
            r.matrix@.len() == self.matrix@.len(),
            r.spec_columns() == self.spec_columns(),
    {
        Evaluations {
            points: lift(embedding, self.points.as_slice()),
            matrix: lift(embedding, self.matrix.as_slice()),
        }
    }
}

impl Evaluations {
    /// A row lies within the matrix.
    proof fn lemma_row(&self, i: int)
        requires
            0 <= i < self.points@.len(),
        ensures
            0 <= i * self.spec_columns(),
            i * self.spec_columns() + self.spec_columns() <= self.matrix@.len(),
            (i + 1) * self.spec_columns() == i * self.spec_columns() + self.spec_columns(),
    {
        let c = self.spec_columns() as int;
        let n = self.points@.len() as int;
        let m = self.matrix@.len() as int;
        vstd::arithmetic::div_mod::lemma_fundamental_div_mod(m, n);
        assert((i + 1) * c == i * c + c) by (nonlinear_arith);
        assert((i + 1) * c <= n * c) by (nonlinear_arith)
            requires
                i + 1 <= n,
                c >= 0,
        ;
        assert(i * c >= 0) by (nonlinear_arith)
            requires
                i >= 0,
                c >= 0,
        ;
        assert(m % n >= 0);
    }

    /// The rows, one for every point.
    pub fn rows(&self) -> (r: Vec<&[Field64]>)
        ensures
            r@.len() == self.points@.len(),
            forall|i: int|
                0 <= i < r@.len() ==> vals((#[trigger] r@[i])@) == row_of(
                    vals(self.matrix@),
                    self.spec_columns(),
                    i,
                ) && r@[i]@.len() == self.spec_columns(),
    {
        let cols: usize = self.num_columns();
        let n: usize = self.points.len();
        let len: usize = self.matrix.len();
        let mut out: Vec<&[Field64]> = Vec::new();
        for i in 0..n
            invariant
                n == self.points@.len(),
                len == self.matrix@.len(),
                cols == self.spec_columns(),
                out@.len() == i,
                forall|t: int|
                    0 <= t < i ==> vals((#[trigger] out@[t])@) == row_of(
                        vals(self.matrix@),
                        self.spec_columns(),
                        t,
                    ) && out@[t]@.len() == self.spec_columns(),
        {
            proof {
                self.lemma_row(i as int);
            }
            let from: usize = i * cols;
            let row: &[Field64] = vstd::slice::slice_subrange(
                self.matrix.as_slice(),
                from,
                from + cols,
            );
            assert(vals(row@) =~= row_of(vals(self.matrix@), cols as nat, i as int));
            out.push(row);
        }
        out
    }

    /// The linear forms that evaluate a polynomial of the given size at the points.
    pub fn evaluators(&self, size: usize) -> (r: Vec<LinearForm>)
        ensures
            r@.len() == self.points@.len(),
            forall|i: int|
                0 <= i < r@.len() ==> #[trigger] r@[i] == (LinearForm::UnivariateEvaluation {
                    x: self.points@[i],
                    size,
                }),
    {
        let mut out: Vec<LinearForm> = Vec::new();
        for i in 0..self.points.len()
            invariant
                out@.len() == i,
                forall|t: int|
                    0 <= t < i ==> #[trigger] out@[t] == (LinearForm::UnivariateEvaluation {
                        x: self.points@[t],
                        size,
                    }),
        {
            out.push(LinearForm::UnivariateEvaluation { x: self.points[i], size });
        }
        out
    }

    /// Every row's inner product with the weights.
    pub fn values(&self, weights: &[Field64]) -> (r: Vec<Field64>)
        requires
            weights@.len() == self.spec_columns(),
        ensures
            r@.len() == self.points@.len(),
            vals(r@) == Seq::new(
                self.points@.len(),
                |i: int|
                    dot_spec(
                        vals(weights@),
                        row_of(vals(self.matrix@), self.spec_columns(), i),
                    ),
            ),
    {
        let rows: Vec<&[Field64]> = self.rows();
        let ghost want = Seq::new(
            self.points@.len(),
            |i: int|
                dot_spec(vals(weights@), row_of(vals(self.matrix@), self.spec_columns(), i)),
        );
        let mut out: Vec<Field64> = Vec::new();
        for i in 0..rows.len()
            invariant
                weights@.len() == self.spec_columns(),
                rows@.len() == self.points@.len(),
                forall|t: int|
                    0 <= t < rows@.len() ==> vals((#[trigger] rows@[t])@) == row_of(
                        vals(self.matrix@),
                        self.spec_columns(),
                        t,
                    ) && rows@[t]@.len() == self.spec_columns(),
                want == Seq::new(
                    self.points@.len(),
                    |i: int|
                        dot_spec(
                            vals(weights@),
                            row_of(vals(self.matrix@), self.spec_columns(), i),
                        ),
                ),
                out@.len() == i,
                vals(out@) =~= want.take(i as int),
        {
            let row: &[Field64] = rows[i];
            assert(rows@[i as int]@.len() == self.spec_columns());
            let v: Field64 = dot(weights, row);
            proof {
                lemma_vals_push(out@, v);
            }
            out.push(v);
        }
        assert(vals(out@) =~= want);
        out
    }
}

/// The values of vectors at points: for every point, those of all vectors.
pub open spec fn ood_values(vectors: Seq<Seq<int>>, points: Seq<int>) -> Seq<int> {
    Seq::new(
        points.len() * vectors.len(),
        |t: int|
            evaluate(vectors[t % (vectors.len() as int)], points[t / (vectors.len() as int)]),
    )
}

impl Config {
    /// The prover's transcript after a commitment with out-of-domain samples, and the
    /// points.
    pub open spec fn committed_with_ood(
        &self,
        vectors: Seq<Seq<int>>,
        samples: nat,
        p: ProverView,
    ) -> (Seq<int>, ProverView) {
        let sent = self.committed(vectors, p);
        let points = challenges(sent.sponge, samples);
        (points, sent.draw_many(samples).send_fields(ood_values(vectors, points)))
    }

    /// Commit to vectors, draw points, and send the vectors' values at them.
    pub fn commit_with_ood(
        &self,
        ps: &mut ProverState,
        vectors: &[Vec<Field64>],
        out_domain_samples: usize,
    ) -> (r: (Witness, Evaluations))
        requires
            self.wf(),
            vectors@.len() == self.num_vectors,
            forall|i: int| 0 <= i < vectors@.len() ==> (#[trigger] vectors@[i])@.len() == self.vector_size,
        ensures
            r.0.wf(self),
            vals(r.0.masks@) == self.masks_of(old(ps)@),
            vals(r.0.matrix@) == self.encoded(all_vals(vectors@), self.masks_of(old(ps)@)),
            (vals(r.1.points@), final(ps)@) == self.committed_with_ood(
                all_vals(vectors@),
                out_domain_samples as nat,
                old(ps)@,
            ),
            r.1.points@.len() == out_domain_samples,
            vals(r.1.matrix@) == ood_values(all_vals(vectors@), vals(r.1.points@)),
    {
        let ghost vs = all_vals(vectors@);
        let witness: Witness = self.commit(ps, vectors);
        let points: Vec<Field64> = {
            proof {
                lemma_challenges_len(ps@.sponge, out_domain_samples as nat);
            }
            ps.verifier_message_vec(out_domain_samples)
        };
        assert(points@.len() == vals(points@).len());
        let ghost xs = vals(points@);
        let n: usize = vectors.len();
        let mut matrix: Vec<Field64> = Vec::new();
        let ghost target = ood_values(vs, xs);
        assert(0 * n == 0) by (nonlinear_arith);
        for i in 0..points.len()
            invariant
                n == vectors@.len(),
                vs == all_vals(vectors@),
                xs == vals(points@),
                target == ood_values(vs, xs),
                matrix@.len() == i * n,
                forall|t: int| 0 <= t < matrix@.len() ==> (#[trigger] matrix@[t])@ == target[t],
        {
            proof {
                let (a, b, c) = (i as int, points@.len() as int, n as int);
                assert(a * c + c <= b * c) by (nonlinear_arith)
                    requires
                        a < b,
                        c >= 0,
                ;
                assert((a + 1) * c == a * c + c) by (nonlinear_arith);
                assert(a * c >= 0) by (nonlinear_arith)
                    requires
                        a >= 0,
                        c >= 0,
                ;
            }
            for j in 0..n
                invariant
                    i < points@.len(),
                    n == vectors@.len(),
                    vs == all_vals(vectors@),
                    xs == vals(points@),
                    target == ood_values(vs, xs),
                    0 <= i * n,
                    i * n + n <= points@.len() * n,
                    matrix@.len() == i * n + j,
                    forall|t: int| 0 <= t < matrix@.len() ==> (#[trigger] matrix@[t])@ == target[t],
            {
                let y: Field64 = univariate_evaluate(vectors[j].as_slice(), points[i]);
                proof {
                    let t = i as int * n as int + j as int;
                    lemma_fundamental_div_mod_converse(t, n as int, i as int, j as int);
                    assert(vs[j as int] == vals(vectors@[j as int]@));
                }
                matrix.push(y);
            }
        }
        assert(vals(matrix@) =~= target);
        ps.prover_messages(matrix.as_slice());
        (witness, Evaluations { points, matrix })
    }

    /// What the verifier has after a commitment with out-of-domain samples: the root,
    /// the points and the values; `None` if the proof ends too early.
    pub open spec fn received_with_ood(&self, samples: nat, v: VerifierView) -> Option<
        (Digest, Seq<int>, Seq<int>, VerifierView),
    > {
        match v.read_all(4) {
            None => None,
            Some((ws, next)) => match next.draw_many(samples).read_fields(
                samples * self.num_vectors as nat,
            ) {
                None => None,
                Some((values, end)) => Some(
                    (
                        Digest { a: ws[0], b: ws[1], c: ws[2], d: ws[3] },
                        challenges(next.sponge, samples),
                        values,
                        end,
                    ),
                ),
            },
        }
    }

    /// Receive a commitment, draw points, and receive the values at them.
    pub fn receive_commitment_with_ood(&self, vs: &mut VerifierState, out_domain_samples: usize) -> (r:
        Result<(Commitment, Evaluations), VerificationError>)
        requires
            self.wf(),
            out_domain_samples * self.num_vectors <= usize::MAX,
        ensures
            match self.received_with_ood(out_domain_samples as nat, old(vs)@) {
                None => r is Err,
                Some((root, points, values, end)) => {
                    &&& r is Ok
                    &&& r->Ok_0.0.matrix_commitment.root == root
                    &&& vals(r->Ok_0.1.points@) == points
                    &&& vals(r->Ok_0.1.matrix@) == values
                    &&& final(vs)@ == end
                },
            },
    {
        let commitment: Commitment = match self.receive_commitment(vs) {
            Ok(c) => c,
            Err(e) => {
                return Err(e);
            },
        };
        let points: Vec<Field64> = vs.verifier_message_vec(out_domain_samples);
        match vs.prover_messages(out_domain_samples * self.num_vectors) {
            Ok(matrix) => Ok((commitment, Evaluations { points, matrix })),
            Err(e) => Err(e),
        }
    }
}

/// The verifier receives the root, the points and the values of a commitment with
/// out-of-domain samples.
pub proof fn law_ood_received(
    cfg: &Config,
    vectors: Seq<Seq<int>>,
    samples: nat,
    p: ProverView,
    q: ProverView,
    tail: Seq<u64>,
)
    requires
        vectors.len() == cfg.num_vectors,
        follows(cfg.committed_with_ood(vectors, samples, p).1, q),
    ensures
        ({
            let (points, end) = cfg.committed_with_ood(vectors, samples, p);
            let root = crate::matrix_commit::root_of(
                cfg.matrix_config().leaves(cfg.encoded(vectors, cfg.masks_of(p))),
            );
            &&& follows(p, end)
            &&& cfg.received_with_ood(samples, pending(p, q, tail)) == Some(
                (root, points, ood_values(vectors, points), pending(end, q, tail)),
            )
        }),
{
    let tossed = p.toss(cfg.num_mask_coefficients());
    let root = crate::matrix_commit::root_of(
        cfg.matrix_config().leaves(cfg.encoded(vectors, cfg.masks_of(p))),
    );
    let sent = cfg.committed(vectors, p);
    let (points, end) = cfg.committed_with_ood(vectors, samples, p);
    let drawn = sent.draw_many(samples);
    let values = ood_values(vectors, points);
    lemma_challenges_len(sent.sponge, samples);
    lemma_follows_draw(p, cfg.num_mask_coefficients());
    crate::transcript_laws::lemma_follows_send_all(tossed, root.words());
    lemma_follows_draw(sent, samples);
    lemma_follows_send_fields(drawn, values);
    lemma_follows_trans(p, tossed, sent);
    lemma_follows_trans(p, sent, drawn);
    lemma_follows_trans(p, drawn, end);
    lemma_follows_trans(sent, drawn, end);
    lemma_follows_trans(sent, end, q);
    crate::transcript_laws::law_read_words(tossed, root.words(), q, tail);
    assert(pending(tossed, q, tail) == pending(p, q, tail));
    assert(crate::field::all_canonical(values)) by {
        assert forall|t: int| 0 <= t < values.len() implies canonical(#[trigger] values[t]) by {
            crate::sumcheck_laws::lemma_evaluate_canonical(
                vectors[t % (vectors.len() as int)],
                points[t / (vectors.len() as int)],
            );
        }
    }
    law_read_fields(drawn, values, q, tail);
    assert(pending(sent, q, tail).draw_many(samples) == pending(drawn, q, tail));
    assert(values.len() == samples * cfg.num_vectors as nat);
}

impl Config {
    /// The number of vectors to commit to in one operation.
    pub fn num_vectors(&self) -> (r: usize)
        ensures
            r == self.num_vectors,
    {
        self.num_vectors
    }

    /// The number of coefficients in each vector.
    pub fn vector_size(&self) -> (r: usize)
        ensures
            r == self.vector_size,
    {
        self.vector_size
    }

    /// The number of Reed-Solomon evaluation points.
    pub fn codeword_length(&self) -> (r: usize)
        ensures
            r == self.codeword_length,
    {
        self.codeword_length
    }

    /// The number of codewords that are interleaved together.
    pub fn interleaving_depth(&self) -> (r: usize)
        ensures
            r == self.interleaving_depth,
    {
        self.interleaving_depth
    }

    /// The number of in-domain samples.
    pub fn in_domain_samples(&self) -> (r: usize)
        ensures
            r == self.in_domain_samples,
    {
        self.in_domain_samples
    }

    /// Whether the in-domain samples are sorted and deduplicated.
    pub fn deduplicate_in_domain(&self) -> (r: bool)
        ensures
            r == self.deduplicate_in_domain,
    {
        self.deduplicate_in_domain
    }

    /// Standard or zero-knowledge.
    pub fn mode(&self) -> (r: IrsMode)
        ensures
            r == self.mode,
    {
        self.mode
    }
}

} // verus!
