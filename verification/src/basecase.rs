//! The base case: a linear opening that sends the whole vector.
//!
//! In zero-knowledge mode the vector is first blinded: a random vector is committed
//! to, and a random combination of both is sent in place of the vector itself.

use crate::algebra::{dot, dot_spec, eq_weights, evaluate, mle, univariate_evaluate};
use crate::field::{fadd, fmul, fpow, quotient, vals, Field64};
use crate::irs_commit;
use crate::irs_commit::{
    all_vals, lemma_challenges_len, lemma_read_fields_len, matrices_of, roots_of,
};
use crate::matrix_commit::{row_of, Digest};
use crate::proof_of_work;
use crate::sumcheck;
use crate::sumcheck::DotProductOracle;
use crate::transcript::{
    challenge, challenges, ProverState, ProverView, VerificationError, VerifierState, VerifierView,
};
use vstd::prelude::*;

verus! {

/// What the base case leaves: the point, and the value there of the linear form.
#[derive(Debug)]
pub struct Opening {
    pub evaluation_points: Vec<Field64>,
    pub linear_form_evaluation: Field64,
}

/// Whether the vector is blinded.
#[derive(Clone, Copy, Debug, PartialEq, Eq, Structural)]
pub enum BasecaseMode {
    Standard,
    ZeroKnowledge,
}

/// Parameters of a base case.
#[derive(Clone, Copy, Debug, PartialEq, Eq, Structural)]
pub struct Config {
    pub commit: irs_commit::Config,
    pub sumcheck: sumcheck::Config,
    pub mode: BasecaseMode,
    pub pow: proof_of_work::Config,
}

/// `a + c * b`, entry by entry.
pub open spec fn combined(a: Seq<int>, b: Seq<int>, c: int) -> Seq<int> {
    Seq::new(a.len(), |i: int| fadd(a[i], fmul(c, b[i])))
}

/// What the prover sends in the clear, and the claim that is left.
pub struct Blinded {
    pub vector: Seq<int>,
    pub masks: Seq<int>,
    pub sum: int,
    pub matrices: Seq<Seq<int>>,
    pub view: ProverView,
}

/// The prover's result: the point, and the value there of the linear form.
pub struct Opened {
    pub points: Seq<int>,
    pub value: int,
    pub view: ProverView,
}

/// The verifier's result.
pub struct OpenChecked {
    pub points: Seq<int>,
    pub value: int,
    pub view: VerifierView,
}

/// What the verifier knows of a blinding: the commitments to open, the weights of
/// their rows, and the combined sum.
pub struct BlindReceived {
    pub roots: Seq<Digest>,
    pub weights: Seq<int>,
    pub sum: int,
    pub view: VerifierView,
}

/// Is every opened value that of the vector followed by its masks?
pub open spec fn spot_checks(
    vector: Seq<int>,
    masks: Seq<int>,
    points: Seq<int>,
    matrix: Seq<int>,
    weights: Seq<int>,
    n: nat,
) -> bool {
    forall|i: int|
        0 <= i < n ==> dot_spec(weights, row_of(matrix, weights.len(), i)) == fadd(
            evaluate(vector, #[trigger] points[i]),
            fmul(fpow(points[i], vector.len()), evaluate(masks, points[i])),
        )
}

impl Config {
    /// One vector without interleaving, folded by the sumcheck to one entry.
    pub open spec fn wf(&self) -> bool {
        &&& self.commit.wf()
        &&& self.sumcheck.wf()
        &&& self.sumcheck.degree == 2
        &&& self.sumcheck.mode is Standard
        &&& self.commit.interleaving_depth == 1
        &&& self.commit.num_vectors == 1
        &&& self.commit.vector_size == self.sumcheck.initial_size
        &&& self.sumcheck.spec_final_size() == (if self.commit.vector_size == 0 {
            0nat
        } else {
            1nat
        })
    }

    /// The vector's size.
    pub open spec fn spec_size(&self) -> nat {
        self.sumcheck.initial_size as nat
    }

    /// The prover after the vector was sent, blinded in zero-knowledge mode; `None`
    /// if the combination challenge is zero.
    pub open spec fn blinded(
        &self,
        vector: Seq<int>,
        masks: Seq<int>,
        matrix: Seq<int>,
        covector: Seq<int>,
        sum: int,
        p: ProverView,
    ) -> Option<Blinded> {
        match self.mode {
            BasecaseMode::Standard => Some(
                Blinded {
                    vector,
                    masks,
                    sum,
                    matrices: seq![matrix],
                    view: p.send_fields(vector).send_fields(masks),
                },
            ),
            BasecaseMode::ZeroKnowledge => {
                let blinding = challenges(p.coins, vector.len());
                let p1 = p.toss(vector.len());
                let blinding_masks = self.commit.masks_of(p1);
                let blinding_matrix = self.commit.encoded(seq![blinding], blinding_masks);
                let product = dot_spec(blinding, covector);
                let worked = self.pow.proved(
                    self.commit.committed(seq![blinding], p1).send_field(product),
                );
                let gamma = challenge(worked.sponge);
                let v = combined(blinding, vector, gamma);
                let m = combined(blinding_masks, masks, gamma);
                if gamma == 0 {
                    None
                } else {
                    Some(
                        Blinded {
                            vector: v,
                            masks: m,
                            sum: fadd(product, fmul(gamma, sum)),
                            matrices: seq![blinding_matrix, matrix],
                            view: worked.draw().send_fields(v).send_fields(m),
                        },
                    )
                }
            },
        }
    }

    /// The prover's result; `None` if the combination challenge is zero, or the
    /// vector's value at the point.
    #[verifier::opaque]
    pub open spec fn opened(
        &self,
        vector: Seq<int>,
        masks: Seq<int>,
        matrix: Seq<int>,
        covector: Seq<int>,
        sum: int,
        p: ProverView,
    ) -> Option<Opened> {
        if self.spec_size() == 0 {
            Some(Opened { points: Seq::empty(), value: 0, view: p })
        } else {
            match self.blinded(vector, masks, matrix, covector, sum, p) {
                None => None,
                Some(b) => {
                    let opened = self.commit.opened(b.view, b.matrices).2;
                    let end = self.sumcheck.proved::<DotProductOracle>(
                        seq![b.vector, covector],
                        b.sum,
                        Seq::empty(),
                        opened,
                    ).0;
                    if end.tables[0][0] == 0 {
                        None
                    } else {
                        Some(
                            Opened { points: end.points, value: end.tables[1][0], view: end.view },
                        )
                    }
                },
            }
        }
    }

    /// What the verifier reads of a blinding; `None` if it rejects.
    pub open spec fn blind_received(&self, root: Digest, sum: int, v: VerifierView) -> Option<
        BlindReceived,
    > {
        match self.mode {
            BasecaseMode::Standard => Some(
                BlindReceived { roots: seq![root], weights: seq![1int], sum, view: v },
            ),
            BasecaseMode::ZeroKnowledge => match v.read_all(4) {
                None => None,
                Some((ws, v1)) => match v1.read_field() {
                    None => None,
                    Some((product, v2)) => match self.pow.verified(v2) {
                        None => None,
                        Some(v3) => {
                            let gamma = challenge(v3.sponge);
                            if gamma == 0 {
                                None
                            } else {
                                Some(
                                    BlindReceived {
                                        roots: seq![
                                            Digest { a: ws[0], b: ws[1], c: ws[2], d: ws[3] },
                                            root,
                                        ],
                                        weights: seq![1int, gamma],
                                        sum: fadd(product, fmul(gamma, sum)),
                                        view: v3.draw(),
                                    },
                                )
                            }
                        },
                    },
                },
            },
        }
    }

    /// The verifier's result; `None` if it rejects: a message is missing, a
    /// commitment does not open, an opened value is not the vector's, or the vector's
    /// value at the point is zero.
    #[verifier::opaque]
    pub open spec fn open_checked(&self, root: Digest, sum: int, v: VerifierView) -> Option<OpenChecked> {
        if self.spec_size() == 0 {
            Some(OpenChecked { points: Seq::empty(), value: 0, view: v })
        } else {
            match self.blind_received(root, sum, v) {
                None => None,
                Some(b) => match b.view.read_fields(self.commit.vector_size as nat) {
                    None => None,
                    Some((vector, v1)) => match v1.read_fields(self.commit.num_mask_coefficients()) {
                        None => None,
                        Some((masks, v2)) => match self.commit.verified(v2, b.roots) {
                            None => None,
                            Some((points, matrix, v3)) => if !spot_checks(
                                vector,
                                masks,
                                points,
                                matrix,
                                b.weights,
                                points.len(),
                            ) {
                                None
                            } else {
                                match self.sumcheck.checked(b.sum, v3) {
                                    None => None,
                                    Some((end, rlc)) => {
                                        let at = mle(vector, end.points);
                                        if at == 0 {
                                            None
                                        } else {
                                            Some(
                                                OpenChecked {
                                                    points: end.points,
                                                    value: quotient(end.sum, at),
                                                    view: end.view,
                                                },
                                            )
                                        }
                                    },
                                }
                            },
                        },
                    },
                },
            }
        }
    }

    /// The vector's size.
    pub fn size(&self) -> (r: usize)
        ensures
            r == self.spec_size(),
    {
        self.sumcheck.initial_size
    }

    /// Is the vector blinded?
    pub fn is_zk(&self) -> (r: bool)
        ensures
            r == self.mode is ZeroKnowledge,
    {
        match self.mode {
            BasecaseMode::Standard => false,
            BasecaseMode::ZeroKnowledge => true,
        }
    }
}

/// `a + c * b`, entry by entry.
fn combine(a: &[Field64], b: &[Field64], c: Field64) -> (r: Vec<Field64>)
    requires
        a@.len() == b@.len(),
    ensures
        vals(r@) == combined(vals(a@), vals(b@), c@),
        r@.len() == a@.len(),
{
    let mut out: Vec<Field64> = Vec::new();
    for i in 0..a.len()
        invariant
            a@.len() == b@.len(),
            out@.len() == i,
            forall|j: int|
                0 <= j < i ==> (#[trigger] out@[j])@ == combined(vals(a@), vals(b@), c@)[j],
    {
        out.push(a[i].add(c.mul(b[i])));
    }
    assert(vals(out@) =~= combined(vals(a@), vals(b@), c@));
    out
}

impl Config {
    /// Send the vector, blinded in zero-knowledge mode. `None` if the combination
    /// challenge is zero.
    fn maybe_blind_prove(
        &self,
        ps: &mut ProverState,
        vector: Vec<Field64>,
        witness: irs_commit::Witness,
        covector: &[Field64],
        sum: &mut Field64,
    ) -> (r: Option<(Vec<Field64>, Vec<irs_commit::Witness>)>)
        requires
            self.wf(),
            vector@.len() == self.spec_size(),
            covector@.len() == self.spec_size(),
            witness.wf(&self.commit),
        ensures
            match self.blinded(
                vals(vector@),
                vals(witness.masks@),
                vals(witness.matrix@),
                vals(covector@),
                old(sum)@,
                old(ps)@,
            ) {
                None => r is None,
                Some(b) => {
                    &&& r is Some
                    &&& vals(r.unwrap().0@) == b.vector
                    &&& r.unwrap().0@.len() == self.spec_size()
                    &&& matrices_of(r.unwrap().1@) == b.matrices
                    &&& forall|i: int|
                        0 <= i < r.unwrap().1@.len() ==> (#[trigger] r.unwrap().1@[i]).wf(&self.commit)
                    &&& final(sum)@ == b.sum
                    &&& final(ps)@ == b.view
                },
            },
    {
        match self.mode {
            BasecaseMode::Standard => {
                ps.prover_messages(vector.as_slice());
                ps.prover_messages(witness.masks.as_slice());
                let mut witnesses: Vec<irs_commit::Witness> = Vec::new();
                let ghost matrix = vals(witness.matrix@);
                witnesses.push(witness);
                assert(matrices_of(witnesses@) =~= seq![matrix]);
                Some((vector, witnesses))
            },
            BasecaseMode::ZeroKnowledge => {
                proof {
                    lemma_challenges_len(ps@.coins, vector@.len());
                }
                let blinding: Vec<Field64> = ps.random_vector(vector.len());
                assert(blinding@.len() == vals(blinding@).len());
                let mut vectors: Vec<Vec<Field64>> = Vec::new();
                vectors.push(crate::algebra::copied(blinding.as_slice()));
                assert(all_vals(vectors@) =~= seq![vals(blinding@)]);
                let blinding_witness: irs_commit::Witness = self.commit.commit(ps, vectors.as_slice());
                let product: Field64 = dot(blinding.as_slice(), covector);
                ps.prover_message(product);
                self.pow.prove(ps);
                let gamma: Field64 = ps.verifier_message();
                if gamma.is_zero() {
                    return None;
                }
                let v: Vec<Field64> = combine(blinding.as_slice(), vector.as_slice(), gamma);
                ps.prover_messages(v.as_slice());
                let m: Vec<Field64> = combine(
                    blinding_witness.masks.as_slice(),
                    witness.masks.as_slice(),
                    gamma,
                );
                ps.prover_messages(m.as_slice());
                *sum = product.add(gamma.mul(*sum));
                let mut witnesses: Vec<irs_commit::Witness> = Vec::new();
                let ghost matrices = seq![vals(blinding_witness.matrix@), vals(witness.matrix@)];
                witnesses.push(blinding_witness);
                witnesses.push(witness);
                assert(matrices_of(witnesses@) =~= matrices);
                Some((v, witnesses))
            },
        }
    }

    /// Open a committed vector at a linear form. `None`, with negligible probability,
    /// if the combination challenge or the vector's value at the point is zero.
    pub fn prove(
        &self,
        ps: &mut ProverState,
        vector: Vec<Field64>,
        witness: irs_commit::Witness,
        covector: Vec<Field64>,
        sum: Field64,
    ) -> (r: Option<Opening>)
        requires
            self.wf(),
            vector@.len() == self.spec_size(),
            covector@.len() == self.spec_size(),
            witness.wf(&self.commit),
        ensures
            match self.opened(
                vals(vector@),
                vals(witness.masks@),
                vals(witness.matrix@),
                vals(covector@),
                sum@,
                old(ps)@,
            ) {
                None => r is None,
                Some(o) => {
                    &&& r is Some
                    &&& vals(r.unwrap().evaluation_points@) == o.points
                    &&& r.unwrap().linear_form_evaluation@ == o.value
                    &&& final(ps)@ == o.view
                },
            },
    {
        reveal(Config::opened);
        if self.size() == 0 {
            let points: Vec<Field64> = Vec::new();
            assert(vals(points@) =~= Seq::<int>::empty());
            return Some(
                Opening { evaluation_points: points, linear_form_evaluation: Field64::zero() },
            );
        }
        let mut running: Field64 = sum;
        let (v, witnesses): (Vec<Field64>, Vec<irs_commit::Witness>) = match self.maybe_blind_prove(
            ps,
            vector,
            witness,
            covector.as_slice(),
            &mut running,
        ) {
            Some(b) => b,
            None => {
                return None;
            },
        };
        let _rows: irs_commit::Evaluations = self.commit.open(ps, witnesses.as_slice());
        let no_masks: Vec<Field64> = Vec::new();
        proof {
            assert(vals(no_masks@) =~= Seq::<int>::empty());
            assert(self.sumcheck.num_rounds * 0 == 0) by (nonlinear_arith);
            crate::sumcheck_laws::lemma_final_tables(
                &self.sumcheck,
                vals(v@),
                vals(covector@),
                running@,
                vals(no_masks@),
                ps@,
            );
        }
        let (folded, form, opening): (Vec<Field64>, Vec<Field64>, sumcheck::SumcheckOpening) =
            self.sumcheck.prove_lifted(ps, v, covector, &mut running, no_masks.as_slice());
        proof {
            let tables = seq![vals(folded@), vals(form@)];
            assert(tables[0].len() == folded@.len());
            assert(tables[1].len() == form@.len());
        }
        if folded[0].is_zero() {
            return None;
        }
        Some(
            Opening {
                evaluation_points: opening.round_challenges,
                linear_form_evaluation: form[0],
            },
        )
    }

    /// Read the blinding in zero-knowledge mode: the commitments to open, the weights
    /// of their rows; `sum` becomes the combined sum.
    fn maybe_receive_blind(
        &self,
        vs: &mut VerifierState,
        commitment: &irs_commit::Commitment,
        sum: &mut Field64,
    ) -> (r: Result<(Vec<irs_commit::Commitment>, Vec<Field64>), VerificationError>)
        requires
            self.wf(),
        ensures
            match self.blind_received(commitment.matrix_commitment.root, old(sum)@, old(vs)@) {
                None => r is Err,
                Some(b) => {
                    &&& r is Ok
                    &&& roots_of(r->Ok_0.0@) == b.roots
                    &&& vals(r->Ok_0.1@) == b.weights
                    &&& final(sum)@ == b.sum
                    &&& final(vs)@ == b.view
                    &&& r->Ok_0.0@.len() == r->Ok_0.1@.len()
                },
            },
    {
        match self.mode {
            BasecaseMode::Standard => {
                let commitments: Vec<irs_commit::Commitment> = vec![*commitment];
                let weights: Vec<Field64> = vec![Field64::one()];
                assert(roots_of(commitments@) =~= seq![commitment.matrix_commitment.root]);
                assert(vals(weights@) =~= seq![1int]);
                Ok((commitments, weights))
            },
            BasecaseMode::ZeroKnowledge => {
                let blinding: irs_commit::Commitment = match self.commit.receive_commitment(vs) {
                    Ok(c) => c,
                    Err(e) => {
                        return Err(e);
                    },
                };
                let product: Field64 = match vs.prover_message() {
                    Ok(x) => x,
                    Err(e) => {
                        return Err(e);
                    },
                };
                match self.pow.verify(vs) {
                    Ok(()) => {},
                    Err(e) => {
                        return Err(e);
                    },
                }
                let gamma: Field64 = vs.verifier_message();
                if gamma.is_zero() {
                    return Err(VerificationError);
                }
                *sum = product.add(gamma.mul(*sum));
                let commitments: Vec<irs_commit::Commitment> = vec![blinding, *commitment];
                let weights: Vec<Field64> = vec![Field64::one(), gamma];
                assert(roots_of(commitments@) =~= seq![
                    blinding.matrix_commitment.root,
                    commitment.matrix_commitment.root,
                ]);
                assert(vals(weights@) =~= seq![1int, gamma@]);
                Ok((commitments, weights))
            },
        }
    }

    /// Is every opened value that of the vector followed by its masks?
    fn spot_check(
        &self,
        vector: &[Field64],
        masks: &[Field64],
        evaluations: &irs_commit::Evaluations,
        weights: &[Field64],
    ) -> (r: bool)
        requires
            evaluations.matrix@.len() == evaluations.points@.len() * weights@.len(),
        ensures
            r == spot_checks(
                vals(vector@),
                vals(masks@),
                vals(evaluations.points@),
                vals(evaluations.matrix@),
                vals(weights@),
                evaluations.points@.len(),
            ),
    {
        let ghost points = vals(evaluations.points@);
        let ghost matrix = vals(evaluations.matrix@);
        let ghost ws = vals(weights@);
        let ghost f = vals(vector@);
        let ghost ms = vals(masks@);
        let stride: usize = weights.len();
        let len: usize = evaluations.matrix.len();
        let n: usize = evaluations.points.len();
        for i in 0..n
            invariant
                n == evaluations.points@.len(),
                len == evaluations.matrix@.len(),
                stride == weights@.len(),
                len == n * stride,
                points == vals(evaluations.points@),
                matrix == vals(evaluations.matrix@),
                ws == vals(weights@),
                f == vals(vector@),
                ms == vals(masks@),
                spot_checks(f, ms, points, matrix, ws, i as nat),
        {
            proof {
                let (a, b, c) = (i as int, n as int, stride as int);
                assert(a * c + c <= b * c) by (nonlinear_arith)
                    requires
                        a < b,
                        c >= 0,
                ;
                assert(a * c >= 0) by (nonlinear_arith)
                    requires
                        a >= 0,
                        c >= 0,
                ;
            }
            let row: &[Field64] = vstd::slice::slice_subrange(
                evaluations.matrix.as_slice(),
                i * stride,
                i * stride + stride,
            );
            assert(vals(row@) =~= row_of(matrix, stride as nat, i as int));
            let value: Field64 = dot(weights, row);
            let x: Field64 = evaluations.points[i];
            let expected: Field64 = univariate_evaluate(vector, x).add(
                x.pow(vector.len() as u64).mul(univariate_evaluate(masks, x)),
            );
            if value != expected {
                assert(points[i as int] == x@);
                return false;
            }
        }
        true
    }

    /// Check an opening against a commitment and a claimed sum.
    pub fn verify(
        &self,
        vs: &mut VerifierState,
        commitment: &irs_commit::Commitment,
        sum: Field64,
    ) -> (r: Result<Opening, VerificationError>)
        requires
            self.wf(),
        ensures
            match self.open_checked(commitment.matrix_commitment.root, sum@, old(vs)@) {
                None => r is Err,
                Some(o) => {
                    &&& r is Ok
                    &&& vals(r->Ok_0.evaluation_points@) == o.points
                    &&& r->Ok_0.linear_form_evaluation@ == o.value
                    &&& final(vs)@ == o.view
                    &&& r->Ok_0.evaluation_points@.len() == (if self.spec_size() == 0 {
                        0
                    } else {
                        self.sumcheck.num_rounds as nat
                    })
                },
            },
    {
        reveal(Config::open_checked);
        if self.size() == 0 {
            let points: Vec<Field64> = Vec::new();
            assert(vals(points@) =~= Seq::<int>::empty());
            return Ok(
                Opening { evaluation_points: points, linear_form_evaluation: Field64::zero() },
            );
        }
        let mut running: Field64 = sum;
        let (commitments, weights): (Vec<irs_commit::Commitment>, Vec<Field64>) =
            match self.maybe_receive_blind(vs, commitment, &mut running) {
            Ok(b) => b,
            Err(e) => {
                return Err(e);
            },
        };
        proof {
            lemma_read_fields_len(vs@, self.commit.vector_size as nat);
        }
        let vector: Vec<Field64> = match vs.prover_messages(self.commit.vector_size) {
            Ok(v) => v,
            Err(e) => {
                return Err(e);
            },
        };
        let masks: Vec<Field64> = match vs.prover_messages(
            self.commit.mask_length() * self.commit.num_messages(),
        ) {
            Ok(m) => m,
            Err(e) => {
                return Err(e);
            },
        };
        proof {
            assert(self.commit.cols() == 1);
            assert(self.commit.in_domain_samples * 1 == self.commit.in_domain_samples) by (nonlinear_arith);
            assert(vector@.len() == vals(vector@).len());
        }
        let evaluations: irs_commit::Evaluations = match self.commit.verify(
            vs,
            commitments.as_slice(),
        ) {
            Ok(e) => e,
            Err(e) => {
                return Err(e);
            },
        };
        proof {
            assert(commitments@.len() * 1 == commitments@.len()) by (nonlinear_arith);
        }
        if !self.spot_check(vector.as_slice(), masks.as_slice(), &evaluations, weights.as_slice()) {
            return Err(VerificationError);
        }
        let opening: sumcheck::SumcheckOpening = match self.sumcheck.verify(vs, &mut running) {
            Ok(o) => o,
            Err(e) => {
                return Err(e);
            },
        };
        let table: Vec<Field64> = eq_weights(opening.round_challenges.as_slice());
        proof {
            crate::sumcheck_laws::lemma_size_bound(&self.sumcheck);
        }
        let at: Field64 = dot(vector.as_slice(), table.as_slice());
        match running.divide(at) {
            None => Err(VerificationError),
            Some(value) => Ok(
                Opening {
                    evaluation_points: opening.round_challenges,
                    linear_form_evaluation: value,
                },
            ),
        }
    }
}

impl Config {
    /// The sumcheck.
    pub fn sumcheck(&self) -> (r: &sumcheck::Config)
        ensures
            *r == self.sumcheck,
    {
        &self.sumcheck
    }

    /// The code of the vector.
    pub fn commit(&self) -> (r: &irs_commit::Config)
        ensures
            *r == self.commit,
    {
        &self.commit
    }

    /// Standard or zero-knowledge.
    pub fn mode(&self) -> (r: BasecaseMode)
        ensures
            r == self.mode,
    {
        self.mode
    }

    /// The work before the combination.
    pub fn pow(&self) -> (r: proof_of_work::Config)
        ensures
            r == self.pow,
    {
        self.pow
    }
}

} // verus!
