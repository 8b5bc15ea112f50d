//! The opening of committed vectors at linear forms, round by round.
//!
//! The vectors are combined into one, the claims into one covector. Every round
//! commits to the folded vector, samples it out of domain, opens the commitment before
//! it, and takes the samples into the claim.

use crate::algebra::{
    accumulated, copied, dot, dot_spec, evaluate, fold, folded_all, geometric_accumulate,
    univariate_evaluate, zeros, zeros_spec,
};
use crate::arith::is_pow2;
use crate::code_switch::{collapse, collapsed, concat};
use crate::field::{fadd, fmul, lemma_vals_push, vals, Field64};
use crate::geometric_challenge::{
    after_base, combination, geometric_challenge_buffer, geometric_challenge_groups, length_before,
    total_length,
};
use crate::irs_commit;
use crate::irs_commit::{
    all_vals, lemma_challenges_len, lemma_index_count, matrices_of, Evaluations,
};
use crate::irs_ood::ood_values;
use crate::linear_form::LinearForm;
use crate::matrix_commit::{row_of, value_words};
use crate::proof_of_work;
use crate::sumcheck;
use crate::sumcheck::{DotProductOracle, SumcheckOpening};
use crate::sumcheck_laws::lemma_final_tables;
use crate::sums::fsum;
use crate::transcript::{challenges, ProverState, ProverView};
use crate::whir_transcript_laws::{law_final_vector_is_sent, sends_first};
use crate::zook::block::{theta_combined, theta_terms};
use crate::zook::prove::batched_covector;
use crate::zook::slot_weights;
use crate::zook::slot_weights::slot_table;
use vstd::arithmetic::power2::pow2;
use vstd::prelude::*;

verus! {

/// One round.
#[derive(Clone, Copy, Debug)]
pub struct RoundConfig {
    pub irs_committer: irs_commit::Config,
    pub sumcheck: sumcheck::Config,
    pub pow: proof_of_work::Config,
    pub out_domain_samples: usize,
}

/// All parameters of an opening.
#[derive(Debug)]
pub struct Config {
    pub initial_committer: irs_commit::Config,
    pub initial_sumcheck: sumcheck::Config,
    /// Work in place of the first sumcheck, where there is nothing to sum.
    pub initial_skip_pow: proof_of_work::Config,
    pub round_configs: Vec<RoundConfig>,
    pub final_sumcheck: sumcheck::Config,
    pub final_pow: proof_of_work::Config,
}

/// The prover's side of a commitment with out-of-domain samples.
#[derive(Debug)]
pub struct Witness {
    pub irs: irs_commit::Witness,
    pub out_of_domain: Evaluations,
}

/// What an opening leaves to check.
#[derive(Debug)]
pub struct FinalClaim {
    pub evaluation_point: Vec<Field64>,
    pub rlc_coefficients: Vec<Field64>,
    pub linear_form_rlc: Field64,
}

/// [`Witness`] as a mathematical value.
pub struct WitnessView {
    pub matrix: Seq<int>,
    pub ood_points: Seq<int>,
    pub ood_matrix: Seq<int>,
}

impl View for Witness {
    type V = WitnessView;

    open spec fn view(&self) -> WitnessView {
        WitnessView {
            matrix: vals(self.irs.matrix@),
            ood_points: vals(self.out_of_domain.points@),
            ood_matrix: vals(self.out_of_domain.matrix@),
        }
    }
}

/// The views of several witnesses.
pub open spec fn witness_views(witnesses: Seq<Witness>) -> Seq<WitnessView> {
    Seq::new(witnesses.len(), |w: int| witnesses[w]@)
}

/// The prover's state between rounds: the claim, the challenges that folded the vector
/// last, the weights of the vectors behind the last commitments, all challenges so
/// far, and the last commitments.
pub struct Stage {
    pub vector: Seq<int>,
    pub covector: Seq<int>,
    pub sum: int,
    pub folding: Seq<int>,
    pub weights: Seq<int>,
    pub points: Seq<int>,
    pub committer: irs_commit::Config,
    pub matrices: Seq<Seq<int>>,
    pub view: ProverView,
}

/// The value of vector `j` at a point: from the row of the commitment that it belongs
/// to, or computed.
pub open spec fn cross_entry(vectors: Seq<Seq<int>>, row: Seq<int>, offset: nat, x: int, j: int) -> int {
    if offset <= j < offset + row.len() {
        row[j - offset]
    } else {
        evaluate(vectors[j], x)
    }
}

/// The values of all vectors at a point.
pub open spec fn cross_row(vectors: Seq<Seq<int>>, row: Seq<int>, offset: nat, x: int) -> Seq<int> {
    Seq::new(vectors.len(), |j: int| cross_entry(vectors, row, offset, x, j))
}

/// The transcript after the values of the first `k` vectors that the row does not hold
/// were sent.
pub open spec fn cross_sent(
    p: ProverView,
    vectors: Seq<Seq<int>>,
    row: Seq<int>,
    offset: nat,
    x: int,
    k: nat,
) -> ProverView
    decreases k,
{
    if k == 0 {
        p
    } else {
        let before = cross_sent(p, vectors, row, offset, x, (k - 1) as nat);
        if offset <= k - 1 < offset + row.len() {
            before
        } else {
            before.send_field(evaluate(vectors[k - 1], x))
        }
    }
}

/// The points, the values of all vectors at them, and the transcript, after the first
/// `w` commitments and `i` points of the next.
pub open spec fn cross_terms(
    vectors: Seq<Seq<int>>,
    ws: Seq<WitnessView>,
    per: nat,
    w: nat,
    i: nat,
    p: ProverView,
) -> (Seq<int>, Seq<int>, ProverView)
    decreases w, i,
{
    if i > 0 {
        let (points, matrix, view) = cross_terms(vectors, ws, per, w, (i - 1) as nat, p);
        let x = ws[w as int].ood_points[i - 1];
        let row = row_of(ws[w as int].ood_matrix, per, i - 1);
        (
            points.push(x),
            matrix + cross_row(vectors, row, w * per, x),
            cross_sent(view, vectors, row, w * per, x, vectors.len()),
        )
    } else if w > 0 {
        cross_terms(vectors, ws, per, (w - 1) as nat, ws[w - 1].ood_points.len(), p)
    } else {
        (Seq::empty(), Seq::empty(), p)
    }
}

/// The weighted sum of a matrix's entries.
pub open spec fn bilinear(matrix: Seq<int>, rows: Seq<int>, columns: Seq<int>) -> int {
    dot_spec(rows, collapsed(matrix, columns, rows.len()))
}

/// A claim after a sumcheck.
pub open spec fn claim_folded(cfg: sumcheck::Config, vector: Seq<int>, covector: Seq<int>, sum: int, p: ProverView) -> (
    Seq<int>,
    Seq<int>,
    int,
    Seq<int>,
    ProverView,
) {
    let (end, rlc) = cfg.proved::<DotProductOracle>(seq![vector, covector], sum, Seq::empty(), p);
    (
        end.tables[0],
        end.tables[1],
        fadd(end.mask_sum, fmul(rlc, end.sum)),
        end.points,
        end.view,
    )
}

/// Does a sumcheck fold vectors of a code to its messages?
pub open spec fn folds(sumcheck: sumcheck::Config, code: irs_commit::Config) -> bool {
    &&& code.wf()
    &&& sumcheck.wf()
    &&& sumcheck.degree == 2
    &&& sumcheck.mode is Standard
    &&& sumcheck.initial_size == code.vector_size
    &&& pow2(sumcheck.num_rounds as nat) == code.interleaving_depth
    &&& sumcheck.spec_final_size() == code.message_len()
    &&& is_pow2(code.vector_size as nat)
}

impl RoundConfig {
    /// Does the round commit to single vectors, and fold them to the code's messages?
    pub open spec fn wf(&self) -> bool {
        &&& folds(self.sumcheck, self.irs_committer)
        &&& self.irs_committer.num_vectors == 1
    }
}

impl Config {
    /// The size of what is left after the first `k` rounds.
    pub open spec fn size_after(&self, k: nat) -> nat {
        if k == 0 {
            self.initial_sumcheck.spec_final_size()
        } else {
            self.round_configs@[k - 1].sumcheck.spec_final_size()
        }
    }

    /// The code of the commitment that round `k` opens.
    pub open spec fn code_before(&self, k: nat) -> irs_commit::Config {
        if k == 0 {
            self.initial_committer
        } else {
            self.round_configs@[k - 1].irs_committer
        }
    }

    /// Does every round start from what the one before it leaves, and do all counts fit
    /// a machine size?
    pub open spec fn wf(&self) -> bool {
        &&& folds(self.initial_sumcheck, self.initial_committer)
        &&& forall|k: int| 0 <= k < self.round_configs@.len() ==> (#[trigger] self.round_configs@[k]).wf()
        &&& forall|k: int|
            0 <= k < self.round_configs@.len() ==> (
            #[trigger] self.round_configs@[k]).irs_committer.vector_size == self.size_after(k as nat)
        &&& forall|k: int|
            0 <= k < self.round_configs@.len() ==> (#[trigger] self.round_configs@[k]).out_domain_samples
                + self.code_before(k as nat).codeword_length + self.code_before(
                k as nat,
            ).in_domain_samples <= usize::MAX
        &&& self.final_sumcheck.wf()
        &&& self.final_sumcheck.degree == 2
        &&& self.final_sumcheck.mode is Standard
        &&& self.final_sumcheck.initial_size == self.size_after(self.round_configs@.len())
    }

    /// The transcript, and the weights of the vectors, after the missing values were
    /// sent.
    pub open spec fn gathered(&self, vectors: Seq<Seq<int>>, ws: Seq<WitnessView>, p: ProverView) -> (
        Seq<int>,
        Seq<int>,
        ProverView,
    ) {
        cross_terms(vectors, ws, self.initial_committer.num_vectors as nat, ws.len(), 0, p)
    }

    /// The first claim, before the first sumcheck: the combined vector, covector and
    /// sum, the coefficients of the vectors and of the forms, and the transcript.
    pub open spec fn first_claim(
        &self,
        vectors: Seq<Seq<int>>,
        ws: Seq<WitnessView>,
        covectors: Seq<Seq<int>>,
        evaluations: Seq<int>,
        p: ProverView,
    ) -> (Stage, Seq<int>) {
        let (points, matrix, sent) = self.gathered(vectors, ws, p);
        let n = vectors.len();
        let weights = combination(sent.sponge, n);
        let drawn = ProverView { sponge: after_base(sent.sponge, n), ..sent };
        let size = self.initial_committer.vector_size as nat;
        let count = covectors.len() + points.len();
        let rlc = combination(drawn.sponge, count);
        let forms_rlc = rlc.subrange(0, covectors.len() as int);
        let oods_rlc = rlc.subrange(covectors.len() as int, count as int);
        let covector = if count > 0 {
            batched_covector(covectors, forms_rlc, size, covectors.len())
        } else {
            Seq::empty()
        };
        (
            Stage {
                vector: theta_combined(weights, vectors, size),
                covector: accumulated(covector, oods_rlc, points, covector.len()),
                sum: fadd(bilinear(evaluations, forms_rlc, weights), bilinear(matrix, oods_rlc, weights)),
                folding: Seq::empty(),
                weights,
                points: Seq::empty(),
                committer: self.initial_committer,
                matrices: Seq::new(ws.len(), |w: int| ws[w].matrix),
                view: ProverView { sponge: after_base(drawn.sponge, count), ..drawn },
            },
            forms_rlc,
        )
    }

    /// The prover after the first sumcheck, or what stands in its place where there is
    /// nothing to sum.
    pub open spec fn first_folded(&self, s: Stage, count: nat) -> Stage {
        if count > 0 {
            let (vector, covector, sum, points, view) = claim_folded(
                self.initial_sumcheck,
                s.vector,
                s.covector,
                s.sum,
                s.view,
            );
            Stage { vector, covector, sum, folding: points, points, view, ..s }
        } else {
            let n = self.initial_sumcheck.num_rounds as nat;
            let points = challenges(s.view.sponge, n);
            Stage {
                vector: folded_all(s.vector, points),
                covector: zeros_spec(self.initial_sumcheck.spec_final_size()),
                folding: points,
                points,
                view: self.initial_skip_pow.proved(s.view.draw_many(n)),
                ..s
            }
        }
    }

    /// The prover before the first round, and the coefficients of the forms.
    pub open spec fn started(
        &self,
        vectors: Seq<Seq<int>>,
        ws: Seq<WitnessView>,
        covectors: Seq<Seq<int>>,
        evaluations: Seq<int>,
        p: ProverView,
    ) -> (Stage, Seq<int>) {
        let (s, forms_rlc) = self.first_claim(vectors, ws, covectors, evaluations, p);
        let count = covectors.len() + self.gathered(vectors, ws, p).0.len();
        (self.first_folded(s, count), forms_rlc)
    }

    /// The prover after round `k`'s samples were taken into the claim.
    pub open spec fn sampled(&self, k: int, s: Stage) -> Stage {
        let round = self.round_configs@[k];
        let (ood, committed) = round.irs_committer.committed_with_ood(
            seq![s.vector],
            round.out_domain_samples as nat,
            s.view,
        );
        let worked = round.pow.proved(committed);
        let (inn, matrix, opened) = s.committer.opened(worked, s.matrices);
        let xs = ood + inn;
        let weights = slot_table(s.weights, crate::algebra::eq_table(s.folding));
        let values = ood_values(seq![s.vector], ood) + collapsed(matrix, weights, inn.len());
        let rlc = combination(opened.sponge, xs.len());
        Stage {
            covector: accumulated(s.covector, rlc, xs, s.covector.len()),
            sum: fadd(s.sum, dot_spec(rlc, values)),
            weights: seq![1int],
            committer: round.irs_committer,
            matrices: seq![round.irs_committer.encoded(
                seq![s.vector],
                round.irs_committer.masks_of(s.view),
            )],
            view: ProverView { sponge: after_base(opened.sponge, xs.len()), ..opened },
            ..s
        }
    }

    /// The prover after round `k`.
    pub open spec fn rounded(&self, k: int, s: Stage) -> Stage {
        let t = self.sampled(k, s);
        let (vector, covector, sum, points, view) = claim_folded(
            self.round_configs@[k].sumcheck,
            t.vector,
            t.covector,
            t.sum,
            t.view,
        );
        Stage { vector, covector, sum, folding: points, points: t.points + points, view, ..t }
    }

    /// The prover after the first `k` rounds.
    pub open spec fn rounds_run(&self, s: Stage, k: nat) -> Stage
        decreases k,
    {
        if k == 0 {
            s
        } else {
            self.rounded(k - 1, self.rounds_run(s, (k - 1) as nat))
        }
    }

    /// The prover at the end: the vector was sent, the last commitment opened, and the
    /// last sumcheck run.
    pub open spec fn finished(&self, s: Stage) -> Stage {
        let worked = self.final_pow.proved(s.view.send_fields(s.vector));
        let opened = s.committer.opened(worked, s.matrices).2;
        let (vector, covector, sum, points, view) = claim_folded(
            self.final_sumcheck,
            s.vector,
            s.covector,
            s.sum,
            opened,
        );
        Stage { vector, covector, sum, folding: points, points: s.points + points, view, ..s }
    }

    /// The size of the vectors.
    pub fn initial_size(&self) -> (r: usize)
        ensures
            r == self.initial_committer.vector_size,
    {
        self.initial_committer.vector_size
    }
}

/// The combination of vectors by the given coefficients.
pub fn linear_combination(vectors: &[Vec<Field64>], coefficients: &[Field64], len: usize) -> (r: Vec<
    Field64,
>)
    requires
        vectors@.len() == coefficients@.len(),
        forall|b: int| 0 <= b < vectors@.len() ==> (#[trigger] vectors@[b])@.len() == len,
    ensures
        vals(r@) == theta_combined(vals(coefficients@), all_vals(vectors@), len as nat),
        r@.len() == len,
{
    let ghost th = vals(coefficients@);
    let ghost vs = all_vals(vectors@);
    let mut out: Vec<Field64> = Vec::new();
    for i in 0..len
        invariant
            vectors@.len() == coefficients@.len(),
            forall|b: int| 0 <= b < vectors@.len() ==> (#[trigger] vectors@[b])@.len() == len,
            th == vals(coefficients@),
            vs == all_vals(vectors@),
            out@.len() == i,
            forall|t: int| 0 <= t < i ==> (#[trigger] out@[t])@ == theta_combined(th, vs, len as nat)[t],
    {
        let mut acc: Field64 = Field64::zero();
        for b in 0..vectors.len()
            invariant
                i < len,
                vectors@.len() == coefficients@.len(),
                forall|c: int| 0 <= c < vectors@.len() ==> (#[trigger] vectors@[c])@.len() == len,
                th == vals(coefficients@),
                vs == all_vals(vectors@),
                acc@ == fsum(theta_terms(th, vs, i as int), b as nat),
        {
            assert(vectors@[b as int]@.len() == len);
            assert(vs[b as int] == vals(vectors@[b as int]@));
            acc = acc.add(coefficients[b].mul(vectors[b][i]));
        }
        out.push(acc);
    }
    assert(vals(out@) =~= theta_combined(th, vs, len as nat));
    out
}

/// Run a sumcheck on a claim.
fn fold_claim(
    cfg: &sumcheck::Config,
    ps: &mut ProverState,
    vector: Vec<Field64>,
    covector: Vec<Field64>,
    sum: &mut Field64,
) -> (r: (Vec<Field64>, Vec<Field64>, Vec<Field64>))
    requires
        cfg.wf(),
        cfg.degree == 2,
        cfg.mode is Standard,
        vector@.len() == cfg.initial_size,
        covector@.len() == cfg.initial_size,
    ensures
        claim_folded(*cfg, vals(vector@), vals(covector@), old(sum)@, old(ps)@) == (
            vals(r.0@),
            vals(r.1@),
            final(sum)@,
            vals(r.2@),
            final(ps)@,
        ),
        r.0@.len() == cfg.spec_final_size(),
        r.1@.len() == cfg.spec_final_size(),
        r.2@.len() == cfg.num_rounds,
{
    let no_masks: Vec<Field64> = Vec::new();
    proof {
        assert(vals(no_masks@) =~= Seq::<int>::empty());
        assert(cfg.num_rounds * 0 == 0) by (nonlinear_arith);
        lemma_final_tables(
            cfg,
            vals(vector@),
            vals(covector@),
            sum@,
            vals(no_masks@),
            ps@,
        );
    }
    let (v, c, opening): (Vec<Field64>, Vec<Field64>, SumcheckOpening) = cfg.prove_lifted(
        ps,
        vector,
        covector,
        sum,
        no_masks.as_slice(),
    );
    proof {
        let tables = seq![vals(v@), vals(c@)];
        assert(tables[0].len() == v@.len());
        assert(tables[1].len() == c@.len());
    }
    (v, c, opening.round_challenges)
}

/// An opening has at most as many rows as there are samples and rows together.
proof fn lemma_few_rows(cfg: &irs_commit::Config, sponge: Seq<u8>)
    requires
        cfg.wf(),
    ensures
        cfg.indices(sponge).0.len() <= cfg.in_domain_samples + cfg.codeword_length,
{
    let n = cfg.codeword_length;
    let count = cfg.in_domain_samples as nat;
    crate::challenge_indices::law_sponge_never_runs_out(sponge, n as nat, count);
    crate::challenge_indices::law_indices_in_range::<crate::transcript::Sponge>(
        sponge,
        n,
        count,
        cfg.deduplicate_in_domain,
    );
    lemma_index_count(cfg, sponge);
}

/// How many out-of-domain points the first `k` commitments have.
pub open spec fn samples_before(ws: Seq<WitnessView>, k: nat) -> nat
    decreases k,
{
    if k == 0 {
        0
    } else {
        samples_before(ws, (k - 1) as nat) + ws[k - 1].ood_points.len()
    }
}

/// The number of points and of values that were gathered.
proof fn lemma_cross_lengths(
    vectors: Seq<Seq<int>>,
    ws: Seq<WitnessView>,
    per: nat,
    w: nat,
    i: nat,
    p: ProverView,
)
    requires
        w <= ws.len(),
    ensures
        ({
            let (points, matrix, view) = cross_terms(vectors, ws, per, w, i, p);
            &&& points.len() == samples_before(ws, w) + i
            &&& matrix.len() == points.len() * vectors.len()
        }),
    decreases w, i,
{
    let n = vectors.len();
    if i > 0 {
        lemma_cross_lengths(vectors, ws, per, w, (i - 1) as nat, p);
        let k = (samples_before(ws, w) + i - 1) as int;
        assert((k + 1) * n == k * n + n) by (nonlinear_arith);
    } else if w > 0 {
        lemma_cross_lengths(vectors, ws, per, (w - 1) as nat, ws[w - 1].ood_points.len(), p);
    } else {
        assert(0 * n == 0) by (nonlinear_arith);
    }
}

impl Config {
    /// Do the inputs of an opening fit the configuration?
    pub open spec fn inputs_fit(
        &self,
        vectors: Seq<Vec<Field64>>,
        witnesses: Seq<Witness>,
        linear_forms: Seq<&LinearForm>,
        evaluations: Seq<Field64>,
    ) -> bool {
        let size = self.initial_committer.vector_size;
        &&& vectors.len() == witnesses.len() * self.initial_committer.num_vectors
        &&& evaluations.len() == linear_forms.len() * vectors.len()
        &&& forall|j: int| 0 <= j < vectors.len() ==> (#[trigger] vectors[j])@.len() == size
        &&& forall|j: int|
            0 <= j < linear_forms.len() ==> (#[trigger] linear_forms[j]).wf()
                && linear_forms[j].covector().len() == size
        &&& forall|w: int|
            0 <= w < witnesses.len() ==> (#[trigger] witnesses[w]).irs.wf(&self.initial_committer)
                && witnesses[w].out_of_domain.matrix@.len()
                == witnesses[w].out_of_domain.points@.len() * self.initial_committer.num_vectors
        &&& linear_forms.len() + samples_before(witness_views(witnesses), witnesses.len()) <= usize::MAX
        &&& samples_before(witness_views(witnesses), witnesses.len()) * vectors.len() <= usize::MAX
    }

    /// Send the values of all vectors at one point, but for those of the commitment
    /// that the point belongs to, and return all.
    fn send_cross_row(
        ps: &mut ProverState,
        vectors: &[Vec<Field64>],
        row: &[Field64],
        offset: usize,
        x: Field64,
        matrix: &mut Vec<Field64>,
    )
        requires
            offset + row@.len() <= vectors@.len(),
        ensures
            final(ps)@ == cross_sent(
                old(ps)@,
                all_vals(vectors@),
                vals(row@),
                offset as nat,
                x@,
                vectors@.len(),
            ),
            vals(final(matrix)@) == vals(old(matrix)@) + cross_row(
                all_vals(vectors@),
                vals(row@),
                offset as nat,
                x@,
            ),
    {
        let ghost vs = all_vals(vectors@);
        let ghost rw = vals(row@);
        let ghost target = cross_row(vs, rw, offset as nat, x@);
        let n: usize = vectors.len();
        for j in 0..n
            invariant
                n == vectors@.len(),
                offset + row@.len() <= n,
                vs == all_vals(vectors@),
                rw == vals(row@),
                target == cross_row(vs, rw, offset as nat, x@),
                ps@ == cross_sent(old(ps)@, vs, rw, offset as nat, x@, j as nat),
                vals(matrix@) =~= vals(old(matrix)@) + target.take(j as int),
        {
            let value: Field64 = if offset <= j && j < offset + row.len() {
                row[j - offset]
            } else {
                let y: Field64 = univariate_evaluate(vectors[j].as_slice(), x);
                assert(vs[j as int] == vals(vectors@[j as int]@));
                ps.prover_message(y);
                y
            };
            proof {
                lemma_vals_push(matrix@, value);
                assert(target[j as int] == value@);
            }
            matrix.push(value);
        }
        assert(target.take(n as int) =~= target);
    }

    /// Send the values that the commitments' samples lack: those of the other
    /// commitments' vectors.
    fn send_cross_terms(&self, ps: &mut ProverState, vectors: &[Vec<Field64>], witnesses: &Vec<Witness>) -> (r: (
        Vec<Field64>,
        Vec<Field64>,
    ))
        requires
            vectors@.len() == witnesses@.len() * self.initial_committer.num_vectors,
            forall|w: int|
                0 <= w < witnesses@.len() ==> (#[trigger] witnesses@[w]).out_of_domain.matrix@.len()
                    == witnesses@[w].out_of_domain.points@.len() * self.initial_committer.num_vectors,
        ensures
            (vals(r.0@), vals(r.1@), final(ps)@) == self.gathered(
                all_vals(vectors@),
                witness_views(witnesses@),
                old(ps)@,
            ),
    {
        let ghost vs = all_vals(vectors@);
        let ghost ws = witness_views(witnesses@);
        let ghost p0 = ps@;
        let per: usize = self.initial_committer.num_vectors;
        let total: usize = vectors.len();
        let mut points: Vec<Field64> = Vec::new();
        let mut matrix: Vec<Field64> = Vec::new();
        proof {
            assert(vals(points@) =~= Seq::<int>::empty());
            assert(vals(matrix@) =~= Seq::<int>::empty());
        }
        for w in 0..witnesses.len()
            invariant
                total == vectors@.len(),
                per == self.initial_committer.num_vectors,
                vectors@.len() == witnesses@.len() * per,
                forall|c: int|
                    0 <= c < witnesses@.len() ==> (#[trigger] witnesses@[c]).out_of_domain.matrix@.len()
                        == witnesses@[c].out_of_domain.points@.len() * per,
                vs == all_vals(vectors@),
                ws == witness_views(witnesses@),
                (vals(points@), vals(matrix@), ps@) == cross_terms(vs, ws, per as nat, w as nat, 0, p0),
        {
            let ood: &Evaluations = &witnesses[w].out_of_domain;
            let count: usize = ood.points.len();
            let len: usize = ood.matrix.len();
            proof {
                let (a, b, c) = (w as int, witnesses@.len() as int, per as int);
                assert(a * c + c <= b * c) by (nonlinear_arith)
                    requires
                        a < b,
                        c >= 0,
                ;
                assert(a * c >= 0) by (nonlinear_arith)
                    requires
                        a >= 0,
                        c >= 0,
                ;
                assert(witnesses@[w as int].out_of_domain.matrix@.len() == count * per);
            }
            let offset: usize = w * per;
            for i in 0..count
                invariant
                    w < witnesses@.len(),
                    *ood == witnesses@[w as int].out_of_domain,
                    count == ood.points@.len(),
                    len == ood.matrix@.len(),
                    len == count * per,
                    offset == w * per,
                    offset + per <= vectors@.len(),
                    vs == all_vals(vectors@),
                    ws == witness_views(witnesses@),
                    (vals(points@), vals(matrix@), ps@) == cross_terms(
                        vs,
                        ws,
                        per as nat,
                        w as nat,
                        i as nat,
                        p0,
                    ),
            {
                proof {
                    let (a, b, c) = (i as int, count as int, per as int);
                    assert(a * c + c <= b * c) by (nonlinear_arith)
                        requires
                            a < b,
                            c >= 0,
                    ;
                    assert(a * c >= 0) by (nonlinear_arith)
                        requires
                            a >= 0,
                            c >= 0,
                    ;
                    lemma_vals_push(points@, ood.points@[i as int]);
                    assert(ws[w as int] == witnesses@[w as int]@);
                }
                let row: &[Field64] = vstd::slice::slice_subrange(
                    ood.matrix.as_slice(),
                    i * per,
                    i * per + per,
                );
                assert(vals(row@) =~= row_of(ws[w as int].ood_matrix, per as nat, i as int));
                Self::send_cross_row(ps, vectors, row, offset, ood.points[i], &mut matrix);
                points.push(ood.points[i]);
            }
            assert(ws[w as int].ood_points.len() == count);
        }
        (points, matrix)
    }
}

/// The prover's state between rounds.
#[derive(Debug)]
pub struct OpenClaim {
    pub vector: Vec<Field64>,
    pub covector: Vec<Field64>,
    pub sum: Field64,
    pub folding: Vec<Field64>,
    pub weights: Vec<Field64>,
    pub points: Vec<Field64>,
    pub witnesses: Vec<irs_commit::Witness>,
}

impl OpenClaim {
    /// Is this the given stage, up to the transcript?
    pub open spec fn is(&self, s: Stage) -> bool {
        &&& vals(self.vector@) == s.vector
        &&& vals(self.covector@) == s.covector
        &&& self.sum@ == s.sum
        &&& vals(self.folding@) == s.folding
        &&& vals(self.weights@) == s.weights
        &&& vals(self.points@) == s.points
        &&& matrices_of(self.witnesses@) == s.matrices
    }

    /// Are the claim and the commitments of the given sizes?
    pub open spec fn sized(&self, size: nat, committer: &irs_commit::Config) -> bool {
        &&& self.vector@.len() == size
        &&& self.covector@.len() == size
        &&& self.weights@.len() * pow2(self.folding@.len()) == self.witnesses@.len() * committer.cols()
        &&& forall|w: int|
            0 <= w < self.witnesses@.len() ==> (#[trigger] self.witnesses@[w]).wf(committer)
    }
}

impl Config {
    /// Combine the vectors and the claims.
    fn combine(
        &self,
        ps: &mut ProverState,
        vectors: &[Vec<Field64>],
        witnesses: Vec<Witness>,
        linear_forms: &[&LinearForm],
        evaluations: &[Field64],
    ) -> (r: (OpenClaim, Vec<Field64>, usize))
        requires
            self.wf(),
            self.inputs_fit(vectors@, witnesses@, linear_forms@, evaluations@),
        ensures
            ({
                let vs = all_vals(vectors@);
                let ws = witness_views(witnesses@);
                let cs = crate::zook::final_claim::covectors_of(linear_forms@);
                let (s, forms_rlc) = self.first_claim(vs, ws, cs, vals(evaluations@), old(ps)@);
                &&& r.0.is(s)
                &&& vals(r.1@) == forms_rlc
                &&& r.2 == cs.len() + self.gathered(vs, ws, old(ps)@).0.len()
                &&& final(ps)@ == s.view
            }),
            r.0.vector@.len() == self.initial_committer.vector_size,
            r.2 > 0 ==> r.0.covector@.len() == self.initial_committer.vector_size,
            r.0.weights@.len() == vectors@.len(),
            r.0.witnesses@.len() == witnesses@.len(),
            forall|w: int|
                0 <= w < r.0.witnesses@.len() ==> (#[trigger] r.0.witnesses@[w]).wf(
                    &self.initial_committer,
                ),
    {
        let ghost p0 = ps@;
        let ghost vs = all_vals(vectors@);
        let ghost ws = witness_views(witnesses@);
        let ghost cs = crate::zook::final_claim::covectors_of(linear_forms@);
        let ghost start = witnesses@;
        let n: usize = vectors.len();
        let size: usize = self.initial_committer.vector_size;
        let (points, matrix): (Vec<Field64>, Vec<Field64>) = self.send_cross_terms(
            ps,
            vectors,
            &witnesses,
        );
        proof {
            lemma_cross_lengths(
                vs,
                ws,
                self.initial_committer.num_vectors as nat,
                ws.len(),
                0,
                p0,
            );
            assert(vals(points@).len() == points@.len());
            assert(vals(matrix@).len() == matrix@.len());
        }
        let weights: Vec<Field64> = geometric_challenge_buffer(&mut ps.sponge, n);
        let vector: Vec<Field64> = linear_combination(vectors, weights.as_slice(), size);
        let forms: usize = linear_forms.len();
        let oods: usize = points.len();
        let lengths: Vec<usize> = vec![forms, oods];
        let ghost st = ps@.sponge;
        let count: usize = forms + oods;
        proof {
            reveal_with_fuel(length_before, 3);
            assert(lengths@ =~= seq![forms, oods]);
            assert(total_length(lengths@) == count);
        }
        let mut groups: Vec<Vec<Field64>> = geometric_challenge_groups(
            &mut ps.sponge,
            lengths.as_slice(),
        );
        let ghost g0 = groups@[0];
        let ghost g1 = groups@[1];
        proof {
            assert(vals(g0@) == combination(st, count as nat).subrange(0, forms as int));
            assert(vals(g1@) == combination(st, count as nat).subrange(forms as int, count as int));
            assert(vals(g0@).len() == g0@.len());
            assert(vals(g1@).len() == g1@.len());
        }
        let oods_rlc: Vec<Field64> = match groups.pop() {
            Some(g) => g,
            None => Vec::new(),
        };
        let forms_rlc: Vec<Field64> = match groups.pop() {
            Some(g) => g,
            None => Vec::new(),
        };
        assert(oods_rlc == g1 && forms_rlc == g0);
        let mut covector: Vec<Field64> = if count > 0 {
            zeros(size)
        } else {
            zeros(0)
        };
        if count > 0 {
            for j in 0..forms
                invariant
                    forms == linear_forms@.len(),
                    cs == crate::zook::final_claim::covectors_of(linear_forms@),
                    size == self.initial_committer.vector_size,
                    forms_rlc@.len() == forms,
                    covector@.len() == size,
                    vals(covector@) == batched_covector(cs, vals(forms_rlc@), size as nat, j as nat),
                    forall|i: int|
                        0 <= i < linear_forms@.len() ==> (#[trigger] linear_forms@[i]).wf()
                            && linear_forms@[i].covector().len() == size,
            {
                let form: &LinearForm = linear_forms[j];
                assert(linear_forms@[j as int].wf());
                form.accumulate(&mut covector, 0, forms_rlc[j]);
            }
        } else {
            assert(vals(covector@) =~= Seq::<int>::empty());
        }
        let own: Vec<Field64> = collapse(evaluations, weights.as_slice(), forms);
        let other: Vec<Field64> = collapse(matrix.as_slice(), weights.as_slice(), oods);
        let sum: Field64 = dot(forms_rlc.as_slice(), own.as_slice()).add(
            dot(oods_rlc.as_slice(), other.as_slice()),
        );
        let len: usize = covector.len();
        geometric_accumulate(&mut covector, oods_rlc.as_slice(), points.as_slice(), len);
        let irs: Vec<irs_commit::Witness> = take_irs(witnesses);
        let claim = OpenClaim {
            vector,
            covector,
            sum,
            folding: Vec::new(),
            weights,
            points: Vec::new(),
            witnesses: irs,
        };
        proof {
            assert(vals(claim.folding@) =~= Seq::<int>::empty());
            assert(vals(claim.points@) =~= Seq::<int>::empty());
            assert(matrices_of(claim.witnesses@) =~= Seq::new(ws.len(), |w: int| ws[w].matrix));
            assert forall|w: int| 0 <= w < claim.witnesses@.len() implies (
            #[trigger] claim.witnesses@[w]).wf(&self.initial_committer) by {
                assert(start[w].irs.wf(&self.initial_committer));
            }
        }
        (claim, forms_rlc, count)
    }

    /// Run the first sumcheck, or draw its challenges where there is nothing to sum.
    fn fold_first(&self, ps: &mut ProverState, claim: OpenClaim, count: usize, Ghost(s): Ghost<Stage>) -> (r:
        OpenClaim)
        requires
            self.wf(),
            claim.is(s),
            old(ps)@ == s.view,
            claim.vector@.len() == self.initial_committer.vector_size,
            count > 0 ==> claim.covector@.len() == self.initial_committer.vector_size,
            claim.weights@.len() == claim.witnesses@.len() * self.initial_committer.num_vectors,
            forall|w: int|
                0 <= w < claim.witnesses@.len() ==> (#[trigger] claim.witnesses@[w]).wf(
                    &self.initial_committer,
                ),
        ensures
            r.is(self.first_folded(s, count as nat)),
            r.sized(self.size_after(0), &self.initial_committer),
            final(ps)@ == self.first_folded(s, count as nat).view,
    {
        let OpenClaim { vector, covector, sum, folding, weights, points, witnesses } = claim;
        let n: usize = self.initial_sumcheck.num_rounds;
        proof {
            let c = self.initial_committer;
            let (a, b, d) = (
                witnesses@.len() as int,
                c.num_vectors as int,
                c.interleaving_depth as int,
            );
            assert((a * b) * d == a * (d * b)) by (nonlinear_arith);
        }
        if count > 0 {
            let mut sum: Field64 = sum;
            let (v, c, challenges): (Vec<Field64>, Vec<Field64>, Vec<Field64>) = fold_claim(
                &self.initial_sumcheck,
                ps,
                vector,
                covector,
                &mut sum,
            );
            let points: Vec<Field64> = copied(challenges.as_slice());
            OpenClaim {
                vector: v,
                covector: c,
                sum,
                folding: challenges,
                weights,
                points,
                witnesses,
            }
        } else {
            proof {
                lemma_challenges_len(ps@.sponge, n as nat);
            }
            let challenges: Vec<Field64> = ps.verifier_message_vec(n);
            self.initial_skip_pow.prove(ps);
            let mut v: Vec<Field64> = vector;
            let ghost v0 = vals(v@);
            let ghost rs = vals(challenges@);
            proof {
                assert(rs.len() == challenges@.len());
                assert(rs.take(0) =~= Seq::<int>::empty());
                lemma_half_sizes(&self.initial_sumcheck, &self.initial_committer);
            }
            for k in 0..challenges.len()
                invariant
                    rs == vals(challenges@),
                    vals(v@) == folded_all(v0, rs.take(k as int)),
                    v@.len() <= usize::MAX / 2 + 1,
            {
                let ghost before = v@.len();
                assert(vals(v@).len() == before);
                fold(&mut v, challenges[k]);
                proof {
                    assert(rs.take(k + 1).drop_last() =~= rs.take(k as int));
                    assert(rs.take(k + 1).last() == rs[k as int]);
                    assert(vals(v@).len() == v@.len());
                    lemma_folded_smaller(before, v@.len());
                }
            }
            proof {
                assert(rs.take(rs.len() as int) =~= rs);
                lemma_folded_size(&self.initial_sumcheck, &self.initial_committer, v0, rs);
                assert(vals(v@).len() == v@.len());
            }
            let final_size: usize = self.initial_sumcheck.final_size();
            let points: Vec<Field64> = copied(challenges.as_slice());
            OpenClaim {
                vector: v,
                covector: zeros(final_size),
                sum,
                folding: challenges,
                weights,
                points,
                witnesses,
            }
        }
    }

    /// Run one round.
    fn round(&self, ps: &mut ProverState, k: usize, claim: OpenClaim, Ghost(s): Ghost<Stage>) -> (r: OpenClaim)
        requires
            self.wf(),
            k < self.round_configs@.len(),
            claim.is(s),
            s.committer == self.code_before(k as nat),
            s.view == old(ps)@,
            claim.sized(self.size_after(k as nat), &self.code_before(k as nat)),
        ensures
            r.is(self.rounded(k as int, s)),
            final(ps)@ == self.rounded(k as int, s).view,
            r.sized(self.size_after((k + 1) as nat), &self.code_before((k + 1) as nat)),
    {
        let OpenClaim { vector, covector, sum, folding, weights, points, witnesses } = claim;
        let round: RoundConfig = self.round_configs[k];
        let committer: irs_commit::Config = if k == 0 {
            self.initial_committer
        } else {
            self.round_configs[k - 1].irs_committer
        };
        proof {
            assert(self.round_configs@[k as int].wf());
            assert(self.round_configs@[k as int].irs_committer.vector_size == self.size_after(k as nat));
            if k > 0 {
                assert(self.round_configs@[k - 1].wf());
            }
        }
        let mut vectors: Vec<Vec<Field64>> = Vec::new();
        vectors.push(copied(vector.as_slice()));
        assert(all_vals(vectors@) =~= seq![s.vector]);
        let (new_witness, out_of_domain): (irs_commit::Witness, Evaluations) =
            round.irs_committer.commit_with_ood(ps, vectors.as_slice(), round.out_domain_samples);
        round.pow.prove(ps);
        proof {
            lemma_few_rows(&committer, ps@.sponge);
            assert(self.round_configs@[k as int].out_domain_samples + self.code_before(
                k as nat,
            ).codeword_length + self.code_before(k as nat).in_domain_samples <= usize::MAX);
        }
        let in_domain: Evaluations = committer.open(ps, witnesses.as_slice());
        let xs: Vec<Field64> = concat(
            out_of_domain.points.as_slice(),
            in_domain.points.as_slice(),
        );
        let stir_weights: Vec<Field64> = slot_weights::build(weights.as_slice(), folding.as_slice());
        let rows: usize = in_domain.points.len();
        let in_values: Vec<Field64> = collapse(
            in_domain.matrix.as_slice(),
            stir_weights.as_slice(),
            rows,
        );
        let values: Vec<Field64> = concat(out_of_domain.matrix.as_slice(), in_values.as_slice());
        let rlc: Vec<Field64> = geometric_challenge_buffer(&mut ps.sponge, xs.len());
        let mut covector: Vec<Field64> = covector;
        let len: usize = covector.len();
        proof {
            assert(vals(xs@).len() == xs@.len());
            assert(vals(in_domain.points@).len() == in_domain.points@.len());
            let m = ood_values(seq![s.vector], vals(out_of_domain.points@));
            assert(m.len() == out_of_domain.points@.len()) by {
                let c = out_of_domain.points@.len() as int;
                assert(c * 1 == c) by (nonlinear_arith);
                assert(vals(out_of_domain.points@).len() == c);
            }
            assert(vals(out_of_domain.matrix@).len() == out_of_domain.matrix@.len());
        }
        geometric_accumulate(&mut covector, rlc.as_slice(), xs.as_slice(), len);
        let mut sum: Field64 = sum.add(dot(rlc.as_slice(), values.as_slice()));
        let ghost t = self.sampled(k as int, s);
        proof {
            assert(vals(covector@) == t.covector);
            assert(sum@ == t.sum);
            assert(ps@ == t.view);
        }
        let (v, c, challenges): (Vec<Field64>, Vec<Field64>, Vec<Field64>) = fold_claim(
            &round.sumcheck,
            ps,
            vector,
            covector,
            &mut sum,
        );
        let points: Vec<Field64> = concat(points.as_slice(), challenges.as_slice());
        let mut last: Vec<irs_commit::Witness> = Vec::new();
        let ghost matrix = vals(new_witness.matrix@);
        last.push(new_witness);
        let ones: Vec<Field64> = vec![Field64::one()];
        proof {
            assert(matrices_of(last@) =~= seq![matrix]);
            assert(vals(ones@) =~= seq![1int]);
            let d = round.irs_committer.interleaving_depth as int;
            assert(d * 1 == d && 1 * d == d) by (nonlinear_arith);
        }
        OpenClaim {
            vector: v,
            covector: c,
            sum,
            folding: challenges,
            weights: ones,
            points,
            witnesses: last,
        }
    }

    /// Prove the values of linear forms of committed vectors. The values are those of
    /// every vector at every form, form by form.
    pub fn prove(
        &self,
        ps: &mut ProverState,
        vectors: &[Vec<Field64>],
        witnesses: Vec<Witness>,
        linear_forms: &[&LinearForm],
        evaluations: &[Field64],
    ) -> (r: FinalClaim)
        requires
            self.wf(),
            self.inputs_fit(vectors@, witnesses@, linear_forms@, evaluations@),
        ensures
            vectors@.len() == 0 ==> r.evaluation_point@.len() == 0 && r.rlc_coefficients@.len() == 0
                && final(ps)@ == old(ps)@,
            vectors@.len() > 0 ==> ({
                let (s, forms_rlc) = self.started(
                    all_vals(vectors@),
                    witness_views(witnesses@),
                    crate::zook::final_claim::covectors_of(linear_forms@),
                    vals(evaluations@),
                    old(ps)@,
                );
                let last = self.rounds_run(s, self.round_configs@.len());
                let end = self.finished(last);
                &&& sends_first(last.view, final(ps)@, value_words(last.vector))
                &&& vals(r.evaluation_point@) == end.points
                &&& vals(r.rlc_coefficients@) == forms_rlc
                &&& final(ps)@ == end.view
            }),
            r.linear_form_rlc@ == 0,
    {
        if vectors.len() == 0 {
            return FinalClaim {
                evaluation_point: Vec::new(),
                rlc_coefficients: Vec::new(),
                linear_form_rlc: Field64::zero(),
            };
        }
        let ghost p0 = ps@;
        let ghost cs = crate::zook::final_claim::covectors_of(linear_forms@);
        let ghost first = self.first_claim(
            all_vals(vectors@),
            witness_views(witnesses@),
            cs,
            vals(evaluations@),
            p0,
        ).0;
        let (start, forms_rlc, count): (OpenClaim, Vec<Field64>, usize) = self.combine(
            ps,
            vectors,
            witnesses,
            linear_forms,
            evaluations,
        );
        let mut claim: OpenClaim = self.fold_first(ps, start, count, Ghost(first));
        let ghost s0 = self.first_folded(first, count as nat);
        for k in 0..self.round_configs.len()
            invariant
                self.wf(),
                s0.committer == self.initial_committer,
                claim.is(self.rounds_run(s0, k as nat)),
                ps@ == self.rounds_run(s0, k as nat).view,
                self.rounds_run(s0, k as nat).committer == self.code_before(k as nat),
                claim.sized(self.size_after(k as nat), &self.code_before(k as nat)),
        {
            claim = self.round(ps, k, claim, Ghost(self.rounds_run(s0, k as nat)));
        }
        let n: usize = self.round_configs.len();
        let ghost s = self.rounds_run(s0, n as nat);
        let OpenClaim { vector, covector, sum, folding, weights, points, witnesses } = claim;
        ps.prover_messages(vector.as_slice());
        self.final_pow.prove(ps);
        let committer: irs_commit::Config = if n == 0 {
            self.initial_committer
        } else {
            self.round_configs[n - 1].irs_committer
        };
        proof {
            if n > 0 {
                assert(self.round_configs@[n - 1].wf());
            }
        }
        let opened: Evaluations = committer.open(ps, witnesses.as_slice());
        proof {
            law_final_vector_is_sent(self, s);
        }
        let mut sum: Field64 = sum;
        let (v, c, challenges): (Vec<Field64>, Vec<Field64>, Vec<Field64>) = fold_claim(
            &self.final_sumcheck,
            ps,
            vector,
            covector,
            &mut sum,
        );
        FinalClaim {
            evaluation_point: concat(points.as_slice(), challenges.as_slice()),
            rlc_coefficients: forms_rlc,
            linear_form_rlc: Field64::zero(),
        }
    }
}

/// The commitments' witnesses.
fn take_irs(witnesses: Vec<Witness>) -> (r: Vec<irs_commit::Witness>)
    ensures
        r@.len() == witnesses@.len(),
        forall|w: int| 0 <= w < r@.len() ==> #[trigger] r@[w] == witnesses@[w].irs,
{
    let n: usize = witnesses.len();
    let ghost start = witnesses@;
    let mut rest: Vec<Witness> = witnesses;
    let mut reversed: Vec<irs_commit::Witness> = Vec::new();
    for i in 0..n
        invariant
            n == start.len(),
            rest@ == start.take(n - i),
            reversed@.len() == i,
            forall|c: int| 0 <= c < i ==> #[trigger] reversed@[c] == start[n - 1 - c].irs,
    {
        match rest.pop() {
            Some(w) => {
                reversed.push(w.irs);
            },
            None => {},
        }
        assert(rest@ =~= start.take(n - i - 1));
    }
    let mut out: Vec<irs_commit::Witness> = Vec::new();
    for i in 0..n
        invariant
            n == start.len(),
            reversed@.len() == n - i,
            forall|c: int| 0 <= c < n - i ==> #[trigger] reversed@[c] == start[n - 1 - c].irs,
            out@.len() == i,
            forall|c: int| 0 <= c < i ==> #[trigger] out@[c] == start[c].irs,
    {
        match reversed.pop() {
            Some(w) => {
                out.push(w);
            },
            None => {},
        }
    }
    out
}

/// The vector's size leaves room for its padding.
proof fn lemma_half_sizes(sumcheck: &sumcheck::Config, code: &irs_commit::Config)
    requires
        folds(*sumcheck, *code),
    ensures
        code.vector_size <= usize::MAX / 2 + 1,
{
}

/// A folded vector is no longer than before.
proof fn lemma_folded_smaller(before: nat, after: nat)
    requires
        after == crate::algebra::half_len(before),
    ensures
        after <= before,
{
    crate::sumcheck::lemma_half_len(before);
}

/// Every fold halves a vector whose length is a power of two.
proof fn lemma_folded_len(v: Seq<int>, rs: Seq<int>, m: nat)
    requires
        v.len() == pow2(m),
        rs.len() <= m,
    ensures
        folded_all(v, rs).len() == pow2((m - rs.len()) as nat),
    decreases rs.len(),
{
    if rs.len() > 0 {
        lemma_folded_len(v, rs.drop_last(), m);
        let k = (m - rs.len() + 1) as nat;
        crate::arith::lemma_ceil_log2_pow2(k);
        vstd::arithmetic::power2::lemma_pow2_unfold(k);
        crate::sumcheck::lemma_half_len(pow2(k));
        vstd::arithmetic::power2::lemma_pow2_pos((k - 1) as nat);
    }
}

/// The vector folded by all challenges is a message.
proof fn lemma_folded_size(sumcheck: &sumcheck::Config, code: &irs_commit::Config, v: Seq<int>, rs: Seq<int>)
    requires
        folds(*sumcheck, *code),
        v.len() == code.vector_size,
        rs.len() == sumcheck.num_rounds,
    ensures
        folded_all(v, rs).len() == sumcheck.spec_final_size(),
{
    let m = crate::arith::ceil_log2_spec(code.vector_size as nat);
    let n = sumcheck.num_rounds as nat;
    let (a, d, l) = (code.vector_size as int, code.interleaving_depth as int, code.message_len() as int);
    vstd::arithmetic::power2::lemma_pow2_pos(m);
    vstd::arithmetic::div_mod::lemma_fundamental_div_mod(a, d);
    assert(d <= a) by (nonlinear_arith)
        requires
            a == d * l,
            a > 0,
            d > 0,
    ;
    if m < n {
        vstd::arithmetic::power2::lemma_pow2_strictly_increases(m, n);
    }
    crate::arith::lemma_pow2_sum((m - n) as nat, n);
    let q = pow2((m - n) as nat) as int;
    assert(l == q) by (nonlinear_arith)
        requires
            d * l == q * d,
            d > 0,
    ;
    lemma_folded_len(v, rs, m);
}

} // verus!
