//! The opening keeps its claim: before and after every round the sum is the inner
//! product of the vector and the covector.

use crate::algebra::{dot_spec, dot_terms, eq_table, evaluate, folded_all};
use crate::arith::ceil_log2_spec;
use crate::chunks::{law_combined_evaluates, law_fold_all_is_combination, weighted_chunk_values};
use crate::code_switch::collapsed;
use crate::code_switch_laws::{lemma_accumulated_all_canonical, lemma_weighted_evals_dot};
use crate::field::{
    all_canonical, canonical, lemma_fmul_one, lemma_fpow_canonical, lemma_residue_canonical,
};
use crate::geometric_challenge::{after_base, combination, lemma_combination_base};
use crate::irs_commit;
use crate::irs_commit::{joined_row, lemma_challenges_len, lemma_index_count};
use crate::irs_laws::{lemma_encoded_wf, lemma_joined_rows, lemma_rows_at};
use crate::irs_ood::ood_values;
use crate::matrix_commit::row_of;
use crate::sumcheck;
use crate::sumcheck::DotProductOracle;
use crate::sumcheck_laws::{
    law_sumcheck_masks, law_sumcheck_reduces_dot, lemma_dot_oracle_canonical,
    lemma_evaluate_canonical, mask_values,
};
use crate::sums::{lemma_add_zero, lemma_fsum_canonical, lemma_fsum_eq, lemma_fsum_zero};
use crate::transcript::{challenges, ProverView};
use crate::vector_laws::{law_dot_accumulated, lemma_dot_zeros, lemma_eq_table_len};
use crate::whir::{claim_folded, cross_row, cross_terms, folds, Config, Stage, WitnessView};
use crate::zook::batched::join_laws::{law_theta_dot, theta_dots};
use crate::zook::batched::selector::merge_laws::uniform;
use crate::zook::block::theta_combined;
use crate::zook::combination_laws::{
    all_chunks_combined, law_theta_chunks_commute, law_theta_evaluates, lemma_theta_single,
    theta_values, vectors_wf,
};
use crate::zook::protocol_laws::{covectors_wf, lemma_batched_dot, weighted_dots};
use crate::zook::prove::batched_covector;
use crate::zook::slot_weights::{block_values, law_slot_weights_reduce, slot_table};
use vstd::arithmetic::div_mod::{lemma_fundamental_div_mod, lemma_fundamental_div_mod_converse};
use vstd::arithmetic::power2::pow2;
use vstd::prelude::*;

verus! {

/// The vectors of commitment `w`.
pub open spec fn vectors_of(vectors: Seq<Seq<int>>, per: nat, w: int) -> Seq<Seq<int>> {
    vectors.subrange(w * per, w * per + per)
}

/// Are these commitments to, and samples of, the vectors, without masks?
pub open spec fn witnesses_true(
    code: irs_commit::Config,
    vectors: Seq<Seq<int>>,
    ws: Seq<WitnessView>,
) -> bool {
    let per = code.num_vectors as nat;
    &&& vectors.len() == ws.len() * per
    &&& forall|w: int|
        0 <= w < ws.len() ==> (#[trigger] ws[w]).matrix == code.encoded(
            vectors_of(vectors, per, w),
            Seq::empty(),
        ) && all_canonical(ws[w].ood_points)
    &&& forall|w: int, i: int|
        0 <= w < ws.len() && 0 <= i < ws[w].ood_points.len() ==> #[trigger] row_of(
            ws[w].ood_matrix,
            per,
            i,
        ) == Seq::new(per, |j: int| evaluate(vectors[w * per + j], ws[w].ood_points[i]))
}

/// The values that are gathered are those of all vectors at all points.
proof fn lemma_cross_values(
    code: irs_commit::Config,
    vectors: Seq<Seq<int>>,
    ws: Seq<WitnessView>,
    w: nat,
    i: nat,
    p: ProverView,
)
    requires
        witnesses_true(code, vectors, ws),
        w <= ws.len(),
        w < ws.len() ==> i <= ws[w as int].ood_points.len(),
        w == ws.len() ==> i == 0,
    ensures
        ({
            let (points, matrix, view) = cross_terms(
                vectors,
                ws,
                code.num_vectors as nat,
                w,
                i,
                p,
            );
            &&& matrix == ood_values(vectors, points)
            &&& all_canonical(points)
        }),
    decreases w, i,
{
    let per = code.num_vectors as nat;
    let n = vectors.len();
    let (points, matrix, view) = cross_terms(vectors, ws, per, w, i, p);
    if i > 0 {
        let k = (i - 1) as nat;
        lemma_cross_values(code, vectors, ws, w, k, p);
        let (before, part, mid) = cross_terms(vectors, ws, per, w, k, p);
        let x = ws[w as int].ood_points[k as int];
        let row = row_of(ws[w as int].ood_matrix, per, k as int);
        let added = cross_row(vectors, row, w * per, x);
        assert(all_canonical(ws[w as int].ood_points));
        assert forall|j: int| 0 <= j < n implies added[j] == evaluate(vectors[j], x) by {
            if w * per <= j < w * per + row.len() {
                assert(row == Seq::new(per, |j: int| evaluate(vectors[w * per + j], x)));
            }
        }
        let m = before.len();
        assert((m + 1) * n == m * n + n) by (nonlinear_arith);
        let all = ood_values(vectors, points);
        assert(points.len() == m + 1);
        assert forall|t: int| 0 <= t < all.len() implies matrix[t] == all[t] by {
            if t < m * n {
                lemma_fundamental_div_mod(t, n as int);
                assert(t / (n as int) < m) by (nonlinear_arith)
                    requires
                        t == n as int * (t / (n as int)) + t % (n as int),
                        t % (n as int) >= 0,
                        t < m * n,
                        n > 0,
                ;
                assert(t / (n as int) >= 0) by (nonlinear_arith)
                    requires
                        t >= 0,
                        n > 0,
                ;
                assert(part[t] == ood_values(vectors, before)[t]);
            } else {
                let j = t - m * n;
                lemma_fundamental_div_mod_converse(t, n as int, m as int, j);
                assert(matrix[t] == added[j]);
            }
        }
        assert(matrix =~= all);
    } else if w > 0 {
        lemma_cross_values(code, vectors, ws, (w - 1) as nat, ws[w - 1].ood_points.len(), p);
    } else {
        assert(0 * n == 0) by (nonlinear_arith);
        assert(matrix =~= ood_values(vectors, points));
    }
}

/// The gathered values, combined, are the values of the combined vector.
proof fn lemma_samples_combined(vectors: Seq<Seq<int>>, weights: Seq<int>, len: nat, points: Seq<int>, i: int)
    requires
        vectors_wf(vectors, len),
        weights.len() == vectors.len(),
        all_canonical(weights),
        all_canonical(points),
        0 <= i < points.len(),
    ensures
        collapsed(ood_values(vectors, points), weights, points.len())[i] == evaluate(
            theta_combined(weights, vectors, len),
            points[i],
        ),
{
    broadcast use lemma_evaluate_canonical;

    let n = vectors.len();
    let m = ood_values(vectors, points);
    let row = row_of(m, n, i);
    let c = points.len();
    assert(i * n + n <= c * n) by (nonlinear_arith)
        requires
            i < c,
            n >= 0,
    ;
    assert(i * n >= 0) by (nonlinear_arith)
        requires
            i >= 0,
            n >= 0,
    ;
    let f = dot_terms(weights, row);
    let g = theta_values(weights, vectors, points[i]);
    assert forall|j: int| 0 <= j < n implies #[trigger] f(j) == g(j) by {
        lemma_fundamental_div_mod_converse(i * n + j, n as int, i, j);
        assert(row[j] == m[i * n + j]);
    }
    lemma_fsum_eq(f, g, n);
    assert(canonical(points[i]));
    law_theta_evaluates(weights, vectors, len, points[i]);
}

/// Are the claimed values those of every vector at every form?
pub open spec fn evaluations_true(vectors: Seq<Seq<int>>, covectors: Seq<Seq<int>>, evaluations: Seq<int>) -> bool {
    &&& evaluations.len() == covectors.len() * vectors.len()
    &&& forall|i: int, j: int|
        0 <= i < covectors.len() && 0 <= j < vectors.len() ==> #[trigger] row_of(
            evaluations,
            vectors.len(),
            i,
        )[j] == dot_spec(vectors[j], covectors[i])
}

/// The claimed values, combined, are those of the combined vector.
proof fn lemma_values_combined(
    vectors: Seq<Seq<int>>,
    weights: Seq<int>,
    len: nat,
    covectors: Seq<Seq<int>>,
    evaluations: Seq<int>,
    i: int,
)
    requires
        vectors_wf(vectors, len),
        covectors_wf(covectors, len),
        weights.len() == vectors.len(),
        all_canonical(weights),
        evaluations_true(vectors, covectors, evaluations),
        0 <= i < covectors.len(),
    ensures
        collapsed(evaluations, weights, covectors.len())[i] == dot_spec(
            theta_combined(weights, vectors, len),
            covectors[i],
        ),
{
    let n = vectors.len();
    let f = dot_terms(weights, row_of(evaluations, n, i));
    let g = theta_dots(weights, vectors, covectors[i]);
    assert(all_canonical(covectors[i]) && covectors[i].len() == len);
    assert(uniform(vectors, len));
    assert forall|j: int| 0 <= j < n implies #[trigger] f(j) == g(j) by {
        assert(row_of(evaluations, n, i)[j] == dot_spec(vectors[j], covectors[i]));
    }
    lemma_fsum_eq(f, g, n);
    law_theta_dot(weights, vectors, len, covectors[i]);
}

/// A combination's coefficients are canonical.
proof fn lemma_combination_canonical(st: Seq<u8>, count: nat)
    ensures
        all_canonical(combination(st, count)),
        combination(st, count).len() == count,
{
    broadcast use {lemma_fpow_canonical, lemma_residue_canonical};

    lemma_combination_base(st, count);
}

/// A combination of canonical vectors is canonical.
proof fn lemma_combined_canonical(weights: Seq<int>, vectors: Seq<Seq<int>>, len: nat)
    ensures
        all_canonical(theta_combined(weights, vectors, len)),
        theta_combined(weights, vectors, len).len() == len,
{
    broadcast use lemma_fsum_canonical;

}

/// The first claim holds.
pub proof fn lemma_first_claim(
    cfg: &Config,
    vectors: Seq<Seq<int>>,
    ws: Seq<WitnessView>,
    covectors: Seq<Seq<int>>,
    evaluations: Seq<int>,
    p: ProverView,
)
    requires
        opening_true(cfg, vectors, ws, covectors, evaluations),
    ensures
        ({
            let (s, rlc) = cfg.first_claim(vectors, ws, covectors, evaluations, p);
            let count = covectors.len() + cfg.gathered(vectors, ws, p).0.len();
            &&& all_canonical(s.weights)
            &&& s.weights.len() == vectors.len()
            &&& all_canonical(s.vector)
            &&& s.vector.len() == cfg.initial_committer.vector_size
            &&& all_canonical(s.covector)
            &&& count > 0 ==> s.covector.len() == s.vector.len() && s.sum == dot_spec(
                s.vector,
                s.covector,
            )
            &&& count == 0 ==> s.sum == 0
        }),
{
    broadcast use {lemma_residue_canonical, lemma_fsum_canonical};

    let code = cfg.initial_committer;
    let size = code.vector_size as nat;
    let n = vectors.len();
    let (points, matrix, sent) = cfg.gathered(vectors, ws, p);
    let (s, forms_rlc) = cfg.first_claim(vectors, ws, covectors, evaluations, p);
    lemma_cross_values(code, vectors, ws, ws.len(), 0, p);
    lemma_combination_canonical(sent.sponge, n);
    let drawn = after_base(sent.sponge, n);
    let count = covectors.len() + points.len();
    lemma_combination_canonical(drawn, count);
    let rlc = combination(drawn, count);
    let oods_rlc = rlc.subrange(covectors.len() as int, count as int);
    assert(all_canonical(forms_rlc)) by {
        assert forall|i: int| 0 <= i < forms_rlc.len() implies canonical(#[trigger] forms_rlc[i]) by {
            assert(canonical(rlc[i]));
        }
    }
    assert(all_canonical(oods_rlc)) by {
        assert forall|i: int| 0 <= i < oods_rlc.len() implies canonical(#[trigger] oods_rlc[i]) by {
            assert(canonical(rlc[covectors.len() + i]));
        }
    }
    let weights = s.weights;
    lemma_combined_canonical(weights, vectors, size);
    let h = s.vector;
    let own = collapsed(evaluations, weights, covectors.len());
    let other = collapsed(matrix, weights, points.len());
    assert(forms_rlc.len() == covectors.len());
    assert(oods_rlc.len() == points.len());
    if count > 0 {
        let base = batched_covector(covectors, forms_rlc, size, covectors.len());
        lemma_batched_dot(covectors, forms_rlc, size, h, covectors.len());
        law_dot_accumulated(h, base, oods_rlc, points);
        lemma_accumulated_all_canonical(base, oods_rlc, points, base.len());
        // The forms' part.
        let f = weighted_dots(covectors, forms_rlc, h);
        let g = dot_terms(forms_rlc, own);
        assert forall|i: int| 0 <= i < covectors.len() implies #[trigger] f(i) == g(i) by {
            lemma_values_combined(vectors, weights, size, covectors, evaluations, i);
        }
        lemma_fsum_eq(f, g, covectors.len());
        // The samples' part.
        assert forall|i: int| 0 <= i < points.len() implies #[trigger] other[i] == evaluate(
            h,
            points[i],
        ) by {
            lemma_samples_combined(vectors, weights, size, points, i);
        }
        lemma_weighted_evals_dot(h, oods_rlc, points, other);
    } else {
        assert(s.covector.len() == 0);
        lemma_add_zero(0);
    }
}

/// Is this an opening of committed vectors without masks at their true values?
pub open spec fn opening_true(
    cfg: &Config,
    vectors: Seq<Seq<int>>,
    ws: Seq<WitnessView>,
    covectors: Seq<Seq<int>>,
    evaluations: Seq<int>,
) -> bool {
    &&& cfg.wf()
    &&& cfg.initial_committer.mode.mask_len() == 0
    &&& forall|k: int|
        0 <= k < cfg.round_configs@.len() ==> (
        #[trigger] cfg.round_configs@[k]).irs_committer.mode.mask_len() == 0
    &&& vectors_wf(vectors, cfg.initial_committer.vector_size as nat)
    &&& covectors_wf(covectors, cfg.initial_committer.vector_size as nat)
    &&& witnesses_true(cfg.initial_committer, vectors, ws)
    &&& evaluations_true(vectors, covectors, evaluations)
}

/// A claim that holds is folded to one that holds.
proof fn lemma_claim_folded(cfg: sumcheck::Config, vector: Seq<int>, covector: Seq<int>, p: ProverView)
    requires
        cfg.wf(),
        cfg.degree == 2,
        cfg.mode is Standard,
        vector.len() == cfg.initial_size,
        covector.len() == cfg.initial_size,
        all_canonical(vector),
        all_canonical(covector),
    ensures
        ({
            let (v, c, sum, points, view) = claim_folded(
                cfg,
                vector,
                covector,
                dot_spec(vector, covector),
                p,
            );
            &&& sum == dot_spec(v, c)
            &&& all_canonical(v)
            &&& all_canonical(c)
            &&& all_canonical(points)
            &&& points.len() == cfg.num_rounds
            &&& v == folded_all(vector, points)
            &&& v.len() == cfg.spec_final_size()
            &&& c.len() == cfg.spec_final_size()
        }),
{
    broadcast use {lemma_residue_canonical, lemma_fsum_canonical};

    let sum = dot_spec(vector, covector);
    let none = Seq::<int>::empty();
    let tables = seq![vector, covector];
    law_sumcheck_reduces_dot(&cfg, vector, covector, none, p);
    assert(cfg.num_rounds * 0 == 0) by (nonlinear_arith);
    lemma_dot_oracle_canonical();
    law_sumcheck_masks::<DotProductOracle>(&cfg, tables, sum, none, p);
    let (end, rlc) = cfg.proved::<DotProductOracle>(tables, sum, none, p);
    let f = mask_values(none, 0, end.points);
    assert forall|j: int| 0 <= j < cfg.num_rounds implies #[trigger] f(j) == 0 by {
        assert(j as nat * 0 == 0) by (nonlinear_arith);
    }
    lemma_fsum_zero(f, cfg.num_rounds as nat);
    lemma_fmul_one(end.sum);
    lemma_add_zero(end.sum);
}

/// Does the claim of a stage hold, and is its vector the folded combination of the
/// vectors behind the last commitments?
pub open spec fn stage_true(cfg: &Config, k: nat, s: Stage, vectors: Seq<Seq<int>>) -> bool {
    let code = cfg.code_before(k);
    &&& s.committer == code
    &&& s.sum == dot_spec(s.vector, s.covector)
    &&& all_canonical(s.vector)
    &&& all_canonical(s.covector)
    &&& s.vector.len() == cfg.size_after(k)
    &&& s.covector.len() == cfg.size_after(k)
    &&& all_canonical(s.folding)
    &&& pow2(s.folding.len()) == code.interleaving_depth
    &&& all_canonical(s.weights)
    &&& s.weights.len() == vectors.len()
    &&& vectors_wf(vectors, code.vector_size as nat)
    &&& s.vector == folded_all(
        theta_combined(s.weights, vectors, code.vector_size as nat),
        s.folding,
    )
    &&& vectors.len() == s.matrices.len() * code.num_vectors
    &&& forall|w: int|
        0 <= w < s.matrices.len() ==> #[trigger] s.matrices[w] == code.encoded(
            vectors_of(vectors, code.num_vectors as nat, w),
            Seq::empty(),
        )
}

/// The values of a vector's messages at a point.
pub open spec fn chunk_values(vector: Seq<int>, ml: nat, depth: nat, x: int) -> Seq<int> {
    Seq::new(depth, |c: int| evaluate(row_of(vector, ml, c), x))
}

/// The rows of single vectors, put together, are a prefix of the commitment's row.
proof fn lemma_virtual_rows(vs: Seq<Seq<int>>, depth: nat, base: nat, row: Seq<int>, q: nat)
    requires
        base + q <= vs.len(),
        q * depth <= row.len(),
        forall|c: int| 0 <= c < q ==> (#[trigger] vs[base + c]).len() == depth,
        forall|c: int, t: int|
            0 <= c < q && 0 <= t < depth ==> #[trigger] vs[base + c][t] == row[c * depth + t],
    ensures
        joined_row(vs, depth, 0, base + q) == joined_row(vs, depth, 0, base) + row.take(
            (q * depth) as int,
        ),
    decreases q,
{
    if q == 0 {
        assert(0 * depth == 0) by (nonlinear_arith);
        assert(row.take(0) =~= Seq::<int>::empty());
        assert(joined_row(vs, depth, 0, base) + row.take(0) =~= joined_row(vs, depth, 0, base));
    } else {
        let m = (q - 1) as nat;
        assert(q * depth == m * depth + depth) by (nonlinear_arith)
            requires
                q == m + 1,
        ;
        lemma_virtual_rows(vs, depth, base, row, m);
        let v = vs[(base + m) as int];
        assert(v.len() == depth);
        assert(0 * depth == 0) by (nonlinear_arith);
        assert(row_of(v, depth, 0) =~= v);
        let part = row.take((q * depth) as int);
        assert(row.take((m * depth) as int) + v =~= part) by {
            assert forall|t: int| 0 <= t < depth implies v[t] == part[(m * depth) + t] by {
                assert(vs[base + (m as int)][t] == row[(m as int) * depth + t]);
            }
        }
        assert(joined_row(vs, depth, 0, base) + row.take((m * depth) as int) + v =~= joined_row(
            vs,
            depth,
            0,
            base,
        ) + part);
    }
}

/// An entry of a commitment's row without masks is the value of one message of one
/// vector.
proof fn lemma_row_entry(code: &irs_commit::Config, vectors: Seq<Seq<int>>, i: int, c: int, t: int)
    requires
        code.wf(),
        code.mode.mask_len() == 0,
        vectors.len() == code.num_vectors,
        0 <= i < code.codeword_length,
        0 <= c < code.num_vectors,
        0 <= t < code.interleaving_depth,
    ensures
        ({
            let depth = code.interleaving_depth as int;
            &&& 0 <= c * depth + t < code.cols()
            &&& row_of(code.encoded(vectors, Seq::empty()), code.cols(), i)[c * depth + t] == evaluate(
                row_of(vectors[c], code.message_len(), t),
                code.point(i as nat),
            )
        }),
{
    let depth = code.interleaving_depth as int;
    let cols = code.cols() as int;
    let j = c * depth + t;
    let per = code.num_vectors as int;
    assert(0 <= j < cols) by (nonlinear_arith)
        requires
            j == c * depth + t,
            0 <= c < per,
            0 <= t < depth,
            cols == depth * per,
    ;
    let n = code.codeword_length as int;
    assert(i * cols + cols <= n * cols) by (nonlinear_arith)
        requires
            i < n,
            cols >= 0,
    ;
    assert(i * cols >= 0) by (nonlinear_arith)
        requires
            i >= 0,
            cols >= 0,
    ;
    lemma_fundamental_div_mod_converse(i * cols + j, cols, i, j);
    lemma_fundamental_div_mod_converse(j, depth, c, t);
    let column = code.column(vectors, Seq::empty(), j);
    assert(j * 0 == 0) by (nonlinear_arith);
    assert(column =~= row_of(vectors[c], code.message_len(), t));
}

/// The rows of all commitments at one index are the values of all vectors' messages.
proof fn lemma_all_rows(
    code: &irs_commit::Config,
    vectors: Seq<Seq<int>>,
    subs: Seq<Seq<int>>,
    matrices: Seq<Seq<int>>,
    i: int,
    at: int,
    k: nat,
)
    requires
        code.wf(),
        code.mode.mask_len() == 0,
        vectors.len() == matrices.len() * code.num_vectors,
        subs.len() == matrices.len(),
        0 <= at < code.codeword_length,
        k <= subs.len(),
        forall|w: int|
            0 <= w < matrices.len() ==> #[trigger] matrices[w] == code.encoded(
                vectors_of(vectors, code.num_vectors as nat, w),
                Seq::empty(),
            ),
        forall|w: int|
            0 <= w < subs.len() ==> row_of(#[trigger] subs[w], code.cols(), i) == row_of(
                matrices[w],
                code.cols(),
                at,
            ),
    ensures
        ({
            let depth = code.interleaving_depth as nat;
            let vs = Seq::new(
                vectors.len(),
                |g: int|
                    chunk_values(vectors[g], code.message_len(), depth, code.point(at as nat)),
            );
            joined_row(subs, code.cols(), i, k) == joined_row(
                vs,
                depth,
                0,
                (k * code.num_vectors) as nat,
            )
        }),
    decreases k,
{
    let depth = code.interleaving_depth as nat;
    let per = code.num_vectors as nat;
    let x = code.point(at as nat);
    let vs = Seq::new(
        vectors.len(),
        |g: int| chunk_values(vectors[g], code.message_len(), depth, x),
    );
    if k == 0 {
        assert(0 * per == 0) by (nonlinear_arith);
    } else {
        let m = (k - 1) as nat;
        lemma_all_rows(code, vectors, subs, matrices, i, at, m);
        let own = vectors_of(vectors, per, m as int);
        let total = subs.len();
        assert(m * per + per <= total * per) by (nonlinear_arith)
            requires
                m < total,
        ;
        assert(k * per == m * per + per) by (nonlinear_arith)
            requires
                k == m + 1,
        ;
        assert(m * per >= 0) by (nonlinear_arith);
        let row = row_of(subs[m as int], code.cols(), i);
        assert(matrices[m as int] == code.encoded(own, Seq::empty()));
        lemma_encoded_wf(code, own, Seq::empty());
        let n = code.codeword_length as int;
        let cols = code.cols() as int;
        assert(at * cols + cols <= n * cols) by (nonlinear_arith)
            requires
                at < n,
                cols >= 0,
        ;
        assert(at * cols >= 0) by (nonlinear_arith)
            requires
                at >= 0,
                cols >= 0,
        ;
        assert(row.len() == cols);
        assert(per * depth == cols) by (nonlinear_arith)
            requires
                cols == depth as int * per as int,
        ;
        let base = (m * per) as nat;
        assert forall|c: int, t: int| 0 <= c < per && 0 <= t < depth implies #[trigger] vs[base + c][t]
            == row[c * depth + t] by {
            assert(own[c] == vectors[base + c]);
            lemma_row_entry(code, own, at, c, t);
        }
        lemma_virtual_rows(vs, depth, base, row, per);
        assert(row.take(cols) =~= row);
    }
}

/// The opened rows of a true stage, combined, are the values of its vector.
pub proof fn lemma_opened_values(
    cfg: &Config,
    k: nat,
    s: Stage,
    vectors: Seq<Seq<int>>,
    a: ProverView,
    i: int,
)
    requires
        cfg.wf(),
        k <= cfg.round_configs@.len(),
        cfg.code_before(k).mode.mask_len() == 0,
        stage_true(cfg, k, s, vectors),
        0 <= i < s.committer.indices(a.sponge).0.len(),
    ensures
        ({
            let (points, matrix, view) = s.committer.opened(a, s.matrices);
            collapsed(matrix, slot_table(s.weights, eq_table(s.folding)), points.len())[i]
                == evaluate(s.vector, points[i])
        }),
{
    broadcast use {lemma_residue_canonical, lemma_fsum_canonical, lemma_evaluate_canonical, lemma_fpow_canonical};

    let code = s.committer;
    let sum = if k == 0 {
        cfg.initial_sumcheck
    } else {
        cfg.round_configs@[k - 1].sumcheck
    };
    if k > 0 {
        assert(cfg.round_configs@[k - 1].wf());
    }
    assert(folds(sum, code));
    let eq = eq_table(s.folding);
    lemma_eq_table_len(s.folding);
    let depth = eq.len();
    let ml = code.message_len();
    let (points, matrix, view) = code.opened(a, s.matrices);
    let (indices, sponge) = code.indices(a.sponge);
    lemma_index_count(&code, a.sponge);
    let n = indices.len();
    let cols = code.cols();
    let subs = code.all_rows_at(s.matrices, indices);
    let at = indices[i] as int;
    let x = code.point(at as nat);
    assert(points[i] == x);
    assert forall|w: int| 0 <= w < subs.len() implies (#[trigger] subs[w]).len() == n * cols && row_of(
        subs[w],
        cols,
        i,
    ) == row_of(s.matrices[w], cols, at) by {
        let own = vectors_of(vectors, code.num_vectors as nat, w);
        assert(s.matrices[w] == code.encoded(own, Seq::empty()));
        lemma_encoded_wf(&code, own, Seq::empty());
        lemma_rows_at(s.matrices[w], code.codeword_length as nat, cols, indices, n);
        assert(row_of(subs[w], cols, i) == row_of(s.matrices[w], cols, indices[i] as int));
    }
    lemma_joined_rows(subs, cols, n, i);
    lemma_all_rows(&code, vectors, subs, s.matrices, i, at, subs.len());
    let g = vectors.len();
    let vs = Seq::new(g, |b: int| chunk_values(vectors[b], ml, depth, x));
    assert(0 * depth == 0) by (nonlinear_arith);
    law_slot_weights_reduce(s.weights, eq, vs, 0, g);
    assert(s.weights.take(g as int) =~= s.weights);
    // Every vector's messages, combined, are its folded value.
    lemma_fundamental_div_mod(code.vector_size as int, depth as int);
    assert(code.vector_size == ml * depth) by (nonlinear_arith)
        requires
            code.vector_size as int == depth as int * ml as int,
    ;
    let chunks = all_chunks_combined(vectors, ml, eq);
    let f = block_values(s.weights, eq, vs, 0);
    let h = theta_values(s.weights, chunks, x);
    assert(vectors_wf(chunks, ml)) by {
        assert forall|b: int| 0 <= b < chunks.len() implies all_canonical(#[trigger] chunks[b])
            && chunks[b].len() == ml by {}
    }
    assert forall|b: int| 0 <= b < g implies #[trigger] f(b) == h(b) by {
        assert(all_canonical(vectors[b]) && vectors[b].len() == ml * depth);
        law_combined_evaluates(vectors[b], ml, eq, x);
        assert(row_of(vs[b], depth, 0) =~= vs[b]);
        let u = dot_terms(eq, vs[b]);
        let v = weighted_chunk_values(vectors[b], ml, eq, x);
        assert forall|c: int| 0 <= c < depth implies #[trigger] u(c) == v(c) by {}
        lemma_fsum_eq(u, v, depth);
    }
    lemma_fsum_eq(f, h, g);
    law_theta_evaluates(s.weights, chunks, ml, x);
    assert(vectors_wf(vectors, ml * depth));
    law_theta_chunks_commute(s.weights, vectors, ml, eq);
    // The folded combination.
    let whole = theta_combined(s.weights, vectors, code.vector_size as nat);
    lemma_combined_canonical(s.weights, vectors, code.vector_size as nat);
    lemma_message_len_pow2(&sum, &code);
    assert(pow2(s.folding.len()) * pow2(ceil_log2_spec(ml)) == code.vector_size) by (nonlinear_arith)
        requires
            pow2(s.folding.len()) == depth,
            pow2(ceil_log2_spec(ml)) == ml,
            code.vector_size == ml * depth,
    ;
    law_fold_all_is_combination(whole, s.folding, ceil_log2_spec(ml));
    // The weights fill the rows.
    let per = code.num_vectors as int;
    let mats = s.matrices.len() as int;
    assert(g * depth == mats * cols) by (nonlinear_arith)
        requires
            g == mats * per,
            cols == depth as int * per,
    ;
}

/// The messages' length is a power of two.
proof fn lemma_message_len_pow2(sumcheck: &sumcheck::Config, code: &irs_commit::Config)
    requires
        folds(*sumcheck, *code),
    ensures
        pow2(ceil_log2_spec(code.message_len())) == code.message_len(),
{
    let m = ceil_log2_spec(code.vector_size as nat);
    let n = sumcheck.num_rounds as nat;
    let (a, d, l) = (code.vector_size as int, code.interleaving_depth as int, code.message_len() as int);
    vstd::arithmetic::power2::lemma_pow2_pos(m);
    lemma_fundamental_div_mod(a, d);
    assert(d <= a) by (nonlinear_arith)
        requires
            a == d * l,
            a > 0,
            d > 0,
    ;
    if m < n {
        vstd::arithmetic::power2::lemma_pow2_strictly_increases(m, n);
    }
    crate::arith::lemma_pow2_sum((m - n) as nat, n);
    let q = pow2((m - n) as nat) as int;
    assert(l == q) by (nonlinear_arith)
        requires
            d * l == q * d,
            d > 0,
    ;
    crate::arith::lemma_ceil_log2_pow2((m - n) as nat);
}

/// Taking a round's samples into the claim keeps it.
pub proof fn lemma_sampled_claim(cfg: &Config, k: nat, s: Stage, vectors: Seq<Seq<int>>)
    requires
        cfg.wf(),
        k < cfg.round_configs@.len(),
        cfg.code_before(k).mode.mask_len() == 0,
        stage_true(cfg, k, s, vectors),
    ensures
        ({
            let t = cfg.sampled(k as int, s);
            &&& t.vector == s.vector
            &&& t.sum == dot_spec(t.vector, t.covector)
            &&& all_canonical(t.covector)
            &&& t.covector.len() == s.covector.len()
        }),
{
    broadcast use {lemma_residue_canonical, lemma_fsum_canonical, lemma_fpow_canonical};

    let round = cfg.round_configs@[k as int];
    assert(round.wf());
    let t = cfg.sampled(k as int, s);
    let (ood, committed) = round.irs_committer.committed_with_ood(
        seq![s.vector],
        round.out_domain_samples as nat,
        s.view,
    );
    lemma_challenges_len(
        round.irs_committer.committed(seq![s.vector], s.view).sponge,
        round.out_domain_samples as nat,
    );
    let worked = round.pow.proved(committed);
    let (inn, matrix, opened) = s.committer.opened(worked, s.matrices);
    assert(all_canonical(inn)) by {
        assert forall|i: int| 0 <= i < inn.len() implies canonical(#[trigger] inn[i]) by {}
    }
    let xs = ood + inn;
    let weights = slot_table(s.weights, eq_table(s.folding));
    let first = ood_values(seq![s.vector], ood);
    let second = collapsed(matrix, weights, inn.len());
    let values = first + second;
    let rlc = combination(opened.sponge, xs.len());
    lemma_combination_canonical(opened.sponge, xs.len());
    let c = ood.len() as int;
    assert(c * 1 == c) by (nonlinear_arith);
    assert forall|i: int| 0 <= i < xs.len() implies #[trigger] values[i] == evaluate(
        s.vector,
        xs[i],
    ) by {
        if i < c {
            lemma_fundamental_div_mod_converse(i, 1, i, 0);
            assert(first[i] == evaluate(seq![s.vector][0], ood[i]));
        } else {
            lemma_opened_values(cfg, k, s, vectors, worked, i - c);
        }
    }
    assert(all_canonical(xs));
    law_dot_accumulated(s.vector, s.covector, rlc, xs);
    lemma_accumulated_all_canonical(s.covector, rlc, xs, s.covector.len());
    lemma_weighted_evals_dot(s.vector, rlc, xs, values);
}

/// A round keeps the claim.
proof fn lemma_round_true(cfg: &Config, k: nat, s: Stage, vectors: Seq<Seq<int>>)
    requires
        cfg.wf(),
        k < cfg.round_configs@.len(),
        cfg.code_before(k).mode.mask_len() == 0,
        cfg.round_configs@[k as int].irs_committer.mode.mask_len() == 0,
        stage_true(cfg, k, s, vectors),
    ensures
        stage_true(cfg, k + 1, cfg.rounded(k as int, s), seq![s.vector]),
{
    let round = cfg.round_configs@[k as int];
    assert(round.wf());
    assert(round.irs_committer.vector_size == cfg.size_after(k));
    let t = cfg.sampled(k as int, s);
    lemma_sampled_claim(cfg, k, s, vectors);
    lemma_claim_folded(round.sumcheck, t.vector, t.covector, t.view);
    let next = cfg.rounded(k as int, s);
    lemma_theta_single(s.vector);
    // The new commitment is to the vector.
    let code = round.irs_committer;
    assert(code.masks_of(s.view) =~= Seq::<int>::empty()) by {
        assert(0 * code.cols() == 0) by (nonlinear_arith);
        lemma_challenges_len(s.view.coins, 0);
    }
    assert(next.matrices =~= seq![code.encoded(seq![s.vector], Seq::empty())]);
    assert(vectors_of(seq![s.vector], 1, 0) =~= seq![s.vector]) by {
        assert(0 * 1 == 0);
    }
}

/// The claim before the first round holds.
proof fn lemma_started_true(
    cfg: &Config,
    vectors: Seq<Seq<int>>,
    ws: Seq<WitnessView>,
    covectors: Seq<Seq<int>>,
    evaluations: Seq<int>,
    p: ProverView,
)
    requires
        opening_true(cfg, vectors, ws, covectors, evaluations),
    ensures
        stage_true(cfg, 0, cfg.started(vectors, ws, covectors, evaluations, p).0, vectors),
{
    broadcast use {lemma_residue_canonical, lemma_fsum_canonical};

    let (s, rlc) = cfg.first_claim(vectors, ws, covectors, evaluations, p);
    let count = covectors.len() + cfg.gathered(vectors, ws, p).0.len();
    lemma_first_claim(cfg, vectors, ws, covectors, evaluations, p);
    let sc = cfg.initial_sumcheck;
    let code = cfg.initial_committer;
    let t = cfg.first_folded(s, count);
    assert forall|w: int| 0 <= w < t.matrices.len() implies #[trigger] t.matrices[w] == code.encoded(
        vectors_of(vectors, code.num_vectors as nat, w),
        Seq::empty(),
    ) by {
        assert(ws[w].matrix == code.encoded(
            vectors_of(vectors, code.num_vectors as nat, w),
            Seq::empty(),
        ));
    }
    if count > 0 {
        lemma_claim_folded(sc, s.vector, s.covector, s.view);
    } else {
        let n = sc.num_rounds as nat;
        lemma_challenges_len(s.view.sponge, n);
        let points = challenges(s.view.sponge, n);
        lemma_message_len_pow2(&sc, &code);
        let ml = code.message_len();
        lemma_fundamental_div_mod(code.vector_size as int, code.interleaving_depth as int);
        assert(pow2(n) * pow2(ceil_log2_spec(ml)) == code.vector_size) by (nonlinear_arith)
            requires
                pow2(n) == code.interleaving_depth,
                pow2(ceil_log2_spec(ml)) == ml,
                code.vector_size as int == code.interleaving_depth as int * ml as int,
        ;
        law_fold_all_is_combination(s.vector, points, ceil_log2_spec(ml));
        lemma_eq_table_len(points);
        assert(all_canonical(t.vector));
        lemma_dot_zeros(t.vector, sc.spec_final_size());
        assert forall|i: int| 0 <= i < t.covector.len() implies canonical(#[trigger] t.covector[i]) by {}
    }
}

/// The opening keeps its claim: when the values are those of the committed vectors, the
/// sum is the inner product of the vector and the covector before the first round, and
/// after every round.
pub proof fn law_whir_keeps_claim(
    cfg: &Config,
    vectors: Seq<Seq<int>>,
    ws: Seq<WitnessView>,
    covectors: Seq<Seq<int>>,
    evaluations: Seq<int>,
    p: ProverView,
    k: nat,
)
    requires
        opening_true(cfg, vectors, ws, covectors, evaluations),
        k <= cfg.round_configs@.len(),
    ensures
        ({
            let s = cfg.rounds_run(cfg.started(vectors, ws, covectors, evaluations, p).0, k);
            s.sum == dot_spec(s.vector, s.covector)
        }),
{
    let start = cfg.started(vectors, ws, covectors, evaluations, p).0;
    lemma_started_true(cfg, vectors, ws, covectors, evaluations, p);
    let last = lemma_rounds_true(cfg, start, vectors, k);
}

/// The opening ends with a claim that holds.
pub proof fn law_whir_final_claim(
    cfg: &Config,
    vectors: Seq<Seq<int>>,
    ws: Seq<WitnessView>,
    covectors: Seq<Seq<int>>,
    evaluations: Seq<int>,
    p: ProverView,
)
    requires
        opening_true(cfg, vectors, ws, covectors, evaluations),
    ensures
        ({
            let s = cfg.rounds_run(
                cfg.started(vectors, ws, covectors, evaluations, p).0,
                cfg.round_configs@.len(),
            );
            let end = cfg.finished(s);
            end.sum == dot_spec(end.vector, end.covector)
        }),
{
    let start = cfg.started(vectors, ws, covectors, evaluations, p).0;
    let n = cfg.round_configs@.len();
    lemma_started_true(cfg, vectors, ws, covectors, evaluations, p);
    let last = lemma_rounds_true(cfg, start, vectors, n);
    let s = cfg.rounds_run(start, n);
    let worked = cfg.final_pow.proved(s.view.send_fields(s.vector));
    let opened = s.committer.opened(worked, s.matrices).2;
    lemma_claim_folded(cfg.final_sumcheck, s.vector, s.covector, opened);
}

proof fn lemma_rounds_true(cfg: &Config, start: Stage, vectors: Seq<Seq<int>>, k: nat) -> (last: Seq<Seq<int>>)
    requires
        cfg.wf(),
        cfg.initial_committer.mode.mask_len() == 0,
        forall|i: int|
            0 <= i < cfg.round_configs@.len() ==> (
            #[trigger] cfg.round_configs@[i]).irs_committer.mode.mask_len() == 0,
        k <= cfg.round_configs@.len(),
        stage_true(cfg, 0, start, vectors),
    ensures
        stage_true(cfg, k, cfg.rounds_run(start, k), last),
    decreases k,
{
    if k == 0 {
        vectors
    } else {
        let m = (k - 1) as nat;
        let before = lemma_rounds_true(cfg, start, vectors, m);
        let s = cfg.rounds_run(start, m);
        assert(cfg.round_configs@[m as int].irs_committer.mode.mask_len() == 0);
        if m > 0 {
            assert(cfg.round_configs@[m - 1].irs_committer.mode.mask_len() == 0);
        }
        lemma_round_true(cfg, m, s, before);
        seq![s.vector]
    }
}

} // verus!
