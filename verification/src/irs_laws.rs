//! Laws of interleaved Reed-Solomon commitments.

use crate::algebra::{dot_spec, dot_terms, evaluate};
use crate::chunks::{
    chunks_combined, law_combined_evaluates, law_evaluate_concat, weighted_chunk_values,
};
use crate::field::{
    all_canonical, canonical, fadd, fmul, fpow, lemma_fmul_assoc, lemma_fmul_comm,
    lemma_fpow_canonical, lemma_residue_canonical,
};
use crate::irs_commit::{joined, joined_row, lemma_index_count, rows_at, Config};
use crate::matrix_commit::{law_open_verifies, lemma_paths_follow, root_of, row_of, Digest};
use crate::sums::{lemma_distribute, lemma_fsum_add, lemma_fsum_canonical, lemma_fsum_scale};
use crate::sumcheck_laws::lemma_evaluate_canonical;
use crate::transcript::{ProverView, VerifierView};
use crate::transcript_laws::{
    follows, law_read_fields, law_read_words, lemma_follows_draw, lemma_follows_refl,
    lemma_follows_send_all, lemma_follows_send_fields, lemma_follows_trans, pending,
};
use vstd::arithmetic::div_mod::lemma_fundamental_div_mod_converse;
use vstd::prelude::*;

verus! {

/// Do two configurations encode alike? They may differ in how they are opened.
pub open spec fn same_shape(a: &Config, b: &Config) -> bool {
    &&& a.vector_size == b.vector_size
    &&& a.interleaving_depth == b.interleaving_depth
    &&& a.num_vectors == b.num_vectors
    &&& a.codeword_length == b.codeword_length
    &&& a.mode.mask_len() == b.mode.mask_len()
}

/// Configurations of one shape have the same sizes and give the same codewords.
pub proof fn law_same_shape(a: &Config, b: &Config)
    requires
        same_shape(a, b),
    ensures
        a.wf() == b.wf(),
        a.matrix_config() == b.matrix_config(),
        a.num_mask_coefficients() == b.num_mask_coefficients(),
        forall|vectors: Seq<Seq<int>>, masks: Seq<int>|
            #![trigger a.encoded(vectors, masks)]
            #![trigger b.encoded(vectors, masks)]
            a.encoded(vectors, masks) == b.encoded(vectors, masks),
{
    assert forall|vectors: Seq<Seq<int>>, masks: Seq<int>|
        #![trigger a.encoded(vectors, masks)]
        #![trigger b.encoded(vectors, masks)]
        a.encoded(vectors, masks) == b.encoded(vectors, masks) by {
        assert forall|j: int| a.column(vectors, masks, j) == b.column(vectors, masks, j) by {}
        assert forall|i: nat| a.point(i) == b.point(i) by {}
        assert(a.encoded(vectors, masks) =~= b.encoded(vectors, masks));
    }
}

/// The rows that were picked out.
pub proof fn lemma_rows_at(matrix: Seq<int>, rows: nat, cols: nat, indices: Seq<usize>, n: nat)
    requires
        matrix.len() == rows * cols,
        all_canonical(matrix),
        n <= indices.len(),
        forall|i: int| 0 <= i < indices.len() ==> #[trigger] indices[i] < rows,
    ensures
        rows_at(matrix, cols, indices, n).len() == n * cols,
        all_canonical(rows_at(matrix, cols, indices, n)),
        forall|i: int|
            0 <= i < n ==> row_of(rows_at(matrix, cols, indices, n), cols, i) == row_of(
                matrix,
                cols,
                #[trigger] indices[i] as int,
            ),
    decreases n,
{
    let r = rows_at(matrix, cols, indices, n);
    if n > 0 {
        let m = (n - 1) as nat;
        lemma_rows_at(matrix, rows, cols, indices, m);
        let before = rows_at(matrix, cols, indices, m);
        let at = indices[m as int] as int;
        let (a, b, c) = (at, rows as int, cols as int);
        assert(a * c + c <= b * c) by (nonlinear_arith)
            requires
                a < b,
                c >= 0,
        ;
        assert(a * c >= 0) by (nonlinear_arith)
            requires
                a >= 0,
                c >= 0,
        ;
        let row = row_of(matrix, cols, at);
        assert(row.len() == cols);
        assert(n * cols == m * cols + cols) by (nonlinear_arith)
            requires
                n == m + 1,
        ;
        assert forall|i: int| 0 <= i < r.len() implies canonical(#[trigger] r[i]) by {
            if i >= before.len() {
                assert(canonical(matrix[at * cols + (i - before.len())]));
            } else {
                assert(canonical(before[i]));
            }
        }
        assert forall|i: int| 0 <= i < n implies row_of(r, cols, i) == row_of(
            matrix,
            cols,
            #[trigger] indices[i] as int,
        ) by {
            assert(i * c >= 0) by (nonlinear_arith)
                requires
                    i >= 0,
                    c >= 0,
            ;
            if i < m {
                let mm = m as int;
                assert(i * c + c <= mm * c) by (nonlinear_arith)
                    requires
                        i < mm,
                        c >= 0,
                ;
                assert(row_of(r, cols, i) =~= row_of(before, cols, i));
            } else {
                assert(row_of(r, cols, i) =~= row);
            }
        }
    } else {
        assert(0 * cols == 0) by (nonlinear_arith);
    }
}

/// The roots of committed matrices.
pub open spec fn matrix_roots(cfg: &Config, matrices: Seq<Seq<int>>) -> Seq<Digest> {
    Seq::new(matrices.len(), |b: int| root_of(cfg.matrix_config().leaves(matrices[b])))
}

/// Are these matrices of the commitment's size, with canonical entries?
pub open spec fn matrices_wf(cfg: &Config, matrices: Seq<Seq<int>>) -> bool {
    forall|b: int|
        0 <= b < matrices.len() ==> all_canonical(#[trigger] matrices[b]) && matrices[b].len()
            == cfg.codeword_length * cfg.cols()
}

/// The prover goes on while it sends rows.
pub proof fn lemma_rows_sent_follow(
    cfg: &Config,
    p: ProverView,
    matrices: Seq<Seq<int>>,
    indices: Seq<usize>,
    j: nat,
    k: nat,
)
    requires
        j <= k,
    ensures
        follows(cfg.rows_sent(p, matrices, indices, j), cfg.rows_sent(p, matrices, indices, k)),
    decreases k,
{
    let here = cfg.rows_sent(p, matrices, indices, j);
    if j == k {
        lemma_follows_refl(here);
    } else {
        let before = cfg.rows_sent(p, matrices, indices, (k - 1) as nat);
        lemma_rows_sent_follow(cfg, p, matrices, indices, j, (k - 1) as nat);
        let rows = rows_at(matrices[k - 1], cfg.cols(), indices, indices.len());
        let sent = before.send_fields(rows);
        lemma_follows_send_fields(before, rows);
        lemma_paths_follow(sent, cfg.matrix_config().leaves(matrices[k - 1]), indices, indices.len());
        lemma_follows_trans(here, before, sent);
        lemma_follows_trans(here, sent, cfg.rows_sent(p, matrices, indices, k));
    }
}

proof fn lemma_rows_received(
    cfg: &Config,
    p: ProverView,
    matrices: Seq<Seq<int>>,
    indices: Seq<usize>,
    k: nat,
    q: ProverView,
    tail: Seq<u64>,
)
    requires
        cfg.wf(),
        matrices_wf(cfg, matrices),
        k <= matrices.len(),
        forall|i: int| 0 <= i < indices.len() ==> #[trigger] indices[i] < cfg.codeword_length,
        follows(cfg.rows_sent(p, matrices, indices, k), q),
    ensures
        cfg.rows_received(pending(p, q, tail), matrix_roots(cfg, matrices), indices, k) == Some(
            (
                cfg.all_rows_at(matrices, indices).take(k as int),
                pending(cfg.rows_sent(p, matrices, indices, k), q, tail),
            ),
        ),
    decreases k,
{
    let all = cfg.all_rows_at(matrices, indices);
    if k == 0 {
        assert(all.take(0) =~= Seq::<Seq<int>>::empty());
    } else {
        let m = (k - 1) as nat;
        let matrix = matrices[m as int];
        let before = cfg.rows_sent(p, matrices, indices, m);
        lemma_rows_sent_follow(cfg, p, matrices, indices, m, k);
        lemma_follows_trans(before, cfg.rows_sent(p, matrices, indices, k), q);
        lemma_rows_received(cfg, p, matrices, indices, m, q, tail);
        let n = indices.len();
        let rows = rows_at(matrix, cfg.cols(), indices, n);
        assert(all_canonical(matrix));
        lemma_rows_at(matrix, cfg.codeword_length as nat, cfg.cols(), indices, n);
        let sent = before.send_fields(rows);
        let leaves = cfg.matrix_config().leaves(matrix);
        lemma_paths_follow(sent, leaves, indices, n);
        lemma_follows_trans(sent, cfg.rows_sent(p, matrices, indices, k), q);
        law_read_fields(before, rows, q, tail);
        law_open_verifies(cfg.matrix_config(), matrix, indices, rows, n, sent, q, tail);
        reveal(Config::one_received);
        assert(all.take(k as int) =~= all.take(m as int).push(rows));
    }
}

/// Completeness of openings: the verifier accepts what was opened of committed
/// matrices, and gets the same points and the same rows.
pub proof fn law_irs_open_complete(
    cfg: &Config,
    matrices: Seq<Seq<int>>,
    p: ProverView,
    q: ProverView,
    tail: Seq<u64>,
)
    requires
        cfg.wf(),
        matrices_wf(cfg, matrices),
        follows(cfg.opened(p, matrices).2, q),
    ensures
        follows(p, cfg.opened(p, matrices).2),
        cfg.verified(pending(p, q, tail), matrix_roots(cfg, matrices)) == Some(
            (
                cfg.opened(p, matrices).0,
                cfg.opened(p, matrices).1,
                pending(cfg.opened(p, matrices).2, q, tail),
            ),
        ),
{
    let (indices, sponge) = cfg.indices(p.sponge);
    let drawn = ProverView { sponge, ..p };
    lemma_index_count(cfg, p.sponge);
    lemma_rows_received(cfg, drawn, matrices, indices, matrices.len(), q, tail);
    lemma_rows_sent_follow(cfg, drawn, matrices, indices, 0, matrices.len());
    assert(follows(p, drawn)) by {
        lemma_follows_refl(p);
    }
    lemma_follows_trans(p, drawn, cfg.opened(p, matrices).2);
    let all = cfg.all_rows_at(matrices, indices);
    assert(all.take(matrices.len() as int) =~= all);
    assert(pending(drawn, q, tail) == (VerifierView { sponge, ..pending(p, q, tail) }));
}

/// A commitment that was sent is received.
pub proof fn law_irs_commit_received(
    cfg: &Config,
    vectors: Seq<Seq<int>>,
    p: ProverView,
    q: ProverView,
    tail: Seq<u64>,
)
    requires
        follows(cfg.committed(vectors, p), q),
    ensures
        follows(p, cfg.committed(vectors, p)),
        ({
            let root = root_of(cfg.matrix_config().leaves(cfg.encoded(vectors, cfg.masks_of(p))));
            pending(p, q, tail).read_all(4) == Some(
                (root.words(), pending(cfg.committed(vectors, p), q, tail)),
            )
        }),
{
    let root = root_of(cfg.matrix_config().leaves(cfg.encoded(vectors, cfg.masks_of(p))));
    let tossed = p.toss(cfg.num_mask_coefficients());
    lemma_follows_draw(p, cfg.num_mask_coefficients());
    lemma_follows_send_all(tossed, root.words());
    lemma_follows_trans(p, tossed, cfg.committed(vectors, p));
    law_read_words(tossed, root.words(), q, tail);
    assert(pending(p, q, tail) == pending(tossed, q, tail));
}

/// The rows side by side, one by one.
pub proof fn lemma_joined_rows(subs: Seq<Seq<int>>, cols: nat, n: nat, i: int)
    requires
        0 <= i < n,
        forall|b: int| 0 <= b < subs.len() ==> (#[trigger] subs[b]).len() >= n * cols,
    ensures
        row_of(joined(subs, cols, n), subs.len() * cols, i) == joined_row(subs, cols, i, subs.len()),
        joined(subs, cols, n).len() == n * (subs.len() * cols),
    decreases n,
{
    let stride = subs.len() * cols;
    let m = (n - 1) as nat;
    lemma_joined_row_len(subs, cols, n, m as int, subs.len());
    lemma_joined_len(subs, cols, n, m);
    lemma_joined_len(subs, cols, n, n);
    let all = joined(subs, cols, n);
    assert(i * stride >= 0) by (nonlinear_arith)
        requires
            i >= 0,
            stride >= 0,
    ;
    assert(n * stride == m * stride + stride) by (nonlinear_arith)
        requires
            n == m + 1,
    ;
    if i < m {
        assert forall|b: int| 0 <= b < subs.len() implies (#[trigger] subs[b]).len() >= m * cols by {
            assert(m * cols <= n * cols) by (nonlinear_arith)
                requires
                    m <= n,
                    cols >= 0,
            ;
        }
        lemma_joined_rows(subs, cols, m, i);
        assert(i * stride + stride <= m * stride) by (nonlinear_arith)
            requires
                i < m,
                stride >= 0,
        ;
        assert(row_of(all, stride, i) =~= row_of(joined(subs, cols, m), stride, i));
    } else {
        assert(row_of(all, stride, i) =~= joined_row(subs, cols, i, subs.len()));
    }
}

pub proof fn lemma_joined_row_len(subs: Seq<Seq<int>>, cols: nat, n: nat, i: int, k: nat)
    requires
        0 <= i < n,
        k <= subs.len(),
        forall|b: int| 0 <= b < subs.len() ==> (#[trigger] subs[b]).len() >= n * cols,
    ensures
        joined_row(subs, cols, i, k).len() == k * cols,
    decreases k,
{
    if k > 0 {
        let m = (k - 1) as nat;
        lemma_joined_row_len(subs, cols, n, i, m);
        assert(subs[m as int].len() >= n * cols);
        assert(i * cols + cols <= n * cols) by (nonlinear_arith)
            requires
                i < n,
                cols >= 0,
        ;
        assert(i * cols >= 0) by (nonlinear_arith)
            requires
                i >= 0,
                cols >= 0,
        ;
        assert(k * cols == m * cols + cols) by (nonlinear_arith)
            requires
                k == m + 1,
        ;
    } else {
        assert(0 * cols == 0) by (nonlinear_arith);
    }
}

proof fn lemma_joined_len(subs: Seq<Seq<int>>, cols: nat, n: nat, m: nat)
    requires
        m <= n,
        forall|b: int| 0 <= b < subs.len() ==> (#[trigger] subs[b]).len() >= n * cols,
    ensures
        joined(subs, cols, m).len() == m * (subs.len() * cols),
    decreases m,
{
    let stride = subs.len() * cols;
    if m > 0 {
        lemma_joined_len(subs, cols, n, (m - 1) as nat);
        lemma_joined_row_len(subs, cols, n, m - 1, subs.len());
        let k = m - 1;
        assert(m * stride == k * stride + stride) by (nonlinear_arith)
            requires
                m == k + 1,
        ;
    } else {
        assert(0 * stride == 0) by (nonlinear_arith);
    }
}

/// A row of the encoding of one vector, combined by weights, is the value at the
/// row's point of the combined message followed by the combined mask.
pub proof fn law_encoded_row_combined(
    cfg: &Config,
    vector: Seq<int>,
    masks: Seq<int>,
    weights: Seq<int>,
    i: int,
)
    requires
        cfg.wf(),
        cfg.num_vectors == 1,
        vector.len() == cfg.vector_size,
        masks.len() == cfg.num_mask_coefficients(),
        all_canonical(vector),
        all_canonical(masks),
        all_canonical(weights),
        weights.len() == cfg.interleaving_depth,
        0 <= i < cfg.codeword_length,
    ensures
        dot_spec(
            weights,
            row_of(cfg.encoded(seq![vector], masks), cfg.cols(), i),
        ) == evaluate(
            chunks_combined(vector, cfg.message_len(), weights) + chunks_combined(
                masks,
                cfg.mode.mask_len(),
                weights,
            ),
            cfg.point(i as nat),
        ),
{
    broadcast use {lemma_residue_canonical, lemma_fsum_canonical, lemma_fpow_canonical, lemma_evaluate_canonical};

    let depth = cfg.interleaving_depth as nat;
    let ml = cfg.message_len();
    let mk = cfg.mode.mask_len();
    let x = cfg.point(i as nat);
    assert(cfg.cols() == depth) by {
        assert(depth * 1 == depth) by (nonlinear_arith);
    }
    vstd::arithmetic::div_mod::lemma_fundamental_div_mod(cfg.vector_size as int, depth as int);
    assert(vector.len() == ml * depth) by (nonlinear_arith)
        requires
            vector.len() == depth as int * ml as int,
    ;
    let a = chunks_combined(vector, ml, weights);
    let b = chunks_combined(masks, mk, weights);
    law_combined_evaluates(vector, ml, weights, x);
    law_combined_evaluates(masks, mk, weights, x);
    law_evaluate_concat(a, b, x);
    let fa = weighted_chunk_values(vector, ml, weights, x);
    let fb = weighted_chunk_values(masks, mk, weights, x);
    let xl = fpow(x, ml);
    let fb2 = |l: int| fmul(xl, fb(l));
    lemma_fsum_scale(xl, fb, fb2, depth);
    let matrix = cfg.encoded(seq![vector], masks);
    let row = row_of(matrix, cfg.cols(), i);
    let t = dot_terms(weights, row);
    assert forall|l: int| 0 <= l < depth implies #[trigger] t(l) == fadd(fa(l), fb2(l)) by {
        let at = i * depth + l;
        lemma_fundamental_div_mod_converse(at, depth as int, i, l);
        let n = cfg.codeword_length as int;
        assert(0 <= at < n * depth) by (nonlinear_arith)
            requires
                at == i * depth + l,
                0 <= l < depth,
                0 <= i < n,
        ;
        assert(i * depth + depth <= n * depth) by (nonlinear_arith)
            requires
                i < n,
                depth >= 0,
        ;
        assert(row[l] == matrix[at]);
        let column = cfg.column(seq![vector], masks, l);
        assert(l / depth as int == 0 && l % depth as int == l) by {
            vstd::arithmetic::div_mod::lemma_basic_div(l, depth as int);
            vstd::arithmetic::div_mod::lemma_small_mod(l as nat, depth);
        }
        let ra = row_of(vector, ml, l);
        let rb = row_of(masks, mk, l);
        assert(column == ra + rb);
        lemma_row_canonical(vector, ml, depth, l);
        lemma_row_canonical(masks, mk, depth, l);
        law_evaluate_concat(ra, rb, x);
        let (ea, eb) = (evaluate(ra, x), evaluate(rb, x));
        assert(canonical(weights[l]));
        lemma_distribute(weights[l], ea, fmul(xl, eb));
        lemma_fmul_assoc(weights[l], xl, eb);
        lemma_fmul_comm(weights[l], xl);
        lemma_fmul_assoc(xl, weights[l], eb);
    }
    lemma_fsum_add(fa, fb2, t, depth);
}

/// A row of a matrix with canonical entries.
pub proof fn lemma_row_canonical(values: Seq<int>, len: nat, count: nat, l: int)
    requires
        all_canonical(values),
        values.len() == len * count,
        0 <= l < count,
    ensures
        row_of(values, len, l).len() == len,
        all_canonical(row_of(values, len, l)),
{
    assert(l * len + len <= len * count) by (nonlinear_arith)
        requires
            l < count,
            len >= 0,
    ;
    assert(l * len >= 0) by (nonlinear_arith)
        requires
            l >= 0,
            len >= 0,
    ;
    let row = row_of(values, len, l);
    assert forall|i: int| 0 <= i < row.len() implies canonical(#[trigger] row[i]) by {
        assert(canonical(values[l * len + i]));
    }
}

/// An encoding has canonical entries.
pub proof fn lemma_encoded_wf(cfg: &Config, vectors: Seq<Seq<int>>, masks: Seq<int>)
    requires
        cfg.wf(),
    ensures
        all_canonical(cfg.encoded(vectors, masks)),
        cfg.encoded(vectors, masks).len() == cfg.codeword_length * cfg.cols(),
{
    broadcast use lemma_evaluate_canonical;

}

} // verus!
