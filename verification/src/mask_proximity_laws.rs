//! Laws of mask proximity.

use crate::algebra::{dot_spec, evaluate};
use crate::basecase::combined;
use crate::basecase_laws::{lemma_dot_combined, lemma_evaluate_combined};
use crate::field::{
    all_canonical, canonical, fadd, fmul, lemma_fpow_canonical, lemma_residue_canonical,
};
use crate::irs_commit::{joined_row, lemma_index_count};
use crate::irs_laws::{
    law_irs_open_complete, lemma_encoded_wf, lemma_joined_rows, lemma_row_canonical, lemma_rows_at,
    matrices_wf, matrix_roots,
};
use crate::mask_proximity::{
    entry_consistent, products_consistent, row_products, rows_consistent, Config,
};
use crate::matrix_commit::{root_of, row_of};
use crate::sums::lemma_fsum_canonical;
use crate::transcript::{challenge, ProverView};
use crate::transcript_laws::{
    follows, law_pow_accepted, law_read_fields, lemma_follows_draw, lemma_follows_pow,
    lemma_follows_send_fields, lemma_follows_trans, pending,
};
use vstd::arithmetic::div_mod::lemma_fundamental_div_mod_converse;
use vstd::prelude::*;

verus! {

/// A row of a combination is the combination of the rows.
pub proof fn lemma_row_combined(a: Seq<int>, b: Seq<int>, c: int, size: nat, count: nat, i: int)
    requires
        a.len() == size * count,
        b.len() == size * count,
        0 <= i < count,
    ensures
        row_of(combined(a, b, c), size, i) == combined(row_of(a, size, i), row_of(b, size, i), c),
{
    assert(i * size + size <= size * count) by (nonlinear_arith)
        requires
            i < count,
            size >= 0,
    ;
    assert(i * size >= 0) by (nonlinear_arith)
        requires
            i >= 0,
            size >= 0,
    ;
    assert(row_of(combined(a, b, c), size, i) =~= combined(
        row_of(a, size, i),
        row_of(b, size, i),
        c,
    ));
}

/// The opened value of vector `j`.
proof fn lemma_opened_entry(cfg: &Config, vectors: Seq<Seq<int>>, irs_masks: Seq<int>, p: ProverView, i: int, j: int)
    requires
        cfg.wf(),
        vectors.len() == cfg.c_zk_commit.num_vectors,
        0 <= j < vectors.len(),
        forall|t: int| 0 <= t < vectors.len() ==> (#[trigger] vectors[t]).len() == cfg.size(),
        0 <= i < cfg.c_zk_commit.indices(p.sponge).0.len(),
    ensures
        ({
            let c = &cfg.c_zk_commit;
            let matrix = c.encoded(vectors, irs_masks);
            let (points, rows, view) = c.opened(p, seq![matrix]);
            row_of(rows, vectors.len(), i)[j] == evaluate(
                vectors[j] + row_of(irs_masks, c.mode.mask_len(), j),
                points[i],
            )
        }),
{
    let c = &cfg.c_zk_commit;
    let n = vectors.len();
    let matrix = c.encoded(vectors, irs_masks);
    let (points, rows, view) = c.opened(p, seq![matrix]);
    let (indices, sponge) = c.indices(p.sponge);
    lemma_index_count(c, p.sponge);
    assert(c.cols() == n) by {
        assert(1 * n == n) by (nonlinear_arith);
    }
    lemma_encoded_wf(c, vectors, irs_masks);
    let subs = c.all_rows_at(seq![matrix], indices);
    lemma_rows_at(matrix, c.codeword_length as nat, n, indices, indices.len());
    assert(subs[0] == crate::irs_commit::rows_at(matrix, n, indices, indices.len()));
    lemma_joined_rows(subs, n, indices.len(), i);
    assert(subs.len() * n == n);
    reveal_with_fuel(joined_row, 2);
    let row = row_of(rows, n, i);
    assert(row =~= row_of(subs[0], n, i));
    let at = indices[i] as int;
    assert(row == row_of(matrix, n, at));
    let t = at * n + j;
    let len = c.codeword_length as int;
    assert(at * n + n <= len * n) by (nonlinear_arith)
        requires
            at < len,
            n >= 0,
    ;
    assert(at * n >= 0) by (nonlinear_arith)
        requires
            at >= 0,
            n >= 0,
    ;
    assert(row[j] == matrix[t]);
    lemma_fundamental_div_mod_converse(t, n as int, at, j);
    assert(j / 1 == j && j % 1 == 0);
    let ml = c.message_len();
    assert(ml == cfg.size()) by {
        assert(c.vector_size as int / 1 == c.vector_size);
    }
    assert(vectors[j].len() == ml);
    assert(0 * ml == 0) by (nonlinear_arith);
    assert(row_of(vectors[j], ml, 0) =~= vectors[j]);
}

/// The combined vectors have the combined values of what an honest prover opens.
proof fn lemma_rows_consistent(
    cfg: &Config,
    masks: Seq<int>,
    fresh: Seq<int>,
    irs_masks: Seq<int>,
    gamma: int,
    p: ProverView,
)
    requires
        cfg.wf(),
        all_canonical(masks),
        all_canonical(fresh),
        all_canonical(irs_masks),
        canonical(gamma),
        masks.len() == cfg.flat_len(),
        fresh.len() == cfg.flat_len(),
        irs_masks.len() == cfg.c_zk_commit.num_mask_coefficients(),
    ensures
        ({
            let c = &cfg.c_zk_commit;
            let matrix = c.encoded(cfg.vectors(masks, fresh), irs_masks);
            let (points, rows, view) = c.opened(p, seq![matrix]);
            rows_consistent(
                combined(fresh, masks, gamma),
                cfg.size(),
                cfg.combined_masks(irs_masks, gamma),
                c.mode.mask_len(),
                cfg.num_masks as nat,
                gamma,
                points,
                rows,
                points.len(),
            )
        }),
{
    broadcast use lemma_fpow_canonical;

    let c = &cfg.c_zk_commit;
    let k = cfg.num_masks as nat;
    let size = cfg.size();
    let mk = c.mode.mask_len();
    let vectors = cfg.vectors(masks, fresh);
    let matrix = c.encoded(vectors, irs_masks);
    let (points, rows, view) = c.opened(p, seq![matrix]);
    let z = combined(fresh, masks, gamma);
    let m = cfg.combined_masks(irs_masks, gamma);
    let split = cfg.flat_mask_len() as int;
    let (m1, m2) = (irs_masks.take(split), irs_masks.skip(split));
    let ki = k as int;
    let mi = mk as int;
    assert(mi * (1 * (2 * ki)) == 2 * (ki * mi)) by (nonlinear_arith);
    assert(irs_masks.len() == 2 * split);
    assert(all_canonical(m1)) by {
        assert forall|t: int| 0 <= t < m1.len() implies canonical(#[trigger] m1[t]) by {
            assert(canonical(irs_masks[t]));
        }
    }
    assert(all_canonical(m2)) by {
        assert forall|t: int| 0 <= t < m2.len() implies canonical(#[trigger] m2[t]) by {
            assert(canonical(irs_masks[split + t]));
        }
    }
    assert(size * k == k * size && mk * k == k * mk) by (nonlinear_arith);
    assert forall|t: int| 0 <= t < vectors.len() implies (#[trigger] vectors[t]).len() == size by {
        if t < k {
            lemma_row_canonical(masks, size, k, t);
        } else {
            lemma_row_canonical(fresh, size, k, t - k);
        }
    }
    assert forall|i: int, j: int| 0 <= i < points.len() && 0 <= j < k implies #[trigger] entry_consistent(
        z,
        size,
        m,
        mk,
        k,
        gamma,
        row_of(rows, 2 * k, i),
        points[i],
        j,
    ) by {
        let x = points[i];
        lemma_opened_entry(cfg, vectors, irs_masks, p, i, j);
        lemma_opened_entry(cfg, vectors, irs_masks, p, i, k + j);
        lemma_row_canonical(masks, size, k, j);
        lemma_row_canonical(fresh, size, k, j);
        lemma_row_canonical(m1, mk, k, j);
        lemma_row_canonical(m2, mk, k, j);
        let (fa, fb) = (row_of(fresh, size, j), row_of(masks, size, j));
        let (ga, gb) = (row_of(m2, mk, j), row_of(m1, mk, j));
        let jj = j;
        assert(jj * mi + mi <= split) by (nonlinear_arith)
            requires
                jj < ki,
                mi >= 0,
                split == ki * mi,
        ;
        assert(jj * mi >= 0) by (nonlinear_arith)
            requires
                jj >= 0,
                mi >= 0,
        ;
        assert((k + j) * mk == split + j * mk) by (nonlinear_arith)
            requires
                split == k * mk,
        ;
        assert(row_of(irs_masks, mk, j) =~= gb);
        assert(row_of(irs_masks, mk, k + j) =~= ga);
        assert(vectors[j] == fb);
        assert(vectors[k + j] == fa);
        lemma_row_combined(fresh, masks, gamma, size, k, j);
        lemma_row_combined(m2, m1, gamma, mk, k, j);
        let a = fa + ga;
        let b = fb + gb;
        assert(all_canonical(a) && all_canonical(b));
        assert(combined(fa, fb, gamma) + combined(ga, gb, gamma) =~= combined(a, b, gamma));
        lemma_evaluate_combined(a, b, gamma, x);
    }
}

/// The combined vectors have the combined inner products.
proof fn lemma_products_consistent(
    cfg: &Config,
    masks: Seq<int>,
    fresh: Seq<int>,
    covectors: Seq<int>,
    gamma: int,
)
    requires
        all_canonical(masks),
        all_canonical(fresh),
        all_canonical(covectors),
        canonical(gamma),
        masks.len() == cfg.flat_len(),
        fresh.len() == cfg.flat_len(),
        covectors.len() == cfg.flat_len(),
    ensures
        products_consistent(
            combined(fresh, masks, gamma),
            covectors,
            cfg.size(),
            row_products(masks, covectors, cfg.size(), cfg.num_masks as nat),
            row_products(fresh, covectors, cfg.size(), cfg.num_masks as nat),
            gamma,
            cfg.num_masks as nat,
        ),
{
    let k = cfg.num_masks as nat;
    let size = cfg.size();
    let z = combined(fresh, masks, gamma);
    let xs = row_products(masks, covectors, size, k);
    let ys = row_products(fresh, covectors, size, k);
    assert(size * k == k * size) by (nonlinear_arith);
    assert forall|i: int| 0 <= i < k implies dot_spec(row_of(z, size, i), row_of(covectors, size, i))
        == #[trigger] fadd(ys[i], fmul(gamma, xs[i])) by {
        lemma_row_canonical(masks, size, k, i);
        lemma_row_canonical(fresh, size, k, i);
        lemma_row_canonical(covectors, size, k, i);
        lemma_row_combined(fresh, masks, gamma, size, k, i);
        lemma_dot_combined(
            row_of(fresh, size, i),
            row_of(masks, size, i),
            gamma,
            row_of(covectors, size, i),
        );
    }
}

/// Completeness: on what an honest prover sent, the verifier accepts, and returns
/// the masks' inner products with the covectors.
pub proof fn law_mask_proximity_complete(
    cfg: &Config,
    masks: Seq<int>,
    fresh: Seq<int>,
    irs_masks: Seq<int>,
    covectors: Seq<int>,
    p: ProverView,
    q: ProverView,
    tail: Seq<u64>,
)
    requires
        cfg.wf(),
        cfg.pow.bits == 0 || !q.stuck,
        all_canonical(masks),
        all_canonical(fresh),
        all_canonical(irs_masks),
        all_canonical(covectors),
        masks.len() == cfg.flat_len(),
        fresh.len() == cfg.flat_len(),
        covectors.len() == cfg.flat_len(),
        irs_masks.len() == cfg.c_zk_commit.num_mask_coefficients(),
        follows(
            cfg.proved(
                masks,
                fresh,
                irs_masks,
                cfg.c_zk_commit.encoded(cfg.vectors(masks, fresh), irs_masks),
                covectors,
                p,
            ),
            q,
        ),
    ensures
        ({
            let c = &cfg.c_zk_commit;
            let matrix = c.encoded(cfg.vectors(masks, fresh), irs_masks);
            let root = root_of(c.matrix_config().leaves(matrix));
            let end = cfg.proved(masks, fresh, irs_masks, matrix, covectors, p);
            &&& follows(p, end)
            &&& cfg.checked(root, covectors, pending(p, q, tail)) == Some(
                (
                    row_products(masks, covectors, cfg.size(), cfg.num_masks as nat),
                    pending(end, q, tail),
                ),
            )
        }),
{
    broadcast use {lemma_residue_canonical, lemma_fsum_canonical};

    let c = &cfg.c_zk_commit;
    let k = cfg.num_masks as nat;
    let matrix = c.encoded(cfg.vectors(masks, fresh), irs_masks);
    let root = root_of(c.matrix_config().leaves(matrix));
    let end = cfg.proved(masks, fresh, irs_masks, matrix, covectors, p);
    let xs = row_products(masks, covectors, cfg.size(), k);
    let ys = row_products(fresh, covectors, cfg.size(), k);
    let p1 = p.send_fields(xs);
    let p2 = p1.send_fields(ys);
    let p3 = cfg.pow.proved(p2);
    let gamma = challenge(p3.sponge);
    let p4 = p3.draw();
    let z = combined(fresh, masks, gamma);
    let m = cfg.combined_masks(irs_masks, gamma);
    let ki = k as int;
    let mi = c.mode.mask_len() as int;
    assert(mi * (1 * (2 * ki)) == 2 * (ki * mi)) by (nonlinear_arith);
    assert(m.len() == cfg.flat_mask_len());
    assert(all_canonical(z));
    assert(all_canonical(m));
    let p5 = p4.send_fields(z);
    let p6 = p5.send_fields(m);
    lemma_encoded_wf(c, cfg.vectors(masks, fresh), irs_masks);
    assert(matrices_wf(c, seq![matrix]));
    assert(matrix_roots(c, seq![matrix]) =~= seq![root]);
    law_irs_open_complete(c, seq![matrix], p6, q, tail);
    lemma_follows_trans(p6, end, q);
    lemma_follows_send_fields(p5, m);
    lemma_follows_trans(p5, p6, q);
    lemma_follows_send_fields(p4, z);
    lemma_follows_trans(p4, p5, q);
    assert(follows(p3, q)) by {
        lemma_follows_draw(p3, 0);
        lemma_follows_trans(p3, p4, q);
    }
    lemma_follows_pow(cfg.pow, p2);
    lemma_follows_trans(p2, p3, q);
    lemma_follows_send_fields(p1, ys);
    lemma_follows_trans(p1, p2, q);
    lemma_follows_send_fields(p, xs);
    law_read_fields(p, xs, q, tail);
    law_read_fields(p1, ys, q, tail);
    law_pow_accepted(cfg.pow, p2, q, tail);
    law_read_fields(p4, z, q, tail);
    law_read_fields(p5, m, q, tail);
    lemma_rows_consistent(cfg, masks, fresh, irs_masks, gamma, p6);
    lemma_products_consistent(cfg, masks, fresh, covectors, gamma);
    // The prover went on all along.
    lemma_follows_trans(p, p1, p2);
    lemma_follows_trans(p, p2, p3);
    lemma_follows_draw(p3, 0);
    lemma_follows_trans(p, p3, p4);
    lemma_follows_trans(p, p4, p5);
    lemma_follows_trans(p, p5, p6);
    lemma_follows_trans(p, p6, end);
}

} // verus!
