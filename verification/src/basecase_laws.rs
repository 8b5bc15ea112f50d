//! Laws of the base case.

use crate::algebra::{dot_spec, dot_terms, evaluate, mle};
use crate::basecase::{combined, spot_checks, BasecaseMode, Blinded, Config, OpenChecked};
use crate::chunks::law_evaluate_concat;
use crate::field::{
    all_canonical, canonical, fadd, fmul, fpow, lemma_fmul_assoc, lemma_fmul_comm, lemma_fmul_one,
    lemma_fpow_canonical, lemma_quotient, lemma_residue_canonical, quotient,
};
use crate::irs_commit::{joined_row, lemma_challenges_len, lemma_index_count};
use crate::irs_laws::{
    law_irs_commit_received, law_irs_open_complete, lemma_encoded_wf, lemma_joined_rows,
    lemma_rows_at, matrices_wf, matrix_roots,
};
use crate::matrix_commit::{root_of, row_of, Digest};
use crate::sumcheck::DotProductOracle;
use crate::sumcheck_laws::{
    law_sumcheck_complete, law_sumcheck_reduces_dot, lemma_dot_oracle_canonical,
    lemma_evaluate_canonical, lemma_size_bound, masked_sum,
};
use crate::sums::{
    fsum, lemma_add_zero, lemma_distribute, lemma_fsum_add, lemma_fsum_canonical, lemma_fsum_scale,
};
use crate::transcript::{challenge, challenges, ProverView};
use crate::transcript_laws::{
    follows, law_pow_accepted, law_read_field, law_read_fields, lemma_follows_draw,
    lemma_follows_pow, lemma_follows_refl, lemma_follows_send, lemma_follows_send_fields,
    lemma_follows_trans, pending,
};
use crate::vector_laws::law_folded_to_value;
use vstd::prelude::*;

verus! {

/// The inner product with a combination.
pub proof fn lemma_dot_combined(a: Seq<int>, b: Seq<int>, c: int, d: Seq<int>)
    requires
        all_canonical(a),
        all_canonical(b),
        all_canonical(d),
        canonical(c),
        a.len() == b.len(),
        a.len() <= d.len(),
    ensures
        dot_spec(combined(a, b, c), d) == fadd(dot_spec(a, d), fmul(c, dot_spec(b, d))),
{
    broadcast use {lemma_residue_canonical, lemma_fsum_canonical};

    let f = dot_terms(a, d);
    let g = dot_terms(b, d);
    let cg = |i: int| fmul(c, g(i));
    let h = dot_terms(combined(a, b, c), d);
    let n = a.len();
    lemma_fsum_scale(c, g, cg, n);
    assert forall|i: int| 0 <= i < n implies #[trigger] h(i) == fadd(f(i), cg(i)) by {
        assert(canonical(a[i]) && canonical(b[i]) && canonical(d[i]));
        let cb = fmul(c, b[i]);
        lemma_fmul_comm(fadd(a[i], cb), d[i]);
        lemma_distribute(d[i], a[i], cb);
        lemma_fmul_comm(d[i], a[i]);
        lemma_fmul_comm(d[i], cb);
        lemma_fmul_assoc(c, b[i], d[i]);
    }
    lemma_fsum_add(f, cg, h, n);
}

/// The value of a combination.
pub proof fn lemma_evaluate_combined(a: Seq<int>, b: Seq<int>, c: int, x: int)
    requires
        all_canonical(a),
        all_canonical(b),
        canonical(c),
        canonical(x),
        a.len() == b.len(),
    ensures
        evaluate(combined(a, b, c), x) == fadd(evaluate(a, x), fmul(c, evaluate(b, x))),
{
    broadcast use {lemma_residue_canonical, lemma_fpow_canonical};

    let g = crate::algebra::geometric(1, x, a.len());
    assert(all_canonical(g));
    assert(all_canonical(combined(a, b, c)));
    crate::vector_laws::law_evaluate_is_dot(a, x);
    crate::vector_laws::law_evaluate_is_dot(b, x);
    crate::vector_laws::law_evaluate_is_dot(combined(a, b, c), x);
    lemma_dot_combined(a, b, c, g);
}

/// A row of the encoding of one vector, without interleaving, holds the value of the
/// vector followed by its mask.
proof fn lemma_single_row(cfg: &Config, vector: Seq<int>, masks: Seq<int>, i: int)
    requires
        cfg.wf(),
        vector.len() == cfg.commit.vector_size,
        masks.len() == cfg.commit.num_mask_coefficients(),
        all_canonical(vector),
        all_canonical(masks),
        0 <= i < cfg.commit.codeword_length,
    ensures
        row_of(cfg.commit.encoded(seq![vector], masks), 1, i) == seq![
            fadd(
                evaluate(vector, cfg.commit.point(i as nat)),
                fmul(
                    fpow(cfg.commit.point(i as nat), vector.len()),
                    evaluate(masks, cfg.commit.point(i as nat)),
                ),
            ),
        ],
        cfg.commit.cols() == 1,
{
    broadcast use lemma_fpow_canonical;

    let c = &cfg.commit;
    let x = c.point(i as nat);
    assert(c.cols() == 1);
    assert(c.message_len() == vector.len()) by {
        assert(c.vector_size as int / 1 == c.vector_size);
    }
    let m = c.encoded(seq![vector], masks);
    let row = row_of(m, 1, i);
    assert(i * 1 == i) by (nonlinear_arith);
    assert(i / 1 == i && i % 1 == 0);
    assert(c.codeword_length * 1 == c.codeword_length) by (nonlinear_arith);
    let column = c.column(seq![vector], masks, 0);
    assert(0int / 1 == 0 && 0int % 1 == 0);
    let ml = c.message_len();
    let mk = c.mode.mask_len();
    assert(0 * ml == 0 && 0 * mk == 0) by (nonlinear_arith);
    assert(mk * 1 == mk) by (nonlinear_arith);
    assert(row_of(vector, ml, 0) =~= vector);
    assert(row_of(masks, mk, 0) =~= masks);
    law_evaluate_concat(vector, masks, x);
    assert(row =~= seq![evaluate(column, x)]);
}

/// The spot checks pass on what an honest prover opens.
proof fn lemma_spot_checks(
    cfg: &Config,
    vectors: Seq<Seq<int>>,
    masks: Seq<Seq<int>>,
    weights: Seq<int>,
    vector: Seq<int>,
    mask: Seq<int>,
    p: ProverView,
)
    requires
        cfg.wf(),
        vectors.len() == masks.len(),
        vectors.len() == weights.len(),
        1 <= vectors.len() <= 2,
        weights[0] == 1,
        all_canonical(weights),
        forall|b: int|
            0 <= b < vectors.len() ==> all_canonical(#[trigger] vectors[b]) && vectors[b].len()
                == cfg.commit.vector_size,
        forall|b: int|
            0 <= b < masks.len() ==> all_canonical(#[trigger] masks[b]) && masks[b].len()
                == cfg.commit.num_mask_coefficients(),
        vectors.len() == 1 ==> vector == vectors[0] && mask == masks[0],
        vectors.len() == 2 ==> vector == combined(vectors[0], vectors[1], weights[1]) && mask
            == combined(masks[0], masks[1], weights[1]),
    ensures
        ({
            let matrices = Seq::new(
                vectors.len(),
                |b: int| cfg.commit.encoded(seq![vectors[b]], masks[b]),
            );
            let (points, matrix, view) = cfg.commit.opened(p, matrices);
            spot_checks(vector, mask, points, matrix, weights, points.len())
        }),
{
    broadcast use {lemma_residue_canonical, lemma_fpow_canonical, lemma_evaluate_canonical};

    let c = &cfg.commit;
    let t = vectors.len();
    let matrices = Seq::new(t, |b: int| c.encoded(seq![vectors[b]], masks[b]));
    let (points, matrix, view) = c.opened(p, matrices);
    let (indices, sponge) = c.indices(p.sponge);
    lemma_index_count(c, p.sponge);
    let n = indices.len();
    let subs = c.all_rows_at(matrices, indices);
    assert(c.cols() == 1);
    assert forall|b: int| 0 <= b < t implies (#[trigger] subs[b]).len() >= n * 1 by {
        lemma_encoded_wf(c, seq![vectors[b]], masks[b]);
        lemma_rows_at(matrices[b], c.codeword_length as nat, 1, indices, n);
    }
    assert forall|i: int| 0 <= i < points.len() implies dot_spec(
        weights,
        row_of(matrix, weights.len(), i),
    ) == fadd(
        evaluate(vector, #[trigger] points[i]),
        fmul(fpow(points[i], vector.len()), evaluate(mask, points[i])),
    ) by {
        lemma_joined_rows(subs, 1, n, i);
        assert(subs.len() * 1 == t);
        let row = row_of(matrix, t, i);
        assert(row == joined_row(subs, 1, i, t));
        let x = points[i];
        let at = indices[i] as int;
        assert(x == c.point(at as nat));
        // The opened value of every commitment.
        let value = |b: int|
            fadd(
                evaluate(vectors[b], x),
                fmul(fpow(x, vector.len()), evaluate(masks[b], x)),
            );
        assert forall|b: int| 0 <= b < t implies row_of(#[trigger] subs[b], 1, i) == seq![value(b)] by {
            lemma_encoded_wf(c, seq![vectors[b]], masks[b]);
            lemma_rows_at(matrices[b], c.codeword_length as nat, 1, indices, n);
            assert(all_canonical(vectors[b]) && all_canonical(masks[b]));
            lemma_single_row(cfg, vectors[b], masks[b], at);
            assert(row_of(subs[b], 1, i) == row_of(matrices[b], 1, indices[i] as int));
        }
        reveal_with_fuel(joined_row, 3);
        assert(row_of(subs[0], 1, i) == seq![value(0)]);
        let f = dot_terms(weights, row);
        reveal_with_fuel(fsum, 3);
        lemma_fmul_one(value(0));
        lemma_add_zero(value(0));
        if t == 1 {
            assert(row =~= seq![value(0)]);
            assert(f(0) == fmul(1, value(0)));
        } else {
            assert(row_of(subs[1], 1, i) == seq![value(1)]);
            assert(row =~= seq![value(0), value(1)]);
            assert(f(0) == fmul(1, value(0)));
            let g = weights[1];
            assert(f(1) == fmul(g, value(1)));
            assert(canonical(g));
            assert(all_canonical(vectors[0]) && all_canonical(vectors[1]));
            assert(all_canonical(masks[0]) && all_canonical(masks[1]));
            lemma_evaluate_combined(vectors[0], vectors[1], g, x);
            lemma_evaluate_combined(masks[0], masks[1], g, x);
            lemma_combine_values(
                evaluate(vectors[0], x),
                evaluate(vectors[1], x),
                evaluate(masks[0], x),
                evaluate(masks[1], x),
                fpow(x, vector.len()),
                g,
            );
        }
    }
}

/// `(a0 + s * m0) + g * (a1 + s * m1) == (a0 + g * a1) + s * (m0 + g * m1)`.
proof fn lemma_combine_values(a0: int, a1: int, m0: int, m1: int, s: int, g: int)
    requires
        canonical(a0),
        canonical(a1),
        canonical(m0),
        canonical(m1),
        canonical(s),
        canonical(g),
    ensures
        fadd(fadd(a0, fmul(s, m0)), fmul(g, fadd(a1, fmul(s, m1)))) == fadd(
            fadd(a0, fmul(g, a1)),
            fmul(s, fadd(m0, fmul(g, m1))),
        ),
{
    broadcast use lemma_residue_canonical;

    let sm0 = fmul(s, m0);
    let sm1 = fmul(s, m1);
    lemma_distribute(g, a1, sm1);
    lemma_distribute(s, m0, fmul(g, m1));
    lemma_fmul_assoc(g, s, m1);
    lemma_fmul_comm(g, s);
    lemma_fmul_assoc(s, g, m1);
    crate::sums::lemma_add_exchange(a0, sm0, fmul(g, a1), fmul(g, sm1));
}

/// Completeness: on what an honest prover sent, the verifier accepts, at the same
/// point and with the same value, which is that of the linear form.
pub proof fn law_basecase_complete(
    cfg: &Config,
    vector: Seq<int>,
    masks: Seq<int>,
    covector: Seq<int>,
    p: ProverView,
    q: ProverView,
    tail: Seq<u64>,
)
    requires
        cfg.wf(),
        cfg.pow.bits == 0 || !q.stuck,
        cfg.sumcheck.round_pow.bits == 0 || !q.stuck,
        all_canonical(vector),
        all_canonical(masks),
        all_canonical(covector),
        vector.len() == cfg.spec_size(),
        covector.len() == cfg.spec_size(),
        masks.len() == cfg.commit.num_mask_coefficients(),
        ({
            let matrix = cfg.commit.encoded(seq![vector], masks);
            &&& cfg.opened(vector, masks, matrix, covector, dot_spec(vector, covector), p) is Some
            &&& follows(
                cfg.opened(
                    vector,
                    masks,
                    matrix,
                    covector,
                    dot_spec(vector, covector),
                    p,
                ).unwrap().view,
                q,
            )
        }),
    ensures
        ({
            let matrix = cfg.commit.encoded(seq![vector], masks);
            let sum = dot_spec(vector, covector);
            let root = root_of(cfg.commit.matrix_config().leaves(matrix));
            let o = cfg.opened(vector, masks, matrix, covector, sum, p).unwrap();
            &&& follows(p, o.view)
            &&& cfg.open_checked(root, sum, pending(p, q, tail)) == Some(
                OpenChecked { points: o.points, value: o.value, view: pending(o.view, q, tail) },
            )
            &&& cfg.spec_size() > 0 ==> o.value == mle(covector, o.points)
        }),
{
    broadcast use {lemma_residue_canonical, lemma_fsum_canonical, lemma_evaluate_canonical};

    reveal(Config::opened);
    reveal(Config::open_checked);
    let c = &cfg.commit;
    let matrix = c.encoded(seq![vector], masks);
    let sum = dot_spec(vector, covector);
    let root = root_of(c.matrix_config().leaves(matrix));
    let o = cfg.opened(vector, masks, matrix, covector, sum, p).unwrap();
    if cfg.spec_size() > 0 {
        let b = cfg.blinded(vector, masks, matrix, covector, sum, p).unwrap();
        let opened = c.opened(b.view, b.matrices).2;
        let (end, rlc) = cfg.sumcheck.proved::<DotProductOracle>(
            seq![b.vector, covector],
            b.sum,
            Seq::empty(),
            opened,
        );
        lemma_blinding(cfg, vector, masks, covector, p);
        lemma_final_claim(cfg, b, covector, opened);
        // Back to front: every step is read by the verifier.
        lemma_sumcheck_read(cfg, b, covector, opened, q, tail);
        lemma_follows_trans(opened, end.view, q);
        law_irs_open_complete(c, b.matrices, b.view, q, tail);
        lemma_follows_trans(b.view, opened, q);
        lemma_blind_received(cfg, vector, masks, covector, p, q, tail);
        lemma_follows_trans(p, b.view, opened);
        lemma_follows_trans(p, opened, end.view);
    } else {
        lemma_follows_refl(p);
    }
}

proof fn lemma_sumcheck_read(
    cfg: &Config,
    b: Blinded,
    covector: Seq<int>,
    opened: ProverView,
    q: ProverView,
    tail: Seq<u64>,
)
    requires
        cfg.wf(),
        cfg.sumcheck.round_pow.bits == 0 || !q.stuck,
        canonical(b.sum),
        follows(
            cfg.sumcheck.proved::<DotProductOracle>(
                seq![b.vector, covector],
                b.sum,
                Seq::empty(),
                opened,
            ).0.view,
            q,
        ),
    ensures
        ({
            let (end, rlc) = cfg.sumcheck.proved::<DotProductOracle>(
                seq![b.vector, covector],
                b.sum,
                Seq::empty(),
                opened,
            );
            &&& follows(opened, end.view)
            &&& cfg.sumcheck.checked(b.sum, pending(opened, q, tail)) == Some(
                (
                    crate::sumcheck::CheckState {
                        sum: masked_sum(end, rlc),
                        points: end.points,
                        view: pending(end.view, q, tail),
                    },
                    rlc,
                ),
            )
        }),
{
    assert(cfg.sumcheck.num_rounds * cfg.sumcheck.mask_len() == 0) by (nonlinear_arith)
        requires
            cfg.sumcheck.mask_len() == 0,
    ;
    lemma_dot_oracle_canonical();
    law_sumcheck_complete::<DotProductOracle>(
        &cfg.sumcheck,
        seq![b.vector, covector],
        b.sum,
        Seq::empty(),
        opened,
        q,
        tail,
    );
}

/// The claim at the end: the running sum is the product of both values at the point.
proof fn lemma_final_claim(cfg: &Config, b: Blinded, covector: Seq<int>, opened: ProverView)
    requires
        cfg.wf(),
        cfg.spec_size() > 0,
        all_canonical(b.vector),
        all_canonical(covector),
        b.vector.len() == cfg.spec_size(),
        covector.len() == cfg.spec_size(),
        b.sum == dot_spec(b.vector, covector),
    ensures
        ({
            let (end, rlc) = cfg.sumcheck.proved::<DotProductOracle>(
                seq![b.vector, covector],
                b.sum,
                Seq::empty(),
                opened,
            );
            let at = mle(b.vector, end.points);
            let form = mle(covector, end.points);
            &&& end.tables[0] == seq![at]
            &&& end.tables[1] == seq![form]
            &&& at != 0 ==> quotient(masked_sum(end, rlc), at) == form
        }),
{
    broadcast use {lemma_residue_canonical, lemma_fsum_canonical};

    let (end, rlc) = cfg.sumcheck.proved::<DotProductOracle>(
        seq![b.vector, covector],
        b.sum,
        Seq::empty(),
        opened,
    );
    law_sumcheck_reduces_dot(&cfg.sumcheck, b.vector, covector, Seq::empty(), opened);
    lemma_size_bound(&cfg.sumcheck);
    law_folded_to_value(b.vector, end.points);
    law_folded_to_value(covector, end.points);
    let at = mle(b.vector, end.points);
    let form = mle(covector, end.points);
    assert(end.tables[0] == seq![at]);
    assert(end.tables[1] == seq![form]);
    reveal_with_fuel(fsum, 2);
    let f = dot_terms(end.tables[0], end.tables[1]);
    assert(f(0) == fmul(at, form));
    lemma_add_zero(fmul(at, form));
    assert(end.sum == fmul(at, form));
    lemma_unmasked(cfg, b, covector, opened);
    lemma_fmul_comm(at, form);
    if at != 0 {
        lemma_quotient(end.sum, at, form);
    }
}

/// Without masks the running sum is the claim itself.
proof fn lemma_unmasked(cfg: &Config, b: Blinded, covector: Seq<int>, opened: ProverView)
    requires
        cfg.wf(),
        canonical(b.sum),
    ensures
        ({
            let (end, rlc) = cfg.sumcheck.proved::<DotProductOracle>(
                seq![b.vector, covector],
                b.sum,
                Seq::empty(),
                opened,
            );
            masked_sum(end, rlc) == end.sum
        }),
{
    broadcast use {lemma_residue_canonical, lemma_fsum_canonical, lemma_evaluate_canonical};

    let (end, rlc) = cfg.sumcheck.proved::<DotProductOracle>(
        seq![b.vector, covector],
        b.sum,
        Seq::empty(),
        opened,
    );
    assert(cfg.sumcheck.num_rounds * cfg.sumcheck.mask_len() == 0) by (nonlinear_arith)
        requires
            cfg.sumcheck.mask_len() == 0,
    ;
    lemma_dot_oracle_canonical();
    crate::sumcheck_laws::law_sumcheck_masks::<DotProductOracle>(
        &cfg.sumcheck,
        seq![b.vector, covector],
        b.sum,
        Seq::empty(),
        opened,
    );
    let f = crate::sumcheck_laws::mask_values(Seq::empty(), 0, end.points);
    assert forall|j: int| 0 <= j < cfg.sumcheck.num_rounds implies #[trigger] f(j) == 0 by {
        assert(j as nat * 0 == 0) by (nonlinear_arith);
    }
    crate::sums::lemma_fsum_zero(f, cfg.sumcheck.num_rounds as nat);
    crate::sumcheck_laws::lemma_final_sum_canonical(
        &cfg.sumcheck,
        seq![b.vector, covector],
        b.sum,
        opened,
    );
    lemma_fmul_one(end.sum);
    lemma_add_zero(end.sum);
}

/// The blinded claim holds, and its parts are canonical.
proof fn lemma_blinding(
    cfg: &Config,
    vector: Seq<int>,
    masks: Seq<int>,
    covector: Seq<int>,
    p: ProverView,
)
    requires
        cfg.wf(),
        all_canonical(vector),
        all_canonical(masks),
        all_canonical(covector),
        vector.len() == cfg.spec_size(),
        covector.len() == cfg.spec_size(),
        masks.len() == cfg.commit.num_mask_coefficients(),
        cfg.blinded(
            vector,
            masks,
            cfg.commit.encoded(seq![vector], masks),
            covector,
            dot_spec(vector, covector),
            p,
        ) is Some,
    ensures
        ({
            let b = cfg.blinded(
                vector,
                masks,
                cfg.commit.encoded(seq![vector], masks),
                covector,
                dot_spec(vector, covector),
                p,
            ).unwrap();
            &&& b.sum == dot_spec(b.vector, covector)
            &&& all_canonical(b.vector)
            &&& all_canonical(b.masks)
            &&& b.vector.len() == vector.len()
            &&& b.masks.len() == masks.len()
            &&& matrices_wf(&cfg.commit, b.matrices)
        }),
{
    broadcast use {lemma_residue_canonical, lemma_fsum_canonical};

    let c = &cfg.commit;
    lemma_encoded_wf(c, seq![vector], masks);
    match cfg.mode {
        BasecaseMode::Standard => {},
        BasecaseMode::ZeroKnowledge => {
            let blinding = challenges(p.coins, vector.len());
            lemma_challenges_len(p.coins, vector.len());
            let p1 = p.toss(vector.len());
            let bm = c.masks_of(p1);
            lemma_challenges_len(p1.coins, c.num_mask_coefficients());
            lemma_encoded_wf(c, seq![blinding], bm);
            let worked = cfg.pow.proved(
                c.committed(seq![blinding], p1).send_field(dot_spec(blinding, covector)),
            );
            let gamma = challenge(worked.sponge);
            lemma_dot_combined(blinding, vector, gamma, covector);
        },
    }
}

/// The verifier reads the blinding and what is sent in the clear, and the spot
/// checks pass.
proof fn lemma_blind_received(
    cfg: &Config,
    vector: Seq<int>,
    masks: Seq<int>,
    covector: Seq<int>,
    p: ProverView,
    q: ProverView,
    tail: Seq<u64>,
)
    requires
        cfg.wf(),
        cfg.pow.bits == 0 || !q.stuck,
        all_canonical(vector),
        all_canonical(masks),
        all_canonical(covector),
        vector.len() == cfg.spec_size(),
        covector.len() == cfg.spec_size(),
        masks.len() == cfg.commit.num_mask_coefficients(),
        ({
            let b = cfg.blinded(
                vector,
                masks,
                cfg.commit.encoded(seq![vector], masks),
                covector,
                dot_spec(vector, covector),
                p,
            );
            b is Some && follows(b.unwrap().view, q)
        }),
    ensures
        ({
            let c = &cfg.commit;
            let matrix = c.encoded(seq![vector], masks);
            let sum = dot_spec(vector, covector);
            let root = root_of(c.matrix_config().leaves(matrix));
            let b = cfg.blinded(vector, masks, matrix, covector, sum, p).unwrap();
            let r = cfg.blind_received(root, sum, pending(p, q, tail));
            &&& follows(p, b.view)
            &&& r is Some
            &&& r.unwrap().sum == b.sum
            &&& r.unwrap().roots == matrix_roots(c, b.matrices)
            &&& r.unwrap().view.read_fields(c.vector_size as nat) is Some
            &&& ({
                let (v, v1) = r.unwrap().view.read_fields(c.vector_size as nat).unwrap();
                &&& v == b.vector
                &&& v1.read_fields(c.num_mask_coefficients()) == Some(
                    (b.masks, pending(b.view, q, tail)),
                )
            })
            &&& ({
                let (points, rows, view) = c.opened(b.view, b.matrices);
                spot_checks(b.vector, b.masks, points, rows, r.unwrap().weights, points.len())
            })
        }),
{
    broadcast use {lemma_residue_canonical, lemma_fsum_canonical};

    let c = &cfg.commit;
    let matrix = c.encoded(seq![vector], masks);
    let sum = dot_spec(vector, covector);
    let root = root_of(c.matrix_config().leaves(matrix));
    let b = cfg.blinded(vector, masks, matrix, covector, sum, p).unwrap();
    lemma_blinding(cfg, vector, masks, covector, p);
    match cfg.mode {
        BasecaseMode::Standard => {
            let s1 = p.send_fields(vector);
            lemma_follows_send_fields(p, vector);
            lemma_follows_send_fields(s1, masks);
            lemma_follows_trans(p, s1, b.view);
            lemma_follows_trans(s1, b.view, q);
            law_read_fields(p, vector, q, tail);
            law_read_fields(s1, masks, q, tail);
            let vs = seq![vector];
            let ms = seq![masks];
            lemma_spot_checks(cfg, vs, ms, seq![1int], vector, masks, b.view);
            assert(b.matrices =~= Seq::new(1, |i: int| c.encoded(seq![vs[i]], ms[i])));
            assert(matrix_roots(c, b.matrices) =~= seq![root]);
        },
        BasecaseMode::ZeroKnowledge => {
            let blinding = challenges(p.coins, vector.len());
            lemma_challenges_len(p.coins, vector.len());
            let p1 = p.toss(vector.len());
            let bm = c.masks_of(p1);
            lemma_challenges_len(p1.coins, c.num_mask_coefficients());
            let bmatrix = c.encoded(seq![blinding], bm);
            let broot = root_of(c.matrix_config().leaves(bmatrix));
            let product = dot_spec(blinding, covector);
            let p2 = c.committed(seq![blinding], p1);
            let p3 = p2.send_field(product);
            let p4 = cfg.pow.proved(p3);
            let gamma = challenge(p4.sponge);
            let p5 = p4.draw();
            let p6 = p5.send_fields(b.vector);
            lemma_follows_send_fields(p5, b.vector);
            lemma_follows_send_fields(p6, b.masks);
            lemma_follows_trans(p6, b.view, q);
            lemma_follows_trans(p5, p6, q);
            assert(follows(p4, q)) by {
                lemma_follows_draw(p4, 0);
                lemma_follows_trans(p4, p5, q);
            }
            lemma_follows_pow(cfg.pow, p3);
            lemma_follows_trans(p3, p4, q);
            lemma_follows_send(p2, product as u64);
            lemma_follows_trans(p2, p3, q);
            law_irs_commit_received(c, seq![blinding], p1, q, tail);
            law_read_field(p2, product, q, tail);
            law_pow_accepted(cfg.pow, p3, q, tail);
            law_read_fields(p5, b.vector, q, tail);
            law_read_fields(p6, b.masks, q, tail);
            assert(pending(p, q, tail) == pending(p1, q, tail));
            // The prover went on all along.
            lemma_follows_draw(p, vector.len());
            lemma_follows_trans(p, p1, p2);
            lemma_follows_trans(p, p2, p3);
            lemma_follows_trans(p, p3, p4);
            lemma_follows_draw(p4, 0);
            lemma_follows_trans(p, p4, p5);
            lemma_follows_trans(p, p5, p6);
            lemma_follows_trans(p, p6, b.view);
            let vs = seq![blinding, vector];
            let ms = seq![bm, masks];
            lemma_spot_checks(cfg, vs, ms, seq![1int, gamma], b.vector, b.masks, b.view);
            assert(b.matrices =~= Seq::new(2, |i: int| c.encoded(seq![vs[i]], ms[i])));
            assert(matrix_roots(c, b.matrices) =~= seq![broot, root]);
            let ws = broot.words();
            assert(broot == (Digest { a: ws[0], b: ws[1], c: ws[2], d: ws[3] }));
        },
    }
}

/// The opening's point is canonical, with one coordinate per round.
pub proof fn lemma_opened_points(
    cfg: &Config,
    vector: Seq<int>,
    masks: Seq<int>,
    matrix: Seq<int>,
    covector: Seq<int>,
    sum: int,
    p: ProverView,
)
    requires
        cfg.spec_size() > 0,
        cfg.opened(vector, masks, matrix, covector, sum, p) is Some,
    ensures
        ({
            let o = cfg.opened(vector, masks, matrix, covector, sum, p).unwrap();
            &&& all_canonical(o.points)
            &&& o.points.len() == cfg.sumcheck.num_rounds
        }),
{
    reveal(Config::opened);
    let b = cfg.blinded(vector, masks, matrix, covector, sum, p).unwrap();
    let opened = cfg.commit.opened(b.view, b.matrices).2;
    crate::sumcheck_laws::lemma_points_canonical(
        &cfg.sumcheck,
        seq![b.vector, covector],
        b.sum,
        Seq::empty(),
        opened,
    );
}

} // verus!
