//! Laws of a round: the claim is kept, and the verifier follows.

use crate::algebra::{
    accumulated, accumulated_at, dot_spec, eq_table, evaluate, folded_all, geometric, scaled,
    zeros_spec,
};
use crate::arith::{ceil_log2_spec, is_pow2, lemma_ceil_log2_pow2};
use crate::chunks::{chunks_combined, law_evaluate_concat, law_fold_all_is_combination};
use crate::code_switch::{collapsed, update_of, update_wf, Update};
use crate::code_switch_laws::{
    law_code_switch_complete, law_code_switch_keeps_claim, lemma_accumulated_all_canonical,
    target_root,
};
use crate::field::{
    all_canonical, canonical, fadd, fmul, fpow, fsub, lemma_fmul_assoc, lemma_fmul_comm,
    lemma_fmul_one, lemma_fpow_canonical, lemma_inverse_exists, lemma_quotient,
    lemma_residue_canonical, lemma_residue_id, quotient,
};
use crate::geometric_challenge::{combination, lemma_combination_base};
use crate::irs_commit;
use crate::irs_commit::{lemma_challenges_len, lemma_index_count};
use crate::irs_laws::{
    law_encoded_row_combined, law_irs_commit_received, lemma_encoded_wf, lemma_joined_rows,
    lemma_row_canonical, lemma_rows_at, matrices_wf, matrix_roots,
};
use crate::mask_proximity::row_products;
use crate::mask_proximity_laws::law_mask_proximity_complete;
use crate::matrix_commit::{root_of, row_of, Digest};
use crate::params::config::{MaskOracleConfig, RoundConfig, RoundMode};
use crate::sumcheck::{mask_of_round, CheckState, DotProductOracle};
use crate::sumcheck_laws::{
    law_sumcheck_complete, law_sumcheck_masks, law_sumcheck_reduces_dot, lemma_dot_oracle_canonical,
    lemma_evaluate_canonical, mask_values, masked_sum,
};
use crate::sums::{
    entries, lemma_add_zero, lemma_fsum_canonical, lemma_fsum_eq, lemma_fsum_zero, total,
};
use crate::transcript::{challenges, ProverView};
use crate::transcript_laws::{
    follows, law_read_field, lemma_follows_draw, lemma_follows_send, lemma_follows_trans, pending,
};
use crate::vector_laws::{law_dot_concat, law_evaluate_is_dot, lemma_dot_zeros, lemma_eq_table_len};
use crate::zook::block::{theta_combined, BlockView, CheckBlock};
use crate::zook::combination_laws::{
    all_chunks_combined, law_theta_chunks_commute, law_theta_evaluates, lemma_theta_concat,
    lemma_theta_single, theta_values, vectors_wf,
};
use crate::zook::masks::{
    lemma_padded_len, mask_eval_sum, padded_rows, padded_values, point_rows, zk_tail_spec,
    MasksBegun,
};
use crate::zook::round::{MaskBound, RoundChecked};
use crate::zook::slot_weights::{block_values, law_slot_weights_reduce, slot_table};
use vstd::arithmetic::power2::{lemma_pow2_pos, pow2};
use vstd::prelude::*;

verus! {

/// The sizes of a round's source.
pub proof fn lemma_source_sizes(round: &RoundConfig)
    requires
        round.wf(),
    ensures
        ({
            let s = round.cs().source;
            let d = pow2(round.sc().num_rounds as nat);
            &&& s.cols() == d
            &&& s.interleaving_depth == d
            &&& s.num_mask_coefficients() == s.mode.mask_len() * d
            &&& s.vector_size == s.message_len() * d
            &&& is_pow2(s.message_len())
            &&& s.message_len() > 0
        }),
{
    let s = round.cs().source;
    let d = s.interleaving_depth as int;
    assert(d * 1 == d) by (nonlinear_arith);
    vstd::arithmetic::div_mod::lemma_fundamental_div_mod(s.vector_size as int, d);
    assert(s.vector_size == s.message_len() * (d as nat)) by (nonlinear_arith)
        requires
            s.vector_size as int == d * (s.vector_size as int / d),
            s.message_len() == s.vector_size as int / d,
    ;
    // The vector size is a power of two that the depth, one too, divides.
    let n = ceil_log2_spec(s.vector_size as nat);
    let k = round.sc().num_rounds as nat;
    lemma_pow2_pos(n);
    lemma_pow2_pos(k);
    let ml = s.message_len();
    assert(ml > 0) by (nonlinear_arith)
        requires
            s.vector_size == ml * (d as nat),
            s.vector_size > 0,
            d > 0,
    ;
    assert(d <= s.vector_size) by (nonlinear_arith)
        requires
            s.vector_size == ml * (d as nat),
            ml > 0,
            d > 0,
    ;
    if n < k {
        vstd::arithmetic::power2::lemma_pow2_strictly_increases(n, k);
    }
    crate::arith::lemma_pow2_sum((n - k) as nat, k);
    let q = pow2((n - k) as nat);
    assert(ml == q) by (nonlinear_arith)
        requires
            ml * (d as nat) == q * (d as nat),
            d > 0,
    ;
    lemma_ceil_log2_pow2((n - k) as nat);
}

/// The message of a valid block, folded.
proof fn lemma_folded_message(round: &RoundConfig, message: Seq<int>, points: Seq<int>)
    requires
        round.wf(),
        all_canonical(message),
        message.len() == round.cs().source.vector_size,
        all_canonical(points),
        points.len() == round.sc().num_rounds,
    ensures
        folded_all(message, points) == chunks_combined(
            message,
            round.cs().source.message_len(),
            eq_table(points),
        ),
{
    lemma_source_sizes(round);
    let ml = round.cs().source.message_len();
    let d = pow2(points.len());
    assert(ml * d == d * ml) by (nonlinear_arith);
    law_fold_all_is_combination(message, points, ceil_log2_spec(ml));
}

/// The opened rows of a valid block, combined, are the values of the folded message
/// followed by the folded masks.
proof fn lemma_in_domain_values(
    round: &RoundConfig,
    block: BlockView,
    vectors: Seq<Seq<int>>,
    points: Seq<int>,
    a: ProverView,
    i: int,
)
    requires
        round.wf(),
        block.valid(&round.cs().source, vectors),
        all_canonical(points),
        points.len() == round.sc().num_rounds,
        0 <= i < round.cs().source.indices(a.sponge).0.len(),
    ensures
        ({
            let s = round.cs().source;
            let (in_points, matrix, view) = s.opened(a, block.matrices);
            let w = eq_table(points);
            collapsed(matrix, slot_table(block.theta, w), in_points.len())[i] == evaluate(
                chunks_combined(block.message, s.message_len(), w) + chunks_combined(
                    theta_combined(block.theta, block.masks, s.num_mask_coefficients()),
                    s.mode.mask_len(),
                    w,
                ),
                in_points[i],
            )
        }),
{
    broadcast use {lemma_residue_canonical, lemma_fsum_canonical, lemma_fpow_canonical};

    let s = round.cs().source;
    let t = block.theta.len();
    let w = eq_table(points);
    lemma_source_sizes(round);
    lemma_eq_table_len(points);
    let d = w.len();
    let ml = s.message_len();
    let mk = s.mode.mask_len();
    let (in_points, matrix, view) = s.opened(a, block.matrices);
    let (indices, sponge) = s.indices(a.sponge);
    lemma_index_count(&s, a.sponge);
    let n = indices.len();
    let subs = s.all_rows_at(block.matrices, indices);
    let at = indices[i] as int;
    let x = s.point(at as nat);
    assert(in_points[i] == x);
    assert forall|b: int| 0 <= b < t implies all_canonical(#[trigger] subs[b]) && subs[b].len() == n * d
        && row_of(subs[b], d, i) == row_of(block.matrices[b], d, at) by {
        assert(block.matrices[b] == s.encoded(seq![vectors[b]], block.masks[b]));
        lemma_encoded_wf(&s, seq![vectors[b]], block.masks[b]);
        lemma_rows_at(block.matrices[b], s.codeword_length as nat, d, indices, n);
        assert(row_of(subs[b], d, i) == row_of(block.matrices[b], d, indices[i] as int));
    }
    lemma_joined_rows(subs, d, n, i);
    assert(i * d + d <= n * d) by (nonlinear_arith)
        requires
            i < n,
            d >= 0,
    ;
    law_slot_weights_reduce(block.theta, w, subs, i, t);
    assert(block.theta.take(t as int) =~= block.theta);
    // Every block's row is the value of its folded vector and masks.
    let va = all_chunks_combined(vectors, ml, w);
    let ma = all_chunks_combined(block.masks, mk, w);
    let polys = Seq::new(t, |b: int| va[b] + ma[b]);
    let f = block_values(block.theta, w, subs, i);
    let g = theta_values(block.theta, polys, x);
    assert(vectors_wf(polys, ml + mk)) by {
        assert forall|b: int| 0 <= b < polys.len() implies all_canonical(#[trigger] polys[b])
            && polys[b].len() == ml + mk by {
            assert(all_canonical(va[b]));
            assert(all_canonical(ma[b]));
        }
    }
    assert forall|b: int| 0 <= b < t implies #[trigger] f(b) == g(b) by {
        assert(block.matrices[b] == s.encoded(seq![vectors[b]], block.masks[b]));
        assert(all_canonical(vectors[b]) && all_canonical(block.masks[b]));
        law_encoded_row_combined(&s, vectors[b], block.masks[b], w, at);
        assert(row_of(subs[b], d, i) == row_of(block.matrices[b], d, at));
    }
    lemma_fsum_eq(f, g, t);
    law_theta_evaluates(block.theta, polys, ml + mk, x);
    assert forall|b: int| 0 <= b < t implies (#[trigger] va[b]).len() == ml by {}
    assert forall|b: int| 0 <= b < t implies (#[trigger] ma[b]).len() == mk by {}
    lemma_theta_concat(block.theta, va, ma, ml, mk);
    assert(vectors_wf(vectors, ml * d));
    assert(vectors_wf(block.masks, mk * d));
    law_theta_chunks_commute(block.theta, vectors, ml, w);
    law_theta_chunks_commute(block.theta, block.masks, mk, w);
}

/// The coefficients of an update are canonical, and match its points.
pub proof fn lemma_update_wf(cs: &crate::code_switch::Config, st: Seq<u8>, ood: Seq<int>, inn: Seq<int>)
    requires
        all_canonical(ood),
        all_canonical(inn),
    ensures
        update_wf(update_of(combination(st, 1 + ood.len() + inn.len()), ood, inn)),
{
    broadcast use {lemma_fpow_canonical, lemma_residue_canonical};

    let count = 1 + ood.len() + inn.len();
    let c = combination(st, count);
    lemma_combination_base(st, count);
    let u = update_of(c, ood, inn);
    assert forall|i: int| 0 <= i < u.ood_coeffs.len() implies canonical(#[trigger] u.ood_coeffs[i]) by {
        assert(u.ood_coeffs[i] == c[1 + i]);
    }
    assert forall|i: int| 0 <= i < u.in_coeffs.len() implies canonical(#[trigger] u.in_coeffs[i]) by {
        assert(u.in_coeffs[i] == c[1 + ood.len() + i]);
    }
}

/// The code-switch of a valid block's folded claim keeps the claim.
proof fn lemma_switch_keeps_claim(
    round: &RoundConfig,
    block: BlockView,
    vectors: Seq<Seq<int>>,
    points: Seq<int>,
    message: Seq<int>,
    poly: Seq<int>,
    covector: Seq<int>,
    sum: int,
    p: ProverView,
)
    requires
        round.wf(),
        block.valid(&round.cs().source, vectors),
        all_canonical(points),
        points.len() == round.sc().num_rounds,
        message == folded_all(block.message, points),
        all_canonical(message),
        message.len() == round.cs().source.message_len(),
        all_canonical(poly),
        poly.len() == round.cs().mask_len(),
        poly.take(round.cs().source.mode.mask_len() as int) == chunks_combined(
            theta_combined(
                block.theta,
                block.masks,
                round.cs().source.num_mask_coefficients(),
            ),
            round.cs().source.mode.mask_len(),
            eq_table(points),
        ),
        all_canonical(covector),
        covector.len() == round.cs().covector_len(),
        sum == dot_spec(message + poly, covector),
    ensures
        ({
            let s = round.switched_block(message, poly, block, points, sum, p);
            let next = round.cs().updated_covector(covector, s.update);
            &&& s.sum == dot_spec(message + poly, next)
            &&& all_canonical(next)
            &&& next.len() == covector.len()
            &&& update_wf(s.update)
        }),
{
    broadcast use lemma_fpow_canonical;

    reveal(RoundConfig::switched_block);
    let cs = round.cs();
    let src = cs.source;
    let weights = slot_table(block.theta, eq_table(points));
    let s = cs.switched(message, poly, block.matrices, weights, sum, p);
    let worked = cs.target_committed(message, p);
    let n = cs.out_domain_samples as nat;
    let ood = challenges(worked.sponge, n);
    lemma_challenges_len(worked.sponge, n);
    let answers = cs.ood_answers(message, poly, ood);
    let answered = worked.draw_many(n).send_fields(answers);
    let (in_points, matrix, opened) = src.opened(answered, block.matrices);
    assert(all_canonical(in_points)) by {
        assert forall|i: int| 0 <= i < in_points.len() implies canonical(#[trigger] in_points[i]) by {}
    }
    lemma_update_wf(&cs, opened.sponge, ood, in_points);
    let values = collapsed(matrix, weights, in_points.len());
    let mk = src.mode.mask_len() as int;
    lemma_folded_message(round, block.message, points);
    assert((message + poly).take(src.masked_len() as int) =~= message + poly.take(mk));
    assert forall|i: int| 0 <= i < values.len() implies #[trigger] values[i] == evaluate(
        (message + poly).take(src.masked_len() as int),
        s.update.in_points[i],
    ) by {
        lemma_in_domain_values(round, block, vectors, points, answered, i);
    }
    law_code_switch_keeps_claim(&cs, message, poly, covector, sum, s.update, values);
}

/// A padded mask has the value of the mask.
proof fn lemma_padded_value(coefs: Seq<int>, poly_len: nat, size: nat, k: nat, count: nat, i: int, x: int)
    requires
        0 <= i < k <= count,
        poly_len <= size,
        coefs.len() == count * poly_len,
        all_canonical(coefs),
        canonical(x),
    ensures
        row_of(padded_rows(coefs, poly_len, size, k), size, i) == row_of(coefs, poly_len, i)
            + zeros_spec((size - poly_len) as nat),
        evaluate(row_of(padded_rows(coefs, poly_len, size, k), size, i), x) == evaluate(
            row_of(coefs, poly_len, i),
            x,
        ),
    decreases k,
{
    broadcast use {lemma_fpow_canonical, lemma_residue_canonical, lemma_evaluate_canonical};

    let m = (k - 1) as nat;
    let all = padded_rows(coefs, poly_len, size, k);
    let before = padded_rows(coefs, poly_len, size, m);
    lemma_padded_len(coefs, poly_len, size, m, count);
    lemma_padded_len(coefs, poly_len, size, k, count);
    assert(coefs.len() == poly_len * count) by (nonlinear_arith)
        requires
            coefs.len() == count * poly_len,
    ;
    lemma_row_canonical(coefs, poly_len, count, i);
    assert(i * size >= 0) by (nonlinear_arith)
        requires
            i >= 0,
            size >= 0,
    ;
    let row = row_of(coefs, poly_len, i);
    let z = zeros_spec((size - poly_len) as nat);
    if i < m {
        lemma_padded_value(coefs, poly_len, size, m, count, i, x);
        assert(i * size + size <= m * size) by (nonlinear_arith)
            requires
                i < m,
                size >= 0,
        ;
        assert(row_of(all, size, i) =~= row_of(before, size, i));
    } else {
        assert(row_of(all, size, i) =~= row + z);
        assert(all_canonical(z));
        law_evaluate_concat(row, z, x);
        law_evaluate_is_dot(z, x);
        let g = geometric(1, x, z.len());
        crate::vector_laws::law_dot_commutes(z, g);
        lemma_dot_zeros(g, z.len());
        let p = fpow(x, row.len());
        assert(p * 0 == 0) by (nonlinear_arith);
        lemma_residue_id(0);
        lemma_add_zero(evaluate(row, x));
    }
}

/// Padded masks are canonical.
proof fn lemma_padded_canonical(coefs: Seq<int>, poly_len: nat, size: nat, k: nat, count: nat)
    requires
        k <= count,
        poly_len <= size,
        coefs.len() == count * poly_len,
        all_canonical(coefs),
    ensures
        all_canonical(padded_rows(coefs, poly_len, size, k)),
    decreases k,
{
    if k > 0 {
        let m = (k - 1) as nat;
        lemma_padded_canonical(coefs, poly_len, size, m, count);
        assert(coefs.len() == poly_len * count) by (nonlinear_arith)
            requires
                coefs.len() == count * poly_len,
        ;
        lemma_row_canonical(coefs, poly_len, count, m as int);
        let before = padded_rows(coefs, poly_len, size, m);
        let row = row_of(coefs, poly_len, m as int);
        let z = zeros_spec((size - poly_len) as nat);
        let all = padded_rows(coefs, poly_len, size, k);
        assert forall|i: int| 0 <= i < all.len() implies canonical(#[trigger] all[i]) by {
            if i < before.len() {
                assert(canonical(before[i]));
            } else if i < before.len() + row.len() {
                assert(canonical(row[i - before.len()]));
            }
        }
    }
}

/// What a prover in state `p` starts a zero-knowledge round with.
pub proof fn lemma_masks_begun(round: &RoundConfig, mo: MaskOracleConfig, p: ProverView)
    requires
        round.wf(),
        round.mode matches RoundMode::ZeroKnowledge { t_ood, mask_oracle } && mask_oracle == mo,
    ensures
        ({
            let b = round.masks_begun(mo, p);
            let sm = mo.sumcheck_masks.config;
            &&& all_canonical(b.coefs) && b.coefs.len() == round.num_coefs()
            &&& all_canonical(b.padded) && b.padded.len() == sm.flat_len()
            &&& all_canonical(b.fresh) && b.fresh.len() == sm.flat_len()
            &&& all_canonical(b.irs_masks) && b.irs_masks.len() == sm.c_zk_commit.num_mask_coefficients()
            &&& all_canonical(b.padding) && b.padding.len() == round.padding_len(mo)
            &&& b.matrix == sm.c_zk_commit.encoded(sm.vectors(b.padded, b.fresh), b.irs_masks)
        }),
{
    let sm = mo.sumcheck_masks.config;
    let b = round.masks_begun(mo, p);
    let k = round.sc().num_rounds as nat;
    let p1 = p.toss(round.num_coefs());
    lemma_challenges_len(p.coins, round.num_coefs());
    lemma_challenges_len(p1.coins, sm.flat_len());
    lemma_challenges_len(p1.toss(sm.flat_len()).coins, sm.c_zk_commit.num_mask_coefficients());
    lemma_challenges_len(sm.committed(b.padded, p1).coins, round.padding_len(mo));
    lemma_padded_len(b.coefs, round.sc().mask_len(), sm.size(), k, k);
    lemma_padded_canonical(b.coefs, round.sc().mask_len(), sm.size(), k, k);
}

/// The masks' share of the running sum is the sum of the padded masks' values.
proof fn lemma_delta(round: &RoundConfig, mo: MaskOracleConfig, block: BlockView, p: ProverView)
    requires
        round.wf(),
        round.mode matches RoundMode::ZeroKnowledge { t_ood, mask_oracle } && mask_oracle == mo,
        canonical(block.sum),
    ensures
        ({
            let b = round.masks_begun(mo, p);
            let (end, rlc) = round.folded_block(block, b.coefs, b.view);
            &&& end.mask_sum == mask_eval_sum(
                b.padded,
                mo.sumcheck_masks.config.size(),
                end.points,
            )
            &&& end.points.len() == round.sc().num_rounds
        }),
{
    reveal(RoundConfig::folded_block);
    let b = round.masks_begun(mo, p);
    let sc = round.sc();
    let size = mo.sumcheck_masks.config.size();
    lemma_masks_begun(round, mo, p);
    lemma_dot_oracle_canonical();
    let tables = seq![block.message, block.covector];
    law_sumcheck_masks::<DotProductOracle>(&sc, tables, block.sum, b.coefs, b.view);
    let (end, rlc) = round.folded_block(block, b.coefs, b.view);
    let n = sc.num_rounds as nat;
    let f = mask_values(b.coefs, sc.mask_len(), end.points);
    let g = padded_values(b.padded, size, end.points);
    crate::sumcheck_laws::lemma_points_canonical(&sc, tables, block.sum, b.coefs, b.view);
    assert forall|i: int| 0 <= i < n implies #[trigger] f(i) == g(i) by {
        assert(canonical(end.points[i]));
        lemma_padded_value(b.coefs, sc.mask_len(), size, n, n, i, end.points[i]);
        assert(mask_of_round(b.coefs, sc.mask_len(), i as nat) == row_of(
            b.coefs,
            sc.mask_len(),
            i,
        ));
    }
    lemma_fsum_eq(f, g, n);
}

/// Taking the masks out of the running sum leaves the sum without masks.
proof fn lemma_reconcile(delta: int, rlc: int, sum: int)
    requires
        canonical(delta),
        0 < rlc < crate::field::MODULUS,
        canonical(sum),
    ensures
        fmul(fsub(fadd(delta, fmul(rlc, sum)), delta), quotient(1, rlc)) == sum,
{
    broadcast use lemma_residue_canonical;

    let inv = lemma_inverse_exists(rlc);
    lemma_fmul_comm(rlc, inv);
    lemma_quotient(1, rlc, inv);
    let rs = fmul(rlc, sum);
    lemma_residue_id(delta);
    lemma_residue_id(rs);
    crate::field::lemma_residue_add(delta, rs);
    crate::field::lemma_residue_sub(delta + rs, delta);
    assert(fsub(fadd(delta, rs), delta) == rs);
    lemma_fmul_comm(rlc, sum);
    lemma_fmul_assoc(sum, rlc, inv);
    lemma_fmul_one(sum);
}

/// The sumcheck of a valid block.
proof fn lemma_folded_claim(
    round: &RoundConfig,
    block: BlockView,
    vectors: Seq<Seq<int>>,
    coefs: Seq<int>,
    p: ProverView,
)
    requires
        round.wf(),
        block.valid(&round.cs().source, vectors),
    ensures
        ({
            let (end, rlc) = round.folded_block(block, coefs, p);
            &&& end.sum == dot_spec(end.tables[0], end.tables[1])
            &&& end.points.len() == round.sc().num_rounds
            &&& all_canonical(end.points)
            &&& end.tables[0] == folded_all(block.message, end.points)
            &&& all_canonical(end.tables[0])
            &&& all_canonical(end.tables[1])
            &&& end.tables[0].len() == round.cs().source.message_len()
            &&& end.tables[1].len() == round.cs().source.message_len()
            &&& canonical(rlc)
        }),
{
    reveal(RoundConfig::folded_block);
    law_sumcheck_reduces_dot(&round.sc(), block.message, block.covector, coefs, p);
    crate::sumcheck_laws::lemma_points_canonical(
        &round.sc(),
        seq![block.message, block.covector],
        block.sum,
        coefs,
        p,
    );
}

/// The block that a code-switch leaves is valid where its claim holds.
proof fn lemma_next_block_valid(
    round: &RoundConfig,
    message: Seq<int>,
    covector: Seq<int>,
    sum: int,
    before: ProverView,
)
    requires
        round.wf(),
        all_canonical(message),
        all_canonical(covector),
        message.len() == round.cs().source.message_len(),
        covector.len() == round.cs().source.message_len(),
        sum == dot_spec(message, covector),
    ensures
        round.next_block(message, covector, sum, before).valid(&round.cs().target, seq![message]),
{
    lemma_challenges_len(before.coins, round.cs().target.num_mask_coefficients());
    lemma_theta_single(message);
}

/// A standard round keeps the claim.
proof fn lemma_plain_round_keeps_claim(
    round: &RoundConfig,
    block: BlockView,
    vectors: Seq<Seq<int>>,
    p: ProverView,
)
    requires
        round.wf(),
        round.mode is Standard,
        block.valid(&round.cs().source, vectors),
    ensures
        ({
            let o = round.plain_round(block, p);
            &&& o.block.valid(&round.cs().target, seq![o.block.message])
            &&& update_wf(o.update)
            &&& all_canonical(o.points)
            &&& o.points.len() == round.sc().num_rounds
        }),
{
    broadcast use {lemma_residue_canonical, lemma_fsum_canonical};

    let (end, rlc) = round.folded_block(block, Seq::empty(), p);
    lemma_folded_claim(round, block, vectors, Seq::empty(), p);
    // Without masks the running sum is the claim.
    assert(masked_sum(end, rlc) == end.sum) by {
        reveal(RoundConfig::folded_block);
        let sc = round.sc();
        assert(sc.num_rounds * 0 == 0) by (nonlinear_arith);
        lemma_dot_oracle_canonical();
        law_sumcheck_masks::<DotProductOracle>(
            &sc,
            seq![block.message, block.covector],
            block.sum,
            Seq::empty(),
            p,
        );
        let f = mask_values(Seq::empty(), 0, end.points);
        assert forall|j: int| 0 <= j < sc.num_rounds implies #[trigger] f(j) == 0 by {
            assert(j as nat * 0 == 0) by (nonlinear_arith);
        }
        lemma_fsum_zero(f, sc.num_rounds as nat);
        lemma_fmul_one(end.sum);
        lemma_add_zero(end.sum);
    }
    let message = end.tables[0];
    let none = Seq::<int>::empty();
    assert(message + none =~= message);
    let cov = end.tables[1];
    let mk = round.cs().source.mode.mask_len();
    let masks = chunks_combined(
        theta_combined(block.theta, block.masks, round.cs().source.num_mask_coefficients()),
        mk,
        eq_table(end.points),
    );
    assert(none.take(0) =~= masks);
    lemma_switch_keeps_claim(round, block, vectors, end.points, message, none, cov, end.sum, end.view);
    let s = round.switched_block(message, none, block, end.points, end.sum, end.view);
    lemma_next_block_valid(
        round,
        message,
        round.cs().updated_covector(cov, s.update),
        s.sum,
        end.view,
    );
}

/// The combined and folded masks, then the fresh ones, are canonical.
proof fn lemma_poly(
    round: &RoundConfig,
    mo: MaskOracleConfig,
    block: BlockView,
    vectors: Seq<Seq<int>>,
    points: Seq<int>,
    padding: Seq<int>,
)
    requires
        round.wf(),
        round.mode matches RoundMode::ZeroKnowledge { t_ood, mask_oracle } && mask_oracle == mo,
        all_canonical(padding),
        padding.len() == round.padding_len(mo),
    ensures
        ({
            let poly = round.cs_mask_poly(block, points, padding);
            let mk = round.cs().source.mode.mask_len();
            &&& all_canonical(poly)
            &&& poly.len() == mo.l_zk
            &&& poly.take(mk as int) == chunks_combined(
                theta_combined(
                    block.theta,
                    block.masks,
                    round.cs().source.num_mask_coefficients(),
                ),
                mk,
                eq_table(points),
            )
        }),
{
    broadcast use lemma_fsum_canonical;

    let mk = round.cs().source.mode.mask_len();
    let head = chunks_combined(
        theta_combined(block.theta, block.masks, round.cs().source.num_mask_coefficients()),
        mk,
        eq_table(points),
    );
    let poly = round.cs_mask_poly(block, points, padding);
    assert(poly.take(mk as int) =~= head);
    assert forall|i: int| 0 <= i < poly.len() implies canonical(#[trigger] poly[i]) by {
        if i >= mk {
            assert(canonical(padding[i - mk]));
        } else {
            assert(poly[i] == head[i]);
        }
    }
}

/// A zero-knowledge round before the code-switch: the claim without masks.
proof fn lemma_mask_bound(
    round: &RoundConfig,
    mo: MaskOracleConfig,
    block: BlockView,
    vectors: Seq<Seq<int>>,
    p: ProverView,
)
    requires
        round.wf(),
        round.mode matches RoundMode::ZeroKnowledge { t_ood, mask_oracle } && mask_oracle == mo,
        block.valid(&round.cs().source, vectors),
        round.mask_bound(mo, round.masks_begun(mo, p), block) is Some,
    ensures
        ({
            let m = round.mask_bound(mo, round.masks_begun(mo, p), block).unwrap();
            &&& m.sum == dot_spec(m.message, m.covector)
            &&& m.message == folded_all(block.message, m.points)
            &&& all_canonical(m.message)
            &&& all_canonical(m.covector)
            &&& all_canonical(m.points)
            &&& m.points.len() == round.sc().num_rounds
            &&& m.message.len() == round.cs().source.message_len()
            &&& m.covector.len() == round.cs().source.message_len()
        }),
{
    broadcast use {lemma_residue_canonical, lemma_fsum_canonical};

    let b = round.masks_begun(mo, p);
    let (end, rlc) = round.folded_block(block, b.coefs, b.view);
    lemma_folded_claim(round, block, vectors, b.coefs, b.view);
    lemma_delta(round, mo, block, p);
    lemma_reconcile(end.mask_sum, rlc, end.sum);
}

/// A zero-knowledge round keeps the claim.
#[verifier::rlimit(30)]
proof fn lemma_masked_round_keeps_claim(
    round: &RoundConfig,
    mo: MaskOracleConfig,
    block: BlockView,
    vectors: Seq<Seq<int>>,
    p: ProverView,
)
    requires
        round.wf(),
        round.mode matches RoundMode::ZeroKnowledge { t_ood, mask_oracle } && mask_oracle == mo,
        block.valid(&round.cs().source, vectors),
        round.mask_bound(mo, round.masks_begun(mo, p), block) is Some,
    ensures
        ({
            let b = round.masks_begun(mo, p);
            let m = round.mask_bound(mo, b, block).unwrap();
            let o = round.masked_switch(mo, b, m, block);
            &&& o.block.valid(&round.cs().target, seq![o.block.message])
            &&& update_wf(o.update)
            &&& all_canonical(o.points)
            &&& o.points.len() == round.sc().num_rounds
        }),
{
    broadcast use {lemma_residue_canonical, lemma_fsum_canonical};

    let b = round.masks_begun(mo, p);
    let m = round.mask_bound(mo, b, block).unwrap();
    lemma_masks_begun(round, mo, p);
    lemma_mask_bound(round, mo, block, vectors, p);
    lemma_poly(round, mo, block, vectors, m.points, b.padding);
    let z = zeros_spec(mo.l_zk as nat);
    let cov = m.covector + z;
    assert(all_canonical(cov));
    law_dot_concat(m.message, m.poly, m.covector, z);
    lemma_dot_zeros(m.poly, mo.l_zk as nat);
    lemma_add_zero(m.sum);
    lemma_switch_keeps_claim(
        round,
        block,
        vectors,
        m.points,
        m.message,
        m.poly,
        cov,
        m.sum,
        m.view,
    );
    let s = round.switched_block(m.message, m.poly, block, m.points, m.sum, m.view);
    let next = round.cs().updated_covector(cov, s.update);
    let n = m.message.len() as int;
    lemma_split_claim(m.message, m.poly, next);
    lemma_next_block_valid(
        round,
        m.message,
        next.take(n),
        fsub(s.sum, dot_spec(m.poly, next.skip(n))),
        m.view,
    );
}

/// Taking the mask's share out of a claim leaves the message's.
proof fn lemma_split_claim(message: Seq<int>, poly: Seq<int>, covector: Seq<int>)
    requires
        all_canonical(covector),
        covector.len() == message.len() + poly.len(),
    ensures
        ({
            let n = message.len() as int;
            &&& fsub(
                dot_spec(message + poly, covector),
                dot_spec(poly, covector.skip(n)),
            ) == dot_spec(message, covector.take(n))
            &&& all_canonical(covector.take(n))
        }),
{
    broadcast use lemma_fsum_canonical;

    let n = message.len() as int;
    let (n1, n2) = (covector.take(n), covector.skip(n));
    assert(covector =~= n1 + n2);
    law_dot_concat(message, poly, n1, n2);
    let (d1, d2) = (dot_spec(message, n1), dot_spec(poly, n2));
    lemma_residue_id(d1);
    lemma_residue_id(d2);
    crate::field::lemma_residue_add(d1, d2);
    crate::field::lemma_residue_sub(d1 + d2, d2);
    assert forall|i: int| 0 <= i < n1.len() implies canonical(#[trigger] n1[i]) by {
        assert(canonical(covector[i]));
    }
}

/// A round keeps the claim: from a block whose claim holds and whose commitments are
/// to vectors that combine to its message, the next block is such a block again, for
/// the round's target code.
pub proof fn law_round_keeps_claim(
    round: &RoundConfig,
    block: BlockView,
    vectors: Seq<Seq<int>>,
    p: ProverView,
)
    requires
        round.wf(),
        block.valid(&round.cs().source, vectors),
        round.round_proved(block, p) is Some,
    ensures
        ({
            let o = round.round_proved(block, p).unwrap();
            &&& o.block.valid(&round.cs().target, seq![o.block.message])
            &&& update_wf(o.update)
            &&& all_canonical(o.points)
            &&& o.points.len() == round.sc().num_rounds
        }),
{
    reveal(RoundConfig::round_proved);
    match round.mode {
        RoundMode::Standard => {
            lemma_plain_round_keeps_claim(round, block, vectors, p);
        },
        RoundMode::ZeroKnowledge { t_ood, mask_oracle } => {
            lemma_masked_round_keeps_claim(round, mask_oracle, block, vectors, p);
        },
    }
}

/// The verifier's view of a block.
pub open spec fn check_block(block: BlockView, source: &irs_commit::Config) -> CheckBlock {
    CheckBlock {
        sum: block.sum,
        roots: matrix_roots(source, block.matrices),
        theta: block.theta,
    }
}

/// The matrices of a valid block are of the source's size.
proof fn lemma_block_matrices(source: &irs_commit::Config, block: BlockView, vectors: Seq<Seq<int>>)
    requires
        source.wf(),
        block.valid(source, vectors),
    ensures
        matrices_wf(source, block.matrices),
{
    assert forall|b: int| 0 <= b < block.matrices.len() implies all_canonical(
        #[trigger] block.matrices[b],
    ) && block.matrices[b].len() == source.codeword_length * source.cols() by {
        lemma_encoded_wf(source, seq![vectors[b]], block.masks[b]);
    }
}

/// The verifier follows the sumcheck of a block.
proof fn lemma_fold_followed(
    round: &RoundConfig,
    block: BlockView,
    coefs: Seq<int>,
    p: ProverView,
    q: ProverView,
    tail: Seq<u64>,
)
    requires
        round.wf(),
        round.free() || !q.stuck,
        canonical(block.sum),
        coefs.len() == round.num_coefs(),
        all_canonical(coefs),
        follows(round.folded_block(block, coefs, p).0.view, q),
    ensures
        ({
            let (end, rlc) = round.folded_block(block, coefs, p);
            &&& follows(p, end.view)
            &&& round.sc().checked(block.sum, pending(p, q, tail)) == Some(
                (
                    CheckState {
                        sum: masked_sum(end, rlc),
                        points: end.points,
                        view: pending(end.view, q, tail),
                    },
                    rlc,
                ),
            )
        }),
{
    reveal(RoundConfig::folded_block);
    lemma_dot_oracle_canonical();
    law_sumcheck_complete::<DotProductOracle>(
        &round.sc(),
        seq![block.message, block.covector],
        block.sum,
        coefs,
        p,
        q,
        tail,
    );
}

/// The verifier follows the code-switch of a block.
proof fn lemma_switch_followed(
    round: &RoundConfig,
    message: Seq<int>,
    mask: Seq<int>,
    block: BlockView,
    points: Seq<int>,
    sum: int,
    p: ProverView,
    q: ProverView,
    tail: Seq<u64>,
)
    requires
        round.wf(),
        round.free() || !q.stuck,
        matrices_wf(&round.cs().source, block.matrices),
        follows(round.switched_block(message, mask, block, points, sum, p).view, q),
    ensures
        ({
            let s = round.switched_block(message, mask, block, points, sum, p);
            &&& follows(p, s.view)
            &&& round.cs().switch_checked(
                matrix_roots(&round.cs().source, block.matrices),
                slot_table(block.theta, eq_table(points)),
                sum,
                pending(p, q, tail),
            ) == Some(
                crate::code_switch::SwitchChecked {
                    root: target_root(&round.cs(), message, p),
                    sum: s.sum,
                    update: s.update,
                    view: pending(s.view, q, tail),
                },
            )
        }),
{
    reveal(RoundConfig::switched_block);
    law_code_switch_complete(
        &round.cs(),
        message,
        mask,
        block.matrices,
        slot_table(block.theta, eq_table(points)),
        sum,
        p,
        q,
        tail,
    );
}

/// The verifier's view of the next block.
proof fn lemma_next_check_block(
    round: &RoundConfig,
    message: Seq<int>,
    covector: Seq<int>,
    sum: int,
    before: ProverView,
)
    ensures
        check_block(
            round.next_block(message, covector, sum, before),
            &round.cs().target,
        ) == (CheckBlock {
            sum,
            roots: seq![target_root(&round.cs(), message, before)],
            theta: seq![1int],
        }),
{
    let next = round.next_block(message, covector, sum, before);
    assert(matrix_roots(&round.cs().target, next.matrices) =~= seq![
        target_root(&round.cs(), message, before),
    ]);
}

/// The verifier follows a standard round.
proof fn lemma_plain_round_followed(
    round: &RoundConfig,
    block: BlockView,
    vectors: Seq<Seq<int>>,
    p: ProverView,
    q: ProverView,
    tail: Seq<u64>,
)
    requires
        round.wf(),
        round.free() || !q.stuck,
        round.mode is Standard,
        block.valid(&round.cs().source, vectors),
        follows(round.plain_round(block, p).view, q),
    ensures
        ({
            let o = round.plain_round(block, p);
            &&& follows(p, o.view)
            &&& round.plain_round_checked(
                check_block(block, &round.cs().source),
                pending(p, q, tail),
            ) == Some(
                RoundChecked {
                    block: check_block(o.block, &round.cs().target),
                    points: o.points,
                    update: o.update,
                    view: pending(o.view, q, tail),
                },
            )
        }),
{
    broadcast use lemma_fsum_canonical;

    let none = Seq::<int>::empty();
    let (end, rlc) = round.folded_block(block, none, p);
    let sum = masked_sum(end, rlc);
    let s = round.switched_block(end.tables[0], none, block, end.points, sum, end.view);
    assert(round.sc().num_rounds * 0 == 0) by (nonlinear_arith);
    lemma_block_matrices(&round.cs().source, block, vectors);
    lemma_switch_followed(round, end.tables[0], none, block, end.points, sum, end.view, q, tail);
    lemma_follows_trans(end.view, s.view, q);
    lemma_fold_followed(round, block, none, p, q, tail);
    lemma_follows_trans(p, end.view, s.view);
    lemma_next_check_block(
        round,
        end.tables[0],
        round.cs().updated_covector(end.tables[1], s.update),
        s.sum,
        end.view,
    );
}

/// The rows of the points' powers.
proof fn lemma_point_rows(points: Seq<int>, size: nat, k: nat)
    requires
        k <= points.len(),
    ensures
        point_rows(points, size, k).len() == k * size,
        all_canonical(point_rows(points, size, k)),
        forall|i: int|
            0 <= i < k ==> row_of(point_rows(points, size, k), size, i) == geometric(
                1,
                #[trigger] points[i],
                size,
            ),
    decreases k,
{
    broadcast use lemma_residue_canonical;

    let all = point_rows(points, size, k);
    if k > 0 {
        let m = (k - 1) as nat;
        lemma_point_rows(points, size, m);
        let before = point_rows(points, size, m);
        let last = geometric(1, points[m as int], size);
        assert(k * size == m * size + size) by (nonlinear_arith)
            requires
                k == m + 1,
        ;
        assert forall|i: int| 0 <= i < all.len() implies canonical(#[trigger] all[i]) by {
            if i < before.len() {
                assert(canonical(before[i]));
            } else {
                assert(all[i] == last[i - before.len()]);
            }
        }
        assert forall|i: int| 0 <= i < k implies row_of(all, size, i) == geometric(
            1,
            #[trigger] points[i],
            size,
        ) by {
            assert(i * size >= 0) by (nonlinear_arith)
                requires
                    i >= 0,
                    size >= 0,
            ;
            if i < m {
                assert(i * size + size <= m * size) by (nonlinear_arith)
                    requires
                        i < m,
                        size >= 0,
                ;
                assert(row_of(all, size, i) =~= row_of(before, size, i));
            } else {
                assert(row_of(all, size, i) =~= last);
            }
        }
    } else {
        assert(0 * size == 0) by (nonlinear_arith);
    }
}

/// The masks' inner products with the points' powers add up to the sum of their
/// values.
proof fn lemma_products_total(padded: Seq<int>, size: nat, points: Seq<int>)
    requires
        all_canonical(padded),
        all_canonical(points),
        padded.len() == points.len() * size,
    ensures
        total(row_products(padded, point_rows(points, size, points.len()), size, points.len()))
            == mask_eval_sum(padded, size, points),
{
    let k = points.len();
    let rows = point_rows(points, size, k);
    lemma_point_rows(points, size, k);
    let xs = row_products(padded, rows, size, k);
    let f = entries(xs);
    let g = padded_values(padded, size, points);
    assert(padded.len() == size * k) by (nonlinear_arith)
        requires
            padded.len() == k * size,
    ;
    assert forall|i: int| 0 <= i < k implies #[trigger] f(i) == g(i) by {
        lemma_row_canonical(padded, size, k, i);
        assert(canonical(points[i]));
        law_evaluate_is_dot(row_of(padded, size, i), points[i]);
        assert(row_of(rows, size, i) == geometric(1, points[i], size));
    }
    lemma_fsum_eq(f, g, k);
}

/// The part of the updated covector that meets the mask is what the verifier
/// computes.
proof fn lemma_zk_tail(round: &RoundConfig, mo: MaskOracleConfig, covector: Seq<int>, u: Update)
    requires
        round.wf(),
        round.mode matches RoundMode::ZeroKnowledge { t_ood, mask_oracle } && mask_oracle == mo,
        covector.len() == round.cs().source.message_len(),
    ensures
        ({
            let n = round.cs().source.message_len();
            round.cs().updated_covector(covector + zeros_spec(mo.l_zk as nat), u).skip(n as int)
                == zk_tail_spec(u, n, mo.l_zk as nat, round.cs().source.mode.mask_len())
        }),
{
    let n = round.cs().source.message_len();
    let mk = round.cs().source.mode.mask_len();
    let cov = covector + zeros_spec(mo.l_zk as nat);
    let next = round.cs().updated_covector(cov, u);
    let want = zk_tail_spec(u, n, mo.l_zk as nat, mk);
    let got = next.skip(n as int);
    assert forall|l: int| 0 <= l < mo.l_zk implies got[l] == want[l] by {
        let i = n + l;
        assert(cov[i] == 0);
        assert(u.scale * 0 == 0) by (nonlinear_arith);
        lemma_residue_id(0);
        let base = scaled(cov, u.scale);
        assert(base[i] == 0);
        let mid = accumulated(base, u.ood_coeffs, u.ood_points, cov.len());
        assert(mid[i] == accumulated_at(0, u.ood_coeffs, u.ood_points, i as nat, u.ood_points.len()));
    }
    assert(got =~= want);
}

/// The verifier follows the openings of the masks.
proof fn lemma_masks_followed(
    round: &RoundConfig,
    mo: MaskOracleConfig,
    b: MasksBegun,
    m: MaskBound,
    s: crate::code_switch::Switched,
    root: Digest,
    q: ProverView,
    tail: Seq<u64>,
)
    requires
        round.wf(),
        round.free() || !q.stuck,
        round.mode matches RoundMode::ZeroKnowledge { t_ood, mask_oracle } && mask_oracle == mo,
        all_canonical(b.padded) && b.padded.len() == mo.sumcheck_masks.config.flat_len(),
        all_canonical(b.fresh) && b.fresh.len() == mo.sumcheck_masks.config.flat_len(),
        all_canonical(b.irs_masks) && b.irs_masks.len()
            == mo.sumcheck_masks.config.c_zk_commit.num_mask_coefficients(),
        b.matrix == mo.sumcheck_masks.config.c_zk_commit.encoded(
            mo.sumcheck_masks.config.vectors(b.padded, b.fresh),
            b.irs_masks,
        ),
        all_canonical(m.points) && m.points.len() == round.sc().num_rounds,
        all_canonical(m.poly) && m.poly.len() == mo.l_zk,
        all_canonical(m.fresh) && m.fresh.len() == mo.cs_mask.config.flat_len(),
        all_canonical(m.irs_masks) && m.irs_masks.len()
            == mo.cs_mask.config.c_zk_commit.num_mask_coefficients(),
        m.matrix == mo.cs_mask.config.c_zk_commit.encoded(
            mo.cs_mask.config.vectors(m.poly, m.fresh),
            m.irs_masks,
        ),
        all_canonical(m.covector) && m.covector.len() == round.cs().source.message_len(),
        m.message.len() == round.cs().source.message_len(),
        update_wf(s.update),
        ({
            let sm = mo.sumcheck_masks.config;
            let region = round.cs().updated_covector(
                m.covector + zeros_spec(mo.l_zk as nat),
                s.update,
            ).skip(m.message.len() as int);
            let v1 = sm.proved(
                b.padded,
                b.fresh,
                b.irs_masks,
                b.matrix,
                point_rows(m.points, sm.size(), m.points.len()),
                s.view,
            );
            follows(
                mo.cs_mask.config.proved(m.poly, m.fresh, m.irs_masks, m.matrix, region, v1),
                q,
            )
        }),
    ensures
        ({
            let sm = mo.sumcheck_masks.config;
            let cm = mo.cs_mask.config;
            let region = round.cs().updated_covector(
                m.covector + zeros_spec(mo.l_zk as nat),
                s.update,
            ).skip(m.message.len() as int);
            let v1 = sm.proved(
                b.padded,
                b.fresh,
                b.irs_masks,
                b.matrix,
                point_rows(m.points, sm.size(), m.points.len()),
                s.view,
            );
            let end = cm.proved(m.poly, m.fresh, m.irs_masks, m.matrix, region, v1);
            &&& follows(s.view, end)
            &&& round.discharged(
                mo,
                root_of(sm.c_zk_commit.matrix_config().leaves(b.matrix)),
                root_of(cm.c_zk_commit.matrix_config().leaves(m.matrix)),
                mask_eval_sum(b.padded, sm.size(), m.points),
                m.points,
                crate::code_switch::SwitchChecked {
                    root,
                    sum: s.sum,
                    update: s.update,
                    view: pending(s.view, q, tail),
                },
            ) == Some((fsub(s.sum, dot_spec(m.poly, region)), pending(end, q, tail)))
        }),
{
    let sm = mo.sumcheck_masks.config;
    let cm = mo.cs_mask.config;
    let n = m.message.len();
    let region = round.cs().updated_covector(
        m.covector + zeros_spec(mo.l_zk as nat),
        s.update,
    ).skip(n as int);
    let rows = point_rows(m.points, sm.size(), m.points.len());
    let v1 = sm.proved(b.padded, b.fresh, b.irs_masks, b.matrix, rows, s.view);
    let end = cm.proved(m.poly, m.fresh, m.irs_masks, m.matrix, region, v1);
    lemma_zk_tail(round, mo, m.covector, s.update);
    lemma_point_rows(m.points, sm.size(), m.points.len());
    assert(region.len() == mo.l_zk);
    assert(all_canonical(region)) by {
        lemma_region_canonical(round, mo, m.covector, s.update);
    }
    assert(1 * cm.size() == cm.size()) by (nonlinear_arith);
    law_mask_proximity_complete(&cm, m.poly, m.fresh, m.irs_masks, region, v1, q, tail);
    lemma_follows_trans(v1, end, q);
    law_mask_proximity_complete(&sm, b.padded, b.fresh, b.irs_masks, rows, s.view, q, tail);
    lemma_follows_trans(s.view, v1, end);
    lemma_products_total(b.padded, sm.size(), m.points);
    let ys = row_products(m.poly, region, cm.size(), 1);
    assert(0 * cm.size() == 0) by (nonlinear_arith);
    assert(row_of(m.poly, cm.size(), 0) =~= m.poly);
    assert(row_of(region, cm.size(), 0) =~= region);
    assert(ys[0] == dot_spec(m.poly, region));
}

/// The updated covector is canonical.
proof fn lemma_region_canonical(round: &RoundConfig, mo: MaskOracleConfig, covector: Seq<int>, u: Update)
    requires
        round.wf(),
        round.mode matches RoundMode::ZeroKnowledge { t_ood, mask_oracle } && mask_oracle == mo,
        all_canonical(covector),
        covector.len() == round.cs().source.message_len(),
        update_wf(u),
    ensures
        ({
            let n = round.cs().source.message_len();
            all_canonical(
                round.cs().updated_covector(covector + zeros_spec(mo.l_zk as nat), u).skip(n as int),
            )
        }),
{
    broadcast use lemma_residue_canonical;

    let n = round.cs().source.message_len();
    let cov = covector + zeros_spec(mo.l_zk as nat);
    let base = scaled(cov, u.scale);
    assert(all_canonical(base));
    let mid = accumulated(base, u.ood_coeffs, u.ood_points, cov.len());
    lemma_accumulated_all_canonical(base, u.ood_coeffs, u.ood_points, cov.len());
    lemma_accumulated_all_canonical(mid, u.in_coeffs, u.in_points, round.cs().source.masked_len());
    let next = round.cs().updated_covector(cov, u);
    let got = next.skip(n as int);
    assert forall|i: int| 0 <= i < got.len() implies canonical(#[trigger] got[i]) by {
        assert(canonical(next[n + i]));
    }
}

/// The verifier follows a zero-knowledge round.
proof fn lemma_masked_round_followed(
    round: &RoundConfig,
    mo: MaskOracleConfig,
    block: BlockView,
    vectors: Seq<Seq<int>>,
    p: ProverView,
    q: ProverView,
    tail: Seq<u64>,
)
    requires
        round.wf(),
        round.free() || !q.stuck,
        round.mode matches RoundMode::ZeroKnowledge { t_ood, mask_oracle } && mask_oracle == mo,
        block.valid(&round.cs().source, vectors),
        round.mask_bound(mo, round.masks_begun(mo, p), block) is Some,
        ({
            let b = round.masks_begun(mo, p);
            let m = round.mask_bound(mo, b, block).unwrap();
            follows(round.masked_switch(mo, b, m, block).view, q)
        }),
    ensures
        ({
            let b = round.masks_begun(mo, p);
            let m = round.mask_bound(mo, b, block).unwrap();
            let o = round.masked_switch(mo, b, m, block);
            &&& follows(p, o.view)
            &&& round.masked_round_checked(
                mo,
                check_block(block, &round.cs().source),
                pending(p, q, tail),
            ) == Some(
                RoundChecked {
                    block: check_block(o.block, &round.cs().target),
                    points: o.points,
                    update: o.update,
                    view: pending(o.view, q, tail),
                },
            )
        }),
{
    let b = round.masks_begun(mo, p);
    let m = round.mask_bound(mo, b, block).unwrap();
    let o = round.masked_switch(mo, b, m, block);
    lemma_masked_back(round, mo, block, vectors, p, q, tail);
    lemma_follows_trans(m.view, o.view, q);
    lemma_masked_front(round, mo, block, p, q, tail);
    lemma_follows_trans(p, m.view, o.view);
}

/// The verifier follows a zero-knowledge round up to the code-switch.
proof fn lemma_masked_front(
    round: &RoundConfig,
    mo: MaskOracleConfig,
    block: BlockView,
    p: ProverView,
    q: ProverView,
    tail: Seq<u64>,
)
    requires
        round.wf(),
        round.free() || !q.stuck,
        round.mode matches RoundMode::ZeroKnowledge { t_ood, mask_oracle } && mask_oracle == mo,
        canonical(block.sum),
        round.mask_bound(mo, round.masks_begun(mo, p), block) is Some,
        follows(round.mask_bound(mo, round.masks_begun(mo, p), block).unwrap().view, q),
    ensures
        ({
            let b = round.masks_begun(mo, p);
            let m = round.mask_bound(mo, b, block).unwrap();
            let (end, rlc) = round.folded_block(block, b.coefs, b.view);
            let r1 = root_of(
                mo.sumcheck_masks.config.c_zk_commit.matrix_config().leaves(b.matrix),
            );
            let r2 = root_of(mo.cs_mask.config.c_zk_commit.matrix_config().leaves(m.matrix));
            let v1 = pending(b.view, q, tail);
            let v2 = pending(end.view, q, tail);
            let delta = mask_eval_sum(b.padded, mo.sumcheck_masks.config.size(), m.points);
            &&& follows(p, m.view)
            &&& pending(p, q, tail).read_all(4) == Some((r1.words(), v1))
            &&& digest_of_words(r1.words()) == r1
            &&& round.sc().checked(block.sum, v1) == Some(
                (CheckState { sum: masked_sum(end, rlc), points: m.points, view: v2 }, rlc),
            )
            &&& v2.read_all(4) is Some
            &&& v2.read_all(4).unwrap().0 == r2.words()
            &&& digest_of_words(r2.words()) == r2
            &&& v2.read_all(4).unwrap().1.read_field() == Some((delta, pending(m.view, q, tail)))
            &&& rlc != 0
            &&& m.sum == fmul(fsub(masked_sum(end, rlc), delta), quotient(1, rlc))
        }),
{
    broadcast use lemma_fsum_canonical;

    let b = round.masks_begun(mo, p);
    let m = round.mask_bound(mo, b, block).unwrap();
    let sm = mo.sumcheck_masks.config;
    let cm = mo.cs_mask.config;
    let (end, rlc) = round.folded_block(block, b.coefs, b.view);
    lemma_masks_begun(round, mo, p);
    let delta = mask_eval_sum(b.padded, sm.size(), end.points);
    let committed = cm.committed(m.poly, end.view);
    lemma_follows_send(committed, delta as u64);
    law_read_field(committed, delta, q, tail);
    lemma_follows_trans(committed, m.view, q);
    lemma_commit_followed(&cm, m.poly, end.view, q, tail);
    lemma_follows_trans(end.view, committed, q);
    lemma_fold_followed(round, block, b.coefs, b.view, q, tail);
    lemma_follows_trans(b.view, end.view, q);
    let p1 = p.toss(round.num_coefs());
    let c1 = sm.committed(b.padded, p1);
    assert(follows(c1, b.view)) by {
        lemma_follows_draw(c1, round.padding_len(mo));
    }
    lemma_follows_trans(c1, b.view, q);
    lemma_commit_followed(&sm, b.padded, p1, q, tail);
    assert(pending(p, q, tail) == pending(p1, q, tail));
    assert(pending(c1, q, tail) == pending(b.view, q, tail));
    // The prover went on all along.
    lemma_follows_draw(p, round.num_coefs());
    lemma_follows_trans(p, p1, c1);
    lemma_follows_trans(p, c1, b.view);
    lemma_follows_trans(p, b.view, end.view);
    lemma_follows_trans(p, end.view, committed);
    lemma_follows_trans(p, committed, m.view);
}

/// The digest of four words.
spec fn digest_of_words(ws: Seq<u64>) -> Digest {
    Digest { a: ws[0], b: ws[1], c: ws[2], d: ws[3] }
}

/// The verifier follows a zero-knowledge round from the code-switch on.
proof fn lemma_masked_back(
    round: &RoundConfig,
    mo: MaskOracleConfig,
    block: BlockView,
    vectors: Seq<Seq<int>>,
    p: ProverView,
    q: ProverView,
    tail: Seq<u64>,
)
    requires
        round.wf(),
        round.free() || !q.stuck,
        round.mode matches RoundMode::ZeroKnowledge { t_ood, mask_oracle } && mask_oracle == mo,
        block.valid(&round.cs().source, vectors),
        round.mask_bound(mo, round.masks_begun(mo, p), block) is Some,
        ({
            let b = round.masks_begun(mo, p);
            let m = round.mask_bound(mo, b, block).unwrap();
            follows(round.masked_switch(mo, b, m, block).view, q)
        }),
    ensures
        ({
            let b = round.masks_begun(mo, p);
            let m = round.mask_bound(mo, b, block).unwrap();
            let o = round.masked_switch(mo, b, m, block);
            let r1 = root_of(
                mo.sumcheck_masks.config.c_zk_commit.matrix_config().leaves(b.matrix),
            );
            let r2 = root_of(mo.cs_mask.config.c_zk_commit.matrix_config().leaves(m.matrix));
            let checked = round.cs().switch_checked(
                matrix_roots(&round.cs().source, block.matrices),
                slot_table(block.theta, eq_table(m.points)),
                m.sum,
                pending(m.view, q, tail),
            );
            let delta = mask_eval_sum(b.padded, mo.sumcheck_masks.config.size(), m.points);
            &&& follows(m.view, o.view)
            &&& o.points == m.points
            &&& canonical(block.sum)
            &&& checked is Some
            &&& checked.unwrap().update == o.update
            &&& check_block(o.block, &round.cs().target) == (CheckBlock {
                sum: o.block.sum,
                roots: seq![checked.unwrap().root],
                theta: seq![1int],
            })
            &&& round.discharged(mo, r1, r2, delta, m.points, checked.unwrap()) == Some(
                (o.block.sum, pending(o.view, q, tail)),
            )
        }),
{
    broadcast use lemma_fsum_canonical;

    let b = round.masks_begun(mo, p);
    let m = round.mask_bound(mo, b, block).unwrap();
    let o = round.masked_switch(mo, b, m, block);
    let cm = mo.cs_mask.config;
    let (end, rlc) = round.folded_block(block, b.coefs, b.view);
    let s = round.switched_block(m.message, m.poly, block, m.points, m.sum, m.view);
    lemma_masks_begun(round, mo, p);
    lemma_mask_bound(round, mo, block, vectors, p);
    lemma_poly(round, mo, block, vectors, m.points, b.padding);
    lemma_masked_round_keeps_claim(round, mo, block, vectors, p);
    lemma_block_matrices(&round.cs().source, block, vectors);
    lemma_challenges_len(end.view.coins, cm.flat_len());
    lemma_challenges_len(
        end.view.toss(cm.flat_len()).coins,
        cm.c_zk_commit.num_mask_coefficients(),
    );
    let root = target_root(&round.cs(), m.message, m.view);
    lemma_masks_followed(round, mo, b, m, s, root, q, tail);
    lemma_follows_trans(s.view, o.view, q);
    lemma_switch_followed(round, m.message, m.poly, block, m.points, m.sum, m.view, q, tail);
    lemma_follows_trans(m.view, s.view, o.view);
    let cov = round.cs().updated_covector(m.covector + zeros_spec(mo.l_zk as nat), s.update);
    let n = m.message.len() as int;
    lemma_next_check_block(
        round,
        m.message,
        cov.take(n),
        fsub(s.sum, dot_spec(m.poly, cov.skip(n))),
        m.view,
    );
}

/// The verifier reads a commitment to masks.
proof fn lemma_commit_followed(
    cfg: &crate::mask_proximity::Config,
    masks: Seq<int>,
    p: ProverView,
    q: ProverView,
    tail: Seq<u64>,
)
    requires
        follows(cfg.committed(masks, p), q),
    ensures
        follows(p, cfg.committed(masks, p)),
        pending(p, q, tail).read_all(4) == Some(
            (
                root_of(
                    cfg.c_zk_commit.matrix_config().leaves(cfg.matrix_of(masks, p)),
                ).words(),
                pending(cfg.committed(masks, p), q, tail),
            ),
        ),
{
    let p1 = p.toss(cfg.flat_len());
    let vectors = cfg.vectors(masks, cfg.fresh_of(p));
    law_irs_commit_received(&cfg.c_zk_commit, vectors, p1, q, tail);
    lemma_follows_draw(p, cfg.flat_len());
    lemma_follows_trans(p, p1, cfg.committed(masks, p));
    assert(pending(p, q, tail) == pending(p1, q, tail));
}

/// Completeness of a round: on what an honest prover sent, the verifier accepts; it
/// draws the same challenges, arrives at the verifier's view of the prover's next
/// block, and at the same update of the covector.
pub proof fn law_round_complete(
    round: &RoundConfig,
    block: BlockView,
    vectors: Seq<Seq<int>>,
    p: ProverView,
    q: ProverView,
    tail: Seq<u64>,
)
    requires
        round.wf(),
        round.free() || !q.stuck,
        block.valid(&round.cs().source, vectors),
        round.round_proved(block, p) is Some,
        follows(round.round_proved(block, p).unwrap().view, q),
    ensures
        ({
            let o = round.round_proved(block, p).unwrap();
            &&& follows(p, o.view)
            &&& round.round_checked(check_block(block, &round.cs().source), pending(p, q, tail)) == Some(
                RoundChecked {
                    block: check_block(o.block, &round.cs().target),
                    points: o.points,
                    update: o.update,
                    view: pending(o.view, q, tail),
                },
            )
        }),
{
    reveal(RoundConfig::round_proved);
    reveal(RoundConfig::round_checked);
    match round.mode {
        RoundMode::Standard => {
            lemma_plain_round_followed(round, block, vectors, p, q, tail);
        },
        RoundMode::ZeroKnowledge { t_ood, mask_oracle } => {
            lemma_masked_round_followed(round, mask_oracle, block, vectors, p, q, tail);
        },
    }
}

/// The folded covector of a standard round, and what it becomes.
pub proof fn lemma_plain_parts(
    round: &RoundConfig,
    block: BlockView,
    vectors: Seq<Seq<int>>,
    p: ProverView,
) -> (cov: Seq<int>)
    requires
        round.wf(),
        round.mode is Standard,
        block.valid(&round.cs().source, vectors),
    ensures
        ({
            let o = round.plain_round(block, p);
            &&& cov == folded_all(block.covector, o.points)
            &&& cov.len() == round.cs().source.message_len()
            &&& o.block.covector == round.cs().updated_covector(cov, o.update)
            &&& round.cs().mask_len() == 0
        }),
{
    let (end, rlc) = round.folded_block(block, Seq::empty(), p);
    lemma_folded_claim(round, block, vectors, Seq::empty(), p);
    lemma_folded_covector(round, block, vectors, Seq::empty(), p);
    end.tables[1]
}

/// The folded covector of a zero-knowledge round, and what it becomes.
pub proof fn lemma_masked_parts(
    round: &RoundConfig,
    mo: MaskOracleConfig,
    block: BlockView,
    vectors: Seq<Seq<int>>,
    p: ProverView,
) -> (cov: Seq<int>)
    requires
        round.wf(),
        round.mode matches RoundMode::ZeroKnowledge { t_ood, mask_oracle } && mask_oracle == mo,
        block.valid(&round.cs().source, vectors),
        round.mask_bound(mo, round.masks_begun(mo, p), block) is Some,
    ensures
        ({
            let b = round.masks_begun(mo, p);
            let m = round.mask_bound(mo, b, block).unwrap();
            let o = round.masked_switch(mo, b, m, block);
            &&& cov == folded_all(block.covector, o.points)
            &&& cov.len() == round.cs().source.message_len()
            &&& o.block.covector == round.cs().updated_covector(
                cov + zeros_spec(mo.l_zk as nat),
                o.update,
            ).take(cov.len() as int)
            &&& round.cs().mask_len() == mo.l_zk
        }),
{
    let b = round.masks_begun(mo, p);
    let m = round.mask_bound(mo, b, block).unwrap();
    lemma_mask_bound(round, mo, block, vectors, p);
    lemma_folded_covector(round, block, vectors, b.coefs, b.view);
    m.covector
}

proof fn lemma_folded_covector(
    round: &RoundConfig,
    block: BlockView,
    vectors: Seq<Seq<int>>,
    coefs: Seq<int>,
    p: ProverView,
)
    requires
        round.wf(),
        block.valid(&round.cs().source, vectors),
    ensures
        ({
            let (end, rlc) = round.folded_block(block, coefs, p);
            end.tables[1] == folded_all(block.covector, end.points)
        }),
{
    reveal(RoundConfig::folded_block);
    law_sumcheck_reduces_dot(&round.sc(), block.message, block.covector, coefs, p);
}

} // verus!
