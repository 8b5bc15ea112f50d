//! Laws of code-switching.

use crate::algebra::{accumulated, dot_spec, dot_terms, evaluate, scaled};
use crate::chunks::law_evaluate_concat;
use crate::code_switch::{update_wf, updated_sum, CodeSwitchMode, Config, SwitchChecked, Update};
use crate::field::{all_canonical, canonical, fadd, fmul, lemma_residue_canonical};
use crate::irs_commit::lemma_challenges_len;
use crate::irs_laws::{law_irs_commit_received, law_irs_open_complete, matrices_wf, matrix_roots};
use crate::matrix_commit::{root_of, Digest};
use crate::sumcheck_laws::lemma_evaluate_canonical;
use crate::sums::{
    canonical_fn, fsum, lemma_add_assoc, lemma_fsum_canonical, lemma_fsum_eq, lemma_fsum_split,
};
use crate::transcript::{challenges, ProverView};
use crate::transcript_laws::{
    follows, law_pow_accepted, law_read_fields, lemma_follows_draw, lemma_follows_refl,
    lemma_follows_send_fields, lemma_follows_trans, pending,
};
use crate::vector_laws::{
    law_dot_accumulated, law_dot_concat, law_dot_scaled, lemma_accumulated_canonical,
    weighted_evals,
};
use vstd::prelude::*;

verus! {

/// The root that a code-switch commits to.
pub open spec fn target_root(cfg: &Config, message: Seq<int>, p: ProverView) -> Digest {
    root_of(
        cfg.target.matrix_config().leaves(
            cfg.target.encoded(seq![message], cfg.target.masks_of(p)),
        ),
    )
}

/// Completeness: on what the prover sent, the verifier accepts the code-switch and
/// arrives at the same sum and the same update of the covector.
pub proof fn law_code_switch_complete(
    cfg: &Config,
    message: Seq<int>,
    mask: Seq<int>,
    matrices: Seq<Seq<int>>,
    weights: Seq<int>,
    sum: int,
    p: ProverView,
    q: ProverView,
    tail: Seq<u64>,
)
    requires
        cfg.wf(),
        cfg.pow.bits == 0 || !q.stuck,
        matrices_wf(&cfg.source, matrices),
        follows(cfg.switched(message, mask, matrices, weights, sum, p).view, q),
    ensures
        ({
            let s = cfg.switched(message, mask, matrices, weights, sum, p);
            &&& follows(p, s.view)
            &&& cfg.switch_checked(
                matrix_roots(&cfg.source, matrices),
                weights,
                sum,
                pending(p, q, tail),
            ) == Some(
                SwitchChecked {
                    root: target_root(cfg, message, p),
                    sum: s.sum,
                    update: s.update,
                    view: pending(s.view, q, tail),
                },
            )
        }),
{
    broadcast use {lemma_residue_canonical, lemma_evaluate_canonical};

    let s = cfg.switched(message, mask, matrices, weights, sum, p);
    let n = cfg.out_domain_samples as nat;
    let committed = cfg.target.committed(seq![message], p);
    let worked = cfg.pow.proved(committed);
    let ood_points = challenges(worked.sponge, n);
    lemma_challenges_len(worked.sponge, n);
    let answers = cfg.ood_answers(message, mask, ood_points);
    assert(all_canonical(answers)) by {
        assert forall|i: int| 0 <= i < answers.len() implies canonical(#[trigger] answers[i]) by {}
    }
    let drawn = worked.draw_many(n);
    let answered = drawn.send_fields(answers);
    let opened = cfg.source.opened(answered, matrices).2;
    assert(follows(opened, s.view)) by {
        lemma_follows_refl(opened);
    }
    lemma_follows_trans(opened, s.view, q);
    law_irs_open_complete(&cfg.source, matrices, answered, q, tail);
    lemma_follows_trans(answered, opened, q);
    lemma_follows_send_fields(drawn, answers);
    lemma_follows_trans(drawn, answered, q);
    law_read_fields(drawn, answers, q, tail);
    assert(follows(worked, q)) by {
        lemma_follows_draw(worked, n);
        lemma_follows_trans(worked, drawn, q);
    }
    law_pow_accepted(cfg.pow, committed, q, tail);
    lemma_follows_trans(committed, worked, q);
    law_irs_commit_received(&cfg.target, seq![message], p, q, tail);
    // The prover went on all along.
    lemma_follows_trans(p, committed, worked);
    lemma_follows_draw(worked, n);
    lemma_follows_trans(p, worked, drawn);
    lemma_follows_trans(p, drawn, answered);
    lemma_follows_trans(p, answered, opened);
    lemma_follows_trans(p, opened, s.view);
    let root = target_root(cfg, message, p);
    let ws = root.words();
    assert(root == (Digest { a: ws[0], b: ws[1], c: ws[2], d: ws[3] }));
}

/// Adding powers of points to the first entries of a covector adds the values at
/// those points of the polynomial's first coefficients.
pub proof fn law_dot_accumulated_prefix(
    h: Seq<int>,
    acc: Seq<int>,
    cs: Seq<int>,
    xs: Seq<int>,
    len: nat,
)
    requires
        all_canonical(h),
        all_canonical(acc),
        all_canonical(cs),
        all_canonical(xs),
        h.len() == acc.len(),
        cs.len() == xs.len(),
        len <= acc.len(),
    ensures
        dot_spec(h, accumulated(acc, cs, xs, len)) == fadd(
            dot_spec(h, acc),
            fsum(weighted_evals(h.take(len as int), cs, xs), xs.len()),
        ),
{
    broadcast use {lemma_fsum_canonical, lemma_residue_canonical};

    let k = len as int;
    let (h1, h2) = (h.take(k), h.skip(k));
    let (a1, a2) = (acc.take(k), acc.skip(k));
    let b1 = accumulated(a1, cs, xs, len);
    assert(h =~= h1 + h2);
    assert(acc =~= a1 + a2);
    assert(accumulated(acc, cs, xs, len) =~= b1 + a2);
    law_dot_concat(h1, h2, b1, a2);
    law_dot_concat(h1, h2, a1, a2);
    assert(all_canonical(h1)) by {
        assert forall|i: int| 0 <= i < h1.len() implies canonical(#[trigger] h1[i]) by {
            assert(canonical(h[i]));
        }
    }
    assert(all_canonical(a1)) by {
        assert forall|i: int| 0 <= i < a1.len() implies canonical(#[trigger] a1[i]) by {
            assert(canonical(acc[i]));
        }
    }
    law_dot_accumulated(h1, a1, cs, xs);
    let w = fsum(weighted_evals(h1, cs, xs), xs.len());
    let (d1, d2) = (dot_spec(h1, a1), dot_spec(h2, a2));
    // (d1 + w) + d2 == (d1 + d2) + w
    crate::sums::lemma_add_exchange(d1, w, d2, 0);
    crate::sums::lemma_add_zero(d2);
    crate::sums::lemma_add_zero(w);
}

/// The values, each times its coefficient, as an inner product.
pub proof fn lemma_weighted_evals_dot(h: Seq<int>, cs: Seq<int>, xs: Seq<int>, values: Seq<int>)
    requires
        cs.len() == xs.len(),
        values.len() == xs.len(),
        forall|i: int| 0 <= i < xs.len() ==> #[trigger] values[i] == evaluate(h, xs[i]),
    ensures
        fsum(weighted_evals(h, cs, xs), xs.len()) == dot_spec(cs, values),
{
    assert forall|j: int| 0 <= j < xs.len() implies #[trigger] weighted_evals(h, cs, xs)(j) == dot_terms(
        cs,
        values,
    )(j) by {
        assert(values[j] == evaluate(h, xs[j]));
    }
    lemma_fsum_eq(weighted_evals(h, cs, xs), dot_terms(cs, values), xs.len());
}

/// The out-of-domain answers are the values of the message followed by its mask.
pub proof fn lemma_ood_answer(cfg: &Config, message: Seq<int>, mask: Seq<int>, x: int)
    requires
        all_canonical(message),
        all_canonical(mask),
        mask.len() == cfg.mask_len(),
        canonical(x),
    ensures
        cfg.ood_answer(message, mask, x) == evaluate(message + mask, x),
{
    match cfg.mode {
        CodeSwitchMode::Standard => {
            assert(message + mask =~= message);
        },
        CodeSwitchMode::ZeroKnowledge { message_mask_length } => {
            law_evaluate_concat(message, mask, x);
        },
    }
}

/// The claim is kept: where the sum was the inner product of the covector with the
/// message and its mask, the new sum is that of the updated covector, provided the
/// in-domain values are those of the message and the source's part of the mask.
pub proof fn law_code_switch_keeps_claim(
    cfg: &Config,
    message: Seq<int>,
    mask: Seq<int>,
    covector: Seq<int>,
    sum: int,
    u: Update,
    in_values: Seq<int>,
)
    requires
        cfg.wf(),
        all_canonical(message),
        all_canonical(mask),
        all_canonical(covector),
        message.len() == cfg.source.message_len(),
        mask.len() == cfg.mask_len(),
        covector.len() == cfg.covector_len(),
        sum == dot_spec(message + mask, covector),
        update_wf(u),
        in_values.len() == u.in_points.len(),
        forall|i: int|
            0 <= i < in_values.len() ==> #[trigger] in_values[i] == evaluate(
                (message + mask).take(cfg.source.masked_len() as int),
                u.in_points[i],
            ),
    ensures
        dot_spec(message + mask, cfg.updated_covector(covector, u)) == updated_sum(
            sum,
            u,
            cfg.ood_answers(message, mask, u.ood_points),
            in_values,
        ),
        all_canonical(cfg.updated_covector(covector, u)),
{
    broadcast use {lemma_fsum_canonical, lemma_residue_canonical};

    let h = message + mask;
    assert(all_canonical(h));
    let answers = cfg.ood_answers(message, mask, u.ood_points);
    assert forall|i: int| 0 <= i < answers.len() implies #[trigger] answers[i] == evaluate(
        h,
        u.ood_points[i],
    ) by {
        assert(canonical(u.ood_points[i]));
        lemma_ood_answer(cfg, message, mask, u.ood_points[i]);
    }
    let base = scaled(covector, u.scale);
    assert(all_canonical(base));
    law_dot_scaled(h, covector, u.scale);
    lemma_weighted_evals_dot(h, u.ood_coeffs, u.ood_points, answers);
    let masked = cfg.source.masked_len();
    match cfg.mode {
        CodeSwitchMode::Standard => {
            assert(masked == h.len());
            assert(h.take(masked as int) =~= h);
            let cs = u.ood_coeffs + u.in_coeffs;
            let xs = u.ood_points + u.in_points;
            assert(all_canonical(cs));
            assert(all_canonical(xs));
            law_dot_accumulated(h, base, cs, xs);
            let f = weighted_evals(h, cs, xs);
            let a = weighted_evals(h, u.ood_coeffs, u.ood_points);
            let b = weighted_evals(h, u.in_coeffs, u.in_points);
            let n = u.ood_points.len();
            let m = u.in_points.len();
            assert forall|i: int| 0 <= i < m implies #[trigger] b(i) == f(n + i) by {
                assert(cs[n + i] == u.in_coeffs[i]);
                assert(xs[n + i] == u.in_points[i]);
            }
            assert(canonical_fn(f, n + m));
            lemma_fsum_split(f, b, n, m);
            lemma_fsum_eq(f, a, n);
            lemma_weighted_evals_dot(h, u.in_coeffs, u.in_points, in_values);
            assert(xs.len() == n + m);
            lemma_add_assoc(
                fmul(u.scale, sum),
                dot_spec(u.ood_coeffs, answers),
                dot_spec(u.in_coeffs, in_values),
            );
            lemma_accumulated_all_canonical(base, cs, xs, base.len());
        },
        CodeSwitchMode::ZeroKnowledge { message_mask_length } => {
            law_dot_accumulated(h, base, u.ood_coeffs, u.ood_points);
            let mid = accumulated(base, u.ood_coeffs, u.ood_points, base.len());
            lemma_accumulated_all_canonical(base, u.ood_coeffs, u.ood_points, base.len());
            assert(masked <= h.len());
            law_dot_accumulated_prefix(h, mid, u.in_coeffs, u.in_points, masked);
            lemma_weighted_evals_dot(h.take(masked as int), u.in_coeffs, u.in_points, in_values);
            lemma_accumulated_all_canonical(mid, u.in_coeffs, u.in_points, masked);
        },
    }
}

/// Accumulating keeps entries canonical.
pub proof fn lemma_accumulated_all_canonical(acc: Seq<int>, cs: Seq<int>, xs: Seq<int>, len: nat)
    requires
        all_canonical(acc),
    ensures
        all_canonical(accumulated(acc, cs, xs, len)),
{
    let r = accumulated(acc, cs, xs, len);
    assert forall|i: int| 0 <= i < r.len() implies canonical(#[trigger] r[i]) by {
        assert(canonical(acc[i]));
        lemma_accumulated_canonical(acc[i], cs, xs, i as nat, xs.len());
    }
}

} // verus!
