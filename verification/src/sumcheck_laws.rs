//! Laws of the sumcheck.

use crate::algebra::{dot_spec, evaluate, folded_all};
use crate::arith::{ceil_log2_spec, lemma_ceil_log2};
use crate::embedding::{images, law_lift_once, Embedding, Identity};
use crate::field::{
    all_canonical, canonical, fadd, fmul, fpow, fsub, group_residue, lemma_fmul_assoc,
    lemma_fmul_comm, lemma_fmul_one, lemma_fpow_canonical, lemma_residue_canonical,
    lemma_residue_id, residue, vals, Field64,
};
use crate::round_poly::{law_quadratic_round, linear_coefficient, with_linear};
use crate::sumcheck::{
    eval_01_spec, mask_evals, mask_of_round, mask_share, masked_poly, CheckState, Config,
    DotProductOracle, RoundPolyOracle, RunState, ONE_HALF,
};
use crate::sums::{
    canonical_fn, entries, fsum, lemma_add_exchange, lemma_add_zero, lemma_distribute,
    lemma_fsum_add, lemma_fsum_canonical, lemma_fsum_eq, lemma_fsum_scale, lemma_fsum_single,
    lemma_fsum_split, lemma_fsum_trim, lemma_fsum_zero, total,
};
use crate::transcript::{challenge, ProverView};
use crate::transcript_laws::{
    follows, law_pow_accepted, law_read_field, law_read_fields, lemma_follows_draw,
    lemma_follows_pow, lemma_follows_refl, lemma_follows_send, lemma_follows_send_fields,
    lemma_follows_trans, pending,
};
use vstd::arithmetic::power2::{lemma_pow2_strictly_increases, pow2};
use vstd::prelude::*;

verus! {

/// The first entry plus the sum of all is twice the first plus the second plus the
/// sum of the rest.
proof fn lemma_total_of_parts(c0: int, c1: int, higher: Seq<int>)
    requires
        canonical(c0),
        canonical(c1),
        all_canonical(higher),
    ensures
        ({
            let p = seq![c0, c1] + higher;
            fadd(p[0], total(p)) == residue(c0 + c0 + c1 + total(higher))
        }),
{
    broadcast use {group_residue, lemma_fsum_canonical};

    let p = seq![c0, c1] + higher;
    let f = entries(p);
    let g = entries(higher);
    lemma_residue_id(c0);
    lemma_residue_id(c1);
    lemma_residue_id(0);
    lemma_residue_id(total(higher));
    assert(canonical_fn(f, p.len())) by {
        assert forall|i: int| 0 <= i < p.len() implies canonical(#[trigger] f(i)) by {
            if i >= 2 {
                assert(canonical(higher[i - 2]));
            }
        }
    }
    lemma_fsum_split(f, g, 2, higher.len());
    reveal_with_fuel(fsum, 3);
    assert(fsum(f, 2) == residue(c0 + c1)) by {
        assert(f(0) == c0 && f(1) == c1);
        assert(fsum(f, 1) == residue(0 + c0));
    }
    assert(p.len() == 2 + higher.len());
    assert(total(p) == residue((c0 + c1) + total(higher)));
    assert(fadd(c0, total(p)) == residue(c0 + ((c0 + c1) + total(higher))));
}

/// The linear coefficient is the one that makes the values at zero and one add up
/// to the sum.
pub proof fn law_linear_coefficient(sum: int, c0: int, c1: int, higher: Seq<int>)
    requires
        canonical(sum),
        canonical(c0),
        canonical(c1),
        all_canonical(higher),
    ensures
        c1 == linear_coefficient(sum, c0, higher) <==> ({
            let p = seq![c0, c1] + higher;
            fadd(p[0], total(p)) == sum
        }),
{
    broadcast use {group_residue, lemma_fsum_canonical};

    lemma_total_of_parts(c0, c1, higher);
    let t = total(higher);
    lemma_residue_id(sum);
    lemma_residue_id(c0);
    lemma_residue_id(c1);
    lemma_residue_id(t);
    let l = linear_coefficient(sum, c0, higher);
    assert(l == residue(sum - (c0 + c0) - t));
    let whole = c0 + c0 + c1 + t;
    if c1 == l {
        // c0 + c0 + l + t is the sum.
        assert(fadd(fadd(fadd(c0, c0), l), t) == residue((c0 + c0) + (sum - (c0 + c0) - t) + t));
        assert(fadd(fadd(fadd(c0, c0), c1), t) == residue((c0 + c0) + c1 + t));
    }
    if residue(whole) == sum {
        assert(fsub(fsub(residue(whole), fadd(c0, c0)), t) == residue(whole - (c0 + c0) - t));
        assert(whole - (c0 + c0) - t == c1);
    }
}

/// Twice the half of `x` is `x`.
proof fn lemma_half_twice(x: int)
    requires
        canonical(x),
    ensures
        fadd(fmul(x, ONE_HALF as int), fmul(x, ONE_HALF as int)) == x,
{
    broadcast use group_residue;

    let h = ONE_HALF as int;
    lemma_residue_id(x);
    lemma_residue_id(h);
    assert(fadd(fmul(x, h), fmul(x, h)) == residue(x * h + x * h));
    assert(x * h + x * h == x * (h + h)) by (nonlinear_arith);
    assert(fmul(residue(x), residue(h + h)) == residue(x * (h + h)));
    assert(residue(h + h) == 1) by {
        reveal(residue);
    }
    lemma_fmul_one(x);
}

/// The entries of a sequence are canonical summands.
proof fn lemma_entries_canonical(s: Seq<int>)
    requires
        all_canonical(s),
    ensures
        canonical_fn(entries(s), s.len()),
{
    assert forall|i: int| 0 <= i < s.len() implies canonical(#[trigger] entries(s)(i)) by {
        assert(canonical(s[i]));
    }
}

/// `p(0) + p(1)` of a masked round polynomial is the mask sum plus `mask_rlc` times
/// that of the round polynomial.
pub proof fn law_masked_poly_sum(
    poly: Seq<int>,
    mask: Seq<int>,
    mask_sum: int,
    mask_rlc: int,
    multiple: int,
    len: nat,
)
    requires
        all_canonical(poly),
        all_canonical(mask),
        canonical(mask_sum),
        canonical(mask_rlc),
        canonical(multiple),
        0 < poly.len() <= len,
        mask.len() <= len,
    ensures
        ({
            let u = masked_poly(poly, mask, mask_sum, mask_rlc, multiple, len);
            fadd(u[0], total(u)) == fadd(mask_sum, fmul(mask_rlc, fadd(poly[0], total(poly))))
        }),
{
    broadcast use {lemma_residue_canonical, lemma_fsum_canonical};

    let u = masked_poly(poly, mask, mask_sum, mask_rlc, multiple, len);
    let e01 = eval_01_spec(mask);
    let correction = fmul(fsub(mask_sum, fmul(multiple, e01)), ONE_HALF as int);
    // The three shares of every coefficient.
    let own = |i: int|
        if i < mask.len() {
            fmul(multiple, mask[i])
        } else {
            0
        };
    let fix = |i: int|
        if i == 0 {
            correction
        } else {
            0
        };
    let main = |i: int|
        if i < poly.len() {
            fmul(mask_rlc, poly[i])
        } else {
            0
        };
    let own_fix = |i: int| fadd(own(i), fix(i));
    assert forall|i: int| 0 <= i < len implies #[trigger] entries(u)(i) == fadd(own_fix(i), main(i)) by {
        let share = mask_share(mask, mask_sum, multiple, i);
        lemma_add_zero(own(i));
        assert(own_fix(i) == share);
        lemma_add_zero(share);
    }
    assert(canonical_fn(own, len));
    assert(canonical_fn(fix, len));
    assert(canonical_fn(main, len));
    assert(canonical_fn(own_fix, len));
    lemma_fsum_add(own_fix, main, entries(u), len);
    lemma_fsum_add(own, fix, own_fix, len);
    lemma_fsum_single(fix, 0, len);
    lemma_fsum_trim(own, mask.len(), len);
    lemma_fsum_trim(main, poly.len(), len);
    lemma_entries_canonical(mask);
    lemma_entries_canonical(poly);
    lemma_fsum_scale(multiple, entries(mask), own, mask.len());
    lemma_fsum_scale(mask_rlc, entries(poly), main, poly.len());
    // total(u) = (multiple * total(mask) + correction) + mask_rlc * total(poly)
    let tm = total(mask);
    let tp = total(poly);
    assert(total(u) == fadd(fadd(fmul(multiple, tm), correction), fmul(mask_rlc, tp)));
    let m0 = if mask.len() > 0 {
        mask[0]
    } else {
        0
    };
    assert(own(0) == fmul(multiple, m0)) by {
        if mask.len() == 0 {
            assert(multiple * 0 == 0) by (nonlinear_arith);
            lemma_residue_id(0);
        }
    }
    assert(u[0] == entries(u)(0));
    assert(u[0] == fadd(fadd(fmul(multiple, m0), correction), fmul(mask_rlc, poly[0])));
    assert(e01 == fadd(m0, tm)) by {
        if mask.len() == 0 {
            lemma_add_zero(0);
        }
    }
    assert(canonical(m0));
    assert(canonical(poly[0]));
    lemma_masked_total(multiple, m0, tm, correction, mask_rlc, poly[0], tp, mask_sum);
}

/// The sum of the shares.
proof fn lemma_masked_total(
    multiple: int,
    m0: int,
    tm: int,
    correction: int,
    mask_rlc: int,
    p0: int,
    tp: int,
    mask_sum: int,
)
    requires
        canonical(multiple),
        canonical(m0),
        canonical(tm),
        canonical(mask_rlc),
        canonical(p0),
        canonical(tp),
        canonical(mask_sum),
        correction == fmul(fsub(mask_sum, fmul(multiple, fadd(m0, tm))), ONE_HALF as int),
    ensures
        fadd(
            fadd(fadd(fmul(multiple, m0), correction), fmul(mask_rlc, p0)),
            fadd(fadd(fmul(multiple, tm), correction), fmul(mask_rlc, tp)),
        ) == fadd(mask_sum, fmul(mask_rlc, fadd(p0, tp))),
{
    broadcast use lemma_residue_canonical;

    let diff = fsub(mask_sum, fmul(multiple, fadd(m0, tm)));
    lemma_half_twice(diff);
    let (a, b) = (fmul(multiple, m0), fmul(multiple, tm));
    let (x, y) = (fmul(mask_rlc, p0), fmul(mask_rlc, tp));
    lemma_add_exchange(fadd(a, correction), x, fadd(b, correction), y);
    lemma_add_exchange(a, correction, b, correction);
    lemma_distribute(multiple, m0, tm);
    lemma_distribute(mask_rlc, p0, tp);
    lemma_add_difference(fadd(a, b), mask_sum);
}

/// `a + (b - a) == b`.
proof fn lemma_add_difference(a: int, b: int)
    requires
        canonical(a),
        canonical(b),
    ensures
        fadd(a, fsub(b, a)) == b,
{
    lemma_residue_id(a);
    lemma_residue_id(b);
    crate::field::lemma_residue_sub(b, a);
    crate::field::lemma_residue_add(a, b - a);
}

/// What the oracle's coefficients must be for the laws to apply.
pub open spec fn canonical_oracle<O: RoundPolyOracle>() -> bool {
    forall|tables: Seq<Seq<int>>|
        all_canonical(#[trigger] O::coefficients(tables)) && O::coefficients(tables).len()
            == O::poly_degree()
}

/// The inner-product oracle has canonical coefficients.
pub proof fn lemma_dot_oracle_canonical()
    ensures
        canonical_oracle::<DotProductOracle>(),
{
    broadcast use lemma_fsum_canonical;

}

/// A polynomial's value is canonical.
pub broadcast proof fn lemma_evaluate_canonical(c: Seq<int>, x: int)
    ensures
        canonical(#[trigger] evaluate(c, x)),
{
    broadcast use lemma_residue_canonical;

}

/// The prover's states are canonical.
proof fn lemma_run_canonical<O: RoundPolyOracle>(
    cfg: &Config,
    start: RunState,
    mask_rlc: int,
    masks: Seq<int>,
    k: nat,
)
    requires
        canonical(start.sum),
        canonical(start.mask_sum),
    ensures
        canonical(cfg.run::<O>(start, mask_rlc, masks, k).sum),
        canonical(cfg.run::<O>(start, mask_rlc, masks, k).mask_sum),
{
    broadcast use {lemma_residue_canonical, lemma_evaluate_canonical};

}

/// The prover goes on from round to round.
pub proof fn lemma_run_follows<O: RoundPolyOracle>(
    cfg: &Config,
    start: RunState,
    mask_rlc: int,
    masks: Seq<int>,
    j: nat,
    k: nat,
)
    requires
        j <= k,
    ensures
        follows(
            cfg.run::<O>(start, mask_rlc, masks, j).view,
            cfg.run::<O>(start, mask_rlc, masks, k).view,
        ),
    decreases k,
{
    let here = cfg.run::<O>(start, mask_rlc, masks, j);
    if j == k {
        lemma_follows_refl(here.view);
    } else {
        let m = (k - 1) as nat;
        let st = cfg.run::<O>(start, mask_rlc, masks, m);
        lemma_run_follows::<O>(cfg, start, mask_rlc, masks, j, m);
        let sent = cfg.sent_poly::<O>(st, mask_rlc, masks, m);
        let v1 = st.view.send_field(sent[0]);
        let v2 = v1.send_fields(sent.skip(2));
        let v3 = cfg.round_pow.proved(v2);
        lemma_follows_send(st.view, sent[0] as u64);
        lemma_follows_send_fields(v1, sent.skip(2));
        lemma_follows_pow(cfg.round_pow, v2);
        lemma_follows_draw(v3, 0);
        lemma_follows_trans(here.view, st.view, v1);
        lemma_follows_trans(here.view, v1, v2);
        lemma_follows_trans(here.view, v2, v3);
        lemma_follows_trans(here.view, v3, v3.draw());
    }
}

/// The running sum that the verifier sees.
pub open spec fn masked_sum(st: RunState, mask_rlc: int) -> int {
    fadd(st.mask_sum, fmul(mask_rlc, st.sum))
}

/// One round keeps both parties in step.
proof fn lemma_step_in_step<O: RoundPolyOracle>(
    cfg: &Config,
    st: RunState,
    mask_rlc: int,
    masks: Seq<int>,
    round: nat,
    q: ProverView,
    tail: Seq<u64>,
)
    requires
        cfg.wf(),
        cfg.round_pow.bits == 0 || !q.stuck,
        canonical_oracle::<O>(),
        O::poly_degree() == cfg.degree,
        masks.len() == cfg.num_rounds * cfg.mask_len(),
        all_canonical(masks),
        canonical(mask_rlc),
        canonical(st.sum),
        canonical(st.mask_sum),
        round < cfg.num_rounds,
        follows(cfg.step::<O>(st, mask_rlc, masks, round).view, q),
    ensures
        ({
            let next = cfg.step::<O>(st, mask_rlc, masks, round);
            cfg.check_step(
                CheckState {
                    sum: masked_sum(st, mask_rlc),
                    points: st.points,
                    view: pending(st.view, q, tail),
                },
            ) == Some(
                CheckState {
                    sum: masked_sum(next, mask_rlc),
                    points: next.points,
                    view: pending(next.view, q, tail),
                },
            )
        }),
{
    broadcast use {lemma_residue_canonical, lemma_evaluate_canonical, lemma_fpow_canonical, lemma_fsum_canonical};

    let next = cfg.step::<O>(st, mask_rlc, masks, round);
    let cs = O::coefficients(st.tables);
    assert(all_canonical(cs) && cs.len() == cfg.degree);
    let poly = with_linear(st.sum, cs);
    let mask = mask_of_round(masks, cfg.mask_len(), round);
    let multiple = fpow(2, (cfg.num_rounds - round - 1) as nat);
    let sent = cfg.sent_poly::<O>(st, mask_rlc, masks, round);
    let len = cfg.poly_len();
    assert(round * cfg.mask_len() + cfg.mask_len() <= cfg.num_rounds * cfg.mask_len())
        by (nonlinear_arith)
        requires
            round < cfg.num_rounds,
    ;
    assert(round * cfg.mask_len() >= 0) by (nonlinear_arith);
    assert(mask.len() == cfg.mask_len());
    assert(all_canonical(mask)) by {
        assert forall|i: int| 0 <= i < mask.len() implies canonical(#[trigger] mask[i]) by {
            assert(canonical(masks[round * cfg.mask_len() + i]));
        }
    }
    let c0 = cs[0];
    let higher = cs.drop_first();
    let c1 = linear_coefficient(st.sum, c0, higher);
    assert(all_canonical(higher)) by {
        assert forall|i: int| 0 <= i < higher.len() implies canonical(#[trigger] higher[i]) by {
            assert(canonical(cs[i + 1]));
        }
    }
    assert(canonical(c0));
    assert(poly == seq![c0, c1] + higher);
    assert(all_canonical(poly)) by {
        assert forall|i: int| 0 <= i < poly.len() implies canonical(#[trigger] poly[i]) by {
            if i >= 2 {
                assert(canonical(higher[i - 2]));
            }
        }
    }
    law_linear_coefficient(st.sum, c0, c1, higher);
    law_masked_poly_sum(poly, mask, st.mask_sum, mask_rlc, multiple, len);
    let running = masked_sum(st, mask_rlc);
    assert(fadd(sent[0], total(sent)) == running);
    assert(all_canonical(sent)) by {
        assert forall|i: int| 0 <= i < sent.len() implies canonical(#[trigger] sent[i]) by {}
    }
    let sh = sent.skip(2);
    assert(all_canonical(sh)) by {
        assert forall|i: int| 0 <= i < sh.len() implies canonical(#[trigger] sh[i]) by {
            assert(canonical(sent[i + 2]));
        }
    }
    assert(seq![sent[0], sent[1]] + sh =~= sent);
    law_linear_coefficient(running, sent[0], sent[1], sh);
    // The transcript.
    let v1 = st.view.send_field(sent[0]);
    let v2 = v1.send_fields(sh);
    let v3 = cfg.round_pow.proved(v2);
    lemma_follows_send_fields(v1, sh);
    lemma_follows_pow(cfg.round_pow, v2);
    lemma_follows_draw(v3, 0);
    assert(follows(v3, q)) by {
        lemma_follows_trans(v3, v3.draw(), q);
    }
    lemma_follows_trans(v2, v3, q);
    lemma_follows_trans(v1, v2, q);
    law_read_field(st.view, sent[0], q, tail);
    law_read_fields(v1, sh, q, tail);
    law_pow_accepted(cfg.round_pow, v2, q, tail);
    let r = challenge(v3.sponge);
    assert(pending(v3, q, tail).draw() == pending(v3.draw(), q, tail));
    // The running sum is the masked polynomial's value.
    let sum = evaluate(poly, r);
    assert(masked_sum(next, mask_rlc) == evaluate(sent, r)) by {
        lemma_sub_add(evaluate(sent, r), fmul(mask_rlc, sum));
    }
}

/// `(a - b) + b == a`.
proof fn lemma_sub_add(a: int, b: int)
    requires
        canonical(a),
        canonical(b),
    ensures
        fadd(fsub(a, b), b) == a,
{
    broadcast use group_residue;

    lemma_residue_id(a);
    lemma_residue_id(b);
    assert(fadd(fsub(a, b), b) == residue((a - b) + b));
}

proof fn lemma_run_in_step<O: RoundPolyOracle>(
    cfg: &Config,
    start: RunState,
    mask_rlc: int,
    masks: Seq<int>,
    k: nat,
    q: ProverView,
    tail: Seq<u64>,
)
    requires
        cfg.wf(),
        cfg.round_pow.bits == 0 || !q.stuck,
        canonical_oracle::<O>(),
        O::poly_degree() == cfg.degree,
        masks.len() == cfg.num_rounds * cfg.mask_len(),
        all_canonical(masks),
        canonical(mask_rlc),
        canonical(start.sum),
        canonical(start.mask_sum),
        k <= cfg.num_rounds,
        follows(cfg.run::<O>(start, mask_rlc, masks, k).view, q),
    ensures
        ({
            let end = cfg.run::<O>(start, mask_rlc, masks, k);
            cfg.check_run(
                CheckState {
                    sum: masked_sum(start, mask_rlc),
                    points: start.points,
                    view: pending(start.view, q, tail),
                },
                k,
            ) == Some(
                CheckState {
                    sum: masked_sum(end, mask_rlc),
                    points: end.points,
                    view: pending(end.view, q, tail),
                },
            )
        }),
    decreases k,
{
    if k > 0 {
        let m = (k - 1) as nat;
        let st = cfg.run::<O>(start, mask_rlc, masks, m);
        lemma_run_follows::<O>(cfg, start, mask_rlc, masks, m, k);
        lemma_follows_trans(st.view, cfg.run::<O>(start, mask_rlc, masks, k).view, q);
        lemma_run_in_step::<O>(cfg, start, mask_rlc, masks, m, q, tail);
        lemma_run_canonical::<O>(cfg, start, mask_rlc, masks, m);
        lemma_step_in_step::<O>(cfg, st, mask_rlc, masks, m, q, tail);
    }
}

/// Completeness: on what the prover sent, the verifier never rejects; it draws the
/// same challenges and arrives at the same running sum. (A claim that does not hold
/// shows in that sum, not in a rejection.)
pub proof fn law_sumcheck_complete<O: RoundPolyOracle>(
    cfg: &Config,
    tables: Seq<Seq<int>>,
    sum: int,
    masks: Seq<int>,
    p: ProverView,
    q: ProverView,
    tail: Seq<u64>,
)
    requires
        cfg.wf(),
        cfg.round_pow.bits == 0 || !q.stuck,
        canonical_oracle::<O>(),
        O::poly_degree() == cfg.degree,
        masks.len() == cfg.num_rounds * cfg.mask_len(),
        all_canonical(masks),
        canonical(sum),
        follows(cfg.proved::<O>(tables, sum, masks, p).0.view, q),
    ensures
        ({
            let (end, mask_rlc) = cfg.proved::<O>(tables, sum, masks, p);
            &&& follows(p, end.view)
            &&& cfg.checked(sum, pending(p, q, tail)) == Some(
                (
                    CheckState {
                        sum: masked_sum(end, mask_rlc),
                        points: end.points,
                        view: pending(end.view, q, tail),
                    },
                    mask_rlc,
                ),
            )
        }),
{
    broadcast use lemma_residue_canonical;

    let n = cfg.num_rounds as nat;
    let (start, mask_rlc) = cfg.begin(tables, sum, masks, p);
    let end = cfg.run::<O>(start, mask_rlc, masks, n);
    lemma_run_follows::<O>(cfg, start, mask_rlc, masks, 0, n);
    lemma_follows_trans(start.view, end.view, q);
    if cfg.is_masked() {
        let mask_sum = cfg.initial_mask_sum(masks);
        let sent = p.send_field(mask_sum);
        lemma_follows_send(p, mask_sum as u64);
        lemma_follows_draw(sent, 0);
        lemma_follows_trans(sent, sent.draw(), q);
        law_read_field(p, mask_sum, q, tail);
        lemma_follows_trans(p, sent, start.view);
    } else {
        lemma_follows_refl(p);
        lemma_fmul_one(sum);
        lemma_add_zero(sum);
    }
    lemma_follows_trans(p, start.view, end.view);
    lemma_run_in_step::<O>(cfg, start, mask_rlc, masks, n, q, tail);
}

proof fn lemma_run_reduces_dot(
    cfg: &Config,
    start: RunState,
    mask_rlc: int,
    masks: Seq<int>,
    a: Seq<int>,
    b: Seq<int>,
    k: nat,
)
    requires
        cfg.wf(),
        k <= cfg.num_rounds,
        a.len() == cfg.initial_size,
        b.len() == cfg.initial_size,
        all_canonical(a),
        all_canonical(b),
        start.tables == seq![a, b],
        start.points == Seq::<int>::empty(),
        start.sum == dot_spec(a, b),
    ensures
        ({
            let st = cfg.run::<DotProductOracle>(start, mask_rlc, masks, k);
            &&& st.points.len() == k
            &&& all_canonical(st.points)
            &&& st.tables == seq![folded_all(a, st.points), folded_all(b, st.points)]
            &&& st.sum == dot_spec(st.tables[0], st.tables[1])
            &&& all_canonical(st.tables[0])
            &&& all_canonical(st.tables[1])
            &&& st.tables[0].len() == st.tables[1].len()
            &&& k > 0 ==> st.tables[0].len() == pow2((ceil_log2_spec(a.len()) - k) as nat)
            &&& ceil_log2_spec(st.tables[0].len()) == ceil_log2_spec(a.len()) - k
        }),
    decreases k,
{
    let st = cfg.run::<DotProductOracle>(start, mask_rlc, masks, k);
    if k > 0 {
        let m = (k - 1) as nat;
        let before = cfg.run::<DotProductOracle>(start, mask_rlc, masks, m);
        lemma_run_reduces_dot(cfg, start, mask_rlc, masks, a, b, m);
        let n = a.len();
        let rounds = cfg.num_rounds as nat;
        if ceil_log2_spec(n) < rounds {
            lemma_pow2_strictly_increases(ceil_log2_spec(n), rounds);
        }
        let ta = before.tables[0];
        let tb = before.tables[1];
        assert(ta.len() > 1) by {
            assert(ceil_log2_spec(ta.len()) >= 1);
        }
        crate::sumcheck::lemma_half_len(ta.len());
        let r = st.points.last();
        lemma_challenge_canonical(cfg, before, mask_rlc, masks, m);
        law_quadratic_round(ta, tb, r);
        assert(st.points.drop_last() =~= before.points);
        assert(st.tables =~= seq![folded_all(a, st.points), folded_all(b, st.points)]);
        crate::vector_laws::lemma_folded_canonical(ta, r);
        crate::vector_laws::lemma_folded_canonical(tb, r);
        assert(all_canonical(st.points));
    }
}

proof fn lemma_challenge_canonical(cfg: &Config, st: RunState, mask_rlc: int, masks: Seq<int>, m: nat)
    ensures
        canonical(cfg.step::<DotProductOracle>(st, mask_rlc, masks, m).points.last()),
{
    broadcast use lemma_residue_canonical;

}

/// A claim that holds is reduced to one that holds: the running sum without its
/// masks is the inner product of the folded vectors, and these are the vectors with
/// their first variables set to the challenges.
pub proof fn law_sumcheck_reduces_dot(
    cfg: &Config,
    a: Seq<int>,
    b: Seq<int>,
    masks: Seq<int>,
    p: ProverView,
)
    requires
        cfg.wf(),
        a.len() == cfg.initial_size,
        b.len() == cfg.initial_size,
        all_canonical(a),
        all_canonical(b),
    ensures
        ({
            let (end, mask_rlc) = cfg.proved::<DotProductOracle>(
                seq![a, b],
                dot_spec(a, b),
                masks,
                p,
            );
            &&& end.sum == dot_spec(end.tables[0], end.tables[1])
            &&& end.points.len() == cfg.num_rounds
            &&& all_canonical(end.points)
            &&& end.tables == seq![folded_all(a, end.points), folded_all(b, end.points)]
            &&& all_canonical(end.tables[0])
            &&& all_canonical(end.tables[1])
            &&& end.tables[0].len() == cfg.spec_final_size()
            &&& end.tables[1].len() == cfg.spec_final_size()
        }),
{
    let (start, mask_rlc) = cfg.begin(seq![a, b], dot_spec(a, b), masks, p);
    let n = cfg.num_rounds as nat;
    lemma_run_reduces_dot(cfg, start, mask_rlc, masks, a, b, n);
    let end = cfg.run::<DotProductOracle>(start, mask_rlc, masks, n);
    if n > 0 {
        let k = ceil_log2_spec(a.len());
        if k < n {
            lemma_pow2_strictly_increases(k, n);
        }
        crate::arith::lemma_pow2_sum((k - n) as nat, n);
        vstd::arithmetic::div_mod::lemma_div_multiples_vanish(
            pow2((k - n) as nat) as int,
            pow2(n) as int,
        );
        assert(pow2(n) * pow2((k - n) as nat) == pow2((k - n) as nat) * pow2(n)) by (nonlinear_arith);
        if a.len() == 0 {
            vstd::arithmetic::power2::lemma2_to64();
            lemma_pow2_strictly_increases(0, n);
        }
    } else {
        assert(end.points =~= Seq::<int>::empty());
    }
}

/// Every mask's value at its round's challenge.
pub open spec fn mask_values(masks: Seq<int>, mask_len: nat, points: Seq<int>) -> spec_fn(int) -> int {
    |j: int| evaluate(mask_of_round(masks, mask_len, j as nat), points[j])
}

/// The value of a masked polynomial is the mask's share plus `mask_rlc` times the
/// value of the polynomial.
proof fn lemma_masked_poly_value(
    poly: Seq<int>,
    mask: Seq<int>,
    mask_sum: int,
    mask_rlc: int,
    multiple: int,
    len: nat,
    r: int,
)
    requires
        all_canonical(poly),
        all_canonical(mask),
        canonical(mask_sum),
        canonical(mask_rlc),
        canonical(multiple),
        canonical(r),
        0 < poly.len() <= len,
        mask.len() <= len,
    ensures
        ({
            let u = masked_poly(poly, mask, mask_sum, mask_rlc, multiple, len);
            let correction = fmul(
                fsub(mask_sum, fmul(multiple, eval_01_spec(mask))),
                ONE_HALF as int,
            );
            fsub(evaluate(u, r), fmul(mask_rlc, evaluate(poly, r))) == fadd(
                fmul(multiple, evaluate(mask, r)),
                correction,
            )
        }),
{
    broadcast use {lemma_residue_canonical, lemma_fsum_canonical, lemma_fpow_canonical};

    let u = masked_poly(poly, mask, mask_sum, mask_rlc, multiple, len);
    let correction = fmul(fsub(mask_sum, fmul(multiple, eval_01_spec(mask))), ONE_HALF as int);
    assert(all_canonical(u)) by {
        assert forall|i: int| 0 <= i < u.len() implies canonical(#[trigger] u[i]) by {}
    }
    crate::vector_laws::law_evaluate_is_sum(u, r);
    crate::vector_laws::law_evaluate_is_sum(poly, r);
    crate::vector_laws::law_evaluate_is_sum(mask, r);
    let tu = crate::vector_laws::eval_terms(u, r);
    let tp = crate::vector_laws::eval_terms(poly, r);
    let tm = crate::vector_laws::eval_terms(mask, r);
    let own = |i: int|
        if i < mask.len() {
            fmul(multiple, tm(i))
        } else {
            0
        };
    let fix = |i: int|
        if i == 0 {
            correction
        } else {
            0
        };
    let main = |i: int|
        if i < poly.len() {
            fmul(mask_rlc, tp(i))
        } else {
            0
        };
    let own_fix = |i: int| fadd(own(i), fix(i));
    assert forall|i: int| 0 <= i < len implies #[trigger] tu(i) == fadd(own_fix(i), main(i)) by {
        let pw = fpow(r, i as nat);
        let om = if i < mask.len() {
            fmul(multiple, mask[i])
        } else {
            0
        };
        let pm = if i < poly.len() {
            fmul(mask_rlc, poly[i])
        } else {
            0
        };
        let fx = if i == 0 {
            correction
        } else {
            0
        };
        lemma_add_zero(om);
        let share = mask_share(mask, mask_sum, multiple, i);
        assert(share == fadd(om, fx));
        lemma_add_zero(share);
        assert(u[i] == fadd(share, pm));
        lemma_fmul_comm(u[i], pw);
        lemma_distribute(pw, share, pm);
        lemma_distribute(pw, om, fx);
        lemma_fmul_comm(pw, om);
        lemma_fmul_comm(pw, fx);
        lemma_fmul_comm(pw, pm);
        lemma_residue_id(0);
        assert(0 * pw == 0) by (nonlinear_arith);
        assert(fmul(om, pw) == own(i)) by {
            if i < mask.len() {
                assert(canonical(mask[i]));
                lemma_fmul_assoc(multiple, mask[i], pw);
            }
        }
        assert(fmul(pm, pw) == main(i)) by {
            if i < poly.len() {
                assert(canonical(poly[i]));
                lemma_fmul_assoc(mask_rlc, poly[i], pw);
            }
        }
        assert(fmul(fx, pw) == fix(i)) by {
            if i == 0 {
                lemma_fmul_one(correction);
            }
        }
    }
    assert(canonical_fn(own, len));
    assert(canonical_fn(fix, len));
    assert(canonical_fn(main, len));
    assert(canonical_fn(own_fix, len));
    lemma_fsum_add(own_fix, main, tu, len);
    lemma_fsum_add(own, fix, own_fix, len);
    lemma_fsum_single(fix, 0, len);
    lemma_fsum_trim(own, mask.len(), len);
    lemma_fsum_trim(main, poly.len(), len);
    lemma_fsum_scale(multiple, tm, own, mask.len());
    lemma_fsum_scale(mask_rlc, tp, main, poly.len());
    lemma_add_sub(
        fadd(fmul(multiple, evaluate(mask, r)), correction),
        fmul(mask_rlc, evaluate(poly, r)),
    );
}

/// `(a + b) - b == a`.
proof fn lemma_add_sub(a: int, b: int)
    requires
        canonical(a),
        canonical(b),
    ensures
        fsub(fadd(a, b), b) == a,
{
    broadcast use group_residue;

    lemma_residue_id(a);
    lemma_residue_id(b);
    assert(fsub(fadd(a, b), b) == residue((a + b) - b));
}

/// The masks still to come, weighted.
spec fn masks_to_come(masks: Seq<int>, mask_len: nat, n: nat, k: nat) -> int {
    if k < n {
        fmul(
            fpow(2, (n - k - 1) as nat),
            fsum(|i: int| mask_evals(masks, mask_len)(k + i), (n - k) as nat),
        )
    } else {
        0
    }
}

/// Half of `2 x + y`.
proof fn lemma_half_of(x: int, y: int)
    ensures
        fmul(residue(2 * x + y), ONE_HALF as int) == residue(x + y * (ONE_HALF as int)),
{
    let h = ONE_HALF as int;
    lemma_residue_id(h);
    crate::field::lemma_residue_mul(2 * x + y, h);
    assert((2 * x + y) * h == (2 * h) * x + y * h) by (nonlinear_arith);
    crate::field::lemma_residue_add((2 * h) * x, y * h);
    crate::field::lemma_residue_mul(2 * h, x);
    crate::field::lemma_residue_mul(1, x);
    crate::field::lemma_residue_add(x, y * h);
    assert(residue(2 * h) == residue(1)) by {
        reveal(residue);
    }
}

/// What is left to halve.
proof fn lemma_mask_difference(w: int, e: int, rest: int, m: int)
    requires
        canonical(w),
        canonical(e),
        canonical(rest),
        canonical(m),
    ensures
        fsub(fadd(fmul(fmul(w, 2), m), fmul(w, fadd(e, rest))), fmul(w, e)) == residue(
            2 * (w * m) + w * rest,
        ),
{
    broadcast use group_residue;

    lemma_residue_id(w);
    lemma_residue_id(e);
    lemma_residue_id(rest);
    lemma_residue_id(m);
    lemma_residue_id(2);
    assert(fmul(fmul(w, 2), m) == residue(w * 2 * m));
    assert(fmul(w, fadd(e, rest)) == residue(w * (e + rest)));
    assert(w * 2 * m + w * (e + rest) - w * e == 2 * (w * m) + w * rest) by (nonlinear_arith);
}

/// One round moves a mask from those to come to those evaluated.
proof fn lemma_mask_step(w: int, v: int, e: int, rest: int, m: int)
    requires
        canonical(w),
        canonical(v),
        canonical(e),
        canonical(rest),
        canonical(m),
    ensures
        ({
            // The mask sum before the round, and after it.
            let before = fadd(fmul(fmul(w, 2), m), fmul(w, fadd(e, rest)));
            let correction = fmul(fsub(before, fmul(w, e)), ONE_HALF as int);
            let h = fmul(w, ONE_HALF as int);
            fadd(fmul(w, v), correction) == fadd(fmul(w, fadd(m, v)), fmul(h, rest))
        }),
{
    let half = ONE_HALF as int;
    let wm = w * m;
    let wr = w * rest;
    lemma_mask_difference(w, e, rest, m);
    lemma_half_of(wm, wr);
    lemma_residue_id(w);
    lemma_residue_id(v);
    lemma_residue_id(rest);
    lemma_residue_id(m);
    lemma_residue_id(half);
    crate::field::lemma_residue_add(w * v, wm + wr * half);
    crate::field::lemma_residue_add(m, v);
    crate::field::lemma_residue_mul(w, m + v);
    crate::field::lemma_residue_mul(w, half);
    crate::field::lemma_residue_mul(w * half, rest);
    crate::field::lemma_residue_add(w * (m + v), w * half * rest);
    assert(w * (m + v) == wm + w * v) by (nonlinear_arith)
        requires
            wm == w * m,
    ;
    assert(w * half * rest == wr * half) by (nonlinear_arith)
        requires
            wr == w * rest,
    ;
}

/// Half of a power of two.
proof fn lemma_half_power(k: nat)
    requires
        k > 0,
    ensures
        fmul(fpow(2, k), ONE_HALF as int) == fpow(2, (k - 1) as nat),
{
    broadcast use {lemma_residue_canonical, lemma_fpow_canonical};

    let p = fpow(2, (k - 1) as nat);
    lemma_fmul_assoc(p, 2, ONE_HALF as int);
    assert(fmul(2, ONE_HALF as int) == 1) by {
        reveal(residue);
    }
    lemma_fmul_one(p);
}

proof fn lemma_run_masks<O: RoundPolyOracle>(
    cfg: &Config,
    start: RunState,
    mask_rlc: int,
    masks: Seq<int>,
    k: nat,
)
    requires
        cfg.wf(),
        canonical_oracle::<O>(),
        O::poly_degree() == cfg.degree,
        masks.len() == cfg.num_rounds * cfg.mask_len(),
        all_canonical(masks),
        canonical(mask_rlc),
        canonical(start.sum),
        start.points == Seq::<int>::empty(),
        start.mask_sum == masks_to_come(masks, cfg.mask_len(), cfg.num_rounds as nat, 0),
        k <= cfg.num_rounds,
    ensures
        ({
            let st = cfg.run::<O>(start, mask_rlc, masks, k);
            let n = cfg.num_rounds as nat;
            &&& st.points.len() == k
            &&& canonical(st.sum)
            &&& st.mask_sum == fadd(
                fmul(
                    fpow(2, (n - k) as nat),
                    fsum(mask_values(masks, cfg.mask_len(), st.points), k),
                ),
                masks_to_come(masks, cfg.mask_len(), n, k),
            )
        }),
    decreases k,
{
    broadcast use {lemma_residue_canonical, lemma_fpow_canonical, lemma_fsum_canonical, lemma_evaluate_canonical};

    let n = cfg.num_rounds as nat;
    let ml = cfg.mask_len();
    if k == 0 {
        let w = fpow(2, n);
        assert(w * 0 == 0) by (nonlinear_arith);
        lemma_residue_id(0);
        lemma_add_zero(start.mask_sum);
    } else {
        let i = (k - 1) as nat;
        lemma_run_masks::<O>(cfg, start, mask_rlc, masks, i);
        let before = cfg.run::<O>(start, mask_rlc, masks, i);
        let st = cfg.run::<O>(start, mask_rlc, masks, k);
        let r = st.points.last();
        let mask = mask_of_round(masks, ml, i);
        let cs = O::coefficients(before.tables);
        assert(all_canonical(cs) && cs.len() == cfg.degree);
        let poly = with_linear(before.sum, cs);
        assert(all_canonical(poly)) by {
            assert forall|j: int| 0 <= j < poly.len() implies canonical(#[trigger] poly[j]) by {
                if j != 1 {
                    assert(canonical(cs[if j == 0 {
                        0
                    } else {
                        j - 1
                    }]));
                }
            }
        }
        assert(i * ml + ml <= n * ml) by (nonlinear_arith)
            requires
                i < n,
        ;
        assert(i * ml >= 0) by (nonlinear_arith);
        assert(all_canonical(mask)) by {
            assert forall|j: int| 0 <= j < mask.len() implies canonical(#[trigger] mask[j]) by {
                assert(canonical(masks[i * ml + j]));
            }
        }
        let w = fpow(2, (n - i - 1) as nat);
        lemma_masked_poly_value(poly, mask, before.mask_sum, mask_rlc, w, cfg.poly_len(), r);
        // The mask moves from those to come to those evaluated.
        let values_before = mask_values(masks, ml, before.points);
        let values = mask_values(masks, ml, st.points);
        assert forall|j: int| 0 <= j < i implies #[trigger] values_before(j) == values(j) by {
            assert(st.points[j] == before.points[j]);
        }
        lemma_fsum_eq(values_before, values, i);
        let v = evaluate(mask, r);
        assert(values(i as int) == v);
        let e = eval_01_spec(mask);
        let all = mask_evals(masks, ml);
        let coming = |j: int| all(i + j);
        let later = |j: int| all(k + j);
        let left = (n - k) as nat;
        assert(canonical_fn(coming, (n - i) as nat)) by {
            assert forall|j: int| 0 <= j < n - i implies canonical(#[trigger] coming(j)) by {
                lemma_residue_id(0);
            }
        }
        assert forall|j: int| 0 <= j < left implies #[trigger] later(j) == coming(1 + j) by {
            assert(k + j == i + (1 + j));
        }
        lemma_fsum_split(coming, later, 1, left);
        reveal_with_fuel(fsum, 2);
        assert(coming(0) == e);
        assert(canonical(e)) by {
            lemma_residue_id(0);
        }
        lemma_add_zero(e);
        let rest = fsum(later, left);
        assert(1 + left == (n - i) as nat);
        assert(fsum(coming, (n - i) as nat) == fadd(e, rest));
        let m = fsum(values, i);
        assert(fpow(2, (n - i) as nat) == fmul(w, 2));
        lemma_mask_step(w, v, e, rest, m);
        let h = fmul(w, ONE_HALF as int);
        if left > 0 {
            lemma_half_power((n - i - 1) as nat);
            assert(masks_to_come(masks, ml, n, k) == fmul(h, rest));
        } else {
            assert(h * 0 == 0) by (nonlinear_arith);
            lemma_residue_id(0);
        }
    }
}

/// The masks' share of the final running sum is the sum of every mask's value at
/// its round's challenge; the rest is `mask_rlc` times the sum without masks.
pub proof fn law_sumcheck_masks<O: RoundPolyOracle>(
    cfg: &Config,
    tables: Seq<Seq<int>>,
    sum: int,
    masks: Seq<int>,
    p: ProverView,
)
    requires
        cfg.wf(),
        canonical_oracle::<O>(),
        O::poly_degree() == cfg.degree,
        masks.len() == cfg.num_rounds * cfg.mask_len(),
        all_canonical(masks),
        canonical(sum),
    ensures
        ({
            let (end, mask_rlc) = cfg.proved::<O>(tables, sum, masks, p);
            &&& end.points.len() == cfg.num_rounds
            &&& end.mask_sum == fsum(
                mask_values(masks, cfg.mask_len(), end.points),
                cfg.num_rounds as nat,
            )
        }),
{
    broadcast use {lemma_residue_canonical, lemma_fsum_canonical};

    let n = cfg.num_rounds as nat;
    let ml = cfg.mask_len();
    let (start, mask_rlc) = cfg.begin(tables, sum, masks, p);
    let coming = |i: int| mask_evals(masks, ml)(0 + i);
    if n > 0 {
        lemma_fsum_eq(coming, mask_evals(masks, ml), n);
        let s = fsum(mask_evals(masks, ml), n);
        lemma_fmul_comm(s, fpow(2, (n - 1) as nat));
        if !cfg.is_masked() {
            assert forall|j: int| 0 <= j < n implies #[trigger] mask_evals(masks, ml)(j) == 0 by {}
            lemma_fsum_zero(mask_evals(masks, ml), n);
            let w = fpow(2, (n - 1) as nat);
            assert(w * 0 == 0) by (nonlinear_arith);
            lemma_residue_id(0);
        }
    }
    assert(start.mask_sum == masks_to_come(masks, ml, n, 0));
    lemma_run_masks::<O>(cfg, start, mask_rlc, masks, n);
    let end = cfg.run::<O>(start, mask_rlc, masks, n);
    let s = fsum(mask_values(masks, ml, end.points), n);
    lemma_fmul_one(s);
    lemma_add_zero(s);
}

/// The lengths of the folded vectors, whatever the claimed sum.
pub proof fn lemma_final_tables(
    cfg: &Config,
    a: Seq<int>,
    b: Seq<int>,
    sum: int,
    masks: Seq<int>,
    p: ProverView,
)
    requires
        cfg.wf(),
        a.len() == cfg.initial_size,
        b.len() == cfg.initial_size,
    ensures
        ({
            let end = cfg.proved::<DotProductOracle>(seq![a, b], sum, masks, p).0;
            &&& end.tables.len() == 2
            &&& end.tables[0].len() == cfg.spec_final_size()
            &&& end.tables[1].len() == cfg.spec_final_size()
        }),
{
    let (start, rlc) = cfg.begin(seq![a, b], sum, masks, p);
    let n = cfg.num_rounds as nat;
    lemma_run_lengths(cfg, start, rlc, masks, a.len(), n);
    if n > 0 {
        lemma_final_size(cfg);
    }
}

proof fn lemma_final_size(cfg: &Config)
    requires
        cfg.wf(),
        cfg.num_rounds > 0,
    ensures
        cfg.spec_final_size() == pow2(
            (ceil_log2_spec(cfg.initial_size as nat) - cfg.num_rounds) as nat,
        ),
        cfg.num_rounds <= ceil_log2_spec(cfg.initial_size as nat),
        cfg.initial_size > 1,
{
    let n = cfg.num_rounds as nat;
    let k = ceil_log2_spec(cfg.initial_size as nat);
    if k < n {
        lemma_pow2_strictly_increases(k, n);
    }
    crate::arith::lemma_pow2_sum((k - n) as nat, n);
    vstd::arithmetic::div_mod::lemma_div_multiples_vanish(
        pow2((k - n) as nat) as int,
        pow2(n) as int,
    );
    assert(pow2(n) * pow2((k - n) as nat) == pow2((k - n) as nat) * pow2(n)) by (nonlinear_arith);
}

proof fn lemma_run_lengths(
    cfg: &Config,
    start: RunState,
    mask_rlc: int,
    masks: Seq<int>,
    len: nat,
    k: nat,
)
    requires
        cfg.wf(),
        len == cfg.initial_size,
        k <= cfg.num_rounds,
        start.tables.len() == 2,
        start.tables[0].len() == len,
        start.tables[1].len() == len,
    ensures
        ({
            let st = cfg.run::<DotProductOracle>(start, mask_rlc, masks, k);
            &&& st.tables.len() == 2
            &&& st.tables[0].len() == st.tables[1].len()
            &&& k == 0 ==> st.tables[0].len() == len
            &&& k > 0 ==> st.tables[0].len() == pow2((ceil_log2_spec(len) - k) as nat)
            &&& ceil_log2_spec(st.tables[0].len()) == ceil_log2_spec(len) - k
        }),
    decreases k,
{
    if k > 0 {
        lemma_final_size(cfg);
        let m = (k - 1) as nat;
        lemma_run_lengths(cfg, start, mask_rlc, masks, len, m);
        let before = cfg.run::<DotProductOracle>(start, mask_rlc, masks, m);
        assert(ceil_log2_spec(before.tables[0].len()) >= 1);
        crate::sumcheck::lemma_half_len(before.tables[0].len());
    }
}

/// A vector that is folded to one entry has no more entries than the point's
/// hypercube has corners.
pub proof fn lemma_size_bound(cfg: &Config)
    requires
        cfg.wf(),
        cfg.spec_final_size() == 1,
    ensures
        cfg.initial_size <= pow2(cfg.num_rounds as nat),
        ceil_log2_spec(cfg.initial_size as nat) == cfg.num_rounds,
{
    lemma_ceil_log2(cfg.initial_size as nat);
    vstd::arithmetic::power2::lemma2_to64();
    if cfg.num_rounds > 0 {
        lemma_final_size(cfg);
        crate::arith::lemma_pow2_injective(
            (ceil_log2_spec(cfg.initial_size as nat) - cfg.num_rounds) as nat,
            0,
        );
    }
}

/// The final sum is canonical.
pub proof fn lemma_final_sum_canonical(cfg: &Config, tables: Seq<Seq<int>>, sum: int, p: ProverView)
    requires
        canonical(sum),
    ensures
        canonical(cfg.proved::<DotProductOracle>(tables, sum, Seq::empty(), p).0.sum),
{
    broadcast use lemma_residue_canonical;

    let (start, rlc) = cfg.begin(tables, sum, Seq::empty(), p);
    lemma_residue_id(0);
    lemma_run_canonical::<DotProductOracle>(cfg, start, rlc, Seq::empty(), cfg.num_rounds as nat);
}

/// The challenges are canonical, as is their factor.
pub proof fn lemma_points_canonical(
    cfg: &Config,
    tables: Seq<Seq<int>>,
    sum: int,
    masks: Seq<int>,
    p: ProverView,
)
    ensures
        ({
            let (end, rlc) = cfg.proved::<DotProductOracle>(tables, sum, masks, p);
            &&& all_canonical(end.points)
            &&& end.points.len() == cfg.num_rounds
            &&& canonical(rlc)
        }),
{
    broadcast use lemma_residue_canonical;

    let (start, rlc) = cfg.begin(tables, sum, masks, p);
    lemma_run_points(cfg, start, rlc, masks, cfg.num_rounds as nat);
}

proof fn lemma_run_points(cfg: &Config, start: RunState, rlc: int, masks: Seq<int>, k: nat)
    requires
        start.points == Seq::<int>::empty(),
    ensures
        all_canonical(cfg.run::<DotProductOracle>(start, rlc, masks, k).points),
        cfg.run::<DotProductOracle>(start, rlc, masks, k).points.len() == k,
    decreases k,
{
    if k > 0 {
        let m = (k - 1) as nat;
        lemma_run_points(cfg, start, rlc, masks, m);
        lemma_challenge_canonical(
            cfg,
            cfg.run::<DotProductOracle>(start, rlc, masks, m),
            rlc,
            masks,
            m,
        );
    }
}

/// To prove a vector through an embedding is to prove the lifted vector through the
/// identity: both runs send the same messages, draw the same challenges, and end with the
/// same folded vectors, sums and mask combination.
pub proof fn law_embedded_proof_is_lifted_proof<M: Embedding>(
    cfg: &Config,
    embedding: M,
    a: Seq<M::Source>,
    lifted: Seq<Field64>,
    b: Seq<int>,
    sum: int,
    masks: Seq<int>,
    p: ProverView,
)
    requires
        vals(lifted) == images(embedding, a),
    ensures
        cfg.proved::<DotProductOracle>(seq![images(embedding, a), b], sum, masks, p)
            == cfg.proved::<DotProductOracle>(seq![images(Identity, lifted), b], sum, masks, p),
{
    law_lift_once(embedding, a, lifted);
}

} // verus!
