//! What masks are for: rows that are opened, as many as a mask is long, tell nothing of the
//! message. Whatever the message, some mask gives the same rows.

use crate::algebra::{evaluate, geometric, scaled, zeros_spec};
use crate::chunks::law_evaluate_concat;
use crate::code_laws::law_points_are_different;
use crate::field::{
    all_canonical, canonical, fadd, fmul, fpow, fsub, lemma_cancel, lemma_fmul_comm,
    lemma_fpow_canonical, lemma_residue_canonical, lemma_residue_id, quotient, MODULUS,
};
use crate::irs_commit::Config;
use crate::orders::is_order;
use crate::polynomial_laws::{all_different, lemma_difference, lemma_evaluate_difference, vdiff};
use crate::soundness_laws::law_quotient_times_divisor;
use crate::sumcheck_laws::lemma_evaluate_canonical;
use crate::vector_laws::{law_dot_scaled, law_evaluate_is_dot};
use vstd::prelude::*;

verus! {

/// A product is zero only if a factor is.
pub proof fn law_no_zero_divisors(a: int, b: int)
    requires
        canonical(a),
        canonical(b),
        fmul(a, b) == 0,
    ensures
        a == 0 || b == 0,
{
    if b != 0 {
        assert(0 * b == 0) by (nonlinear_arith);
        lemma_residue_id(0);
        lemma_cancel(a, 0, b);
    }
}

proof fn lemma_evaluate_scaled(p: Seq<int>, c: int, x: int)
    requires
        all_canonical(p),
        canonical(c),
        canonical(x),
    ensures
        evaluate(scaled(p, c), x) == fmul(c, evaluate(p, x)),
        all_canonical(scaled(p, c)),
{
    broadcast use {lemma_residue_canonical, lemma_fpow_canonical};

    law_evaluate_is_dot(p, x);
    law_evaluate_is_dot(scaled(p, c), x);
    law_dot_scaled(p, geometric(1, x, p.len()), c);
}

proof fn lemma_zero_tail(p: Seq<int>, n: nat, x: int)
    requires
        all_canonical(p),
        canonical(x),
    ensures
        evaluate(p + zeros_spec(n), x) == evaluate(p, x),
        all_canonical(p + zeros_spec(n)),
{
    broadcast use lemma_evaluate_canonical;

    let z = zeros_spec(n);
    assert(all_canonical(z));
    law_evaluate_concat(p, z, x);
    lemma_zeros(n, x);
    let t = fpow(x, p.len());
    assert(t * 0 == 0) by (nonlinear_arith);
    lemma_residue_id(0);
    lemma_residue_id(evaluate(p, x));
}

proof fn lemma_zeros(n: nat, x: int)
    ensures
        evaluate(zeros_spec(n), x) == 0,
    decreases n,
{
    if n > 0 {
        assert(zeros_spec(n).drop_first() =~= zeros_spec((n - 1) as nat));
        lemma_zeros((n - 1) as nat, x);
        assert(x * 0 == 0) by (nonlinear_arith);
        lemma_residue_id(0);
    }
}

/// A polynomial times `x - r`.
spec fn times_linear(p: Seq<int>, r: int) -> Seq<int> {
    vdiff(seq![0int] + p, scaled(p, r) + zeros_spec(1))
}

proof fn lemma_times_linear(p: Seq<int>, r: int, x: int)
    requires
        all_canonical(p),
        canonical(r),
        canonical(x),
    ensures
        times_linear(p, r).len() == p.len() + 1,
        all_canonical(times_linear(p, r)),
        evaluate(times_linear(p, r), x) == fmul(fsub(x, r), evaluate(p, x)),
{
    broadcast use {lemma_residue_canonical, lemma_evaluate_canonical};

    let (a, b) = (seq![0int] + p, scaled(p, r) + zeros_spec(1));
    lemma_evaluate_scaled(p, r, x);
    lemma_zero_tail(scaled(p, r), 1, x);
    assert(all_canonical(a)) by {
        assert forall|i: int| 0 <= i < a.len() implies canonical(#[trigger] a[i]) by {
            if i > 0 {
                assert(canonical(p[i - 1]));
            }
        }
    }
    lemma_evaluate_difference(a, b, x);
    assert(a.drop_first() =~= p);
    let v = evaluate(p, x);
    let xv = fmul(x, v);
    lemma_residue_id(xv);
    assert(evaluate(a, x) == fadd(0, xv));
    assert(fsub(fmul(x, v), fmul(r, v)) == fmul(fsub(x, r), v)) by {
        crate::field::lemma_residue_sub(x * v, r * v);
        crate::field::lemma_residue_mul(x - r, v);
        lemma_residue_id(v);
        assert(x * v - r * v == (x - r) * v) by (nonlinear_arith);
    }
}

/// A polynomial that is zero at the given points and nowhere else.
proof fn lemma_vanishing(xs: Seq<int>) -> (z: Seq<int>)
    requires
        all_canonical(xs),
    ensures
        z.len() == xs.len() + 1,
        all_canonical(z),
        forall|i: int| 0 <= i < xs.len() ==> evaluate(z, #[trigger] xs[i]) == 0,
        forall|x: int|
            canonical(x) && !xs.contains(x) ==> #[trigger] evaluate(z, x) != 0,
    decreases xs.len(),
{
    broadcast use lemma_evaluate_canonical;

    lemma_residue_id(0);
    lemma_residue_id(1);
    if xs.len() == 0 {
        let z = seq![1int];
        assert forall|x: int| canonical(x) && !xs.contains(x) implies #[trigger] evaluate(z, x) != 0 by {
            assert(z.drop_first().len() == 0);
            assert(evaluate(z.drop_first(), x) == 0);
            assert(x * 0 == 0) by (nonlinear_arith);
            assert(evaluate(z, x) == fadd(1, fmul(x, 0)));
        }
        z
    } else {
        let before = xs.drop_last();
        let r = xs.last();
        assert(canonical(xs[xs.len() - 1]));
        assert(all_canonical(before)) by {
            assert forall|i: int| 0 <= i < before.len() implies canonical(#[trigger] before[i]) by {
                assert(canonical(xs[i]));
            }
        }
        let y = lemma_vanishing(before);
        let z = times_linear(y, r);
        assert forall|i: int| 0 <= i < xs.len() implies evaluate(z, #[trigger] xs[i]) == 0 by {
            assert(canonical(xs[i]));
            lemma_times_linear(y, r, xs[i]);
            let v = evaluate(y, xs[i]);
            let d = fsub(xs[i], r);
            if i < before.len() {
                assert(before[i] == xs[i]);
                assert(d * 0 == 0) by (nonlinear_arith);
            } else {
                assert(d == 0);
                assert(0 * v == 0) by (nonlinear_arith);
            }
        }
        assert forall|x: int| canonical(x) && !xs.contains(x) implies #[trigger] evaluate(z, x) != 0 by {
            lemma_times_linear(y, r, x);
            assert(!before.contains(x)) by {
                if before.contains(x) {
                    let i = before.index_of(x);
                    assert(xs[i] == x);
                }
            }
            assert(x != r) by {
                assert(xs[xs.len() - 1] == r);
            }
            if evaluate(z, x) == 0 {
                lemma_residue_canonical(x - r);
                law_no_zero_divisors(fsub(x, r), evaluate(y, x));
                lemma_difference(x, r);
            }
        }
        lemma_times_linear(y, r, 0);
        z
    }
}

/// Interpolation: for as many points, all different, as there are values, some polynomial
/// with as many coefficients has the values at the points.
pub proof fn law_interpolation(xs: Seq<int>, ys: Seq<int>) -> (p: Seq<int>)
    requires
        all_different(xs),
        all_canonical(ys),
        ys.len() == xs.len(),
    ensures
        p.len() == xs.len(),
        all_canonical(p),
        forall|i: int| 0 <= i < xs.len() ==> evaluate(p, #[trigger] xs[i]) == ys[i],
    decreases xs.len(),
{
    broadcast use {lemma_residue_canonical, lemma_evaluate_canonical};

    if xs.len() == 0 {
        Seq::empty()
    } else {
        let m = xs.len() - 1;
        let (before, values) = (xs.drop_last(), ys.drop_last());
        assert(all_canonical(before) && all_canonical(values)) by {
            assert forall|i: int| 0 <= i < m implies canonical(#[trigger] before[i]) by {
                assert(canonical(xs[i]));
            }
            assert forall|i: int| 0 <= i < m implies canonical(#[trigger] values[i]) by {
                assert(canonical(ys[i]));
            }
        }
        assert forall|i: int, j: int| 0 <= i < j < before.len() implies #[trigger] before[i]
            != #[trigger] before[j] by {
            assert(xs[i] != xs[j]);
        }
        let q = law_interpolation(before, values);
        let z = lemma_vanishing(before);
        let (x, y) = (xs[m], ys[m]);
        assert(canonical(x) && canonical(y));
        assert(!before.contains(x)) by {
            if before.contains(x) {
                let i = before.index_of(x);
                assert(xs[i] == xs[m]);
            }
        }
        let zx = evaluate(z, x);
        assert(zx != 0);
        let long = q + zeros_spec(1);
        // `q - c z`, with `c z(x) == q(x) - y`.
        let gap = fsub(evaluate(q, x), y);
        let c = quotient(gap, zx);
        law_quotient_times_divisor(gap, zx);
        let cz = scaled(z, c);
        let p = vdiff(long, cz);
        assert forall|i: int| 0 <= i < xs.len() implies evaluate(p, #[trigger] xs[i]) == ys[i] by {
            let xi = xs[i];
            assert(canonical(xi) && canonical(ys[i]));
            lemma_zero_tail(q, 1, xi);
            lemma_evaluate_scaled(z, c, xi);
            lemma_evaluate_difference(long, cz, xi);
            if i < m {
                assert(before[i] == xi);
                assert(values[i] == ys[i]);
                assert(c * 0 == 0) by (nonlinear_arith);
                lemma_residue_id(0);
                lemma_residue_id(ys[i]);
            } else {
                lemma_fmul_comm(c, zx);
                lemma_take_back(evaluate(q, x), y);
            }
        }
        lemma_zero_tail(q, 1, 0);
        lemma_evaluate_scaled(z, c, 0);
        p
    }
}

proof fn lemma_take_back(a: int, b: int)
    requires
        canonical(a),
        canonical(b),
    ensures
        fsub(a, fsub(a, b)) == b,
{
    lemma_residue_id(a);
    lemma_residue_id(b);
    crate::field::lemma_residue_sub(a, b);
    crate::field::lemma_residue_sub(a, a - b);
}

proof fn lemma_power_not_zero(x: int, n: nat)
    requires
        0 < x < MODULUS,
    ensures
        0 < fpow(x, n) < MODULUS,
    decreases n,
{
    broadcast use lemma_fpow_canonical;

    if n > 0 {
        lemma_power_not_zero(x, (n - 1) as nat);
        if fpow(x, n) == 0 {
            law_no_zero_divisors(fpow(x, (n - 1) as nat), x);
        }
    }
}

/// Rows hide messages: at no more points, all different and none zero, than a mask is long,
/// every other message has, with some mask, the same values.
pub proof fn law_mask_hides(
    message: Seq<int>,
    mask: Seq<int>,
    other: Seq<int>,
    xs: Seq<int>,
) -> (fitting: Seq<int>)
    requires
        all_canonical(message),
        all_canonical(mask),
        all_canonical(other),
        other.len() == message.len(),
        all_different(xs),
        forall|i: int| 0 <= i < xs.len() ==> #[trigger] xs[i] != 0,
        xs.len() <= mask.len(),
    ensures
        fitting.len() == mask.len(),
        all_canonical(fitting),
        forall|i: int|
            0 <= i < xs.len() ==> evaluate(other + fitting, #[trigger] xs[i]) == evaluate(
                message + mask,
                xs[i],
            ),
{
    broadcast use {lemma_residue_canonical, lemma_evaluate_canonical, lemma_fpow_canonical};

    let l = other.len();
    let ys = Seq::new(
        xs.len(),
        |i: int|
            quotient(
                fsub(evaluate(message + mask, xs[i]), evaluate(other, xs[i])),
                fpow(xs[i], l),
            ),
    );
    assert forall|i: int| 0 <= i < ys.len() implies canonical(#[trigger] ys[i]) && fmul(
        ys[i],
        fpow(xs[i], l),
    ) == fsub(evaluate(message + mask, xs[i]), evaluate(other, xs[i])) by {
        assert(canonical(xs[i]) && xs[i] != 0);
        lemma_power_not_zero(xs[i], l);
        law_quotient_times_divisor(
            fsub(evaluate(message + mask, xs[i]), evaluate(other, xs[i])),
            fpow(xs[i], l),
        );
    }
    let p = law_interpolation(xs, ys);
    let fitting = p + zeros_spec((mask.len() - xs.len()) as nat);
    assert forall|i: int| 0 <= i < xs.len() implies evaluate(other + fitting, #[trigger] xs[i])
        == evaluate(message + mask, xs[i]) by {
        let x = xs[i];
        assert(canonical(x));
        assert(canonical(ys[i]));
        lemma_zero_tail(p, (mask.len() - xs.len()) as nat, x);
        law_evaluate_concat(other, fitting, x);
        lemma_fmul_comm(fpow(x, l), ys[i]);
        let (a, b) = (evaluate(message + mask, x), evaluate(other, x));
        lemma_residue_id(a);
        lemma_residue_id(b);
        crate::field::lemma_residue_sub(a, b);
        crate::field::lemma_residue_add(b, a - b);
    }
    lemma_zero_tail(p, (mask.len() - xs.len()) as nat, 0);
    fitting
}

/// The rows of a code that are opened, no more than the mask is long, tell nothing of the
/// column's message.
pub proof fn law_opened_rows_hide(
    cfg: &Config,
    message: Seq<int>,
    mask: Seq<int>,
    other: Seq<int>,
    rows: Seq<nat>,
) -> (fitting: Seq<int>)
    requires
        is_order(cfg.codeword_length as nat),
        all_canonical(message),
        all_canonical(mask),
        all_canonical(other),
        other.len() == message.len(),
        rows.len() <= mask.len(),
        forall|i: int| 0 <= i < rows.len() ==> #[trigger] rows[i] < cfg.codeword_length,
        forall|i: int, j: int| 0 <= i < j < rows.len() ==> #[trigger] rows[i] != #[trigger] rows[j],
    ensures
        fitting.len() == mask.len(),
        all_canonical(fitting),
        forall|i: int|
            0 <= i < rows.len() ==> evaluate(other + fitting, cfg.point(#[trigger] rows[i]))
                == evaluate(message + mask, cfg.point(rows[i])),
{
    broadcast use lemma_fpow_canonical;

    let xs = Seq::new(rows.len(), |i: int| cfg.point(rows[i]));
    assert forall|i: int, j: int| 0 <= i < j < xs.len() implies #[trigger] xs[i] != #[trigger] xs[j] by {
        assert(rows[i] != rows[j]);
        if rows[i] < rows[j] {
            law_points_are_different(cfg, rows[i], rows[j]);
        } else {
            law_points_are_different(cfg, rows[j], rows[i]);
        }
    }
    assert forall|i: int| 0 <= i < xs.len() implies #[trigger] xs[i] != 0 by {
        assert(rows[i] < cfg.codeword_length);
        crate::code_laws::law_point_is_not_zero(cfg, rows[i]);
    }
    let fitting = law_mask_hides(message, mask, other, xs);
    assert forall|i: int| 0 <= i < rows.len() implies evaluate(
        other + fitting,
        cfg.point(#[trigger] rows[i]),
    ) == evaluate(message + mask, cfg.point(rows[i])) by {
        assert(xs[i] == cfg.point(rows[i]));
    }
    fitting
}

} // verus!
