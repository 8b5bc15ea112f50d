//! A polynomial that is not zero has fewer roots than coefficients; so claims that are
//! combined by the powers of a challenge can be told apart.

use crate::algebra::{dot_spec, evaluate, geometric};
use crate::field::{
    all_canonical, canonical, fadd, fmul, fpow, fsub, group_residue, lemma_cancel,
    lemma_fpow_canonical, lemma_residue_canonical, lemma_residue_id, residue, MODULUS,
};
use crate::vector_laws::law_evaluate_is_dot;
use vstd::arithmetic::power::pow;
use vstd::prelude::*;

verus! {

/// A field power is the remainder of the integer power.
pub proof fn law_power_is_remainder(x: int, n: nat)
    requires
        canonical(x),
    ensures
        fpow(x, n) == pow(x, n) % (MODULUS as int),
    decreases n,
{
    broadcast use group_residue;

    reveal(residue);
    reveal(pow);
    if n > 0 {
        let m = (n - 1) as nat;
        law_power_is_remainder(x, m);
        lemma_residue_id(x);
        assert(fpow(x, n) == fmul(residue(pow(x, m)), residue(x)));
        assert(pow(x, n) == x * pow(x, m));
        assert(pow(x, m) * x == x * pow(x, m)) by (nonlinear_arith);
    }
}

/// The weights by which `n` claims are combined are the integer powers of the challenge,
/// reduced: one, the challenge, its square, and so on.
pub proof fn law_weights_are_powers(c: int, n: nat)
    requires
        canonical(c),
    ensures
        geometric(1, c, n).len() == n,
        forall|i: int|
            0 <= i < n ==> #[trigger] geometric(1, c, n)[i] == pow(c, i as nat) % (MODULUS as int),
{
    broadcast use lemma_fpow_canonical;

    assert forall|i: int| 0 <= i < n implies #[trigger] geometric(1, c, n)[i] == pow(c, i as nat) % (
    MODULUS as int) by {
        law_power_is_remainder(c, i as nat);
        crate::field::lemma_fmul_one(fpow(c, i as nat));
    }
}

/// Is this a polynomial without a coefficient other than zero?
pub open spec fn is_zero(p: Seq<int>) -> bool {
    forall|i: int| 0 <= i < p.len() ==> #[trigger] p[i] == 0
}

/// Are the entries canonical and all different?
pub open spec fn all_different(cs: Seq<int>) -> bool {
    &&& all_canonical(cs)
    &&& forall|i: int, j: int| 0 <= i < j < cs.len() ==> #[trigger] cs[i] != #[trigger] cs[j]
}

/// The quotient of a polynomial, less its value at `r`, by `x - r`.
spec fn divided(p: Seq<int>, r: int) -> Seq<int>
    decreases p.len(),
{
    if p.len() <= 1 {
        Seq::empty()
    } else {
        seq![evaluate(p.drop_first(), r)] + divided(p.drop_first(), r)
    }
}

proof fn lemma_tail_canonical(p: Seq<int>)
    requires
        all_canonical(p),
        p.len() > 0,
    ensures
        all_canonical(p.drop_first()),
{
    assert forall|i: int| 0 <= i < p.drop_first().len() implies canonical(#[trigger] p.drop_first()[i]) by {
        assert(canonical(p[i + 1]));
    }
}

proof fn lemma_evaluate_canonical(p: Seq<int>, x: int)
    ensures
        canonical(evaluate(p, x)),
{
    broadcast use lemma_residue_canonical;

}

/// `(p0 + x a) - (p0 + r b) == (x - r) (b + x q)`, where `a - b == (x - r) q`.
proof fn lemma_factor_step(p0: int, x: int, r: int, a: int, b: int, q: int)
    requires
        canonical(p0),
        canonical(x),
        canonical(r),
        canonical(a),
        canonical(b),
        canonical(q),
        fsub(a, b) == fmul(fsub(x, r), q),
    ensures
        fsub(fadd(p0, fmul(x, a)), fadd(p0, fmul(r, b))) == fmul(
            fsub(x, r),
            fadd(b, fmul(x, q)),
        ),
{
    broadcast use group_residue;

    lemma_residue_id(p0);
    lemma_residue_id(x);
    lemma_residue_id(r);
    lemma_residue_id(a);
    lemma_residue_id(b);
    lemma_residue_id(q);
    assert(fsub(fadd(p0, fmul(x, a)), fadd(p0, fmul(r, b))) == residue(
        (p0 + x * a) - (p0 + r * b),
    ));
    assert(fmul(fsub(x, r), fadd(b, fmul(x, q))) == residue((x - r) * (b + x * q)));
    let d = residue((x - r) * q);
    assert(d == residue(a - b)) by {
        assert(fmul(fsub(x, r), q) == residue((x - r) * q));
    }
    assert((x - r) * (b + x * q) == (x - r) * b + x * ((x - r) * q)) by (nonlinear_arith);
    assert((p0 + x * a) - (p0 + r * b) == (x - r) * b + x * (a - b)) by (nonlinear_arith);
    assert(residue((x - r) * b + x * ((x - r) * q)) == fadd(
        residue((x - r) * b),
        fmul(residue(x), d),
    ));
    assert(residue((x - r) * b + x * (a - b)) == fadd(
        residue((x - r) * b),
        fmul(residue(x), residue(a - b)),
    ));
}

/// A polynomial's values at two points differ by a multiple of the points' difference.
proof fn lemma_factor(p: Seq<int>, x: int, r: int)
    requires
        all_canonical(p),
        canonical(x),
        canonical(r),
    ensures
        fsub(evaluate(p, x), evaluate(p, r)) == fmul(fsub(x, r), evaluate(divided(p, r), x)),
        p.len() > 0 ==> divided(p, r).len() == p.len() - 1,
        all_canonical(divided(p, r)),
    decreases p.len(),
{
    broadcast use lemma_residue_canonical;

    let q = divided(p, r);
    if p.len() <= 1 {
        if p.len() == 1 {
            let e = p.drop_first();
            assert(e =~= Seq::<int>::empty());
            assert(canonical(p[0]));
            lemma_residue_id(p[0]);
            lemma_residue_id(0);
            assert(x * 0 == 0) by (nonlinear_arith);
            assert(r * 0 == 0) by (nonlinear_arith);
            assert(evaluate(e, x) == 0 && evaluate(e, r) == 0);
            lemma_residue_id(0);
            assert(evaluate(p, x) == p[0]);
            assert(evaluate(p, r) == p[0]);
        }
        lemma_residue_id(0);
        assert(evaluate(q, x) == 0);
        let d = fsub(x, r);
        assert(d * 0 == 0) by (nonlinear_arith);
    } else {
        let t = p.drop_first();
        lemma_tail_canonical(p);
        lemma_factor(t, x, r);
        let qt = divided(t, r);
        assert(q.drop_first() =~= qt);
        assert(q[0] == evaluate(t, r));
        assert(canonical(p[0]));
        lemma_evaluate_canonical(t, x);
        lemma_evaluate_canonical(t, r);
        lemma_evaluate_canonical(qt, x);
        lemma_factor_step(p[0], x, r, evaluate(t, x), evaluate(t, r), evaluate(qt, x));
        assert forall|i: int| 0 <= i < q.len() implies canonical(#[trigger] q[i]) by {
            if i > 0 {
                assert(q[i] == qt[i - 1]);
            }
        }
    }
}

/// With a root and a quotient of zero, a polynomial is zero.
proof fn lemma_zero_quotient(p: Seq<int>, r: int)
    requires
        all_canonical(p),
        canonical(r),
        evaluate(p, r) == 0,
        is_zero(divided(p, r)),
    ensures
        is_zero(p),
    decreases p.len(),
{
    if p.len() > 0 {
        let t = p.drop_first();
        lemma_tail_canonical(p);
        assert(canonical(p[0]));
        lemma_residue_id(p[0]);
        if p.len() == 1 {
            assert(t =~= Seq::<int>::empty());
            assert(evaluate(t, r) == 0);
        } else {
            let q = divided(p, r);
            let qt = divided(t, r);
            assert(q[0] == evaluate(t, r));
            assert forall|i: int| 0 <= i < qt.len() implies #[trigger] qt[i] == 0 by {
                assert(q[i + 1] == qt[i]);
            }
            lemma_zero_quotient(t, r);
        }
        assert(r * 0 == 0) by (nonlinear_arith);
        lemma_residue_id(0);
        assert(evaluate(p, r) == fadd(p[0], fmul(r, 0)));
        assert(p[0] == 0);
        assert forall|i: int| 0 <= i < p.len() implies #[trigger] p[i] == 0 by {
            if i > 0 {
                assert(p[i] == t[i - 1]);
            }
        }
    }
}

/// A polynomial with as many different roots as coefficients is zero.
pub proof fn law_few_roots(p: Seq<int>, roots: Seq<int>)
    requires
        all_canonical(p),
        all_different(roots),
        roots.len() >= p.len(),
        forall|i: int| 0 <= i < roots.len() ==> evaluate(p, #[trigger] roots[i]) == 0,
    ensures
        is_zero(p),
    decreases p.len(),
{
    broadcast use lemma_residue_canonical;

    if p.len() > 0 {
        let r = roots[0];
        let rest = roots.drop_first();
        assert(canonical(r));
        assert(evaluate(p, roots[0]) == 0);
        lemma_factor(p, r, r);
        let q = divided(p, r);
        assert forall|i: int| 0 <= i < rest.len() implies canonical(#[trigger] rest[i]) && evaluate(
            q,
            rest[i],
        ) == 0 by {
            let x = roots[i + 1];
            assert(rest[i] == x);
            assert(canonical(roots[i + 1]));
            assert(evaluate(p, roots[i + 1]) == 0);
            assert(roots[0] != roots[i + 1]);
            lemma_factor(p, x, r);
            lemma_residue_id(0);
            lemma_evaluate_canonical(q, x);
            let d = fsub(x, r);
            assert(d != 0) by {
                if d == 0 {
                    lemma_difference(x, r);
                }
            }
            let e = evaluate(q, x);
            assert(fmul(d, e) == 0);
            crate::field::lemma_fmul_comm(d, e);
            assert(0 * d == 0) by (nonlinear_arith);
            lemma_cancel(e, 0, d);
        }
        assert forall|i: int, j: int| 0 <= i < j < rest.len() implies #[trigger] rest[i] != #[trigger] rest[j] by {
            assert(roots[i + 1] != roots[j + 1]);
        }
        law_few_roots(q, rest);
        lemma_zero_quotient(p, r);
    }
}

/// Canonical values with a difference of zero are equal.
pub proof fn lemma_difference(a: int, b: int)
    requires
        canonical(a),
        canonical(b),
        fsub(a, b) == 0,
    ensures
        a == b,
{
    reveal(residue);
    if a - b > 0 {
        vstd::arithmetic::div_mod::lemma_small_mod((a - b) as nat, MODULUS as nat);
    } else if a - b < 0 {
        vstd::arithmetic::div_mod::lemma_mod_add_multiples_vanish(a - b, MODULUS as int);
        vstd::arithmetic::div_mod::lemma_small_mod((a - b + MODULUS) as nat, MODULUS as nat);
    }
}

/// The entrywise difference.
pub open spec fn vdiff(a: Seq<int>, b: Seq<int>) -> Seq<int> {
    Seq::new(a.len(), |i: int| fsub(a[i], b[i]))
}

/// The value of a difference.
pub proof fn lemma_evaluate_difference(a: Seq<int>, b: Seq<int>, x: int)
    requires
        a.len() == b.len(),
        all_canonical(a),
        all_canonical(b),
        canonical(x),
    ensures
        evaluate(vdiff(a, b), x) == fsub(evaluate(a, x), evaluate(b, x)),
    decreases a.len(),
{
    broadcast use group_residue;

    lemma_residue_id(0);
    if a.len() > 0 {
        let (ta, tb) = (a.drop_first(), b.drop_first());
        lemma_tail_canonical(a);
        lemma_tail_canonical(b);
        lemma_evaluate_difference(ta, tb, x);
        assert(vdiff(a, b).drop_first() =~= vdiff(ta, tb));
        let (p, q, u, w) = (a[0], b[0], evaluate(ta, x), evaluate(tb, x));
        assert(canonical(p) && canonical(q));
        lemma_evaluate_canonical(ta, x);
        lemma_evaluate_canonical(tb, x);
        lemma_residue_id(p);
        lemma_residue_id(q);
        lemma_residue_id(u);
        lemma_residue_id(w);
        lemma_residue_id(x);
        assert(fadd(fsub(p, q), fmul(x, fsub(u, w))) == residue((p - q) + x * (u - w)));
        assert(fsub(fadd(p, fmul(x, u)), fadd(q, fmul(x, w))) == residue(
            (p + x * u) - (q + x * w),
        ));
        assert((p - q) + x * (u - w) == (p + x * u) - (q + x * w)) by (nonlinear_arith);
    }
}

/// Values that are combined by the powers of a challenge can be told apart: two lists of
/// `n` values whose combinations agree for `n` different challenges are equal.
pub proof fn law_combination_tells_apart(a: Seq<int>, b: Seq<int>, cs: Seq<int>)
    requires
        a.len() == b.len(),
        all_canonical(a),
        all_canonical(b),
        all_different(cs),
        cs.len() >= a.len(),
        forall|i: int|
            0 <= i < cs.len() ==> dot_spec(a, geometric(1, #[trigger] cs[i], a.len())) == dot_spec(
                b,
                geometric(1, cs[i], a.len()),
            ),
    ensures
        a == b,
{
    broadcast use lemma_residue_canonical;

    let d = vdiff(a, b);
    assert forall|i: int| 0 <= i < cs.len() implies evaluate(d, #[trigger] cs[i]) == 0 by {
        let c = cs[i];
        assert(canonical(c));
        law_evaluate_is_dot(a, c);
        law_evaluate_is_dot(b, c);
        lemma_evaluate_difference(a, b, c);
        lemma_residue_id(0);
    }
    law_few_roots(d, cs);
    assert forall|i: int| 0 <= i < a.len() implies a[i] == b[i] by {
        assert(canonical(a[i]) && canonical(b[i]));
        assert(d[i] == 0);
        lemma_difference(a[i], b[i]);
    }
    assert(a =~= b);
}

} // verus!
