//! Laws of inner products, polynomial values and multilinear extensions.

use crate::algebra::{
    accumulated, accumulated_at, dot_spec, dot_terms, eq_table, evaluate, folded, folded_all,
    geometric, half_len, mle, padded_at, scaled, vsum, zeros_spec,
};
use crate::arith::{ceil_log2_spec, lemma_ceil_log2, lemma_ceil_log2_pow2};
use crate::field::{
    all_canonical, canonical, fadd, fmul, fpow, fsub, group_residue, lemma_fmul_assoc,
    lemma_fmul_comm, lemma_fmul_one, lemma_fpow_canonical, lemma_residue_canonical,
    lemma_residue_id, residue,
};
use crate::sums::{
    fsum, lemma_add_assoc, lemma_add_zero, lemma_distribute, lemma_fsum_add, lemma_fsum_canonical,
    lemma_fsum_eq, lemma_fsum_scale, lemma_fsum_split, lemma_fsum_trim, lemma_fsum_zero,
};
use vstd::arithmetic::power2::{lemma_pow2_pos, lemma_pow2_unfold, pow2};
use vstd::prelude::*;

verus! {

/// The monomials' values.
pub open spec fn eval_terms(c: Seq<int>, x: int) -> spec_fn(int) -> int {
    |i: int| fmul(c[i], fpow(x, i as nat))
}

/// A polynomial's value is the sum of its monomials' values.
pub proof fn law_evaluate_is_sum(c: Seq<int>, x: int)
    requires
        all_canonical(c),
        canonical(x),
    ensures
        evaluate(c, x) == fsum(eval_terms(c, x), c.len()),
    decreases c.len(),
{
    broadcast use {lemma_fpow_canonical, lemma_residue_canonical, lemma_fsum_canonical};

    if c.len() > 0 {
        let d = c.drop_first();
        let f = eval_terms(c, x);
        let g = eval_terms(d, x);
        let h = |i: int| f(1 + i);
        assert forall|i: int| 0 <= i < d.len() implies canonical(#[trigger] d[i]) by {
            assert(canonical(c[i + 1]));
        }
        law_evaluate_is_sum(d, x);
        assert forall|i: int| 0 <= i < d.len() implies #[trigger] h(i) == fmul(x, g(i)) by {
            let p = fpow(x, i as nat);
            assert(d[i] == c[1 + i]);
            assert(fpow(x, (1 + i) as nat) == fmul(p, x));
            assert(canonical(d[i]));
            lemma_fmul_assoc(d[i], p, x);
            lemma_fmul_comm(fmul(d[i], p), x);
        }
        lemma_fsum_scale(x, g, h, d.len());
        lemma_fsum_split(f, h, 1, d.len());
        reveal_with_fuel(fsum, 2);
        assert(f(0) == fmul(c[0], 1));
        assert(canonical(c[0]));
        lemma_fmul_one(c[0]);
        lemma_add_zero(c[0]);
        assert(fsum(f, 1) == c[0]);
        assert(1 + d.len() == c.len());
    }
}

/// A polynomial's value is the inner product with the powers.
pub proof fn law_evaluate_is_dot(c: Seq<int>, x: int)
    requires
        all_canonical(c),
        canonical(x),
    ensures
        evaluate(c, x) == dot_spec(c, geometric(1, x, c.len())),
{
    broadcast use lemma_fpow_canonical;

    law_evaluate_is_sum(c, x);
    let g = geometric(1, x, c.len());
    assert forall|i: int| 0 <= i < c.len() implies #[trigger] eval_terms(c, x)(i) == dot_terms(c, g)(i) by {
        lemma_fmul_one(fpow(x, i as nat));
    }
    lemma_fsum_eq(eval_terms(c, x), dot_terms(c, g), c.len());
}

/// The inner product is symmetric.
pub proof fn law_dot_commutes(a: Seq<int>, b: Seq<int>)
    requires
        a.len() == b.len(),
    ensures
        dot_spec(a, b) == dot_spec(b, a),
{
    assert forall|i: int| 0 <= i < a.len() implies #[trigger] dot_terms(a, b)(i) == dot_terms(b, a)(i) by {
        lemma_fmul_comm(a[i], b[i]);
    }
    lemma_fsum_eq(dot_terms(a, b), dot_terms(b, a), a.len());
}

/// A factor of one side is a factor of the inner product.
pub proof fn law_dot_scaled(a: Seq<int>, b: Seq<int>, c: int)
    requires
        all_canonical(a),
        all_canonical(b),
        canonical(c),
        a.len() <= b.len(),
    ensures
        dot_spec(a, scaled(b, c)) == fmul(c, dot_spec(a, b)),
        dot_spec(scaled(a, c), b) == fmul(c, dot_spec(a, b)),
{
    broadcast use lemma_residue_canonical;

    let f = dot_terms(a, b);
    assert forall|i: int| 0 <= i < a.len() implies #[trigger] dot_terms(a, scaled(b, c))(i) == fmul(c, f(i)) by {
        assert(canonical(a[i]) && canonical(b[i]));
        lemma_fmul_assoc(a[i], c, b[i]);
        lemma_fmul_comm(a[i], c);
        lemma_fmul_assoc(c, a[i], b[i]);
    }
    assert forall|i: int| 0 <= i < a.len() implies #[trigger] dot_terms(scaled(a, c), b)(i) == fmul(c, f(i)) by {
        assert(canonical(a[i]) && canonical(b[i]));
        lemma_fmul_assoc(c, a[i], b[i]);
    }
    lemma_fsum_scale(c, f, dot_terms(a, scaled(b, c)), a.len());
    lemma_fsum_scale(c, f, dot_terms(scaled(a, c), b), a.len());
}

/// The inner product distributes over sums.
pub proof fn law_dot_vsum(a: Seq<int>, b: Seq<int>, c: Seq<int>)
    requires
        all_canonical(a),
        all_canonical(b),
        all_canonical(c),
        a.len() <= b.len(),
        a.len() <= c.len(),
    ensures
        dot_spec(a, vsum(b, c)) == fadd(dot_spec(a, b), dot_spec(a, c)),
{
    broadcast use lemma_residue_canonical;

    let f = dot_terms(a, b);
    let g = dot_terms(a, c);
    let h = dot_terms(a, vsum(b, c));
    assert forall|i: int| 0 <= i < a.len() implies #[trigger] h(i) == fadd(f(i), g(i)) by {
        assert(canonical(a[i]) && canonical(b[i]) && canonical(c[i]));
        lemma_distribute(a[i], b[i], c[i]);
    }
    lemma_fsum_add(f, g, h, a.len());
}

/// The inner product of concatenations.
pub proof fn law_dot_concat(a: Seq<int>, b: Seq<int>, c: Seq<int>, d: Seq<int>)
    requires
        a.len() == c.len(),
        b.len() <= d.len(),
    ensures
        dot_spec(a + b, c + d) == fadd(dot_spec(a, c), dot_spec(b, d)),
{
    broadcast use lemma_residue_canonical;

    let f = dot_terms(a + b, c + d);
    let g = dot_terms(b, d);
    assert forall|i: int| 0 <= i < b.len() implies #[trigger] g(i) == f(a.len() + i) by {
        assert((a + b)[a.len() + i] == b[i]);
        assert((c + d)[a.len() + i] == d[i]);
    }
    lemma_fsum_split(f, g, a.len(), b.len());
    lemma_fsum_eq(f, dot_terms(a, c), a.len());
    assert((a + b).len() == a.len() + b.len());
}

/// The inner product with a vector of zeros.
pub proof fn lemma_dot_zeros(a: Seq<int>, n: nat)
    requires
        a.len() <= n,
    ensures
        dot_spec(a, zeros_spec(n)) == 0,
{
    assert forall|i: int| 0 <= i < a.len() implies #[trigger] dot_terms(a, zeros_spec(n))(i) == 0 by {
        assert(a[i] * 0 == 0) by (nonlinear_arith);
        lemma_residue_id(0);
    }
    lemma_fsum_zero(dot_terms(a, zeros_spec(n)), a.len());
}

/// The values, each times its coefficient, that an accumulation of powers adds to
/// an inner product.
pub open spec fn weighted_evals(h: Seq<int>, coefficients: Seq<int>, points: Seq<int>) -> spec_fn(
    int,
) -> int {
    |j: int| fmul(coefficients[j], evaluate(h, points[j]))
}

/// An accumulation of powers is canonical.
pub proof fn lemma_accumulated_canonical(acc: int, cs: Seq<int>, xs: Seq<int>, i: nat, k: nat)
    requires
        canonical(acc),
    ensures
        canonical(accumulated_at(acc, cs, xs, i, k)),
{
    broadcast use lemma_residue_canonical;

}

proof fn lemma_dot_accumulated_prefix(h: Seq<int>, acc: Seq<int>, cs: Seq<int>, xs: Seq<int>, k: nat)
    requires
        all_canonical(h),
        all_canonical(acc),
        all_canonical(cs),
        all_canonical(xs),
        h.len() == acc.len(),
        cs.len() == xs.len(),
        k <= xs.len(),
    ensures
        dot_spec(
            h,
            Seq::new(acc.len(), |i: int| accumulated_at(acc[i], cs, xs, i as nat, k)),
        ) == fadd(dot_spec(h, acc), fsum(weighted_evals(h, cs, xs), k)),
    decreases k,
{
    broadcast use {lemma_fsum_canonical, lemma_residue_canonical, lemma_fpow_canonical};

    let now = Seq::new(acc.len(), |i: int| accumulated_at(acc[i], cs, xs, i as nat, k));
    if k == 0 {
        assert(now =~= acc);
        lemma_add_zero(dot_spec(h, acc));
    } else {
        let m = (k - 1) as nat;
        let before = Seq::new(acc.len(), |i: int| accumulated_at(acc[i], cs, xs, i as nat, m));
        lemma_dot_accumulated_prefix(h, acc, cs, xs, m);
        let c = cs[m as int];
        let x = xs[m as int];
        assert(canonical(c) && canonical(x));
        let powers = geometric(1, x, acc.len());
        assert(all_canonical(powers));
        assert(all_canonical(before)) by {
            assert forall|i: int| 0 <= i < before.len() implies canonical(#[trigger] before[i]) by {
                assert(canonical(acc[i]));
                lemma_accumulated_canonical(acc[i], cs, xs, i as nat, m);
            }
        }
        let added = scaled(powers, c);
        assert(now =~= vsum(before, added)) by {
            assert forall|i: int| 0 <= i < now.len() implies now[i] == vsum(before, added)[i] by {
                lemma_fmul_one(fpow(x, i as nat));
            }
        }
        law_dot_vsum(h, before, added);
        law_dot_scaled(h, powers, c);
        law_evaluate_is_dot(h, x);
        lemma_add_assoc(
            dot_spec(h, acc),
            fsum(weighted_evals(h, cs, xs), m),
            weighted_evals(h, cs, xs)(m as int),
        );
    }
}

/// Adding powers of points to a covector adds the polynomial's values at those
/// points to its inner product with the polynomial.
pub proof fn law_dot_accumulated(h: Seq<int>, acc: Seq<int>, cs: Seq<int>, xs: Seq<int>)
    requires
        all_canonical(h),
        all_canonical(acc),
        all_canonical(cs),
        all_canonical(xs),
        h.len() == acc.len(),
        cs.len() == xs.len(),
    ensures
        dot_spec(h, accumulated(acc, cs, xs, acc.len())) == fadd(
            dot_spec(h, acc),
            fsum(weighted_evals(h, cs, xs), xs.len()),
        ),
{
    lemma_dot_accumulated_prefix(h, acc, cs, xs, xs.len());
    assert(accumulated(acc, cs, xs, acc.len()) =~= Seq::new(
        acc.len(),
        |i: int| accumulated_at(acc[i], cs, xs, i as nat, xs.len()),
    ));
}

/// The length of the weights.
pub proof fn lemma_eq_table_len(point: Seq<int>)
    ensures
        eq_table(point).len() == pow2(point.len()),
        all_canonical(eq_table(point)),
    decreases point.len(),
{
    broadcast use lemma_residue_canonical;

    if point.len() == 0 {
        vstd::arithmetic::power2::lemma2_to64();
    } else {
        lemma_eq_table_len(point.drop_first());
        lemma_pow2_unfold(point.len());
        let rest = eq_table(point.drop_first());
        let t = eq_table(point);
        assert forall|i: int| 0 <= i < t.len() implies canonical(#[trigger] t[i]) by {
            if i < rest.len() {
                assert(t[i] == scaled(rest, fsub(1, point[0]))[i]);
            } else {
                assert(t[i] == scaled(rest, point[0])[i - rest.len()]);
            }
        }
    }
}

/// `low * (1 - r) + high * r == low + r * (high - low)`.
proof fn lemma_interpolate(lo: int, hi: int, r: int, w: int)
    requires
        canonical(lo),
        canonical(hi),
        canonical(r),
        canonical(w),
    ensures
        fadd(fmul(lo, fmul(fsub(1, r), w)), fmul(hi, fmul(r, w))) == fmul(
            fadd(lo, fmul(r, fsub(hi, lo))),
            w,
        ),
{
    broadcast use group_residue;

    lemma_residue_id(lo);
    lemma_residue_id(hi);
    lemma_residue_id(r);
    lemma_residue_id(w);
    lemma_residue_id(1);
    assert(fmul(lo, fmul(fsub(1, r), w)) == residue(lo * ((1 - r) * w)));
    assert(fmul(hi, fmul(r, w)) == residue(hi * (r * w)));
    assert(fadd(fmul(lo, fmul(fsub(1, r), w)), fmul(hi, fmul(r, w))) == residue(
        lo * ((1 - r) * w) + hi * (r * w),
    ));
    assert(fmul(fadd(lo, fmul(r, fsub(hi, lo))), w) == residue((lo + r * (hi - lo)) * w));
    let t = r * w;
    assert((1 - r) * w == w - t) by (nonlinear_arith)
        requires
            t == r * w,
    ;
    assert(lo * (w - t) == lo * w - lo * t) by (nonlinear_arith);
    assert((lo + r * (hi - lo)) * w == lo * w + (hi - lo) * t) by (nonlinear_arith)
        requires
            t == r * w,
    ;
    assert((hi - lo) * t == hi * t - lo * t) by (nonlinear_arith);
}

/// A polynomial's value is that of the polynomial with its first variable set.
pub proof fn law_mle_fold(s: Seq<int>, point: Seq<int>)
    requires
        all_canonical(s),
        all_canonical(point),
        point.len() > 0,
        ceil_log2_spec(s.len()) == point.len(),
    ensures
        mle(s, point) == mle(folded(s, point[0]), point.drop_first()),
        folded(s, point[0]).len() == pow2((point.len() - 1) as nat),
{
    broadcast use {lemma_fsum_canonical, lemma_residue_canonical};

    let r = point[0];
    let tail = point.drop_first();
    let n = s.len();
    let h = pow2(tail.len());
    lemma_pow2_unfold(point.len());
    lemma_ceil_log2(n);
    assert(half_len(n) == h);
    let w = eq_table(tail);
    lemma_eq_table_len(tail);
    let t = eq_table(point);
    // The missing entries are zero.
    let f = |i: int| fmul(padded_at(s, i), t[i]);
    lemma_fsum_eq(dot_terms(s, t), f, n);
    assert forall|i: int| n <= i < h + h implies #[trigger] f(i) == 0 by {
        assert(0 * t[i] == 0) by (nonlinear_arith);
        lemma_residue_id(0);
    }
    lemma_fsum_trim(f, n, h + h);
    let upper = |i: int| f(h + i);
    lemma_fsum_split(f, upper, h, h);
    let g = dot_terms(folded(s, r), w);
    assert(canonical(r));
    assert forall|i: int| 0 <= i < h implies #[trigger] g(i) == fadd(f(i), upper(i)) by {
        assert(t[i] == fmul(fsub(1, r), w[i]));
        assert(t[h + i] == fmul(r, w[i]));
        assert(canonical(w[i]));
        lemma_interpolate(padded_at(s, i), padded_at(s, h + i), r, w[i]);
    }
    lemma_fsum_add(f, upper, g, h);
}

/// Setting every variable gives the value.
pub proof fn law_folded_to_value(s: Seq<int>, point: Seq<int>)
    requires
        all_canonical(s),
        all_canonical(point),
        s.len() > 0,
        ceil_log2_spec(s.len()) == point.len(),
    ensures
        folded_all(s, point) == seq![mle(s, point)],
    decreases point.len(),
{
    broadcast use lemma_residue_canonical;

    if point.len() == 0 {
        assert(s.len() == 1);
        reveal_with_fuel(fsum, 2);
        assert(canonical(s[0]));
        lemma_fmul_one(s[0]);
        lemma_add_zero(s[0]);
        assert(dot_terms(s, eq_table(point))(0) == fmul(s[0], 1));
        assert(s =~= seq![mle(s, point)]);
    } else {
        law_mle_fold(s, point);
        lemma_folded_all_first(s, point);
        lemma_folded_canonical(s, point[0]);
        let tail = point.drop_first();
        assert(all_canonical(tail)) by {
            assert forall|i: int| 0 <= i < tail.len() implies canonical(#[trigger] tail[i]) by {
                assert(canonical(point[i + 1]));
            }
        }
        lemma_ceil_log2_pow2(tail.len());
        lemma_pow2_pos(tail.len());
        law_folded_to_value(folded(s, point[0]), tail);
    }
}

/// Folding keeps entries canonical.
pub proof fn lemma_folded_canonical(s: Seq<int>, r: int)
    ensures
        all_canonical(folded(s, r)),
{
    broadcast use lemma_residue_canonical;

}

/// Folds, first to last.
pub proof fn lemma_folded_all_first(s: Seq<int>, rs: Seq<int>)
    requires
        rs.len() > 0,
    ensures
        folded_all(s, rs) == folded_all(folded(s, rs[0]), rs.drop_first()),
    decreases rs.len(),
{
    if rs.len() == 1 {
        assert(rs.drop_last() =~= Seq::<int>::empty());
        assert(rs.drop_first() =~= Seq::<int>::empty());
        reveal_with_fuel(folded_all, 2);
        assert(rs.last() == rs[0]);
    } else {
        lemma_folded_all_first(s, rs.drop_last());
        assert(rs.drop_last().drop_first() =~= rs.drop_first().drop_last());
        assert(rs.drop_first().last() == rs.last());
        assert(rs.drop_last()[0] == rs[0]);
    }
}

/// Setting some variables and evaluating at the rest is evaluating at all.
pub proof fn law_mle_fold_all(s: Seq<int>, rs: Seq<int>, rest: Seq<int>)
    requires
        all_canonical(s),
        all_canonical(rs),
        all_canonical(rest),
        s.len() == pow2(rs.len() + rest.len()),
    ensures
        mle(s, rs + rest) == mle(folded_all(s, rs), rest),
        folded_all(s, rs).len() == pow2(rest.len()),
        all_canonical(folded_all(s, rs)),
    decreases rs.len(),
{
    if rs.len() == 0 {
        assert(rs + rest =~= rest);
    } else {
        let point = rs + rest;
        assert(all_canonical(point));
        lemma_ceil_log2_pow2(point.len());
        law_mle_fold(s, point);
        assert(point.drop_first() =~= rs.drop_first() + rest);
        lemma_folded_canonical(s, rs[0]);
        lemma_folded_all_first(s, rs);
        law_mle_fold_all(folded(s, rs[0]), rs.drop_first(), rest);
    }
}

} // verus!
