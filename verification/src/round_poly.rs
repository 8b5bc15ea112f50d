//! Round polynomials of the sumchecks.
//!
//! The quadratic polynomial belongs to an inner product of two tables, the cubic
//! one to a sum of products of three. Setting the first variable of every table to
//! `X` makes the sum a polynomial in `X`; its linear coefficient follows from the
//! values at zero and one, so only the others are computed.

use crate::algebra::{dot_spec, dot_terms, evaluate, folded, folded_len, half_len, padded_at};
use crate::arith::lemma_ceil_log2;
use crate::field::{
    all_canonical, canonical, fadd, fmul, fsub, group_residue, lemma_residue_canonical,
    lemma_residue_id, residue, vals, Field64,
};
use crate::sums::{
    entries, fsum, lemma_add_zero, lemma_fsum_canonical, lemma_fsum_eq, lemma_fsum_split,
    lemma_fsum_trim, total,
};
use vstd::prelude::*;

verus! {

/// Entry `i` of the lower half.
pub open spec fn low(s: Seq<int>, i: int) -> int {
    padded_at(s, i)
}

/// Entry `i` of the upper half.
pub open spec fn high(s: Seq<int>, i: int) -> int {
    padded_at(s, i + half_len(s.len()))
}

/// The slope at `i`: upper minus lower half.
pub open spec fn slope(s: Seq<int>, i: int) -> int {
    fsub(high(s, i), low(s, i))
}

pub open spec fn quad_c0_terms(a: Seq<int>, b: Seq<int>) -> spec_fn(int) -> int {
    |i: int| fmul(low(a, i), low(b, i))
}

pub open spec fn quad_c2_terms(a: Seq<int>, b: Seq<int>) -> spec_fn(int) -> int {
    |i: int| fmul(slope(a, i), slope(b, i))
}

/// The constant and the quadratic coefficient for an inner product.
pub open spec fn quad_coefficients(a: Seq<int>, b: Seq<int>) -> Seq<int> {
    seq![
        fsum(quad_c0_terms(a, b), half_len(a.len())),
        fsum(quad_c2_terms(a, b), half_len(a.len())),
    ]
}

pub open spec fn cubic_c0_terms(e: Seq<int>, m: Seq<int>, v: Seq<int>) -> spec_fn(int) -> int {
    |i: int| fmul(low(e, i), fmul(low(m, i), low(v, i)))
}

pub open spec fn cubic_c2_terms(e: Seq<int>, m: Seq<int>, v: Seq<int>) -> spec_fn(int) -> int {
    |i: int|
        fadd(
            fmul(low(e, i), fmul(slope(m, i), slope(v, i))),
            fmul(
                slope(e, i),
                fadd(fmul(low(m, i), slope(v, i)), fmul(slope(m, i), low(v, i))),
            ),
        )
}

pub open spec fn cubic_c3_terms(e: Seq<int>, m: Seq<int>, v: Seq<int>) -> spec_fn(int) -> int {
    |i: int| fmul(slope(e, i), fmul(slope(m, i), slope(v, i)))
}

/// The constant, the quadratic and the cubic coefficient for a sum of products of
/// three.
pub open spec fn cubic_coefficients(e: Seq<int>, m: Seq<int>, v: Seq<int>) -> Seq<int> {
    seq![
        fsum(cubic_c0_terms(e, m, v), half_len(e.len())),
        fsum(cubic_c2_terms(e, m, v), half_len(e.len())),
        fsum(cubic_c3_terms(e, m, v), half_len(e.len())),
    ]
}

pub open spec fn triple_terms(e: Seq<int>, m: Seq<int>, v: Seq<int>) -> spec_fn(int) -> int {
    |i: int| fmul(e[i], fmul(m[i], v[i]))
}

/// The sum of the products of three tables.
pub open spec fn triple_sum(e: Seq<int>, m: Seq<int>, v: Seq<int>) -> int {
    fsum(triple_terms(e, m, v), e.len())
}

/// The linear coefficient that makes the values at zero and one add up to `sum`,
/// given the constant and the higher coefficients.
pub open spec fn linear_coefficient(sum: int, c0: int, higher: Seq<int>) -> int {
    fsub(fsub(sum, fadd(c0, c0)), total(higher))
}

/// All coefficients, lowest first, from the ones without the linear one.
pub open spec fn with_linear(sum: int, coefficients: Seq<int>) -> Seq<int> {
    seq![
        coefficients[0],
        linear_coefficient(sum, coefficients[0], coefficients.drop_first()),
    ] + coefficients.drop_first()
}

fn halves(v: &[Field64], i: usize, half: usize) -> (r: (Field64, Field64))
    requires
        half == half_len(v@.len()),
        i < half,
        half <= v@.len(),
    ensures
        r.0@ == low(vals(v@), i as int),
        r.1@ == slope(vals(v@), i as int),
{
    let lo: Field64 = v[i];
    let hi: Field64 = if i < v.len() - half {
        v[i + half]
    } else {
        Field64::zero()
    };
    (lo, hi.sub(lo))
}

/// The constant and the quadratic coefficient for the inner product of `a` and
/// `b`.
pub fn compute_round_poly_degree2(a: &[Field64], b: &[Field64]) -> (r: (Field64, Field64))
    requires
        a@.len() == b@.len(),
        a@.len() <= usize::MAX / 2 + 1,
    ensures
        seq![r.0@, r.1@] == quad_coefficients(vals(a@), vals(b@)),
{
    let half: usize = folded_len(a.len());
    let mut c0: Field64 = Field64::zero();
    let mut c2: Field64 = Field64::zero();
    for i in 0..half
        invariant
            a@.len() == b@.len(),
            half == half_len(a@.len()),
            half <= a@.len(),
            c0@ == fsum(quad_c0_terms(vals(a@), vals(b@)), i as nat),
            c2@ == fsum(quad_c2_terms(vals(a@), vals(b@)), i as nat),
    {
        let (a_low, a_slope): (Field64, Field64) = halves(a, i, half);
        let (b_low, b_slope): (Field64, Field64) = halves(b, i, half);
        c0 = c0.add(a_low.mul(b_low));
        c2 = c2.add(a_slope.mul(b_slope));
    }
    (c0, c2)
}

/// The constant, the quadratic and the cubic coefficient for the sum of products
/// of `e`, `m` and `v`.
pub fn compute_round_poly_degree3(e: &[Field64], m: &[Field64], v: &[Field64]) -> (r: (
    Field64,
    Field64,
    Field64,
))
    requires
        e@.len() == m@.len(),
        e@.len() == v@.len(),
        e@.len() <= usize::MAX / 2 + 1,
    ensures
        seq![r.0@, r.1@, r.2@] == cubic_coefficients(vals(e@), vals(m@), vals(v@)),
{
    let half: usize = folded_len(e.len());
    let mut c0: Field64 = Field64::zero();
    let mut c2: Field64 = Field64::zero();
    let mut c3: Field64 = Field64::zero();
    for i in 0..half
        invariant
            e@.len() == m@.len(),
            e@.len() == v@.len(),
            half == half_len(e@.len()),
            half <= e@.len(),
            c0@ == fsum(cubic_c0_terms(vals(e@), vals(m@), vals(v@)), i as nat),
            c2@ == fsum(cubic_c2_terms(vals(e@), vals(m@), vals(v@)), i as nat),
            c3@ == fsum(cubic_c3_terms(vals(e@), vals(m@), vals(v@)), i as nat),
    {
        let (e_low, e_slope): (Field64, Field64) = halves(e, i, half);
        let (m_low, m_slope): (Field64, Field64) = halves(m, i, half);
        let (v_low, v_slope): (Field64, Field64) = halves(v, i, half);
        let slopes: Field64 = m_slope.mul(v_slope);
        c0 = c0.add(e_low.mul(m_low.mul(v_low)));
        c2 = c2.add(e_low.mul(slopes).add(e_slope.mul(m_low.mul(v_slope).add(m_slope.mul(v_low)))));
        c3 = c3.add(e_slope.mul(slopes));
    }
    (c0, c2, c3)
}

/// `x + r * (z - x - y2 - y3) + r^2 * y2 + r^3 * y3`: the value at `r` of the cubic
/// with value `x` at zero, `z` at one and top coefficients `y2` and `y3`.
spec fn cubic_at(r: int, x: int, z: int, y2: int, y3: int) -> int {
    residue(x + r * (z - x - y2 - y3) + r * r * y2 + r * r * r * y3)
}

proof fn lemma_cubic_at_residues(r: int, x: int, z: int, y2: int, y3: int)
    requires
        canonical(r),
    ensures
        cubic_at(r, residue(x), residue(z), residue(y2), residue(y3)) == cubic_at(r, x, z, y2, y3),
{
    broadcast use group_residue;

    lemma_residue_id(r);
    let (xr, zr, ar, br) = (residue(x), residue(z), residue(y2), residue(y3));
    lemma_residue_id(xr);
    lemma_residue_id(zr);
    lemma_residue_id(ar);
    lemma_residue_id(br);
    lemma_cubic_at_ops(r, xr, zr, ar, br);
    assert(fsub(fsub(fsub(xr, xr), ar), br) == fsub(fsub(fsub(xr, xr), ar), br));
    // The same operations on the residues, read as residues of integers.
    let lin = fsub(fsub(fsub(zr, xr), ar), br);
    assert(lin == residue(z - x - y2 - y3));
    assert(fmul(r, lin) == residue(r * (z - x - y2 - y3)));
    let r2 = fmul(r, r);
    assert(r2 == residue(r * r));
    assert(fmul(r2, ar) == residue(r * r * y2));
    assert(fmul(r2, r) == residue(r * r * r));
    assert(fmul(fmul(r2, r), br) == residue(r * r * r * y3));
    assert(fadd(xr, fmul(r, lin)) == residue(x + r * (z - x - y2 - y3)));
    assert(fadd(fadd(xr, fmul(r, lin)), fmul(r2, ar)) == residue(
        x + r * (z - x - y2 - y3) + r * r * y2,
    ));
}

/// `cubic_at` by field operations.
proof fn lemma_cubic_at_ops(r: int, x: int, z: int, y2: int, y3: int)
    requires
        canonical(r),
        canonical(x),
        canonical(z),
        canonical(y2),
        canonical(y3),
    ensures
        cubic_at(r, x, z, y2, y3) == fadd(
            fadd(fadd(x, fmul(r, fsub(fsub(fsub(z, x), y2), y3))), fmul(fmul(r, r), y2)),
            fmul(fmul(fmul(r, r), r), y3),
        ),
{
    broadcast use group_residue;

    lemma_residue_id(r);
    lemma_residue_id(x);
    lemma_residue_id(z);
    lemma_residue_id(y2);
    lemma_residue_id(y3);
    let lin = fsub(fsub(fsub(z, x), y2), y3);
    assert(lin == residue(z - x - y2 - y3));
    assert(fmul(r, lin) == residue(r * (z - x - y2 - y3)));
    assert(fmul(fmul(r, r), y2) == residue(r * r * y2));
    assert(fmul(fmul(fmul(r, r), r), y3) == residue(r * r * r * y3));
    assert(fadd(x, fmul(r, lin)) == residue(x + r * (z - x - y2 - y3)));
    assert(fadd(fadd(x, fmul(r, lin)), fmul(fmul(r, r), y2)) == residue(
        x + r * (z - x - y2 - y3) + r * r * y2,
    ));
}

/// Cubics add.
proof fn lemma_cubic_at_add(
    r: int,
    x: int,
    z: int,
    y2: int,
    y3: int,
    x1: int,
    z1: int,
    u2: int,
    u3: int,
)
    requires
        canonical(r),
    ensures
        cubic_at(r, fadd(x, x1), fadd(z, z1), fadd(y2, u2), fadd(y3, u3)) == fadd(
            cubic_at(r, x, z, y2, y3),
            cubic_at(r, x1, z1, u2, u3),
        ),
{
    broadcast use group_residue;

    lemma_cubic_at_residues(r, x + x1, z + z1, y2 + u2, y3 + u3);
    let a = x + r * (z - x - y2 - y3) + r * r * y2 + r * r * r * y3;
    let b = x1 + r * (z1 - x1 - u2 - u3) + r * r * u2 + r * r * r * u3;
    let c = (x + x1) + r * ((z + z1) - (x + x1) - (y2 + u2) - (y3 + u3)) + r * r * (y2 + u2) + r * r * r
        * (y3 + u3);
    assert(c == a + b) by (nonlinear_arith)
        requires
            a == x + r * (z - x - y2 - y3) + r * r * y2 + r * r * r * y3,
            b == x1 + r * (z1 - x1 - u2 - u3) + r * r * u2 + r * r * r * u3,
            c == (x + x1) + r * ((z + z1) - (x + x1) - (y2 + u2) - (y3 + u3)) + r * r * (y2 + u2) + r
                * r * r * (y3 + u3),
    ;
}

/// If every summand is a cubic in `r`, so is the sum.
proof fn lemma_cubic_sum(
    f: spec_fn(int) -> int,
    x: spec_fn(int) -> int,
    z: spec_fn(int) -> int,
    y2: spec_fn(int) -> int,
    y3: spec_fn(int) -> int,
    r: int,
    n: nat,
)
    requires
        canonical(r),
        forall|i: int| 0 <= i < n ==> #[trigger] f(i) == cubic_at(r, x(i), z(i), y2(i), y3(i)),
    ensures
        fsum(f, n) == cubic_at(r, fsum(x, n), fsum(z, n), fsum(y2, n), fsum(y3, n)),
    decreases n,
{
    if n == 0 {
        assert(0 + r * (0int - 0 - 0 - 0) + r * r * 0 + r * r * r * 0 == 0) by (nonlinear_arith);
        lemma_residue_id(0);
    } else {
        let m = (n - 1) as nat;
        lemma_cubic_sum(f, x, z, y2, y3, r, m);
        assert(f(n - 1) == cubic_at(r, x(n - 1), z(n - 1), y2(n - 1), y3(n - 1)));
        lemma_cubic_at_add(
            r,
            fsum(x, m),
            fsum(z, m),
            fsum(y2, m),
            fsum(y3, m),
            x(n - 1),
            z(n - 1),
            y2(n - 1),
            y3(n - 1),
        );
    }
}

/// One summand of the folded product of three, as a cubic in `r`.
proof fn lemma_cubic_element(r: int, e0: int, e1: int, m0: int, m1: int, v0: int, v1: int)
    requires
        canonical(r),
        canonical(e0),
        canonical(e1),
        canonical(m0),
        canonical(m1),
        canonical(v0),
        canonical(v1),
    ensures
        ({
            let de = fsub(e1, e0);
            let dm = fsub(m1, m0);
            let dv = fsub(v1, v0);
            fmul(fadd(e0, fmul(r, de)), fmul(fadd(m0, fmul(r, dm)), fadd(v0, fmul(r, dv)))) == cubic_at(
                r,
                fmul(e0, fmul(m0, v0)),
                fmul(e1, fmul(m1, v1)),
                fadd(fmul(e0, fmul(dm, dv)), fmul(de, fadd(fmul(m0, dv), fmul(dm, v0)))),
                fmul(de, fmul(dm, dv)),
            )
        }),
{
    broadcast use group_residue;

    lemma_residue_id(r);
    lemma_residue_id(e0);
    lemma_residue_id(e1);
    lemma_residue_id(m0);
    lemma_residue_id(m1);
    lemma_residue_id(v0);
    lemma_residue_id(v1);
    let ie = e1 - e0;
    let im = m1 - m0;
    let iv = v1 - v0;
    let de = fsub(e1, e0);
    let dm = fsub(m1, m0);
    let dv = fsub(v1, v0);
    assert(de == residue(ie) && dm == residue(im) && dv == residue(iv));
    assert(fadd(e0, fmul(r, de)) == residue(e0 + r * ie));
    assert(fadd(m0, fmul(r, dm)) == residue(m0 + r * im));
    assert(fadd(v0, fmul(r, dv)) == residue(v0 + r * iv));
    let lhs = (e0 + r * ie) * ((m0 + r * im) * (v0 + r * iv));
    assert(fmul(fadd(e0, fmul(r, de)), fmul(fadd(m0, fmul(r, dm)), fadd(v0, fmul(r, dv)))) == residue(
        lhs,
    ));
    let x = e0 * (m0 * v0);
    let z = e1 * (m1 * v1);
    let y2 = e0 * (im * iv) + ie * (m0 * iv + im * v0);
    let y3 = ie * (im * iv);
    assert(fmul(e0, fmul(m0, v0)) == residue(x));
    assert(fmul(e1, fmul(m1, v1)) == residue(z));
    assert(fadd(fmul(e0, fmul(dm, dv)), fmul(de, fadd(fmul(m0, dv), fmul(dm, v0)))) == residue(y2));
    assert(fmul(de, fmul(dm, dv)) == residue(y3));
    lemma_cubic_at_residues(r, x, z, y2, y3);
    lemma_cubic_identity(r, e0, ie, m0, im, v0, iv);
}

/// The polynomial identity behind `lemma_cubic_element`.
proof fn lemma_cubic_identity(r: int, e0: int, ie: int, m0: int, im: int, v0: int, iv: int)
    ensures
        ({
            let x = e0 * (m0 * v0);
            let z = (e0 + ie) * ((m0 + im) * (v0 + iv));
            let y2 = e0 * (im * iv) + ie * (m0 * iv + im * v0);
            let y3 = ie * (im * iv);
            (e0 + r * ie) * ((m0 + r * im) * (v0 + r * iv)) == x + r * (z - x - y2 - y3) + r * r * y2 + r
                * r * r * y3
        }),
{
    let x = e0 * (m0 * v0);
    let z = (e0 + ie) * ((m0 + im) * (v0 + iv));
    let y2 = e0 * (im * iv) + ie * (m0 * iv + im * v0);
    let y3 = ie * (im * iv);
    // The product of the last two factors, and what it is at one.
    let p0 = m0 * v0;
    let p1 = m0 * iv + im * v0;
    let p2 = im * iv;
    lemma_product_of_lines(r, m0, im, v0, iv);
    assert((m0 + im) * (v0 + iv) == p0 + p1 + p2) by (nonlinear_arith)
        requires
            p0 == m0 * v0,
            p1 == m0 * iv + im * v0,
            p2 == im * iv,
    ;
    assert(z == e0 * p0 + e0 * p1 + e0 * p2 + ie * p0 + ie * p1 + ie * p2) by (nonlinear_arith)
        requires
            z == (e0 + ie) * (p0 + p1 + p2),
    ;
    let c1 = e0 * p1 + ie * p0;
    assert(z - x - y2 - y3 == c1);
    lemma_line_times_quadratic(r, e0, ie, p0, p1, p2);
}

proof fn lemma_product_of_lines(r: int, a: int, b: int, c: int, d: int)
    ensures
        (a + r * b) * (c + r * d) == a * c + r * (a * d + b * c) + r * r * (b * d),
{
    assert((a + r * b) * (c + r * d) == a * c + a * (r * d) + (r * b) * c + (r * b) * (r * d))
        by (nonlinear_arith);
    assert(a * (r * d) == r * (a * d)) by (nonlinear_arith);
    assert((r * b) * c == r * (b * c)) by (nonlinear_arith);
    assert((r * b) * (r * d) == r * r * (b * d)) by (nonlinear_arith);
    assert(r * (a * d + b * c) == r * (a * d) + r * (b * c)) by (nonlinear_arith);
}

proof fn lemma_line_times_quadratic(r: int, a: int, b: int, p: int, q: int, s: int)
    ensures
        (a + r * b) * (p + r * q + r * r * s) == a * p + r * (a * q + b * p) + r * r * (a * s + b * q) + r
            * r * r * (b * s),
{
    let w = q + r * s;
    assert(p + r * q + r * r * s == p + r * w) by (nonlinear_arith)
        requires
            w == q + r * s,
    ;
    lemma_product_of_lines(r, a, b, p, w);
    assert(a * w == a * q + r * (a * s)) by (nonlinear_arith)
        requires
            w == q + r * s,
    ;
    assert(b * w == b * q + r * (b * s)) by (nonlinear_arith)
        requires
            w == q + r * s,
    ;
    let t = a * s;
    let u = b * s;
    let k = b * q;
    let g = a * q + b * p;
    assert(r * (g + r * t) == r * g + r * r * t) by (nonlinear_arith);
    assert(r * r * (k + r * u) == r * r * k + r * r * r * u) by (nonlinear_arith);
    assert(r * r * (t + k) == r * r * t + r * r * k) by (nonlinear_arith);
    assert(a * w + b * p == g + r * t);
}

/// The constant coefficient, twice, plus the others is the value at one plus the
/// value at zero.
proof fn lemma_evaluate_cubic(r: int, x: int, z: int, y2: int, y3: int)
    requires
        canonical(r),
        canonical(x),
        canonical(z),
        canonical(y2),
        canonical(y3),
    ensures
        evaluate(with_linear(fadd(x, z), seq![x, y2, y3]), r) == cubic_at(r, x, z, y2, y3),
{
    broadcast use group_residue;

    lemma_residue_id(r);
    lemma_residue_id(x);
    lemma_residue_id(z);
    lemma_residue_id(y2);
    lemma_residue_id(y3);
    lemma_residue_id(0);
    let cs = seq![x, y2, y3];
    let h = cs.drop_first();
    let g = entries(h);
    assert(h =~= seq![y2, y3]);
    reveal_with_fuel(fsum, 3);
    assert(fsum(g, 2) == residue(y2 + y3)) by {
        assert(fsum(g, 1) == residue(0 + y2));
        assert(g(1) == y3);
        assert(fadd(residue(y2), residue(y3)) == residue(y2 + y3));
    }
    let c1 = linear_coefficient(fadd(x, z), x, h);
    assert(c1 == residue((x + z) - (x + x) - (y2 + y3)));
    let all = with_linear(fadd(x, z), cs);
    assert(all =~= seq![x, c1, y2, y3]);
    let all1 = all.drop_first();
    let all2 = all1.drop_first();
    let all3 = all2.drop_first();
    assert(all1 =~= seq![c1, y2, y3]);
    assert(all2 =~= seq![y2, y3]);
    assert(all3 =~= seq![y3]);
    assert(all3.drop_first() =~= Seq::<int>::empty());
    assert(evaluate(all3, r) == residue(y3)) by {
        assert(r * 0 == 0) by (nonlinear_arith);
        assert(evaluate(all3.drop_first(), r) == 0);
    }
    let i1 = z - x - y2 - y3;
    assert(evaluate(all2, r) == residue(y2 + r * y3));
    assert(evaluate(all1, r) == residue(i1 + r * (y2 + r * y3)));
    assert(evaluate(all, r) == residue(x + r * (i1 + r * (y2 + r * y3))));
    assert(x + r * (i1 + r * (y2 + r * y3)) == x + r * i1 + r * r * y2 + r * r * r * y3) by {
        lemma_nested(r, i1, y2, y3);
    }
}

proof fn lemma_nested(r: int, a: int, b: int, c: int)
    ensures
        r * (a + r * (b + r * c)) == r * a + r * r * b + r * r * r * c,
{
    let t = b + r * c;
    assert(r * (a + r * t) == r * a + r * r * t) by (nonlinear_arith);
    assert(r * r * t == r * r * b + r * r * r * c) by (nonlinear_arith)
        requires
            t == b + r * c,
    ;
}

/// The padded products.
spec fn padded_triples(e: Seq<int>, m: Seq<int>, v: Seq<int>) -> spec_fn(int) -> int {
    |i: int| fmul(padded_at(e, i), fmul(padded_at(m, i), padded_at(v, i)))
}

/// The products of the upper halves.
spec fn high_triples(e: Seq<int>, m: Seq<int>, v: Seq<int>) -> spec_fn(int) -> int {
    |i: int| fmul(high(e, i), fmul(high(m, i), high(v, i)))
}

/// A sum of products is the sum over the lower plus the sum over the upper halves.
proof fn lemma_triple_halves(e: Seq<int>, m: Seq<int>, v: Seq<int>)
    requires
        e.len() == m.len(),
        e.len() == v.len(),
        e.len() != 1,
    ensures
        triple_sum(e, m, v) == fadd(
            fsum(cubic_c0_terms(e, m, v), half_len(e.len())),
            fsum(high_triples(e, m, v), half_len(e.len())),
        ),
{
    broadcast use lemma_residue_canonical;

    let n = e.len();
    let half = half_len(n);
    let f = padded_triples(e, m, v);
    lemma_ceil_log2(n);
    if n == 0 {
        vstd::arithmetic::power2::lemma2_to64();
        assert(half == 0);
        lemma_add_zero(0);
    } else {
        crate::arith::lemma_ceil_log2_pow2(crate::arith::ceil_log2_spec(n));
        crate::arith::lemma_half_of_pow2(crate::arith::next_pow2(n));
        assert(n <= half + half);
        lemma_fsum_eq(triple_terms(e, m, v), f, n);
        assert forall|i: int| n <= i < half + half implies #[trigger] f(i) == 0 by {
            let t = fmul(padded_at(m, i), padded_at(v, i));
            assert(0 * t == 0) by (nonlinear_arith);
            lemma_residue_id(0);
        }
        lemma_fsum_trim(f, n, half + half);
        lemma_fsum_split(f, high_triples(e, m, v), half, half);
        lemma_fsum_eq(f, cubic_c0_terms(e, m, v), half);
    }
}

/// The round polynomial of a sum of products of three: its value at `r` is the sum
/// of the products of the tables with their first variable set to `r`.
pub proof fn law_cubic_round(e: Seq<int>, m: Seq<int>, v: Seq<int>, r: int)
    requires
        all_canonical(e),
        all_canonical(m),
        all_canonical(v),
        canonical(r),
        e.len() == m.len(),
        e.len() == v.len(),
        e.len() != 1,
    ensures
        evaluate(with_linear(triple_sum(e, m, v), cubic_coefficients(e, m, v)), r) == triple_sum(
            folded(e, r),
            folded(m, r),
            folded(v, r),
        ),
{
    broadcast use {lemma_fsum_canonical, lemma_residue_canonical};

    let half = half_len(e.len());
    let x = cubic_c0_terms(e, m, v);
    let z = high_triples(e, m, v);
    let y2 = cubic_c2_terms(e, m, v);
    let y3 = cubic_c3_terms(e, m, v);
    let f = triple_terms(folded(e, r), folded(m, r), folded(v, r));
    assert forall|i: int| 0 <= i < half implies #[trigger] f(i) == cubic_at(
        r,
        x(i),
        z(i),
        y2(i),
        y3(i),
    ) by {
        lemma_cubic_element(r, low(e, i), high(e, i), low(m, i), high(m, i), low(v, i), high(v, i));
    }
    lemma_cubic_sum(f, x, z, y2, y3, r, half);
    lemma_triple_halves(e, m, v);
    lemma_evaluate_cubic(r, fsum(x, half), fsum(z, half), fsum(y2, half), fsum(y3, half));
    assert(cubic_coefficients(e, m, v) =~= seq![fsum(x, half), fsum(y2, half), fsum(y3, half)]);
}

/// A vector of ones.
spec fn ones(n: nat) -> Seq<int> {
    Seq::new(n, |i: int| 1int)
}

proof fn lemma_quad_element(r: int, m0: int, m1: int, v0: int, v1: int)
    requires
        canonical(r),
        canonical(m0),
        canonical(m1),
        canonical(v0),
        canonical(v1),
    ensures
        fmul(fadd(m0, fmul(r, fsub(m1, m0))), fadd(v0, fmul(r, fsub(v1, v0)))) == cubic_at(
            r,
            fmul(m0, v0),
            fmul(m1, v1),
            fmul(fsub(m1, m0), fsub(v1, v0)),
            0,
        ),
{
    broadcast use lemma_residue_canonical;

    lemma_cubic_element(r, 1, 1, m0, m1, v0, v1);
    lemma_residue_id(0);
    assert(fsub(1, 1) == 0);
    assert(r * 0 == 0) by (nonlinear_arith);
    assert(fadd(1, 0) == 1) by {
        lemma_add_zero(1);
    }
    let dm = fsub(m1, m0);
    let dv = fsub(v1, v0);
    let fm = fadd(m0, fmul(r, dm));
    let fv = fadd(v0, fmul(r, dv));
    crate::field::lemma_fmul_one(fmul(fm, fv));
    crate::field::lemma_fmul_one(fmul(m0, v0));
    crate::field::lemma_fmul_one(fmul(m1, v1));
    crate::field::lemma_fmul_one(fmul(dm, dv));
    let w = fadd(fmul(m0, dv), fmul(dm, v0));
    assert(0 * w == 0) by (nonlinear_arith);
    assert(0 * fmul(dm, dv) == 0) by (nonlinear_arith);
    lemma_add_zero(fmul(dm, dv));
}

/// The round polynomial of an inner product: its value at `r` is the inner product
/// of the tables with their first variable set to `r`.
pub proof fn law_quadratic_round(a: Seq<int>, b: Seq<int>, r: int)
    requires
        all_canonical(a),
        all_canonical(b),
        canonical(r),
        a.len() == b.len(),
        a.len() != 1,
    ensures
        evaluate(with_linear(dot_spec(a, b), quad_coefficients(a, b)), r) == dot_spec(
            folded(a, r),
            folded(b, r),
        ),
{
    broadcast use {lemma_fsum_canonical, lemma_residue_canonical};

    let n = a.len();
    let half = half_len(n);
    let x = quad_c0_terms(a, b);
    let z = |i: int| fmul(high(a, i), high(b, i));
    let y2 = quad_c2_terms(a, b);
    let y3 = |i: int| 0int;
    let f = dot_terms(folded(a, r), folded(b, r));
    assert forall|i: int| 0 <= i < half implies #[trigger] f(i) == cubic_at(
        r,
        x(i),
        z(i),
        y2(i),
        y3(i),
    ) by {
        lemma_quad_element(r, low(a, i), high(a, i), low(b, i), high(b, i));
    }
    lemma_cubic_sum(f, x, z, y2, y3, r, half);
    crate::sums::lemma_fsum_zero(y3, half);
    // The inner product as a sum of products of three, with ones.
    let e = ones(n);
    let t = triple_terms(e, a, b);
    assert forall|i: int| 0 <= i < n implies #[trigger] t(i) == dot_terms(a, b)(i) by {
        crate::field::lemma_fmul_one(fmul(a[i], b[i]));
    }
    lemma_fsum_eq(t, dot_terms(a, b), n);
    lemma_triple_halves(e, a, b);
    lemma_ceil_log2(n);
    let cx = cubic_c0_terms(e, a, b);
    let cz = high_triples(e, a, b);
    assert forall|i: int| 0 <= i < half implies #[trigger] cx(i) == x(i) by {
        lemma_half_below(n, i);
        crate::field::lemma_fmul_one(fmul(low(a, i), low(b, i)));
    }
    assert forall|i: int| 0 <= i < half implies #[trigger] cz(i) == z(i) by {
        if i + half < n {
            crate::field::lemma_fmul_one(fmul(high(a, i), high(b, i)));
        } else {
            lemma_residue_id(0);
        }
    }
    lemma_fsum_eq(cx, x, half);
    lemma_fsum_eq(cz, z, half);
    let (sx, sz, sy) = (fsum(x, half), fsum(z, half), fsum(y2, half));
    lemma_evaluate_cubic(r, sx, sz, sy, 0);
    lemma_drop_zero_coefficient(fadd(sx, sz), sx, sy, r);
    assert(quad_coefficients(a, b) =~= seq![sx, sy]);
}

proof fn lemma_half_below(n: nat, i: int)
    requires
        0 <= i < half_len(n),
    ensures
        i < n,
{
    lemma_ceil_log2(n);
    if n <= 1 {
        vstd::arithmetic::power2::lemma2_to64();
    }
}

/// A top coefficient of zero may be left out.
proof fn lemma_drop_zero_coefficient(sum: int, x: int, y: int, r: int)
    requires
        canonical(y),
    ensures
        evaluate(with_linear(sum, seq![x, y, 0int]), r) == evaluate(with_linear(sum, seq![x, y]), r),
{
    broadcast use lemma_residue_canonical;

    let h3 = seq![x, y, 0int].drop_first();
    let h2 = seq![x, y].drop_first();
    let g3 = entries(h3);
    let g2 = entries(h2);
    assert(h3 =~= seq![y, 0int]);
    assert(h2 =~= seq![y]);
    lemma_fsum_eq(g3, g2, 1);
    assert(g3(1) == 0);
    lemma_add_zero(fsum(g3, 1));
    assert(fsum(g3, 2) == fadd(fsum(g3, 1), g3(1)));
    let c1 = linear_coefficient(sum, x, h2);
    assert(linear_coefficient(sum, x, h3) == c1);
    let p3 = with_linear(sum, seq![x, y, 0int]);
    let p2 = with_linear(sum, seq![x, y]);
    assert(p3 =~= seq![x, c1, y, 0int]);
    assert(p2 =~= seq![x, c1, y]);
    assert(p3.drop_first() =~= seq![c1, y, 0int]);
    assert(p2.drop_first() =~= seq![c1, y]);
    assert(p3.drop_first().drop_first() =~= seq![y, 0int]);
    assert(p2.drop_first().drop_first() =~= seq![y]);
    let e = Seq::<int>::empty();
    assert(seq![y, 0int].drop_first() =~= seq![0int]);
    assert(seq![y].drop_first() =~= e);
    assert(seq![0int].drop_first() =~= e);
    assert(evaluate(e, r) == 0);
    lemma_residue_id(0);
    assert(r * 0 == 0) by (nonlinear_arith);
    assert(evaluate(seq![0int], r) == 0);
    assert(evaluate(seq![y, 0int], r) == evaluate(seq![y], r));
    assert(evaluate(seq![c1, y, 0int], r) == evaluate(seq![c1, y], r));
}

} // verus!
