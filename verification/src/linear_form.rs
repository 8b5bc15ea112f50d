//! Linear forms on vectors: explicit covectors, multilinear extensions and
//! univariate evaluations.

use crate::algebra::{
    dot, eq_table, eq_weights, folded, geometric, geometric_sequence, half_len, mle, padded_at,
    scaled,
};
use crate::arith::{lemma_ceil_log2_pow2, power_of_two};
use crate::field::{
    all_canonical, canonical, fadd, fmul, fpow, fsub, group_residue, lemma_fmul_one, lemma_fpow_add,
    lemma_fpow_canonical, lemma_residue_canonical, lemma_residue_id, lemma_vals_canonical,
    lemma_view_canonical, residue, vals, Field64,
};
use crate::sums::{lemma_add_zero, lemma_fsum_canonical};
use crate::vector_laws::{law_dot_scaled, law_mle_fold, lemma_eq_table_len};
use vstd::arithmetic::power2::{lemma_pow2_unfold, pow2};
use vstd::prelude::*;

verus! {

/// `(1 - a) * (1 - b) + a * b`.
pub open spec fn eq_factor(a: int, b: int) -> int {
    fadd(fmul(fsub(1, a), fsub(1, b)), fmul(a, b))
}

/// The product of `(1 - a) * (1 - b) + a * b` over the coordinates.
pub open spec fn eq_product(a: Seq<int>, b: Seq<int>) -> int
    decreases a.len(),
{
    if a.len() == 0 {
        1
    } else {
        fmul(eq_factor(a[0], b[0]), eq_product(a.drop_first(), b.drop_first()))
    }
}

/// The value at `point` of the multilinear polynomial whose values are the powers
/// of `x`: a product over the coordinates, the last one with `x` itself.
pub open spec fn power_product(x: int, point: Seq<int>) -> int
    decreases point.len(),
{
    if point.len() == 0 {
        1
    } else {
        let high = fpow(x, pow2((point.len() - 1) as nat));
        fmul(
            fadd(1, fmul(point[0], fsub(high, 1))),
            power_product(x, point.drop_first()),
        )
    }
}

/// A linear form on vectors of a given size.
#[derive(Debug)]
pub enum LinearForm {
    /// The inner product with the given vector.
    Covector { vector: Vec<Field64> },
    /// The value at `point` of the multilinear polynomial with the given values.
    MultilinearExtension { point: Vec<Field64> },
    /// The value at `x` of the polynomial with the given coefficients.
    UnivariateEvaluation { x: Field64, size: usize },
}

impl LinearForm {
    /// The vector whose inner product is this form.
    pub open spec fn covector(&self) -> Seq<int> {
        match self {
            LinearForm::Covector { vector } => vals(vector@),
            LinearForm::MultilinearExtension { point } => eq_table(vals(point@)),
            LinearForm::UnivariateEvaluation { x, size } => geometric(1, x@, *size as nat),
        }
    }

    /// Does the vector's length fit a machine size?
    pub open spec fn wf(&self) -> bool {
        self.covector().len() <= usize::MAX
    }

    /// The length of the vectors that this form takes.
    pub fn size(&self) -> (r: usize)
        requires
            self.wf(),
        ensures
            r == self.covector().len(),
    {
        match self {
            LinearForm::Covector { vector } => vector.len(),
            LinearForm::MultilinearExtension { point } => {
                proof {
                    lemma_eq_table_len(vals(point@));
                }
                power_of_two(point.len())
            },
            LinearForm::UnivariateEvaluation { x, size } => *size,
        }
    }

    /// The vector whose inner product is this form.
    pub fn to_covector(&self) -> (r: Vec<Field64>)
        requires
            self.wf(),
        ensures
            vals(r@) == self.covector(),
            r@.len() == self.covector().len(),
    {
        let r: Vec<Field64> = match self {
            LinearForm::Covector { vector } => crate::algebra::copied(vector.as_slice()),
            LinearForm::MultilinearExtension { point } => eq_weights(point.as_slice()),
            LinearForm::UnivariateEvaluation { x, size } => geometric_sequence(
                Field64::one(),
                *x,
                *size,
            ),
        };
        assert(r@.len() == vals(r@).len());
        r
    }

    /// Add `scalar` times this form's vector to the entries from `offset` on.
    pub fn accumulate(&self, accumulator: &mut Vec<Field64>, offset: usize, scalar: Field64)
        requires
            self.wf(),
            offset + self.covector().len() <= old(accumulator)@.len(),
        ensures
            vals(final(accumulator)@) == added_at(
                vals(old(accumulator)@),
                offset as nat,
                self.covector(),
                scalar@,
            ),
            final(accumulator)@.len() == old(accumulator)@.len(),
    {
        let vector: Vec<Field64> = self.to_covector();
        let n: usize = vector.len();
        let len: usize = accumulator.len();
        let ghost cov = self.covector();
        for i in 0..n
            invariant
                n == vector@.len(),
                cov == vals(vector@),
                len == accumulator@.len(),
                offset + n <= accumulator@.len(),
                accumulator@.len() == old(accumulator)@.len(),
                forall|j: int|
                    0 <= j < accumulator@.len() ==> (#[trigger] accumulator@[j])@ == (if offset <= j
                        < offset + i {
                        fadd(old(accumulator)@[j]@, fmul(scalar@, cov[j - offset]))
                    } else {
                        old(accumulator)@[j]@
                    }),
        {
            let x: Field64 = accumulator[offset + i];
            accumulator.set(offset + i, x.add(scalar.mul(vector[i])));
        }
        assert(vals(accumulator@) =~= added_at(
            vals(old(accumulator)@),
            offset as nat,
            cov,
            scalar@,
        ));
    }

    /// The value at `point` of the multilinear polynomial whose values are this
    /// form's vector.
    pub fn mle_evaluate(&self, point: &[Field64]) -> (r: Field64)
        requires
            self.wf(),
            self.covector().len() == pow2(point@.len()),
        ensures
            r@ == mle(self.covector(), vals(point@)),
    {
        broadcast use {lemma_vals_canonical, lemma_view_canonical};

        match self {
            LinearForm::Covector { vector } => {
                let weights: Vec<Field64> = eq_weights(point);
                dot(vector.as_slice(), weights.as_slice())
            },
            LinearForm::MultilinearExtension { point: own } => {
                proof {
                    lemma_eq_table_len(vals(own@));
                    crate::arith::lemma_pow2_injective(own@.len(), point@.len());
                    law_mle_of_eq_table(vals(own@), vals(point@));
                }
                eq_polynomial(own.as_slice(), point)
            },
            LinearForm::UnivariateEvaluation { x, size } => {
                proof {
                    law_mle_of_powers(x@, vals(point@));
                }
                mle_of_powers(*x, point)
            },
        }
    }
}

/// `acc` with `scalar` times `cov` added from `offset` on.
pub open spec fn added_at(acc: Seq<int>, offset: nat, cov: Seq<int>, scalar: int) -> Seq<int> {
    Seq::new(
        acc.len(),
        |j: int|
            if offset <= j < offset + cov.len() {
                fadd(acc[j], fmul(scalar, cov[j - offset]))
            } else {
                acc[j]
            },
    )
}

/// The product of `(1 - a) * (1 - b) + a * b` over the coordinates.
pub fn eq_polynomial(a: &[Field64], b: &[Field64]) -> (r: Field64)
    requires
        a@.len() == b@.len(),
    ensures
        r@ == eq_product(vals(a@), vals(b@)),
{
    let mut acc: Field64 = Field64::one();
    let mut i: usize = a.len();
    assert(vals(a@).skip(i as int) =~= Seq::<int>::empty());
    while i > 0
        invariant
            i <= a@.len(),
            a@.len() == b@.len(),
            acc@ == eq_product(vals(a@).skip(i as int), vals(b@).skip(i as int)),
        decreases i,
    {
        i = i - 1;
        proof {
            assert(vals(a@).skip(i as int).drop_first() =~= vals(a@).skip(i + 1));
            assert(vals(b@).skip(i as int).drop_first() =~= vals(b@).skip(i + 1));
        }
        let one: Field64 = Field64::one();
        let factor: Field64 = one.sub(a[i]).mul(one.sub(b[i])).add(a[i].mul(b[i]));
        acc = factor.mul(acc);
    }
    assert(vals(a@).skip(0) =~= vals(a@));
    assert(vals(b@).skip(0) =~= vals(b@));
    acc
}

/// The value at `point` of the multilinear polynomial whose values are the powers
/// of `x`.
pub fn mle_of_powers(x: Field64, point: &[Field64]) -> (r: Field64)
    ensures
        r@ == power_product(x@, vals(point@)),
{
    let mut acc: Field64 = Field64::one();
    let mut power: Field64 = x;
    let mut i: usize = point.len();
    let ghost n = point@.len();
    proof {
        assert(vals(point@).skip(i as int) =~= Seq::<int>::empty());
        vstd::arithmetic::power2::lemma2_to64();
        lemma_view_canonical(x);
        reveal_with_fuel(fpow, 2);
        lemma_fmul_one(x@);
    }
    while i > 0
        invariant
            i <= n,
            n == point@.len(),
            power@ == fpow(x@, pow2((n - i) as nat)),
            acc@ == power_product(x@, vals(point@).skip(i as int)),
        decreases i,
    {
        i = i - 1;
        proof {
            let tail = vals(point@).skip(i as int);
            assert(tail.drop_first() =~= vals(point@).skip(i + 1));
            assert((tail.len() - 1) as nat == (n - (i + 1)) as nat);
            lemma_view_canonical(x);
            lemma_pow2_unfold((n - i) as nat);
            let h = pow2((n - (i + 1)) as nat);
            lemma_fpow_add(x@, h, h);
            assert(pow2((n - i) as nat) == h + h);
        }
        let one: Field64 = Field64::one();
        acc = one.add(point[i].mul(power.sub(one))).mul(acc);
        power = power.mul(power);
    }
    assert(vals(point@).skip(0) =~= vals(point@));
    acc
}

/// The fold of a table whose halves are multiples of one another.
proof fn lemma_fold_of_multiples(t: Seq<int>, low: int, high: int, r: int, k: nat)
    requires
        t.len() == pow2(k),
        all_canonical(t),
        canonical(low),
        canonical(high),
        canonical(r),
    ensures
        folded(scaled(t, low) + scaled(t, high), r) == scaled(
            t,
            fadd(low, fmul(r, fsub(high, low))),
        ),
{
    broadcast use lemma_residue_canonical;

    let s = scaled(t, low) + scaled(t, high);
    let c = fadd(low, fmul(r, fsub(high, low)));
    lemma_pow2_unfold(k + 1);
    lemma_ceil_log2_pow2(k + 1);
    assert(half_len(s.len()) == t.len());
    let lhs = folded(s, r);
    assert forall|i: int| 0 <= i < t.len() implies lhs[i] == scaled(t, c)[i] by {
        let x = t[i];
        assert(canonical(x));
        assert(padded_at(s, i) == fmul(low, x));
        assert(padded_at(s, i + t.len()) == fmul(high, x));
        lemma_factor_out(low, high, r, x);
    }
    assert(lhs =~= scaled(t, c));
}

proof fn lemma_factor_out(low: int, high: int, r: int, x: int)
    requires
        canonical(low),
        canonical(high),
        canonical(r),
        canonical(x),
    ensures
        fadd(fmul(low, x), fmul(r, fsub(fmul(high, x), fmul(low, x)))) == fmul(
            fadd(low, fmul(r, fsub(high, low))),
            x,
        ),
{
    broadcast use group_residue;

    lemma_residue_id(low);
    lemma_residue_id(high);
    lemma_residue_id(r);
    lemma_residue_id(x);
    assert(fsub(fmul(high, x), fmul(low, x)) == residue(high * x - low * x));
    assert(fadd(fmul(low, x), fmul(r, fsub(fmul(high, x), fmul(low, x)))) == residue(
        low * x + r * (high * x - low * x),
    ));
    assert(fmul(fadd(low, fmul(r, fsub(high, low))), x) == residue((low + r * (high - low)) * x));
    let d = high - low;
    assert(high * x - low * x == d * x) by (nonlinear_arith)
        requires
            d == high - low,
    ;
    assert((low + r * d) * x == low * x + r * (d * x)) by (nonlinear_arith);
}

/// `(1 - a) + b * (a - (1 - a)) == (1 - a) * (1 - b) + a * b`.
proof fn lemma_eq_factor(a: int, b: int)
    requires
        canonical(a),
        canonical(b),
    ensures
        fadd(fsub(1, a), fmul(b, fsub(a, fsub(1, a)))) == eq_factor(a, b),
{
    broadcast use group_residue;

    lemma_residue_id(a);
    lemma_residue_id(b);
    lemma_residue_id(1);
    assert(fadd(fsub(1, a), fmul(b, fsub(a, fsub(1, a)))) == residue(
        (1 - a) + b * (a - (1 - a)),
    ));
    assert(eq_factor(a, b) == residue((1 - a) * (1 - b) + a * b));
    assert((1 - a) + b * (a - (1 - a)) == (1 - a) * (1 - b) + a * b) by (nonlinear_arith);
}

/// Setting the first variable of the weights at `a` to `r`.
pub proof fn lemma_fold_eq_table(a: Seq<int>, r: int)
    requires
        all_canonical(a),
        canonical(r),
        a.len() > 0,
    ensures
        folded(eq_table(a), r) == scaled(eq_table(a.drop_first()), eq_factor(a[0], r)),
{
    broadcast use lemma_residue_canonical;

    let t = eq_table(a.drop_first());
    lemma_eq_table_len(a.drop_first());
    assert(canonical(a[0]));
    lemma_fold_of_multiples(t, fsub(1, a[0]), a[0], r, (a.len() - 1) as nat);
    lemma_eq_factor(a[0], r);
}

/// The weights at one point, as a polynomial, at another: the product of
/// `(1 - a) * (1 - b) + a * b` over the coordinates.
pub proof fn law_mle_of_eq_table(a: Seq<int>, b: Seq<int>)
    requires
        all_canonical(a),
        all_canonical(b),
        a.len() == b.len(),
    ensures
        mle(eq_table(a), b) == eq_product(a, b),
    decreases a.len(),
{
    broadcast use {lemma_residue_canonical, lemma_fsum_canonical};

    lemma_eq_table_len(a);
    if a.len() == 0 {
        reveal_with_fuel(crate::sums::fsum, 2);
        let f = crate::algebra::dot_terms(eq_table(a), eq_table(b));
        assert(f(0) == fmul(1, 1));
        lemma_fmul_one(1);
        lemma_add_zero(1);
    } else {
        let a1 = a.drop_first();
        let b1 = b.drop_first();
        assert(canonical(b[0]) && canonical(a[0]));
        lemma_ceil_log2_pow2(a.len());
        law_mle_fold(eq_table(a), b);
        lemma_fold_eq_table(a, b[0]);
        lemma_eq_table_len(a1);
        lemma_eq_table_len(b1);
        assert(all_canonical(a1)) by {
            assert forall|i: int| 0 <= i < a1.len() implies canonical(#[trigger] a1[i]) by {
                assert(canonical(a[i + 1]));
            }
        }
        assert(all_canonical(b1)) by {
            assert forall|i: int| 0 <= i < b1.len() implies canonical(#[trigger] b1[i]) by {
                assert(canonical(b[i + 1]));
            }
        }
        law_dot_scaled(eq_table(a1), eq_table(b1), eq_factor(a[0], b[0]));
        law_mle_of_eq_table(a1, b1);
    }
}

/// The powers of `x`, as a polynomial, at `point`.
pub proof fn law_mle_of_powers(x: int, point: Seq<int>)
    requires
        canonical(x),
        all_canonical(point),
    ensures
        mle(geometric(1, x, pow2(point.len())), point) == power_product(x, point),
    decreases point.len(),
{
    broadcast use {lemma_residue_canonical, lemma_fsum_canonical, lemma_fpow_canonical};

    let n = point.len();
    let g = geometric(1, x, pow2(n));
    if n == 0 {
        vstd::arithmetic::power2::lemma2_to64();
        reveal_with_fuel(crate::sums::fsum, 2);
        let f = crate::algebra::dot_terms(g, eq_table(point));
        assert(g[0] == fmul(1, 1));
        lemma_fmul_one(1);
        assert(f(0) == fmul(1, 1));
        lemma_add_zero(1);
    } else {
        let tail = point.drop_first();
        let k = (n - 1) as nat;
        let t = geometric(1, x, pow2(k));
        let high = fpow(x, pow2(k));
        lemma_pow2_unfold(n);
        assert(all_canonical(g));
        assert(all_canonical(t));
        let s = scaled(t, 1) + scaled(t, high);
        assert forall|i: int| 0 <= i < g.len() implies g[i] == s[i] by {
            if i < t.len() {
                lemma_fmul_one(t[i]);
            } else {
                let j = (i - t.len()) as nat;
                lemma_fpow_add(x, pow2(k), j);
                assert(pow2(k) + j == i as nat);
                lemma_fmul_one(fpow(x, i as nat));
                lemma_fmul_one(fpow(x, j));
            }
        }
        assert(g =~= s);
        assert(canonical(point[0]));
        lemma_ceil_log2_pow2(n);
        law_mle_fold(g, point);
        lemma_fold_of_multiples(t, 1, high, point[0], k);
        lemma_eq_table_len(tail);
        assert(all_canonical(tail)) by {
            assert forall|i: int| 0 <= i < tail.len() implies canonical(#[trigger] tail[i]) by {
                assert(canonical(point[i + 1]));
            }
        }
        law_dot_scaled(t, eq_table(tail), fadd(1, fmul(point[0], fsub(high, 1))));
        law_mle_of_powers(x, tail);
    }
}

} // verus!
