//! Vectors and polynomials over the field.
//!
//! A vector of length `n` is also a multilinear polynomial in `ceil(log2 n)`
//! variables, given by its values on the hypercube: the first variable is the most
//! significant bit of the index, and missing entries are zero.

use crate::arith::{ceil_log2_spec, lemma_ceil_log2, next_pow2};
use crate::field::{
    fadd, fmul, fpow, fsub, lemma_fmul_assoc, lemma_fmul_one, lemma_fpow_canonical,
    lemma_residue_canonical, lemma_vals_push, lemma_view_canonical, vals, Field64,
};
use crate::sums::fsum;
use vstd::arithmetic::power2::{lemma_pow2_unfold, pow2};
use vstd::prelude::*;

verus! {

/// The products that an inner product sums up.
pub open spec fn dot_terms(a: Seq<int>, b: Seq<int>) -> spec_fn(int) -> int {
    |i: int| fmul(a[i], b[i])
}

/// The inner product of `a` with the first entries of `b`.
pub open spec fn dot_spec(a: Seq<int>, b: Seq<int>) -> int {
    fsum(dot_terms(a, b), a.len())
}

/// The value at `x` of the polynomial with the given coefficients, lowest first.
pub open spec fn evaluate(coefficients: Seq<int>, x: int) -> int
    decreases coefficients.len(),
{
    if coefficients.len() == 0 {
        0
    } else {
        fadd(coefficients[0], fmul(x, evaluate(coefficients.drop_first(), x)))
    }
}

/// `start, start * base, start * base^2, ...`
pub open spec fn geometric(start: int, base: int, len: nat) -> Seq<int> {
    Seq::new(len, |i: int| fmul(start, fpow(base, i as nat)))
}

/// Every entry times `c`.
pub open spec fn scaled(s: Seq<int>, c: int) -> Seq<int> {
    Seq::new(s.len(), |i: int| fmul(c, s[i]))
}

/// The entrywise sum.
pub open spec fn vsum(a: Seq<int>, b: Seq<int>) -> Seq<int> {
    Seq::new(a.len(), |i: int| fadd(a[i], b[i]))
}

/// A vector of zeros.
pub open spec fn zeros_spec(n: nat) -> Seq<int> {
    Seq::new(n, |i: int| 0int)
}

/// The entry at `i`, zero beyond the end.
pub open spec fn padded_at(s: Seq<int>, i: int) -> int {
    if 0 <= i < s.len() {
        s[i]
    } else {
        0
    }
}

/// The length after one fold.
pub open spec fn half_len(n: nat) -> nat {
    next_pow2(n) / 2
}

/// The multilinear polynomial with its first variable set to `r`.
pub open spec fn folded(s: Seq<int>, r: int) -> Seq<int> {
    Seq::new(
        half_len(s.len()),
        |i: int|
            fadd(
                padded_at(s, i),
                fmul(r, fsub(padded_at(s, i + half_len(s.len())), padded_at(s, i))),
            ),
    )
}

/// The polynomial with its first variables set to the given values, in order.
pub open spec fn folded_all(s: Seq<int>, rs: Seq<int>) -> Seq<int>
    decreases rs.len(),
{
    if rs.len() == 0 {
        s
    } else {
        folded(folded_all(s, rs.drop_last()), rs.last())
    }
}

/// The weights by which the values on the hypercube combine to the value at
/// `point`: the product over the bits of the index of the coordinate, or of one
/// minus the coordinate.
pub open spec fn eq_table(point: Seq<int>) -> Seq<int>
    decreases point.len(),
{
    if point.len() == 0 {
        seq![1int]
    } else {
        let rest = eq_table(point.drop_first());
        scaled(rest, fsub(1, point[0])) + scaled(rest, point[0])
    }
}

/// The value of the multilinear polynomial `s` at `point`.
pub open spec fn mle(s: Seq<int>, point: Seq<int>) -> int {
    dot_spec(s, eq_table(point))
}

/// The entry at position `i` of an accumulator after the powers of the first `k`
/// points were added, each times its coefficient.
pub open spec fn accumulated_at(acc: int, coefficients: Seq<int>, points: Seq<int>, i: nat, k: nat) -> int
    decreases k,
{
    if k == 0 {
        acc
    } else {
        fadd(
            accumulated_at(acc, coefficients, points, i, (k - 1) as nat),
            fmul(coefficients[k - 1], fpow(points[k - 1], i)),
        )
    }
}

/// An accumulator after the powers of every point were added to its first `len`
/// entries, each times its coefficient.
pub open spec fn accumulated(acc: Seq<int>, coefficients: Seq<int>, points: Seq<int>, len: nat) -> Seq<
    int,
> {
    Seq::new(
        acc.len(),
        |i: int|
            if i < len {
                accumulated_at(acc[i], coefficients, points, i as nat, points.len())
            } else {
                acc[i]
            },
    )
}

/// The inner product.
pub fn dot(a: &[Field64], b: &[Field64]) -> (r: Field64)
    requires
        a@.len() <= b@.len(),
    ensures
        r@ == dot_spec(vals(a@), vals(b@)),
{
    let mut acc: Field64 = Field64::zero();
    for i in 0..a.len()
        invariant
            a@.len() <= b@.len(),
            acc@ == fsum(dot_terms(vals(a@), vals(b@)), i as nat),
    {
        acc = acc.add(a[i].mul(b[i]));
    }
    acc
}

/// The value of a polynomial at `x`.
pub fn univariate_evaluate(coefficients: &[Field64], x: Field64) -> (r: Field64)
    ensures
        r@ == evaluate(vals(coefficients@), x@),
{
    let mut acc: Field64 = Field64::zero();
    let mut i: usize = coefficients.len();
    while i > 0
        invariant
            i <= coefficients@.len(),
            acc@ == evaluate(vals(coefficients@).skip(i as int), x@),
        decreases i,
    {
        i = i - 1;
        let ghost tail = vals(coefficients@).skip(i as int);
        assert(tail.drop_first() =~= vals(coefficients@).skip(i + 1));
        acc = coefficients[i].add(x.mul(acc));
    }
    assert(vals(coefficients@).skip(0) =~= vals(coefficients@));
    acc
}

/// `start, start * base, start * base^2, ...`
pub fn geometric_sequence(start: Field64, base: Field64, len: usize) -> (r: Vec<Field64>)
    ensures
        vals(r@) == geometric(start@, base@, len as nat),
{
    broadcast use {lemma_view_canonical, lemma_fpow_canonical};

    let mut out: Vec<Field64> = Vec::new();
    let mut current: Field64 = start;
    proof {
        lemma_fmul_one(start@);
    }
    for i in 0..len
        invariant
            vals(out@) =~= geometric(start@, base@, i as nat),
            current@ == fmul(start@, fpow(base@, i as nat)),
    {
        broadcast use {lemma_view_canonical, lemma_fpow_canonical};

        proof {
            lemma_vals_push(out@, current);
            lemma_fmul_assoc(start@, fpow(base@, i as nat), base@);
        }
        out.push(current);
        current = current.mul(base);
    }
    out
}

/// A vector of zeros.
pub fn zeros(len: usize) -> (r: Vec<Field64>)
    ensures
        vals(r@) == zeros_spec(len as nat),
        r@.len() == len,
{
    let mut out: Vec<Field64> = Vec::new();
    for i in 0..len
        invariant
            out@.len() == i,
            vals(out@) =~= zeros_spec(i as nat),
    {
        let z: Field64 = Field64::zero();
        proof {
            lemma_vals_push(out@, z);
        }
        out.push(z);
    }
    out
}

/// A copy of the elements.
pub fn copied(s: &[Field64]) -> (r: Vec<Field64>)
    ensures
        r@ == s@,
{
    let mut out: Vec<Field64> = Vec::new();
    for i in 0..s.len()
        invariant
            out@ == s@.take(i as int),
    {
        out.push(s[i]);
        assert(s@.take(i + 1) == s@.take(i as int).push(s@[i as int]));
    }
    assert(s@.take(s@.len() as int) == s@);
    out
}

/// Multiply every entry by `c`.
pub fn scalar_mul(v: &mut Vec<Field64>, c: Field64)
    ensures
        vals(final(v)@) == scaled(vals(old(v)@), c@),
        final(v)@.len() == old(v)@.len(),
{
    let n: usize = v.len();
    for i in 0..n
        invariant
            n == v@.len(),
            v@.len() == old(v)@.len(),
            forall|j: int| 0 <= j < i ==> (#[trigger] v@[j])@ == fmul(c@, old(v)@[j]@),
            forall|j: int| i <= j < v@.len() ==> #[trigger] v@[j] == old(v)@[j],
    {
        let x: Field64 = v[i];
        v.set(i, c.mul(x));
    }
    assert(vals(v@) =~= scaled(vals(old(v)@), c@));
}

/// Add the powers of every point to the first `len` entries, each times its
/// coefficient.
pub fn geometric_accumulate(
    acc: &mut Vec<Field64>,
    coefficients: &[Field64],
    points: &[Field64],
    len: usize,
)
    requires
        coefficients@.len() == points@.len(),
        len <= old(acc)@.len(),
    ensures
        vals(final(acc)@) == accumulated(
            vals(old(acc)@),
            vals(coefficients@),
            vals(points@),
            len as nat,
        ),
        final(acc)@.len() == old(acc)@.len(),
{
    let ghost cs = vals(coefficients@);
    let ghost xs = vals(points@);
    for k in 0..points.len()
        invariant
            coefficients@.len() == points@.len(),
            len <= acc@.len(),
            acc@.len() == old(acc)@.len(),
            cs == vals(coefficients@),
            xs == vals(points@),
            forall|j: int|
                0 <= j < len ==> (#[trigger] acc@[j])@ == accumulated_at(
                    old(acc)@[j]@,
                    cs,
                    xs,
                    j as nat,
                    k as nat,
                ),
            forall|j: int| len <= j < acc@.len() ==> #[trigger] acc@[j] == old(acc)@[j],
    {
        let mut power: Field64 = Field64::one();
        for i in 0..len
            invariant
                k < points@.len(),
                coefficients@.len() == points@.len(),
                len <= acc@.len(),
                acc@.len() == old(acc)@.len(),
                cs == vals(coefficients@),
                xs == vals(points@),
                power@ == fpow(xs[k as int], i as nat),
                forall|j: int|
                    0 <= j < i ==> (#[trigger] acc@[j])@ == accumulated_at(
                        old(acc)@[j]@,
                        cs,
                        xs,
                        j as nat,
                        (k + 1) as nat,
                    ),
                forall|j: int|
                    i <= j < len ==> (#[trigger] acc@[j])@ == accumulated_at(
                        old(acc)@[j]@,
                        cs,
                        xs,
                        j as nat,
                        k as nat,
                    ),
                forall|j: int| len <= j < acc@.len() ==> #[trigger] acc@[j] == old(acc)@[j],
        {
            let x: Field64 = acc[i];
            acc.set(i, x.add(coefficients[k].mul(power)));
            power = power.mul(points[k]);
        }
    }
    assert(vals(acc@) =~= accumulated(vals(old(acc)@), cs, xs, len as nat));
}

/// The weights by which the values on the hypercube combine to the value at
/// `point`.
pub fn eq_weights(point: &[Field64]) -> (r: Vec<Field64>)
    ensures
        vals(r@) == eq_table(vals(point@)),
        r@.len() == pow2(point@.len()),
{
    let ghost pt = vals(point@);
    let mut table: Vec<Field64> = vec![Field64::one()];
    let mut i: usize = point.len();
    assert(vals(table@) =~= eq_table(pt.skip(i as int)));
    proof {
        vstd::arithmetic::power2::lemma2_to64();
    }
    while i > 0
        invariant
            i <= point@.len(),
            pt == vals(point@),
            vals(table@) == eq_table(pt.skip(i as int)),
            table@.len() == pow2((point@.len() - i) as nat),
        decreases i,
    {
        i = i - 1;
        let ghost tail = pt.skip(i as int);
        let ghost rest = vals(table@);
        proof {
            assert(tail.drop_first() =~= pt.skip(i + 1));
            lemma_pow2_unfold((point@.len() - i) as nat);
        }
        let high: Field64 = point[i];
        let low: Field64 = Field64::one().sub(high);
        let mut next: Vec<Field64> = Vec::new();
        for j in 0..table.len()
            invariant
                next@.len() == j,
                forall|k: int| 0 <= k < j ==> (#[trigger] next@[k])@ == fmul(low@, table@[k]@),
        {
            next.push(low.mul(table[j]));
        }
        let ghost n = table@.len();
        for j in 0..table.len()
            invariant
                n == table@.len(),
                next@.len() == n + j,
                forall|k: int| 0 <= k < n ==> (#[trigger] next@[k])@ == fmul(low@, table@[k]@),
                forall|k: int| n <= k < n + j ==> (#[trigger] next@[k])@ == fmul(high@, table@[k - n]@),
        {
            next.push(high.mul(table[j]));
        }
        assert(vals(next@) =~= scaled(rest, low@) + scaled(rest, high@));
        table = next;
    }
    assert(pt.skip(0) =~= pt);
    table
}

/// The length after one fold.
pub fn folded_len(n: usize) -> (r: usize)
    requires
        n <= usize::MAX / 2 + 1,
    ensures
        r == half_len(n as nat),
        n <= 2 * r || n <= 1,
        r <= n,
{
    proof {
        lemma_ceil_log2(n as nat);
    }
    if n <= 1 {
        proof {
            vstd::arithmetic::power2::lemma2_to64();
        }
        return 0;
    }
    let mut half: usize = 1;
    let ghost mut k: nat = 0;
    proof {
        vstd::arithmetic::power2::lemma2_to64();
    }
    let steps: u32 = crate::arith::ceil_log2(n) - 1;
    proof {
        lemma_pow2_unfold(ceil_log2_spec(n as nat));
    }
    for i in 0..steps
        invariant
            half == pow2(i as nat),
            pow2(steps as nat) < n,
    {
        proof {
            lemma_pow2_unfold((i + 1) as nat);
            if i + 1 < steps {
                vstd::arithmetic::power2::lemma_pow2_strictly_increases((i + 1) as nat, steps as nat);
            }
        }
        half = half * 2;
    }
    half
}

/// Set the first variable to `r`.
pub fn fold(v: &mut Vec<Field64>, r: Field64)
    requires
        old(v)@.len() <= usize::MAX / 2 + 1,
    ensures
        vals(final(v)@) == folded(vals(old(v)@), r@),
{
    broadcast use {lemma_view_canonical, lemma_residue_canonical};

    let ghost s = vals(v@);
    let n: usize = v.len();
    let half: usize = folded_len(n);
    let mut out: Vec<Field64> = Vec::new();
    for i in 0..half
        invariant
            n == v@.len(),
            s == vals(v@),
            half == half_len(n as nat),
            half <= n,
            out@.len() == i,
            forall|j: int| 0 <= j < i ==> (#[trigger] out@[j])@ == folded(s, r@)[j],
    {
        let low: Field64 = v[i];
        let high: Field64 = if i < n - half {
            v[i + half]
        } else {
            Field64::zero()
        };
        out.push(low.add(r.mul(high.sub(low))));
    }
    assert(vals(out@) =~= folded(s, r@));
    *v = out;
}

} // verus!
