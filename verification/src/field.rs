//! The prime field of order `2^64 - 2^32 + 1`.
//!
//! The mathematical value of an element is an integer in `[0, MODULUS)`, its
//! view. Specifications are written over these integers with the reduced
//! operations `fadd`, `fsub` and `fmul`; `residue` is the ring homomorphism from
//! the integers, which is how polynomial identities are proved: both sides are
//! residues of integer polynomials, and the integer polynomials agree.

use crate::prime::lemma_modulus_is_prime;
use vstd::arithmetic::div_mod::{
    lemma_add_mod_noop, lemma_fundamental_div_mod, lemma_fundamental_div_mod_converse,
    lemma_mod_bound, lemma_mod_self_0, lemma_mul_mod_noop_general, lemma_small_mod,
    lemma_sub_mod_noop,
};
use vstd::prelude::*;
use zeroize::Zeroize;

verus! {

/// The field's order.
pub const MODULUS: u64 = 0xFFFF_FFFF_0000_0001;

/// The residue class of an integer, as its representative in `[0, MODULUS)`.
#[verifier::opaque]
pub open spec fn residue(x: int) -> int {
    x % (MODULUS as int)
}

/// Is this integer a canonical field value?
pub open spec fn canonical(x: int) -> bool {
    0 <= x < MODULUS
}

/// Are all entries canonical field values?
pub open spec fn all_canonical(s: Seq<int>) -> bool {
    forall|i: int| 0 <= i < s.len() ==> canonical(#[trigger] s[i])
}

/// Field addition.
pub open spec fn fadd(a: int, b: int) -> int {
    residue(a + b)
}

/// Field subtraction.
pub open spec fn fsub(a: int, b: int) -> int {
    residue(a - b)
}

/// Field multiplication.
pub open spec fn fmul(a: int, b: int) -> int {
    residue(a * b)
}

/// `base` to the power `exp` in the field.
pub open spec fn fpow(base: int, exp: nat) -> int
    decreases exp,
{
    if exp == 0 {
        1
    } else {
        fmul(fpow(base, (exp - 1) as nat), base)
    }
}

/// A residue is canonical.
pub broadcast proof fn lemma_residue_canonical(x: int)
    ensures
        canonical(#[trigger] residue(x)),
{
    reveal(residue);
    lemma_mod_bound(x, MODULUS as int);
}

/// A canonical value is its own residue.
pub proof fn lemma_residue_id(x: int)
    requires
        canonical(x),
    ensures
        residue(x) == x,
{
    reveal(residue);
    lemma_small_mod(x as nat, MODULUS as nat);
}

/// The residue map preserves sums.
pub broadcast proof fn lemma_residue_add(x: int, y: int)
    ensures
        #[trigger] fadd(residue(x), residue(y)) == residue(x + y),
{
    reveal(residue);
    lemma_add_mod_noop(x, y, MODULUS as int);
}

/// The residue map preserves differences.
pub broadcast proof fn lemma_residue_sub(x: int, y: int)
    ensures
        #[trigger] fsub(residue(x), residue(y)) == residue(x - y),
{
    reveal(residue);
    lemma_sub_mod_noop(x, y, MODULUS as int);
}

/// The residue map preserves products.
pub broadcast proof fn lemma_residue_mul(x: int, y: int)
    ensures
        #[trigger] fmul(residue(x), residue(y)) == residue(x * y),
{
    reveal(residue);
    lemma_mul_mod_noop_general(x, y, MODULUS as int);
}

pub broadcast group group_residue {
    lemma_residue_canonical,
    lemma_residue_add,
    lemma_residue_sub,
    lemma_residue_mul,
}

/// An element of the field.
///
/// The word may be any `u64`; elements are equal when their words agree modulo
/// [`MODULUS`]. Every operation returns the canonical word.
#[derive(Clone, Copy, Debug)]
pub struct Field64 {
    word: u64,
}

impl View for Field64 {
    type V = int;

    closed spec fn view(&self) -> int {
        self.word as int % (MODULUS as int)
    }
}

/// The values of a sequence of elements.
pub open spec fn vals(s: Seq<Field64>) -> Seq<int> {
    Seq::new(s.len(), |i: int| s[i]@)
}

/// The value of an element is canonical.
pub broadcast proof fn lemma_view_canonical(x: Field64)
    ensures
        canonical(#[trigger] x@),
{
    lemma_mod_bound(x.word as int, MODULUS as int);
}

/// The values of elements are canonical.
pub broadcast proof fn lemma_vals_canonical(s: Seq<Field64>)
    ensures
        all_canonical(#[trigger] vals(s)),
{
    broadcast use lemma_view_canonical;

}

/// The values of a sequence that grew by one element.
pub broadcast proof fn lemma_vals_push(s: Seq<Field64>, x: Field64)
    ensures
        #[trigger] vals(s.push(x)) == vals(s).push(x@),
{
    assert(vals(s.push(x)) =~= vals(s).push(x@));
}

impl PartialEq for Field64 {
    fn eq(&self, other: &Self) -> (r: bool) {
        self.word % MODULUS == other.word % MODULUS
    }
}

impl vstd::std_specs::cmp::PartialEqSpecImpl for Field64 {
    open spec fn obeys_eq_spec() -> bool {
        true
    }

    open spec fn eq_spec(&self, other: &Self) -> bool {
        self@ == other@
    }
}

impl Eq for Field64 {

}

impl Default for Field64 {
    fn default() -> (r: Self)
        ensures
            r@ == 0,
    {
        Field64 { word: 0 }
    }
}

/// Calls `zeroize::Zeroize::zeroize` on a word, which overwrites it with zero in a
/// way that is not optimised away.
#[verifier::external_body]
fn wipe_word(word: &mut u64)
    ensures
        *final(word) == 0,
{
    word.zeroize();
}

/// Overwrite secret elements with zeros.
pub fn erase(xs: &mut Vec<Field64>)
    ensures
        final(xs)@.len() == old(xs)@.len(),
        forall|i: int| 0 <= i < final(xs)@.len() ==> (#[trigger] final(xs)@[i])@ == 0,
{
    let n: usize = xs.len();
    for i in 0..n
        invariant
            n == xs@.len(),
            forall|j: int| 0 <= j < i ==> (#[trigger] xs@[j])@ == 0,
    {
        let x: &mut Field64 = &mut xs[i];
        wipe_word(&mut x.word);
    }
}

/// Overwrite secret elements with zeros, and drop them.
pub fn wipe(xs: &mut Vec<Field64>)
    ensures
        final(xs)@.len() == 0,
{
    erase(xs);
    xs.clear();
}

impl Field64 {
    /// The element a word stands for.
    pub fn new(word: u64) -> (r: Self)
        ensures
            r@ == residue(word as int),
    {
        proof {
            reveal(residue);
        }
        Field64 { word }
    }

    /// The canonical word of this element.
    pub fn to_u64(self) -> (r: u64)
        ensures
            r == self@,
    {
        self.word % MODULUS
    }

    /// The neutral element of addition.
    pub fn zero() -> (r: Self)
        ensures
            r@ == 0,
    {
        Field64 { word: 0 }
    }

    /// The neutral element of multiplication.
    pub fn one() -> (r: Self)
        ensures
            r@ == 1,
    {
        Field64 { word: 1 }
    }

    /// Is this the zero element?
    pub fn is_zero(self) -> (r: bool)
        ensures
            r == (self@ == 0),
    {
        self.word % MODULUS == 0
    }

    /// The sum.
    pub fn add(self, other: Self) -> (r: Self)
        ensures
            r@ == fadd(self@, other@),
    {
        proof {
            reveal(residue);
        }
        let a: u128 = (self.word % MODULUS) as u128;
        let b: u128 = (other.word % MODULUS) as u128;
        Field64 { word: ((a + b) % (MODULUS as u128)) as u64 }
    }

    /// The difference.
    pub fn sub(self, other: Self) -> (r: Self)
        ensures
            r@ == fsub(self@, other@),
    {
        let a: u64 = self.word % MODULUS;
        let b: u64 = other.word % MODULUS;
        proof {
            reveal(residue);
        }
        if a >= b {
            Field64 { word: a - b }
        } else {
            Field64 { word: MODULUS - (b - a) }
        }
    }

    /// The product.
    pub fn mul(self, other: Self) -> (r: Self)
        ensures
            r@ == fmul(self@, other@),
    {
        let a: u128 = (self.word % MODULUS) as u128;
        let b: u128 = (other.word % MODULUS) as u128;
        proof {
            reveal(residue);
            assert(0 <= a * b <= 0xFFFF_FFFF_FFFF_FFFF * 0xFFFF_FFFF_FFFF_FFFF) by (nonlinear_arith)
                requires
                    0 <= a <= 0xFFFF_FFFF_FFFF_FFFF,
                    0 <= b <= 0xFFFF_FFFF_FFFF_FFFF,
            ;
        }
        Field64 { word: ((a * b) % (MODULUS as u128)) as u64 }
    }

    /// This element to the power `exp`.
    pub fn pow(self, exp: u64) -> (r: Self)
        ensures
            r@ == fpow(self@, exp as nat),
    {
        let mut acc: Field64 = Field64::one();
        let mut base: Field64 = self;
        let mut left: u64 = exp;
        proof {
            lemma_fpow_canonical(self@, exp as nat);
            lemma_fmul_one(fpow(self@, exp as nat));
        }
        while left > 0
            invariant
                fmul(acc@, fpow(base@, left as nat)) == fpow(self@, exp as nat),
            decreases left,
        {
            broadcast use lemma_view_canonical;

            let ghost half = (left / 2) as nat;
            let ghost rest = fpow(fmul(base@, base@), half);
            proof {
                lemma_fpow_canonical(fmul(base@, base@), half);
                lemma_fpow_square(base@, half);
                if left % 2 == 1 {
                    assert(left as nat == 2 * half + 1);
                    lemma_fmul_comm(rest, base@);
                    lemma_fmul_assoc(acc@, base@, rest);
                }
            }
            if left % 2 == 1 {
                acc = acc.mul(base);
            }
            base = base.mul(base);
            left = left / 2;
        }
        proof {
            lemma_view_canonical(acc);
            lemma_fmul_one(acc@);
        }
        acc
    }

    /// This element divided by another; by zero there is no quotient.
    pub fn divide(self, other: Self) -> (r: Option<Self>)
        ensures
            r is None <==> other@ == 0,
            r matches Some(x) ==> x@ == quotient(self@, other@) && fmul(x@, other@) == self@,
    {
        match other.inverse() {
            None => None,
            Some(inv) => {
                let x: Field64 = self.mul(inv);
                proof {
                    lemma_view_canonical(self);
                    lemma_view_canonical(other);
                    lemma_view_canonical(inv);
                    lemma_view_canonical(x);
                    lemma_fmul_comm(other@, inv@);
                    lemma_fmul_assoc(self@, inv@, other@);
                    lemma_fmul_one(self@);
                    lemma_quotient(self@, other@, x@);
                }
                Some(x)
            },
        }
    }

    /// The multiplicative inverse; the zero element alone has none.
    pub fn inverse(self) -> (r: Option<Self>)
        ensures
            r is None <==> self@ == 0,
            r matches Some(b) ==> fmul(self@, b@) == 1,
    {
        // Euclid's algorithm on the order and this element. Each remainder is this
        // element times its tracked coefficient.
        let mut r0: u64 = MODULUS;
        let mut r1: u64 = self.word % MODULUS;
        let mut t0: Field64 = Field64::zero();
        let mut t1: Field64 = Field64::one();
        proof {
            lemma_view_canonical(self);
            lemma_residue_id(self@);
            reveal(residue);
        }
        while r1 > 0
            invariant
                r1 < r0 <= MODULUS,
                residue(r0 as int) == fmul(self@, t0@),
                residue(r1 as int) == fmul(self@, t1@),
                forall|d: int| #[trigger]
                    common_divisor(d, r0 as int, r1 as int) ==> common_divisor(d, MODULUS as int, self@),
            decreases r1,
        {
            broadcast use lemma_view_canonical;

            let q: u64 = r0 / r1;
            let r2: u64 = r0 % r1;
            let t2: Field64 = t0.sub(Field64::new(q).mul(t1));
            proof {
                lemma_fundamental_div_mod(r0 as int, r1 as int);
                assert(r2 == r0 - q * r1) by (nonlinear_arith)
                    requires
                        r0 as int == r1 * (r0 as int / r1 as int) + (r0 as int % r1 as int),
                        q == r0 as int / r1 as int,
                        r2 == r0 as int % r1 as int,
                ;
                lemma_residue_id(self@);
                lemma_residue_id(t0@);
                lemma_residue_id(t1@);
                lemma_euclid_step(self@, t0@, t1@, r0 as int, r1 as int, q as int);
                assert forall|d: int| #[trigger]
                    common_divisor(d, r1 as int, r2 as int) implies common_divisor(
                    d,
                    MODULUS as int,
                    self@,
                ) by {
                    lemma_divides_combination(r0 as int, r1 as int, r2 as int, q as int, d);
                    assert(common_divisor(d, r0 as int, r1 as int));
                }
                lemma_mod_bound(r0 as int, r1 as int);
            }
            r0 = r1;
            r1 = r2;
            t0 = t1;
            t1 = t2;
        }
        proof {
            lemma_mod_self_0(r0 as int);
            lemma_small_mod(0, r0 as nat);
            assert(common_divisor(r0 as int, r0 as int, 0));
            if 1 < r0 < MODULUS {
                lemma_modulus_is_prime(r0 as int);
            }
            if r0 == MODULUS {
                lemma_small_mod(self@ as nat, MODULUS as nat);
            }
            if r0 == 1 {
                lemma_residue_id(1);
                if self@ == 0 {
                    assert(0 * t0@ == 0) by (nonlinear_arith);
                    lemma_residue_id(0);
                }
            }
        }
        if r0 == 1 {
            Some(t0)
        } else {
            None
        }
    }
}

spec fn common_divisor(d: int, a: int, b: int) -> bool {
    d > 0 && a % d == 0 && b % d == 0
}

proof fn lemma_euclid_step(a: int, t0: int, t1: int, r0: int, r1: int, q: int)
    requires
        residue(a) == a,
        residue(t0) == t0,
        residue(t1) == t1,
        residue(r0) == fmul(a, t0),
        residue(r1) == fmul(a, t1),
    ensures
        residue(r0 - q * r1) == fmul(a, fsub(t0, fmul(residue(q), t1))),
{
    broadcast use group_residue;

    assert(fmul(a, fsub(t0, fmul(residue(q), t1))) == residue(a * (t0 - q * t1)));
    assert(residue(r0 - q * r1) == fsub(residue(r0), fmul(residue(q), residue(r1))));
    assert(fsub(residue(a * t0), fmul(residue(q), residue(a * t1))) == residue(a * t0 - q * (a * t1)));
    assert(a * (t0 - q * t1) == a * t0 - q * (a * t1)) by (nonlinear_arith);
}

proof fn lemma_divides_combination(r0: int, r1: int, r2: int, q: int, d: int)
    requires
        d > 0,
        r0 == q * r1 + r2,
        r1 % d == 0,
        r2 % d == 0,
    ensures
        r0 % d == 0,
{
    lemma_fundamental_div_mod(r1, d);
    lemma_fundamental_div_mod(r2, d);
    let x = r1 / d;
    let y = r2 / d;
    assert(r0 == d * (q * x + y) + 0) by (nonlinear_arith)
        requires
            r0 == q * r1 + r2,
            r1 == d * x,
            r2 == d * y,
    ;
    lemma_fundamental_div_mod_converse(r0, d, q * x + y, 0);
}

/// Multiplication is commutative.
pub proof fn lemma_fmul_comm(a: int, b: int)
    ensures
        fmul(a, b) == fmul(b, a),
{
    assert(a * b == b * a) by (nonlinear_arith);
}

/// Multiplication is associative.
pub proof fn lemma_fmul_assoc(a: int, b: int, c: int)
    requires
        canonical(a),
        canonical(b),
        canonical(c),
    ensures
        fmul(fmul(a, b), c) == fmul(a, fmul(b, c)),
{
    broadcast use group_residue;

    lemma_residue_id(a);
    lemma_residue_id(b);
    lemma_residue_id(c);
    assert(fmul(fmul(a, b), c) == residue((a * b) * c));
    assert(fmul(a, fmul(b, c)) == residue(a * (b * c)));
    assert((a * b) * c == a * (b * c)) by (nonlinear_arith);
}

/// One is neutral.
pub proof fn lemma_fmul_one(a: int)
    requires
        canonical(a),
    ensures
        fmul(a, 1) == a,
        fmul(1, a) == a,
{
    lemma_residue_id(a);
}

/// A power is canonical.
pub broadcast proof fn lemma_fpow_canonical(base: int, exp: nat)
    ensures
        canonical(#[trigger] fpow(base, exp)),
{
    broadcast use lemma_residue_canonical;

}

/// Exponents add.
pub proof fn lemma_fpow_add(base: int, e1: nat, e2: nat)
    requires
        canonical(base),
    ensures
        fpow(base, e1 + e2) == fmul(fpow(base, e1), fpow(base, e2)),
    decreases e2,
{
    broadcast use lemma_fpow_canonical;

    if e2 == 0 {
        lemma_fmul_one(fpow(base, e1));
    } else {
        let e = (e2 - 1) as nat;
        lemma_fpow_add(base, e1, e);
        lemma_fmul_assoc(fpow(base, e1), fpow(base, e), base);
        assert(e1 + e2 == (e1 + e) + 1);
    }
}

/// Powers of the square.
proof fn lemma_fpow_square(base: int, exp: nat)
    requires
        canonical(base),
    ensures
        fpow(fmul(base, base), exp) == fpow(base, 2 * exp),
        fmul(fpow(base, 2 * exp), base) == fpow(base, 2 * exp + 1),
    decreases exp,
{
    broadcast use {lemma_fpow_canonical, lemma_residue_canonical};

    if exp > 0 {
        let e = (exp - 1) as nat;
        lemma_fpow_square(base, e);
        lemma_fmul_assoc(fpow(base, 2 * e), base, base);
        assert(2 * exp == (2 * e + 1) + 1);
        assert(fpow(base, 2 * exp) == fmul(fpow(base, 2 * e + 1), base));
    }
    assert(fpow(base, 2 * exp + 1) == fmul(fpow(base, 2 * exp), base));
}

/// The canonical `x` with `x * b == a`, for a `b` that is not zero.
pub open spec fn quotient(a: int, b: int) -> int {
    choose|x: int| canonical(x) && fmul(x, b) == a
}

/// Every value but zero has an inverse.
pub proof fn lemma_inverse_exists(a: int) -> (x: int)
    requires
        0 < a < MODULUS,
    ensures
        canonical(x),
        fmul(a, x) == 1,
    decreases a,
{
    let n = MODULUS as int;
    if a == 1 {
        lemma_residue_id(1);
        1
    } else {
        let q = n / a;
        let r = n % a;
        lemma_fundamental_div_mod(n, a);
        lemma_mod_bound(n, a);
        lemma_modulus_is_prime(a);
        let y = lemma_inverse_exists(r);
        // r == n - a * q, so a * (-q * y) is r * y modulo n.
        let x = residue(-(q * y));
        lemma_residue_canonical(-(q * y));
        lemma_residue_id(a);
        lemma_residue_mul(a, -(q * y));
        assert(r * y == n * y + a * (-(q * y))) by (nonlinear_arith)
            requires
                n == a * q + r,
        ;
        lemma_residue_add(n * y, a * (-(q * y)));
        assert(residue(n * y) == 0) by {
            reveal(residue);
            vstd::arithmetic::div_mod::lemma_mod_multiples_basic(y, n);
            assert(y * n == n * y) by (nonlinear_arith);
        }
        let z = residue(a * (-(q * y)));
        lemma_residue_canonical(a * (-(q * y)));
        lemma_residue_id(z);
        assert(fadd(0, z) == z);
        x
    }
}

/// A factor that is not zero cancels.
pub proof fn lemma_cancel(a: int, b: int, c: int)
    requires
        canonical(a),
        canonical(b),
        0 < c < MODULUS,
        fmul(a, c) == fmul(b, c),
    ensures
        a == b,
{
    let inv = lemma_inverse_exists(c);
    lemma_fmul_assoc(a, c, inv);
    lemma_fmul_assoc(b, c, inv);
    lemma_fmul_one(a);
    lemma_fmul_one(b);
}

/// A quotient is the one value that the divisor takes to the dividend.
pub proof fn lemma_quotient(a: int, b: int, x: int)
    requires
        canonical(x),
        0 < b < MODULUS,
        fmul(x, b) == a,
    ensures
        quotient(a, b) == x,
{
    lemma_cancel(quotient(a, b), x, b);
}

} // verus!
