//! The lengths that codewords can have.

use crate::arith::{ceil_log2_spec, is_pow2, lemma_ceil_log2_pow2};
use crate::field::MODULUS;
use vstd::arithmetic::div_mod::{
    lemma_fundamental_div_mod, lemma_fundamental_div_mod_converse, lemma_mod_multiples_basic,
};
use vstd::arithmetic::power2::{
    lemma2_to64, lemma_pow2_adds, lemma_pow2_pos, lemma_pow2_unfold, pow2,
};
use vstd::prelude::*;

verus! {

/// Is this a power of two or three times one, and does the field's multiplicative group
/// have a subgroup of this order?
pub open spec fn is_order(n: nat) -> bool {
    &&& is_pow2(n) || (n % 3 == 0 && is_pow2(n / 3))
    &&& (MODULUS - 1) % n as int == 0
}

proof fn lemma_divides(k: nat, t: int)
    requires
        k <= 32,
        t == 1 || t == 3,
    ensures
        (MODULUS - 1) % (t * pow2(k)) == 0,
        t * pow2(k) > 0,
{
    lemma2_to64();
    lemma_pow2_pos(k);
    lemma_pow2_adds(k, (32 - k) as nat);
    let rest: int = if t == 1 {
        0xffff_ffff
    } else {
        0x5555_5555
    };
    let a = pow2(k) as int;
    let b = pow2((32 - k) as nat) as int;
    assert(rest * t == 0xffff_ffff);
    assert(MODULUS - 1 == 0xffff_ffff * (a * b));
    assert((rest * b) * (t * a) == (rest * t) * (a * b)) by (nonlinear_arith);
    lemma_mod_multiples_basic(rest * b, t * a);
}

proof fn lemma_exponent_bound(k: nat, t: int)
    requires
        t == 1 || t == 3,
        (MODULUS - 1) % (t * pow2(k)) == 0,
    ensures
        k <= 32,
{
    lemma2_to64();
    lemma_pow2_unfold(33);
    if k > 32 {
        lemma_pow2_adds(33, (k - 33) as nat);
        lemma_pow2_pos((k - 33) as nat);
        lemma_pow2_pos(k);
        let p = MODULUS - 1;
        let d = t * pow2(k);
        lemma_fundamental_div_mod(p, d);
        let c = pow2((k - 33) as nat) as int;
        let q = p / d;
        assert(p == d * q);
        assert(d * q == 0x2_0000_0000 * (t * c * q)) by (nonlinear_arith)
            requires
                d == t * (0x2_0000_0000 * c),
        ;
        assert(p == 0x2_0000_0000 * (t * c * q) + 0);
        lemma_fundamental_div_mod_converse(p, 0x2_0000_0000, t * c * q, 0);
        assert((MODULUS - 1) as int % 0x2_0000_0000 == 0x1_0000_0000);
    }
}

/// The orders are the powers of two, and three times them, up to the exponent 32.
proof fn lemma_orders(n: nat)
    ensures
        is_order(n) <==> exists|k: nat, t: int|
            k <= 32 && (t == 1 || t == 3) && n == #[trigger] times(t, k),
{
    if is_order(n) {
        if is_pow2(n) {
            let k = ceil_log2_spec(n);
            lemma_exponent_bound(k, 1);
            assert(n == times(1, k));
        } else {
            let k = ceil_log2_spec(n / 3);
            assert(n == 3 * pow2(k));
            lemma_exponent_bound(k, 3);
            assert(n == times(3, k));
        }
    }
    if exists|k: nat, t: int| k <= 32 && (t == 1 || t == 3) && n == #[trigger] times(t, k) {
        let (k, t) = choose|k: nat, t: int|
            k <= 32 && (t == 1 || t == 3) && n == #[trigger] times(t, k);
        lemma_divides(k, t);
        lemma_ceil_log2_pow2(k);
        lemma_pow2_pos(k);
        if t == 3 {
            lemma_fundamental_div_mod_converse(n as int, 3, pow2(k) as int, 0);
        }
    }
}

/// `t` times a power of two.
pub open spec fn times(t: int, k: nat) -> int {
    t * pow2(k)
}

/// Is `best` the least of the candidates with exponents below `k` that are at least `n`?
spec fn least_so_far(n: usize, best: Option<usize>, k: nat) -> bool {
    &&& best matches Some(b) ==> b >= n && is_order(b as nat)
    &&& forall|j: nat, t: int|
        j < k && (t == 1 || t == 3) && n <= #[trigger] times(t, j) <= usize::MAX ==> (
        best matches Some(b) && b <= times(t, j))
}

/// Take a candidate if it is large enough, fits, and is smaller.
fn better(n: usize, best: Option<usize>, candidate: u64) -> (r: Option<usize>)
    ensures
        n <= candidate <= usize::MAX ==> match best {
            Some(b) => r == Some(
                if candidate < b {
                    candidate as usize
                } else {
                    b
                },
            ),
            None => r == Some(candidate as usize),
        },
        !(n <= candidate <= usize::MAX) ==> r == best,
{
    if candidate >= n as u64 && candidate <= usize::MAX as u64 {
        match best {
            Some(b) => if candidate < b as u64 {
                Some(candidate as usize)
            } else {
                Some(b)
            },
            None => Some(candidate as usize),
        }
    } else {
        best
    }
}

/// The least length of at least `n` that the field has points for: a power of two, or
/// three times one; `None` if there is none.
pub fn next_order(n: usize) -> (r: Option<usize>)
    ensures
        r matches Some(o) ==> {
            &&& o >= n
            &&& is_order(o as nat)
            &&& forall|m: nat| n <= m < o ==> !#[trigger] is_order(m)
        },
        r is None ==> forall|m: nat| n <= m <= usize::MAX ==> !#[trigger] is_order(m),
{
    let mut best: Option<usize> = None;
    let mut power: u64 = 1;
    proof {
        lemma2_to64();
    }
    for k in 0..33u32
        invariant
            power == pow2(k as nat),
            least_so_far(n, best, k as nat),
    {
        proof {
            lemma_divides(k as nat, 1);
            lemma_pow2_unfold((k + 1) as nat);
            if k < 32 {
                vstd::arithmetic::power2::lemma_pow2_strictly_increases(k as nat, 32);
            }
            lemma2_to64();
            assert(times(1, k as nat) == power);
            assert(times(3, k as nat) == 3 * power);
            lemma_orders(power as nat);
            lemma_orders((3 * power) as nat);
        }
        let first: Option<usize> = better(n, best, power);
        let second: Option<usize> = better(n, first, 3 * power);
        proof {
            assert forall|j: nat, t: int|
                j < k + 1 && (t == 1 || t == 3) && n <= #[trigger] times(t, j)
                    <= usize::MAX implies (second matches Some(b) && b <= times(t, j)) by {
                if j < k {
                    assert(best matches Some(b) && b <= times(t, j));
                } else {
                    assert(j == k);
                }
            }
        }
        best = second;
        power = 2 * power;
    }
    proof {
        assert forall|m: nat| n <= m <= usize::MAX && #[trigger] is_order(m) implies (
        best matches Some(b) && b <= m) by {
            lemma_orders(m);
            let (k, t) = choose|k: nat, t: int|
                k <= 32 && (t == 1 || t == 3) && m == #[trigger] times(t, k);
            assert(n <= times(t, k) <= usize::MAX);
        }
    }
    best
}

} // verus!
