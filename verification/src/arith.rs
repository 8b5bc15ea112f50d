//! Powers of two and base-two logarithms of machine sizes.

use vstd::arithmetic::power2::{
    lemma_pow2_pos, lemma_pow2_strictly_increases, lemma_pow2_unfold, pow2,
};
use vstd::prelude::*;

verus! {

/// The least `k` with `n <= 2^k`.
pub open spec fn ceil_log2_spec(n: nat) -> nat
    decreases n,
{
    if n <= 1 {
        0
    } else {
        1 + ceil_log2_spec((n + 1) / 2)
    }
}

/// The least power of two not below `n`.
pub open spec fn next_pow2(n: nat) -> nat {
    pow2(ceil_log2_spec(n))
}

/// Is `n` a power of two?
pub open spec fn is_pow2(n: nat) -> bool {
    n == next_pow2(n)
}

/// `ceil_log2_spec` is the least exponent that reaches `n`.
pub proof fn lemma_ceil_log2(n: nat)
    ensures
        n <= next_pow2(n),
        n > 1 ==> next_pow2(n) < 2 * n,
        n > 1 ==> pow2((ceil_log2_spec(n) - 1) as nat) < n,
        next_pow2(n) >= 1,
    decreases n,
{
    lemma_pow2_pos(ceil_log2_spec(n));
    if n > 1 {
        let h = (n + 1) / 2;
        lemma_ceil_log2(h);
        lemma_pow2_unfold(ceil_log2_spec(n));
        if h > 1 {
            lemma_pow2_unfold(ceil_log2_spec(h));
        } else {
            assert(n == 2);
            reveal_with_fuel(ceil_log2_spec, 3);
            vstd::arithmetic::power2::lemma2_to64();
        }
    } else {
        vstd::arithmetic::power2::lemma2_to64();
    }
}

/// The logarithm of a power of two is its exponent.
pub proof fn lemma_ceil_log2_pow2(k: nat)
    ensures
        ceil_log2_spec(pow2(k)) == k,
        is_pow2(pow2(k)),
    decreases k,
{
    if k == 0 {
        vstd::arithmetic::power2::lemma2_to64();
    } else {
        lemma_pow2_unfold(k);
        lemma_pow2_pos((k - 1) as nat);
        lemma_ceil_log2_pow2((k - 1) as nat);
        assert((pow2(k) + 1) / 2 == pow2((k - 1) as nat));
    }
}

/// The exponent of a power of two is unique.
pub proof fn lemma_pow2_injective(a: nat, b: nat)
    requires
        pow2(a) == pow2(b),
    ensures
        a == b,
{
    lemma_ceil_log2_pow2(a);
    lemma_ceil_log2_pow2(b);
}

/// An even power of two halves to a power of two.
pub proof fn lemma_half_of_pow2(n: nat)
    requires
        is_pow2(n),
        n > 1,
    ensures
        n % 2 == 0,
        is_pow2(n / 2),
        ceil_log2_spec(n / 2) == ceil_log2_spec(n) - 1,
{
    let k = ceil_log2_spec(n);
    lemma_pow2_unfold(k);
    lemma_ceil_log2_pow2((k - 1) as nat);
    assert(n / 2 == pow2((k - 1) as nat));
}

/// Logarithms are monotone.
pub proof fn lemma_ceil_log2_monotone(a: nat, b: nat)
    requires
        a <= b,
    ensures
        ceil_log2_spec(a) <= ceil_log2_spec(b),
        next_pow2(a) <= next_pow2(b),
    decreases b,
{
    if a > 1 {
        lemma_ceil_log2_monotone((a + 1) / 2, (b + 1) / 2);
    }
    if ceil_log2_spec(a) < ceil_log2_spec(b) {
        lemma_pow2_strictly_increases(ceil_log2_spec(a), ceil_log2_spec(b));
    }
}

/// Powers of two multiply by adding exponents.
pub proof fn lemma_pow2_sum(a: nat, b: nat)
    ensures
        pow2(a + b) == pow2(a) * pow2(b),
        pow2(a) > 0,
        pow2(b) > 0,
{
    vstd::arithmetic::power2::lemma_pow2_adds(a, b);
    lemma_pow2_pos(a);
    lemma_pow2_pos(b);
}

/// The least `k` with `n <= 2^k`.
pub fn ceil_log2(n: usize) -> (r: u32)
    ensures
        r == ceil_log2_spec(n as nat),
        r <= 64,
{
    let mut left: usize = n;
    let mut r: u32 = 0;
    let ghost mut cap: nat = 64;
    proof {
        vstd::arithmetic::power2::lemma2_to64();
        vstd::arithmetic::power2::lemma_pow2_adds(32, 32);
        assert(pow2(64) == 0x1_0000_0000 * 0x1_0000_0000);
    }
    while left > 1
        invariant
            r + ceil_log2_spec(left as nat) == ceil_log2_spec(n as nat),
            cap + r == 64,
            left <= pow2(cap),
        decreases left,
    {
        proof {
            if cap == 0 {
                vstd::arithmetic::power2::lemma2_to64();
            }
            lemma_pow2_unfold(cap);
            cap = (cap - 1) as nat;
        }
        left = left / 2 + left % 2;
        r = r + 1;
    }
    r
}

/// `2^k`.
pub fn power_of_two(k: usize) -> (r: usize)
    requires
        pow2(k as nat) <= usize::MAX,
    ensures
        r == pow2(k as nat),
{
    let mut r: usize = 1;
    proof {
        vstd::arithmetic::power2::lemma2_to64();
    }
    for i in 0..k
        invariant
            r == pow2(i as nat),
            pow2(k as nat) <= usize::MAX,
    {
        proof {
            lemma_pow2_unfold((i + 1) as nat);
            if i + 1 < k {
                lemma_pow2_strictly_increases((i + 1) as nat, k as nat);
            }
        }
        r = r * 2;
    }
    r
}

/// `2^k`, unless it does not fit.
pub fn checked_power_of_two(k: usize) -> (r: Option<usize>)
    ensures
        r is Some <==> pow2(k as nat) <= usize::MAX,
        r matches Some(v) ==> v == pow2(k as nat),
{
    let mut r: usize = 1;
    proof {
        vstd::arithmetic::power2::lemma2_to64();
    }
    let mut i: usize = 0;
    while i < k
        invariant
            i <= k,
            r == pow2(i as nat),
        decreases k - i,
    {
        proof {
            lemma_pow2_unfold((i + 1) as nat);
        }
        if r > usize::MAX / 2 {
            proof {
                if i + 1 < k {
                    lemma_pow2_strictly_increases((i + 1) as nat, k as nat);
                }
            }
            return None;
        }
        r = r * 2;
        i = i + 1;
    }
    Some(r)
}

/// The least power of two not below `n`.
pub fn next_power_of_two(n: usize) -> (r: usize)
    requires
        next_pow2(n as nat) <= usize::MAX,
    ensures
        r == next_pow2(n as nat),
{
    power_of_two(ceil_log2(n) as usize)
}

/// Is `n` a power of two?
pub fn is_power_of_two(n: usize) -> (r: bool)
    ensures
        r == is_pow2(n as nat),
{
    match checked_power_of_two(ceil_log2(n) as usize) {
        Some(v) => v == n,
        None => false,
    }
}

/// A machine size has a small logarithm.
pub proof fn lemma_exponent_small(n: usize)
    ensures
        ceil_log2_spec(n as nat) <= 64,
        ceil_log2_spec(n as nat) <= usize::MAX,
{
    vstd::arithmetic::power2::lemma2_to64();
    vstd::arithmetic::power2::lemma_pow2_adds(32, 32);
    lemma_ceil_log2_monotone(n as nat, pow2(64));
    lemma_ceil_log2_pow2(64);
}

} // verus!
