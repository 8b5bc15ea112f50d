//! Finite sums in the field, and the laws by which they are rearranged.

use crate::field::{
    canonical, fadd, fmul, fsub, group_residue, lemma_residue_canonical, lemma_residue_id, residue,
};
use vstd::prelude::*;

verus! {

/// `f(0) + f(1) + ... + f(n - 1)`.
pub open spec fn fsum(f: spec_fn(int) -> int, n: nat) -> int
    decreases n,
{
    if n == 0 {
        0
    } else {
        fadd(fsum(f, (n - 1) as nat), f(n - 1))
    }
}

/// The entries of a sequence, as summands.
pub open spec fn entries(s: Seq<int>) -> spec_fn(int) -> int {
    |i: int| s[i]
}

/// The sum of the entries.
pub open spec fn total(s: Seq<int>) -> int {
    fsum(entries(s), s.len())
}

/// Is every summand canonical?
pub open spec fn canonical_fn(f: spec_fn(int) -> int, n: nat) -> bool {
    forall|i: int| 0 <= i < n ==> canonical(#[trigger] f(i))
}

/// A sum is canonical.
pub broadcast proof fn lemma_fsum_canonical(f: spec_fn(int) -> int, n: nat)
    ensures
        canonical(#[trigger] fsum(f, n)),
{
    broadcast use lemma_residue_canonical;

}

/// Sums of equal summands are equal.
pub proof fn lemma_fsum_eq(f: spec_fn(int) -> int, g: spec_fn(int) -> int, n: nat)
    requires
        forall|i: int| 0 <= i < n ==> #[trigger] f(i) == g(i),
    ensures
        fsum(f, n) == fsum(g, n),
    decreases n,
{
    if n > 0 {
        lemma_fsum_eq(f, g, (n - 1) as nat);
        assert(f(n - 1) == g(n - 1));
    }
}

/// `(a + b) + (c + d) == (a + c) + (b + d)`.
pub proof fn lemma_add_exchange(a: int, b: int, c: int, d: int)
    requires
        canonical(a),
        canonical(b),
        canonical(c),
        canonical(d),
    ensures
        fadd(fadd(a, b), fadd(c, d)) == fadd(fadd(a, c), fadd(b, d)),
{
    broadcast use group_residue;

    lemma_residue_id(a);
    lemma_residue_id(b);
    lemma_residue_id(c);
    lemma_residue_id(d);
    assert(fadd(fadd(a, b), fadd(c, d)) == residue((a + b) + (c + d)));
    assert(fadd(fadd(a, c), fadd(b, d)) == residue((a + c) + (b + d)));
}

/// `a + (b + c) == (a + b) + c`.
pub proof fn lemma_add_assoc(a: int, b: int, c: int)
    requires
        canonical(a),
        canonical(b),
        canonical(c),
    ensures
        fadd(a, fadd(b, c)) == fadd(fadd(a, b), c),
{
    broadcast use group_residue;

    lemma_residue_id(a);
    lemma_residue_id(b);
    lemma_residue_id(c);
    assert(fadd(a, fadd(b, c)) == residue(a + (b + c)));
    assert(fadd(fadd(a, b), c) == residue((a + b) + c));
}

/// Zero is neutral.
pub proof fn lemma_add_zero(a: int)
    requires
        canonical(a),
    ensures
        fadd(a, 0) == a,
        fadd(0, a) == a,
        fsub(a, 0) == a,
{
    lemma_residue_id(a);
}

/// `c * (a + b) == c * a + c * b`.
pub proof fn lemma_distribute(c: int, a: int, b: int)
    requires
        canonical(c),
        canonical(a),
        canonical(b),
    ensures
        fmul(c, fadd(a, b)) == fadd(fmul(c, a), fmul(c, b)),
{
    broadcast use group_residue;

    lemma_residue_id(a);
    lemma_residue_id(b);
    lemma_residue_id(c);
    assert(fmul(c, fadd(a, b)) == residue(c * (a + b)));
    assert(fadd(fmul(c, a), fmul(c, b)) == residue(c * a + c * b));
    assert(c * (a + b) == c * a + c * b) by (nonlinear_arith);
}

/// A sum of sums is the sum of the sums.
pub proof fn lemma_fsum_add(f: spec_fn(int) -> int, g: spec_fn(int) -> int, h: spec_fn(int) -> int, n: nat)
    requires
        canonical_fn(f, n),
        canonical_fn(g, n),
        forall|i: int| 0 <= i < n ==> #[trigger] h(i) == fadd(f(i), g(i)),
    ensures
        fsum(h, n) == fadd(fsum(f, n), fsum(g, n)),
    decreases n,
{
    broadcast use lemma_fsum_canonical;

    if n == 0 {
        lemma_add_zero(0);
    } else {
        let m = (n - 1) as nat;
        lemma_fsum_add(f, g, h, m);
        assert(canonical(f(n - 1)) && canonical(g(n - 1)));
        assert(h(n - 1) == fadd(f(n - 1), g(n - 1)));
        lemma_add_exchange(fsum(f, m), fsum(g, m), f(n - 1), g(n - 1));
    }
}

/// A common factor moves out of a sum.
pub proof fn lemma_fsum_scale(c: int, f: spec_fn(int) -> int, h: spec_fn(int) -> int, n: nat)
    requires
        canonical(c),
        canonical_fn(f, n),
        forall|i: int| 0 <= i < n ==> #[trigger] h(i) == fmul(c, f(i)),
    ensures
        fsum(h, n) == fmul(c, fsum(f, n)),
    decreases n,
{
    broadcast use lemma_fsum_canonical;

    if n == 0 {
        assert(c * 0 == 0) by (nonlinear_arith);
        lemma_residue_id(0);
    } else {
        let m = (n - 1) as nat;
        lemma_fsum_scale(c, f, h, m);
        assert(canonical(f(n - 1)));
        assert(h(n - 1) == fmul(c, f(n - 1)));
        lemma_distribute(c, fsum(f, m), f(n - 1));
    }
}

/// A sum of zeros is zero.
pub proof fn lemma_fsum_zero(f: spec_fn(int) -> int, n: nat)
    requires
        forall|i: int| 0 <= i < n ==> #[trigger] f(i) == 0,
    ensures
        fsum(f, n) == 0,
    decreases n,
{
    if n > 0 {
        lemma_fsum_zero(f, (n - 1) as nat);
        assert(f(n - 1) == 0);
        lemma_add_zero(0);
    }
}

/// A sum splits at `n`.
pub proof fn lemma_fsum_split(f: spec_fn(int) -> int, g: spec_fn(int) -> int, n: nat, m: nat)
    requires
        canonical_fn(f, n + m),
        forall|i: int| 0 <= i < m ==> #[trigger] g(i) == f(n + i),
    ensures
        fsum(f, n + m) == fadd(fsum(f, n), fsum(g, m)),
    decreases m,
{
    broadcast use lemma_fsum_canonical;

    if m == 0 {
        lemma_add_zero(fsum(f, n));
    } else {
        let k = (m - 1) as nat;
        lemma_fsum_split(f, g, n, k);
        assert(g(m - 1) == f(n + m - 1));
        assert(canonical(f(n + m - 1)));
        lemma_add_assoc(fsum(f, n), fsum(g, k), f(n + m - 1));
        assert((n + m - 1) as nat == n + k);
    }
}

/// Summands beyond `n` that vanish do not count.
pub proof fn lemma_fsum_trim(f: spec_fn(int) -> int, n: nat, m: nat)
    requires
        n <= m,
        forall|i: int| n <= i < m ==> #[trigger] f(i) == 0,
    ensures
        fsum(f, m) == fsum(f, n),
    decreases m,
{
    broadcast use lemma_fsum_canonical;

    if n < m {
        lemma_fsum_trim(f, n, (m - 1) as nat);
        assert(f(m - 1) == 0);
        lemma_add_zero(fsum(f, (m - 1) as nat));
    }
}

/// A single summand that does not vanish is the sum.
pub proof fn lemma_fsum_single(f: spec_fn(int) -> int, k: int, n: nat)
    requires
        0 <= k < n,
        canonical(f(k)),
        forall|i: int| 0 <= i < n && i != k ==> #[trigger] f(i) == 0,
    ensures
        fsum(f, n) == f(k),
    decreases n,
{
    broadcast use lemma_fsum_canonical;

    if k == n - 1 {
        lemma_fsum_zero(f, (n - 1) as nat);
        lemma_add_zero(f(k));
    } else {
        lemma_fsum_single(f, k, (n - 1) as nat);
        assert(f(n - 1) == 0);
        lemma_add_zero(f(k));
    }
}

/// The inner sums of a double sum.
pub open spec fn inner_sums(f: spec_fn(int, int) -> int, m: nat) -> spec_fn(int) -> int {
    |i: int| fsum(|j: int| f(i, j), m)
}

/// The terms of a double sum with its indices exchanged.
pub open spec fn exchanged(f: spec_fn(int, int) -> int) -> spec_fn(int, int) -> int {
    |j: int, i: int| f(i, j)
}

/// The order of summation does not matter.
pub proof fn lemma_fsum_exchange(f: spec_fn(int, int) -> int, n: nat, m: nat)
    requires
        forall|i: int, j: int| 0 <= i < n && 0 <= j < m ==> canonical(#[trigger] f(i, j)),
    ensures
        fsum(inner_sums(f, m), n) == fsum(inner_sums(exchanged(f), n), m),
    decreases n,
{
    if n == 0 {
        assert forall|j: int| 0 <= j < m implies #[trigger] inner_sums(exchanged(f), 0)(j) == 0 by {}
        lemma_fsum_zero(inner_sums(exchanged(f), 0), m);
    } else {
        let k = (n - 1) as nat;
        lemma_fsum_exchange(f, k, m);
        let a = inner_sums(exchanged(f), k);
        let b = |j: int| f(n - 1, j);
        let c = inner_sums(exchanged(f), n);
        assert forall|j: int| 0 <= j < m implies #[trigger] c(j) == fadd(a(j), b(j)) by {
            let row = |i: int| exchanged(f)(j, i);
            assert(row(n - 1) == f(n - 1, j));
            assert(c(j) == fsum(row, n));
            assert(a(j) == fsum(row, k));
        }
        assert(canonical_fn(a, m)) by {
            broadcast use lemma_fsum_canonical;

        }
        assert(canonical_fn(b, m)) by {
            assert forall|j: int| 0 <= j < m implies canonical(#[trigger] b(j)) by {
                assert(canonical(f(n - 1, j)));
            }
        }
        lemma_fsum_add(a, b, c, m);
        assert(inner_sums(f, m)(n - 1) == fsum(b, m));
    }
}

} // verus!
