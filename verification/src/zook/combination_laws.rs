//! Laws of weighted combinations of vectors.

use crate::algebra::evaluate;
use crate::chunks::{chunk_terms, chunks_combined, law_combined_evaluates, weighted_chunk_values};
use crate::field::{
    all_canonical, canonical, fmul, lemma_fmul_assoc, lemma_fmul_comm, lemma_fmul_one,
    lemma_residue_canonical,
};
use crate::matrix_commit::row_of;
use crate::sums::{
    exchanged, fsum, inner_sums, lemma_add_zero, lemma_fsum_canonical, lemma_fsum_eq,
    lemma_fsum_exchange, lemma_fsum_scale,
};
use crate::zook::block::{theta_combined, theta_terms};
use vstd::prelude::*;

verus! {

/// Vectors of length `n`, one after the other: the first `k` of them.
pub open spec fn flattened(vectors: Seq<Seq<int>>, k: nat) -> Seq<int>
    decreases k,
{
    if k == 0 {
        Seq::empty()
    } else {
        flattened(vectors, (k - 1) as nat) + vectors[k - 1]
    }
}

/// Are all vectors of length `n`, with canonical entries?
pub open spec fn vectors_wf(vectors: Seq<Seq<int>>, n: nat) -> bool {
    forall|b: int|
        0 <= b < vectors.len() ==> all_canonical(#[trigger] vectors[b]) && vectors[b].len() == n
}

/// The rows of a flattened run are the vectors.
pub proof fn lemma_flattened(vectors: Seq<Seq<int>>, n: nat, k: nat)
    requires
        vectors_wf(vectors, n),
        k <= vectors.len(),
    ensures
        flattened(vectors, k).len() == n * k,
        all_canonical(flattened(vectors, k)),
        forall|b: int| 0 <= b < k ==> row_of(flattened(vectors, k), n, b) == #[trigger] vectors[b],
    decreases k,
{
    let f = flattened(vectors, k);
    if k > 0 {
        let m = (k - 1) as nat;
        lemma_flattened(vectors, n, m);
        let before = flattened(vectors, m);
        assert(all_canonical(vectors[m as int]));
        assert(n * k == n * m + n) by (nonlinear_arith)
            requires
                k == m + 1,
        ;
        assert forall|i: int| 0 <= i < f.len() implies canonical(#[trigger] f[i]) by {
            if i < before.len() {
                assert(canonical(before[i]));
            } else {
                assert(canonical(vectors[m as int][i - before.len()]));
            }
        }
        assert forall|b: int| 0 <= b < k implies row_of(f, n, b) == #[trigger] vectors[b] by {
            assert(b * n >= 0) by (nonlinear_arith)
                requires
                    b >= 0,
                    n >= 0,
            ;
            if b < m {
                assert(b * n + n <= n * m) by (nonlinear_arith)
                    requires
                        b < m,
                        n >= 0,
                ;
                assert(row_of(f, n, b) =~= row_of(before, n, b));
            } else {
                assert(b * n == n * m) by (nonlinear_arith)
                    requires
                        b == m,
                ;
                assert(row_of(f, n, b) =~= vectors[b]);
            }
        }
    } else {
        assert(n * 0 == 0) by (nonlinear_arith);
    }
}

/// A combination of vectors is one of the chunks of their flattened run.
pub proof fn lemma_theta_is_chunks(theta: Seq<int>, vectors: Seq<Seq<int>>, n: nat)
    requires
        vectors_wf(vectors, n),
        theta.len() == vectors.len(),
    ensures
        theta_combined(theta, vectors, n) == chunks_combined(
            flattened(vectors, vectors.len()),
            n,
            theta,
        ),
{
    let k = vectors.len();
    let f = flattened(vectors, k);
    lemma_flattened(vectors, n, k);
    let a = theta_combined(theta, vectors, n);
    let c = chunks_combined(f, n, theta);
    assert forall|i: int| 0 <= i < n implies a[i] == c[i] by {
        let ta = theta_terms(theta, vectors, i);
        let tc = chunk_terms(f, n, theta, i);
        assert forall|b: int| 0 <= b < k implies #[trigger] ta(b) == tc(b) by {
            assert(row_of(f, n, b) == vectors[b]);
            assert(b * n + n <= n * k) by (nonlinear_arith)
                requires
                    b < k,
                    n >= 0,
            ;
            assert(b * n >= 0) by (nonlinear_arith)
                requires
                    b >= 0,
                    n >= 0,
            ;
            assert(row_of(f, n, b)[i] == f[b * n + i]);
        }
        lemma_fsum_eq(ta, tc, k);
    }
    assert(a =~= c);
}

/// Every polynomial's value, times its weight.
pub open spec fn theta_values(theta: Seq<int>, polys: Seq<Seq<int>>, x: int) -> spec_fn(int) -> int {
    |b: int| fmul(theta[b], evaluate(polys[b], x))
}

/// The value of a combination is the combination of the values.
pub proof fn law_theta_evaluates(theta: Seq<int>, polys: Seq<Seq<int>>, n: nat, x: int)
    requires
        vectors_wf(polys, n),
        theta.len() == polys.len(),
        all_canonical(theta),
        canonical(x),
    ensures
        evaluate(theta_combined(theta, polys, n), x) == fsum(
            theta_values(theta, polys, x),
            theta.len(),
        ),
        all_canonical(theta_combined(theta, polys, n)),
{
    let k = polys.len();
    let f = flattened(polys, k);
    lemma_flattened(polys, n, k);
    lemma_theta_is_chunks(theta, polys, n);
    law_combined_evaluates(f, n, theta, x);
    let w = weighted_chunk_values(f, n, theta, x);
    let t = theta_values(theta, polys, x);
    assert forall|b: int| 0 <= b < k implies #[trigger] w(b) == t(b) by {
        assert(row_of(f, n, b) == polys[b]);
    }
    lemma_fsum_eq(w, t, k);
}

/// The chunks of every vector, combined.
pub open spec fn all_chunks_combined(vectors: Seq<Seq<int>>, len: nat, weights: Seq<int>) -> Seq<
    Seq<int>,
> {
    Seq::new(vectors.len(), |b: int| chunks_combined(vectors[b], len, weights))
}

/// Combining vectors and combining their chunks commute.
pub proof fn law_theta_chunks_commute(
    theta: Seq<int>,
    vectors: Seq<Seq<int>>,
    len: nat,
    weights: Seq<int>,
)
    requires
        vectors_wf(vectors, len * weights.len()),
        theta.len() == vectors.len(),
        all_canonical(theta),
        all_canonical(weights),
    ensures
        chunks_combined(
            theta_combined(theta, vectors, len * weights.len()),
            len,
            weights,
        ) == theta_combined(theta, all_chunks_combined(vectors, len, weights), len),
{
    broadcast use {lemma_residue_canonical, lemma_fsum_canonical};

    let n = weights.len();
    let t = theta.len();
    let whole = theta_combined(theta, vectors, len * n);
    let parts = all_chunks_combined(vectors, len, weights);
    let a = chunks_combined(whole, len, weights);
    let c = theta_combined(theta, parts, len);
    assert forall|i: int| 0 <= i < len implies a[i] == c[i] by {
        // The common double sum: over chunks, then over vectors.
        let f = |l: int, b: int| fmul(weights[l], fmul(theta[b], vectors[b][l * len + i]));
        let ta = chunk_terms(whole, len, weights, i);
        assert forall|l: int| 0 <= l < n implies #[trigger] ta(l) == inner_sums(f, t)(l) by {
            let at = l * len + i;
            assert(0 <= at < len * n) by (nonlinear_arith)
                requires
                    at == l * len + i,
                    0 <= i < len,
                    0 <= l < n,
            ;
            let inner = |b: int| f(l, b);
            let tt = theta_terms(theta, vectors, at);
            assert(canonical(weights[l]));
            assert forall|b: int| 0 <= b < t implies #[trigger] inner(b) == fmul(weights[l], tt(b)) by {}
            lemma_fsum_scale(weights[l], tt, inner, t);
        }
        lemma_fsum_eq(ta, inner_sums(f, t), n);
        lemma_fsum_exchange(f, n, t);
        let tc = theta_terms(theta, parts, i);
        let by_vector = inner_sums(exchanged(f), n);
        assert forall|b: int| 0 <= b < t implies #[trigger] tc(b) == by_vector(b) by {
            let inner = |l: int| exchanged(f)(b, l);
            let cv = chunk_terms(vectors[b], len, weights, i);
            assert(canonical(theta[b]));
            assert forall|l: int| 0 <= l < n implies #[trigger] inner(l) == fmul(theta[b], cv(l)) by {
                let at = l * len + i;
                assert(0 <= at < len * n) by (nonlinear_arith)
                    requires
                        at == l * len + i,
                        0 <= i < len,
                        0 <= l < n,
                ;
                assert(all_canonical(vectors[b]));
                let v = vectors[b][at];
                assert(canonical(v) && canonical(weights[l]));
                lemma_fmul_assoc(weights[l], theta[b], v);
                lemma_fmul_comm(weights[l], theta[b]);
                lemma_fmul_assoc(theta[b], weights[l], v);
            }
            lemma_fsum_scale(theta[b], cv, inner, n);
        }
        lemma_fsum_eq(tc, by_vector, t);
    }
    assert(a =~= c);
}

/// A combination of concatenations is the concatenation of the combinations.
pub proof fn lemma_theta_concat(theta: Seq<int>, a: Seq<Seq<int>>, b: Seq<Seq<int>>, n: nat, m: nat)
    requires
        a.len() == theta.len(),
        b.len() == theta.len(),
        forall|i: int| 0 <= i < a.len() ==> (#[trigger] a[i]).len() == n,
        forall|i: int| 0 <= i < b.len() ==> (#[trigger] b[i]).len() == m,
    ensures
        theta_combined(theta, Seq::new(theta.len(), |i: int| a[i] + b[i]), n + m) == theta_combined(
            theta,
            a,
            n,
        ) + theta_combined(theta, b, m),
{
    let c = Seq::new(theta.len(), |i: int| a[i] + b[i]);
    let lhs = theta_combined(theta, c, n + m);
    let rhs = theta_combined(theta, a, n) + theta_combined(theta, b, m);
    assert forall|i: int| 0 <= i < n + m implies lhs[i] == rhs[i] by {
        let tl = theta_terms(theta, c, i);
        if i < n {
            let tr = theta_terms(theta, a, i);
            assert forall|j: int| 0 <= j < theta.len() implies #[trigger] tl(j) == tr(j) by {
                assert(a[j].len() == n);
                assert(c[j][i] == a[j][i]);
            }
            lemma_fsum_eq(tl, tr, theta.len());
        } else {
            let tr = theta_terms(theta, b, i - n);
            assert forall|j: int| 0 <= j < theta.len() implies #[trigger] tl(j) == tr(j) by {
                assert(a[j].len() == n);
                assert(c[j][i] == b[j][i - n]);
            }
            lemma_fsum_eq(tl, tr, theta.len());
        }
    }
    assert(lhs =~= rhs);
}

/// A single vector with weight one is its own combination.
pub proof fn lemma_theta_single(v: Seq<int>)
    requires
        all_canonical(v),
    ensures
        theta_combined(seq![1int], seq![v], v.len()) == v,
{
    let c = theta_combined(seq![1int], seq![v], v.len());
    assert forall|i: int| 0 <= i < v.len() implies c[i] == v[i] by {
        let t = theta_terms(seq![1int], seq![v], i);
        reveal_with_fuel(fsum, 2);
        assert(t(0) == fmul(1, v[i]));
        assert(canonical(v[i]));
        lemma_fmul_one(v[i]);
        lemma_add_zero(v[i]);
    }
    assert(c =~= v);
}

} // verus!
