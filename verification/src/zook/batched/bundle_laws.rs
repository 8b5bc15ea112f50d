//! Laws of bundles.

use crate::algebra::{dot_spec, dot_terms, eq_table, mle, scaled};
use crate::field::{
    all_canonical, canonical, fadd, fmul, fsub, lemma_fmul_assoc, lemma_fmul_comm, lemma_fmul_one,
    lemma_residue_canonical,
};
use crate::linear_form::added_at;
use crate::sums::{
    fsum, lemma_add_zero, lemma_distribute, lemma_fsum_add, lemma_fsum_canonical, lemma_fsum_scale,
    lemma_fsum_split, lemma_fsum_trim, lemma_fsum_zero,
};
use crate::vector_laws::{law_dot_commutes, law_dot_scaled, lemma_dot_zeros, lemma_eq_table_len};
use crate::zook::batched::bundle::{
    bundle_covector, bundle_forms, bundle_sum, claim_weight, claims_before, covector_upto,
    flat_polys, forms_upto, sum_upto, ClaimView,
};
use vstd::arithmetic::power2::{lemma_pow2_unfold, pow2};
use vstd::prelude::*;

verus! {

/// Do all claims speak of vectors of one length, with canonical entries?
pub open spec fn claims_wf(claims: Seq<Seq<ClaimView>>, len: nat) -> bool {
    forall|k: int, j: int|
        0 <= k < claims.len() && 0 <= j < claims[k].len() ==> all_canonical(
            (#[trigger] claims[k][j]).covector,
        ) && claims[k][j].covector.len() == len
}

/// Do all claims hold of the polynomials?
pub open spec fn claims_hold(claims: Seq<Seq<ClaimView>>, polys: Seq<Seq<int>>) -> bool {
    forall|k: int, j: int|
        0 <= k < claims.len() && 0 <= j < claims[k].len() ==> (#[trigger] claims[k][j]).value
            == dot_spec(polys[k], claims[k][j].covector)
}

/// The inner product of `h` with a vector to which a multiple of another was added
/// from some place on.
pub proof fn lemma_dot_added_at(h: Seq<int>, acc: Seq<int>, offset: nat, cov: Seq<int>, w: int)
    requires
        all_canonical(h),
        all_canonical(acc),
        all_canonical(cov),
        canonical(w),
        h.len() == acc.len(),
        offset + cov.len() <= acc.len(),
    ensures
        dot_spec(h, added_at(acc, offset, cov, w)) == fadd(
            dot_spec(h, acc),
            fmul(w, dot_spec(h.subrange(offset as int, (offset + cov.len()) as int), cov)),
        ),
{
    broadcast use {lemma_residue_canonical, lemma_fsum_canonical};

    let n = acc.len();
    let m = cov.len();
    let part = h.subrange(offset as int, (offset + m) as int);
    let f = dot_terms(h, added_at(acc, offset, cov, w));
    let a = dot_terms(h, acc);
    let d = dot_terms(part, cov);
    let b = |i: int|
        if offset <= i < offset + m {
            fmul(w, d(i - offset))
        } else {
            0
        };
    assert forall|i: int| 0 <= i < n implies #[trigger] f(i) == fadd(a(i), b(i)) by {
        assert(canonical(h[i]) && canonical(acc[i]));
        if offset <= i < offset + m {
            let c = cov[i - offset];
            assert(canonical(c));
            assert(part[i - offset] == h[i]);
            lemma_distribute(h[i], acc[i], fmul(w, c));
            lemma_fmul_assoc(h[i], w, c);
            lemma_fmul_comm(h[i], w);
            lemma_fmul_assoc(w, h[i], c);
        } else {
            lemma_add_zero(fmul(h[i], acc[i]));
        }
    }
    lemma_fsum_add(a, b, f, n);
    // Only the part at the place counts.
    lemma_fsum_trim(b, offset + m, n);
    let g = |i: int| b(offset + i);
    lemma_fsum_split(b, g, offset, m);
    lemma_fsum_zero(b, offset);
    assert forall|i: int| 0 <= i < m implies #[trigger] g(i) == fmul(w, d(i)) by {}
    lemma_fsum_scale(w, d, g, m);
    lemma_add_zero(fsum(g, m));
}

/// The weights of a longer point are products of those of its parts.
pub proof fn lemma_eq_table_concat(a: Seq<int>, b: Seq<int>, i: int, j: int)
    requires
        all_canonical(a),
        all_canonical(b),
        0 <= i < pow2(a.len()),
        0 <= j < pow2(b.len()),
    ensures
        0 <= i * pow2(b.len()) + j < pow2(a.len()) * pow2(b.len()),
        eq_table(a + b).len() == pow2(a.len()) * pow2(b.len()),
        eq_table(a + b)[i * pow2(b.len()) + j] == fmul(eq_table(a)[i], eq_table(b)[j]),
    decreases a.len(),
{
    broadcast use lemma_residue_canonical;

    let m = pow2(b.len()) as int;
    let n = pow2(a.len()) as int;
    assert(0 <= i * m + j < n * m) by (nonlinear_arith)
        requires
            0 <= i < n,
            0 <= j < m,
    ;
    assert(all_canonical(a + b));
    lemma_eq_table_len(a + b);
    lemma_eq_table_len(a);
    lemma_eq_table_len(b);
    crate::arith::lemma_pow2_sum(a.len(), b.len());
    if a.len() == 0 {
        assert(a + b =~= b);
        vstd::arithmetic::power2::lemma2_to64();
        assert(i == 0);
        assert(0 * m == 0) by (nonlinear_arith);
        assert(canonical(eq_table(b)[j]));
        lemma_fmul_one(eq_table(b)[j]);
    } else {
        let r = a[0];
        let tail = a.drop_first();
        assert(canonical(r));
        assert(all_canonical(tail)) by {
            assert forall|t: int| 0 <= t < tail.len() implies canonical(#[trigger] tail[t]) by {
                assert(canonical(a[t + 1]));
            }
        }
        assert((a + b).drop_first() =~= tail + b);
        lemma_pow2_unfold(a.len());
        let half = pow2(tail.len()) as int;
        lemma_eq_table_len(tail);
        let big = eq_table(tail + b);
        assert(all_canonical(tail + b));
        lemma_eq_table_len(tail + b);
        crate::arith::lemma_pow2_sum(tail.len(), b.len());
        let w = eq_table(tail);
        let v = eq_table(b);
        if i < half {
            lemma_eq_table_concat(tail, b, i, j);
            let at = i * m + j;
            assert(eq_table(a + b)[at] == fmul(fsub(1, r), big[at]));
            assert(eq_table(a)[i] == fmul(fsub(1, r), w[i]));
            assert(canonical(w[i]) && canonical(v[j]));
            lemma_fmul_assoc(fsub(1, r), w[i], v[j]);
        } else {
            let k = i - half;
            lemma_eq_table_concat(tail, b, k, j);
            let at = k * m + j;
            assert(i * m + j == half * m + at) by (nonlinear_arith)
                requires
                    k == i - half,
                    at == k * m + j,
            ;
            assert(eq_table(a + b)[half * m + at] == fmul(r, big[at]));
            assert(eq_table(a)[i] == fmul(r, w[k]));
            assert(canonical(w[k]) && canonical(v[j]));
            lemma_fmul_assoc(r, w[k], v[j]);
        }
    }
}

/// The places of the polynomials of a bundle.
proof fn lemma_place(n: nat, len: nat, k: nat)
    requires
        k < n,
    ensures
        k * len + len <= n * len,
        0 <= k * len,
{
    assert(k * len + len <= n * len) by (nonlinear_arith)
        requires
            k < n,
    ;
}

/// The combined covector is of the bundle's length, with canonical entries.
pub proof fn lemma_covector_wf(claims: Seq<Seq<ClaimView>>, batching: int, len: nat, k: nat, j: nat)
    requires
        k <= claims.len(),
        k < claims.len() ==> j <= claims[k as int].len(),
        k == claims.len() ==> j == 0,
    ensures
        covector_upto(claims, batching, len, k, j).len() == claims.len() * len,
        all_canonical(covector_upto(claims, batching, len, k, j)),
    decreases k, j,
{
    broadcast use lemma_residue_canonical;

    let c = covector_upto(claims, batching, len, k, j);
    if j > 0 {
        lemma_covector_wf(claims, batching, len, k, (j - 1) as nat);
        let before = covector_upto(claims, batching, len, k, (j - 1) as nat);
        assert forall|i: int| 0 <= i < c.len() implies canonical(#[trigger] c[i]) by {
            assert(canonical(before[i]));
        }
    } else if k > 0 {
        lemma_covector_wf(claims, batching, len, (k - 1) as nat, claims[k - 1].len());
    } else {
        assert forall|i: int| 0 <= i < c.len() implies canonical(#[trigger] c[i]) by {}
    }
}

/// A polynomial is found at its place.
proof fn lemma_flat_part(polys: Seq<Seq<int>>, len: nat, k: nat, n: nat)
    requires
        n <= polys.len(),
        forall|i: int|
            0 <= i < polys.len() ==> (#[trigger] polys[i]).len() == len && all_canonical(polys[i]),
    ensures
        flat_polys(polys, n).len() == n * len,
        all_canonical(flat_polys(polys, n)),
        k < n ==> flat_polys(polys, n).subrange((k * len) as int, (k * len + len) as int)
            == polys[k as int],
    decreases n,
{
    let f = flat_polys(polys, n);
    if n == 0 {
        assert(0 * len == 0) by (nonlinear_arith);
    } else {
        let m = (n - 1) as nat;
        lemma_flat_part(polys, len, k, m);
        let g = flat_polys(polys, m);
        assert(n * len == m * len + len) by (nonlinear_arith)
            requires
                n == m + 1,
        ;
        assert forall|i: int| 0 <= i < f.len() implies canonical(#[trigger] f[i]) by {
            if i < g.len() {
                assert(canonical(g[i]));
            } else {
                assert(canonical(polys[m as int][i - g.len()]));
            }
        }
        if k < n {
            lemma_place(n, len, k);
            if k < m {
                lemma_place(m, len, k);
                assert(f.subrange((k * len) as int, (k * len + len) as int) =~= g.subrange(
                    (k * len) as int,
                    (k * len + len) as int,
                ));
            } else {
                assert(f.subrange((k * len) as int, (k * len + len) as int) =~= polys[k as int]);
            }
        }
    }
}

proof fn lemma_claim_upto(
    claims: Seq<Seq<ClaimView>>,
    polys: Seq<Seq<int>>,
    batching: int,
    len: nat,
    k: nat,
    j: nat,
)
    requires
        polys.len() == claims.len(),
        forall|i: int|
            0 <= i < polys.len() ==> (#[trigger] polys[i]).len() == len && all_canonical(polys[i]),
        claims_wf(claims, len),
        claims_hold(claims, polys),
        k <= claims.len(),
        k < claims.len() ==> j <= claims[k as int].len(),
        k == claims.len() ==> j == 0,
    ensures
        dot_spec(flat_polys(polys, polys.len()), covector_upto(claims, batching, len, k, j))
            == sum_upto(claims, batching, k, j),
    decreases k, j,
{
    broadcast use {lemma_residue_canonical, lemma_fsum_canonical};

    let flat = flat_polys(polys, polys.len());
    lemma_flat_part(polys, len, k, polys.len());
    if j > 0 {
        let i = (j - 1) as nat;
        lemma_claim_upto(claims, polys, batching, len, k, i);
        lemma_covector_wf(claims, batching, len, k, i);
        let c = claims[k as int][i as int];
        assert(all_canonical(c.covector) && c.covector.len() == len);
        lemma_place(claims.len(), len, k);
        let w = claim_weight(batching, (claims_before(claims, k) + i) as nat);
        lemma_dot_added_at(
            flat,
            covector_upto(claims, batching, len, k, i),
            k * len,
            c.covector,
            w,
        );
    } else if k > 0 {
        lemma_claim_upto(claims, polys, batching, len, (k - 1) as nat, claims[k - 1].len());
    } else {
        lemma_dot_zeros(flat, claims.len() * len);
    }
}

/// The claims of a bundle, combined, hold of its polynomials one after the other: the
/// inner product of the flat bundle and the combined covector is the combined value.
pub proof fn law_bundle_claim_holds(
    claims: Seq<Seq<ClaimView>>,
    polys: Seq<Seq<int>>,
    batching: int,
    len: nat,
)
    requires
        polys.len() == claims.len(),
        forall|i: int|
            0 <= i < polys.len() ==> (#[trigger] polys[i]).len() == len && all_canonical(polys[i]),
        claims_wf(claims, len),
        claims_hold(claims, polys),
    ensures
        dot_spec(flat_polys(polys, polys.len()), bundle_covector(claims, batching, len)) == bundle_sum(
            claims,
            batching,
        ),
        flat_polys(polys, polys.len()).len() == polys.len() * len,
        all_canonical(flat_polys(polys, polys.len())),
        bundle_covector(claims, batching, len).len() == polys.len() * len,
        all_canonical(bundle_covector(claims, batching, len)),
{
    lemma_claim_upto(claims, polys, batching, len, claims.len(), 0);
    lemma_flat_part(polys, len, 0, polys.len());
    lemma_covector_wf(claims, batching, len, claims.len(), 0);
}

proof fn lemma_forms_upto(
    claims: Seq<Seq<ClaimView>>,
    batching: int,
    high: Seq<int>,
    low: Seq<int>,
    k: nat,
    j: nat,
)
    requires
        claims.len() == pow2(high.len()),
        claims_wf(claims, pow2(low.len())),
        all_canonical(high),
        all_canonical(low),
        k <= claims.len(),
        k < claims.len() ==> j <= claims[k as int].len(),
        k == claims.len() ==> j == 0,
    ensures
        dot_spec(
            eq_table(high + low),
            covector_upto(claims, batching, pow2(low.len()), k, j),
        ) == forms_upto(claims, batching, high, low, k, j),
    decreases k, j,
{
    broadcast use {lemma_residue_canonical, lemma_fsum_canonical};

    let len = pow2(low.len());
    let h = eq_table(high + low);
    assert(all_canonical(high + low));
    lemma_eq_table_len(high + low);
    lemma_eq_table_len(high);
    lemma_eq_table_len(low);
    crate::arith::lemma_pow2_sum(high.len(), low.len());
    if j > 0 {
        let i = (j - 1) as nat;
        lemma_forms_upto(claims, batching, high, low, k, i);
        lemma_covector_wf(claims, batching, len, k, i);
        let c = claims[k as int][i as int];
        assert(all_canonical(c.covector) && c.covector.len() == len);
        lemma_place(claims.len(), len, k);
        let w = claim_weight(batching, (claims_before(claims, k) + i) as nat);
        lemma_dot_added_at(
            h,
            covector_upto(claims, batching, len, k, i),
            k * len,
            c.covector,
            w,
        );
        // The part of the weights at the polynomial's place.
        let part = h.subrange((k * len) as int, (k * len + len) as int);
        let e = eq_table(high)[k as int];
        assert(canonical(e));
        assert forall|t: int| 0 <= t < len implies part[t] == scaled(eq_table(low), e)[t] by {
            lemma_eq_table_concat(high, low, k as int, t);
        }
        assert(part =~= scaled(eq_table(low), e));
        law_dot_commutes(part, c.covector);
        law_dot_scaled(c.covector, eq_table(low), e);
        lemma_fmul_assoc(w, e, mle(c.covector, low));
    } else if k > 0 {
        lemma_forms_upto(claims, batching, high, low, (k - 1) as nat, claims[k - 1].len());
    } else {
        lemma_dot_zeros(h, claims.len() * len);
    }
}

/// The value at a point of a bundle's combined covector is the combined value of its
/// forms: the high part of the point weighs the polynomials, the low part goes into
/// the forms.
pub proof fn law_bundle_covector_value(
    claims: Seq<Seq<ClaimView>>,
    batching: int,
    high: Seq<int>,
    low: Seq<int>,
)
    requires
        claims.len() == pow2(high.len()),
        claims_wf(claims, pow2(low.len())),
        all_canonical(high),
        all_canonical(low),
    ensures
        mle(bundle_covector(claims, batching, pow2(low.len())), high + low) == bundle_forms(
            claims,
            batching,
            high,
            low,
        ),
{
    lemma_forms_upto(claims, batching, high, low, claims.len(), 0);
    lemma_covector_wf(claims, batching, pow2(low.len()), claims.len(), 0);
    assert(all_canonical(high + low));
    lemma_eq_table_len(high + low);
    crate::arith::lemma_pow2_sum(high.len(), low.len());
    law_dot_commutes(
        bundle_covector(claims, batching, pow2(low.len())),
        eq_table(high + low),
    );
}

} // verus!
