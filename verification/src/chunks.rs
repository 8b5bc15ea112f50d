//! Weighted sums of equally long chunks of a vector.

use crate::algebra::{eq_table, eq_weights, evaluate, folded, folded_all, half_len};
use crate::arith::lemma_ceil_log2_pow2;
use crate::field::{
    all_canonical, canonical, fadd, fmul, fpow, fsub, group_residue, lemma_fmul_assoc,
    lemma_fmul_comm, lemma_fmul_one, lemma_fpow_add, lemma_fpow_canonical, lemma_residue_canonical,
    lemma_residue_id, residue, vals, Field64,
};
use crate::matrix_commit::row_of;
use crate::sums::{
    exchanged, fsum, inner_sums, lemma_add_zero, lemma_fsum_add, lemma_fsum_canonical,
    lemma_fsum_eq, lemma_fsum_exchange, lemma_fsum_scale, lemma_fsum_split,
};
use crate::vector_laws::{
    eval_terms, law_evaluate_is_sum, lemma_eq_table_len, lemma_folded_all_first,
    lemma_folded_canonical,
};
use vstd::arithmetic::power2::{lemma_pow2_pos, lemma_pow2_unfold, pow2};
use vstd::prelude::*;

verus! {

/// Entry `i` of every chunk of length `len`, times the chunk's weight.
pub open spec fn chunk_terms(values: Seq<int>, len: nat, weights: Seq<int>, i: int) -> spec_fn(
    int,
) -> int {
    |l: int| fmul(weights[l], values[l * len + i])
}

/// The sum of the chunks of length `len`, each times its weight.
pub open spec fn chunks_combined(values: Seq<int>, len: nat, weights: Seq<int>) -> Seq<int> {
    Seq::new(len, |i: int| fsum(chunk_terms(values, len, weights, i), weights.len()))
}

/// Fold parallel chunks of length `chunk_len` into a single chunk, by the weights of
/// the point `folding_randomness`.
pub fn fold_chunks(values: &[Field64], chunk_len: usize, folding_randomness: &[Field64]) -> (r: Vec<
    Field64,
>)
    requires
        values@.len() == chunk_len * pow2(folding_randomness@.len()),
    ensures
        vals(r@) == chunks_combined(
            vals(values@),
            chunk_len as nat,
            eq_table(vals(folding_randomness@)),
        ),
        r@.len() == chunk_len,
{
    let weights: Vec<Field64> = eq_weights(folding_randomness);
    combine_chunks(values, chunk_len, weights.as_slice())
}

/// The sum of the chunks, each times its weight.
pub fn combine_chunks(values: &[Field64], chunk_len: usize, weights: &[Field64]) -> (r: Vec<Field64>)
    requires
        values@.len() == chunk_len * weights@.len(),
    ensures
        vals(r@) == chunks_combined(vals(values@), chunk_len as nat, vals(weights@)),
        r@.len() == chunk_len,
{
    let ghost vs = vals(values@);
    let ghost ws = vals(weights@);
    let mut out: Vec<Field64> = Vec::new();
    let len: usize = values.len();
    for i in 0..chunk_len
        invariant
            len == values@.len(),
            values@.len() == chunk_len * weights@.len(),
            vs == vals(values@),
            ws == vals(weights@),
            out@.len() == i,
            forall|j: int|
                0 <= j < i ==> (#[trigger] out@[j])@ == chunks_combined(vs, chunk_len as nat, ws)[j],
    {
        let mut acc: Field64 = Field64::zero();
        for l in 0..weights.len()
            invariant
                i < chunk_len,
                len == values@.len(),
                values@.len() == chunk_len * weights@.len(),
                vs == vals(values@),
                ws == vals(weights@),
                acc@ == fsum(chunk_terms(vs, chunk_len as nat, ws, i as int), l as nat),
        {
            proof {
                let (a, b, c) = (l as int, weights@.len() as int, chunk_len as int);
                assert(a * c + c <= c * b) by (nonlinear_arith)
                    requires
                        a < b,
                        c >= 0,
                ;
                assert(a * c >= 0) by (nonlinear_arith)
                    requires
                        a >= 0,
                        c >= 0,
                ;
            }
            acc = acc.add(weights[l].mul(values[l * chunk_len + i]));
        }
        out.push(acc);
    }
    assert(vals(out@) =~= chunks_combined(vs, chunk_len as nat, ws));
    out
}

/// The value of a concatenation.
pub proof fn law_evaluate_concat(a: Seq<int>, b: Seq<int>, x: int)
    requires
        all_canonical(a),
        all_canonical(b),
        canonical(x),
    ensures
        evaluate(a + b, x) == fadd(evaluate(a, x), fmul(fpow(x, a.len()), evaluate(b, x))),
{
    broadcast use {lemma_fpow_canonical, lemma_residue_canonical, lemma_fsum_canonical};

    let c = a + b;
    assert(all_canonical(c));
    law_evaluate_is_sum(a, x);
    law_evaluate_is_sum(b, x);
    law_evaluate_is_sum(c, x);
    let f = eval_terms(c, x);
    let g = |i: int| f(a.len() + i);
    lemma_fsum_split(f, g, a.len(), b.len());
    assert forall|i: int| 0 <= i < a.len() implies #[trigger] f(i) == eval_terms(a, x)(i) by {
        assert(c[i] == a[i]);
    }
    lemma_fsum_eq(f, eval_terms(a, x), a.len());
    let xa = fpow(x, a.len());
    assert forall|i: int| 0 <= i < b.len() implies #[trigger] g(i) == fmul(xa, eval_terms(b, x)(i)) by {
        let p = fpow(x, i as nat);
        assert(c[a.len() + i] == b[i]);
        assert(canonical(b[i]));
        lemma_fpow_add(x, a.len(), i as nat);
        lemma_fmul_assoc(xa, b[i], p);
        lemma_fmul_comm(xa, b[i]);
        lemma_fmul_assoc(b[i], xa, p);
    }
    lemma_fsum_scale(xa, eval_terms(b, x), g, b.len());
    assert(c.len() == a.len() + b.len());
}

/// The chunks' values, each times its weight.
pub open spec fn weighted_chunk_values(values: Seq<int>, len: nat, weights: Seq<int>, x: int) -> spec_fn(
    int,
) -> int {
    |l: int| fmul(weights[l], evaluate(row_of(values, len, l), x))
}

/// The value of a weighted sum of polynomials is the weighted sum of their values.
pub proof fn law_combined_evaluates(values: Seq<int>, len: nat, weights: Seq<int>, x: int)
    requires
        all_canonical(values),
        all_canonical(weights),
        canonical(x),
        values.len() == len * weights.len(),
    ensures
        evaluate(chunks_combined(values, len, weights), x) == fsum(
            weighted_chunk_values(values, len, weights, x),
            weights.len(),
        ),
        all_canonical(chunks_combined(values, len, weights)),
{
    broadcast use {lemma_fpow_canonical, lemma_residue_canonical, lemma_fsum_canonical};

    let n = weights.len();
    let c = chunks_combined(values, len, weights);
    law_evaluate_is_sum(c, x);
    let f = |i: int, l: int| fmul(fmul(weights[l], values[l * len + i]), fpow(x, i as nat));
    // Sum over entries first.
    let by_entry = inner_sums(f, n);
    assert forall|i: int| 0 <= i < len implies #[trigger] eval_terms(c, x)(i) == by_entry(i) by {
        let inner = |l: int| f(i, l);
        let t = chunk_terms(values, len, weights, i);
        let p = fpow(x, i as nat);
        assert forall|l: int| 0 <= l < n implies #[trigger] inner(l) == fmul(p, t(l)) by {
            lemma_fmul_comm(t(l), p);
        }
        lemma_fsum_scale(p, t, inner, n);
        lemma_fmul_comm(c[i], p);
    }
    lemma_fsum_eq(eval_terms(c, x), by_entry, len);
    lemma_fsum_exchange(f, len, n);
    let by_chunk = inner_sums(exchanged(f), len);
    let want = weighted_chunk_values(values, len, weights, x);
    assert forall|l: int| 0 <= l < n implies #[trigger] by_chunk(l) == want(l) by {
        let row = row_of(values, len, l);
        let inner = |i: int| exchanged(f)(l, i);
        assert(l * len + len <= len * n) by (nonlinear_arith)
            requires
                l < n,
                len >= 0,
        ;
        assert(l * len >= 0) by (nonlinear_arith)
            requires
                l >= 0,
                len >= 0,
        ;
        assert(row.len() == len);
        assert(all_canonical(row)) by {
            assert forall|i: int| 0 <= i < row.len() implies canonical(#[trigger] row[i]) by {
                assert(canonical(values[l * len + i]));
            }
        }
        law_evaluate_is_sum(row, x);
        let e = eval_terms(row, x);
        assert(canonical(weights[l]));
        assert forall|i: int| 0 <= i < len implies #[trigger] inner(i) == fmul(weights[l], e(i)) by {
            assert(row[i] == values[l * len + i]);
            assert(canonical(row[i]));
            lemma_fmul_assoc(weights[l], row[i], fpow(x, i as nat));
        }
        lemma_fsum_scale(weights[l], e, inner, len);
    }
    lemma_fsum_eq(by_chunk, want, n);
}

/// Setting the first variables of a vector combines its chunks by the weights of the
/// point.
pub proof fn law_fold_all_is_combination(s: Seq<int>, rs: Seq<int>, k: nat)
    requires
        all_canonical(s),
        all_canonical(rs),
        s.len() == pow2(rs.len()) * pow2(k),
    ensures
        folded_all(s, rs) == chunks_combined(s, pow2(k), eq_table(rs)),
    decreases rs.len(),
{
    broadcast use {lemma_residue_canonical, lemma_fsum_canonical};

    let len = pow2(k);
    lemma_pow2_pos(k);
    if rs.len() == 0 {
        vstd::arithmetic::power2::lemma2_to64();
        assert(s.len() == len) by {
            assert(1 * len == len) by (nonlinear_arith);
        }
        let c = chunks_combined(s, len, eq_table(rs));
        assert forall|i: int| 0 <= i < len implies c[i] == s[i] by {
            let t = chunk_terms(s, len, eq_table(rs), i);
            reveal_with_fuel(fsum, 2);
            assert(0 * len == 0) by (nonlinear_arith);
            assert(t(0) == fmul(1, s[0 + i]));
            assert(canonical(s[i]));
            lemma_fmul_one(s[i]);
            lemma_add_zero(s[i]);
        }
        assert(c =~= s);
    } else {
        let r = rs[0];
        let tail = rs.drop_first();
        let n = rs.len();
        let half = pow2(tail.len()) * len;
        lemma_pow2_unfold(n);
        assert(s.len() == half + half) by (nonlinear_arith)
            requires
                s.len() == pow2(n) * len,
                pow2(n) == 2 * pow2(tail.len()),
                half == pow2(tail.len()) * len,
        ;
        crate::arith::lemma_pow2_sum(n, k);
        crate::arith::lemma_pow2_sum(tail.len(), k);
        lemma_ceil_log2_pow2(n + k);
        assert(half_len(s.len()) == half);
        let f = folded(s, r);
        lemma_folded_canonical(s, r);
        assert(canonical(r));
        assert(all_canonical(tail)) by {
            assert forall|i: int| 0 <= i < tail.len() implies canonical(#[trigger] tail[i]) by {
                assert(canonical(rs[i + 1]));
            }
        }
        lemma_folded_all_first(s, rs);
        law_fold_all_is_combination(f, tail, k);
        lemma_eq_table_len(tail);
        lemma_eq_table_len(rs);
        let w = eq_table(tail);
        let w2 = eq_table(rs);
        let m = w.len();
        let lhs = chunks_combined(f, len, w);
        let rhs = chunks_combined(s, len, w2);
        assert forall|i: int| 0 <= i < len implies lhs[i] == rhs[i] by {
            let a = chunk_terms(s, len, w2, i);
            let b = |l: int| a(m + l);
            lemma_fsum_split(a, b, m, m);
            let c = chunk_terms(f, len, w, i);
            assert forall|l: int| 0 <= l < m implies #[trigger] c(l) == fadd(a(l), b(l)) by {
                let at = l * len + i;
                assert(0 <= at < half) by (nonlinear_arith)
                    requires
                        at == l * len + i,
                        0 <= i < len,
                        0 <= l < m,
                        half == m * len,
                ;
                assert((m + l) * len + i == at + half) by (nonlinear_arith)
                    requires
                        at == l * len + i,
                        half == m * len,
                ;
                let lo = s[at];
                let hi = s[at + half];
                assert(canonical(lo) && canonical(hi) && canonical(w[l]));
                assert(w2[l] == fmul(fsub(1, r), w[l]));
                assert(w2[m + l] == fmul(r, w[l]));
                assert(f[at] == fadd(lo, fmul(r, fsub(hi, lo))));
                lemma_interpolate_weighted(lo, hi, r, w[l]);
            }
            lemma_fsum_add(a, b, c, m);
            assert(m + m == w2.len());
        }
        assert(lhs =~= rhs);
    }
}

proof fn lemma_interpolate_weighted(lo: int, hi: int, r: int, w: int)
    requires
        canonical(lo),
        canonical(hi),
        canonical(r),
        canonical(w),
    ensures
        fmul(w, fadd(lo, fmul(r, fsub(hi, lo)))) == fadd(
            fmul(fmul(fsub(1, r), w), lo),
            fmul(fmul(r, w), hi),
        ),
{
    broadcast use group_residue;

    lemma_residue_id(lo);
    lemma_residue_id(hi);
    lemma_residue_id(r);
    lemma_residue_id(w);
    lemma_residue_id(1);
    assert(fmul(w, fadd(lo, fmul(r, fsub(hi, lo)))) == residue(w * (lo + r * (hi - lo))));
    assert(fmul(fmul(fsub(1, r), w), lo) == residue((1 - r) * w * lo));
    assert(fmul(fmul(r, w), hi) == residue(r * w * hi));
    let t = r * w;
    assert((1 - r) * w == w - t) by (nonlinear_arith)
        requires
            t == r * w,
    ;
    assert((w - t) * lo == w * lo - t * lo) by (nonlinear_arith);
    assert(w * (lo + r * (hi - lo)) == w * lo + t * (hi - lo)) by (nonlinear_arith)
        requires
            t == r * w,
    ;
    assert(t * (hi - lo) == t * hi - t * lo) by (nonlinear_arith);
}

} // verus!
