//! Bundles: polynomials of one length under one commitment, with claims about each.
//!
//! A bundle is one polynomial in more variables: the high bits of its index choose the
//! polynomial. Its claims are combined by the powers of a challenge.

use crate::algebra::{
    dot_spec, eq_table, eq_weights, geometric, geometric_sequence, mle, zeros, zeros_spec,
};
use crate::arith::{ceil_log2, ceil_log2_spec, is_pow2, is_power_of_two};
use crate::field::{all_canonical, fadd, fmul, fpow, lemma_vals_canonical, vals, Field64};
use crate::linear_form::{added_at, LinearForm};
use crate::transcript::VerificationError;
use crate::zook::batched::claim_laws::{
    claim_values, form_values, law_bundle_forms_are_combination, law_bundle_sum_is_combination,
};
use vstd::prelude::*;

verus! {

/// A claim about a polynomial: the value of a linear form.
#[derive(Debug)]
pub struct BundleClaim<'a> {
    pub form: &'a LinearForm,
    pub value: Field64,
}

/// The prover's bundle: the polynomials, and the claims about each.
#[derive(Debug)]
pub struct WitnessBundle<'a> {
    pub polys: Vec<&'a [Field64]>,
    pub per_poly_claims: Vec<Vec<BundleClaim<'a>>>,
}

/// The verifier's bundle: the same without the polynomials.
#[derive(Debug)]
pub struct BundleDescriptor<'a> {
    pub num_polys: usize,
    pub length: usize,
    pub per_poly_claims: Vec<Vec<BundleClaim<'a>>>,
}

/// The combined claim of a bundle, and the powers it was combined by.
#[derive(Debug)]
pub struct BundleClaimMaterial {
    pub covector: Vec<Field64>,
    pub sum: Field64,
    pub claim_weights: Vec<Field64>,
}

/// [`BundleClaim`] as a mathematical value.
pub struct ClaimView {
    pub covector: Seq<int>,
    pub value: int,
}

impl<'a> View for BundleClaim<'a> {
    type V = ClaimView;

    open spec fn view(&self) -> ClaimView {
        ClaimView { covector: self.form.covector(), value: self.value@ }
    }
}

/// The claims about every polynomial.
pub open spec fn claims_of<'a>(claims: Seq<Vec<BundleClaim<'a>>>) -> Seq<Seq<ClaimView>> {
    Seq::new(
        claims.len(),
        |k: int| Seq::new(claims[k]@.len(), |j: int| claims[k]@[j]@),
    )
}

/// The polynomials' values.
pub open spec fn polys_of(polys: Seq<&[Field64]>) -> Seq<Seq<int>> {
    Seq::new(polys.len(), |k: int| vals(polys[k]@))
}

/// How many claims there are about the first `k` polynomials.
pub open spec fn claims_before(claims: Seq<Seq<ClaimView>>, k: nat) -> nat
    decreases k,
{
    if k == 0 {
        0
    } else {
        claims_before(claims, (k - 1) as nat) + claims[k - 1].len()
    }
}

/// How many claims there are.
pub open spec fn total_claims(claims: Seq<Seq<ClaimView>>) -> nat {
    claims_before(claims, claims.len())
}

/// The weight of the claim of the given index.
pub open spec fn claim_weight(batching: int, idx: nat) -> int {
    fmul(1, fpow(batching, idx))
}

/// The combined covector of the claims about the first `k` polynomials and of the
/// first `j` claims about the next: every claim's form, times its weight, at the place
/// of its polynomial.
pub open spec fn covector_upto(
    claims: Seq<Seq<ClaimView>>,
    batching: int,
    len: nat,
    k: nat,
    j: nat,
) -> Seq<int>
    decreases k, j,
{
    if j > 0 {
        added_at(
            covector_upto(claims, batching, len, k, (j - 1) as nat),
            k * len,
            claims[k as int][j - 1].covector,
            claim_weight(batching, (claims_before(claims, k) + j - 1) as nat),
        )
    } else if k > 0 {
        covector_upto(claims, batching, len, (k - 1) as nat, claims[k - 1].len())
    } else {
        zeros_spec(claims.len() * len)
    }
}

/// The combined value of the claims about the first `k` polynomials and of the first
/// `j` claims about the next.
pub open spec fn sum_upto(claims: Seq<Seq<ClaimView>>, batching: int, k: nat, j: nat) -> int
    decreases k, j,
{
    if j > 0 {
        fadd(
            sum_upto(claims, batching, k, (j - 1) as nat),
            fmul(
                claim_weight(batching, (claims_before(claims, k) + j - 1) as nat),
                claims[k as int][j - 1].value,
            ),
        )
    } else if k > 0 {
        sum_upto(claims, batching, (k - 1) as nat, claims[k - 1].len())
    } else {
        0
    }
}

/// The combined value at a point of the forms about the first `k` polynomials and of
/// the first `j` forms about the next: the high part of the point chooses the
/// polynomial, the low part goes into the form.
pub open spec fn forms_upto(
    claims: Seq<Seq<ClaimView>>,
    batching: int,
    high: Seq<int>,
    low: Seq<int>,
    k: nat,
    j: nat,
) -> int
    decreases k, j,
{
    if j > 0 {
        fadd(
            forms_upto(claims, batching, high, low, k, (j - 1) as nat),
            fmul(
                fmul(
                    claim_weight(batching, (claims_before(claims, k) + j - 1) as nat),
                    eq_table(high)[k as int],
                ),
                mle(claims[k as int][j - 1].covector, low),
            ),
        )
    } else if k > 0 {
        forms_upto(claims, batching, high, low, (k - 1) as nat, claims[k - 1].len())
    } else {
        0
    }
}

/// The combined covector of all claims.
pub open spec fn bundle_covector(claims: Seq<Seq<ClaimView>>, batching: int, len: nat) -> Seq<int> {
    covector_upto(claims, batching, len, claims.len(), 0)
}

/// The combined value of all claims.
pub open spec fn bundle_sum(claims: Seq<Seq<ClaimView>>, batching: int) -> int {
    sum_upto(claims, batching, claims.len(), 0)
}

/// The combined value at a point of all forms.
pub open spec fn bundle_forms(claims: Seq<Seq<ClaimView>>, batching: int, high: Seq<int>, low: Seq<int>) -> int {
    forms_upto(claims, batching, high, low, claims.len(), 0)
}

/// The polynomials one after the other: the first `k` of them.
pub open spec fn flat_polys(polys: Seq<Seq<int>>, k: nat) -> Seq<int>
    decreases k,
{
    if k == 0 {
        Seq::empty()
    } else {
        flat_polys(polys, (k - 1) as nat) + polys[k - 1]
    }
}

/// Are all forms about vectors of the given length?
pub open spec fn forms_sized<'a>(claims: Seq<Vec<BundleClaim<'a>>>, len: nat) -> bool {
    forall|k: int, j: int|
        0 <= k < claims.len() && 0 <= j < claims[k]@.len() ==> (
        #[trigger] claims[k]@[j]).form.covector().len() == len
}

/// Can all forms be evaluated?
pub open spec fn forms_wf<'a>(claims: Seq<Vec<BundleClaim<'a>>>) -> bool {
    forall|k: int, j: int|
        0 <= k < claims.len() && 0 <= j < claims[k]@.len() ==> (
        #[trigger] claims[k]@[j]).form.wf()
}

/// The claims before a polynomial are among all.
pub proof fn lemma_claims_before(claims: Seq<Seq<ClaimView>>, j: nat, k: nat)
    requires
        j <= k,
    ensures
        claims_before(claims, j) <= claims_before(claims, k),
    decreases k,
{
    if j < k {
        lemma_claims_before(claims, j, (k - 1) as nat);
    }
}

/// The number of claims about all polynomials.
fn count_claims<'a>(per_poly_claims: &Vec<Vec<BundleClaim<'a>>>) -> (r: usize)
    requires
        total_claims(claims_of(per_poly_claims@)) <= usize::MAX,
    ensures
        r == total_claims(claims_of(per_poly_claims@)),
{
    let ghost cs = claims_of(per_poly_claims@);
    let mut total: usize = 0;
    for k in 0..per_poly_claims.len()
        invariant
            cs == claims_of(per_poly_claims@),
            total_claims(cs) <= usize::MAX,
            total == claims_before(cs, k as nat),
    {
        proof {
            lemma_claims_before(cs, (k + 1) as nat, cs.len());
            assert(cs[k as int].len() == per_poly_claims@[k as int]@.len());
        }
        total = total + per_poly_claims[k].len();
    }
    total
}

impl<'a> BundleDescriptor<'a> {
    /// The claims.
    pub open spec fn claims(&self) -> Seq<Seq<ClaimView>> {
        claims_of(self.per_poly_claims@)
    }

    /// Are all sizes powers of two, is there a list of claims for every polynomial,
    /// and are all forms about vectors of the polynomials' length?
    pub open spec fn valid(&self) -> bool {
        &&& is_pow2(self.num_polys as nat)
        &&& is_pow2(self.length as nat)
        &&& self.per_poly_claims@.len() == self.num_polys
        &&& forms_sized(self.per_poly_claims@, self.length as nat)
    }

    /// Can all forms be evaluated, and can the claims be counted?
    pub open spec fn usable(&self) -> bool {
        forms_wf(self.per_poly_claims@) && total_claims(self.claims()) <= usize::MAX
    }

    /// Check the shape of the bundle.
    pub fn validate(&self) -> (r: Result<(), VerificationError>)
        requires
            forms_wf(self.per_poly_claims@),
        ensures
            r is Ok <==> self.valid(),
    {
        if !is_power_of_two(self.num_polys) || !is_power_of_two(self.length)
            || self.per_poly_claims.len() != self.num_polys {
            return Err(VerificationError);
        }
        for k in 0..self.per_poly_claims.len()
            invariant
                forms_wf(self.per_poly_claims@),
                forall|i: int, j: int|
                    0 <= i < k && 0 <= j < self.per_poly_claims@[i]@.len() ==> (
                    #[trigger] self.per_poly_claims@[i]@[j]).form.covector().len() == self.length,
        {
            let claims: &Vec<BundleClaim<'a>> = &self.per_poly_claims[k];
            for m in 0..claims.len()
                invariant
                    k < self.per_poly_claims@.len(),
                    *claims == self.per_poly_claims@[k as int],
                    forms_wf(self.per_poly_claims@),
                    forall|i: int, j: int|
                        0 <= i < k && 0 <= j < self.per_poly_claims@[i]@.len() ==> (
                        #[trigger] self.per_poly_claims@[i]@[j]).form.covector().len() == self.length,
                    forall|j: int|
                        0 <= j < m ==> (
                        #[trigger] self.per_poly_claims@[k as int]@[j]).form.covector().len()
                            == self.length,
            {
                assert(self.per_poly_claims@[k as int]@[m as int].form.wf());
                if claims[m].form.size() != self.length {
                    assert(self.per_poly_claims@[k as int]@[m as int].form.covector().len()
                        != self.length);
                    return Err(VerificationError);
                }
            }
        }
        Ok(())
    }

    /// The number of claims.
    pub fn total_claims(&self) -> (r: usize)
        requires
            total_claims(self.claims()) <= usize::MAX,
        ensures
            r == total_claims(self.claims()),
    {
        count_claims(&self.per_poly_claims)
    }

    /// The number of variables that choose the polynomial.
    pub fn log_num_polys(&self) -> (r: usize)
        requires
            is_pow2(self.num_polys as nat),
        ensures
            r == ceil_log2_spec(self.num_polys as nat),
    {
        ceil_log2(self.num_polys) as usize
    }

    /// The number of variables of every polynomial.
    pub fn log_length(&self) -> (r: usize)
        requires
            is_pow2(self.length as nat),
        ensures
            r == ceil_log2_spec(self.length as nat),
    {
        ceil_log2(self.length) as usize
    }

    /// The number of variables of the whole bundle.
    pub fn domain_bits(&self) -> (r: usize)
        requires
            is_pow2(self.num_polys as nat),
            is_pow2(self.length as nat),
        ensures
            r == ceil_log2_spec(self.num_polys as nat) + ceil_log2_spec(self.length as nat),
    {
        proof {
            crate::arith::lemma_exponent_small(self.num_polys);
            crate::arith::lemma_exponent_small(self.length);
        }
        ceil_log2(self.num_polys) as usize + ceil_log2(self.length) as usize
    }

    /// The combined value of the claims.
    pub fn initial_sum(&self, batching_challenge: Field64) -> (r: Field64)
        requires
            total_claims(self.claims()) <= usize::MAX,
        ensures
            r@ == bundle_sum(self.claims(), batching_challenge@),
            r@ == dot_spec(
                claim_values(self.claims()),
                geometric(1, batching_challenge@, claim_values(self.claims()).len()),
            ),
    {
        let ghost cs = self.claims();
        proof {
            law_bundle_sum_is_combination(cs, batching_challenge@);
        }
        let total: usize = self.total_claims();
        let weights: Vec<Field64> = geometric_sequence(Field64::one(), batching_challenge, total);
        assert(weights@.len() == vals(weights@).len());
        let mut idx: usize = 0;
        let mut s: Field64 = Field64::zero();
        for k in 0..self.per_poly_claims.len()
            invariant
                cs == self.claims(),
                total == total_claims(cs),
                weights@.len() == total,
                vals(weights@) == geometric(1, batching_challenge@, total as nat),
                idx == claims_before(cs, k as nat),
                s@ == sum_upto(cs, batching_challenge@, k as nat, 0),
        {
            let claims: &Vec<BundleClaim<'a>> = &self.per_poly_claims[k];
            proof {
                lemma_claims_before(cs, (k + 1) as nat, cs.len());
                assert(cs[k as int].len() == claims@.len());
            }
            for j in 0..claims.len()
                invariant
                    cs == self.claims(),
                    k < self.per_poly_claims@.len(),
                    *claims == self.per_poly_claims@[k as int],
                    cs[k as int].len() == claims@.len(),
                    total == total_claims(cs),
                    claims_before(cs, k as nat) + claims@.len() <= total,
                    weights@.len() == total,
                    vals(weights@) == geometric(1, batching_challenge@, total as nat),
                    idx == claims_before(cs, k as nat) + j,
                    s@ == sum_upto(cs, batching_challenge@, k as nat, j as nat),
            {
                assert(vals(weights@)[idx as int] == weights@[idx as int]@);
                assert(cs[k as int][j as int] == claims@[j as int]@);
                s = s.add(weights[idx].mul(claims[j].value));
                idx = idx + 1;
            }
        }
        s
    }

    /// The combined value at a point of the forms.
    pub fn form_sum(&self, batching_challenge: Field64, point: &[Field64]) -> (r: Field64)
        requires
            self.valid(),
            self.usable(),
            point@.len() == ceil_log2_spec(self.num_polys as nat) + ceil_log2_spec(self.length as nat),
        ensures
            ({
                let log_n = ceil_log2_spec(self.num_polys as nat) as int;
                r@ == bundle_forms(
                    self.claims(),
                    batching_challenge@,
                    vals(point@).take(log_n),
                    vals(point@).skip(log_n),
                )
            }),
            ({
                let log_n = ceil_log2_spec(self.num_polys as nat) as int;
                let at = form_values(
                    self.claims(),
                    vals(point@).take(log_n),
                    vals(point@).skip(log_n),
                ).flatten();
                r@ == dot_spec(at, geometric(1, batching_challenge@, at.len()))
            }),
    {
        let ghost cs = self.claims();
        let log_n: usize = self.log_num_polys();
        let len: usize = point.len();
        let high: &[Field64] = vstd::slice::slice_subrange(point, 0, log_n);
        let low: &[Field64] = vstd::slice::slice_subrange(point, log_n, len);
        let ghost hi = vals(point@).take(log_n as int);
        let ghost lo = vals(point@).skip(log_n as int);
        proof {
            assert(vals(high@) =~= hi);
            assert(vals(low@) =~= lo);
            crate::arith::lemma_ceil_log2_pow2(log_n as nat);
            assert(all_canonical(hi)) by {
                lemma_vals_canonical(high@);
            }
            crate::vector_laws::lemma_eq_table_len(hi);
            law_bundle_forms_are_combination(cs, batching_challenge@, hi, lo);
        }
        let eq_high: Vec<Field64> = eq_weights(high);
        let total: usize = self.total_claims();
        let weights: Vec<Field64> = geometric_sequence(Field64::one(), batching_challenge, total);
        proof {
            assert(weights@.len() == vals(weights@).len());
            assert(eq_high@.len() == vals(eq_high@).len());
        }
        let mut idx: usize = 0;
        let mut sum: Field64 = Field64::zero();
        for k in 0..self.per_poly_claims.len()
            invariant
                self.valid(),
                self.usable(),
                cs == self.claims(),
                total == total_claims(cs),
                weights@.len() == total,
                vals(weights@) == geometric(1, batching_challenge@, total as nat),
                vals(eq_high@) == eq_table(hi),
                eq_high@.len() == self.num_polys,
                vals(low@) == lo,
                low@.len() == ceil_log2_spec(self.length as nat),
                idx == claims_before(cs, k as nat),
                sum@ == forms_upto(cs, batching_challenge@, hi, lo, k as nat, 0),
        {
            let claims: &Vec<BundleClaim<'a>> = &self.per_poly_claims[k];
            proof {
                lemma_claims_before(cs, (k + 1) as nat, cs.len());
                assert(cs[k as int].len() == claims@.len());
                assert(vals(eq_high@)[k as int] == eq_high@[k as int]@);
            }
            for j in 0..claims.len()
                invariant
                    self.valid(),
                    self.usable(),
                    cs == self.claims(),
                    k < self.per_poly_claims@.len(),
                    *claims == self.per_poly_claims@[k as int],
                    cs[k as int].len() == claims@.len(),
                    total == total_claims(cs),
                    claims_before(cs, k as nat) + claims@.len() <= total,
                    weights@.len() == total,
                    vals(weights@) == geometric(1, batching_challenge@, total as nat),
                    eq_high@.len() == self.num_polys,
                    eq_high@[k as int]@ == eq_table(hi)[k as int],
                    vals(low@) == lo,
                    low@.len() == ceil_log2_spec(self.length as nat),
                    idx == claims_before(cs, k as nat) + j,
                    sum@ == forms_upto(cs, batching_challenge@, hi, lo, k as nat, j as nat),
            {
                assert(vals(weights@)[idx as int] == weights@[idx as int]@);
                assert(cs[k as int][j as int] == claims@[j as int]@);
                assert(self.per_poly_claims@[k as int]@[j as int].form.wf());
                assert(self.per_poly_claims@[k as int]@[j as int].form.covector().len()
                    == self.length);
                let value: Field64 = claims[j].form.mle_evaluate(low);
                sum = sum.add(weights[idx].mul(eq_high[k]).mul(value));
                idx = idx + 1;
            }
        }
        sum
    }
}

impl<'a> WitnessBundle<'a> {
    /// The claims.
    pub open spec fn claims(&self) -> Seq<Seq<ClaimView>> {
        claims_of(self.per_poly_claims@)
    }

    /// The polynomials.
    pub open spec fn values(&self) -> Seq<Seq<int>> {
        polys_of(self.polys@)
    }

    /// The length of the first polynomial; zero if there is none.
    pub open spec fn spec_poly_len(&self) -> nat {
        if self.polys@.len() == 0 {
            0
        } else {
            self.polys@[0]@.len()
        }
    }

    /// Is there a list of claims for every polynomial, and have all polynomials and
    /// forms one length?
    pub open spec fn well_formed(&self) -> bool {
        &&& self.polys@.len() == self.per_poly_claims@.len()
        &&& forall|k: int|
            0 <= k < self.polys@.len() ==> (#[trigger] self.polys@[k])@.len() == self.spec_poly_len()
        &&& forms_sized(self.per_poly_claims@, self.spec_poly_len())
        &&& forms_wf(self.per_poly_claims@)
        &&& self.polys@.len() * self.spec_poly_len() <= usize::MAX
        &&& total_claims(self.claims()) <= usize::MAX
    }

    /// Have all polynomials and all forms one length, and is there a list of claims for
    /// every polynomial?
    pub fn is_well_formed(&self) -> (r: bool)
        requires
            forms_wf(self.per_poly_claims@),
            self.polys@.len() * self.spec_poly_len() <= usize::MAX,
            total_claims(self.claims()) <= usize::MAX,
        ensures
            r == self.well_formed(),
    {
        let n: usize = self.polys.len();
        if n != self.per_poly_claims.len() {
            return false;
        }
        let m: usize = self.poly_len();
        for k in 0..n
            invariant
                n == self.polys@.len(),
                n == self.per_poly_claims@.len(),
                m == self.spec_poly_len(),
                forms_wf(self.per_poly_claims@),
                forall|i: int| 0 <= i < k ==> (#[trigger] self.polys@[i])@.len() == m,
                forall|i: int, j: int|
                    0 <= i < k && 0 <= j < self.per_poly_claims@[i]@.len() ==> (
                    #[trigger] self.per_poly_claims@[i]@[j]).form.covector().len() == m,
        {
            if self.polys[k].len() != m {
                assert(self.polys@[k as int]@.len() != self.spec_poly_len());
                return false;
            }
            let claims: &Vec<BundleClaim<'a>> = &self.per_poly_claims[k];
            for c in 0..claims.len()
                invariant
                    k < n,
                    n == self.per_poly_claims@.len(),
                    m == self.spec_poly_len(),
                    *claims == self.per_poly_claims@[k as int],
                    forms_wf(self.per_poly_claims@),
                    forall|i: int, j: int|
                        0 <= i < k && 0 <= j < self.per_poly_claims@[i]@.len() ==> (
                        #[trigger] self.per_poly_claims@[i]@[j]).form.covector().len() == m,
                    forall|j: int|
                        0 <= j < c ==> (
                        #[trigger] self.per_poly_claims@[k as int]@[j]).form.covector().len() == m,
            {
                assert(self.per_poly_claims@[k as int]@[c as int].form.wf());
                if claims[c].form.size() != m {
                    assert(self.per_poly_claims@[k as int]@[c as int].form.covector().len() != m);
                    return false;
                }
            }
        }
        true
    }

    /// The number of polynomials.
    pub fn num_polys(&self) -> (r: usize)
        ensures
            r == self.polys@.len(),
    {
        self.polys.len()
    }

    /// The length of the polynomials; zero if there is none.
    pub fn poly_len(&self) -> (r: usize)
        ensures
            r == self.spec_poly_len(),
    {
        if self.polys.len() == 0 {
            0
        } else {
            self.polys[0].len()
        }
    }

    /// The number of claims.
    pub fn total_claims(&self) -> (r: usize)
        requires
            total_claims(self.claims()) <= usize::MAX,
        ensures
            r == total_claims(self.claims()),
    {
        count_claims(&self.per_poly_claims)
    }
}

/// The bundle's polynomials one after the other: the high bits of an index choose the
/// polynomial.
pub fn flatten_polys(bundle: &WitnessBundle<'_>) -> (r: Vec<Field64>)
    ensures
        vals(r@) == flat_polys(bundle.values(), bundle.polys@.len()),
{
    let ghost ps = bundle.values();
    let mut out: Vec<Field64> = Vec::new();
    assert(vals(out@) =~= Seq::<int>::empty());
    for k in 0..bundle.polys.len()
        invariant
            ps == bundle.values(),
            vals(out@) == flat_polys(ps, k as nat),
    {
        let p: &[Field64] = bundle.polys[k];
        let ghost before = out@;
        for i in 0..p.len()
            invariant
                out@ =~= before + p@.take(i as int),
        {
            out.push(p[i]);
        }
        proof {
            assert(p@.take(p@.len() as int) =~= p@);
            assert(ps[k as int] == vals(p@));
            assert(vals(out@) =~= vals(before) + vals(p@));
        }
    }
    out
}

/// Combine the claims of a bundle into one, by the powers of a challenge.
pub fn build_bundle_claim(bundle: &WitnessBundle<'_>, batching_challenge: Field64) -> (r:
    BundleClaimMaterial)
    requires
        bundle.well_formed(),
    ensures
        vals(r.covector@) == bundle_covector(
            bundle.claims(),
            batching_challenge@,
            bundle.spec_poly_len(),
        ),
        r.covector@.len() == bundle.polys@.len() * bundle.spec_poly_len(),
        r.sum@ == bundle_sum(bundle.claims(), batching_challenge@),
        r.sum@ == dot_spec(claim_values(bundle.claims()), vals(r.claim_weights@)),
        r.claim_weights@.len() == claim_values(bundle.claims()).len(),
        vals(r.claim_weights@) == geometric(1, batching_challenge@, total_claims(bundle.claims())),
{
    let ghost cs = bundle.claims();
    proof {
        law_bundle_sum_is_combination(cs, batching_challenge@);
    }
    let n: usize = bundle.num_polys();
    let m: usize = bundle.poly_len();
    let total: usize = bundle.total_claims();
    let weights: Vec<Field64> = geometric_sequence(Field64::one(), batching_challenge, total);
    assert(weights@.len() == vals(weights@).len());
    let mut covector: Vec<Field64> = zeros(n * m);
    let mut sum: Field64 = Field64::zero();
    let mut idx: usize = 0;
    for k in 0..n
        invariant
            bundle.well_formed(),
            cs == bundle.claims(),
            n == bundle.polys@.len(),
            m == bundle.spec_poly_len(),
            total == total_claims(cs),
            weights@.len() == total,
            vals(weights@) == geometric(1, batching_challenge@, total as nat),
            idx == claims_before(cs, k as nat),
            covector@.len() == n * m,
            vals(covector@) == covector_upto(cs, batching_challenge@, m as nat, k as nat, 0),
            sum@ == sum_upto(cs, batching_challenge@, k as nat, 0),
    {
        let claims: &Vec<BundleClaim<'_>> = &bundle.per_poly_claims[k];
        proof {
            lemma_claims_before(cs, (k + 1) as nat, cs.len());
            assert(cs[k as int].len() == claims@.len());
            assert(k * m + m <= n * m) by (nonlinear_arith)
                requires
                    k < n,
                    m >= 0,
            ;
            assert(k * m >= 0) by (nonlinear_arith)
                requires
                    k >= 0,
                    m >= 0,
            ;
        }
        let offset: usize = k * m;
        for j in 0..claims.len()
            invariant
                bundle.well_formed(),
                cs == bundle.claims(),
                n == bundle.polys@.len(),
                m == bundle.spec_poly_len(),
                k < n,
                offset == k * m,
                offset + m <= n * m,
                *claims == bundle.per_poly_claims@[k as int],
                cs[k as int].len() == claims@.len(),
                total == total_claims(cs),
                claims_before(cs, k as nat) + claims@.len() <= total,
                weights@.len() == total,
                vals(weights@) == geometric(1, batching_challenge@, total as nat),
                idx == claims_before(cs, k as nat) + j,
                covector@.len() == n * m,
                vals(covector@) == covector_upto(cs, batching_challenge@, m as nat, k as nat, j as nat),
                sum@ == sum_upto(cs, batching_challenge@, k as nat, j as nat),
        {
            assert(vals(weights@)[idx as int] == weights@[idx as int]@);
            assert(cs[k as int][j as int] == claims@[j as int]@);
            assert(bundle.per_poly_claims@[k as int]@[j as int].form.wf());
            assert(bundle.per_poly_claims@[k as int]@[j as int].form.covector().len() == m);
            let weight: Field64 = weights[idx];
            claims[j].form.accumulate(&mut covector, offset, weight);
            sum = sum.add(weight.mul(claims[j].value));
            idx = idx + 1;
        }
    }
    BundleClaimMaterial { covector, sum, claim_weights: weights }
}

} // verus!
