//! The claims of a bundle are combined by the powers of one challenge, in order: claim
//! after claim, polynomial after polynomial.

use crate::algebra::{dot_spec, dot_terms, eq_table, geometric, mle};
use crate::field::{all_canonical, canonical, fmul, lemma_fmul_comm, lemma_residue_canonical};
use crate::polynomial_laws::{all_different, law_combination_tells_apart};
use crate::sums::lemma_fsum_eq;
use crate::zook::batched::bundle::{
    bundle_covector, bundle_forms, bundle_sum, claim_weight, claims_before, flat_polys, forms_upto,
    sum_upto, total_claims, ClaimView,
};
use crate::zook::batched::bundle_laws::{claims_hold, claims_wf, law_bundle_claim_holds};
use vstd::prelude::*;

verus! {

/// The values of all claims, in order.
pub open spec fn claim_values(claims: Seq<Seq<ClaimView>>) -> Seq<int> {
    values_of(claims).flatten()
}

/// The values of the claims about every polynomial.
pub open spec fn values_of(claims: Seq<Seq<ClaimView>>) -> Seq<Seq<int>> {
    Seq::new(claims.len(), |k: int| Seq::new(claims[k].len(), |j: int| claims[k][j].value))
}

/// The values at a point of the forms about every polynomial, times the polynomial's
/// weight there.
pub open spec fn form_values(claims: Seq<Seq<ClaimView>>, high: Seq<int>, low: Seq<int>) -> Seq<
    Seq<int>,
> {
    Seq::new(
        claims.len(),
        |k: int|
            Seq::new(
                claims[k].len(),
                |j: int| fmul(eq_table(high)[k], mle(claims[k][j].covector, low)),
            ),
    )
}

/// The entries of the first `k` lists, and the first `j` of the next.
spec fn listed(lists: Seq<Seq<int>>, k: nat, j: nat) -> Seq<int> {
    if j > 0 {
        lists.take(k as int).flatten() + lists[k as int].take(j as int)
    } else {
        lists.take(k as int).flatten()
    }
}

proof fn lemma_listed(lists: Seq<Seq<int>>, k: nat, j: nat)
    requires
        k <= lists.len(),
        k < lists.len() ==> j <= lists[k as int].len(),
        k == lists.len() ==> j == 0,
    ensures
        j > 0 ==> listed(lists, k, j) == listed(lists, k, (j - 1) as nat).push(
            lists[k as int][j - 1],
        ),
        j == 0 && k > 0 ==> listed(lists, k, j) == listed(
            lists,
            (k - 1) as nat,
            lists[k - 1].len(),
        ),
        k == 0 && j == 0 ==> listed(lists, k, j) == Seq::<int>::empty(),
{
    if j > 0 {
        assert(listed(lists, k, j) =~= listed(lists, k, (j - 1) as nat).push(
            lists[k as int][j - 1],
        ));
    } else if k > 0 {
        let a = lists.take(k as int);
        let b = lists.take(k - 1);
        a.lemma_flatten_and_flatten_alt_are_equivalent();
        b.lemma_flatten_and_flatten_alt_are_equivalent();
        assert(a.drop_last() =~= b);
        assert(a.last() == lists[k - 1]);
        assert(a.flatten_alt() == b.flatten_alt() + lists[k - 1]);
        assert(lists[k - 1].take(lists[k - 1].len() as int) =~= lists[k - 1]);
        assert(listed(lists, k, j) =~= listed(lists, (k - 1) as nat, lists[k - 1].len()));
    } else {
        assert(lists.take(0) =~= Seq::<Seq<int>>::empty());
    }
}

/// One more entry adds one more term.
proof fn lemma_dot_push(a: Seq<int>, x: int, w: Seq<int>)
    ensures
        dot_spec(a.push(x), w) == crate::field::fadd(dot_spec(a, w), fmul(x, w[a.len() as int])),
{
    let b = a.push(x);
    assert forall|i: int| 0 <= i < a.len() implies #[trigger] dot_terms(b, w)(i) == dot_terms(a, w)(i) by {}
    lemma_fsum_eq(dot_terms(b, w), dot_terms(a, w), a.len());
}

proof fn lemma_sum_upto(claims: Seq<Seq<ClaimView>>, batching: int, n: nat, k: nat, j: nat)
    requires
        k <= claims.len(),
        k < claims.len() ==> j <= claims[k as int].len(),
        k == claims.len() ==> j == 0,
        claims_before(claims, k) + j <= n,
    ensures
        listed(values_of(claims), k, j).len() == claims_before(claims, k) + j,
        sum_upto(claims, batching, k, j) == dot_spec(
            listed(values_of(claims), k, j),
            geometric(1, batching, n),
        ),
    decreases k, j,
{
    let lists = values_of(claims);
    let w = geometric(1, batching, n);
    lemma_listed(lists, k, j);
    if j > 0 {
        let i = (j - 1) as nat;
        lemma_sum_upto(claims, batching, n, k, i);
        let x = claims[k as int][i as int].value;
        let idx = (claims_before(claims, k) + i) as nat;
        lemma_dot_push(listed(lists, k, i), x, w);
        lemma_fmul_comm(claim_weight(batching, idx), x);
    } else if k > 0 {
        lemma_sum_upto(claims, batching, n, (k - 1) as nat, claims[k - 1].len());
    }
}

/// The combined value of a bundle's claims is the inner product of their values, in order,
/// with the powers of the challenge.
pub proof fn law_bundle_sum_is_combination(claims: Seq<Seq<ClaimView>>, batching: int)
    ensures
        claim_values(claims).len() == total_claims(claims),
        bundle_sum(claims, batching) == dot_spec(
            claim_values(claims),
            geometric(1, batching, claim_values(claims).len()),
        ),
{
    let n = claims.len();
    lemma_sum_upto(claims, batching, total_claims(claims), n, 0);
    assert(values_of(claims).take(n as int) =~= values_of(claims));
}

proof fn lemma_forms_listed(
    claims: Seq<Seq<ClaimView>>,
    batching: int,
    high: Seq<int>,
    low: Seq<int>,
    n: nat,
    k: nat,
    j: nat,
)
    requires
        k <= claims.len(),
        k < claims.len() ==> j <= claims[k as int].len(),
        k == claims.len() ==> j == 0,
        claims_before(claims, k) + j <= n,
        claims.len() <= eq_table(high).len(),
        all_canonical(high),
    ensures
        listed(form_values(claims, high, low), k, j).len() == claims_before(claims, k) + j,
        forms_upto(claims, batching, high, low, k, j) == dot_spec(
            listed(form_values(claims, high, low), k, j),
            geometric(1, batching, n),
        ),
    decreases k, j,
{
    broadcast use {lemma_residue_canonical, crate::sums::lemma_fsum_canonical};

    let lists = form_values(claims, high, low);
    let w = geometric(1, batching, n);
    lemma_listed(lists, k, j);
    if j > 0 {
        let i = (j - 1) as nat;
        lemma_forms_listed(claims, batching, high, low, n, k, i);
        let e = eq_table(high)[k as int];
        let x = mle(claims[k as int][i as int].covector, low);
        let idx = (claims_before(claims, k) + i) as nat;
        let c = claim_weight(batching, idx);
        crate::vector_laws::lemma_eq_table_len(high);
        assert(canonical(e));
        lemma_dot_push(listed(lists, k, i), fmul(e, x), w);
        crate::field::lemma_fmul_assoc(c, e, x);
        lemma_fmul_comm(c, fmul(e, x));
    } else if k > 0 {
        lemma_forms_listed(claims, batching, high, low, n, (k - 1) as nat, claims[k - 1].len());
    }
}

/// The combined value at a point of a bundle's forms is the inner product of the forms'
/// values there, each times the weight of its polynomial, with the powers of the challenge.
pub proof fn law_bundle_forms_are_combination(
    claims: Seq<Seq<ClaimView>>,
    batching: int,
    high: Seq<int>,
    low: Seq<int>,
)
    requires
        claims.len() <= eq_table(high).len(),
        all_canonical(high),
    ensures
        bundle_forms(claims, batching, high, low) == dot_spec(
            form_values(claims, high, low).flatten(),
            geometric(1, batching, form_values(claims, high, low).flatten().len()),
        ),
        form_values(claims, high, low).flatten().len() == total_claims(claims),
{
    let n = claims.len();
    lemma_forms_listed(claims, batching, high, low, total_claims(claims), n, 0);
    assert(form_values(claims, high, low).take(n as int) =~= form_values(claims, high, low));
}

/// The inner product of a bundle's polynomials with its combined covector combines what
/// the forms give of the polynomials, by the powers of the challenge.
pub proof fn law_bundle_covector_is_combination(
    claims: Seq<Seq<ClaimView>>,
    polys: Seq<Seq<int>>,
    batching: int,
    len: nat,
)
    requires
        polys.len() == claims.len(),
        forall|i: int|
            0 <= i < polys.len() ==> (#[trigger] polys[i]).len() == len && all_canonical(polys[i]),
        claims_wf(claims, len),
        claims_hold(claims, polys),
    ensures
        dot_spec(flat_polys(polys, polys.len()), bundle_covector(claims, batching, len)) == dot_spec(
            claim_values(claims),
            geometric(1, batching, claim_values(claims).len()),
        ),
{
    law_bundle_claim_holds(claims, polys, batching, len);
    law_bundle_sum_is_combination(claims, batching);
}

/// The claims of two bundles can be told apart: where the combined values of `n` claims
/// agree for `n` different challenges, all claimed values do.
pub proof fn law_bundle_claims_are_bound(
    a: Seq<Seq<ClaimView>>,
    b: Seq<Seq<ClaimView>>,
    challenges: Seq<int>,
)
    requires
        total_claims(a) == total_claims(b),
        all_canonical(claim_values(a)),
        all_canonical(claim_values(b)),
        all_different(challenges),
        challenges.len() >= total_claims(a),
        forall|i: int|
            0 <= i < challenges.len() ==> bundle_sum(a, #[trigger] challenges[i]) == bundle_sum(
                b,
                challenges[i],
            ),
    ensures
        claim_values(a) == claim_values(b),
{
    assert forall|i: int| 0 <= i < challenges.len() implies dot_spec(
        claim_values(a),
        geometric(1, #[trigger] challenges[i], claim_values(a).len()),
    ) == dot_spec(claim_values(b), geometric(1, challenges[i], claim_values(a).len())) by {
        law_bundle_sum_is_combination(a, challenges[i]);
        law_bundle_sum_is_combination(b, challenges[i]);
    }
    law_bundle_sum_is_combination(a, 0);
    law_bundle_sum_is_combination(b, 0);
    law_combination_tells_apart(claim_values(a), claim_values(b), challenges);
}

} // verus!
