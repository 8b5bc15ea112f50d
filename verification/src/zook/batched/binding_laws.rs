//! What the merge of bundles and the verification of a batch are bound to, whoever sends
//! the messages.

use crate::algebra::{dot_spec, eq_table};
use crate::arith::is_pow2;
use crate::linear_form::eq_product;
use crate::matrix_commit::Digest;
use crate::params::batched::config::{BatchedFloors, BatchedProtocolConfig};
use crate::params::batched::level_laws::law_accepted_claims_are_secure;
use crate::soundness_laws::{law_sumcheck_binds, none_zero};
use crate::sums::lemma_fsum_canonical;
use crate::transcript::{challenges, VerifierView};
use crate::zook::batched::bundle::{bundle_sum, total_claims, BundleDescriptor, ClaimView};
use crate::zook::batched::commit::BundleCommitment;
use crate::zook::batched::selector::merge;
use crate::zook::batched::verify::{descriptor_counts, intro_checks, merge_verified};
use crate::zook::block::CheckBlock;
use vstd::prelude::*;

verus! {

/// What a merge of several blocks shows: as many challenges as there are selector
/// variables are drawn first; the sumcheck starts from the blocks' sums, weighted by
/// them; and the blocks' weights after it are those of the challenges that it ends with.
pub proof fn law_merge_shows(cfg: &merge::Config, sums: Seq<int>, v: VerifierView)
    requires
        cfg.wf(),
        cfg.t > 1,
    ensures
        cfg.merge_checked(sums, v) matches Some(m) ==> ({
            let n = cfg.selector.selector_dim as nat;
            let drawn = challenges(v.sponge, n);
            let summed = cfg.selector.sumcheck.checked(
                dot_spec(sums, eq_table(drawn)),
                v.draw_many(n),
            );
            let end = summed.unwrap().0;
            &&& summed is Some
            &&& m.sum == end.sum
            &&& m.delta == end.points
            &&& m.view == end.view
            &&& m.theta == eq_table(end.points).take(cfg.t as int)
            &&& m.eta == eq_product(end.points, drawn)
        }),
{
}

/// A merge binds the weighted sum of its blocks: with the same messages, verifiers of
/// different sums accept alike and give the blocks the same weights; and if they are left
/// with the same sum, the blocks' sums, weighted by the challenges drawn first, are equal,
/// unless a challenge of the sumcheck was zero.
pub proof fn law_merge_binds(cfg: &merge::Config, s: Seq<int>, t: Seq<int>, v: VerifierView)
    requires
        cfg.wf(),
        cfg.t > 1,
    ensures
        cfg.merge_checked(s, v) is Some == cfg.merge_checked(t, v) is Some,
        cfg.merge_checked(s, v) matches Some(x) ==> {
            let y = cfg.merge_checked(t, v).unwrap();
            let weights = eq_table(challenges(v.sponge, cfg.selector.selector_dim as nat));
            &&& x.delta == y.delta
            &&& x.eta == y.eta
            &&& x.theta == y.theta
            &&& x.view == y.view
            &&& none_zero(x.delta) && x.sum == y.sum ==> dot_spec(s, weights) == dot_spec(t, weights)
        },
{
    broadcast use lemma_fsum_canonical;

    let n = cfg.selector.selector_dim as nat;
    let weights = eq_table(challenges(v.sponge, n));
    law_sumcheck_binds(
        &cfg.selector.sumcheck,
        dot_spec(s, weights),
        dot_spec(t, weights),
        v.draw_many(n),
    );
}

/// A single block is merged by nothing: it stays as it is, and nothing is read.
pub proof fn law_single_block_stays(cfg: merge::Config, block: CheckBlock, v: VerifierView)
    ensures
        merge_verified(cfg, seq![block], v) == Some((block, seq![1int], 1int, v)),
{
}

/// The verifier of a batch starts every bundle from its claims, combined by the bundle's
/// own challenge, and leaves a group per bundle that is to be batched by that challenge.
pub proof fn law_batch_uses_own_challenges(
    cfg: &BatchedProtocolConfig,
    roots: Seq<Digest>,
    claims: Seq<Seq<Seq<ClaimView>>>,
    batchings: Seq<int>,
    v: VerifierView,
)
    ensures
        cfg.batch_verified(roots, claims, batchings, v) matches Some(o) ==> {
            &&& o.groups.len() == roots.len()
            &&& forall|b: int|
                0 <= b < roots.len() ==> (#[trigger] o.groups[b]).batching == batchings[b]
        },
        forall|b: int|
            0 <= b < roots.len() ==> {
                let block = #[trigger] intro_checks(roots, claims, batchings)[b];
                &&& block.sum == bundle_sum(claims[b], batchings[b])
                &&& block.roots == seq![roots[b]]
                &&& block.theta == seq![1int]
            },
{
}

/// A bundle is valid exactly if both sizes are powers of two, there is a list of claims for
/// every polynomial, and every form of every list is about vectors of the length.
pub proof fn law_valid_bundle(bundle: &BundleDescriptor<'_>)
    ensures
        bundle.valid() <==> {
            &&& is_pow2(bundle.num_polys as nat)
            &&& is_pow2(bundle.length as nat)
            &&& bundle.claims().len() == bundle.num_polys
            &&& forall|k: int, j: int|
                0 <= k < bundle.claims().len() && 0 <= j < bundle.claims()[k].len() ==> (
                #[trigger] bundle.claims()[k][j]).covector.len() == bundle.length
        },
{
    let (own, claims) = (bundle.per_poly_claims@, bundle.claims());
    if bundle.valid() {
        assert forall|k: int, j: int|
            0 <= k < claims.len() && 0 <= j < claims[k].len() implies (
        #[trigger] claims[k][j]).covector.len() == bundle.length by {
            assert(own[k]@[j].form.covector().len() == bundle.length);
        }
    }
    if forall|k: int, j: int|
        0 <= k < claims.len() && 0 <= j < claims[k].len() ==> (
        #[trigger] claims[k][j]).covector.len() == bundle.length {
        assert forall|k: int, j: int| 0 <= k < own.len() && 0 <= j < own[k]@.len() implies (
        #[trigger] own[k]@[j]).form.covector().len() == bundle.length by {
            assert(claims[k][j].covector.len() == bundle.length);
        }
    }
}

/// Only inputs that fit the plan are looked at: as many commitments as bundles, and as
/// many as the plan has; every bundle valid and of the shape that was planned for it; and
/// the target reached for the number of claims that there are.
pub proof fn law_admitted_inputs_fit(
    cfg: &BatchedProtocolConfig,
    commitments: Seq<BundleCommitment>,
    bundles: Seq<&BundleDescriptor<'_>>,
    floors: BatchedFloors,
    b: int,
)
    requires
        cfg.admitted(commitments, bundles, floors),
        0 <= b < bundles.len(),
    ensures
        commitments.len() == bundles.len(),
        bundles.len() == cfg.bundle_configs@.len(),
        bundles[b].valid(),
        bundles[b].num_polys == cfg.bundle_configs@[b].spec.num_polys,
        bundles[b].length == cfg.bundle_configs@[b].spec.length,
        total_claims(bundles[b].claims()) as usize > 1 ==> floors.claims@[b].micro + 1_000
            >= 1_000_000 * cfg.inner.security.target_security_bits,
        cfg.inner.target_fault(floors.inner) is None,
{
    let counts = descriptor_counts(bundles);
    law_accepted_claims_are_secure(cfg, counts, floors);
    assert(bundles[b].valid());
    assert(counts[b] == total_claims(bundles[b].claims()) as usize);
}

} // verus!
