//! The end of a batched verification: the bundles' forms at their points.

use crate::algebra::{dot_spec, dot_terms};
use crate::arith::ceil_log2_spec;
use crate::field::{fmul, Field64};
use crate::sums::{fsum, lemma_fsum_eq};
use crate::transcript::VerificationError;
use crate::zook::batched::bundle::{bundle_forms, BundleDescriptor, ClaimView};
use crate::zook::final_claim::{group_views, ClaimGroup, FinalClaim, GroupView};
use vstd::prelude::*;

verus! {

/// A bundle as the end of a verification sees it.
pub struct BundleEnd {
    pub claims: Seq<Seq<ClaimView>>,
    pub log_polys: nat,
    pub log_length: nat,
}

/// A bundle as the end of a verification sees it.
pub open spec fn end_of(bundle: &BundleDescriptor<'_>) -> BundleEnd {
    BundleEnd {
        claims: bundle.claims(),
        log_polys: ceil_log2_spec(bundle.num_polys as nat),
        log_length: ceil_log2_spec(bundle.length as nat),
    }
}

/// Bundles as the end of a verification sees them.
pub open spec fn ends_of(bundles: Seq<&BundleDescriptor<'_>>) -> Seq<BundleEnd> {
    Seq::new(bundles.len(), |i: int| end_of(bundles[i]))
}

/// Every group's scaled value: the first variables of its point choose the
/// polynomial, the others go into the forms.
pub open spec fn group_terms(groups: Seq<GroupView>, ends: Seq<BundleEnd>) -> spec_fn(int) -> int {
    |i: int|
        fmul(
            groups[i].scale,
            bundle_forms(
                ends[i].claims,
                groups[i].batching,
                groups[i].point.take(ends[i].log_polys as int),
                groups[i].point.skip(ends[i].log_polys as int),
            ),
        )
}

/// Does every group belong to a bundle, and do the groups' values add up to the
/// contribution?
pub open spec fn groups_add_up(groups: Seq<GroupView>, ends: Seq<BundleEnd>, contribution: int) -> bool {
    &&& groups.len() == ends.len()
    &&& forall|i: int|
        0 <= i < groups.len() ==> (#[trigger] groups[i]).point.len() == ends[i].log_polys
            + ends[i].log_length
    &&& fsum(group_terms(groups, ends), groups.len()) == contribution
}

/// Groups add up exactly if there is one per bundle, of the bundle's number of variables,
/// and the contribution is the inner product of the groups' scales with what their
/// bundles' forms give: every group counts.
pub proof fn law_every_group_counts(groups: Seq<GroupView>, ends: Seq<BundleEnd>, contribution: int)
    ensures
        groups_add_up(groups, ends, contribution) <==> {
            &&& groups.len() == ends.len()
            &&& forall|i: int|
                0 <= i < groups.len() ==> (#[trigger] groups[i]).point.len() == ends[i].log_polys
                    + ends[i].log_length
            &&& contribution == dot_spec(
                Seq::new(groups.len(), |i: int| groups[i].scale),
                Seq::new(
                    groups.len(),
                    |i: int|
                        bundle_forms(
                            ends[i].claims,
                            groups[i].batching,
                            groups[i].point.take(ends[i].log_polys as int),
                            groups[i].point.skip(ends[i].log_polys as int),
                        ),
                ),
            )
        },
{
    let scales = Seq::new(groups.len(), |i: int| groups[i].scale);
    let values = Seq::new(
        groups.len(),
        |i: int|
            bundle_forms(
                ends[i].claims,
                groups[i].batching,
                groups[i].point.take(ends[i].log_polys as int),
                groups[i].point.skip(ends[i].log_polys as int),
            ),
    );
    lemma_fsum_eq(group_terms(groups, ends), dot_terms(scales, values), groups.len());
}

impl FinalClaim {
    /// Batched terminator: do the bundles' forms, each at its group's point and scaled,
    /// give the contribution?
    pub fn verify_bundles(&self, bundles: &[&BundleDescriptor<'_>]) -> (r: Result<
        (),
        VerificationError,
    >)
        requires
            forall|i: int| 0 <= i < bundles@.len() ==> (#[trigger] bundles@[i]).usable(),
        ensures
            r is Ok <==> {
                &&& forall|i: int| 0 <= i < bundles@.len() ==> (#[trigger] bundles@[i]).valid()
                &&& groups_add_up(
                    group_views(self.groups@),
                    ends_of(bundles@),
                    self.linear_forms_contribution@,
                )
            },
    {
        let ghost gs = group_views(self.groups@);
        let ghost es = ends_of(bundles@);
        let n: usize = self.groups.len();
        if n != bundles.len() {
            return Err(VerificationError);
        }
        let mut accumulated: Field64 = Field64::zero();
        for i in 0..n
            invariant
                n == self.groups@.len(),
                n == bundles@.len(),
                gs == group_views(self.groups@),
                es == ends_of(bundles@),
                forall|c: int| 0 <= c < bundles@.len() ==> (#[trigger] bundles@[c]).usable(),
                forall|c: int| 0 <= c < i ==> (#[trigger] bundles@[c]).valid(),
                forall|c: int|
                    0 <= c < i ==> (#[trigger] gs[c]).point.len() == es[c].log_polys + es[c].log_length,
                accumulated@ == fsum(group_terms(gs, es), i as nat),
        {
            let bundle: &BundleDescriptor<'_> = bundles[i];
            let group: &ClaimGroup = &self.groups[i];
            assert(bundles@[i as int].usable());
            match bundle.validate() {
                Ok(()) => {},
                Err(e) => {
                    assert(!bundles@[i as int].valid());
                    return Err(e);
                },
            }
            proof {
                assert(gs[i as int] == group@);
                assert(group@.point.len() == group.evaluation_point@.len());
            }
            if group.evaluation_point.len() != bundle.domain_bits() {
                assert(gs[i as int].point.len() != es[i as int].log_polys + es[i as int].log_length);
                return Err(VerificationError);
            }
            let value: Field64 = bundle.form_sum(
                group.batching_challenge,
                group.evaluation_point.as_slice(),
            );
            accumulated = accumulated.add(group.initial_claim_scale.mul(value));
        }
        if accumulated == self.linear_forms_contribution {
            Ok(())
        } else {
            Err(VerificationError)
        }
    }
}

} // verus!
