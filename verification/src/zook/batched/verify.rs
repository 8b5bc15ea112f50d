//! The batched verifier: the mirror of the prover on the receiving side.
//!
//! Constraints of the shared rounds are scaled by all later rounds and merges; those
//! of a bundle's own rounds by its later rounds, its weight in the merge it joins by,
//! and all that follows.

use crate::algebra::zeros_spec;
use crate::arith::ceil_log2_spec;
use crate::basecase;
use crate::code_switch::{concat, sub_vec};
use crate::field::{fadd, fmul, fsub, lemma_vals_push, vals, Field64};
use crate::irs_commit;
use crate::irs_commit::roots_of;
use crate::matrix_commit::Digest;
use crate::params::batched::config::{
    find_join, seen, BatchedFloors, BatchedProtocolConfig, RoundJoin,
};
use crate::params::batched::structure_laws::{
    joins_before, law_structure_accepted, lemma_joins_before,
};
use crate::params::config::RoundConfig;
use crate::sums::fsum;
use crate::transcript::{VerificationError, VerifierState, VerifierView};
use crate::zook::batched::bundle::{bundle_sum, total_claims, BundleDescriptor, ClaimView};
use crate::zook::batched::commit::BundleCommitment;
use crate::zook::batched::prove::{picked, with_carrier};
use crate::zook::batched::selector::merge;
use crate::zook::block::{CheckBlock, VerifierBlock};
use crate::zook::final_claim::{
    constraint_sum, constraint_terms, constraint_views, constraints_fit, group_views,
    push_constraints, round_constraints, scale_suffix, scale_suffixes, ClaimGroup, ConstraintView,
    FinalClaim, GroupView, ImplicitConstraint,
};
use crate::zook::prove::code_after;
use crate::zook::round::{verify_whir_round, VerifyRoundOutput};
use crate::zook::verify::{
    lemma_round_variables, rounds_checked, verify_rounds, walk_fits, RoundWalk, Walk,
};
use vstd::prelude::*;

verus! {

/// What the verifier has gathered after some shared rounds.
pub struct BatchWalk {
    pub carrier: Option<CheckBlock>,
    pub points: Seq<int>,
    /// How many challenges were drawn before every round, and in all.
    pub starts: Seq<usize>,
    pub scales: Seq<int>,
    /// By how much every merge scales the carrier.
    pub extras: Seq<int>,
    /// By how much every bundle is scaled in the merge it joins by.
    pub pre_scales: Seq<int>,
    pub constraints: Seq<ConstraintView>,
    pub view: VerifierView,
}

/// What enters a shared round.
pub struct Entered {
    pub block: CheckBlock,
    pub extra: int,
    pub pre_scales: Seq<int>,
    pub view: VerifierView,
}

/// The sums of several blocks.
pub open spec fn check_sums(blocks: Seq<CheckBlock>) -> Seq<int> {
    Seq::new(blocks.len(), |b: int| blocks[b].sum)
}

/// Several blocks merged into one, with the blocks' weights and the common factor; a
/// single block stays as it is. `None` if the merge is rejected.
pub open spec fn merge_verified(cfg: merge::Config, blocks: Seq<CheckBlock>, v: VerifierView) -> Option<
    (CheckBlock, Seq<int>, int, VerifierView),
> {
    if blocks.len() == 1 {
        Some((blocks[0], seq![1int], 1, v))
    } else {
        match cfg.merge_checked(check_sums(blocks), v) {
            None => None,
            Some(m) => Some(
                (
                    CheckBlock {
                        sum: m.sum,
                        roots: Seq::new(blocks.len(), |b: int| blocks[b].roots[0]),
                        theta: m.theta,
                    },
                    m.theta,
                    m.eta,
                    m.view,
                ),
            ),
        }
    }
}

/// The bundles' factors after the first `m` joining ones got theirs.
pub open spec fn assigned(
    pre: Seq<int>,
    indices: Seq<usize>,
    theta: Seq<int>,
    eta: int,
    offset: nat,
    m: nat,
) -> Seq<int>
    decreases m,
{
    if m == 0 {
        pre
    } else {
        assigned(pre, indices, theta, eta, offset, (m - 1) as nat).update(
            indices[m - 1] as int,
            fmul(theta[m - 1 + offset], eta),
        )
    }
}

/// The factor of every shared round and of the merge before it.
pub open spec fn mixed(scales: Seq<int>, extras: Seq<int>) -> Seq<int> {
    Seq::new(scales.len(), |i: int| fmul(scales[i], extras[i]))
}

/// The factor that reaches a bundle's block from its join, at round `j`, to the end.
pub open spec fn bundle_scale(w: BatchWalk, b: int, j: nat) -> int {
    fmul(
        fmul(w.pre_scales[b], w.scales[j as int]),
        scale_suffix(mixed(w.scales, w.extras), j + 1),
    )
}

/// The point that a bundle is evaluated at: the challenges of its own rounds, of the
/// shared ones from its join on, and of the base case.
pub open spec fn bundle_point(w: BatchWalk, pre: Walk, j: nat, base: Seq<int>) -> Seq<int> {
    pre.points + (w.points.skip(w.starts[j as int] as int) + base)
}

/// What the constraints of the bundles' own rounds contribute.
pub open spec fn pre_merge_terms(
    w: BatchWalk,
    pres: Seq<Walk>,
    join_rounds: Seq<nat>,
    base: Seq<int>,
) -> spec_fn(int) -> int {
    |b: int|
        fmul(
            bundle_scale(w, b, join_rounds[b]),
            fsum(
                constraint_terms(
                    pres[b].constraints,
                    pres[b].scales,
                    pres[b].starts,
                    bundle_point(w, pres[b], join_rounds[b], base),
                ),
                pres[b].constraints.len(),
            ),
        )
}

/// What the verifier is left with for a bundle.
pub open spec fn bundle_group(w: BatchWalk, pre: Walk, b: int, j: nat, base: Seq<int>, batching: int) -> GroupView {
    GroupView {
        point: bundle_point(w, pre, j, base),
        scale: fmul(scale_suffix(pre.scales, 0), bundle_scale(w, b, j)),
        batching,
    }
}

/// What a verification leaves to check.
pub struct BatchVerified {
    pub groups: Seq<GroupView>,
    pub contribution: int,
    pub view: VerifierView,
}

/// The blocks of the bundles as the verifier starts with them.
pub open spec fn intro_checks(roots: Seq<Digest>, claims: Seq<Seq<Seq<ClaimView>>>, batchings: Seq<int>) -> Seq<
    CheckBlock,
> {
    Seq::new(
        roots.len(),
        |i: int|
            CheckBlock {
                sum: bundle_sum(claims[i], batchings[i]),
                roots: seq![roots[i]],
                theta: seq![1int],
            },
    )
}

/// The blocks after the bundles' own rounds.
pub open spec fn blocks_after(pres: Seq<Walk>) -> Seq<CheckBlock> {
    Seq::new(pres.len(), |b: int| pres[b].block)
}

impl BatchedProtocolConfig {
    /// The verifier after the first `k` bundles' own rounds; `None` if one is rejected.
    pub open spec fn pre_checked(&self, blocks: Seq<CheckBlock>, k: nat, v: VerifierView) -> Option<
        (Seq<Walk>, VerifierView),
    >
        decreases k,
    {
        if k == 0 {
            Some((Seq::empty(), v))
        } else {
            match self.pre_checked(blocks, (k - 1) as nat, v) {
                None => None,
                Some((done, mid)) => {
                    let rounds = self.bundle_configs@[k - 1].pre_merge_rounds@;
                    match rounds_checked(rounds, rounds.len(), blocks[k - 1], mid) {
                        None => None,
                        Some(w) => Some((done.push(w), w.view)),
                    }
                },
            }
        }
    }

    /// What enters a shared round; `None` if the merge is rejected.
    #[verifier::opaque]
    pub open spec fn entering_checked(
        &self,
        blocks: Seq<CheckBlock>,
        r: int,
        carrier: Option<CheckBlock>,
        pre_scales: Seq<int>,
        v: VerifierView,
    ) -> Option<Entered> {
        let joins = self.schedule.joins@;
        match find_join(joins, Some(r as usize), joins.len()) {
            None => Some(Entered { block: carrier.unwrap(), extra: 1, pre_scales, view: v }),
            Some(j) => {
                let indices = joins[j].bundle_indices@;
                match merge_verified(
                    joins[j].selector,
                    with_carrier(carrier, picked(blocks, indices)),
                    v,
                ) {
                    None => None,
                    Some((block, theta, eta, view)) => Some(
                        Entered {
                            block,
                            extra: if carrier is Some {
                                fmul(theta[0], eta)
                            } else {
                                1
                            },
                            pre_scales: assigned(
                                pre_scales,
                                indices,
                                theta,
                                eta,
                                if carrier is Some {
                                    1
                                } else {
                                    0
                                },
                                indices.len(),
                            ),
                            view,
                        },
                    ),
                }
            },
        }
    }

    /// The verifier after the first `k` shared rounds; `None` if one is rejected.
    pub open spec fn walk_checked(&self, blocks: Seq<CheckBlock>, k: nat, v: VerifierView) -> Option<
        BatchWalk,
    >
        decreases k,
    {
        if k == 0 {
            Some(
                BatchWalk {
                    carrier: None,
                    points: Seq::empty(),
                    starts: seq![0usize],
                    scales: Seq::empty(),
                    extras: Seq::empty(),
                    pre_scales: zeros_spec(self.bundle_configs@.len()),
                    constraints: Seq::empty(),
                    view: v,
                },
            )
        } else {
            match self.walk_checked(blocks, (k - 1) as nat, v) {
                None => None,
                Some(w) => match self.entering_checked(blocks, k - 1, w.carrier, w.pre_scales, w.view) {
                    None => None,
                    Some(e) => match self.inner.rounds@[k - 1].round_checked(e.block, e.view) {
                        None => None,
                        Some(o) => Some(
                            BatchWalk {
                                carrier: Some(o.block),
                                points: w.points + o.points,
                                starts: w.starts.push((w.points + o.points).len() as usize),
                                scales: w.scales.push(o.update.scale),
                                extras: w.extras.push(e.extra),
                                pre_scales: e.pre_scales,
                                constraints: w.constraints + round_constraints(
                                    o.update,
                                    ceil_log2_spec(self.inner.rounds@[k - 1].cs().source.message_len()),
                                    (k - 1) as nat,
                                ),
                                view: o.view,
                            },
                        ),
                    },
                },
            }
        }
    }

    /// The rounds at which the bundles join.
    pub open spec fn join_rounds(&self) -> Seq<nat> {
        Seq::new(
            self.bundle_configs@.len(),
            |b: int| self.bundle_configs@[b].join_round.unwrap() as nat,
        )
    }

    /// What the verification of the bundles' claims leaves to check; `None` if it
    /// rejects.
    pub open spec fn batch_verified(
        &self,
        roots: Seq<Digest>,
        claims: Seq<Seq<Seq<ClaimView>>>,
        batchings: Seq<int>,
        v: VerifierView,
    ) -> Option<BatchVerified> {
        let n = roots.len();
        match self.pre_checked(intro_checks(roots, claims, batchings), n, v) {
            None => None,
            Some((pres, mid)) => match self.walk_checked(
                blocks_after(pres),
                self.inner.rounds@.len(),
                mid,
            ) {
                None => None,
                Some(w) => match self.inner.basecase.config.open_checked(
                    w.carrier.unwrap().roots[0],
                    w.carrier.unwrap().sum,
                    w.view,
                ) {
                    None => None,
                    Some(o) => Some(
                        BatchVerified {
                            groups: Seq::new(
                                n,
                                |b: int|
                                    bundle_group(
                                        w,
                                        pres[b],
                                        b,
                                        self.join_rounds()[b],
                                        o.points,
                                        batchings[b],
                                    ),
                            ),
                            contribution: fsub(
                                o.value,
                                fadd(
                                    fsum(
                                        constraint_terms(
                                            w.constraints,
                                            mixed(w.scales, w.extras),
                                            w.starts,
                                            w.points + o.points,
                                        ),
                                        w.constraints.len(),
                                    ),
                                    fsum(
                                        pre_merge_terms(w, pres, self.join_rounds(), o.points),
                                        n,
                                    ),
                                ),
                            ),
                            view: o.view,
                        },
                    ),
                },
            },
        }
    }

    /// The number of variables left after the first `k` shared rounds.
    pub open spec fn vars_left(&self, k: nat) -> nat {
        ceil_log2_spec(
            code_after(self.inner.rounds@, self.inner.first_code(), k).vector_size as nat,
        )
    }

    /// Where the verifier is after some shared rounds: the points and the codes' sizes
    /// account for all variables.
    pub open spec fn batch_fits(&self, w: BatchWalk, k: nat) -> bool {
        let variables = self.vars_left(0);
        &&& w.starts.len() == k + 1
        &&& w.starts[k as int] == w.points.len()
        &&& w.scales.len() == k
        &&& w.extras.len() == k
        &&& w.pre_scales.len() == self.bundle_configs@.len()
        &&& forall|i: int| 0 <= i <= k ==> (#[trigger] w.starts[i]) + self.vars_left(i as nat) == variables
        &&& forall|i: int| 0 <= i <= k ==> (#[trigger] w.starts[i]) <= w.points.len()
        &&& forall|i: int|
            0 <= i < w.constraints.len() ==> (#[trigger] w.constraints[i]).round < k
                && w.starts[w.constraints[i].round as int + 1] + w.constraints[i].bits == variables
    }
}

/// What the verifier carries from shared round to shared round.
#[derive(Debug)]
pub struct SharedWalk {
    pub carrier: Option<VerifierBlock>,
    pub points: Vec<Field64>,
    pub starts: Vec<usize>,
    pub scales: Vec<Field64>,
    pub extras: Vec<Field64>,
    pub pre_scales: Vec<Field64>,
    pub constraints: Vec<ImplicitConstraint>,
}

/// The view of a block, if there is one.
pub open spec fn check_viewed(block: Option<VerifierBlock>) -> Option<CheckBlock> {
    match block {
        Some(b) => Some(b@),
        None => None,
    }
}

/// The views of several blocks.
pub open spec fn check_views(blocks: Seq<VerifierBlock>) -> Seq<CheckBlock> {
    Seq::new(blocks.len(), |b: int| blocks[b]@)
}

/// A block with one commitment.
pub open spec fn single(block: VerifierBlock) -> bool {
    block.commitments@.len() == 1 && block.theta@.len() == 1
}

impl SharedWalk {
    /// Does this hold what the verifier has gathered, up to the transcript?
    pub open spec fn is(&self, w: BatchWalk) -> bool {
        &&& check_viewed(self.carrier) == w.carrier
        &&& vals(self.points@) == w.points
        &&& self.starts@ == w.starts
        &&& vals(self.scales@) == w.scales
        &&& vals(self.extras@) == w.extras
        &&& vals(self.pre_scales@) == w.pre_scales
        &&& constraint_views(self.constraints@) == w.constraints
        &&& self.carrier matches Some(c) ==> single(c)
    }
}

/// Merge the active blocks into one, and return it with the blocks' weights and the
/// common factor; a single block stays as it is.
fn merge_active_verify(
    join: &RoundJoin,
    active: Vec<VerifierBlock>,
    vs: &mut VerifierState,
) -> (r: Result<(VerifierBlock, Vec<Field64>, Field64), VerificationError>)
    requires
        join.selector.wf(),
        join.selector.t == active@.len(),
        active@.len() >= 1,
        forall|b: int| 0 <= b < active@.len() ==> single(#[trigger] active@[b]),
    ensures
        match merge_verified(join.selector, check_views(active@), old(vs)@) {
            None => r is Err,
            Some((block, theta, eta, view)) => {
                &&& r is Ok
                &&& r->Ok_0.0@ == block
                &&& r->Ok_0.0.commitments@.len() == r->Ok_0.0.theta@.len()
                &&& vals(r->Ok_0.1@) == theta
                &&& r->Ok_0.1@.len() == active@.len()
                &&& r->Ok_0.2@ == eta
                &&& final(vs)@ == view
            },
        },
{
    let mut active = active;
    let ghost start = active@;
    let ghost views = check_views(active@);
    let n: usize = active.len();
    if n == 1 {
        match active.pop() {
            Some(b) => {
                let theta: Vec<Field64> = vec![Field64::one()];
                proof {
                    assert(b == start[0]);
                    assert(vals(theta@) =~= seq![1int]);
                }
                return Ok((b, theta, Field64::one()));
            },
            None => {
                return Err(VerificationError);
            },
        }
    }
    let mut sums: Vec<Field64> = Vec::new();
    let mut commitments: Vec<irs_commit::Commitment> = Vec::new();
    for b in 0..n
        invariant
            n == active@.len(),
            active@ == start,
            forall|c: int| 0 <= c < n ==> single(#[trigger] active@[c]),
            sums@.len() == b,
            commitments@.len() == b,
            forall|c: int| 0 <= c < b ==> (#[trigger] sums@[c]) == start[c].sum,
            forall|c: int| 0 <= c < b ==> (#[trigger] commitments@[c]) == start[c].commitments@[0],
    {
        assert(single(active@[b as int]));
        sums.push(active[b].sum);
        commitments.push(active[b].commitments[0]);
    }
    assert(vals(sums@) =~= check_sums(views));
    let opening: merge::Opening = match join.selector.verify(vs, sums.as_slice()) {
        Ok(o) => o,
        Err(e) => {
            return Err(e);
        },
    };
    let theta: Vec<Field64> = crate::algebra::copied(opening.theta.as_slice());
    let block = VerifierBlock { sum: opening.sum, commitments, theta: opening.theta };
    assert(roots_of(block.commitments@) =~= Seq::new(views.len(), |b: int| views[b].roots[0]));
    Ok((block, theta, opening.eta))
}

impl BatchedProtocolConfig {
    /// Are these the blocks of the bundles that have not joined yet?
    pub open spec fn check_waiting(
        &self,
        slots: Seq<Option<VerifierBlock>>,
        blocks: Seq<CheckBlock>,
        j: nat,
        m: nat,
    ) -> bool {
        &&& slots.len() == self.bundle_configs@.len()
        &&& blocks.len() == slots.len()
        &&& forall|b: int|
            0 <= b < slots.len() && !seen(self.schedule.joins@, j, m, b) ==> ((
            #[trigger] slots[b]) matches Some(block) && block@ == blocks[b] && single(block))
    }

    /// Take the blocks of the bundles that join out of the waiting ones, behind the
    /// carrier.
    fn take_joining(
        &self,
        join: &RoundJoin,
        carrier: Option<VerifierBlock>,
        slots: &mut Vec<Option<VerifierBlock>>,
        Ghost(jn): Ghost<nat>,
        Ghost(blocks): Ghost<Seq<CheckBlock>>,
    ) -> (active: Vec<VerifierBlock>)
        requires
            self.well_placed(),
            jn < self.schedule.joins@.len(),
            *join == self.schedule.joins@[jn as int],
            carrier matches Some(c) ==> single(c),
            self.check_waiting(old(slots)@, blocks, jn, 0),
        ensures
            check_views(active@) == with_carrier(
                check_viewed(carrier),
                picked(blocks, join.bundle_indices@),
            ),
            forall|c: int| 0 <= c < active@.len() ==> single(#[trigger] active@[c]),
            self.check_waiting(final(slots)@, blocks, jn, join.bundle_indices@.len()),
    {
        let ghost joins = self.schedule.joins@;
        let ghost ind = join.bundle_indices@;
        let ghost before = check_viewed(carrier);
        let mut active: Vec<VerifierBlock> = Vec::new();
        match carrier {
            Some(c) => {
                active.push(c);
            },
            None => {},
        }
        let ghost first = active@;
        let count: usize = join.bundle_indices.len();
        assert(check_views(active@) =~= check_views(first) + picked(blocks, ind).take(0));
        for m in 0..count
            invariant
                self.well_placed(),
                joins == self.schedule.joins@,
                jn < joins.len(),
                *join == joins[jn as int],
                ind == join.bundle_indices@,
                count == ind.len(),
                self.check_waiting(slots@, blocks, jn, m as nat),
                forall|c: int| 0 <= c < active@.len() ==> single(#[trigger] active@[c]),
                check_views(active@) == check_views(first) + picked(blocks, ind).take(m as int),
        {
            let idx: usize = join.bundle_indices[m];
            assert(self.index_ok(jn as int, m as int)) by {
                self.lemma_index_ok(jn as int, m as int);
            }
            let mut slot: Option<VerifierBlock> = None;
            let ghost slots_before = slots@;
            std::mem::swap(&mut slots[idx], &mut slot);
            match slot {
                Some(b) => {
                    let ghost active_before = active@;
                    active.push(b);
                    proof {
                        assert(check_views(active@) =~= check_views(active_before).push(b@));
                        assert(picked(blocks, ind).take(m + 1) =~= picked(blocks, ind).take(
                            m as int,
                        ).push(blocks[idx as int]));
                        assert(check_views(first) + picked(blocks, ind).take(m + 1) =~= (check_views(
                            first,
                        ) + picked(blocks, ind).take(m as int)).push(blocks[idx as int]));
                    }
                },
                None => {},
            }
            assert(self.check_waiting(slots@, blocks, jn, (m + 1) as nat)) by {
                assert forall|b: int|
                    0 <= b < slots@.len() && !seen(joins, jn, (m + 1) as nat, b) implies ((
                #[trigger] slots@[b]) matches Some(block) && block@ == blocks[b] && single(block)) by {
                    assert(!seen(joins, jn, m as nat, b));
                    assert(b != idx);
                    assert(slots@[b] == slots_before[b]);
                }
            }
        }
        proof {
            assert(picked(blocks, ind).take(count as int) =~= picked(blocks, ind));
            assert(check_views(active@) =~= with_carrier(before, picked(blocks, ind)));
        }
        active
    }

    /// Note the factors of the bundles that enter by a join.
    fn note_factors(
        &self,
        join: &RoundJoin,
        theta: &Vec<Field64>,
        eta: Field64,
        offset: usize,
        pre_scales: &mut Vec<Field64>,
        Ghost(jn): Ghost<nat>,
    )
        requires
            self.well_placed(),
            jn < self.schedule.joins@.len(),
            *join == self.schedule.joins@[jn as int],
            offset <= 1,
            theta@.len() == join.bundle_indices@.len() + offset,
            old(pre_scales)@.len() == self.bundle_configs@.len(),
        ensures
            final(pre_scales)@.len() == self.bundle_configs@.len(),
            vals(final(pre_scales)@) == assigned(
                vals(old(pre_scales)@),
                join.bundle_indices@,
                vals(theta@),
                eta@,
                offset as nat,
                join.bundle_indices@.len(),
            ),
    {
        let ghost ind = join.bundle_indices@;
        let ghost pre = vals(pre_scales@);
        let count: usize = join.bundle_indices.len();
        for m in 0..count
            invariant
                self.well_placed(),
                jn < self.schedule.joins@.len(),
                *join == self.schedule.joins@[jn as int],
                ind == join.bundle_indices@,
                count == ind.len(),
                theta@.len() == count + offset,
                offset <= 1,
                pre_scales@.len() == self.bundle_configs@.len(),
                vals(pre_scales@) == assigned(
                    pre,
                    ind,
                    vals(theta@),
                    eta@,
                    offset as nat,
                    m as nat,
                ),
        {
            let idx: usize = join.bundle_indices[m];
            assert(self.index_ok(jn as int, m as int)) by {
                self.lemma_index_ok(jn as int, m as int);
            }
            let ghost before = pre_scales@;
            let factor: Field64 = theta[m + offset].mul(eta);
            pre_scales.set(idx, factor);
            assert(vals(pre_scales@) =~= vals(before).update(idx as int, factor@));
        }
    }

    /// Merge the blocks that enter a shared round, and note the factors.
    #[verifier::rlimit(40)]
    fn merge_at_verify(
        &self,
        vs: &mut VerifierState,
        r: usize,
        carrier: Option<VerifierBlock>,
        slots: &mut Vec<Option<VerifierBlock>>,
        pre_scales: &mut Vec<Field64>,
        Ghost(blocks): Ghost<Seq<CheckBlock>>,
    ) -> (out: Result<(VerifierBlock, Field64), VerificationError>)
        requires
            self.wf(),
            self.well_placed(),
            r < self.inner.rounds@.len(),
            carrier is Some <==> r > 0,
            carrier matches Some(c) ==> single(c),
            old(pre_scales)@.len() == self.bundle_configs@.len(),
            self.check_waiting(
                old(slots)@,
                blocks,
                joins_before(self.schedule.joins@, r as nat, self.schedule.joins@.len()),
                0,
            ),
        ensures
            match self.entering_checked(
                blocks,
                r as int,
                check_viewed(carrier),
                vals(old(pre_scales)@),
                old(vs)@,
            ) {
                None => out is Err,
                Some(e) => {
                    &&& out is Ok
                    &&& out->Ok_0.0@ == e.block
                    &&& out->Ok_0.0.commitments@.len() == out->Ok_0.0.theta@.len()
                    &&& out->Ok_0.1@ == e.extra
                    &&& vals(final(pre_scales)@) == e.pre_scales
                    &&& final(vs)@ == e.view
                },
            },
            final(pre_scales)@.len() == self.bundle_configs@.len(),
            self.check_waiting(
                final(slots)@,
                blocks,
                joins_before(self.schedule.joins@, (r + 1) as nat, self.schedule.joins@.len()),
                0,
            ),
    {
        reveal(BatchedProtocolConfig::entering_checked);
        let ghost joins = self.schedule.joins@;
        let ghost jn = joins_before(joins, r as nat, joins.len());
        proof {
            self.lemma_next_join(r as nat);
        }
        let carried: bool = carrier.is_some();
        match self.schedule.join_at(r) {
            Some(join) => {
                assert(self.join_ok(jn as int)) by {
                    self.lemma_join_ok(jn as int);
                }
                assert(joins[jn as int].selector.wf());
                let active: Vec<VerifierBlock> = self.take_joining(
                    join,
                    carrier,
                    slots,
                    Ghost(jn),
                    Ghost(blocks),
                );
                let ghost views = check_views(active@);
                assert(active@.len() == views.len());
                let (block, theta, eta): (VerifierBlock, Vec<Field64>, Field64) =
                    match merge_active_verify(join, active, vs) {
                    Ok(x) => x,
                    Err(e) => {
                        return Err(e);
                    },
                };
                let offset: usize = if carried {
                    1
                } else {
                    0
                };
                let extra: Field64 = if carried {
                    theta[0].mul(eta)
                } else {
                    Field64::one()
                };
                self.note_factors(join, &theta, eta, offset, pre_scales, Ghost(jn));
                Ok((block, extra))
            },
            None => match carrier {
                Some(c) => Ok((c, Field64::one())),
                None => Err(VerificationError),
            },
        }
    }
}

impl BatchedProtocolConfig {
    /// Follow the shared rounds.
    #[verifier::rlimit(40)]
    fn verify_shared(
        &self,
        vs: &mut VerifierState,
        slots: Vec<Option<VerifierBlock>>,
        Ghost(blocks): Ghost<Seq<CheckBlock>>,
    ) -> (out: Result<SharedWalk, VerificationError>)
        requires
            self.wf(),
            self.well_placed(),
            self.check_waiting(slots@, blocks, 0, 0),
        ensures
            match self.walk_checked(blocks, self.inner.rounds@.len(), old(vs)@) {
                None => out is Err,
                Some(w) => {
                    &&& out is Ok
                    &&& out->Ok_0.is(w)
                    &&& out->Ok_0.carrier is Some
                    &&& final(vs)@ == w.view
                    &&& self.batch_fits(w, self.inner.rounds@.len())
                },
            },
    {
        let ghost joins = self.schedule.joins@;
        let ghost v0 = vs@;
        let n: usize = self.inner.rounds.len();
        let mut slots: Vec<Option<VerifierBlock>> = slots;
        let mut carrier: Option<VerifierBlock> = None;
        let mut points: Vec<Field64> = Vec::new();
        let mut starts: Vec<usize> = vec![0];
        let mut scales: Vec<Field64> = Vec::new();
        let mut extras: Vec<Field64> = Vec::new();
        let mut pre_scales: Vec<Field64> = crate::algebra::zeros(self.bundle_configs.len());
        let mut constraints: Vec<ImplicitConstraint> = Vec::new();
        let ghost mut w: BatchWalk = self.walk_checked(blocks, 0, v0).unwrap();
        proof {
            self.lemma_no_join_before_first();
            assert(vals(points@) =~= Seq::<int>::empty());
            assert(vals(scales@) =~= Seq::<int>::empty());
            assert(vals(extras@) =~= Seq::<int>::empty());
            assert(constraint_views(constraints@) =~= Seq::<ConstraintView>::empty());
            assert(starts@ =~= seq![0usize]);
        }
        for r in 0..n
            invariant
                self.wf(),
                self.well_placed(),
                joins == self.schedule.joins@,
                v0 == old(vs)@,
                n == self.inner.rounds@.len(),
                self.walk_checked(blocks, r as nat, v0) == Some(w),
                vs@ == w.view,
                carrier is Some <==> r > 0,
                carrier matches Some(c) ==> single(c),
                check_viewed(carrier) == w.carrier,
                vals(points@) == w.points,
                starts@ == w.starts,
                vals(scales@) == w.scales,
                vals(extras@) == w.extras,
                vals(pre_scales@) == w.pre_scales,
                pre_scales@.len() == self.bundle_configs@.len(),
                constraint_views(constraints@) == w.constraints,
                self.check_waiting(slots@, blocks, joins_before(joins, r as nat, joins.len()), 0),
                self.batch_fits(w, r as nat),
        {
            let ghost before = w;
            let (block, extra): (VerifierBlock, Field64) = match self.merge_at_verify(
                vs,
                r,
                carrier,
                &mut slots,
                &mut pre_scales,
                Ghost(blocks),
            ) {
                Ok(x) => x,
                Err(e) => {
                    proof {
                        self.lemma_walk_fails(blocks, (r + 1) as nat, n as nat, v0);
                    }
                    return Err(e);
                },
            };
            assert(self.inner.rounds@[r as int].wf());
            let msg_len: usize = self.inner.rounds[r].code_switch.config.source.message_length();
            let (next, out): (VerifierBlock, VerifyRoundOutput) = match verify_whir_round(
                &self.inner.rounds[r],
                block,
                vs,
            ) {
                Ok(x) => x,
                Err(e) => {
                    proof {
                        self.lemma_walk_fails(blocks, (r + 1) as nat, n as nat, v0);
                    }
                    return Err(e);
                },
            };
            points = concat(points.as_slice(), out.round_challenges.as_slice());
            proof {
                lemma_vals_push(scales@, out.update_params.original_sl_coeff);
                lemma_vals_push(extras@, extra);
                assert(vals(points@).len() == points@.len());
            }
            starts.push(points.len());
            scales.push(out.update_params.original_sl_coeff);
            extras.push(extra);
            push_constraints(&mut constraints, &out.update_params, msg_len, r);
            carrier = Some(next);
            proof {
                w = self.walk_checked(blocks, (r + 1) as nat, v0).unwrap();
                self.lemma_fits_step(before, w, r as nat);
            }
        }
        proof {
            self.lemma_all_join();
            self.lemma_join_ok(0);
        }
        Ok(SharedWalk { carrier, points, starts, scales, extras, pre_scales, constraints })
    }

    /// No join comes before the first round.
    pub proof fn lemma_no_join_before_first(&self)
        requires
            self.well_placed(),
        ensures
            joins_before(self.schedule.joins@, 0, self.schedule.joins@.len()) == 0,
    {
        let joins = self.schedule.joins@;
        lemma_joins_before(self, 0, joins.len());
        if joins_before(joins, 0, joins.len()) > 0 {
            assert(joins[0].round_index.unwrap() < 0);
        }
    }

    /// One more round keeps the account of the variables.
    pub proof fn lemma_fits_step(&self, before: BatchWalk, w: BatchWalk, r: nat)
        requires
            self.wf(),
            r < self.inner.rounds@.len(),
            self.batch_fits(before, r),
            w.starts == before.starts.push(w.points.len() as usize),
            w.points.len() <= usize::MAX,
            w.points.len() == before.points.len() + self.inner.rounds@[r as int].sc().num_rounds,
            w.scales.len() == before.scales.len() + 1,
            w.extras.len() == before.extras.len() + 1,
            w.pre_scales.len() == before.pre_scales.len(),
            exists|u: crate::code_switch::Update|
                w.constraints == before.constraints + #[trigger] round_constraints(
                    u,
                    ceil_log2_spec(self.inner.rounds@[r as int].cs().source.message_len()),
                    r,
                ),
        ensures
            self.batch_fits(w, r + 1),
    {
        let rounds = self.inner.rounds@;
        let round = rounds[r as int];
        assert(round.wf());
        lemma_round_variables(&round);
        assert(self.vars_left(r) == ceil_log2_spec(round.cs().source.vector_size as nat)) by {
            if r > 0 {
                assert(rounds[r as int].wf());
            }
        }
        assert(self.vars_left(r + 1) == ceil_log2_spec(round.cs().source.message_len()));
        assert(before.starts[r as int] + self.vars_left(r) == self.vars_left(0));
        let variables = self.vars_left(0);
        assert forall|i: int| 0 <= i <= r + 1 implies (#[trigger] w.starts[i]) + self.vars_left(
            i as nat,
        ) == variables && w.starts[i] <= w.points.len() by {
            if i <= r {
                assert(w.starts[i] == before.starts[i]);
            }
        }
        assert forall|i: int| 0 <= i < w.constraints.len() implies (
        #[trigger] w.constraints[i]).round < r + 1 && w.starts[w.constraints[i].round as int + 1]
            + w.constraints[i].bits == variables by {
            if i < before.constraints.len() {
                assert(w.constraints[i] == before.constraints[i]);
                assert(before.constraints[i].round < r);
                assert(w.starts[w.constraints[i].round as int + 1]
                    == before.starts[before.constraints[i].round as int + 1]);
            }
        }
    }

    proof fn lemma_walk_fails(&self, blocks: Seq<CheckBlock>, j: nat, k: nat, v: VerifierView)
        requires
            j <= k,
            self.walk_checked(blocks, j, v) is None,
        ensures
            self.walk_checked(blocks, k, v) is None,
        decreases k,
    {
        if j < k {
            self.lemma_walk_fails(blocks, j, (k - 1) as nat, v);
        }
    }

    proof fn lemma_pre_fails(&self, blocks: Seq<CheckBlock>, j: nat, k: nat, v: VerifierView)
        requires
            j <= k,
            self.pre_checked(blocks, j, v) is None,
        ensures
            self.pre_checked(blocks, k, v) is None,
        decreases k,
    {
        if j < k {
            self.lemma_pre_fails(blocks, j, (k - 1) as nat, v);
        }
    }

    /// The number of variables of a bundle, and of its block when it joins.
    pub open spec fn pre_fits(&self, pre: Walk, b: int) -> bool {
        walk_fits(
            pre,
            self.bundle_configs@[b].pre_merge_rounds@.len(),
            ceil_log2_spec(self.bundle_configs@[b].irs_config.vector_size as nat),
            ceil_log2_spec(self.code_at_join(b).vector_size as nat),
        )
    }

    /// Follow the rounds of one bundle.
    fn verify_bundle_rounds(&self, vs: &mut VerifierState, b: usize, start: VerifierBlock) -> (r: Result<
        RoundWalk,
        VerificationError,
    >)
        requires
            self.wf(),
            self.well_placed(),
            b < self.bundle_configs@.len(),
            single(start),
        ensures
            ({
                let rounds = self.bundle_configs@[b as int].pre_merge_rounds@;
                match rounds_checked(rounds, rounds.len(), start@, old(vs)@) {
                    None => r is Err,
                    Some(w) => {
                        &&& r is Ok
                        &&& r->Ok_0.is(w)
                        &&& r->Ok_0.block.commitments@.len() == 1
                        &&& final(vs)@ == w.view
                        &&& self.pre_fits(w, b as int)
                    },
                }
            }),
    {
        let rounds: &Vec<RoundConfig> = &self.bundle_configs[b].pre_merge_rounds;
        proof {
            self.lemma_pre_merge_chained(b as int);
        }
        let ghost first = if rounds@.len() > 0 {
            rounds@[0].cs().source
        } else {
            self.bundle_configs@[b as int].irs_config
        };
        verify_rounds(rounds.as_slice(), start, vs, Ghost(first))
    }
}

/// What a bundle's own rounds leave behind.
#[derive(Debug)]
pub struct BundlePreMergeData {
    /// The challenges of all rounds.
    pub challenges: Vec<Field64>,
    /// How many challenges were drawn before every round, and in all.
    pub challenges_at: Vec<usize>,
    /// The factor of every round.
    pub round_scales: Vec<Field64>,
    /// The constraints that the rounds added.
    pub constraints: Vec<ImplicitConstraint>,
}

impl BundlePreMergeData {
    /// Does this hold what the verifier has gathered, up to the block and the
    /// transcript?
    pub open spec fn is(&self, w: Walk) -> bool {
        &&& vals(self.challenges@) == w.points
        &&& self.challenges_at@ == w.starts
        &&& vals(self.round_scales@) == w.scales
        &&& constraint_views(self.constraints@) == w.constraints
    }

    /// The product of all rounds' factors.
    pub fn total_scale(&self) -> (r: Field64)
        ensures
            r@ == scale_suffix(vals(self.round_scales@), 0),
    {
        self.product_from(0)
    }

    /// The product of the factors of the rounds after round `k`.
    pub fn scale_suffix_after(&self, k: usize) -> (r: Field64)
        ensures
            r@ == scale_suffix(vals(self.round_scales@), (k + 1) as nat),
    {
        if k >= self.round_scales.len() {
            Field64::one()
        } else {
            self.product_from(k + 1)
        }
    }

    fn product_from(&self, k: usize) -> (r: Field64)
        ensures
            r@ == scale_suffix(vals(self.round_scales@), k as nat),
    {
        let mut i: usize = self.round_scales.len();
        let mut acc: Field64 = Field64::one();
        if k >= i {
            return acc;
        }
        while i > k
            invariant
                k <= i <= self.round_scales@.len(),
                acc@ == scale_suffix(vals(self.round_scales@), i as nat),
            decreases i,
        {
            i = i - 1;
            acc = self.round_scales[i].mul(acc);
        }
        acc
    }
}

/// Do these hold what the bundles' own rounds left?
pub open spec fn pre_data(data: Seq<BundlePreMergeData>, pres: Seq<Walk>) -> bool {
    &&& data.len() == pres.len()
    &&& forall|b: int| 0 <= b < data.len() ==> (#[trigger] data[b]).is(pres[b])
}

/// What is left of a bundle that joins at round `j`: its group, and what its own
/// rounds' constraints contribute.
fn finish_bundle(
    walk: &SharedWalk,
    suffixes: &Vec<Field64>,
    pre: &BundlePreMergeData,
    b: usize,
    j: usize,
    base: &Vec<Field64>,
    batching_challenge: Field64,
    Ghost(w): Ghost<BatchWalk>,
    Ghost(pw): Ghost<Walk>,
) -> (r: (ClaimGroup, Field64))
    requires
        walk.is(w),
        pre.is(pw),
        b < w.pre_scales.len(),
        j < w.scales.len(),
        w.starts.len() == w.scales.len() + 1,
        w.starts[j as int] <= w.points.len(),
        suffixes@.len() == w.scales.len() + 1,
        forall|k: int|
            0 <= k < suffixes@.len() ==> (#[trigger] suffixes@[k])@ == scale_suffix(
                mixed(w.scales, w.extras),
                k as nat,
            ),
        constraints_fit(
            pw.constraints,
            pw.scales.len(),
            pw.starts,
            bundle_point(w, pw, j as nat, vals(base@)).len(),
        ),
    ensures
        r.0@ == bundle_group(w, pw, b as int, j as nat, vals(base@), batching_challenge@),
        r.1@ == fmul(
            bundle_scale(w, b as int, j as nat),
            fsum(
                constraint_terms(
                    pw.constraints,
                    pw.scales,
                    pw.starts,
                    bundle_point(w, pw, j as nat, vals(base@)),
                ),
                pw.constraints.len(),
            ),
        ),
{
    proof {
        assert(vals(walk.points@).len() == walk.points@.len());
        assert(vals(walk.scales@).len() == walk.scales@.len());
        assert(vals(walk.pre_scales@).len() == walk.pre_scales@.len());
        assert(vals(pre.round_scales@).len() == pre.round_scales@.len());
    }
    let total: usize = walk.points.len();
    let start: usize = walk.starts[j];
    let shared: Vec<Field64> = sub_vec(walk.points.as_slice(), start, total);
    let tail: Vec<Field64> = concat(shared.as_slice(), base.as_slice());
    let point: Vec<Field64> = concat(pre.challenges.as_slice(), tail.as_slice());
    proof {
        assert(vals(shared@) =~= w.points.skip(start as int));
        assert(vals(point@) == bundle_point(w, pw, j as nat, vals(base@)));
        assert(point@.len() == vals(point@).len());
        assert(vals(walk.pre_scales@)[b as int] == walk.pre_scales@[b as int]@);
        assert(vals(walk.scales@)[j as int] == walk.scales@[j as int]@);
    }
    let rounds: usize = suffixes.len() - 1;
    assert(j < rounds);
    let scale: Field64 = walk.pre_scales[b].mul(walk.scales[j]).mul(suffixes[j + 1]);
    let own_rounds: usize = pre.challenges_at.len() - 1;
    assert(pre.round_scales@.len() == own_rounds);
    let own: Vec<Field64> = scale_suffixes(pre.round_scales.as_slice());
    let value: Field64 = constraint_sum(
        pre.constraints.as_slice(),
        own.as_slice(),
        pre.challenges_at.as_slice(),
        point.as_slice(),
        Ghost(pw.scales),
    );
    let group = ClaimGroup {
        evaluation_point: point,
        initial_claim_scale: pre.total_scale().mul(scale),
        batching_challenge,
    };
    (group, scale.mul(value))
}

/// The roots of the bundles' commitments.
pub open spec fn bundle_roots(commitments: Seq<BundleCommitment>) -> Seq<Digest> {
    Seq::new(
        commitments.len(),
        |i: int| commitments[i].irs_commitment.matrix_commitment.root,
    )
}

/// The bundles' challenges.
pub open spec fn bundle_batchings(commitments: Seq<BundleCommitment>) -> Seq<int> {
    Seq::new(commitments.len(), |i: int| commitments[i].batching_challenge@)
}

/// The bundles' claims.
pub open spec fn bundle_claims(bundles: Seq<&BundleDescriptor<'_>>) -> Seq<Seq<Seq<ClaimView>>> {
    Seq::new(bundles.len(), |i: int| bundles[i].claims())
}

/// How many claims every bundle has.
pub open spec fn descriptor_counts(bundles: Seq<&BundleDescriptor<'_>>) -> Seq<usize> {
    Seq::new(bundles.len(), |i: int| total_claims(bundles[i].claims()) as usize)
}

impl BatchedProtocolConfig {
    /// Are these commitments to, and claims about, bundles of the configured shapes,
    /// within the target?
    pub open spec fn admitted(
        &self,
        commitments: Seq<BundleCommitment>,
        bundles: Seq<&BundleDescriptor<'_>>,
        floors: BatchedFloors,
    ) -> bool {
        &&& commitments.len() == bundles.len()
        &&& commitments.len() == self.bundle_configs@.len()
        &&& bundles.len() > 0
        &&& forall|i: int| 0 <= i < bundles.len() ==> (#[trigger] bundles[i]).valid()
        &&& self.claims_fault(descriptor_counts(bundles), floors) is None
        &&& forall|i: int|
            0 <= i < bundles.len() ==> (#[trigger] bundles[i]).num_polys
                == self.bundle_configs@[i].spec.num_polys && bundles[i].length
                == self.bundle_configs@[i].spec.length
    }

    /// Check the commitments and claims against the configuration.
    fn accepts_inputs(
        &self,
        commitments: &Vec<BundleCommitment>,
        bundles: &[&BundleDescriptor<'_>],
        floors: &BatchedFloors,
    ) -> (r: bool)
        requires
            self.floors_fit(*floors),
            floors.claims@.len() == self.bundle_configs@.len(),
            forall|i: int| 0 <= i < bundles@.len() ==> (#[trigger] bundles@[i]).usable(),
        ensures
            r == self.admitted(commitments@, bundles@, *floors),
    {
        let n: usize = bundles.len();
        if commitments.len() != n || n != self.bundle_configs.len() || n == 0 {
            return false;
        }
        let mut counts: Vec<usize> = Vec::new();
        for i in 0..n
            invariant
                n == bundles@.len(),
                n == self.bundle_configs@.len(),
                forall|c: int| 0 <= c < bundles@.len() ==> (#[trigger] bundles@[c]).usable(),
                forall|c: int| 0 <= c < i ==> (#[trigger] bundles@[c]).valid(),
                forall|c: int|
                    0 <= c < i ==> (#[trigger] bundles@[c]).num_polys
                        == self.bundle_configs@[c].spec.num_polys && bundles@[c].length
                        == self.bundle_configs@[c].spec.length,
                counts@ =~= descriptor_counts(bundles@).take(i as int),
        {
            let bundle: &BundleDescriptor<'_> = bundles[i];
            assert(bundles@[i as int].usable());
            match bundle.validate() {
                Ok(()) => {},
                Err(e) => {
                    assert(!bundles@[i as int].valid());
                    return false;
                },
            }
            if bundle.num_polys != self.bundle_configs[i].spec.num_polys || bundle.length
                != self.bundle_configs[i].spec.length {
                assert(bundles@[i as int].num_polys != self.bundle_configs@[i as int].spec.num_polys
                    || bundles@[i as int].length != self.bundle_configs@[i as int].spec.length);
                return false;
            }
            counts.push(bundle.total_claims());
        }
        assert(counts@ =~= descriptor_counts(bundles@));
        match self.validate_security_target_met_for_claims(counts.as_slice(), floors) {
            Ok(()) => true,
            Err(e) => false,
        }
    }

    /// Follow every bundle's own rounds.
    fn verify_pre_merge(
        &self,
        vs: &mut VerifierState,
        commitments: &Vec<BundleCommitment>,
        bundles: &[&BundleDescriptor<'_>],
    ) -> (r: Result<(Vec<Option<VerifierBlock>>, Vec<BundlePreMergeData>), VerificationError>)
        requires
            self.wf(),
            self.well_placed(),
            commitments@.len() == bundles@.len(),
            commitments@.len() == self.bundle_configs@.len(),
            forall|i: int| 0 <= i < bundles@.len() ==> (#[trigger] bundles@[i]).usable(),
        ensures
            match self.pre_checked(
                intro_checks(
                    bundle_roots(commitments@),
                    bundle_claims(bundles@),
                    bundle_batchings(commitments@),
                ),
                commitments@.len(),
                old(vs)@,
            ) {
                None => r is Err,
                Some((pres, view)) => {
                    &&& r is Ok
                    &&& final(vs)@ == view
                    &&& pre_data(r->Ok_0.1@, pres)
                    &&& self.check_waiting(r->Ok_0.0@, blocks_after(pres), 0, 0)
                    &&& forall|b: int| 0 <= b < pres.len() ==> self.pre_fits(#[trigger] pres[b], b)
                },
            },
    {
        let ghost v0 = vs@;
        let ghost intro = intro_checks(
            bundle_roots(commitments@),
            bundle_claims(bundles@),
            bundle_batchings(commitments@),
        );
        let n: usize = commitments.len();
        let mut slots: Vec<Option<VerifierBlock>> = Vec::new();
        let mut data: Vec<BundlePreMergeData> = Vec::new();
        let ghost mut pres: Seq<Walk> = Seq::empty();
        for i in 0..n
            invariant
                self.wf(),
                self.well_placed(),
                v0 == old(vs)@,
                n == commitments@.len(),
                n == bundles@.len(),
                n == self.bundle_configs@.len(),
                forall|c: int| 0 <= c < bundles@.len() ==> (#[trigger] bundles@[c]).usable(),
                intro == intro_checks(
                    bundle_roots(commitments@),
                    bundle_claims(bundles@),
                    bundle_batchings(commitments@),
                ),
                self.pre_checked(intro, i as nat, v0) == Some((pres, vs@)),
                pres.len() == i,
                slots@.len() == i,
                pre_data(data@, pres),
                forall|b: int|
                    0 <= b < i ==> ((#[trigger] slots@[b]) matches Some(block) && block@
                        == pres[b].block && single(block)),
                forall|b: int| 0 <= b < i ==> self.pre_fits(#[trigger] pres[b], b),
        {
            assert(bundles@[i as int].usable());
            let commitment: BundleCommitment = commitments[i];
            let sum: Field64 = bundles[i].initial_sum(commitment.batching_challenge);
            let start: VerifierBlock = VerifierBlock::single_source(sum, commitment.irs_commitment);
            assert(start@ == intro[i as int]);
            let walk: RoundWalk = match self.verify_bundle_rounds(vs, i, start) {
                Ok(w) => w,
                Err(e) => {
                    proof {
                        self.lemma_pre_fails(intro, (i + 1) as nat, n as nat, v0);
                    }
                    return Err(e);
                },
            };
            let RoundWalk { block, points, starts, scales, constraints } = walk;
            let ghost next = self.pre_checked(intro, (i + 1) as nat, v0).unwrap().0;
            let ghost before = data@;
            data.push(
                BundlePreMergeData {
                    challenges: points,
                    challenges_at: starts,
                    round_scales: scales,
                    constraints,
                },
            );
            slots.push(Some(block));
            proof {
                assert(pre_data(data@, next)) by {
                    assert forall|b: int| 0 <= b < data@.len() implies (#[trigger] data@[b]).is(
                        next[b],
                    ) by {
                        if b < i {
                            assert(data@[b] == before[b]);
                        }
                    }
                }
                assert forall|b: int| 0 <= b < i + 1 implies self.pre_fits(#[trigger] next[b], b) by {
                    if b < i {
                        assert(next[b] == pres[b]);
                    }
                }
                pres = next;
            }
        }
        proof {
            assert(self.check_waiting(slots@, blocks_after(pres), 0, 0));
        }
        Ok((slots, data))
    }

    /// A bundle's point has a coordinate for every variable.
    pub proof fn lemma_bundle_point(&self, w: BatchWalk, pre: Walk, b: int, base: Seq<int>)
        requires
            self.wf(),
            self.well_placed(),
            0 <= b < self.bundle_configs@.len(),
            self.batch_fits(w, self.inner.rounds@.len()),
            self.pre_fits(pre, b),
            base.len() == self.vars_left(self.inner.rounds@.len()),
        ensures
            ({
                let j = self.join_rounds()[b];
                &&& j < self.inner.rounds@.len()
                &&& w.starts[j as int] <= w.points.len()
                &&& bundle_point(w, pre, j, base).len() == ceil_log2_spec(
                    self.bundle_configs@[b].irs_config.vector_size as nat,
                )
                &&& self.vars_left(j) == ceil_log2_spec(self.code_at_join(b).vector_size as nat)
            }),
    {
        assert(self.bundle_ok(b)) by {
            self.lemma_bundle_ok(b);
        }
        let rounds = self.inner.rounds@;
        let n = rounds.len();
        let j = self.join_rounds()[b];
        assert(w.starts[j as int] + self.vars_left(j) == self.vars_left(0));
        assert(w.starts[n as int] + self.vars_left(n) == self.vars_left(0));
        assert(rounds[j as int].wf());
    }

    /// Verify the claims about all bundles. The claim that is left must be checked
    /// against the bundles.
    pub fn verify(
        &self,
        vs: &mut VerifierState,
        commitments: Vec<BundleCommitment>,
        bundles: &[&BundleDescriptor<'_>],
        floors: &BatchedFloors,
    ) -> (r: Result<FinalClaim, VerificationError>)
        requires
            self.wf(),
            self.floors_fit(*floors),
            floors.claims@.len() == self.bundle_configs@.len(),
            forall|i: int| 0 <= i < bundles@.len() ==> (#[trigger] bundles@[i]).usable(),
        ensures
            !self.admitted(commitments@, bundles@, *floors) ==> r is Err,
            self.admitted(commitments@, bundles@, *floors) ==> match self.batch_verified(
                bundle_roots(commitments@),
                bundle_claims(bundles@),
                bundle_batchings(commitments@),
                old(vs)@,
            ) {
                None => r is Err,
                Some(o) => {
                    &&& r is Ok
                    &&& group_views(r->Ok_0.groups@) == o.groups
                    &&& r->Ok_0.linear_forms_contribution@ == o.contribution
                    &&& final(vs)@ == o.view
                    &&& r->Ok_0.groups@.len() == bundles@.len()
                    &&& forall|i: int|
                        0 <= i < bundles@.len() ==> (#[trigger] r->Ok_0.groups@[i]).evaluation_point@.len()
                            == ceil_log2_spec(bundles@[i].num_polys as nat) + ceil_log2_spec(
                            bundles@[i].length as nat,
                        )
                },
            },
    {
        if !self.accepts_inputs(&commitments, bundles, floors) {
            return Err(VerificationError);
        }
        proof {
            law_structure_accepted(self);
        }
        let ghost v0 = vs@;
        let ghost roots = bundle_roots(commitments@);
        let ghost claims = bundle_claims(bundles@);
        let ghost batchings = bundle_batchings(commitments@);
        let n: usize = commitments.len();
        let (slots, data): (Vec<Option<VerifierBlock>>, Vec<BundlePreMergeData>) =
            match self.verify_pre_merge(vs, &commitments, bundles) {
            Ok(x) => x,
            Err(e) => {
                return Err(e);
            },
        };
        let ghost pres = self.pre_checked(
            intro_checks(roots, claims, batchings),
            n as nat,
            v0,
        ).unwrap().0;
        let walk: SharedWalk = match self.verify_shared(vs, slots, Ghost(blocks_after(pres))) {
            Ok(w) => w,
            Err(e) => {
                return Err(e);
            },
        };
        let ghost w = self.walk_checked(
            blocks_after(pres),
            self.inner.rounds@.len(),
            self.pre_checked(intro_checks(roots, claims, batchings), n as nat, v0).unwrap().1,
        ).unwrap();
        let opening: basecase::Opening = match &walk.carrier {
            Some(c) => match self.inner.basecase.config.verify(vs, &c.commitments[0], c.sum) {
                Ok(o) => o,
                Err(e) => {
                    return Err(e);
                },
            },
            None => {
                return Err(VerificationError);
            },
        };
        proof {
            self.lemma_basecase_size();
            crate::sumcheck_laws::lemma_size_bound(&self.inner.basecase.config.sumcheck);
            assert forall|i: int| 0 <= i < bundles@.len() implies ceil_log2_spec(
                (#[trigger] self.bundle_configs@[i]).irs_config.vector_size as nat,
            ) == ceil_log2_spec(bundles@[i].num_polys as nat) + ceil_log2_spec(
                bundles@[i].length as nat,
            ) by {
                assert(bundles@[i].valid());
                assert(self.bundle_wf(i));
                let log_n = ceil_log2_spec(bundles@[i].num_polys as nat);
                let log_len = ceil_log2_spec(bundles@[i].length as nat);
                crate::arith::lemma_pow2_sum(log_n, log_len);
                crate::arith::lemma_ceil_log2_pow2(log_n + log_len);
            }
        }
        self.finish(
            walk,
            data,
            &commitments,
            opening,
            Ghost(w),
            Ghost(pres),
        )
    }

    /// The base case's size is what the shared rounds leave.
    pub proof fn lemma_basecase_size(&self)
        requires
            self.wf(),
            self.well_placed(),
        ensures
            self.inner.basecase.config.spec_size() > 0,
            ceil_log2_spec(self.inner.basecase.config.spec_size()) == self.vars_left(
                self.inner.rounds@.len(),
            ),
    {
        let n = self.inner.rounds@.len();
        self.lemma_all_join();
        self.lemma_join_ok(0);
        let last = self.inner.rounds@[n - 1];
        assert(last.wf());
        lemma_round_variables(&last);
        crate::zook::round_laws::lemma_source_sizes(&last);
    }

    /// Gather what is left to check.
    #[verifier::rlimit(40)]
    fn finish(
        &self,
        walk: SharedWalk,
        data: Vec<BundlePreMergeData>,
        commitments: &Vec<BundleCommitment>,
        opening: basecase::Opening,
        Ghost(w): Ghost<BatchWalk>,
        Ghost(pres): Ghost<Seq<Walk>>,
    ) -> (r: Result<FinalClaim, VerificationError>)
        requires
            self.wf(),
            self.well_placed(),
            walk.is(w),
            self.batch_fits(w, self.inner.rounds@.len()),
            pre_data(data@, pres),
            pres.len() == self.bundle_configs@.len(),
            commitments@.len() == pres.len(),
            forall|b: int| 0 <= b < pres.len() ==> self.pre_fits(#[trigger] pres[b], b),
            opening.evaluation_points@.len() == self.vars_left(self.inner.rounds@.len()),
        ensures
            ({
                let base = vals(opening.evaluation_points@);
                &&& r is Ok
                &&& group_views(r->Ok_0.groups@) == Seq::new(
                    pres.len(),
                    |b: int|
                        bundle_group(
                            w,
                            pres[b],
                            b,
                            self.join_rounds()[b],
                            base,
                            bundle_batchings(commitments@)[b],
                        ),
                )
                &&& r->Ok_0.groups@.len() == pres.len()
                &&& forall|b: int|
                    0 <= b < pres.len() ==> (#[trigger] r->Ok_0.groups@[b]).evaluation_point@.len()
                        == ceil_log2_spec(self.bundle_configs@[b].irs_config.vector_size as nat)
                &&& r->Ok_0.linear_forms_contribution@ == fsub(
                    opening.linear_form_evaluation@,
                    fadd(
                        fsum(
                            constraint_terms(
                                w.constraints,
                                mixed(w.scales, w.extras),
                                w.starts,
                                w.points + base,
                            ),
                            w.constraints.len(),
                        ),
                        fsum(pre_merge_terms(w, pres, self.join_rounds(), base), pres.len()),
                    ),
                )
            }),
    {
        let ghost base = vals(opening.evaluation_points@);
        let ghost both = mixed(w.scales, w.extras);
        proof {
            assert(vals(walk.points@).len() == walk.points@.len());
            assert(vals(walk.scales@).len() == walk.scales@.len());
            assert(vals(walk.extras@).len() == walk.extras@.len());
            assert(base.len() == opening.evaluation_points@.len());
        }
        let count: usize = walk.scales.len();
        let mut factors: Vec<Field64> = Vec::new();
        for i in 0..count
            invariant
                walk.is(w),
                count == walk.scales@.len(),
                count == walk.extras@.len(),
                both == mixed(w.scales, w.extras),
                w.scales.len() == count,
                vals(factors@) =~= both.take(i as int),
        {
            proof {
                assert(vals(walk.scales@)[i as int] == walk.scales@[i as int]@);
                assert(vals(walk.extras@)[i as int] == walk.extras@[i as int]@);
            }
            let f: Field64 = walk.scales[i].mul(walk.extras[i]);
            proof {
                lemma_vals_push(factors@, f);
            }
            factors.push(f);
        }
        proof {
            assert(vals(factors@) =~= both);
            assert(factors@.len() == vals(factors@).len());
        }
        let suffixes: Vec<Field64> = scale_suffixes(factors.as_slice());
        let full: Vec<Field64> = concat(
            walk.points.as_slice(),
            opening.evaluation_points.as_slice(),
        );
        proof {
            assert(full@.len() == vals(full@).len());
            assert(w.starts[self.inner.rounds@.len() as int] + self.vars_left(
                self.inner.rounds@.len(),
            ) == self.vars_left(0));
        }
        let shared: Field64 = constraint_sum(
            walk.constraints.as_slice(),
            suffixes.as_slice(),
            walk.starts.as_slice(),
            full.as_slice(),
            Ghost(both),
        );
        let n: usize = data.len();
        let mut own: Field64 = Field64::zero();
        let mut groups: Vec<ClaimGroup> = Vec::new();
        let ghost expected = Seq::new(
            pres.len(),
            |b: int|
                bundle_group(
                    w,
                    pres[b],
                    b,
                    self.join_rounds()[b],
                    base,
                    bundle_batchings(commitments@)[b],
                ),
        );
        for b in 0..n
            invariant
                self.wf(),
                self.well_placed(),
                n == data@.len(),
                n == pres.len(),
                n == commitments@.len(),
                n == self.bundle_configs@.len(),
                walk.is(w),
                self.batch_fits(w, self.inner.rounds@.len()),
                pre_data(data@, pres),
                forall|c: int| 0 <= c < pres.len() ==> self.pre_fits(#[trigger] pres[c], c),
                base == vals(opening.evaluation_points@),
                opening.evaluation_points@.len() == self.vars_left(self.inner.rounds@.len()),
                both == mixed(w.scales, w.extras),
                suffixes@.len() == self.inner.rounds@.len() + 1,
                forall|k: int|
                    0 <= k < suffixes@.len() ==> (#[trigger] suffixes@[k])@ == scale_suffix(
                        both,
                        k as nat,
                    ),
                expected == Seq::new(
                    pres.len(),
                    |b: int|
                        bundle_group(
                            w,
                            pres[b],
                            b,
                            self.join_rounds()[b],
                            base,
                            bundle_batchings(commitments@)[b],
                        ),
                ),
                groups@.len() == b,
                group_views(groups@) =~= expected.take(b as int),
                forall|c: int|
                    0 <= c < b ==> (#[trigger] groups@[c]).evaluation_point@.len()
                        == ceil_log2_spec(self.bundle_configs@[c].irs_config.vector_size as nat),
                own@ == fsum(pre_merge_terms(w, pres, self.join_rounds(), base), b as nat),
        {
            assert(data@[b as int].is(pres[b as int]));
            assert(self.pre_fits(pres[b as int], b as int));
            proof {
                assert(base.len() == opening.evaluation_points@.len());
                self.lemma_bundle_point(w, pres[b as int], b as int, base);
                assert(self.bundle_ok(b as int)) by {
                    self.lemma_bundle_ok(b as int);
                }
            }
            let j: usize = match self.bundle_configs[b].join_round {
                Some(r) => r,
                None => 0,
            };
            let (group, value): (ClaimGroup, Field64) = finish_bundle(
                &walk,
                &suffixes,
                &data[b],
                b,
                j,
                &opening.evaluation_points,
                commitments[b].batching_challenge,
                Ghost(w),
                Ghost(pres[b as int]),
            );
            let ghost before = groups@;
            let ghost gv = group@;
            assert(gv.point.len() == group.evaluation_point@.len());
            groups.push(group);
            assert(group_views(groups@) =~= group_views(before).push(gv));
            own = own.add(value);
        }
        assert(group_views(groups@) =~= expected);
        let contribution: Field64 = opening.linear_form_evaluation.sub(shared.add(own));
        Ok(FinalClaim { groups, linear_forms_contribution: contribution })
    }
}

} // verus!
