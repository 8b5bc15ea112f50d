//! The batched prover: every bundle becomes a block, runs its own rounds, and joins the
//! shared rounds.

use crate::arith::is_pow2;
use crate::basecase;
use crate::field::{vals, Field64};
use crate::irs_commit;
use crate::irs_commit::{all_vals, matrices_of};
use crate::irs_laws::same_shape;
use crate::params::batched::config::{
    find_join, seen, BatchedFloors, BatchedProtocolConfig, RoundJoin,
};
use crate::params::batched::structure_laws::{
    joins_before, law_structure_accepted, lemma_joins_before,
};
use crate::params::config::{rounds_chained, RoundConfig};
use crate::transcript::{ProverState, ProverView};
use crate::zook::batched::bundle::{
    build_bundle_claim, bundle_covector, bundle_sum, total_claims, BundleClaimMaterial, ClaimView,
    WitnessBundle,
};
use crate::zook::batched::commit::BundleCommittedWitness;
use crate::zook::batched::selector::merge;
use crate::zook::block::{lemma_prover_block_shape, masks_of, single_block, BlockView, ProverBlock};
use crate::zook::prove::{prove_rounds, rounds_proved, unstuck};
use crate::zook::round::prove_whir_round;
use vstd::prelude::*;

verus! {

/// The block of a committed bundle: its polynomials against its combined claims.
pub open spec fn intro_block(
    message: Seq<int>,
    masks: Seq<int>,
    matrix: Seq<int>,
    claims: Seq<Seq<ClaimView>>,
    len: nat,
    batching: int,
) -> BlockView {
    single_block(
        message,
        bundle_covector(claims, batching, len),
        bundle_sum(claims, batching),
        matrix,
        masks,
    )
}

/// The messages of several blocks.
pub open spec fn messages_of(blocks: Seq<BlockView>) -> Seq<Seq<int>> {
    Seq::new(blocks.len(), |b: int| blocks[b].message)
}

/// The covectors of several blocks.
pub open spec fn block_covectors(blocks: Seq<BlockView>) -> Seq<Seq<int>> {
    Seq::new(blocks.len(), |b: int| blocks[b].covector)
}

/// The sums of several blocks.
pub open spec fn sums_of(blocks: Seq<BlockView>) -> Seq<int> {
    Seq::new(blocks.len(), |b: int| blocks[b].sum)
}

/// Several blocks merged into one; a single block stays as it is.
pub open spec fn merged_block(cfg: merge::Config, blocks: Seq<BlockView>, p: ProverView) -> (
    BlockView,
    ProverView,
) {
    if blocks.len() == 1 {
        (blocks[0], p)
    } else {
        let m = cfg.merged(messages_of(blocks), block_covectors(blocks), sums_of(blocks), p);
        (
            BlockView {
                message: m.message,
                covector: m.covector,
                sum: m.sum,
                matrices: Seq::new(blocks.len(), |b: int| blocks[b].matrices[0]),
                masks: Seq::new(blocks.len(), |b: int| blocks[b].masks[0]),
                theta: m.theta,
            },
            m.view,
        )
    }
}

/// The carrier, if there is one, in front of other blocks.
pub open spec fn with_carrier<T>(carrier: Option<T>, joining: Seq<T>) -> Seq<T> {
    match carrier {
        None => joining,
        Some(c) => seq![c] + joining,
    }
}

impl BatchedProtocolConfig {
    /// The blocks of the first `k` bundles after their own rounds; `None` if one
    /// fails.
    pub open spec fn pre_merged(&self, blocks: Seq<BlockView>, k: nat, p: ProverView) -> Option<
        (Seq<BlockView>, ProverView),
    >
        decreases k,
    {
        if k == 0 {
            Some((Seq::empty(), p))
        } else {
            match self.pre_merged(blocks, (k - 1) as nat, p) {
                None => None,
                Some((done, mid)) => {
                    let rounds = self.bundle_configs@[k - 1].pre_merge_rounds@;
                    match rounds_proved(rounds, rounds.len(), blocks[k - 1], mid) {
                        None => None,
                        Some((b, end)) => Some((done.push(b), end)),
                    }
                },
            }
        }
    }

    /// The blocks that enter a shared round, merged: the carrier and the bundles that
    /// join.
    #[verifier::opaque]
    pub open spec fn entering(
        &self,
        blocks: Seq<BlockView>,
        r: int,
        carrier: Option<BlockView>,
        p: ProverView,
    ) -> (BlockView, ProverView) {
        let joins = self.schedule.joins@;
        match find_join(joins, Some(r as usize), joins.len()) {
            None => (carrier.unwrap(), p),
            Some(j) => merged_block(
                joins[j].selector,
                with_carrier(carrier, picked(blocks, joins[j].bundle_indices@)),
                p,
            ),
        }
    }

    /// The carrier after the first `k` shared rounds; `None` if one fails.
    pub open spec fn walked(&self, blocks: Seq<BlockView>, k: nat, p: ProverView) -> Option<
        (Option<BlockView>, ProverView),
    >
        decreases k,
    {
        if k == 0 {
            Some((None, p))
        } else {
            match self.walked(blocks, (k - 1) as nat, p) {
                None => None,
                Some((carrier, mid)) => {
                    let (block, after) = self.entering(blocks, k - 1, carrier, mid);
                    match self.inner.rounds@[k - 1].round_proved(block, after) {
                        None => None,
                        Some(o) => Some((Some(o.block), o.view)),
                    }
                },
            }
        }
    }

    /// The prover at the end; `None`, with negligible probability, if a challenge that
    /// must not be zero is, a folded witness is zero, or some work has no solution.
    pub open spec fn batch_proved(&self, blocks: Seq<BlockView>, p: ProverView) -> Option<
        basecase::Opened,
    > {
        match self.pre_merged(blocks, blocks.len(), p) {
            None => None,
            Some((ready, mid)) => match self.walked(ready, self.inner.rounds@.len(), mid) {
                None => None,
                Some((carrier, end)) => {
                    let b = carrier.unwrap();
                    unstuck(
                        self.inner.basecase.config.opened(
                            b.message,
                            b.masks[0],
                            b.matrices[0],
                            b.covector,
                            b.sum,
                            end,
                        ),
                    )
                },
            },
        }
    }
}

/// The entries at the given indices.
pub open spec fn picked<T>(xs: Seq<T>, indices: Seq<usize>) -> Seq<T> {
    Seq::new(indices.len(), |m: int| xs[indices[m] as int])
}

/// The blocks of committed bundles.
pub open spec fn intro_blocks(committed: Seq<BundleCommittedWitness>, bundles: Seq<&WitnessBundle<'_>>) -> Seq<
    BlockView,
> {
    Seq::new(
        committed.len(),
        |i: int|
            intro_block(
                vals(committed[i].state.message()),
                vals(committed[i].state.irs().masks@),
                vals(committed[i].state.irs().matrix@),
                bundles[i].claims(),
                bundles[i].spec_poly_len(),
                committed[i].batching_challenge@,
            ),
    )
}

/// How many claims every bundle has.
pub open spec fn claim_counts(bundles: Seq<&WitnessBundle<'_>>) -> Seq<usize> {
    Seq::new(bundles.len(), |i: int| total_claims(bundles[i].claims()) as usize)
}

/// A block without content.
fn no_block() -> (r: ProverBlock) {
    ProverBlock {
        message: Vec::new(),
        covector: Vec::new(),
        sum: Field64::zero(),
        witnesses: Vec::new(),
        theta: Vec::new(),
    }
}

/// The view of a block, if there is one.
pub open spec fn viewed(block: Option<ProverBlock>) -> Option<BlockView> {
    match block {
        Some(b) => Some(b@),
        None => None,
    }
}

/// The views of several blocks.
pub open spec fn block_views(blocks: Seq<ProverBlock>) -> Seq<BlockView> {
    Seq::new(blocks.len(), |b: int| blocks[b]@)
}

/// Merge the active blocks into one; a single block stays as it is.
fn merge_active(
    join: &RoundJoin,
    source: &irs_commit::Config,
    active: Vec<ProverBlock>,
    ps: &mut ProverState,
) -> (r: ProverBlock)
    requires
        join.selector.wf(),
        join.selector.t == active@.len(),
        active@.len() >= 1,
        join.selector.selector.message_length == source.vector_size,
        is_pow2(source.vector_size as nat),
        forall|b: int|
            0 <= b < active@.len() ==> (#[trigger] active@[b]).wf(source)
                && active@[b].witnesses@.len() == 1,
    ensures
        merged_block(join.selector, block_views(active@), old(ps)@) == (r@, final(ps)@),
        r.wf(source),
        r.witnesses@.len() == active@.len(),
{
    let mut active = active;
    let ghost start = active@;
    let ghost views = block_views(active@);
    let n: usize = active.len();
    if n == 1 {
        match active.pop() {
            Some(b) => {
                assert(b == start[0]);
                return b;
            },
            None => {
                return no_block();
            },
        }
    }
    let mut messages: Vec<Vec<Field64>> = Vec::new();
    let mut covectors: Vec<Vec<Field64>> = Vec::new();
    let mut sums: Vec<Field64> = Vec::new();
    let mut witnesses: Vec<irs_commit::Witness> = Vec::new();
    for b in 0..n
        invariant
            n == start.len(),
            active@.len() == n,
            views == block_views(start),
            forall|c: int|
                0 <= c < n ==> (#[trigger] start[c]).wf(source) && start[c].witnesses@.len() == 1,
            forall|c: int| b <= c < n ==> #[trigger] active@[c] == start[c],
            messages@.len() == b,
            covectors@.len() == b,
            sums@.len() == b,
            witnesses@.len() == b,
            forall|c: int| 0 <= c < b ==> (#[trigger] messages@[c]) == start[c].message,
            forall|c: int| 0 <= c < b ==> (#[trigger] covectors@[c]) == start[c].covector,
            forall|c: int| 0 <= c < b ==> (#[trigger] sums@[c]) == start[c].sum,
            forall|c: int| 0 <= c < b ==> (#[trigger] witnesses@[c]) == start[c].witnesses@[0],
    {
        let mut slot: ProverBlock = no_block();
        std::mem::swap(&mut active[b], &mut slot);
        assert(slot == start[b as int]);
        let ProverBlock { message, covector, sum, witnesses: ws, theta } = slot;
        let mut ws: Vec<irs_commit::Witness> = ws;
        let ghost w0 = ws@[0];
        messages.push(message);
        covectors.push(covector);
        sums.push(sum);
        match ws.pop() {
            Some(w) => {
                witnesses.push(w);
            },
            None => {},
        }
    }
    proof {
        assert forall|b: int| 0 <= b < messages@.len() implies (#[trigger] messages@[b])@.len()
            == join.selector.selector.message_length by {
            assert(start[b].wf(source));
        }
        assert forall|b: int| 0 <= b < covectors@.len() implies (#[trigger] covectors@[b])@.len()
            == join.selector.selector.message_length by {
            assert(start[b].wf(source));
        }
        assert(all_vals(messages@) =~= messages_of(views));
        assert(all_vals(covectors@) =~= block_covectors(views));
        assert(vals(sums@) =~= sums_of(views));
    }
    let merged: merge::Witness = join.selector.prove(
        ps,
        messages.as_slice(),
        covectors.as_slice(),
        sums.as_slice(),
    );
    let r = ProverBlock {
        message: merged.merged_message,
        covector: merged.merged_covector,
        sum: merged.sum,
        witnesses,
        theta: merged.theta,
    };
    proof {
        assert forall|b: int| 0 <= b < n implies (#[trigger] r.witnesses@[b]).wf(source) by {
            assert(start[b].wf(source));
            assert(start[b].witnesses@[0].wf(source));
        }
        assert(matrices_of(r.witnesses@) =~= Seq::new(
            views.len(),
            |b: int| views[b].matrices[0],
        ));
        assert(masks_of(r.witnesses@) =~= Seq::new(views.len(), |b: int| views[b].masks[0]));
    }
    r
}

impl BatchedProtocolConfig {
    /// May a committed bundle be proved: are its handle and its claims of the
    /// configured size?
    pub open spec fn provable(&self, i: int, committed: BundleCommittedWitness, bundle: &WitnessBundle<'_>) -> bool {
        let cfg = self.bundle_configs@[i];
        &&& bundle.well_formed()
        &&& bundle.polys@.len() == cfg.spec.num_polys
        &&& bundle.spec_poly_len() == cfg.spec.length
        &&& committed.state is Round
        &&& committed.state.wf(&cfg.irs_config)
    }

    /// The block of a committed bundle.
    fn intro_bundle(&self, i: usize, bundle: &WitnessBundle<'_>, committed: BundleCommittedWitness) -> (r:
        ProverBlock)
        requires
            self.wf(),
            i < self.bundle_configs@.len(),
            self.provable(i as int, committed, bundle),
        ensures
            r@ == intro_block(
                vals(committed.state.message()),
                vals(committed.state.irs().masks@),
                vals(committed.state.irs().matrix@),
                bundle.claims(),
                bundle.spec_poly_len(),
                committed.batching_challenge@,
            ),
            r.wf(&self.bundle_configs@[i as int].irs_config),
            r.witnesses@.len() == 1,
    {
        proof {
            assert(self.bundle_wf(i as int));
        }
        let reduced: BundleClaimMaterial = build_bundle_claim(bundle, committed.batching_challenge);
        let (message, irs_witness): (Vec<Field64>, irs_commit::Witness) = committed.state.into_parts();
        ProverBlock::single_source(message, reduced.covector, reduced.sum, irs_witness)
    }

    /// Prove the claims about all bundles. `None`, with negligible probability, if a
    /// challenge that must not be zero is.
    pub fn prove(
        &self,
        ps: &mut ProverState,
        committed: Vec<BundleCommittedWitness>,
        bundles: &[&WitnessBundle<'_>],
        floors: &BatchedFloors,
    ) -> (r: Option<()>)
        requires
            self.wf(),
            committed@.len() == bundles@.len(),
            committed@.len() == self.bundle_configs@.len(),
            forall|i: int|
                0 <= i < committed@.len() ==> self.provable(i, #[trigger] committed@[i], bundles@[i]),
            self.floors_fit(*floors),
            floors.claims@.len() == self.bundle_configs@.len(),
            self.claims_fault(claim_counts(bundles@), *floors) is None,
        ensures
            match self.batch_proved(intro_blocks(committed@, bundles@), old(ps)@) {
                None => r is None,
                Some(o) => r is Some && final(ps)@ == o.view,
            },
    {
        proof {
            law_structure_accepted(self);
        }
        let ghost intro = intro_blocks(committed@, bundles@);
        let ready: Vec<Option<ProverBlock>> = match self.prove_pre_merge(ps, committed, bundles) {
            Some(x) => x,
            None => {
                return None;
            },
        };
        let ghost blocks = self.pre_merged(intro, intro.len(), old(ps)@).unwrap().0;
        proof {
            self.lemma_ready_waits(ready@, blocks);
        }
        let carrier: ProverBlock = match self.prove_shared(ps, ready, Ghost(blocks)) {
            Some(c) => c,
            None => {
                return None;
            },
        };
        proof {
            lemma_prover_block_shape(
                &carrier,
                &self.inner.last_code(),
                &self.inner.basecase.config.commit,
            );
        }
        let ProverBlock { message, covector, sum, witnesses, theta } = carrier;
        let mut ws: Vec<irs_commit::Witness> = witnesses;
        let ghost w0 = ws@[0];
        match ws.pop() {
            Some(witness) => match self.inner.basecase.config.prove(
                ps,
                message,
                witness,
                covector,
                sum,
            ) {
                Some(opening) => if ps.stuck {
                    None
                } else {
                    Some(())
                },
                None => None,
            },
            None => None,
        }
    }

    /// Turn a bundle into a block, and run its own rounds.
    #[verifier::rlimit(40)]
    fn prove_bundle(
        &self,
        ps: &mut ProverState,
        i: usize,
        bundle: &WitnessBundle<'_>,
        committed: BundleCommittedWitness,
    ) -> (r: Option<ProverBlock>)
        requires
            self.wf(),
            i < self.bundle_configs@.len(),
            self.provable(i as int, committed, bundle),
        ensures
            ({
                let rounds = self.bundle_configs@[i as int].pre_merge_rounds@;
                let start = intro_block(
                    vals(committed.state.message()),
                    vals(committed.state.irs().masks@),
                    vals(committed.state.irs().matrix@),
                    bundle.claims(),
                    bundle.spec_poly_len(),
                    committed.batching_challenge@,
                );
                match rounds_proved(rounds, rounds.len(), start, old(ps)@) {
                    None => r is None,
                    Some((b, view)) => {
                        &&& r is Some
                        &&& r.unwrap()@ == b
                        &&& final(ps)@ == view
                        &&& r.unwrap().wf(&self.code_at_join(i as int))
                        &&& r.unwrap().witnesses@.len() == 1
                    },
                }
            }),
    {
        let block: ProverBlock = self.intro_bundle(i, bundle, committed);
        let rounds: &Vec<RoundConfig> = &self.bundle_configs[i].pre_merge_rounds;
        proof {
            law_structure_accepted(self);
            self.lemma_pre_merge_chained(i as int);
            if rounds@.len() > 0 {
                lemma_prover_block_shape(
                    &block,
                    &self.bundle_configs@[i as int].irs_config,
                    &rounds@[0].cs().source,
                );
            }
        }
        let ghost first = if rounds@.len() > 0 {
            rounds@[0].cs().source
        } else {
            self.bundle_configs@[i as int].irs_config
        };
        prove_rounds(rounds.as_slice(), block, ps, Ghost(first))
    }

    /// Turn every bundle into a block, and run its own rounds.
    fn prove_pre_merge(
        &self,
        ps: &mut ProverState,
        committed: Vec<BundleCommittedWitness>,
        bundles: &[&WitnessBundle<'_>],
    ) -> (r: Option<Vec<Option<ProverBlock>>>)
        requires
            self.wf(),
            self.well_placed(),
            committed@.len() == bundles@.len(),
            committed@.len() == self.bundle_configs@.len(),
            forall|i: int|
                0 <= i < committed@.len() ==> self.provable(i, #[trigger] committed@[i], bundles@[i]),
        ensures
            match self.pre_merged(
                intro_blocks(committed@, bundles@),
                committed@.len(),
                old(ps)@,
            ) {
                None => r is None,
                Some((blocks, view)) => {
                    &&& r is Some
                    &&& final(ps)@ == view
                    &&& self.ready(r.unwrap()@, blocks)
                },
            },
    {
        let ghost start = committed@;
        let ghost intro = intro_blocks(committed@, bundles@);
        let n: usize = committed.len();
        let mut rest: Vec<BundleCommittedWitness> = committed;
        let mut slots: Vec<Option<ProverBlock>> = Vec::new();
        // The handles are taken from the end, so that the first comes last.
        let mut handles: Vec<BundleCommittedWitness> = Vec::new();
        for i in 0..n
            invariant
                n == start.len(),
                rest@ == start.take(n - i),
                handles@.len() == i,
                forall|c: int| 0 <= c < i ==> #[trigger] handles@[c] == start[n - 1 - c],
        {
            match rest.pop() {
                Some(h) => {
                    handles.push(h);
                },
                None => {},
            }
            assert(rest@ =~= start.take(n - i - 1));
        }
        let ghost mut done: Seq<BlockView> = Seq::empty();
        for i in 0..n
            invariant
                self.wf(),
                self.well_placed(),
                n == start.len(),
                n == bundles@.len(),
                n == self.bundle_configs@.len(),
                start == committed@,
                intro == intro_blocks(start, bundles@),
                forall|c: int|
                    0 <= c < start.len() ==> self.provable(c, #[trigger] start[c], bundles@[c]),
                handles@.len() == n - i,
                forall|c: int| 0 <= c < n - i ==> #[trigger] handles@[c] == start[n - 1 - c],
                self.pre_merged(intro, i as nat, old(ps)@) == Some((done, ps@)),
                slots@.len() == i,
                done.len() == i,
                forall|b: int|
                    0 <= b < i ==> ((#[trigger] slots@[b]) matches Some(block) && block@ == done[b]
                        && block.wf(&self.code_at_join(b)) && block.witnesses@.len() == 1),
        {
            match handles.pop() {
                Some(h) => {
                    assert(h == start[i as int]);
                    assert(self.provable(i as int, start[i as int], bundles@[i as int]));
                    let next: ProverBlock = match self.prove_bundle(ps, i, bundles[i], h) {
                        Some(b) => b,
                        None => {
                            proof {
                                self.lemma_pre_merged_fails(
                                    intro,
                                    (i + 1) as nat,
                                    n as nat,
                                    old(ps)@,
                                );
                            }
                            return None;
                        },
                    };
                    proof {
                        done = done.push(next@);
                    }
                    slots.push(Some(next));
                },
                None => {},
            }
        }
        Some(slots)
    }

    /// Are these the blocks of all bundles, none taken yet?
    pub open spec fn ready(&self, slots: Seq<Option<ProverBlock>>, blocks: Seq<BlockView>) -> bool {
        &&& slots.len() == self.bundle_configs@.len()
        &&& blocks.len() == slots.len()
        &&& forall|b: int|
            0 <= b < slots.len() ==> ((#[trigger] slots[b]) matches Some(block) && block@ == blocks[b]
                && block.wf(&self.code_at_join(b)) && block.witnesses@.len() == 1)
    }

    /// Are these the blocks of the bundles that have not joined yet?
    pub open spec fn waiting(
        &self,
        slots: Seq<Option<ProverBlock>>,
        blocks: Seq<BlockView>,
        j: nat,
        m: nat,
    ) -> bool {
        &&& slots.len() == self.bundle_configs@.len()
        &&& blocks.len() == slots.len()
        &&& forall|b: int|
            0 <= b < slots.len() && !seen(self.schedule.joins@, j, m, b) ==> ((
            #[trigger] slots[b]) matches Some(block) && block@ == blocks[b] && block.wf(
                &self.code_at_join(b),
            ) && block.witnesses@.len() == 1)
    }

    /// Take the blocks of the bundles that join out of the waiting ones, behind the
    /// carrier.
    fn take_joining_blocks(
        &self,
        join: &RoundJoin,
        source: &irs_commit::Config,
        carrier: Option<ProverBlock>,
        slots: &mut Vec<Option<ProverBlock>>,
        Ghost(r): Ghost<int>,
        Ghost(jn): Ghost<nat>,
        Ghost(blocks): Ghost<Seq<BlockView>>,
    ) -> (active: Vec<ProverBlock>)
        requires
            self.well_placed(),
            jn < self.schedule.joins@.len(),
            *join == self.schedule.joins@[jn as int],
            0 <= r < self.inner.rounds@.len(),
            self.join_round(jn as int) == r,
            *source == self.inner.rounds@[r].cs().source,
            carrier matches Some(c) ==> c.witnesses@.len() == 1 && c.wf(source),
            self.waiting(old(slots)@, blocks, jn, 0),
        ensures
            block_views(active@) == with_carrier(
                viewed(carrier),
                picked(blocks, join.bundle_indices@),
            ),
            forall|c: int|
                0 <= c < active@.len() ==> (#[trigger] active@[c]).wf(source)
                    && active@[c].witnesses@.len() == 1,
            self.waiting(final(slots)@, blocks, jn, join.bundle_indices@.len()),
    {
        let ghost joins = self.schedule.joins@;
        let ghost ind = join.bundle_indices@;
        let ghost before = viewed(carrier);
        let mut active: Vec<ProverBlock> = Vec::new();
        match carrier {
            Some(c) => {
                active.push(c);
            },
            None => {},
        }
        let ghost first = active@;
        let count: usize = join.bundle_indices.len();
        assert(block_views(active@) =~= block_views(first) + picked(blocks, ind).take(0));
        for m in 0..count
            invariant
                self.well_placed(),
                joins == self.schedule.joins@,
                jn < joins.len(),
                *join == joins[jn as int],
                ind == join.bundle_indices@,
                count == ind.len(),
                0 <= r < self.inner.rounds@.len(),
                self.join_round(jn as int) == r,
                *source == self.inner.rounds@[r].cs().source,
                self.waiting(slots@, blocks, jn, m as nat),
                forall|c: int|
                    0 <= c < active@.len() ==> (#[trigger] active@[c]).wf(source)
                        && active@[c].witnesses@.len() == 1,
                block_views(active@) == block_views(first) + picked(blocks, ind).take(m as int),
        {
            let idx: usize = join.bundle_indices[m];
            proof {
                self.lemma_index_ok(jn as int, m as int);
                self.lemma_bundle_ok(idx as int);
            }
            let mut slot: Option<ProverBlock> = None;
            let ghost slots_before = slots@;
            std::mem::swap(&mut slots[idx], &mut slot);
            match slot {
                Some(b) => {
                    let ghost active_before = active@;
                    proof {
                        lemma_prover_block_shape(&b, &self.code_at_join(idx as int), source);
                    }
                    active.push(b);
                    proof {
                        assert(block_views(active@) =~= block_views(active_before).push(b@));
                        assert(picked(blocks, ind).take(m + 1) =~= picked(blocks, ind).take(
                            m as int,
                        ).push(blocks[idx as int]));
                        assert(block_views(first) + picked(blocks, ind).take(m + 1) =~= (block_views(
                            first,
                        ) + picked(blocks, ind).take(m as int)).push(blocks[idx as int]));
                    }
                },
                None => {},
            }
            assert(self.waiting(slots@, blocks, jn, (m + 1) as nat)) by {
                assert forall|b: int|
                    0 <= b < slots@.len() && !seen(joins, jn, (m + 1) as nat, b) implies ((
                #[trigger] slots@[b]) matches Some(block) && block@ == blocks[b] && block.wf(
                    &self.code_at_join(b),
                ) && block.witnesses@.len() == 1) by {
                    assert(!seen(joins, jn, m as nat, b));
                    assert(b != idx);
                    assert(slots@[b] == slots_before[b]);
                }
            }
        }
        proof {
            assert(picked(blocks, ind).take(count as int) =~= picked(blocks, ind));
            assert(block_views(active@) =~= with_carrier(before, picked(blocks, ind)));
        }
        active
    }

    /// Merge the blocks that enter a shared round: the carrier and the bundles that
    /// join.
    #[verifier::rlimit(40)]
    fn merge_at(
        &self,
        ps: &mut ProverState,
        r: usize,
        carrier: Option<ProverBlock>,
        slots: &mut Vec<Option<ProverBlock>>,
        Ghost(blocks): Ghost<Seq<BlockView>>,
    ) -> (block: ProverBlock)
        requires
            self.wf(),
            self.well_placed(),
            r < self.inner.rounds@.len(),
            carrier is Some <==> r > 0,
            carrier matches Some(c) ==> c.witnesses@.len() == 1 && c.wf(
                &self.inner.rounds@[r - 1].cs().target,
            ),
            self.waiting(
                old(slots)@,
                blocks,
                joins_before(self.schedule.joins@, r as nat, self.schedule.joins@.len()),
                0,
            ),
        ensures
            self.entering(
                blocks,
                r as int,
                viewed(carrier),
                old(ps)@,
            ) == (block@, final(ps)@),
            block.wf(&self.inner.rounds@[r as int].cs().source),
            self.waiting(
                final(slots)@,
                blocks,
                joins_before(self.schedule.joins@, (r + 1) as nat, self.schedule.joins@.len()),
                0,
            ),
    {
        reveal(BatchedProtocolConfig::entering);
        let ghost joins = self.schedule.joins@;
        let ghost jn = joins_before(joins, r as nat, joins.len());
        proof {
            self.lemma_next_join(r as nat);
            assert(self.inner.rounds@[r as int].wf());
        }
        let source: irs_commit::Config = self.inner.rounds[r].code_switch.config.source;
        proof {
            if r > 0 {
                lemma_prover_block_shape(
                    &carrier.unwrap(),
                    &self.inner.rounds@[r - 1].cs().target,
                    &source,
                );
            }
        }
        match self.schedule.join_at(r) {
            Some(join) => {
                proof {
                    self.lemma_join_ok(jn as int);
                    assert(joins[jn as int].selector.wf());
                }
                let active: Vec<ProverBlock> = self.take_joining_blocks(
                    join,
                    &source,
                    carrier,
                    slots,
                    Ghost(r as int),
                    Ghost(jn),
                    Ghost(blocks),
                );
                assert(active@.len() == block_views(active@).len());
                merge_active(join, &source, active, ps)
            },
            None => match carrier {
                Some(c) => c,
                None => no_block(),
            },
        }
    }

    /// Run one shared round, with the merge before it.
    fn prove_shared_round(
        &self,
        ps: &mut ProverState,
        r: usize,
        carrier: Option<ProverBlock>,
        slots: &mut Vec<Option<ProverBlock>>,
        Ghost(blocks): Ghost<Seq<BlockView>>,
    ) -> (next: Option<ProverBlock>)
        requires
            self.wf(),
            self.well_placed(),
            r < self.inner.rounds@.len(),
            carrier is Some <==> r > 0,
            carrier matches Some(c) ==> c.witnesses@.len() == 1 && c.wf(
                &self.inner.rounds@[r - 1].cs().target,
            ),
            self.waiting(
                old(slots)@,
                blocks,
                joins_before(self.schedule.joins@, r as nat, self.schedule.joins@.len()),
                0,
            ),
        ensures
            ({
                let (e, after) = self.entering(blocks, r as int, viewed(carrier), old(ps)@);
                match self.inner.rounds@[r as int].round_proved(e, after) {
                    None => next is None,
                    Some(o) => {
                        &&& next is Some
                        &&& next.unwrap()@ == o.block
                        &&& final(ps)@ == o.view
                        &&& next.unwrap().wf(&self.inner.rounds@[r as int].cs().target)
                        &&& next.unwrap().witnesses@.len() == 1
                    },
                }
            }),
            self.waiting(
                final(slots)@,
                blocks,
                joins_before(self.schedule.joins@, (r + 1) as nat, self.schedule.joins@.len()),
                0,
            ),
    {
        let block: ProverBlock = self.merge_at(ps, r, carrier, slots, Ghost(blocks));
        assert(self.inner.rounds@[r as int].wf());
        prove_whir_round(&self.inner.rounds[r], block, ps)
    }

    /// Run the shared rounds: at every one the bundles that join are merged into the
    /// carrier.
    #[verifier::rlimit(40)]
    fn prove_shared(
        &self,
        ps: &mut ProverState,
        slots: Vec<Option<ProverBlock>>,
        Ghost(blocks): Ghost<Seq<BlockView>>,
    ) -> (r: Option<ProverBlock>)
        requires
            self.wf(),
            self.well_placed(),
            self.inner.rounds@.len() > 0,
            self.waiting(
                slots@,
                blocks,
                joins_before(self.schedule.joins@, 0, self.schedule.joins@.len()),
                0,
            ),
        ensures
            match self.walked(blocks, self.inner.rounds@.len(), old(ps)@) {
                None => r is None,
                Some((carrier, view)) => {
                    &&& r is Some
                    &&& carrier == Some(r.unwrap()@)
                    &&& final(ps)@ == view
                    &&& r.unwrap().wf(&self.inner.last_code())
                    &&& r.unwrap().witnesses@.len() == 1
                },
            },
    {
        let ghost joins = self.schedule.joins@;
        let mut slots = slots;
        let mut carrier: Option<ProverBlock> = None;
        let ghost mut held: Option<BlockView> = None;
        let n: usize = self.inner.rounds.len();
        for r in 0..n
            invariant
                self.wf(),
                self.well_placed(),
                joins == self.schedule.joins@,
                n == self.inner.rounds@.len(),
                self.walked(blocks, r as nat, old(ps)@) == Some((held, ps@)),
                held is Some <==> carrier is Some,
                carrier is Some <==> r > 0,
                carrier matches Some(c) ==> held == Some(c@) && c.witnesses@.len() == 1 && c.wf(
                    &self.inner.rounds@[r - 1].cs().target,
                ),
                self.waiting(slots@, blocks, joins_before(joins, r as nat, joins.len()), 0),
        {
            match self.prove_shared_round(ps, r, carrier, &mut slots, Ghost(blocks)) {
                Some(next) => {
                    proof {
                        held = Some(next@);
                    }
                    carrier = Some(next);
                },
                None => {
                    proof {
                        self.lemma_walked_fails(blocks, (r + 1) as nat, n as nat, old(ps)@);
                    }
                    return None;
                },
            }
        }
        carrier
    }

    /// All blocks wait before the first round.
    pub proof fn lemma_ready_waits(&self, slots: Seq<Option<ProverBlock>>, blocks: Seq<BlockView>)
        requires
            self.well_placed(),
            self.ready(slots, blocks),
        ensures
            self.inner.rounds@.len() > 0,
            self.waiting(
                slots,
                blocks,
                joins_before(self.schedule.joins@, 0, self.schedule.joins@.len()),
                0,
            ),
    {
        let joins = self.schedule.joins@;
        self.lemma_all_join();
        self.lemma_join_ok(0);
        lemma_joins_before(self, 0, joins.len());
        if joins_before(joins, 0, joins.len()) > 0 {
            assert(joins[0].round_index.unwrap() < 0);
        }
    }

    /// At most one join lies between a round and the next, and its bundles are those
    /// that are taken there.
    pub proof fn lemma_next_join(&self, r: nat)
        requires
            self.well_placed(),
            r < self.inner.rounds@.len(),
            self.inner.rounds@.len() <= usize::MAX,
        ensures
            ({
                let joins = self.schedule.joins@;
                let jn = joins_before(joins, r, joins.len());
                let next = joins_before(joins, r + 1, joins.len());
                &&& r == 0 ==> jn == 0 && find_join(joins, Some(0), joins.len()) == Some(0int)
                &&& r > 0 ==> jn > 0
                &&& match find_join(joins, Some(r as usize), joins.len()) {
                    None => next == jn,
                    Some(j) => {
                        &&& j == jn
                        &&& jn < joins.len()
                        &&& next == jn + 1
                        &&& self.join_round(jn as int) == r
                        &&& forall|b: int| #[trigger]
                            seen(joins, next, 0, b) == seen(
                                joins,
                                jn,
                                joins[jn as int].bundle_indices@.len(),
                                b,
                            )
                    },
                }
            }),
    {
        let joins = self.schedule.joins@;
        let n = joins.len();
        let jn = joins_before(joins, r, n);
        let next = joins_before(joins, r + 1, n);
        lemma_joins_before(self, r, n);
        lemma_joins_before(self, r + 1, n);
        self.lemma_all_join();
        self.lemma_join_ok(0);
        if jn < n {
            assert(self.join_ok(jn as int)) by {
                self.lemma_join_ok(jn as int);
            }
        }
        if jn + 1 < n {
            assert(self.join_ok(jn as int + 1)) by {
                self.lemma_join_ok(jn as int + 1);
            }
        }
        if next < jn {
            assert(joins[next as int].round_index.unwrap() >= r + 1);
            assert(joins[next as int].round_index.unwrap() < r);
        }
        if next > jn {
            assert(joins[jn as int].round_index.unwrap() < r + 1);
            if next > jn + 1 {
                assert(joins[jn as int + 1].round_index.unwrap() < r + 1);
            }
        }
        if r == 0 && jn > 0 {
            assert(joins[0].round_index.unwrap() < 0);
        }
    }

    /// The rounds of a bundle continue one another.
    #[verifier::rlimit(40)]
    pub proof fn lemma_pre_merge_chained(&self, b: int)
        requires
            self.wf(),
            self.well_placed(),
            0 <= b < self.bundle_configs@.len(),
        ensures
            rounds_chained(self.bundle_configs@[b].pre_merge_rounds@),
            self.bundle_configs@[b].pre_merge_rounds@.len() > 0 ==> same_shape(
                &self.bundle_configs@[b].irs_config,
                &self.bundle_configs@[b].pre_merge_rounds@[0].cs().source,
            ),
    {
        assert(self.bundle_ok(b)) by {
            self.lemma_bundle_ok(b);
        }
        assert(self.bundle_wf(b));
    }

    proof fn lemma_pre_merged_fails(&self, blocks: Seq<BlockView>, j: nat, k: nat, p: ProverView)
        requires
            j <= k,
            self.pre_merged(blocks, j, p) is None,
        ensures
            self.pre_merged(blocks, k, p) is None,
        decreases k,
    {
        if j < k {
            self.lemma_pre_merged_fails(blocks, j, (k - 1) as nat, p);
        }
    }

    proof fn lemma_walked_fails(&self, blocks: Seq<BlockView>, j: nat, k: nat, p: ProverView)
        requires
            j <= k,
            self.walked(blocks, j, p) is None,
        ensures
            self.walked(blocks, k, p) is None,
        decreases k,
    {
        if j < k {
            self.lemma_walked_fails(blocks, j, (k - 1) as nat, p);
        }
    }
}

} // verus!
