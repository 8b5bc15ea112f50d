//! Laws of the whole batched protocol.

use crate::algebra::mle;
use crate::arith::{ceil_log2_spec, is_pow2};
use crate::field::{
    all_canonical, canonical, fadd, fmul, fsub, lemma_fmul_assoc, lemma_fmul_comm,
    lemma_residue_canonical, lemma_residue_id,
};
use crate::irs_commit;
use crate::irs_laws::{law_same_shape, matrix_roots};
use crate::matrix_commit::{root_of, Digest};
use crate::params::batched::config::BatchedProtocolConfig;
use crate::params::batched::structure_laws::law_structure_accepted;
use crate::sums::{fsum, lemma_distribute, lemma_fsum_add, lemma_fsum_canonical};
use crate::transcript::{ProverView, VerifierView};
use crate::transcript_laws::{follows, lemma_follows_refl, lemma_follows_trans, pending};
use crate::zook::batched::bundle::{flat_polys, ClaimView};
use crate::zook::batched::bundle_laws::{
    claims_hold, claims_wf, law_bundle_claim_holds, law_bundle_covector_value,
};
use crate::zook::batched::final_bundles::{group_terms, groups_add_up, BundleEnd};
use crate::zook::batched::prove::intro_block;
use crate::zook::batched::verify::{
    blocks_after, bundle_group, bundle_point, bundle_scale, intro_checks, pre_merge_terms,
    BatchWalk,
};
use crate::zook::batched::walk_laws::{
    joined_terms, law_shared_rounds_complete, lemma_walk_valid, ready_checks, ready_ok, runnable,
    shared_constraints, shared_value, carrier_value,
};
use crate::zook::block::{lemma_block_shape, BlockView, CheckBlock};
use crate::zook::combination_laws::lemma_theta_single;
use crate::zook::final_claim::{constraint_terms, scale_suffix, GroupView};
use crate::zook::protocol_laws::{
    covector_accounted, in_step, lemma_basecase_step, lemma_codes, lemma_last_vectors,
    lemma_rounds_in_step, lemma_suffix_push,
};
use crate::zook::prove::rounds_proved;
use crate::zook::round_laws::check_block;
use crate::zook::verify::{rounds_checked, Walk};
use vstd::prelude::*;

verus! {

/// A bundle of polynomials, the masks and the challenge of its commitment, and claims
/// about it.
pub struct Bundle {
    pub polys: Seq<Seq<int>>,
    pub masks: Seq<int>,
    pub claims: Seq<Seq<ClaimView>>,
    pub batching: int,
}

/// Is this a bundle of the configured shape, with claims that hold?
pub open spec fn bundle_true(cfg: &BatchedProtocolConfig, i: int, bundle: Bundle) -> bool {
    let spec = cfg.bundle_configs@[i].spec;
    &&& is_pow2(spec.num_polys as nat)
    &&& is_pow2(spec.length as nat)
    &&& bundle.polys.len() == spec.num_polys
    &&& bundle.claims.len() == spec.num_polys
    &&& forall|k: int|
        0 <= k < bundle.polys.len() ==> (#[trigger] bundle.polys[k]).len() == spec.length
            && all_canonical(bundle.polys[k])
    &&& claims_wf(bundle.claims, spec.length as nat)
    &&& claims_hold(bundle.claims, bundle.polys)
    &&& all_canonical(bundle.masks)
    &&& bundle.masks.len() == cfg.bundle_configs@[i].irs_config.num_mask_coefficients()
    &&& canonical(bundle.batching)
}

/// The bundle's polynomials one after the other.
pub open spec fn flat_of(bundle: Bundle) -> Seq<int> {
    flat_polys(bundle.polys, bundle.polys.len())
}

/// The bundle's codewords.
pub open spec fn matrix_of(cfg: &BatchedProtocolConfig, i: int, bundle: Bundle) -> Seq<int> {
    cfg.bundle_configs@[i].irs_config.encoded(seq![flat_of(bundle)], bundle.masks)
}

/// The bundle's commitment.
pub open spec fn root_at(cfg: &BatchedProtocolConfig, i: int, bundle: Bundle) -> Digest {
    root_of(
        cfg.bundle_configs@[i].irs_config.matrix_config().leaves(matrix_of(cfg, i, bundle)),
    )
}

/// The block that the prover starts with for a bundle.
pub open spec fn block_at(cfg: &BatchedProtocolConfig, i: int, bundle: Bundle) -> BlockView {
    intro_block(
        flat_of(bundle),
        bundle.masks,
        matrix_of(cfg, i, bundle),
        bundle.claims,
        cfg.bundle_configs@[i].spec.length as nat,
        bundle.batching,
    )
}

/// The blocks that the prover starts with.
pub open spec fn start_blocks(cfg: &BatchedProtocolConfig, bundles: Seq<Bundle>) -> Seq<BlockView> {
    Seq::new(bundles.len(), |i: int| block_at(cfg, i, bundles[i]))
}

/// The commitments.
pub open spec fn start_roots(cfg: &BatchedProtocolConfig, bundles: Seq<Bundle>) -> Seq<Digest> {
    Seq::new(bundles.len(), |i: int| root_at(cfg, i, bundles[i]))
}

/// The bundles' claims.
pub open spec fn start_claims(bundles: Seq<Bundle>) -> Seq<Seq<Seq<ClaimView>>> {
    Seq::new(bundles.len(), |i: int| bundles[i].claims)
}

/// The bundles' challenges.
pub open spec fn start_batchings(bundles: Seq<Bundle>) -> Seq<int> {
    Seq::new(bundles.len(), |i: int| bundles[i].batching)
}

/// The bundles as the end of a verification sees them.
pub open spec fn start_ends(cfg: &BatchedProtocolConfig, bundles: Seq<Bundle>) -> Seq<BundleEnd> {
    Seq::new(
        bundles.len(),
        |i: int|
            BundleEnd {
                claims: bundles[i].claims,
                log_polys: ceil_log2_spec(cfg.bundle_configs@[i].spec.num_polys as nat),
                log_length: ceil_log2_spec(cfg.bundle_configs@[i].spec.length as nat),
            },
    )
}

/// Are all bundles of the configured shapes, with claims that hold?
pub open spec fn all_true(cfg: &BatchedProtocolConfig, bundles: Seq<Bundle>) -> bool {
    &&& bundles.len() == cfg.bundle_configs@.len()
    &&& forall|i: int| 0 <= i < bundles.len() ==> bundle_true(cfg, i, #[trigger] bundles[i])
}

/// The code that a bundle's own rounds start from.
spec fn first_of(cfg: &BatchedProtocolConfig, i: int) -> irs_commit::Config {
    let b = cfg.bundle_configs@[i];
    if b.pre_merge_rounds@.len() > 0 {
        b.pre_merge_rounds@[0].cs().source
    } else {
        b.irs_config
    }
}

/// The block that the prover starts with for a true bundle is valid.
proof fn lemma_start_block(cfg: &BatchedProtocolConfig, i: int, bundle: Bundle)
    requires
        runnable(cfg),
        0 <= i < cfg.bundle_configs@.len(),
        bundle_true(cfg, i, bundle),
    ensures
        block_at(cfg, i, bundle).valid(&first_of(cfg, i), seq![flat_of(bundle)]),
        check_block(block_at(cfg, i, bundle), &first_of(cfg, i)) == (CheckBlock {
            sum: block_at(cfg, i, bundle).sum,
            roots: seq![root_at(cfg, i, bundle)],
            theta: seq![1int],
        }),
{
    let code = cfg.bundle_configs@[i].irs_config;
    let spec = cfg.bundle_configs@[i].spec;
    let block = block_at(cfg, i, bundle);
    assert(cfg.bundle_wf(i));
    cfg.lemma_pre_merge_chained(i);
    law_bundle_claim_holds(bundle.claims, bundle.polys, bundle.batching, spec.length as nat);
    lemma_theta_single(flat_of(bundle));
    assert(block.valid(&code, seq![flat_of(bundle)]));
    assert(matrix_roots(&code, block.matrices) =~= seq![root_at(cfg, i, bundle)]);
    if cfg.bundle_configs@[i].pre_merge_rounds@.len() > 0 {
        lemma_block_shape(block, &code, &first_of(cfg, i), seq![flat_of(bundle)]);
        law_same_shape(&code, &first_of(cfg, i));
        assert(matrix_roots(&first_of(cfg, i), block.matrices) =~= matrix_roots(
            &code,
            block.matrices,
        ));
    }
}

/// What a bundle's own rounds leave on both sides.
spec fn pre_in_step(
    cfg: &BatchedProtocolConfig,
    i: int,
    bundle: Bundle,
    block: BlockView,
    pre: Walk,
) -> bool {
    let rounds = cfg.bundle_configs@[i].pre_merge_rounds@;
    in_step(
        rounds,
        first_of(cfg, i),
        rounds.len(),
        block_at(cfg, i, bundle),
        block,
        seq![block.message],
        pre,
    )
}

/// A bundle's own rounds: the verifier follows, and the block stays valid.
#[verifier::rlimit(40)]
proof fn lemma_bundle_rounds(
    cfg: &BatchedProtocolConfig,
    i: int,
    bundle: Bundle,
    p: ProverView,
    q: ProverView,
    tail: Seq<u64>,
)
    requires
        !q.stuck,
        runnable(cfg),
        0 <= i < cfg.bundle_configs@.len(),
        bundle_true(cfg, i, bundle),
        ({
            let rounds = cfg.bundle_configs@[i].pre_merge_rounds@;
            let o = rounds_proved(rounds, rounds.len(), block_at(cfg, i, bundle), p);
            o is Some && follows(o.unwrap().1, q)
        }),
    ensures
        ({
            let rounds = cfg.bundle_configs@[i].pre_merge_rounds@;
            let (block, view) = rounds_proved(
                rounds,
                rounds.len(),
                block_at(cfg, i, bundle),
                p,
            ).unwrap();
            let checked = rounds_checked(
                rounds,
                rounds.len(),
                check_block(block_at(cfg, i, bundle), &first_of(cfg, i)),
                pending(p, q, tail),
            );
            &&& follows(p, view)
            &&& checked is Some
            &&& checked.unwrap().view == pending(view, q, tail)
            &&& pre_in_step(cfg, i, bundle, block, checked.unwrap())
        }),
{
    let rounds = cfg.bundle_configs@[i].pre_merge_rounds@;
    let first = first_of(cfg, i);
    let b0 = block_at(cfg, i, bundle);
    cfg.lemma_pre_merge_chained(i);
    lemma_start_block(cfg, i, bundle);
    crate::arith::lemma_exponent_small(first.vector_size);
    let last = lemma_rounds_in_step(
        rounds,
        first,
        rounds.len(),
        b0,
        seq![flat_of(bundle)],
        p,
        q,
        tail,
    );
}

/// The bundles' own rounds, one bundle after the other.
proof fn lemma_pre_merge_followed(
    cfg: &BatchedProtocolConfig,
    bundles: Seq<Bundle>,
    k: nat,
    p: ProverView,
    q: ProverView,
    tail: Seq<u64>,
)
    requires
        !q.stuck,
        runnable(cfg),
        all_true(cfg, bundles),
        k <= bundles.len(),
        cfg.pre_merged(start_blocks(cfg, bundles), k, p) is Some,
        follows(cfg.pre_merged(start_blocks(cfg, bundles), k, p).unwrap().1, q),
    ensures
        ({
            let (ready, view) = cfg.pre_merged(start_blocks(cfg, bundles), k, p).unwrap();
            let checked = cfg.pre_checked(
                intro_checks(
                    start_roots(cfg, bundles),
                    start_claims(bundles),
                    start_batchings(bundles),
                ),
                k,
                pending(p, q, tail),
            );
            &&& follows(p, view)
            &&& ready.len() == k
            &&& checked is Some
            &&& checked.unwrap().0.len() == k
            &&& checked.unwrap().1 == pending(view, q, tail)
            &&& forall|b: int|
                0 <= b < k ==> pre_in_step(
                    cfg,
                    b,
                    bundles[b],
                    #[trigger] ready[b],
                    checked.unwrap().0[b],
                )
        }),
    decreases k,
{
    let blocks = start_blocks(cfg, bundles);
    let checks = intro_checks(
        start_roots(cfg, bundles),
        start_claims(bundles),
        start_batchings(bundles),
    );
    let (ready, view) = cfg.pre_merged(blocks, k, p).unwrap();
    if k == 0 {
        lemma_follows_refl(p);
    } else {
        let i = k - 1;
        let (done, mid) = cfg.pre_merged(blocks, i as nat, p).unwrap();
        assert(bundle_true(cfg, i, bundles[i]));
        lemma_bundle_rounds(cfg, i, bundles[i], mid, q, tail);
        lemma_follows_trans(mid, view, q);
        lemma_pre_merge_followed(cfg, bundles, i as nat, p, q, tail);
        lemma_follows_trans(p, mid, view);
        lemma_start_block(cfg, i, bundles[i]);
        assert(checks[i] == check_block(block_at(cfg, i, bundles[i]), &first_of(cfg, i)));
        let before = cfg.pre_checked(checks, i as nat, pending(p, q, tail)).unwrap().0;
        let after = cfg.pre_checked(checks, k, pending(p, q, tail)).unwrap().0;
        assert forall|b: int| 0 <= b < k implies pre_in_step(
            cfg,
            b,
            bundles[b],
            #[trigger] ready[b],
            after[b],
        ) by {
            if b < i {
                assert(ready[b] == done[b]);
                assert(after[b] == before[b]);
            }
        }
    }
}

/// The blocks after the bundles' own rounds are ready to join.
#[verifier::rlimit(40)]
proof fn lemma_ready(cfg: &BatchedProtocolConfig, bundles: Seq<Bundle>, ready: Seq<BlockView>, pres: Seq<Walk>)
    requires
        runnable(cfg),
        all_true(cfg, bundles),
        ready.len() == bundles.len(),
        pres.len() == bundles.len(),
        forall|b: int|
            0 <= b < ready.len() ==> pre_in_step(cfg, b, bundles[b], #[trigger] ready[b], pres[b]),
    ensures
        ready_ok(cfg, ready),
        blocks_after(pres) == ready_checks(cfg, ready),
        forall|b: int| 0 <= b < pres.len() ==> cfg.pre_fits(#[trigger] pres[b], b),
{
    assert forall|b: int| 0 <= b < ready.len() implies (#[trigger] ready[b]).valid(
        &cfg.code_at_join(b),
        seq![ready[b].message],
    ) && pres[b].block == check_block(ready[b], &cfg.code_at_join(b)) && cfg.pre_fits(pres[b], b) by {
        assert(pre_in_step(cfg, b, bundles[b], ready[b], pres[b]));
        cfg.lemma_pre_merge_chained(b);
    }
    assert(blocks_after(pres) =~= ready_checks(cfg, ready));
    assert forall|b: int| 0 <= b < pres.len() implies cfg.pre_fits(#[trigger] pres[b], b) by {
        assert(pre_in_step(cfg, b, bundles[b], ready[b], pres[b]));
        cfg.lemma_pre_merge_chained(b);
    }
}

/// What a bundle contributes at the end: its scaled claims, and its own rounds'
/// constraints.
proof fn lemma_bundle_end(
    cfg: &BatchedProtocolConfig,
    i: int,
    bundle: Bundle,
    ready: BlockView,
    pre: Walk,
    w: BatchWalk,
    base: Seq<int>,
)
    requires
        runnable(cfg),
        0 <= i < cfg.bundle_configs@.len(),
        bundle_true(cfg, i, bundle),
        pre_in_step(cfg, i, bundle, ready, pre),
        cfg.pre_fits(pre, i),
        cfg.batch_fits(w, cfg.inner.rounds@.len()),
        all_canonical(w.points),
        all_canonical(base),
        base.len() == cfg.vars_left(cfg.inner.rounds@.len()),
    ensures
        ({
            let j = cfg.join_rounds()[i];
            let g = bundle_group(w, pre, i, j, base, bundle.batching);
            let log_n = ceil_log2_spec(cfg.bundle_configs@[i].spec.num_polys as nat);
            let log_len = ceil_log2_spec(cfg.bundle_configs@[i].spec.length as nat);
            &&& g.point.len() == log_n + log_len
            &&& fmul(
                bundle_scale(w, i, j),
                mle(ready.covector, w.points.skip(w.starts[j as int] as int) + base),
            ) == fadd(
                fmul(
                    g.scale,
                    crate::zook::batched::bundle::bundle_forms(
                        bundle.claims,
                        bundle.batching,
                        g.point.take(log_n as int),
                        g.point.skip(log_n as int),
                    ),
                ),
                fmul(
                    bundle_scale(w, i, j),
                    fsum(
                        constraint_terms(pre.constraints, pre.scales, pre.starts, g.point),
                        pre.constraints.len(),
                    ),
                ),
            )
        }),
{
    broadcast use {lemma_residue_canonical, lemma_fsum_canonical};

    let j = cfg.join_rounds()[i];
    let spec = cfg.bundle_configs@[i].spec;
    let log_n = ceil_log2_spec(spec.num_polys as nat);
    let log_len = ceil_log2_spec(spec.length as nat);
    cfg.lemma_bundle_point(w, pre, i, base);
    assert(cfg.bundle_wf(i));
    crate::arith::lemma_pow2_sum(log_n, log_len);
    crate::arith::lemma_ceil_log2_pow2(log_n + log_len);
    let z = w.points.skip(w.starts[j as int] as int) + base;
    let point = bundle_point(w, pre, j, base);
    assert(all_canonical(z));
    // What the bundle's own rounds did to its covector.
    assert(z.len() == cfg.vars_left(j)) by {
        assert(w.starts[j as int] + cfg.vars_left(j) == cfg.vars_left(0));
        let n = cfg.inner.rounds@.len();
        assert(w.starts[n as int] + cfg.vars_left(n) == cfg.vars_left(0));
    }
    let first = block_at(cfg, i, bundle);
    assert(covector_accounted(first.covector, ready.covector, pre, z));
    assert(pre.points + z =~= point);
    assert(all_canonical(point));
    // The first covector's value is that of the forms.
    let high = point.take(log_n as int);
    let low = point.skip(log_n as int);
    assert(high + low =~= point);
    assert(all_canonical(high)) by {
        assert forall|t: int| 0 <= t < high.len() implies canonical(#[trigger] high[t]) by {
            assert(canonical(point[t]));
        }
    }
    assert(all_canonical(low)) by {
        assert forall|t: int| 0 <= t < low.len() implies canonical(#[trigger] low[t]) by {
            assert(canonical(point[log_n + t]));
        }
    }
    law_bundle_covector_value(bundle.claims, bundle.batching, high, low);
    let s = bundle_scale(w, i, j);
    let t = scale_suffix(pre.scales, 0);
    let v = mle(first.covector, point);
    let c = fsum(
        constraint_terms(pre.constraints, pre.scales, pre.starts, point),
        pre.constraints.len(),
    );
    lemma_suffix_push(pre.scales, 0, 0);
    lemma_distribute(s, fmul(t, v), c);
    lemma_fmul_assoc(s, t, v);
    lemma_fmul_comm(s, t);
}

/// `(g + c) - (c' + p)`, where `g` is a sum of `a` and `p`, and `c == c'`.
proof fn lemma_cancel_sums(a: int, p: int, c: int)
    requires
        canonical(a),
        canonical(p),
        canonical(c),
    ensures
        fsub(fadd(fadd(a, p), c), fadd(c, p)) == a,
{
    broadcast use crate::field::group_residue;

    lemma_residue_id(a);
    lemma_residue_id(p);
    lemma_residue_id(c);
    assert(fadd(fadd(a, p), c) == crate::field::residue((a + p) + c));
    assert(fadd(c, p) == crate::field::residue(c + p));
}

/// The groups' values add up to what the base case's value leaves without the
/// constraints.
#[verifier::rlimit(40)]
proof fn lemma_groups_add_up(
    cfg: &BatchedProtocolConfig,
    bundles: Seq<Bundle>,
    ready: Seq<BlockView>,
    pres: Seq<Walk>,
    w: BatchWalk,
    base: Seq<int>,
    groups: Seq<GroupView>,
)
    requires
        runnable(cfg),
        all_true(cfg, bundles),
        ready.len() == bundles.len(),
        pres.len() == bundles.len(),
        forall|b: int|
            0 <= b < ready.len() ==> pre_in_step(cfg, b, bundles[b], #[trigger] ready[b], pres[b]),
        cfg.batch_fits(w, cfg.inner.rounds@.len()),
        all_canonical(w.points),
        all_canonical(base),
        base.len() == cfg.vars_left(cfg.inner.rounds@.len()),
        groups.len() == bundles.len(),
        forall|b: int|
            0 <= b < groups.len() ==> #[trigger] groups[b] == bundle_group(
                w,
                pres[b],
                b,
                cfg.join_rounds()[b],
                base,
                bundles[b].batching,
            ),
    ensures
        groups_add_up(
            groups,
            start_ends(cfg, bundles),
            fsub(
                shared_value(cfg, w, ready, cfg.inner.rounds@.len(), base),
                fadd(
                    shared_constraints(w, base),
                    fsum(pre_merge_terms(w, pres, cfg.join_rounds(), base), bundles.len()),
                ),
            ),
        ),
{
    broadcast use {lemma_residue_canonical, lemma_fsum_canonical};

    let n = bundles.len();
    let rounds = cfg.inner.rounds@.len();
    let ends = start_ends(cfg, bundles);
    lemma_ready(cfg, bundles, ready, pres);
    let jt = joined_terms(cfg, w, ready, rounds, base);
    let gt = group_terms(groups, ends);
    let pt = pre_merge_terms(w, pres, cfg.join_rounds(), base);
    assert forall|b: int| 0 <= b < n implies #[trigger] jt(b) == fadd(gt(b), pt(b)) by {
        assert(bundle_true(cfg, b, bundles[b]));
        assert(pre_in_step(cfg, b, bundles[b], ready[b], pres[b]));
        assert(cfg.bundle_ok(b)) by {
            cfg.lemma_bundle_ok(b);
        }
        assert(groups[b].batching == bundles[b].batching);
        lemma_bundle_end(cfg, b, bundles[b], ready[b], pres[b], w, base);
    }
    assert forall|b: int| 0 <= b < n implies (#[trigger] groups[b]).point.len() == ends[b].log_polys
        + ends[b].log_length by {
        assert(bundle_true(cfg, b, bundles[b]));
        assert(pre_in_step(cfg, b, bundles[b], ready[b], pres[b]));
        lemma_bundle_end(cfg, b, bundles[b], ready[b], pres[b], w, base);
    }
    lemma_fsum_add(gt, pt, jt, n);
    lemma_cancel_sums(fsum(gt, n), fsum(pt, n), shared_constraints(w, base));
}

/// Completeness of the batched protocol: a proof of true claims is accepted. When all
/// bundles' claims hold of their committed polynomials, and the prover writes a proof (it
/// may give up, see [`BatchedProtocolConfig::batch_proved`]), then the verifier, reading
/// what the prover sent, accepts; it leaves nothing of the proof unread, and what is left
/// to check holds of the bundles' forms.
pub proof fn law_batched_complete(
    cfg: &BatchedProtocolConfig,
    bundles: Seq<Bundle>,
    p: ProverView,
    tail: Seq<u64>,
)
    requires
        cfg.wf(),
        all_true(cfg, bundles),
        cfg.batch_proved(start_blocks(cfg, bundles), p) is Some,
    ensures
        ({
            let q = cfg.batch_proved(start_blocks(cfg, bundles), p).unwrap().view;
            let r = cfg.batch_verified(
                start_roots(cfg, bundles),
                start_claims(bundles),
                start_batchings(bundles),
                pending(p, q, tail),
            );
            &&& r is Some
            &&& r.unwrap().view == (VerifierView { sponge: q.sponge, rest: tail })
            &&& groups_add_up(r.unwrap().groups, start_ends(cfg, bundles), r.unwrap().contribution)
        }),
{
    law_structure_accepted(cfg);
    let n = bundles.len();
    let rounds = cfg.inner.rounds@.len();
    let blocks = start_blocks(cfg, bundles);
    let o = cfg.batch_proved(blocks, p).unwrap();
    let q = o.view;
    let (ready, mid) = cfg.pre_merged(blocks, n, p).unwrap();
    let (carrier, end) = cfg.walked(ready, rounds, mid).unwrap();
    let block = carrier.unwrap();
    cfg.lemma_all_join();
    cfg.lemma_join_ok(0);
    // Every block is valid, so the base case is followed, and all before it.
    lemma_pre_merge_valid(cfg, bundles, n, p);
    lemma_walk_valid(cfg, ready, rounds, mid);
    lemma_codes(&cfg.inner);
    let last = cfg.inner.rounds@[rounds - 1].cs().target;
    let commit = cfg.inner.basecase.config.commit;
    lemma_block_shape(block, &last, &commit, seq![block.message]);
    law_same_shape(&last, &commit);
    lemma_follows_refl(q);
    lemma_basecase_step(&cfg.inner, block, seq![block.message], end, q, tail);
    lemma_follows_trans(end, q, q);
    law_shared_rounds_complete(cfg, ready, rounds, mid, q, tail);
    lemma_follows_trans(mid, end, q);
    lemma_pre_merge_followed(cfg, bundles, n, p, q, tail);
    let checks = intro_checks(
        start_roots(cfg, bundles),
        start_claims(bundles),
        start_batchings(bundles),
    );
    let pres = cfg.pre_checked(checks, n, pending(p, q, tail)).unwrap().0;
    lemma_ready(cfg, bundles, ready, pres);
    let w = cfg.walk_checked(ready_checks(cfg, ready), rounds, pending(mid, q, tail)).unwrap();
    assert(matrix_roots(&last, block.matrices) =~= matrix_roots(&commit, block.matrices));
    let r = cfg.batch_verified(
        start_roots(cfg, bundles),
        start_claims(bundles),
        start_batchings(bundles),
        pending(p, q, tail),
    ).unwrap();
    assert(carrier_value(carrier, o.points) == shared_value(cfg, w, ready, rounds, o.points));
    assert(pending(q, q, tail).rest =~= tail);
    lemma_groups_add_up(cfg, bundles, ready, pres, w, o.points, r.groups);
}

/// The blocks after the bundles' own rounds have claims that hold.
proof fn lemma_pre_merge_valid(cfg: &BatchedProtocolConfig, bundles: Seq<Bundle>, k: nat, p: ProverView)
    requires
        runnable(cfg),
        all_true(cfg, bundles),
        k <= bundles.len(),
        cfg.pre_merged(start_blocks(cfg, bundles), k, p) is Some,
    ensures
        ({
            let ready = cfg.pre_merged(start_blocks(cfg, bundles), k, p).unwrap().0;
            &&& ready.len() == k
            &&& forall|b: int|
                0 <= b < k ==> (#[trigger] ready[b]).valid(
                    &cfg.code_at_join(b),
                    seq![ready[b].message],
                )
        }),
    decreases k,
{
    let blocks = start_blocks(cfg, bundles);
    if k > 0 {
        let i = k - 1;
        lemma_pre_merge_valid(cfg, bundles, i as nat, p);
        let (done, mid) = cfg.pre_merged(blocks, i as nat, p).unwrap();
        let ready = cfg.pre_merged(blocks, k, p).unwrap().0;
        let rounds = cfg.bundle_configs@[i].pre_merge_rounds@;
        assert(bundle_true(cfg, i, bundles[i]));
        lemma_start_block(cfg, i, bundles[i]);
        cfg.lemma_pre_merge_chained(i);
        lemma_last_vectors(
            rounds,
            first_of(cfg, i),
            rounds.len(),
            block_at(cfg, i, bundles[i]),
            flat_of(bundles[i]),
            mid,
        );
        assert forall|b: int| 0 <= b < k implies (#[trigger] ready[b]).valid(
            &cfg.code_at_join(b),
            seq![ready[b].message],
        ) by {
            if b < i {
                assert(ready[b] == done[b]);
            }
        }
    }
}

} // verus!
