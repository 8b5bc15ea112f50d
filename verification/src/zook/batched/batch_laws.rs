//! A batch is bound to its claims: what holds of a batched verification whoever sends the
//! messages, where all bundles are merged before the first shared round.

use crate::algebra::{dot_spec, dot_terms, eq_table};
use crate::arith::lemma_ceil_log2;
use crate::field::{canonical, fadd, fsub, lemma_cancel, lemma_residue_canonical};
use crate::irs_commit::lemma_challenges_len;
use crate::matrix_commit::Digest;
use crate::params::batched::config::{find_join, BatchedProtocolConfig};
use crate::params::batched::level_laws::{law_every_bundle_joins_once, law_join_is_found, stands_at};
use crate::soundness_laws::{law_opening_binds, lemma_add_cancel, none_zero};
use crate::sums::{fsum, lemma_fsum_canonical, lemma_fsum_eq};
use crate::transcript::{challenges, VerifierView};
use crate::vector_laws::lemma_eq_table_len;
use crate::zook::batched::binding_laws::law_merge_binds;
use crate::zook::batched::bundle::{bundle_sum, sum_upto, ClaimView};
use crate::zook::batched::prove::{picked, with_carrier};
use crate::zook::batched::verify::{
    blocks_after, bundle_group, bundle_point, bundle_scale, check_sums, intro_checks, mixed,
    pre_merge_terms, BatchWalk, Entered,
};
use crate::zook::block::CheckBlock;
use crate::zook::claim_laws::{
    block_twins, law_round_binds, lemma_base_size, lemma_none_zero_parts, lemma_rounds_bind,
    lemma_sub_cancel, walk_twins,
};
use crate::zook::final_claim::constraint_terms;
use crate::zook::verify::{rounds_checked, Walk};
use vstd::arithmetic::power2::pow2;
use vstd::prelude::*;

verus! {

/// Do several blocks differ at most in their claimed sums?
pub open spec fn all_twins(a: Seq<CheckBlock>, b: Seq<CheckBlock>) -> bool {
    &&& a.len() == b.len()
    &&& forall|i: int| 0 <= i < a.len() ==> block_twins(#[trigger] a[i], b[i])
}

/// Are all bundles merged at once, before the first shared round?
pub open spec fn one_join(cfg: &BatchedProtocolConfig) -> bool {
    let joins = cfg.schedule.joins@;
    let n = cfg.bundle_configs@.len();
    &&& 0 < n <= usize::MAX
    &&& joins.len() == 1
    &&& joins[0].round_index == Some(0usize)
    &&& joins[0].bundle_indices@ == Seq::new(n, |i: int| i as usize)
    &&& joins[0].selector.t == n
}

/// Is every bundle after its own rounds bound to what it was before them?
pub open spec fn pre_bound(a: Seq<CheckBlock>, b: Seq<CheckBlock>, x: Seq<Walk>, y: Seq<Walk>) -> bool {
    &&& x.len() == y.len()
    &&& forall|i: int|
        0 <= i < x.len() ==> {
            &&& walk_twins(#[trigger] x[i], y[i])
            &&& a[i] == b[i] ==> x[i] == y[i]
            &&& none_zero(x[i].points) && x[i].block.sum == y[i].block.sum ==> a[i].sum == b[i].sum
        }
}

proof fn lemma_pre_bound(
    cfg: &BatchedProtocolConfig,
    a: Seq<CheckBlock>,
    b: Seq<CheckBlock>,
    k: nat,
    v: VerifierView,
)
    requires
        cfg.wf(),
        all_twins(a, b),
        k <= a.len(),
        a.len() == cfg.bundle_configs@.len(),
    ensures
        cfg.pre_checked(a, k, v) is Some == cfg.pre_checked(b, k, v) is Some,
        cfg.pre_checked(a, k, v) matches Some((x, next)) ==> {
            let (y, other) = cfg.pre_checked(b, k, v).unwrap();
            &&& x.len() == k
            &&& next == other
            &&& pre_bound(a, b, x, y)
        },
    decreases k,
{
    if k > 0 {
        let m = (k - 1) as nat;
        lemma_pre_bound(cfg, a, b, m, v);
        if let Some((x, mid)) = cfg.pre_checked(a, m, v) {
            let (y, other) = cfg.pre_checked(b, m, v).unwrap();
            let rounds = cfg.bundle_configs@[m as int].pre_merge_rounds@;
            assert(cfg.bundle_wf(m as int));
            assert(block_twins(a[m as int], b[m as int]));
            lemma_rounds_bind(rounds, rounds.len(), a[m as int], b[m as int], mid);
            if let Some(w) = rounds_checked(rounds, rounds.len(), a[m as int], mid) {
                let u = rounds_checked(rounds, rounds.len(), b[m as int], mid).unwrap();
                let (xs, ys) = (x.push(w), y.push(u));
                assert forall|i: int| 0 <= i < xs.len() implies {
                    &&& walk_twins(#[trigger] xs[i], ys[i])
                    &&& a[i] == b[i] ==> xs[i] == ys[i]
                    &&& none_zero(xs[i].points) && xs[i].block.sum == ys[i].block.sum ==> a[i].sum
                        == b[i].sum
                } by {
                    if i < m {
                        assert(walk_twins(x[i], y[i]));
                    }
                }
            }
        }
    }
}

/// What the shared rounds start from: the one block's sum, or the blocks' sums weighted by
/// the challenges that are drawn for the merge.
pub open spec fn merged_start(cfg: &BatchedProtocolConfig, sums: Seq<int>, v: VerifierView) -> int {
    if sums.len() == 1 {
        sums[0]
    } else {
        dot_spec(
            sums,
            eq_table(
                challenges(
                    v.sponge,
                    cfg.schedule.joins@[0].selector.selector.selector_dim as nat,
                ),
            ),
        )
    }
}

/// Was no challenge of the merge's sumcheck zero?
pub open spec fn merge_tells(cfg: &BatchedProtocolConfig, sums: Seq<int>, v: VerifierView) -> bool {
    sums.len() == 1 || (cfg.schedule.joins@[0].selector.merge_checked(sums, v) matches Some(m)
        && none_zero(m.delta))
}

proof fn lemma_first_entered(
    cfg: &BatchedProtocolConfig,
    a: Seq<CheckBlock>,
    b: Seq<CheckBlock>,
    pre: Seq<int>,
    v: VerifierView,
)
    requires
        cfg.wf(),
        one_join(cfg),
        all_twins(a, b),
        a.len() == cfg.bundle_configs@.len(),
    ensures
        cfg.entering_checked(a, 0, None, pre, v) is Some == cfg.entering_checked(
            b,
            0,
            None,
            pre,
            v,
        ) is Some,
        cfg.entering_checked(a, 0, None, pre, v) matches Some(x) ==> {
            let y = cfg.entering_checked(b, 0, None, pre, v).unwrap();
            &&& block_twins(x.block, y.block)
            &&& x.extra == y.extra
            &&& x.pre_scales == y.pre_scales
            &&& x.view == y.view
            &&& merge_tells(cfg, check_sums(a), v) && x.block.sum == y.block.sum ==> merged_start(
                cfg,
                check_sums(a),
                v,
            ) == merged_start(cfg, check_sums(b), v)
        },
{
    broadcast use {lemma_residue_canonical, lemma_fsum_canonical};

    reveal(BatchedProtocolConfig::entering_checked);
    let joins = cfg.schedule.joins@;
    assert(find_join(joins, Some(0usize), 1) == Some(0int)) by {
        reveal_with_fuel(find_join, 2);
    }
    let indices = joins[0].bundle_indices@;
    assert(picked(a, indices) =~= a);
    assert(picked(b, indices) =~= b);
    assert(with_carrier(None, a) == a);
    assert(with_carrier(None, b) == b);
    let sel = joins[0].selector;
    assert(block_twins(a[0], b[0]));
    if a.len() != 1 {
        law_merge_binds(&sel, check_sums(a), check_sums(b), v);
        assert(Seq::new(a.len(), |i: int| a[i].roots[0]) =~= Seq::new(
            b.len(),
            |i: int| b[i].roots[0],
        )) by {
            assert forall|i: int| 0 <= i < a.len() implies a[i].roots[0] == b[i].roots[0] by {
                assert(block_twins(a[i], b[i]));
            }
        }
        if let Some(m) = sel.merge_checked(check_sums(a), v) {
            lemma_merge_sum(&sel, check_sums(a), v);
            lemma_merge_sum(&sel, check_sums(b), v);
        }
    }
}

proof fn lemma_merge_sum(
    cfg: &crate::zook::batched::selector::merge::Config,
    sums: Seq<int>,
    v: VerifierView,
)
    requires
        cfg.wf(),
        cfg.t > 1,
    ensures
        cfg.merge_checked(sums, v) matches Some(m) ==> canonical(m.sum),
{
    broadcast use lemma_fsum_canonical;

    let n = cfg.selector.selector_dim as nat;
    let start = dot_spec(sums, eq_table(challenges(v.sponge, n)));
    crate::soundness_laws::law_sumcheck_reads(&cfg.selector.sumcheck, start, v.draw_many(n));
}

/// Are two verifiers after some shared rounds alike up to the carrier's sum?
pub open spec fn batch_twins(x: BatchWalk, y: BatchWalk) -> bool {
    &&& x.carrier is Some
    &&& y.carrier is Some
    &&& block_twins(x.carrier.unwrap(), y.carrier.unwrap())
    &&& x.points == y.points
    &&& x.starts == y.starts
    &&& x.scales == y.scales
    &&& x.extras == y.extras
    &&& x.pre_scales == y.pre_scales
    &&& x.constraints == y.constraints
    &&& x.view == y.view
}

#[verifier::spinoff_prover]
#[verifier::rlimit(60)]
proof fn lemma_walk_bound(
    cfg: &BatchedProtocolConfig,
    a: Seq<CheckBlock>,
    b: Seq<CheckBlock>,
    k: nat,
    v: VerifierView,
)
    requires
        cfg.wf(),
        one_join(cfg),
        all_twins(a, b),
        a.len() == cfg.bundle_configs@.len(),
        0 < k <= cfg.inner.rounds@.len(),
    ensures
        cfg.walk_checked(a, k, v) is Some == cfg.walk_checked(b, k, v) is Some,
        cfg.walk_checked(a, k, v) matches Some(x) ==> {
            let y = cfg.walk_checked(b, k, v).unwrap();
            &&& batch_twins(x, y)
            &&& none_zero(x.points) && merge_tells(cfg, check_sums(a), v)
                && x.carrier.unwrap().sum == y.carrier.unwrap().sum ==> merged_start(
                cfg,
                check_sums(a),
                v,
            ) == merged_start(cfg, check_sums(b), v)
        },
    decreases k,
{
    let m = (k - 1) as nat;
    let round = cfg.inner.rounds@[m as int];
    assert(round.wf());
    if k == 1 {
        let pre = crate::algebra::zeros_spec(cfg.bundle_configs@.len());
        reveal_with_fuel(BatchedProtocolConfig::walk_checked, 2);
        lemma_first_entered(cfg, a, b, pre, v);
        if let Some(e) = cfg.entering_checked(a, 0, None, pre, v) {
            let f = cfg.entering_checked(b, 0, None, pre, v).unwrap();
            law_round_binds(&round, e.block, f.block, e.view);
            if let Some(o) = round.round_checked(e.block, e.view) {
                assert(Seq::<int>::empty() + o.points =~= o.points);
            }
        }
    } else {
        lemma_walk_bound(cfg, a, b, m, v);
        if let Some(x) = cfg.walk_checked(a, m, v) {
            let y = cfg.walk_checked(b, m, v).unwrap();
            lemma_no_join(cfg, a, m, x);
            lemma_no_join(cfg, b, m, y);
            let e = cfg.entering_checked(a, m as int, x.carrier, x.pre_scales, x.view).unwrap();
            let f = cfg.entering_checked(b, m as int, y.carrier, y.pre_scales, y.view).unwrap();
            law_round_binds(&round, e.block, f.block, e.view);
            if let Some(o) = round.round_checked(e.block, e.view) {
                if none_zero(x.points + o.points) {
                    lemma_none_zero_parts(x.points, o.points);
                }
            }
        }
    }
}

proof fn lemma_no_join(cfg: &BatchedProtocolConfig, a: Seq<CheckBlock>, r: nat, x: BatchWalk)
    requires
        one_join(cfg),
        0 < r < cfg.inner.rounds@.len(),
        cfg.inner.rounds@.len() <= usize::MAX,
        x.carrier is Some,
    ensures
        cfg.entering_checked(a, r as int, x.carrier, x.pre_scales, x.view) == Some(
            Entered {
                block: x.carrier.unwrap(),
                extra: 1,
                pre_scales: x.pre_scales,
                view: x.view,
            },
        ),
{
    reveal(BatchedProtocolConfig::entering_checked);
    law_join_is_found(cfg.schedule.joins@, Some(r as usize), 1);
}

/// A batch is bound to its claims. With the same messages, verifiers of different claims
/// accept alike and are left with the same groups to check. If they are left with the same
/// contribution, and no challenge was zero, the shared rounds started from the same value;
/// and a bundle that its own rounds leave with the same sum has claims that combine to the
/// same by its own challenge.
#[verifier::spinoff_prover]
#[verifier::rlimit(60)]
pub proof fn law_batch_is_bound(
    cfg: &BatchedProtocolConfig,
    roots: Seq<Digest>,
    c: Seq<Seq<Seq<ClaimView>>>,
    d: Seq<Seq<Seq<ClaimView>>>,
    batchings: Seq<int>,
    v: VerifierView,
)
    requires
        cfg.wf(),
        one_join(cfg),
        cfg.inner.rounds@.len() > 0,
        roots.len() == cfg.bundle_configs@.len(),
    ensures
        cfg.batch_verified(roots, c, batchings, v) is Some == cfg.batch_verified(
            roots,
            d,
            batchings,
            v,
        ) is Some,
        cfg.batch_verified(roots, c, batchings, v) matches Some(x) ==> {
            let y = cfg.batch_verified(roots, d, batchings, v).unwrap();
            let n = roots.len();
            let (pa, mid) = cfg.pre_checked(intro_checks(roots, c, batchings), n, v).unwrap();
            let (pb, other) = cfg.pre_checked(intro_checks(roots, d, batchings), n, v).unwrap();
            let (s, t) = (check_sums(blocks_after(pa)), check_sums(blocks_after(pb)));
            &&& x.groups == y.groups
            &&& x.view == y.view
            &&& mid == other
            &&& (forall|b: int| 0 <= b < n ==> none_zero((#[trigger] x.groups[b]).point))
                && merge_tells(cfg, s, mid) && x.contribution == y.contribution ==> merged_start(
                cfg,
                s,
                mid,
            ) == merged_start(cfg, t, mid)
            &&& forall|b: int|
                0 <= b < n && none_zero((#[trigger] x.groups[b]).point) && s[b] == t[b]
                    ==> bundle_sum(c[b], batchings[b]) == bundle_sum(d[b], batchings[b])
        },
{
    broadcast use {lemma_residue_canonical, lemma_fsum_canonical};

    let n = roots.len();
    let (a, b) = (intro_checks(roots, c, batchings), intro_checks(roots, d, batchings));
    assert(all_twins(a, b)) by {
        assert forall|i: int| 0 <= i < a.len() implies block_twins(#[trigger] a[i], b[i]) by {
            lemma_bundle_sum_canonical(c[i], batchings[i]);
            lemma_bundle_sum_canonical(d[i], batchings[i]);
        }
    }
    lemma_pre_bound(cfg, a, b, n, v);
    if let Some((pa, mid)) = cfg.pre_checked(a, n, v) {
        let (pb, other) = cfg.pre_checked(b, n, v).unwrap();
        let (x, y) = (blocks_after(pa), blocks_after(pb));
        assert(all_twins(x, y)) by {
            assert forall|i: int| 0 <= i < x.len() implies block_twins(#[trigger] x[i], y[i]) by {
                assert(walk_twins(pa[i], pb[i]));
            }
        }
        let k = cfg.inner.rounds@.len();
        lemma_walk_bound(cfg, x, y, k, mid);
        if let Some(w) = cfg.walk_checked(x, k, mid) {
            let u = cfg.walk_checked(y, k, mid).unwrap();
            let base = cfg.inner.basecase.config;
            let (wc, uc) = (w.carrier.unwrap(), u.carrier.unwrap());
            lemma_base_size(&cfg.inner);
            law_opening_binds(&base, wc.roots[0], wc.sum, uc.sum, w.view);
            if let Some(o) = base.open_checked(wc.roots[0], wc.sum, w.view) {
                let p = base.open_checked(uc.roots[0], uc.sum, u.view).unwrap();
                let q = cfg.batch_verified(roots, c, batchings, v).unwrap();
                let r = cfg.batch_verified(roots, d, batchings, v).unwrap();
                lemma_starts(cfg, x, k, mid);
                assert forall|i: int| 0 <= i < pa.len() implies walk_twins(
                    #[trigger] pa[i],
                    pb[i],
                ) by {}
                lemma_same_terms(cfg, w, u, pa, pb, o.points);
                assert(q.groups =~= r.groups) by {
                    assert forall|i: int| 0 <= i < n implies q.groups[i] == r.groups[i] by {
                        assert(walk_twins(pa[i], pb[i]));
                        lemma_same_group(
                            w,
                            u,
                            pa[i],
                            pb[i],
                            i,
                            cfg.join_rounds()[i],
                            o.points,
                            batchings[i],
                        );
                    }
                }
                assert forall|i: int|
                    0 <= i < n && none_zero((#[trigger] q.groups[i]).point) implies none_zero(
                    pa[i].points,
                ) && none_zero(w.points) && none_zero(o.points) by {
                    lemma_joins_first(cfg, i);
                    assert(q.groups[i].point == bundle_point(w, pa[i], 0, o.points));
                    lemma_point_parts(w, pa[i], o.points);
                }
                let (s, t) = (check_sums(x), check_sums(y));
                assert forall|i: int|
                    0 <= i < n && none_zero((#[trigger] q.groups[i]).point) && s[i]
                        == t[i] implies bundle_sum(c[i], batchings[i]) == bundle_sum(
                    d[i],
                    batchings[i],
                ) by {
                    assert(none_zero(pa[i].points));
                    assert(walk_twins(pa[i], pb[i]));
                    assert(s[i] == pa[i].block.sum && t[i] == pb[i].block.sum);
                    assert(a[i].sum == b[i].sum);
                }
                if (forall|i: int| 0 <= i < n ==> none_zero((#[trigger] q.groups[i]).point))
                    && q.contribution == r.contribution {
                    assert(none_zero(q.groups[0].point));
                    let terms = fadd(
                        fsum(
                            constraint_terms(
                                w.constraints,
                                mixed(w.scales, w.extras),
                                w.starts,
                                w.points + o.points,
                            ),
                            w.constraints.len(),
                        ),
                        fsum(pre_merge_terms(w, pa, cfg.join_rounds(), o.points), n),
                    );
                    assert(q.contribution == fsub(o.value, terms));
                    assert(r.contribution == fsub(p.value, terms));
                    lemma_sub_cancel(o.value, p.value, terms);
                }
            }
        }
    }
}

proof fn lemma_bundle_sum_canonical(claims: Seq<Seq<ClaimView>>, batching: int)
    ensures
        canonical(bundle_sum(claims, batching)),
{
    lemma_sum_canonical(claims, batching, claims.len(), 0);
}

proof fn lemma_sum_canonical(claims: Seq<Seq<ClaimView>>, batching: int, k: nat, j: nat)
    ensures
        canonical(sum_upto(claims, batching, k, j)),
    decreases k, j,
{
    broadcast use lemma_residue_canonical;

    if j > 0 {
    } else if k > 0 {
        lemma_sum_canonical(claims, batching, (k - 1) as nat, claims[k - 1].len());
    }
}

proof fn lemma_starts(cfg: &BatchedProtocolConfig, a: Seq<CheckBlock>, k: nat, v: VerifierView)
    ensures
        cfg.walk_checked(a, k, v) matches Some(w) ==> w.starts.len() == k + 1 && w.starts[0] == 0,
    decreases k,
{
    if k > 0 {
        lemma_starts(cfg, a, (k - 1) as nat, v);
    }
}

/// Every bundle joins before the first shared round.
proof fn lemma_joins_first(cfg: &BatchedProtocolConfig, b: int)
    requires
        cfg.wf(),
        one_join(cfg),
        0 <= b < cfg.bundle_configs@.len(),
    ensures
        cfg.join_rounds()[b] == 0,
{
    law_every_bundle_joins_once(cfg, b);
    assert(stands_at(cfg, b, 0, b));
}

proof fn lemma_same_group(
    w: BatchWalk,
    u: BatchWalk,
    x: Walk,
    y: Walk,
    b: int,
    j: nat,
    base: Seq<int>,
    batching: int,
)
    requires
        batch_twins(w, u),
        walk_twins(x, y),
    ensures
        bundle_group(w, x, b, j, base, batching) == bundle_group(u, y, b, j, base, batching),
        bundle_point(w, x, j, base) == bundle_point(u, y, j, base),
        bundle_scale(w, b, j) == bundle_scale(u, b, j),
{
}

proof fn lemma_same_terms(
    cfg: &BatchedProtocolConfig,
    w: BatchWalk,
    u: BatchWalk,
    x: Seq<Walk>,
    y: Seq<Walk>,
    base: Seq<int>,
)
    requires
        batch_twins(w, u),
        x.len() == y.len(),
        forall|i: int| 0 <= i < x.len() ==> walk_twins(#[trigger] x[i], y[i]),
    ensures
        fsum(pre_merge_terms(w, x, cfg.join_rounds(), base), x.len()) == fsum(
            pre_merge_terms(u, y, cfg.join_rounds(), base),
            x.len(),
        ),
{
    let (f, g) = (
        pre_merge_terms(w, x, cfg.join_rounds(), base),
        pre_merge_terms(u, y, cfg.join_rounds(), base),
    );
    assert forall|i: int| 0 <= i < x.len() implies #[trigger] f(i) == g(i) by {
        assert(walk_twins(x[i], y[i]));
        lemma_same_group(w, u, x[i], y[i], i, cfg.join_rounds()[i], base, 0);
    }
    lemma_fsum_eq(f, g, x.len());
}

/// No challenge of the parts of a bundle's point is zero.
proof fn lemma_point_parts(w: BatchWalk, x: Walk, base: Seq<int>)
    requires
        w.starts[0] == 0,
        none_zero(bundle_point(w, x, 0, base)),
    ensures
        none_zero(x.points),
        none_zero(w.points),
        none_zero(base),
{
    assert(w.points.skip(0) =~= w.points);
    lemma_none_zero_parts(x.points, w.points + base);
    lemma_none_zero_parts(w.points, base);
}

proof fn lemma_one_differs(f: spec_fn(int) -> int, g: spec_fn(int) -> int, n: nat, i: int)
    requires
        0 <= i < n,
        forall|k: int| 0 <= k < n && k != i ==> #[trigger] f(k) == g(k),
        canonical(f(i)),
        canonical(g(i)),
        fsum(f, n) == fsum(g, n),
    ensures
        f(i) == g(i),
    decreases n,
{
    broadcast use lemma_fsum_canonical;

    let m = (n - 1) as nat;
    let (x, y) = (fsum(f, m), fsum(g, m));
    if i == m {
        lemma_fsum_eq(f, g, m);
        lemma_add_cancel(x, f(i), g(i));
    } else {
        let z = f(m as int);
        assert(z == g(m as int));
        assert(fadd(x, z) == fadd(z, x) && fadd(y, z) == fadd(z, y));
        lemma_add_cancel(z, x, y);
        lemma_one_differs(f, g, m, i);
    }
}

/// A single bundle's claims are bound: where only they differ, and verifiers are left with
/// the same contribution, they combine to the same by the bundle's own challenge, unless a
/// challenge was zero, or the weight that the bundle was given in the merge.
#[verifier::spinoff_prover]
#[verifier::rlimit(80)]
pub proof fn law_bundle_is_bound(
    cfg: &BatchedProtocolConfig,
    roots: Seq<Digest>,
    c: Seq<Seq<Seq<ClaimView>>>,
    d: Seq<Seq<Seq<ClaimView>>>,
    batchings: Seq<int>,
    v: VerifierView,
    at: int,
)
    requires
        cfg.wf(),
        one_join(cfg),
        cfg.inner.rounds@.len() > 0,
        roots.len() == cfg.bundle_configs@.len(),
        0 <= at < roots.len(),
        forall|b: int| 0 <= b < roots.len() && b != at ==> #[trigger] c[b] == d[b],
        cfg.batch_verified(roots, c, batchings, v) is Some,
        cfg.batch_verified(roots, d, batchings, v) is Some,
        cfg.batch_verified(roots, c, batchings, v).unwrap().contribution == cfg.batch_verified(
            roots,
            d,
            batchings,
            v,
        ).unwrap().contribution,
        forall|b: int|
            0 <= b < roots.len() ==> none_zero(
                (#[trigger] cfg.batch_verified(roots, c, batchings, v).unwrap().groups[b]).point,
            ),
        ({
            let (pa, mid) = cfg.pre_checked(
                intro_checks(roots, c, batchings),
                roots.len(),
                v,
            ).unwrap();
            let dim = cfg.schedule.joins@[0].selector.selector.selector_dim as nat;
            &&& merge_tells(cfg, check_sums(blocks_after(pa)), mid)
            &&& roots.len() > 1 ==> eq_table(challenges(mid.sponge, dim))[at] != 0
        }),
    ensures
        bundle_sum(c[at], batchings[at]) == bundle_sum(d[at], batchings[at]),
{
    let n = roots.len();
    law_batch_is_bound(cfg, roots, c, d, batchings, v);
    let (a, b) = (intro_checks(roots, c, batchings), intro_checks(roots, d, batchings));
    assert(all_twins(a, b)) by {
        assert forall|i: int| 0 <= i < a.len() implies block_twins(#[trigger] a[i], b[i]) by {
            lemma_bundle_sum_canonical(c[i], batchings[i]);
            lemma_bundle_sum_canonical(d[i], batchings[i]);
        }
    }
    lemma_pre_bound(cfg, a, b, n, v);
    let (pa, mid) = cfg.pre_checked(a, n, v).unwrap();
    let (pb, other) = cfg.pre_checked(b, n, v).unwrap();
    let (s, t) = (check_sums(blocks_after(pa)), check_sums(blocks_after(pb)));
    assert(walk_twins(pa[at], pb[at]));
    assert forall|i: int| 0 <= i < n && i != at implies #[trigger] s[i] == t[i] by {
        assert(c[i] == d[i]);
        assert(a[i] == b[i]);
        assert(walk_twins(pa[i], pb[i]));
        assert(pa[i] == pb[i]);
    }
    let groups = cfg.batch_verified(roots, c, batchings, v).unwrap().groups;
    assert(none_zero(groups[at].point));
    lemma_start_tells(cfg, s, t, mid, at);
}

/// Sums that differ in one place and start the shared rounds from the same value.
proof fn lemma_start_tells(
    cfg: &BatchedProtocolConfig,
    s: Seq<int>,
    t: Seq<int>,
    v: VerifierView,
    at: int,
)
    requires
        cfg.wf(),
        one_join(cfg),
        s.len() == cfg.bundle_configs@.len(),
        t.len() == s.len(),
        0 <= at < s.len(),
        canonical(s[at]),
        canonical(t[at]),
        forall|i: int| 0 <= i < s.len() && i != at ==> #[trigger] s[i] == t[i],
        merged_start(cfg, s, v) == merged_start(cfg, t, v),
        s.len() > 1 ==> eq_table(
            challenges(v.sponge, cfg.schedule.joins@[0].selector.selector.selector_dim as nat),
        )[at] != 0,
    ensures
        s[at] == t[at],
{
    broadcast use lemma_residue_canonical;

    let n = s.len();
    if n > 1 {
        let dim = cfg.schedule.joins@[0].selector.selector.selector_dim as nat;
        let weights = eq_table(challenges(v.sponge, dim));
        let (f, g) = (dot_terms(s, weights), dot_terms(t, weights));
        assert forall|k: int| 0 <= k < n && k != at implies #[trigger] f(k) == g(k) by {
            assert(s[k] == t[k]);
        }
        lemma_one_differs(f, g, n, at);
        lemma_challenges_len(v.sponge, dim);
        lemma_eq_table_len(challenges(v.sponge, dim));
        lemma_weight_in_range(cfg, n, dim, at);
        assert(canonical(weights[at]));
        lemma_cancel(s[at], t[at], weights[at]);
    }
}

proof fn lemma_weight_in_range(cfg: &BatchedProtocolConfig, n: nat, dim: nat, at: int)
    requires
        cfg.wf(),
        one_join(cfg),
        n == cfg.bundle_configs@.len(),
        dim == cfg.schedule.joins@[0].selector.selector.selector_dim,
        0 <= at < n,
    ensures
        at < pow2(dim),
{
    let sel = cfg.schedule.joins@[0].selector;
    assert(sel.wf());
    lemma_ceil_log2(n);
}

} // verus!
