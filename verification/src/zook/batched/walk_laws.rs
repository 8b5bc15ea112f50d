//! The shared rounds of the batched protocol: both parties stay in step, and the
//! carrier's covector stays accounted for.

use crate::algebra::{mle, zeros_spec};
use crate::arith::ceil_log2_spec;
use crate::field::{
    all_canonical, canonical, fadd, fmul, lemma_fmul_assoc, lemma_fmul_comm, lemma_fmul_one,
    lemma_residue_canonical, lemma_residue_id,
};
use crate::irs_commit;
use crate::irs_laws::{law_same_shape, matrix_roots, same_shape};
use crate::params::batched::config::{find_join, BatchedProtocolConfig};
use crate::sums::{
    fsum, lemma_add_assoc, lemma_add_exchange, lemma_add_zero, lemma_distribute, lemma_fsum_add,
    lemma_fsum_canonical, lemma_fsum_eq, lemma_fsum_scale, lemma_fsum_split, lemma_fsum_zero,
};
use crate::transcript::ProverView;
use crate::transcript_laws::{follows, lemma_follows_refl, lemma_follows_trans, pending};
use crate::zook::batched::join_laws::{
    check_blocks, law_merge_followed, law_merge_valid, law_merge_value, lemma_assigned,
    lemma_join_distinct, lemma_joining, lemma_pick_sum, merge_factor, merge_fits, merge_weights,
    merged_vectors, terms_among, terms_at, weighted_values,
};
use crate::zook::batched::prove::{picked, with_carrier};
use crate::zook::batched::verify::{assigned, bundle_scale, mixed, BatchWalk, Entered};
use crate::zook::block::{lemma_block_shape, BlockView, CheckBlock};
use crate::zook::covector_laws::{law_round_covector_value, power_terms};
use crate::zook::final_claim::{constraint_terms, round_constraints, scale_suffix};
use crate::zook::protocol_laws::{lemma_new_constraints, lemma_old_constraints, lemma_suffix_push};
use crate::zook::round_laws::{check_block, law_round_complete, law_round_keeps_claim};
use crate::zook::verify::{lemma_round_variables, walk_fits, Walk};
use vstd::prelude::*;

verus! {

/// The code that a shared round starts from.
pub open spec fn source_of(cfg: &BatchedProtocolConfig, r: int) -> irs_commit::Config {
    cfg.inner.rounds@[r].cs().source
}

/// Are these the bundles' blocks when they join, each with a claim that holds?
pub open spec fn ready_ok(cfg: &BatchedProtocolConfig, ready: Seq<BlockView>) -> bool {
    &&& ready.len() == cfg.bundle_configs@.len()
    &&& forall|b: int|
        0 <= b < ready.len() ==> (#[trigger] ready[b]).valid(
            &cfg.code_at_join(b),
            seq![ready[b].message],
        )
}

/// The verifier's view of the bundles' blocks when they join.
pub open spec fn ready_checks(cfg: &BatchedProtocolConfig, ready: Seq<BlockView>) -> Seq<CheckBlock> {
    Seq::new(ready.len(), |b: int| check_block(ready[b], &cfg.code_at_join(b)))
}

/// Is there a carrier after the first round, with a claim that holds?
pub open spec fn carrier_ok(cfg: &BatchedProtocolConfig, carrier: Option<BlockView>, r: nat) -> bool {
    &&& carrier is Some <==> r > 0
    &&& r > 0 ==> carrier.unwrap().valid(
        &cfg.inner.rounds@[r - 1].cs().target,
        seq![carrier.unwrap().message],
    )
}

/// The verifier's view of the carrier.
pub open spec fn carrier_check(cfg: &BatchedProtocolConfig, carrier: Option<BlockView>, r: nat) -> Option<
    CheckBlock,
> {
    match carrier {
        None => None,
        Some(c) => Some(check_block(c, &cfg.inner.rounds@[r - 1].cs().target)),
    }
}

/// The blocks that are merged at a join.
pub open spec fn active_at(
    cfg: &BatchedProtocolConfig,
    ready: Seq<BlockView>,
    j: int,
    carrier: Option<BlockView>,
) -> Seq<BlockView> {
    with_carrier(carrier, picked(ready, cfg.schedule.joins@[j].bundle_indices@))
}

/// A configuration that is well formed and placed.
pub open spec fn runnable(cfg: &BatchedProtocolConfig) -> bool {
    cfg.wf() && cfg.well_placed() && cfg.inner.rounds@.len() <= usize::MAX
}

/// A block has the same view for codes of one shape.
proof fn lemma_check_shape(block: BlockView, a: &irs_commit::Config, b: &irs_commit::Config)
    requires
        same_shape(a, b),
    ensures
        check_block(block, a) == check_block(block, b),
{
    law_same_shape(a, b);
    assert(matrix_roots(a, block.matrices) =~= matrix_roots(b, block.matrices));
}

/// The blocks that are merged at a join can be.
#[verifier::rlimit(40)]
proof fn lemma_active(
    cfg: &BatchedProtocolConfig,
    ready: Seq<BlockView>,
    r: nat,
    carrier: Option<BlockView>,
    j: int,
)
    requires
        runnable(cfg),
        ready_ok(cfg, ready),
        r < cfg.inner.rounds@.len(),
        carrier_ok(cfg, carrier, r),
        find_join(cfg.schedule.joins@, Some(r as usize), cfg.schedule.joins@.len()) == Some(j),
    ensures
        0 <= j < cfg.schedule.joins@.len(),
        cfg.join_round(j) == r,
        merge_fits(
            cfg.schedule.joins@[j].selector,
            active_at(cfg, ready, j, carrier),
            &source_of(cfg, r as int),
        ),
        check_blocks(active_at(cfg, ready, j, carrier), &source_of(cfg, r as int)) == with_carrier(
            carrier_check(cfg, carrier, r),
            picked(ready_checks(cfg, ready), cfg.schedule.joins@[j].bundle_indices@),
        ),
{
    let joins = cfg.schedule.joins@;
    let source = source_of(cfg, r as int);
    let active = active_at(cfg, ready, j, carrier);
    cfg.lemma_next_join(r);
    assert(cfg.join_ok(j)) by {
        cfg.lemma_join_ok(j);
    }
    assert(joins[j].selector.wf());
    assert(cfg.inner.rounds@[r as int].wf());
    let indices = joins[j].bundle_indices@;
    let offset: int = if carrier is Some {
        1
    } else {
        0
    };
    assert(active.len() == indices.len() + offset);
    if r > 0 {
        let target = cfg.inner.rounds@[r - 1].cs().target;
        lemma_block_shape(carrier.unwrap(), &target, &source, seq![carrier.unwrap().message]);
        lemma_check_shape(carrier.unwrap(), &target, &source);
    }
    assert forall|m: int| 0 <= m < indices.len() implies (#[trigger] ready[indices[m] as int]).valid(
        &source,
        seq![ready[indices[m] as int].message],
    ) && check_block(ready[indices[m] as int], &source) == ready_checks(cfg, ready)[indices[m] as int] by {
        let b = indices[m] as int;
        assert(cfg.index_ok(j, m)) by {
            cfg.lemma_index_ok(j, m);
        }
        assert(cfg.bundle_ok(b)) by {
            cfg.lemma_bundle_ok(b);
        }
        assert(ready[b].valid(&cfg.code_at_join(b), seq![ready[b].message]));
        lemma_block_shape(ready[b], &cfg.code_at_join(b), &source, seq![ready[b].message]);
        lemma_check_shape(ready[b], &cfg.code_at_join(b), &source);
    }
    assert forall|c: int| 0 <= c < active.len() implies (#[trigger] active[c]).valid(
        &source,
        seq![active[c].message],
    ) by {
        if c >= offset {
            let m = c - offset;
            assert(active[c] == ready[indices[m] as int]);
        }
    }
    let checks = check_blocks(active, &source);
    let want = with_carrier(
        carrier_check(cfg, carrier, r),
        picked(ready_checks(cfg, ready), indices),
    );
    assert(checks.len() == want.len());
    assert forall|c: int| 0 <= c < checks.len() implies checks[c] == want[c] by {
        if c >= offset {
            let m = c - offset;
            assert(active[c] == ready[indices[m] as int]);
            assert(cfg.index_ok(j, m)) by {
                cfg.lemma_index_ok(j, m);
            }
        }
    }
    assert(checks =~= want);
}

/// The vectors behind the commitments of what enters a shared round.
pub open spec fn entering_vectors(
    cfg: &BatchedProtocolConfig,
    ready: Seq<BlockView>,
    r: int,
    carrier: Option<BlockView>,
) -> Seq<Seq<int>> {
    let joins = cfg.schedule.joins@;
    match find_join(joins, Some(r as usize), joins.len()) {
        None => seq![carrier.unwrap().message],
        Some(j) => merged_vectors(active_at(cfg, ready, j, carrier)),
    }
}

/// By how much the carrier is scaled before a shared round.
pub open spec fn entering_extra(
    cfg: &BatchedProtocolConfig,
    ready: Seq<BlockView>,
    r: int,
    carrier: Option<BlockView>,
    p: ProverView,
) -> int {
    let joins = cfg.schedule.joins@;
    match find_join(joins, Some(r as usize), joins.len()) {
        None => 1,
        Some(j) => if carrier is Some {
            let active = active_at(cfg, ready, j, carrier);
            fmul(
                merge_weights(joins[j].selector, active, p)[0],
                merge_factor(joins[j].selector, active, p),
            )
        } else {
            1
        },
    }
}

/// The bundles' factors before a shared round.
pub open spec fn entering_scales(
    cfg: &BatchedProtocolConfig,
    ready: Seq<BlockView>,
    r: int,
    carrier: Option<BlockView>,
    pre: Seq<int>,
    p: ProverView,
) -> Seq<int> {
    let joins = cfg.schedule.joins@;
    match find_join(joins, Some(r as usize), joins.len()) {
        None => pre,
        Some(j) => {
            let active = active_at(cfg, ready, j, carrier);
            assigned(
                pre,
                joins[j].bundle_indices@,
                merge_weights(joins[j].selector, active, p),
                merge_factor(joins[j].selector, active, p),
                if carrier is Some {
                    1
                } else {
                    0
                },
                joins[j].bundle_indices@.len(),
            )
        },
    }
}

/// What enters a shared round has a claim that holds.
pub proof fn lemma_entering_valid(
    cfg: &BatchedProtocolConfig,
    ready: Seq<BlockView>,
    r: nat,
    carrier: Option<BlockView>,
    p: ProverView,
)
    requires
        runnable(cfg),
        ready_ok(cfg, ready),
        r < cfg.inner.rounds@.len(),
        carrier_ok(cfg, carrier, r),
    ensures
        cfg.entering(ready, r as int, carrier, p).0.valid(
            &source_of(cfg, r as int),
            entering_vectors(cfg, ready, r as int, carrier),
        ),
{
    reveal(BatchedProtocolConfig::entering);
    let joins = cfg.schedule.joins@;
    let source = source_of(cfg, r as int);
    cfg.lemma_next_join(r);
    assert(cfg.inner.rounds@[r as int].wf());
    match find_join(joins, Some(r as usize), joins.len()) {
        None => {
            let target = cfg.inner.rounds@[r - 1].cs().target;
            lemma_block_shape(carrier.unwrap(), &target, &source, seq![carrier.unwrap().message]);
        },
        Some(j) => {
            lemma_active(cfg, ready, r, carrier, j);
            law_merge_valid(joins[j].selector, active_at(cfg, ready, j, carrier), &source, p);
        },
    }
}

/// The carrier of every round has a claim that holds.
pub proof fn lemma_walk_valid(cfg: &BatchedProtocolConfig, ready: Seq<BlockView>, k: nat, p: ProverView)
    requires
        runnable(cfg),
        ready_ok(cfg, ready),
        k <= cfg.inner.rounds@.len(),
        cfg.walked(ready, k, p) is Some,
    ensures
        carrier_ok(cfg, cfg.walked(ready, k, p).unwrap().0, k),
    decreases k,
{
    if k > 0 {
        let r = (k - 1) as nat;
        lemma_walk_valid(cfg, ready, r, p);
        let (carrier, mid) = cfg.walked(ready, r, p).unwrap();
        let (e, after) = cfg.entering(ready, r as int, carrier, mid);
        lemma_entering_valid(cfg, ready, r, carrier, mid);
        let round = cfg.inner.rounds@[r as int];
        assert(round.wf());
        law_round_keeps_claim(&round, e, entering_vectors(cfg, ready, r as int, carrier), after);
    }
}

/// The verifier follows what enters a shared round.
proof fn lemma_entering_followed(
    cfg: &BatchedProtocolConfig,
    ready: Seq<BlockView>,
    r: nat,
    carrier: Option<BlockView>,
    pre: Seq<int>,
    p: ProverView,
    q: ProverView,
    tail: Seq<u64>,
)
    requires
        !q.stuck,
        runnable(cfg),
        ready_ok(cfg, ready),
        r < cfg.inner.rounds@.len(),
        carrier_ok(cfg, carrier, r),
        follows(cfg.entering(ready, r as int, carrier, p).1, q),
    ensures
        ({
            let (e, after) = cfg.entering(ready, r as int, carrier, p);
            &&& follows(p, after)
            &&& cfg.entering_checked(
                ready_checks(cfg, ready),
                r as int,
                carrier_check(cfg, carrier, r),
                pre,
                pending(p, q, tail),
            ) == Some(
                Entered {
                    block: check_block(e, &source_of(cfg, r as int)),
                    extra: entering_extra(cfg, ready, r as int, carrier, p),
                    pre_scales: entering_scales(cfg, ready, r as int, carrier, pre, p),
                    view: pending(after, q, tail),
                },
            )
        }),
{
    reveal(BatchedProtocolConfig::entering);
    reveal(BatchedProtocolConfig::entering_checked);
    let joins = cfg.schedule.joins@;
    let source = source_of(cfg, r as int);
    cfg.lemma_next_join(r);
    assert(cfg.inner.rounds@[r as int].wf());
    match find_join(joins, Some(r as usize), joins.len()) {
        None => {
            lemma_follows_refl(p);
            let target = cfg.inner.rounds@[r - 1].cs().target;
            lemma_check_shape(carrier.unwrap(), &target, &source);
        },
        Some(j) => {
            lemma_active(cfg, ready, r, carrier, j);
            law_merge_followed(
                joins[j].selector,
                active_at(cfg, ready, j, carrier),
                &source,
                p,
                q,
                tail,
            );
        },
    }
}

/// What the bundles that join at a round contribute there.
pub open spec fn joining_terms(
    cfg: &BatchedProtocolConfig,
    pre: Seq<int>,
    ready: Seq<BlockView>,
    r: nat,
    y: Seq<int>,
) -> spec_fn(int) -> int {
    |b: int|
        if cfg.join_rounds()[b] == r {
            fmul(pre[b], mle(ready[b].covector, y))
        } else {
            0
        }
}

/// The carrier's value at a point; zero if there is none.
pub open spec fn carrier_value(carrier: Option<BlockView>, y: Seq<int>) -> int {
    match carrier {
        None => 0,
        Some(c) => mle(c.covector, y),
    }
}

/// The value at a point of what enters a shared round: the scaled carrier, and the
/// scaled bundles that join.
#[verifier::rlimit(40)]
proof fn lemma_entering_value(
    cfg: &BatchedProtocolConfig,
    ready: Seq<BlockView>,
    r: nat,
    carrier: Option<BlockView>,
    pre: Seq<int>,
    p: ProverView,
    y: Seq<int>,
)
    requires
        runnable(cfg),
        ready_ok(cfg, ready),
        r < cfg.inner.rounds@.len(),
        carrier_ok(cfg, carrier, r),
        pre.len() == cfg.bundle_configs@.len(),
        all_canonical(pre),
        all_canonical(y),
        y.len() == ceil_log2_spec(source_of(cfg, r as int).vector_size as nat),
    ensures
        ({
            let after = entering_scales(cfg, ready, r as int, carrier, pre, p);
            let extra = entering_extra(cfg, ready, r as int, carrier, p);
            &&& mle(cfg.entering(ready, r as int, carrier, p).0.covector, y) == fadd(
                fmul(extra, carrier_value(carrier, y)),
                fsum(joining_terms(cfg, after, ready, r, y), ready.len()),
            )
            &&& after.len() == pre.len()
            &&& all_canonical(after)
            &&& canonical(extra)
            &&& forall|b: int|
                0 <= b < pre.len() && cfg.join_rounds()[b] != r ==> #[trigger] after[b] == pre[b]
        }),
{
    reveal(BatchedProtocolConfig::entering);
    broadcast use {lemma_residue_canonical, lemma_fsum_canonical};

    let joins = cfg.schedule.joins@;
    let source = source_of(cfg, r as int);
    let n = ready.len();
    let after = entering_scales(cfg, ready, r as int, carrier, pre, p);
    let extra = entering_extra(cfg, ready, r as int, carrier, p);
    let jt = joining_terms(cfg, after, ready, r, y);
    cfg.lemma_next_join(r);
    match find_join(joins, Some(r as usize), joins.len()) {
        None => {
            assert forall|b: int| 0 <= b < n implies #[trigger] jt(b) == 0 by {
                lemma_joining(cfg, r, b);
            }
            lemma_fsum_zero(jt, n);
            let v = mle(carrier.unwrap().covector, y);
            lemma_fmul_one(v);
            lemma_add_zero(v);
        },
        Some(j) => {
            lemma_active(cfg, ready, r, carrier, j);
            let indices = joins[j].bundle_indices@;
            let m = indices.len();
            let active = active_at(cfg, ready, j, carrier);
            let theta = merge_weights(joins[j].selector, active, p);
            let eta = merge_factor(joins[j].selector, active, p);
            law_merge_value(joins[j].selector, active, &source, p, y);
            law_merge_valid(joins[j].selector, active, &source, p);
            lemma_join_distinct(cfg, j);
            let offset: nat = if carrier is Some {
                1
            } else {
                0
            };
            lemma_assigned(pre, indices, theta, eta, offset, m);
            assert forall|b: int| 0 <= b < pre.len() && cfg.join_rounds()[b] != r implies
                #[trigger] after[b] == pre[b] by {
                lemma_joining(cfg, r, b);
            }
            // The joining bundles' terms, over the indices and over all bundles.
            let f = |b: int| fmul(after[b], mle(ready[b].covector, y));
            let at = terms_at(f, indices);
            lemma_pick_sum(f, indices, n, m);
            let all = terms_among(f, indices, m);
            assert forall|b: int| 0 <= b < n implies #[trigger] all(b) == jt(b) by {
                lemma_joining(cfg, r, b);
            }
            lemma_fsum_eq(all, jt, n);
            // The merged value, with the carrier taken out.
            let g = weighted_values(theta, eta, active, y);
            assert(active.len() == offset + m);
            assert forall|i: int| 0 <= i < m implies #[trigger] at(i) == g(offset + i) by {
                assert(active[offset + i] == ready[indices[i] as int]);
                assert(after[indices[i] as int] == fmul(theta[i + offset], eta));
            }
            lemma_fsum_split(g, at, offset, m);
            if offset == 1 {
                reveal_with_fuel(fsum, 2);
                assert(active[0] == carrier.unwrap());
                assert(g(0) == fmul(extra, carrier_value(carrier, y)));
                lemma_add_zero(g(0));
            } else {
                lemma_residue_id(0);
                assert(extra * 0 == 0) by (nonlinear_arith);
                assert(fmul(extra, 0) == 0);
            }
        },
    }
}

/// What the bundles that have joined contribute to the carrier at a point.
pub open spec fn joined_terms(
    cfg: &BatchedProtocolConfig,
    w: BatchWalk,
    ready: Seq<BlockView>,
    k: nat,
    z: Seq<int>,
) -> spec_fn(int) -> int {
    |b: int|
        if cfg.join_rounds()[b] < k {
            let j = cfg.join_rounds()[b];
            fmul(
                bundle_scale(w, b, j),
                mle(ready[b].covector, w.points.skip(w.starts[j as int] as int) + z),
            )
        } else {
            0
        }
}

/// What the constraints of the shared rounds contribute to the carrier at a point.
pub open spec fn shared_constraints(w: BatchWalk, z: Seq<int>) -> int {
    fsum(
        constraint_terms(w.constraints, mixed(w.scales, w.extras), w.starts, w.points + z),
        w.constraints.len(),
    )
}

/// The carrier's value at a point, from the bundles and the constraints.
pub open spec fn shared_value(
    cfg: &BatchedProtocolConfig,
    w: BatchWalk,
    ready: Seq<BlockView>,
    k: nat,
    z: Seq<int>,
) -> int {
    fadd(
        fsum(joined_terms(cfg, w, ready, k, z), ready.len()),
        shared_constraints(w, z),
    )
}

/// Has the verifier gathered canonical values only?
pub open spec fn walk_canonical(w: BatchWalk) -> bool {
    &&& all_canonical(w.points)
    &&& all_canonical(w.scales)
    &&& all_canonical(w.extras)
    &&& all_canonical(w.pre_scales)
    &&& forall|i: int| 0 <= i < w.constraints.len() ==> canonical((#[trigger] w.constraints[i]).weight)
}

/// `s * (x * (a + b) + j) + c == (s x a + s j) + (s x b + c)`.
proof fn lemma_step_identity(s: int, x: int, a: int, b: int, j: int, c: int)
    requires
        canonical(s),
        canonical(x),
        canonical(a),
        canonical(b),
        canonical(j),
        canonical(c),
    ensures
        fadd(fmul(s, fadd(fmul(x, fadd(a, b)), j)), c) == fadd(
            fadd(fmul(fmul(s, x), a), fmul(s, j)),
            fadd(fmul(fmul(s, x), b), c),
        ),
{
    broadcast use lemma_residue_canonical;

    lemma_distribute(x, a, b);
    lemma_distribute(s, fmul(x, fadd(a, b)), j);
    lemma_distribute(s, fmul(x, a), fmul(x, b));
    lemma_fmul_assoc(s, x, a);
    lemma_fmul_assoc(s, x, b);
    let p = fmul(fmul(s, x), a);
    let r = fmul(fmul(s, x), b);
    let t = fmul(s, j);
    // ((p + r) + t) + c == (p + t) + (r + c)
    lemma_add_assoc(fadd(p, r), t, c);
    lemma_add_exchange(p, r, t, c);
}

/// The verifier's gathering, as one of a single track.
pub open spec fn as_walk(w: BatchWalk) -> Walk {
    Walk {
        block: CheckBlock { sum: 0, roots: Seq::empty(), theta: Seq::empty() },
        points: w.points,
        starts: w.starts,
        scales: mixed(w.scales, w.extras),
        constraints: w.constraints,
        view: w.view,
    }
}

/// Does one gathering follow from another by a round?
pub open spec fn stepped(
    cfg: &BatchedProtocolConfig,
    r: nat,
    w: BatchWalk,
    next: BatchWalk,
    points: Seq<int>,
    u: crate::code_switch::Update,
    extra: int,
) -> bool {
    &&& next.points == w.points + points
    &&& next.points.len() <= usize::MAX
    &&& next.starts == w.starts.push(next.points.len() as usize)
    &&& next.scales == w.scales.push(u.scale)
    &&& next.extras == w.extras.push(extra)
    &&& next.pre_scales.len() == w.pre_scales.len()
    &&& forall|b: int|
        0 <= b < w.pre_scales.len() && cfg.join_rounds()[b] != r ==> #[trigger] next.pre_scales[b]
            == w.pre_scales[b]
    &&& next.constraints == w.constraints + round_constraints(
        u,
        ceil_log2_spec(source_of(cfg, r as int).message_len()),
        r,
    )
}

/// The bundles' contributions after one more round.
proof fn lemma_joined_step(
    cfg: &BatchedProtocolConfig,
    ready: Seq<BlockView>,
    r: nat,
    w: BatchWalk,
    next: BatchWalk,
    points: Seq<int>,
    u: crate::code_switch::Update,
    extra: int,
    z: Seq<int>,
)
    requires
        ready.len() == cfg.bundle_configs@.len(),
        cfg.batch_fits(w, r),
        walk_canonical(w),
        walk_canonical(next),
        canonical(extra),
        canonical(u.scale),
        stepped(cfg, r, w, next, points, u, extra),
    ensures
        fsum(joined_terms(cfg, next, ready, r + 1, z), ready.len()) == fadd(
            fmul(
                fmul(u.scale, extra),
                fsum(joined_terms(cfg, w, ready, r, points + z), ready.len()),
            ),
            fmul(
                u.scale,
                fsum(joining_terms(cfg, next.pre_scales, ready, r, points + z), ready.len()),
            ),
        ),
{
    broadcast use {lemma_residue_canonical, lemma_fsum_canonical};

    let n = ready.len();
    let s = u.scale;
    let sx = fmul(s, extra);
    let y = points + z;
    let f = joined_terms(cfg, next, ready, r + 1, z);
    let a = joined_terms(cfg, w, ready, r, y);
    let c = joining_terms(cfg, next.pre_scales, ready, r, y);
    let sa = |b: int| fmul(sx, a(b));
    let sc = |b: int| fmul(s, c(b));
    let old_mix = mixed(w.scales, w.extras);
    let new_mix = mixed(next.scales, next.extras);
    assert(new_mix =~= old_mix.push(sx));
    assert(all_canonical(old_mix));
    lemma_residue_id(0);
    assert(sx * 0 == 0) by (nonlinear_arith);
    assert(s * 0 == 0) by (nonlinear_arith);
    assert forall|b: int| 0 <= b < n implies #[trigger] f(b) == fadd(sa(b), sc(b)) by {
        let j = cfg.join_rounds()[b];
        if j < r {
            assert(next.pre_scales[b] == w.pre_scales[b]);
            assert(next.scales[j as int] == w.scales[j as int]);
            assert(next.starts[j as int] == w.starts[j as int]);
            assert(w.starts[j as int] <= w.points.len());
            let st = w.starts[j as int] as int;
            assert(next.points.skip(st) + z =~= w.points.skip(st) + y);
            lemma_suffix_push(old_mix, sx, j + 1);
            // (pre * scale) * (sx * suffix) == sx * ((pre * scale) * suffix)
            let ps = fmul(w.pre_scales[b], w.scales[j as int]);
            let suf = scale_suffix(old_mix, j + 1);
            lemma_fmul_assoc(ps, sx, suf);
            lemma_fmul_comm(ps, sx);
            lemma_fmul_assoc(sx, ps, suf);
            lemma_fmul_assoc(sx, bundle_scale(w, b, j), mle(ready[b].covector, w.points.skip(st) + y));
            lemma_add_zero(f(b));
        } else if j == r {
            assert(w.starts[r as int] == w.points.len());
            assert(next.starts[r as int] == w.starts[r as int]);
            let st = w.starts[r as int] as int;
            assert(next.points.skip(st) + z =~= y);
            reveal_with_fuel(scale_suffix, 2);
            assert(next.scales[r as int] == s);
            let pre = next.pre_scales[b];
            assert(canonical(pre));
            let v = mle(ready[b].covector, y);
            lemma_fmul_one(fmul(pre, s));
            lemma_fmul_comm(pre, s);
            lemma_fmul_assoc(s, pre, v);
            lemma_add_zero(f(b));
        } else {
            lemma_add_zero(0);
        }
    }
    lemma_fsum_add(sa, sc, f, n);
    assert forall|b: int| 0 <= b < n implies canonical(#[trigger] a(b)) by {}
    assert forall|b: int| 0 <= b < n implies canonical(#[trigger] c(b)) by {}
    lemma_fsum_scale(sx, a, sa, n);
    lemma_fsum_scale(s, c, sc, n);
}

/// The constraints' contributions after one more round.
proof fn lemma_constraints_step(
    cfg: &BatchedProtocolConfig,
    r: nat,
    w: BatchWalk,
    next: BatchWalk,
    points: Seq<int>,
    u: crate::code_switch::Update,
    extra: int,
    z: Seq<int>,
)
    requires
        cfg.wf(),
        r < cfg.inner.rounds@.len(),
        cfg.batch_fits(w, r),
        walk_canonical(w),
        canonical(extra),
        crate::code_switch::update_wf(u),
        stepped(cfg, r, w, next, points, u, extra),
        points.len() == cfg.inner.rounds@[r as int].sc().num_rounds,
        z.len() == ceil_log2_spec(source_of(cfg, r as int).message_len()),
    ensures
        shared_constraints(next, z) == fadd(
            fmul(fmul(u.scale, extra), shared_constraints(w, points + z)),
            fadd(
                fsum(power_terms(u.ood_coeffs, u.ood_points, z), u.ood_points.len()),
                fsum(power_terms(u.in_coeffs, u.in_points, z), u.in_points.len()),
            ),
        ),
{
    broadcast use {lemma_residue_canonical, lemma_fsum_canonical};

    let round = cfg.inner.rounds@[r as int];
    assert(round.wf());
    lemma_round_variables(&round);
    let sx = fmul(u.scale, extra);
    let old_mix = mixed(w.scales, w.extras);
    let new_mix = mixed(next.scales, next.extras);
    assert(new_mix =~= old_mix.push(sx));
    assert(all_canonical(old_mix));
    let a = as_walk(w);
    let b = as_walk(next);
    let variables = cfg.vars_left(0);
    let left = cfg.vars_left(r);
    assert(left == ceil_log2_spec(round.cs().source.vector_size as nat)) by {
        if r > 0 {
            assert(cfg.inner.rounds@[r as int].wf());
        }
    }
    assert(w.starts[r as int] + cfg.vars_left(r) == variables);
    assert(walk_fits(a, r, variables, left));
    lemma_old_constraints(a, b, r, variables, left, sx, points, z);
    let bits = ceil_log2_spec(round.cs().source.message_len());
    lemma_new_constraints(u, bits, r, new_mix, next.starts, next.points, z);
    // Split into the old and the new constraints.
    let full = next.points + z;
    let f = constraint_terms(next.constraints, new_mix, next.starts, full);
    let old_terms = constraint_terms(w.constraints, new_mix, next.starts, full);
    let cs = round_constraints(u, bits, r);
    let new_terms = constraint_terms(cs, new_mix, next.starts, full);
    let n = w.constraints.len();
    assert forall|i: int| 0 <= i < cs.len() implies #[trigger] new_terms(i) == f(n + i) by {
        assert(next.constraints[n + i] == cs[i]);
    }
    lemma_fsum_split(f, new_terms, n, cs.len());
    lemma_fsum_eq(f, old_terms, n);
}

/// The carrier's covector stays accounted for over a shared round.
proof fn lemma_shared_step(
    cfg: &BatchedProtocolConfig,
    ready: Seq<BlockView>,
    r: nat,
    carrier: Option<BlockView>,
    p: ProverView,
    w: BatchWalk,
    next: BatchWalk,
    z: Seq<int>,
)
    requires
        runnable(cfg),
        ready_ok(cfg, ready),
        r < cfg.inner.rounds@.len(),
        carrier_ok(cfg, carrier, r),
        cfg.batch_fits(w, r),
        walk_canonical(w),
        walk_canonical(next),
        ({
            let (e, after) = cfg.entering(ready, r as int, carrier, p);
            let round = cfg.inner.rounds@[r as int];
            let o = round.round_proved(e, after);
            &&& o is Some
            &&& stepped(
                cfg,
                r,
                w,
                next,
                o.unwrap().points,
                o.unwrap().update,
                entering_extra(cfg, ready, r as int, carrier, p),
            )
            &&& next.pre_scales == entering_scales(cfg, ready, r as int, carrier, w.pre_scales, p)
            &&& all_canonical(z)
            &&& z.len() == ceil_log2_spec(round.cs().source.message_len())
            &&& carrier_value(carrier, o.unwrap().points + z) == shared_value(
                cfg,
                w,
                ready,
                r,
                o.unwrap().points + z,
            )
        }),
    ensures
        ({
            let (e, after) = cfg.entering(ready, r as int, carrier, p);
            let o = cfg.inner.rounds@[r as int].round_proved(e, after).unwrap();
            mle(o.block.covector, z) == shared_value(cfg, next, ready, r + 1, z)
        }),
{
    broadcast use {lemma_residue_canonical, lemma_fsum_canonical};

    let (e, after) = cfg.entering(ready, r as int, carrier, p);
    let round = cfg.inner.rounds@[r as int];
    let o = round.round_proved(e, after).unwrap();
    let u = o.update;
    let y = o.points + z;
    let extra = entering_extra(cfg, ready, r as int, carrier, p);
    assert(round.wf());
    let vectors = entering_vectors(cfg, ready, r as int, carrier);
    lemma_entering_valid(cfg, ready, r, carrier, p);
    law_round_keeps_claim(&round, e, vectors, after);
    lemma_round_variables(&round);
    assert(all_canonical(y));
    lemma_entering_value(cfg, ready, r, carrier, w.pre_scales, p, y);
    law_round_covector_value(&round, e, vectors, after, z);
    lemma_joined_step(cfg, ready, r, w, next, o.points, u, extra, z);
    lemma_constraints_step(cfg, r, w, next, o.points, u, extra, z);
    let a = fsum(joined_terms(cfg, w, ready, r, y), ready.len());
    let b = shared_constraints(w, y);
    let j = fsum(joining_terms(cfg, next.pre_scales, ready, r, y), ready.len());
    let c = fadd(
        fsum(power_terms(u.ood_coeffs, u.ood_points, z), u.ood_points.len()),
        fsum(power_terms(u.in_coeffs, u.in_points, z), u.in_points.len()),
    );
    lemma_step_identity(u.scale, extra, a, b, j, c);
}

/// Where both parties are after some shared rounds.
pub open spec fn shared_in_step(
    cfg: &BatchedProtocolConfig,
    ready: Seq<BlockView>,
    k: nat,
    carrier: Option<BlockView>,
    w: BatchWalk,
) -> bool {
    &&& w.carrier == carrier_check(cfg, carrier, k)
    &&& cfg.batch_fits(w, k)
    &&& walk_canonical(w)
    &&& forall|z: Seq<int>|
        all_canonical(z) && z.len() == cfg.vars_left(k) ==> carrier_value(carrier, z)
            == #[trigger] shared_value(cfg, w, ready, k, z)
}

/// Both parties stay in step over the shared rounds.
pub proof fn law_shared_rounds_complete(
    cfg: &BatchedProtocolConfig,
    ready: Seq<BlockView>,
    k: nat,
    p: ProverView,
    q: ProverView,
    tail: Seq<u64>,
)
    requires
        !q.stuck,
        runnable(cfg),
        ready_ok(cfg, ready),
        k <= cfg.inner.rounds@.len(),
        cfg.walked(ready, k, p) is Some,
        follows(cfg.walked(ready, k, p).unwrap().1, q),
    ensures
        ({
            let (carrier, view) = cfg.walked(ready, k, p).unwrap();
            let checked = cfg.walk_checked(ready_checks(cfg, ready), k, pending(p, q, tail));
            &&& follows(p, view)
            &&& checked is Some
            &&& checked.unwrap().view == pending(view, q, tail)
            &&& shared_in_step(cfg, ready, k, carrier, checked.unwrap())
        }),
    decreases k,
{
    broadcast use {lemma_residue_canonical, lemma_fsum_canonical};

    let (carrier, view) = cfg.walked(ready, k, p).unwrap();
    let checks = ready_checks(cfg, ready);
    let v = pending(p, q, tail);
    if k == 0 {
        lemma_follows_refl(p);
        let w = cfg.walk_checked(checks, 0, v).unwrap();
        assert forall|z: Seq<int>|
            all_canonical(z) && z.len() == cfg.vars_left(0) implies carrier_value(carrier, z)
            == #[trigger] shared_value(cfg, w, ready, 0, z) by {
            let f = joined_terms(cfg, w, ready, 0, z);
            assert forall|b: int| 0 <= b < ready.len() implies #[trigger] f(b) == 0 by {}
            lemma_fsum_zero(f, ready.len());
            lemma_add_zero(0);
        }
        assert forall|i: int| 0 <= i < w.pre_scales.len() implies canonical(
            #[trigger] w.pre_scales[i],
        ) by {}
    } else {
        let r = (k - 1) as nat;
        let (before, mid) = cfg.walked(ready, r, p).unwrap();
        lemma_walk_valid(cfg, ready, r, p);
        lemma_round_followed(cfg, ready, r, before, Seq::empty(), mid, q, tail);
        law_shared_rounds_complete(cfg, ready, r, p, q, tail);
        let w = cfg.walk_checked(checks, r, v).unwrap();
        lemma_round_followed(cfg, ready, r, before, w.pre_scales, mid, q, tail);
        lemma_follows_trans(p, mid, view);
        lemma_in_step_next(cfg, ready, r, before, mid, w, cfg.walk_checked(checks, k, v).unwrap());
    }
}

/// The verifier follows a shared round with the merge before it.
proof fn lemma_round_followed(
    cfg: &BatchedProtocolConfig,
    ready: Seq<BlockView>,
    r: nat,
    carrier: Option<BlockView>,
    pre: Seq<int>,
    p: ProverView,
    q: ProverView,
    tail: Seq<u64>,
)
    requires
        !q.stuck,
        runnable(cfg),
        ready_ok(cfg, ready),
        r < cfg.inner.rounds@.len(),
        carrier_ok(cfg, carrier, r),
        ({
            let (e, after) = cfg.entering(ready, r as int, carrier, p);
            let o = cfg.inner.rounds@[r as int].round_proved(e, after);
            o is Some && follows(o.unwrap().view, q)
        }),
    ensures
        ({
            let (e, after) = cfg.entering(ready, r as int, carrier, p);
            let round = cfg.inner.rounds@[r as int];
            let o = round.round_proved(e, after).unwrap();
            let x = cfg.entering_checked(
                ready_checks(cfg, ready),
                r as int,
                carrier_check(cfg, carrier, r),
                pre,
                pending(p, q, tail),
            );
            &&& follows(p, o.view)
            &&& follows(p, q)
            &&& x is Some
            &&& x.unwrap().extra == entering_extra(cfg, ready, r as int, carrier, p)
            &&& x.unwrap().pre_scales == entering_scales(cfg, ready, r as int, carrier, pre, p)
            &&& round.round_checked(x.unwrap().block, x.unwrap().view) == Some(
                crate::zook::round::RoundChecked {
                    block: check_block(o.block, &round.cs().target),
                    points: o.points,
                    update: o.update,
                    view: pending(o.view, q, tail),
                },
            )
        }),
{
    let round = cfg.inner.rounds@[r as int];
    assert(round.wf());
    let (e, after) = cfg.entering(ready, r as int, carrier, p);
    let vectors = entering_vectors(cfg, ready, r as int, carrier);
    lemma_entering_valid(cfg, ready, r, carrier, p);
    let o = round.round_proved(e, after).unwrap();
    law_round_complete(&round, e, vectors, after, q, tail);
    lemma_follows_trans(after, o.view, q);
    lemma_entering_followed(cfg, ready, r, carrier, pre, p, q, tail);
    lemma_follows_trans(p, after, q);
    lemma_follows_trans(p, after, o.view);
}

/// The parties are in step after one more shared round.
proof fn lemma_in_step_next(
    cfg: &BatchedProtocolConfig,
    ready: Seq<BlockView>,
    r: nat,
    before: Option<BlockView>,
    mid: ProverView,
    w: BatchWalk,
    next: BatchWalk,
)
    requires
        runnable(cfg),
        ready_ok(cfg, ready),
        r < cfg.inner.rounds@.len(),
        carrier_ok(cfg, before, r),
        shared_in_step(cfg, ready, r, before, w),
        ({
            let (e, after) = cfg.entering(ready, r as int, before, mid);
            let round = cfg.inner.rounds@[r as int];
            let o = round.round_proved(e, after);
            &&& o is Some
            &&& next.carrier == Some(check_block(o.unwrap().block, &round.cs().target))
            &&& next.points == w.points + o.unwrap().points
            &&& next.starts == w.starts.push(next.points.len() as usize)
            &&& next.scales == w.scales.push(o.unwrap().update.scale)
            &&& next.extras == w.extras.push(entering_extra(cfg, ready, r as int, before, mid))
            &&& next.pre_scales == entering_scales(cfg, ready, r as int, before, w.pre_scales, mid)
            &&& next.constraints == w.constraints + round_constraints(
                o.unwrap().update,
                ceil_log2_spec(round.cs().source.message_len()),
                r,
            )
        }),
    ensures
        ({
            let (e, after) = cfg.entering(ready, r as int, before, mid);
            let o = cfg.inner.rounds@[r as int].round_proved(e, after).unwrap();
            shared_in_step(cfg, ready, r + 1, Some(o.block), next)
        }),
{
    let round = cfg.inner.rounds@[r as int];
    assert(round.wf());
    let (e, after) = cfg.entering(ready, r as int, before, mid);
    let vectors = entering_vectors(cfg, ready, r as int, before);
    lemma_entering_valid(cfg, ready, r, before, mid);
    let o = round.round_proved(e, after).unwrap();
    law_round_keeps_claim(&round, e, vectors, after);
    let extra = entering_extra(cfg, ready, r as int, before, mid);
    lemma_round_variables(&round);
    let left = ceil_log2_spec(round.cs().source.vector_size as nat);
    assert(cfg.vars_left(r) == left) by {
        if r > 0 {
            assert(cfg.inner.rounds@[r as int].wf());
        }
    }
    assert(w.starts[r as int] + cfg.vars_left(r) == cfg.vars_left(0));
    crate::arith::lemma_exponent_small(cfg.inner.first_code().vector_size);
    // The factors, for any point.
    let y0 = zeros_spec(left);
    assert(all_canonical(y0));
    lemma_entering_value(cfg, ready, r, before, w.pre_scales, mid, y0);
    assert(stepped(cfg, r, w, next, o.points, o.update, extra));
    lemma_next_canonical(cfg, r, w, next, o.points, o.update, extra);
    cfg.lemma_fits_step(w, next, r);
    let carrier = Some(o.block);
    assert forall|z: Seq<int>|
        all_canonical(z) && z.len() == cfg.vars_left(r + 1) implies carrier_value(carrier, z)
        == #[trigger] shared_value(cfg, next, ready, r + 1, z) by {
        let y = o.points + z;
        assert(all_canonical(y));
        assert(carrier_value(before, y) == shared_value(cfg, w, ready, r, y));
        lemma_shared_step(cfg, ready, r, before, mid, w, next, z);
    }
}

/// One more round's values are canonical.
proof fn lemma_next_canonical(
    cfg: &BatchedProtocolConfig,
    r: nat,
    w: BatchWalk,
    next: BatchWalk,
    points: Seq<int>,
    u: crate::code_switch::Update,
    extra: int,
)
    requires
        walk_canonical(w),
        all_canonical(points),
        crate::code_switch::update_wf(u),
        canonical(extra),
        all_canonical(next.pre_scales),
        stepped(cfg, r, w, next, points, u, extra),
    ensures
        walk_canonical(next),
{
    assert forall|i: int| 0 <= i < next.constraints.len() implies canonical(
        (#[trigger] next.constraints[i]).weight,
    ) by {
        let n = w.constraints.len();
        if i < n {
            assert(next.constraints[i] == w.constraints[i]);
        } else {
            let j = i - n;
            if j < u.ood_points.len() {
                assert(canonical(u.ood_coeffs[j]));
            } else {
                assert(canonical(u.in_coeffs[j - u.ood_points.len()]));
            }
        }
    }
}

} // verus!
