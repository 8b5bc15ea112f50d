//! Assembling the batched configuration around the shared rounds.

use crate::arith::next_pow2;
use crate::bits::Bits;
use crate::params::batched::config::{
    seen, BatchedProtocolConfig, BundleConfig, MergeSchedule, RoundJoin,
};
use crate::params::batched::fault::BatchedFault;
use crate::params::batched::placement::{
    build_pre_merge_bundle, bundle_placed, first_size_fault, folds_of, join_work, merge_point_fault,
    place_fault, point_size, post_length, pre_shape, selector_merge_config_for_join, MergePlan,
    PreMergeCtx,
};
use crate::params::batched::pre_merge::fold_total;
use crate::params::batched::spec::{
    inputs_fault, law_inputs_accepted, unsupported, BatchedTuningSpec, BundleSpec,
};
use crate::params::batched::structure_laws::law_structure_accepted;
use crate::params::build_round::{quote_fits, round_built, RoundQuote};
use crate::params::config::ProtocolConfig;
use crate::params::error::DeriveError;
use crate::params::spec::SecuritySpec;
use crate::sumcheck::max_table_len;
use crate::zook::batched::selector::merge as selector_merge;
use vstd::arithmetic::div_mod::lemma_div_basics;
use vstd::arithmetic::power2::{lemma2_to64, pow2};
use vstd::prelude::*;

verus! {

/// The configurations of all bundles, and when they join.
#[derive(Debug)]
pub struct Placement {
    pub bundle_configs: Vec<BundleConfig>,
    pub schedule: MergeSchedule,
}

/// What the rounds before the merge are built for.
pub open spec fn ctx_of(spec: SecuritySpec, tuning: BatchedTuningSpec, num_polys: usize, inner: ProtocolConfig) -> PreMergeCtx {
    PreMergeCtx {
        spec,
        canonical_num_polys: num_polys,
        starting_log_inv_rate: tuning.starting_log_inv_rate,
        shared_first_fold: tuning.folding_factor.spec_at_round(0) as u32,
        inner_first_source: inner.first_code(),
    }
}

/// The first of the first `k` bundles that cannot be placed.
pub open spec fn first_place_fault(
    ctx: PreMergeCtx,
    bundles: Seq<BundleSpec>,
    folds: Seq<Seq<usize>>,
    quotes: Seq<Vec<RoundQuote>>,
    k: nat,
) -> Option<DeriveError>
    decreases k,
{
    if k == 0 {
        None
    } else {
        match first_place_fault(ctx, bundles, folds, quotes, (k - 1) as nat) {
            Some(e) => Some(e),
            None => place_fault(
                ctx,
                (k - 1) as usize,
                bundles[k - 1],
                folds[k - 1],
                quotes[k - 1]@,
            ),
        }
    }
}

proof fn lemma_place_fault(
    ctx: PreMergeCtx,
    bundles: Seq<BundleSpec>,
    folds: Seq<Seq<usize>>,
    quotes: Seq<Vec<RoundQuote>>,
    j: nat,
    k: nat,
)
    requires
        j <= k,
        first_place_fault(ctx, bundles, folds, quotes, j) is Some,
    ensures
        first_place_fault(ctx, bundles, folds, quotes, k) == first_place_fault(
            ctx,
            bundles,
            folds,
            quotes,
            j,
        ),
    decreases k,
{
    if j < k {
        lemma_place_fault(ctx, bundles, folds, quotes, j, (k - 1) as nat);
    }
}

/// Why the bundles cannot be placed around the shared rounds.
pub open spec fn placement_fault(
    spec: SecuritySpec,
    tuning: BatchedTuningSpec,
    plan: MergePlan,
    inner: ProtocolConfig,
    quotes: Seq<Vec<RoundQuote>>,
    selector_floor: Bits,
) -> Option<DeriveError> {
    let bundles = tuning.bundles@;
    if inner.rounds@.len() == 0 {
        Some(unsupported(BatchedFault::NoSharedRounds))
    } else {
        match first_place_fault(
            ctx_of(spec, tuning, plan.num_polys, inner),
            bundles,
            folds_of(plan.folds@),
            quotes,
            bundles.len(),
        ) {
            Some(e) => Some(e),
            None => match join_work(spec, 0, bundles.len() as usize, selector_floor) {
                Err(e) => Some(e),
                Ok(pow) => None,
            },
        }
    }
}

/// Do the codes fit the rounds that they were chosen for, and do all sizes fit a machine
/// size?
pub open spec fn place_inputs_fit(
    ctx: PreMergeCtx,
    bundles: Seq<BundleSpec>,
    folds: Seq<Seq<usize>>,
    quotes: Seq<Vec<RoundQuote>>,
) -> bool {
    &&& bundles.len() > 0
    &&& folds.len() == bundles.len()
    &&& quotes.len() == bundles.len()
    &&& forall|b: int|
        0 <= b < bundles.len() ==> {
            &&& quotes[b]@.len() == (#[trigger] folds[b]).len()
            &&& ctx.canonical_num_polys * bundles[b].length <= usize::MAX
            &&& fold_total(folds[b]) <= 63
            &&& pow2(fold_total(folds[b])) <= usize::MAX
        }
    &&& forall|b: int, k: int|
        0 <= b < bundles.len() && 0 <= k < folds[b].len() ==> quote_fits(
            ctx.spec,
            pre_shape(ctx, b as usize, bundles[b], folds[b], k),
            #[trigger] quotes[b]@[k],
        )
    &&& ctx.inner_first_source.vector_size >= 1
    &&& next_pow2(bundles.len()) * ctx.inner_first_source.vector_size <= max_table_len()
}

/// Is this the placement: every bundle as placed, and one join of all before the first
/// shared round?
pub open spec fn is_placement(
    ctx: PreMergeCtx,
    bundles: Seq<BundleSpec>,
    folds: Seq<Seq<usize>>,
    quotes: Seq<Vec<RoundQuote>>,
    selector_floor: Bits,
    placed: Placement,
) -> bool {
    let joins = placed.schedule.joins@;
    &&& placed.bundle_configs@.len() == bundles.len()
    &&& forall|b: int|
        0 <= b < bundles.len() ==> bundle_placed(
            ctx,
            b as usize,
            bundles[b],
            folds[b],
            quotes[b]@,
            #[trigger] placed.bundle_configs@[b],
        )
    &&& joins.len() == 1
    &&& joins[0].round_index == Some(0usize)
    &&& joins[0].bundle_indices@ == Seq::new(bundles.len(), |i: int| i as usize)
    &&& joins[0].t == bundles.len()
    &&& joins[0].selector.wf()
    &&& joins[0].selector.t == bundles.len()
    &&& joins[0].selector.selector.message_length == ctx.inner_first_source.vector_size
    &&& join_work(ctx.spec, 0, bundles.len() as usize, selector_floor) == Ok::<
        crate::proof_of_work::Config,
        DeriveError,
    >(joins[0].selector.selector.sumcheck.round_pow)
}

/// Place all bundles around the shared rounds: every bundle's rounds before the merge,
/// and one join of all before the first shared round.
pub fn place(
    spec: &SecuritySpec,
    tuning: &BatchedTuningSpec,
    plan: &MergePlan,
    quotes: &Vec<Vec<RoundQuote>>,
    selector_floor: Bits,
    inner: &ProtocolConfig,
) -> (r: Result<Placement, DeriveError>)
    requires
        inner.rounds@.len() > 0 ==> place_inputs_fit(
            ctx_of(*spec, *tuning, plan.num_polys, *inner),
            tuning.bundles@,
            folds_of(plan.folds@),
            quotes@,
        ),
    ensures
        match placement_fault(*spec, *tuning, *plan, *inner, quotes@, selector_floor) {
            Some(e) => r == Err::<Placement, DeriveError>(e),
            None => r is Ok && is_placement(
                ctx_of(*spec, *tuning, plan.num_polys, *inner),
                tuning.bundles@,
                folds_of(plan.folds@),
                quotes@,
                selector_floor,
                r->Ok_0,
            ),
        },
{
    if inner.rounds.len() == 0 {
        return Err(DeriveError::BatchedUnsupported { reason: BatchedFault::NoSharedRounds });
    }
    let ctx = PreMergeCtx {
        spec: *spec,
        canonical_num_polys: plan.num_polys,
        starting_log_inv_rate: tuning.starting_log_inv_rate,
        shared_first_fold: tuning.folding_factor.at_round(0) as u32,
        inner_first_source: inner.rounds[0].code_switch.config.source,
    };
    let ghost bs = tuning.bundles@;
    let ghost fs = folds_of(plan.folds@);
    assert(ctx == ctx_of(*spec, *tuning, plan.num_polys, *inner));
    let n: usize = tuning.bundles.len();
    let mut bundle_configs: Vec<BundleConfig> = Vec::new();
    for b in 0..n
        invariant
            n == bs.len(),
            bs == tuning.bundles@,
            fs == folds_of(plan.folds@),
            inner.rounds@.len() > 0,
            ctx == ctx_of(*spec, *tuning, plan.num_polys, *inner),
            place_inputs_fit(ctx, bs, fs, quotes@),
            first_place_fault(ctx, bs, fs, quotes@, b as nat) is None,
            bundle_configs@.len() == b,
            forall|c: int|
                0 <= c < b ==> bundle_placed(
                    ctx,
                    c as usize,
                    bs[c],
                    fs[c],
                    quotes@[c]@,
                    #[trigger] bundle_configs@[c],
                ),
    {
        assert(fs[b as int] == plan.folds@[b as int]@);
        match build_pre_merge_bundle(&ctx, b, &tuning.bundles[b], &plan.folds[b], &quotes[b]) {
            Ok(cfg) => {
                bundle_configs.push(cfg);
            },
            Err(e) => {
                proof {
                    lemma_place_fault(ctx, bs, fs, quotes@, (b + 1) as nat, n as nat);
                }
                return Err(e);
            },
        }
    }
    let selector: selector_merge::Config = match selector_merge_config_for_join(
        spec,
        0,
        n,
        ctx.inner_first_source.vector_size,
        selector_floor,
    ) {
        Ok(s) => s,
        Err(e) => {
            return Err(e);
        },
    };
    let mut bundle_indices: Vec<usize> = Vec::new();
    for i in 0..n
        invariant
            bundle_indices@ =~= Seq::new(i as nat, |j: int| j as usize),
    {
        bundle_indices.push(i);
    }
    let mut joins: Vec<RoundJoin> = Vec::new();
    joins.push(RoundJoin { round_index: Some(0), bundle_indices, t: n, selector });
    assert(joins@[0].bundle_indices@ =~= Seq::new(bs.len(), |i: int| i as usize));
    Ok(Placement { bundle_configs, schedule: MergeSchedule { joins } })
}

/// Which of the first bundles a join of all has seen.
proof fn lemma_seen_all(joins: Seq<RoundJoin>, n: nat, m: nat, b: int)
    requires
        joins.len() == 1,
        joins[0].bundle_indices@ == Seq::new(n, |i: int| i as usize),
        m <= n <= usize::MAX,
    ensures
        seen(joins, 0, m, b) == (0 <= b < m),
    decreases m,
{
    if m > 0 {
        lemma_seen_all(joins, n, (m - 1) as nat, b);
    }
}

/// A placement is accepted: around shared rounds it passes every check of the structure.
pub proof fn law_placement_accepted(
    ctx: PreMergeCtx,
    tuning: BatchedTuningSpec,
    folds: Seq<Seq<usize>>,
    quotes: Seq<Vec<RoundQuote>>,
    selector_floor: Bits,
    placed: Placement,
    inner: ProtocolConfig,
)
    requires
        inner.rounds@.len() > 0,
        ctx.inner_first_source == inner.first_code(),
        0 < tuning.bundles@.len() <= usize::MAX,
        folds.len() == tuning.bundles@.len(),
        quotes.len() == tuning.bundles@.len(),
        forall|b: int|
            0 <= b < folds.len() ==> (#[trigger] folds[b]).len() <= 1 && quotes[b]@.len()
                == folds[b].len(),
        is_placement(ctx, tuning.bundles@, folds, quotes, selector_floor, placed),
        forall|b: int|
            0 <= b < folds.len() ==> place_fault(
                ctx,
                b as usize,
                tuning.bundles@[b],
                #[trigger] folds[b],
                quotes[b]@,
            ) is None,
    ensures
        (BatchedProtocolConfig {
            inner,
            schedule: placed.schedule,
            bundle_configs: placed.bundle_configs,
            tuning,
        }).structure_fault() is None,
{
    let cfg = BatchedProtocolConfig {
        inner,
        schedule: placed.schedule,
        bundle_configs: placed.bundle_configs,
        tuning,
    };
    let n = tuning.bundles@.len();
    let joins = cfg.schedule.joins@;
    law_structure_accepted(&cfg);
    reveal(BatchedProtocolConfig::well_placed);
    assert forall|b: int| 0 <= b < n implies tuning.bundles@[b] == (
    #[trigger] cfg.bundle_configs@[b]).spec by {
        assert(bundle_placed(
            ctx,
            b as usize,
            tuning.bundles@[b],
            folds[b],
            quotes[b]@,
            placed.bundle_configs@[b],
        ));
    }
    assert(cfg.join_ok(0));
    assert forall|j: int, m: int|
        0 <= j < joins.len() && 0 <= m < joins[j].bundle_indices@.len() implies #[trigger] cfg.index_ok(
        j,
        m,
    ) by {
        assert(j == 0);
        let b = joins[0].bundle_indices@[m];
        assert(b == m);
        lemma_seen_all(joins, n, m as nat, b as int);
        assert(bundle_placed(
            ctx,
            m as usize,
            tuning.bundles@[m],
            folds[m],
            quotes[m]@,
            placed.bundle_configs@[m],
        ));
    }
    assert forall|b: int| 0 <= b < n implies #[trigger] seen(joins, joins.len(), 0, b) by {
        lemma_seen_all(joins, n, n, b);
    }
    assert forall|b: int| 0 <= b < n implies #[trigger] cfg.bundle_ok(b) by {
        assert(folds[b].len() <= 1);
        assert(bundle_placed(
            ctx,
            b as usize,
            tuning.bundles@[b],
            folds[b],
            quotes[b]@,
            placed.bundle_configs@[b],
        ));
        if folds[b].len() == 1 {
            assert(round_built(
                ctx.spec,
                pre_shape(ctx, b as usize, tuning.bundles@[b], folds[b], 0),
                quotes[b]@[0],
                placed.bundle_configs@[b].pre_merge_rounds@[0],
            ));
        }
    }
}

/// All bundles come to the size of the first.
pub proof fn lemma_sizes_agree(bundles: Seq<BundleSpec>, num_polys: usize, folds: Seq<Seq<usize>>, b: int, k: nat)
    requires
        0 <= b < k,
        first_size_fault(bundles, num_polys, folds, k) is None,
    ensures
        point_size(bundles, num_polys, folds, b) == point_size(bundles, num_polys, folds, 0),
    decreases k,
{
    if b < k - 1 {
        lemma_sizes_agree(bundles, num_polys, folds, b, (k - 1) as nat);
    }
}

/// A placed bundle is committed to at its full size, and its rounds are well formed.
proof fn lemma_bundle_wf(
    ctx: PreMergeCtx,
    b: usize,
    spec: BundleSpec,
    folds: Seq<usize>,
    quotes: Seq<RoundQuote>,
    cfg: BundleConfig,
)
    requires
        bundle_placed(ctx, b, spec, folds, quotes, cfg),
        ctx.inner_first_source.wf(),
        spec.num_polys == ctx.canonical_num_polys,
        ctx.canonical_num_polys * spec.length <= usize::MAX,
        ctx.inner_first_source.vector_size == ctx.canonical_num_polys as nat * post_length(
            spec.length,
            folds,
        ),
        forall|k: int|
            0 <= k < folds.len() ==> quote_fits(
                ctx.spec,
                pre_shape(ctx, b, spec, folds, k),
                #[trigger] quotes[k],
            ),
    ensures
        cfg.irs_config.wf(),
        cfg.irs_config.vector_size == cfg.spec.num_polys * cfg.spec.length,
        forall|k: int|
            0 <= k < cfg.pre_merge_rounds@.len() ==> (#[trigger] cfg.pre_merge_rounds@[k]).wf(),
{
    lemma2_to64();
    lemma_div_basics(spec.length as int);
    lemma_div_basics(ctx.canonical_num_polys * spec.length);
    if folds.len() == 0 {
        assert(fold_total(folds) == 0);
        assert(pow2(fold_total(folds)) == 1);
    } else {
        assert(quote_fits(ctx.spec, pre_shape(ctx, b, spec, folds, 0), quotes[0]));
        assert(round_built(
            ctx.spec,
            pre_shape(ctx, b, spec, folds, 0),
            quotes[0],
            cfg.pre_merge_rounds@[0],
        ));
        assert(folds.take(0) =~= Seq::<usize>::empty());
        assert(fold_total(folds.take(0)) == 0);
        assert(pow2(fold_total(folds.take(0))) == 1);
    }
    assert forall|k: int| 0 <= k < cfg.pre_merge_rounds@.len() implies (
    #[trigger] cfg.pre_merge_rounds@[k]).wf() by {
        assert(round_built(
            ctx.spec,
            pre_shape(ctx, b, spec, folds, k),
            quotes[k],
            cfg.pre_merge_rounds@[k],
        ));
    }
}

/// A placement around well-formed shared rounds, at the size that every bundle comes to,
/// is well formed: it can prove and verify.
pub proof fn law_placed_plan_is_wf(
    ctx: PreMergeCtx,
    tuning: BatchedTuningSpec,
    folds: Seq<Seq<usize>>,
    quotes: Seq<Vec<RoundQuote>>,
    selector_floor: Bits,
    placed: Placement,
    inner: ProtocolConfig,
)
    requires
        inner.wf(),
        inner.rounds@.len() > 0,
        ctx.inner_first_source == inner.first_code(),
        inputs_fault(tuning.bundles@) is None,
        ctx.canonical_num_polys == tuning.bundles@[0].num_polys,
        merge_point_fault(tuning.bundles@, ctx.canonical_num_polys, folds) is None,
        inner.tuning.vector_size == point_size(tuning.bundles@, ctx.canonical_num_polys, folds, 0),
        place_inputs_fit(ctx, tuning.bundles@, folds, quotes),
        forall|b: int| 0 <= b < folds.len() ==> (#[trigger] folds[b]).len() <= 1,
        is_placement(ctx, tuning.bundles@, folds, quotes, selector_floor, placed),
        forall|b: int|
            0 <= b < folds.len() ==> place_fault(
                ctx,
                b as usize,
                tuning.bundles@[b],
                #[trigger] folds[b],
                quotes[b]@,
            ) is None,
    ensures
        (BatchedProtocolConfig {
            inner,
            schedule: placed.schedule,
            bundle_configs: placed.bundle_configs,
            tuning,
        }).wf(),
{
    let cfg = BatchedProtocolConfig {
        inner,
        schedule: placed.schedule,
        bundle_configs: placed.bundle_configs,
        tuning,
    };
    let bundles = tuning.bundles@;
    let n = bundles.len();
    assert forall|b: int| 0 <= b < folds.len() implies (#[trigger] folds[b]).len() <= 1
        && quotes[b]@.len() == folds[b].len() by {}
    law_placement_accepted(ctx, tuning, folds, quotes, selector_floor, placed, inner);
    assert(inner.rounds@[0].wf());
    law_inputs_accepted(bundles);
    assert forall|b: int| 0 <= b < n implies #[trigger] cfg.bundle_wf(b) by {
        let c = cfg.bundle_configs@[b];
        assert(bundle_placed(ctx, b as usize, bundles[b], folds[b], quotes[b]@, c));
        lemma_sizes_agree(bundles, ctx.canonical_num_polys, folds, b, n);
        assert(quotes[b]@.len() == folds[b].len());
        assert forall|k: int| 0 <= k < folds[b].len() implies quote_fits(
            ctx.spec,
            pre_shape(ctx, b as usize, bundles[b], folds[b], k),
            #[trigger] quotes[b]@[k],
        ) by {}
        lemma_bundle_wf(ctx, b as usize, bundles[b], folds[b], quotes[b]@, c);
    }
}

} // verus!
