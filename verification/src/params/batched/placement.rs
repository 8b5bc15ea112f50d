//! Placing bundles: all come to one merge before the first shared round.

use crate::arith::{ceil_log2, ceil_log2_spec, is_pow2, next_pow2, power_of_two};
use crate::bits::Bits;
use crate::irs_commit;
use crate::irs_laws::same_shape;
use crate::params::batched::config::{irs_shape_matches, BundleConfig};
use crate::params::batched::fault::BatchedFault;
use crate::params::batched::pre_merge::{auto_pre_merge_plan, fold_total, plan_fault, planned_folds};
use crate::params::batched::spec::{
    inputs_fault, unsupported, validate_bundle_inputs, BatchedTuningSpec, BundleSpec,
};
use crate::params::build_round::{build_round_config, quote_fits, round_built, RoundQuote};
use crate::params::config::RoundConfig;
use crate::params::derive::first_round_fault;
use crate::params::error::{grind_to_at, ground_at, DeriveError, Pow};
use crate::params::layout::{RoundShape, RoundSlot};
use crate::params::spec::{FoldingFactor, SecuritySpec};
use crate::proof_of_work;
use crate::sumcheck::max_table_len;
use crate::zook::batched::selector::merge as selector_merge;
use vstd::arithmetic::power2::{lemma_pow2_pos, lemma_pow2_strictly_increases, pow2};
use vstd::prelude::*;

verus! {

/// The rate of the mask codes of rounds before the merge.
pub const PRE_MERGE_MASK_LOG_INV_RATE: u32 = 4;

/// The length of a bundle's polynomials after its folds.
pub open spec fn post_length(length: usize, folds: Seq<usize>) -> nat {
    (length as nat / pow2(fold_total(folds))) as nat
}

/// The folds of every bundle, as sequences.
pub open spec fn folds_of(folds: Seq<Vec<usize>>) -> Seq<Seq<usize>> {
    Seq::new(folds.len(), |i: int| folds[i]@)
}

/// What is wrong with a bundle's folds.
pub open spec fn point_fault(bundles: Seq<BundleSpec>, num_polys: usize, folds: Seq<Seq<usize>>, i: int) -> Option<
    BatchedFault,
> {
    let log = ceil_log2_spec(bundles[i].length as nat);
    let total = fold_total(folds[i]);
    if total > log {
        Some(
            BatchedFault::FoldsTooDeep {
                bundle: i as usize,
                total_fold: total as usize,
                log_length: log as usize,
            },
        )
    } else if num_polys * post_length(bundles[i].length, folds[i]) > usize::MAX {
        Some(BatchedFault::MergeSizeOverflow { bundle: i as usize })
    } else {
        None
    }
}

/// The first fault of the folds of the first `k` bundles.
pub open spec fn first_point_fault(
    bundles: Seq<BundleSpec>,
    num_polys: usize,
    folds: Seq<Seq<usize>>,
    k: nat,
) -> Option<BatchedFault>
    decreases k,
{
    if k == 0 {
        None
    } else {
        match first_point_fault(bundles, num_polys, folds, (k - 1) as nat) {
            Some(f) => Some(f),
            None => point_fault(bundles, num_polys, folds, k - 1),
        }
    }
}

/// The size of a bundle at the merge point.
pub open spec fn point_size(bundles: Seq<BundleSpec>, num_polys: usize, folds: Seq<Seq<usize>>, i: int) -> nat {
    num_polys as nat * post_length(bundles[i].length, folds[i])
}

/// The first of the first `k` bundles that comes to another size than the first.
pub open spec fn first_size_fault(
    bundles: Seq<BundleSpec>,
    num_polys: usize,
    folds: Seq<Seq<usize>>,
    k: nat,
) -> Option<BatchedFault>
    decreases k,
{
    if k == 0 {
        None
    } else {
        match first_size_fault(bundles, num_polys, folds, (k - 1) as nat) {
            Some(f) => Some(f),
            None => if point_size(bundles, num_polys, folds, k - 1) != point_size(
                bundles,
                num_polys,
                folds,
                0,
            ) {
                Some(
                    BatchedFault::MergePointsDiffer {
                        bundle: (k - 1) as usize,
                        expected: point_size(bundles, num_polys, folds, 0) as usize,
                        found: point_size(bundles, num_polys, folds, k - 1) as usize,
                    },
                )
            } else {
                None
            },
        }
    }
}

/// Why there is no common merge point.
pub open spec fn merge_point_fault(
    bundles: Seq<BundleSpec>,
    num_polys: usize,
    folds: Seq<Seq<usize>>,
) -> Option<BatchedFault> {
    match first_point_fault(bundles, num_polys, folds, bundles.len()) {
        Some(f) => Some(f),
        None => first_size_fault(bundles, num_polys, folds, bundles.len()),
    }
}

proof fn lemma_point_fault(bundles: Seq<BundleSpec>, num_polys: usize, folds: Seq<Seq<usize>>, j: nat, k: nat)
    requires
        j <= k,
        first_point_fault(bundles, num_polys, folds, j) is Some,
    ensures
        first_point_fault(bundles, num_polys, folds, k) == first_point_fault(
            bundles,
            num_polys,
            folds,
            j,
        ),
    decreases k,
{
    if j < k {
        lemma_point_fault(bundles, num_polys, folds, j, (k - 1) as nat);
    }
}

proof fn lemma_size_fault(bundles: Seq<BundleSpec>, num_polys: usize, folds: Seq<Seq<usize>>, j: nat, k: nat)
    requires
        j <= k,
        first_size_fault(bundles, num_polys, folds, j) is Some,
    ensures
        first_size_fault(bundles, num_polys, folds, k) == first_size_fault(
            bundles,
            num_polys,
            folds,
            j,
        ),
    decreases k,
{
    if j < k {
        lemma_size_fault(bundles, num_polys, folds, j, (k - 1) as nat);
    }
}

/// The sum of a bundle's folds.
fn sum_folds(folds: &Vec<usize>) -> (r: usize)
    requires
        fold_total(folds@) <= usize::MAX,
    ensures
        r == fold_total(folds@),
{
    let mut total: usize = 0;
    assert(folds@.take(0) =~= Seq::<usize>::empty());
    for i in 0..folds.len()
        invariant
            fold_total(folds@) <= usize::MAX,
            total == fold_total(folds@.take(i as int)),
    {
        proof {
            assert(folds@.take(i + 1).drop_last() =~= folds@.take(i as int));
            assert(folds@.take(i + 1).last() == folds@[i as int]);
            lemma_fold_prefix(folds@, (i + 1) as int);
        }
        total = total + folds[i];
    }
    assert(folds@.take(folds@.len() as int) =~= folds@);
    total
}

/// The first folds are no more than all.
pub proof fn lemma_fold_prefix(folds: Seq<usize>, k: int)
    requires
        0 <= k <= folds.len(),
    ensures
        fold_total(folds.take(k)) <= fold_total(folds),
    decreases folds.len() - k,
{
    if k == folds.len() {
        assert(folds.take(k) =~= folds);
    } else {
        lemma_fold_prefix(folds, k + 1);
        assert(folds.take(k + 1).drop_last() =~= folds.take(k));
    }
}

/// The size that every bundle comes to after its folds; an error if that is not one
/// size.
pub fn merge_point_vsize(
    bundles: &Vec<BundleSpec>,
    canonical_num_polys: usize,
    folds_per_bundle: &Vec<Vec<usize>>,
) -> (r: Result<usize, DeriveError>)
    requires
        bundles@.len() > 0,
        bundles@.len() == folds_per_bundle@.len(),
        forall|i: int| 0 <= i < bundles@.len() ==> is_pow2((#[trigger] bundles@[i]).length as nat),
        forall|i: int|
            0 <= i < folds_per_bundle@.len() ==> fold_total((#[trigger] folds_per_bundle@[i])@)
                <= usize::MAX,
    ensures
        match merge_point_fault(bundles@, canonical_num_polys, folds_of(folds_per_bundle@)) {
            Some(f) => r == Err::<usize, DeriveError>(unsupported(f)),
            None => r is Ok && r->Ok_0 == point_size(
                bundles@,
                canonical_num_polys,
                folds_of(folds_per_bundle@),
                0,
            ),
        },
{
    let ghost fs = folds_of(folds_per_bundle@);
    let n: usize = bundles.len();
    let mut sizes: Vec<usize> = Vec::new();
    for i in 0..n
        invariant
            n == bundles@.len(),
            bundles@.len() == folds_per_bundle@.len(),
            fs == folds_of(folds_per_bundle@),
            forall|j: int| 0 <= j < bundles@.len() ==> is_pow2((#[trigger] bundles@[j]).length as nat),
            forall|j: int|
                0 <= j < folds_per_bundle@.len() ==> fold_total((#[trigger] folds_per_bundle@[j])@)
                    <= usize::MAX,
            first_point_fault(bundles@, canonical_num_polys, fs, i as nat) is None,
            sizes@.len() == i,
            forall|j: int|
                0 <= j < i ==> (#[trigger] sizes@[j]) == point_size(
                    bundles@,
                    canonical_num_polys,
                    fs,
                    j,
                ),
    {
        let length: usize = bundles[i].length;
        let log_length: usize = ceil_log2(length) as usize;
        assert(is_pow2(bundles@[i as int].length as nat));
        assert(fs[i as int] == folds_per_bundle@[i as int]@);
        let total_fold: usize = sum_folds(&folds_per_bundle[i]);
        if total_fold > log_length {
            proof {
                lemma_point_fault(bundles@, canonical_num_polys, fs, (i + 1) as nat, n as nat);
            }
            return Err(
                DeriveError::BatchedUnsupported {
                    reason: BatchedFault::FoldsTooDeep { bundle: i, total_fold, log_length },
                },
            );
        }
        proof {
            lemma_pow2_pos(total_fold as nat);
            if total_fold < log_length {
                lemma_pow2_strictly_increases(total_fold as nat, log_length as nat);
            }
        }
        let divisor: usize = power_of_two(total_fold);
        let post: usize = length / divisor;
        match canonical_num_polys.checked_mul(post) {
            Some(size) => {
                sizes.push(size);
            },
            None => {
                proof {
                    lemma_point_fault(bundles@, canonical_num_polys, fs, (i + 1) as nat, n as nat);
                }
                return Err(
                    DeriveError::BatchedUnsupported {
                        reason: BatchedFault::MergeSizeOverflow { bundle: i },
                    },
                );
            },
        }
    }
    let first: usize = sizes[0];
    for i in 0..n
        invariant
            n == bundles@.len(),
            n > 0,
            fs == folds_of(folds_per_bundle@),
            first_point_fault(bundles@, canonical_num_polys, fs, n as nat) is None,
            first_size_fault(bundles@, canonical_num_polys, fs, i as nat) is None,
            sizes@.len() == n,
            first == sizes@[0],
            forall|j: int|
                0 <= j < n ==> (#[trigger] sizes@[j]) == point_size(
                    bundles@,
                    canonical_num_polys,
                    fs,
                    j,
                ),
    {
        if sizes[i] != first {
            proof {
                lemma_size_fault(bundles@, canonical_num_polys, fs, (i + 1) as nat, n as nat);
            }
            return Err(
                DeriveError::BatchedUnsupported {
                    reason: BatchedFault::MergePointsDiffer {
                        bundle: i,
                        expected: first,
                        found: sizes[i],
                    },
                },
            );
        }
    }
    Ok(first)
}

/// What the bundles' sizes give: the number of polynomials, every bundle's folds, and
/// the size at the merge.
#[derive(Debug)]
pub struct MergePlan {
    pub num_polys: usize,
    pub folds: Vec<Vec<usize>>,
    pub vector_size: usize,
}

/// The lengths of the bundles.
pub open spec fn lengths_of(bundles: Seq<BundleSpec>) -> Seq<usize> {
    Seq::new(bundles.len(), |i: int| bundles[i].length)
}

/// The folds of every bundle.
pub open spec fn all_folds(bundles: Seq<BundleSpec>, fold: usize) -> Seq<Seq<usize>> {
    Seq::new(bundles.len(), |i: int| planned_folds(lengths_of(bundles), fold, i))
}

/// Why the bundles cannot be merged.
pub open spec fn merge_plan_fault(tuning: BatchedTuningSpec) -> Option<BatchedFault> {
    let bundles = tuning.bundles@;
    match inputs_fault(bundles) {
        Some(f) => Some(f),
        None => match tuning.folding_factor {
            FoldingFactor::ConstantFromSecondRound { initial, rest } => Some(
                BatchedFault::FoldingNotConstant,
            ),
            FoldingFactor::Constant(fold) => match plan_fault(lengths_of(bundles), fold) {
                Some(f) => Some(f),
                None => merge_point_fault(bundles, bundles[0].num_polys, all_folds(bundles, fold)),
            },
        },
    }
}

/// Plan the merge: check the bundles, choose every bundle's folds, and find the size at
/// the merge.
pub fn plan_merge(tuning: &BatchedTuningSpec) -> (r: Result<MergePlan, DeriveError>)
    ensures
        match merge_plan_fault(*tuning) {
            Some(f) => r == Err::<MergePlan, DeriveError>(unsupported(f)),
            None => {
                let fold = tuning.folding_factor->Constant_0;
                &&& r is Ok
                &&& r->Ok_0.num_polys == tuning.bundles@[0].num_polys
                &&& folds_of(r->Ok_0.folds@) == all_folds(tuning.bundles@, fold)
                &&& r->Ok_0.vector_size == point_size(
                    tuning.bundles@,
                    r->Ok_0.num_polys,
                    all_folds(tuning.bundles@, fold),
                    0,
                )
            },
        },
{
    let num_polys: usize = match validate_bundle_inputs(tuning.bundles.as_slice()) {
        Ok(n) => n,
        Err(e) => {
            return Err(e);
        },
    };
    let fold: usize = match tuning.folding_factor {
        FoldingFactor::Constant(f) => f,
        FoldingFactor::ConstantFromSecondRound { initial, rest } => {
            return Err(
                DeriveError::BatchedUnsupported { reason: BatchedFault::FoldingNotConstant },
            );
        },
    };
    let ghost bs = tuning.bundles@;
    let mut lengths: Vec<usize> = Vec::new();
    for i in 0..tuning.bundles.len()
        invariant
            bs == tuning.bundles@,
            lengths@ =~= lengths_of(bs).take(i as int),
    {
        lengths.push(tuning.bundles[i].length);
    }
    assert(lengths@ =~= lengths_of(bs));
    let folds: Vec<Vec<usize>> = match auto_pre_merge_plan(lengths.as_slice(), fold) {
        Ok(f) => f,
        Err(e) => {
            return Err(e);
        },
    };
    proof {
        assert(folds_of(folds@) =~= all_folds(bs, fold));
        crate::params::batched::spec::law_inputs_accepted(bs);
        assert forall|i: int| 0 <= i < folds@.len() implies fold_total((#[trigger] folds@[i])@)
            <= usize::MAX by {
            crate::params::batched::pre_merge::law_plan_converges(lengths_of(bs), fold, i, i);
        }
    }
    match merge_point_vsize(&tuning.bundles, num_polys, &folds) {
        Ok(vector_size) => Ok(MergePlan { num_polys, folds, vector_size }),
        Err(e) => Err(e),
    }
}

/// The selector of a join, with the work that its analytic floor leaves to be done; none
/// for a single block.
pub open spec fn join_work(spec: SecuritySpec, join_index: usize, t: usize, analytic: Bits) -> Result<
    proof_of_work::Config,
    DeriveError,
> {
    if ceil_log2_spec(t as nat) == 0 {
        Ok(proof_of_work::Config::spec_none())
    } else {
        ground_at(spec, analytic, Pow::BatchedSelectorMerge { index: join_index })
    }
}

/// The selector of a join, with the work that its analytic floor leaves to be done; none
/// for a single block.
pub fn selector_merge_config_for_join(
    spec: &SecuritySpec,
    join_index: usize,
    active_block_count: usize,
    message_length: usize,
    analytic: Bits,
) -> (r: Result<selector_merge::Config, DeriveError>)
    requires
        active_block_count >= 1,
        message_length >= 1,
        next_pow2(active_block_count as nat) * message_length <= max_table_len(),
    ensures
        match join_work(*spec, join_index, active_block_count, analytic) {
            Err(e) => r == Err::<selector_merge::Config, DeriveError>(e),
            Ok(pow) => {
                &&& r is Ok
                &&& r->Ok_0.wf()
                &&& r->Ok_0.t == active_block_count
                &&& r->Ok_0.selector.message_length == message_length
                &&& r->Ok_0.selector.sumcheck.round_pow == pow
            },
        },
{
    let preview: selector_merge::Config = selector_merge::Config::new(
        active_block_count,
        message_length,
        proof_of_work::Config::none(),
    );
    let pow: proof_of_work::Config = if preview.selector_dim() == 0 {
        proof_of_work::Config::none()
    } else {
        match grind_to_at(spec, analytic, Pow::BatchedSelectorMerge { index: join_index }) {
            Ok(p) => p,
            Err(e) => {
                return Err(e);
            },
        }
    };
    Ok(selector_merge::Config::new(active_block_count, message_length, pow))
}

/// What the rounds before the merge are built for.
#[derive(Clone, Copy, Debug)]
pub struct PreMergeCtx {
    pub spec: SecuritySpec,
    pub canonical_num_polys: usize,
    pub starting_log_inv_rate: u32,
    pub shared_first_fold: u32,
    pub inner_first_source: irs_commit::Config,
}

/// The shape of round `k` before the merge of a bundle: it folds to the next round's
/// source, the last one to the shared rounds' first; the rate stays.
pub open spec fn shape_before(
    num_polys: usize,
    rate: u32,
    first_fold: u32,
    b: usize,
    spec: BundleSpec,
    folds: Seq<usize>,
    k: int,
) -> RoundShape {
    RoundShape {
        round_slot: RoundSlot::PreMerge(b),
        source_vector_size: ((num_polys * spec.length) as nat / pow2(
            fold_total(folds.take(k)),
        )) as usize,
        source_log_inv_rate: rate,
        source_folding_factor: folds[k] as u32,
        target_folding_factor: if k + 1 < folds.len() {
            folds[k + 1] as u32
        } else {
            first_fold
        },
        target_log_inv_rate: rate,
    }
}

/// The shape of round `k` before the merge of a bundle.
pub open spec fn pre_shape(ctx: PreMergeCtx, b: usize, spec: BundleSpec, folds: Seq<usize>, k: int) -> RoundShape {
    shape_before(
        ctx.canonical_num_polys,
        ctx.starting_log_inv_rate,
        ctx.shared_first_fold,
        b,
        spec,
        folds,
        k,
    )
}

/// The shapes of a bundle's rounds.
pub open spec fn pre_shapes(ctx: PreMergeCtx, b: usize, spec: BundleSpec, folds: Seq<usize>) -> Seq<RoundShape> {
    Seq::new(folds.len(), |k: int| pre_shape(ctx, b, spec, folds, k))
}

/// Why a bundle cannot be placed.
pub open spec fn place_fault(
    ctx: PreMergeCtx,
    b: usize,
    spec: BundleSpec,
    folds: Seq<usize>,
    quotes: Seq<RoundQuote>,
) -> Option<DeriveError> {
    let n = folds.len();
    match first_round_fault(ctx.spec, pre_shapes(ctx, b, spec, folds), quotes, n) {
        Some(e) => Some(e),
        None => if n > 0 && !same_shape(&quotes[n - 1].target, &ctx.inner_first_source) {
            Some(unsupported(BatchedFault::PreMergeMisaligned { bundle: b }))
        } else {
            None
        },
    }
}

/// Is this the configuration of a placed bundle?
pub open spec fn bundle_placed(
    ctx: PreMergeCtx,
    b: usize,
    spec: BundleSpec,
    folds: Seq<usize>,
    quotes: Seq<RoundQuote>,
    cfg: BundleConfig,
) -> bool {
    &&& cfg.spec == spec
    &&& cfg.pad_to is None
    &&& cfg.join_round == Some(0usize)
    &&& cfg.irs_config == (if folds.len() == 0 {
        ctx.inner_first_source
    } else {
        quotes[0].source
    })
    &&& cfg.pre_merge_rounds@.len() == folds.len()
    &&& forall|k: int|
        0 <= k < folds.len() ==> round_built(
            ctx.spec,
            pre_shape(ctx, b, spec, folds, k),
            quotes[k],
            #[trigger] cfg.pre_merge_rounds@[k],
        )
}

/// The shapes of a bundle's rounds before the merge.
pub fn pre_merge_shapes(
    num_polys: usize,
    rate: u32,
    first_fold: u32,
    bundle_idx: usize,
    bundle_spec: &BundleSpec,
    folds: &Vec<usize>,
) -> (r: Vec<RoundShape>)
    requires
        num_polys * bundle_spec.length <= usize::MAX,
        fold_total(folds@) <= 63,
        pow2(fold_total(folds@)) <= usize::MAX,
    ensures
        r@ == Seq::new(
            folds@.len(),
            |k: int|
                shape_before(num_polys, rate, first_fold, bundle_idx, *bundle_spec, folds@, k),
        ),
{
    let n: usize = folds.len();
    let full: usize = num_polys * bundle_spec.length;
    let mut total: usize = 0;
    let mut shapes: Vec<RoundShape> = Vec::new();
    assert(folds@.take(0) =~= Seq::<usize>::empty());
    for k in 0..n
        invariant
            n == folds@.len(),
            full == num_polys * bundle_spec.length,
            fold_total(folds@) <= 63,
            pow2(fold_total(folds@)) <= usize::MAX,
            total == fold_total(folds@.take(k as int)),
            shapes@.len() == k,
            forall|j: int|
                0 <= j < k ==> #[trigger] shapes@[j] == shape_before(
                    num_polys,
                    rate,
                    first_fold,
                    bundle_idx,
                    *bundle_spec,
                    folds@,
                    j,
                ),
    {
        proof {
            lemma_fold_prefix(folds@, k as int);
            lemma_fold_prefix(folds@, (k + 1) as int);
            assert(folds@.take(k + 1).drop_last() =~= folds@.take(k as int));
            assert(folds@.take(k + 1).last() == folds@[k as int]);
            if k + 1 < n {
                lemma_fold_prefix(folds@, (k + 2) as int);
                assert(folds@.take(k + 2).drop_last() =~= folds@.take(k + 1));
                assert(folds@.take(k + 2).last() == folds@[k + 1]);
            }
            lemma_pow2_pos(total as nat);
            if total < fold_total(folds@) {
                lemma_pow2_strictly_increases(total as nat, fold_total(folds@));
            }
        }
        let target_folding_factor: u32 = if k + 1 < n {
            folds[k + 1] as u32
        } else {
            first_fold
        };
        shapes.push(
            RoundShape {
                round_slot: RoundSlot::PreMerge(bundle_idx),
                source_vector_size: full / power_of_two(total),
                source_log_inv_rate: rate,
                source_folding_factor: folds[k] as u32,
                target_folding_factor,
                target_log_inv_rate: rate,
            },
        );
        total = total + folds[k];
    }
    shapes
}

/// Does a bundle's last code before the merge have the shape of the shared rounds' first?
fn assert_pre_merge_aligns(bundle_idx: usize, last_target: &irs_commit::Config, inner_first_source: &irs_commit::Config) -> (r:
    Result<(), DeriveError>)
    ensures
        if same_shape(last_target, inner_first_source) {
            r is Ok
        } else {
            r == Err::<(), DeriveError>(
                unsupported(BatchedFault::PreMergeMisaligned { bundle: bundle_idx }),
            )
        },
{
    if irs_shape_matches(last_target, inner_first_source) {
        Ok(())
    } else {
        Err(
            DeriveError::BatchedUnsupported {
                reason: BatchedFault::PreMergeMisaligned { bundle: bundle_idx },
            },
        )
    }
}

/// Build a bundle's rounds before the merge, and check that they end at the shared
/// rounds' first code.
pub fn build_pre_merge_bundle(
    ctx: &PreMergeCtx,
    bundle_idx: usize,
    bundle_spec: &BundleSpec,
    folds: &Vec<usize>,
    quotes: &Vec<RoundQuote>,
) -> (r: Result<BundleConfig, DeriveError>)
    requires
        folds@.len() == quotes@.len(),
        ctx.canonical_num_polys * bundle_spec.length <= usize::MAX,
        fold_total(folds@) <= 63,
        pow2(fold_total(folds@)) <= usize::MAX,
        forall|k: int|
            0 <= k < folds@.len() ==> quote_fits(
                ctx.spec,
                pre_shape(*ctx, bundle_idx, *bundle_spec, folds@, k),
                #[trigger] quotes@[k],
            ),
    ensures
        match place_fault(*ctx, bundle_idx, *bundle_spec, folds@, quotes@) {
            Some(e) => r == Err::<BundleConfig, DeriveError>(e),
            None => r is Ok && bundle_placed(
                *ctx,
                bundle_idx,
                *bundle_spec,
                folds@,
                quotes@,
                r->Ok_0,
            ),
        },
{
    let ghost shapes = pre_shapes(*ctx, bundle_idx, *bundle_spec, folds@);
    let n: usize = folds.len();
    let planned: Vec<RoundShape> = pre_merge_shapes(
        ctx.canonical_num_polys,
        ctx.starting_log_inv_rate,
        ctx.shared_first_fold,
        bundle_idx,
        bundle_spec,
        folds,
    );
    let mut rounds: Vec<RoundConfig> = Vec::new();
    assert(planned@ =~= shapes);
    for k in 0..n
        invariant
            n == folds@.len(),
            n == quotes@.len(),
            planned@ == shapes,
            shapes == pre_shapes(*ctx, bundle_idx, *bundle_spec, folds@),
            forall|j: int|
                0 <= j < folds@.len() ==> quote_fits(
                    ctx.spec,
                    pre_shape(*ctx, bundle_idx, *bundle_spec, folds@, j),
                    #[trigger] quotes@[j],
                ),
            first_round_fault(ctx.spec, shapes, quotes@, k as nat) is None,
            rounds@.len() == k,
            forall|j: int|
                0 <= j < k ==> round_built(
                    ctx.spec,
                    pre_shape(*ctx, bundle_idx, *bundle_spec, folds@, j),
                    quotes@[j],
                    #[trigger] rounds@[j],
                ),
    {
        proof {
            assert(shapes[k as int] == pre_shape(*ctx, bundle_idx, *bundle_spec, folds@, k as int));
            assert(quote_fits(
                ctx.spec,
                pre_shape(*ctx, bundle_idx, *bundle_spec, folds@, k as int),
                quotes@[k as int],
            ));
        }
        match build_round_config(&ctx.spec, &planned[k], &quotes[k]) {
            Ok(round) => {
                rounds.push(round);
            },
            Err(e) => {
                proof {
                    lemma_round_fault_stays(ctx.spec, shapes, quotes@, (k + 1) as nat, n as nat);
                }
                return Err(e);
            },
        }
    }
    if n > 0 {
        assert(rounds@[n - 1].cs().target == quotes@[n - 1].target);
        match assert_pre_merge_aligns(
            bundle_idx,
            &rounds[n - 1].code_switch.config.target,
            &ctx.inner_first_source,
        ) {
            Ok(()) => {},
            Err(e) => {
                return Err(e);
            },
        }
    }
    let irs_config: irs_commit::Config = if n == 0 {
        ctx.inner_first_source
    } else {
        assert(rounds@[0].cs().source == quotes@[0].source);
        rounds[0].code_switch.config.source
    };
    Ok(
        BundleConfig {
            spec: *bundle_spec,
            pad_to: None,
            join_round: Some(0),
            irs_config,
            pre_merge_rounds: rounds,
        },
    )
}

proof fn lemma_round_fault_stays(
    spec: SecuritySpec,
    shapes: Seq<RoundShape>,
    quotes: Seq<RoundQuote>,
    j: nat,
    k: nat,
)
    requires
        j <= k,
        first_round_fault(spec, shapes, quotes, j) is Some,
    ensures
        first_round_fault(spec, shapes, quotes, k) == first_round_fault(spec, shapes, quotes, j),
    decreases k,
{
    if j < k {
        lemma_round_fault_stays(spec, shapes, quotes, j, (k - 1) as nat);
    }
}

} // verus!
