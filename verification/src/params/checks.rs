//! Checks that chosen codes are the codes of a plan.

use crate::arith::{ceil_log2, checked_power_of_two, is_power_of_two, next_pow2};
use crate::code_switch::{self, CodeSwitchMode};
use crate::field::MODULUS;
use crate::irs_commit;
use crate::mask_proximity;
use crate::params::batched::place::{ctx_of, place_inputs_fit};
use crate::params::batched::placement::{
    folds_of, lemma_fold_prefix, pre_merge_shapes, pre_shape, shape_before, MergePlan, PreMergeCtx,
};
use crate::params::batched::pre_merge::fold_total;
use crate::params::batched::spec::{BatchedTuningSpec, BundleSpec};
use crate::params::branch::Branch;
use crate::params::build_round::{checked_l_zk, quote_fits, quoted_l_zk, MaskQuote, RoundQuote};
use crate::params::code_switch::mode_for;
use crate::params::config::ProtocolConfig;
use crate::params::derive::{layout_fault, quotes_fit, shapes_of, PlanQuotes};
use crate::params::layout::{round_layout, RoundLayout, RoundShape};
use crate::params::spec::{Mode, SecuritySpec, TuningSpec};
use crate::proof_of_work;
use crate::sumcheck::max_table_len;
use vstd::arithmetic::power2::pow2;
use vstd::prelude::*;

verus! {

/// Is a code well formed?
pub fn code_is_wf(code: &irs_commit::Config) -> (r: bool)
    ensures
        r == code.wf(),
{
    if code.interleaving_depth == 0 || code.codeword_length == 0 {
        return false;
    }
    let cols: usize = match code.interleaving_depth.checked_mul(code.num_vectors) {
        Some(c) => c,
        None => {
            return false;
        },
    };
    let mask: usize = code.mode.mask_length();
    let message: usize = code.vector_size / code.interleaving_depth;
    code.vector_size % code.interleaving_depth == 0 && (MODULUS - 1) % (code.codeword_length as u64)
        == 0 && code.codeword_length.checked_mul(cols).is_some() && checked_power_of_two(
        ceil_log2(code.codeword_length) as usize,
    ).is_some() && message.checked_add(mask).is_some() && mask.checked_mul(cols).is_some()
}

/// Do the in-domain answers of a code fit a machine size?
fn answers_fit(code: &irs_commit::Config) -> (r: bool)
    requires
        code.wf(),
    ensures
        r == (code.deduplicate_in_domain || code.in_domain_samples * code.cols() <= usize::MAX),
{
    code.deduplicate_in_domain || code.in_domain_samples.checked_mul(
        code.interleaving_depth * code.num_vectors,
    ).is_some()
}

/// Is a code-switch well formed?
pub fn switch_is_wf(cfg: &code_switch::Config) -> (r: bool)
    ensures
        r == cfg.wf(),
{
    if !code_is_wf(&cfg.source) || !code_is_wf(&cfg.target) {
        return false;
    }
    let message: usize = cfg.source.vector_size / cfg.source.interleaving_depth;
    let source_mask: usize = cfg.source.mode.mask_length();
    let (masks_fit, mask): (bool, usize) = match cfg.mode {
        CodeSwitchMode::Standard => (source_mask == 0, 0),
        CodeSwitchMode::ZeroKnowledge { message_mask_length } => {
            let fresh: bool = message_mask_length >= source_mask && message_mask_length - source_mask
                >= cfg.out_domain_samples;
            let target: bool = match cfg.target.in_domain_samples.checked_add(
                cfg.out_domain_samples,
            ) {
                Some(n) => cfg.target.mode.mask_length() >= n,
                None => false,
            };
            (fresh && target, message_mask_length)
        },
    };
    let ood: usize = match cfg.out_domain_samples.checked_add(1) {
        Some(n) => n,
        None => {
            return false;
        },
    };
    masks_fit && cfg.source.num_vectors == 1 && cfg.target.num_vectors == 1 && cfg.out_domain_samples
        > 0 && cfg.target.vector_size == message && is_power_of_two(cfg.target.interleaving_depth)
        && is_power_of_two(cfg.source.interleaving_depth) && message.checked_add(mask).is_some()
        && ood.checked_add(cfg.source.in_domain_samples).is_some() && ood.checked_add(
        cfg.source.codeword_length,
    ).is_some() && answers_fit(&cfg.source)
}

/// Is a check of masks well formed?
pub fn masks_are_wf(cfg: &mask_proximity::Config) -> (r: bool)
    ensures
        r == cfg.wf(),
{
    let code: &irs_commit::Config = &cfg.c_zk_commit;
    if !code_is_wf(code) {
        return false;
    }
    let twice: usize = match cfg.num_masks.checked_mul(2) {
        Some(n) => n,
        None => {
            return false;
        },
    };
    code.num_vectors == twice && code.interleaving_depth == 1 && cfg.num_masks.checked_mul(
        code.vector_size,
    ).is_some() && cfg.num_masks.checked_mul(code.mode.mask_length()).is_some() && answers_fit(code)
}

/// Are a round's mask codes those of its shape?
fn mask_quote_is_fit(shape: &RoundShape, l_zk: usize, masks: &MaskQuote) -> (r: bool)
    ensures
        r == ({
            let fold = shape.source_folding_factor as nat;
            &&& fold > 0
            &&& fold * 3 <= usize::MAX
            &&& forall|pow: proof_of_work::Config|
                (#[trigger] (mask_proximity::Config {
                    c_zk_commit: masks.sumcheck_c_zk,
                    num_masks: shape.source_folding_factor as usize,
                    pow,
                }).wf())
            &&& masks.sumcheck_c_zk.vector_size >= 3
            &&& forall|pow: proof_of_work::Config|
                (#[trigger] (mask_proximity::Config {
                    c_zk_commit: masks.cs_c_zk,
                    num_masks: 1,
                    pow,
                }).wf())
            &&& masks.cs_c_zk.vector_size == l_zk
        }),
{
    let fold: usize = shape.source_folding_factor as usize;
    let first = mask_proximity::Config {
        c_zk_commit: masks.sumcheck_c_zk,
        num_masks: fold,
        pow: proof_of_work::Config::none(),
    };
    let second = mask_proximity::Config {
        c_zk_commit: masks.cs_c_zk,
        num_masks: 1,
        pow: proof_of_work::Config::none(),
    };
    let first_wf: bool = masks_are_wf(&first);
    let second_wf: bool = masks_are_wf(&second);
    proof {
        assert forall|pow: proof_of_work::Config|
            (#[trigger] (mask_proximity::Config {
                c_zk_commit: masks.sumcheck_c_zk,
                num_masks: fold,
                pow,
            }).wf()) == first_wf by {}
        assert forall|pow: proof_of_work::Config|
            (#[trigger] (mask_proximity::Config {
                c_zk_commit: masks.cs_c_zk,
                num_masks: 1,
                pow,
            }).wf()) == second_wf by {}
        if !first_wf {
            assert(!(mask_proximity::Config {
                c_zk_commit: masks.sumcheck_c_zk,
                num_masks: fold,
                pow: proof_of_work::Config::spec_none(),
            }).wf());
        }
        if !second_wf {
            assert(!(mask_proximity::Config {
                c_zk_commit: masks.cs_c_zk,
                num_masks: 1,
                pow: proof_of_work::Config::spec_none(),
            }).wf());
        }
    }
    fold > 0 && fold.checked_mul(3).is_some() && first_wf && masks.sumcheck_c_zk.vector_size >= 3
        && second_wf && masks.cs_c_zk.vector_size == l_zk
}

/// Is a round's code-switch, with the given mask length, well formed whatever its work?
fn switch_quote_is_fit(quote: &RoundQuote, l_zk: Branch<usize>) -> (r: bool)
    requires
        l_zk == quoted_l_zk(*quote),
    ensures
        r == forall|pow: proof_of_work::Config|
            (#[trigger] (code_switch::Config {
                source: quote.source,
                target: quote.target,
                mode: mode_for(l_zk),
                out_domain_samples: quote.t_ood,
                pow,
            }).wf()),
{
    let mode: CodeSwitchMode = match l_zk {
        Branch::Standard => CodeSwitchMode::Standard,
        Branch::ZeroKnowledge(l) => CodeSwitchMode::ZeroKnowledge { message_mask_length: l },
    };
    let cfg = code_switch::Config {
        source: quote.source,
        target: quote.target,
        mode,
        out_domain_samples: quote.t_ood,
        pow: proof_of_work::Config::none(),
    };
    let r: bool = switch_is_wf(&cfg);
    proof {
        assert forall|pow: proof_of_work::Config|
            (#[trigger] (code_switch::Config {
                source: quote.source,
                target: quote.target,
                mode: mode_for(l_zk),
                out_domain_samples: quote.t_ood,
                pow,
            }).wf()) == r by {}
        if !r {
            assert(!(code_switch::Config {
                source: quote.source,
                target: quote.target,
                mode: mode_for(l_zk),
                out_domain_samples: quote.t_ood,
                pow: proof_of_work::Config::spec_none(),
            }).wf());
        }
    }
    r
}

/// Are the codes those of a round of the given shape?
pub fn quote_is_fit(spec: &SecuritySpec, shape: &RoundShape, quote: &RoundQuote) -> (r: bool)
    ensures
        r == quote_fits(*spec, *shape, *quote),
{
    let size: usize = shape.source_vector_size;
    if !is_power_of_two(size) || size == 0 || size > usize::MAX / 2 + 1
        || shape.source_folding_factor > ceil_log2(size) || quote.source.vector_size != size {
        return false;
    }
    let zk: bool = match spec.mode {
        Mode::Standard => false,
        Mode::ZeroKnowledge => true,
    };
    if quote.masks.is_some() != zk {
        return false;
    }
    match checked_power_of_two(shape.source_folding_factor as usize) {
        Some(depth) => {
            if quote.source.interleaving_depth != depth {
                return false;
            }
        },
        None => {
            return false;
        },
    }
    match &quote.masks {
        None => switch_quote_is_fit(quote, Branch::Standard),
        Some(masks) => match checked_l_zk(&quote.source, quote.t_ood) {
            Some(l_zk) => switch_quote_is_fit(quote, Branch::ZeroKnowledge(l_zk))
                && mask_quote_is_fit(shape, l_zk, masks),
            None => false,
        },
    }
}

/// Can a plan be derived from these codes: is there a fitting one for every round of the
/// layout, if there is a layout, and for the base case?
pub fn quotes_are_fit(spec: &SecuritySpec, tuning: &TuningSpec, quotes: &PlanQuotes) -> (r: bool)
    ensures
        r == (layout_fault(*tuning) is None ==> quotes_fit(*spec, *tuning, *quotes)),
{
    let layout: RoundLayout = match round_layout(tuning) {
        Ok(l) => l,
        Err(e) => {
            return true;
        },
    };
    let ghost shapes = shapes_of(*tuning);
    let n: usize = layout.shapes.len();
    if quotes.rounds.len() != n {
        return false;
    }
    for i in 0..n
        invariant
            n == layout.shapes@.len(),
            quotes.rounds@.len() == n,
            layout.shapes@ == shapes,
            layout_fault(*tuning) is None,
            shapes == shapes_of(*tuning),
            forall|j: int| 0 <= j < i ==> quote_fits(*spec, #[trigger] shapes[j], quotes.rounds@[j]),
    {
        if !quote_is_fit(spec, &layout.shapes[i], &quotes.rounds[i]) {
            assert(!quote_fits(*spec, shapes[i as int], quotes.rounds@[i as int]));
            return false;
        }
    }
    let commit: &irs_commit::Config = &quotes.commit;
    code_is_wf(commit) && commit.interleaving_depth == 1 && commit.num_vectors == 1
        && commit.vector_size > 0 && commit.vector_size <= usize::MAX / 2 + 1
}

/// The sum of folds, if it is at most 63.
fn small_total(folds: &Vec<usize>) -> (r: Option<usize>)
    ensures
        r matches Some(t) ==> t == fold_total(folds@) && t <= 63,
        r is None ==> fold_total(folds@) > 63,
{
    let mut total: usize = 0;
    assert(folds@.take(0) =~= Seq::<usize>::empty());
    for i in 0..folds.len()
        invariant
            total == fold_total(folds@.take(i as int)),
            total <= 63,
    {
        proof {
            assert(folds@.take(i + 1).drop_last() =~= folds@.take(i as int));
            assert(folds@.take(i + 1).last() == folds@[i as int]);
            lemma_fold_prefix(folds@, (i + 1) as int);
        }
        if folds[i] > 63 - total {
            return None;
        }
        total = total + folds[i];
    }
    assert(folds@.take(folds@.len() as int) =~= folds@);
    Some(total)
}

/// Does a bundle fit in memory, and do its folds fit in a word?
pub open spec fn bundle_fits(num_polys: usize, spec: BundleSpec, folds: Seq<usize>) -> bool {
    &&& num_polys * spec.length <= usize::MAX
    &&& fold_total(folds) <= 63
    &&& pow2(fold_total(folds)) <= usize::MAX
}

/// The shapes of a bundle's rounds before the merge, if the bundle fits in memory.
pub fn checked_shapes(
    num_polys: usize,
    rate: u32,
    first_fold: u32,
    bundle_idx: usize,
    bundle_spec: &BundleSpec,
    folds: &Vec<usize>,
) -> (r: Option<Vec<RoundShape>>)
    ensures
        r is Some <==> bundle_fits(num_polys, *bundle_spec, folds@),
        r matches Some(shapes) ==> shapes@ == Seq::new(
            folds@.len(),
            |k: int|
                shape_before(num_polys, rate, first_fold, bundle_idx, *bundle_spec, folds@, k),
        ),
{
    if num_polys.checked_mul(bundle_spec.length).is_none() {
        return None;
    }
    let total: usize = match small_total(folds) {
        Some(t) => t,
        None => {
            return None;
        },
    };
    if checked_power_of_two(total).is_none() {
        return None;
    }
    Some(pre_merge_shapes(num_polys, rate, first_fold, bundle_idx, bundle_spec, folds))
}

/// Can a bundle be placed with these codes?
fn bundle_is_fit(
    ctx: &PreMergeCtx,
    b: usize,
    spec: &BundleSpec,
    folds: &Vec<usize>,
    quotes: &Vec<RoundQuote>,
) -> (r: bool)
    ensures
        r == ({
            &&& quotes@.len() == folds@.len()
            &&& bundle_fits(ctx.canonical_num_polys, *spec, folds@)
            &&& forall|k: int|
                0 <= k < folds@.len() ==> quote_fits(
                    ctx.spec,
                    pre_shape(*ctx, b, *spec, folds@, k),
                    #[trigger] quotes@[k],
                )
        }),
{
    if quotes.len() != folds.len() {
        return false;
    }
    let shapes: Vec<RoundShape> = match checked_shapes(
        ctx.canonical_num_polys,
        ctx.starting_log_inv_rate,
        ctx.shared_first_fold,
        b,
        spec,
        folds,
    ) {
        Some(shapes) => shapes,
        None => {
            return false;
        },
    };
    for k in 0..folds.len()
        invariant
            quotes@.len() == folds@.len(),
            bundle_fits(ctx.canonical_num_polys, *spec, folds@),
            shapes@.len() == folds@.len(),
            forall|j: int|
                0 <= j < folds@.len() ==> #[trigger] shapes@[j] == pre_shape(
                    *ctx,
                    b,
                    *spec,
                    folds@,
                    j,
                ),
            forall|j: int|
                0 <= j < k ==> quote_fits(
                    ctx.spec,
                    pre_shape(*ctx, b, *spec, folds@, j),
                    #[trigger] quotes@[j],
                ),
    {
        assert(shapes@[k as int] == pre_shape(*ctx, b, *spec, folds@, k as int));
        if !quote_is_fit(&ctx.spec, &shapes[k], &quotes[k]) {
            assert(!quote_fits(ctx.spec, pre_shape(*ctx, b, *spec, folds@, k as int), quotes@[k as int]));
            return false;
        }
    }
    true
}

/// Can bundles be placed around these shared rounds with these codes?
pub fn placement_is_fit(
    spec: &SecuritySpec,
    tuning: &BatchedTuningSpec,
    plan: &MergePlan,
    quotes: &Vec<Vec<RoundQuote>>,
    inner: &ProtocolConfig,
) -> (r: bool)
    ensures
        r == (inner.rounds@.len() > 0 ==> place_inputs_fit(
            ctx_of(*spec, *tuning, plan.num_polys, *inner),
            tuning.bundles@,
            folds_of(plan.folds@),
            quotes@,
        )),
{
    if inner.rounds.len() == 0 {
        return true;
    }
    let ctx = PreMergeCtx {
        spec: *spec,
        canonical_num_polys: plan.num_polys,
        starting_log_inv_rate: tuning.starting_log_inv_rate,
        shared_first_fold: tuning.folding_factor.at_round(0) as u32,
        inner_first_source: inner.rounds[0].code_switch.config.source,
    };
    let ghost bs = tuning.bundles@;
    let ghost fs = folds_of(plan.folds@);
    assert(ctx == ctx_of(*spec, *tuning, plan.num_polys, *inner));
    let n: usize = tuning.bundles.len();
    if n == 0 || plan.folds.len() != n || quotes.len() != n {
        return false;
    }
    for b in 0..n
        invariant
            n == bs.len(),
            inner.rounds@.len() > 0,
            ctx == ctx_of(*spec, *tuning, plan.num_polys, *inner),
            bs == tuning.bundles@,
            fs == folds_of(plan.folds@),
            fs.len() == n,
            plan.folds@.len() == n,
            quotes@.len() == n,
            forall|c: int|
                0 <= c < b ==> {
                    &&& quotes@[c]@.len() == (#[trigger] fs[c]).len()
                    &&& ctx.canonical_num_polys * bs[c].length <= usize::MAX
                    &&& fold_total(fs[c]) <= 63
                    &&& pow2(fold_total(fs[c])) <= usize::MAX
                },
            forall|c: int, k: int|
                0 <= c < b && 0 <= k < fs[c].len() ==> quote_fits(
                    ctx.spec,
                    pre_shape(ctx, c as usize, bs[c], fs[c], k),
                    #[trigger] quotes@[c]@[k],
                ),
    {
        assert(fs[b as int] == plan.folds@[b as int]@);
        if !bundle_is_fit(&ctx, b, &tuning.bundles[b], &plan.folds[b], &quotes[b]) {
            proof {
                if place_inputs_fit(ctx, bs, fs, quotes@) {
                    assert forall|k: int| 0 <= k < fs[b as int].len() implies quote_fits(
                        ctx.spec,
                        pre_shape(ctx, b, bs[b as int], fs[b as int], k),
                        #[trigger] quotes@[b as int]@[k],
                    ) by {}
                    assert(false);
                }
            }
            return false;
        }
        assert forall|c: int, k: int| 0 <= c < b + 1 && 0 <= k < fs[c].len() implies quote_fits(
            ctx.spec,
            pre_shape(ctx, c as usize, bs[c], fs[c], k),
            #[trigger] quotes@[c]@[k],
        ) by {
            if c == b {
                assert(quote_fits(
                    ctx.spec,
                    pre_shape(ctx, b, bs[b as int], plan.folds@[b as int]@, k),
                    quotes@[b as int]@[k],
                ));
            }
        }
    }
    let size: usize = ctx.inner_first_source.vector_size;
    let blocks: usize = match checked_power_of_two(ceil_log2(n) as usize) {
        Some(x) => x,
        None => {
            proof {
                assert(next_pow2(bs.len()) * size <= max_table_len() ==> size < 1) by (nonlinear_arith)
                    requires
                        next_pow2(bs.len()) > usize::MAX,
                        max_table_len() <= usize::MAX,
                        size >= 0,
                ;
            }
            return false;
        },
    };
    match blocks.checked_mul(size) {
        Some(cells) => size >= 1 && cells <= usize::MAX / 2 + 1,
        None => false,
    }
}

} // verus!
