//! How bundles of different sizes come to one merge point.

use crate::arith::{ceil_log2, ceil_log2_spec, is_pow2, is_power_of_two};
use crate::params::batched::fault::BatchedFault;
use crate::params::batched::spec::unsupported;
use crate::params::error::DeriveError;
use vstd::prelude::*;

verus! {

/// The binary logarithm of a bundle's length.
pub open spec fn log_length(lengths: Seq<usize>, i: int) -> nat {
    ceil_log2_spec(lengths[i] as nat)
}

/// The greatest logarithm among the first `k` lengths.
pub open spec fn max_log(lengths: Seq<usize>, k: nat) -> nat
    decreases k,
{
    if k == 0 {
        0
    } else {
        let before = max_log(lengths, (k - 1) as nat);
        if before >= log_length(lengths, k - 1) {
            before
        } else {
            log_length(lengths, k - 1)
        }
    }
}

/// Have all lengths one size?
pub open spec fn equal_sizes(lengths: Seq<usize>) -> bool {
    forall|i: int|
        0 <= i < lengths.len() ==> #[trigger] log_length(lengths, i) == max_log(lengths, lengths.len())
}

/// The logarithm of the merge point: the greatest one, folded once as far as is allowed.
pub open spec fn merge_log(lengths: Seq<usize>, max_fold: usize) -> nat {
    let m = max_log(lengths, lengths.len());
    if m >= max_fold {
        (m - max_fold) as nat
    } else {
        0
    }
}

/// The first of the first `k` lengths that is not a power of two.
pub open spec fn first_length_fault(lengths: Seq<usize>, k: nat) -> Option<BatchedFault>
    decreases k,
{
    if k == 0 {
        None
    } else {
        match first_length_fault(lengths, (k - 1) as nat) {
            Some(f) => Some(f),
            None => if !is_pow2(lengths[k - 1] as nat) {
                Some(
                    BatchedFault::PlanLengthNotPowerOfTwo {
                        bundle: (k - 1) as usize,
                        length: lengths[k - 1],
                    },
                )
            } else {
                None
            },
        }
    }
}

/// The first of the first `k` bundles that is too small for the merge point.
pub open spec fn first_small(lengths: Seq<usize>, max_fold: usize, k: nat) -> Option<BatchedFault>
    decreases k,
{
    if k == 0 {
        None
    } else {
        match first_small(lengths, max_fold, (k - 1) as nat) {
            Some(f) => Some(f),
            None => if log_length(lengths, k - 1) < merge_log(lengths, max_fold) {
                Some(
                    BatchedFault::BelowMergePoint {
                        bundle: (k - 1) as usize,
                        log_size: log_length(lengths, k - 1) as usize,
                        log_merge: merge_log(lengths, max_fold) as usize,
                        max_fold,
                    },
                )
            } else {
                None
            },
        }
    }
}

/// Why there is no plan.
pub open spec fn plan_fault(lengths: Seq<usize>, max_fold: usize) -> Option<BatchedFault> {
    if lengths.len() == 0 {
        Some(BatchedFault::PlanWithoutBundles)
    } else if max_fold == 0 {
        Some(BatchedFault::PlanWithoutFold)
    } else {
        match first_length_fault(lengths, lengths.len()) {
            Some(f) => Some(f),
            None => if equal_sizes(lengths) {
                None
            } else {
                first_small(lengths, max_fold, lengths.len())
            },
        }
    }
}

/// The folds of a bundle before the merge: none if all bundles have one size, otherwise
/// one fold to the merge point, if it is not there already.
pub open spec fn planned_folds(lengths: Seq<usize>, max_fold: usize, i: int) -> Seq<usize> {
    let gap = log_length(lengths, i) - merge_log(lengths, max_fold);
    if equal_sizes(lengths) || gap == 0 {
        Seq::empty()
    } else {
        seq![gap as usize]
    }
}

proof fn lemma_length_fault(lengths: Seq<usize>, j: nat, k: nat)
    requires
        j <= k,
        first_length_fault(lengths, j) is Some,
    ensures
        first_length_fault(lengths, k) == first_length_fault(lengths, j),
    decreases k,
{
    if j < k {
        lemma_length_fault(lengths, j, (k - 1) as nat);
    }
}

proof fn lemma_small(lengths: Seq<usize>, max_fold: usize, j: nat, k: nat)
    requires
        j <= k,
        first_small(lengths, max_fold, j) is Some,
    ensures
        first_small(lengths, max_fold, k) == first_small(lengths, max_fold, j),
    decreases k,
{
    if j < k {
        lemma_small(lengths, max_fold, j, (k - 1) as nat);
    }
}

/// The greatest logarithm bounds all, and is one of them.
proof fn lemma_max_log(lengths: Seq<usize>, k: nat)
    requires
        k <= lengths.len(),
    ensures
        forall|i: int| 0 <= i < k ==> #[trigger] log_length(lengths, i) <= max_log(lengths, k),
        max_log(lengths, k) <= 64,
    decreases k,
{
    if k > 0 {
        lemma_max_log(lengths, (k - 1) as nat);
        crate::arith::lemma_exponent_small(lengths[k - 1]);
    }
}

/// The folds of every bundle before the merge: every bundle reaches the merge point by
/// at most one fold.
pub fn auto_pre_merge_plan(bundle_lengths: &[usize], max_fold: usize) -> (r: Result<
    Vec<Vec<usize>>,
    DeriveError,
>)
    ensures
        match plan_fault(bundle_lengths@, max_fold) {
            Some(f) => r == Err::<Vec<Vec<usize>>, DeriveError>(unsupported(f)),
            None => {
                &&& r is Ok
                &&& r->Ok_0@.len() == bundle_lengths@.len()
                &&& forall|i: int|
                    0 <= i < r->Ok_0@.len() ==> (#[trigger] r->Ok_0@[i])@ == planned_folds(
                        bundle_lengths@,
                        max_fold,
                        i,
                    )
            },
        },
{
    let ghost ls = bundle_lengths@;
    let n: usize = bundle_lengths.len();
    if n == 0 {
        return Err(DeriveError::BatchedUnsupported { reason: BatchedFault::PlanWithoutBundles });
    }
    if max_fold == 0 {
        return Err(DeriveError::BatchedUnsupported { reason: BatchedFault::PlanWithoutFold });
    }
    let mut log_sizes: Vec<usize> = Vec::new();
    let mut greatest: usize = 0;
    for i in 0..n
        invariant
            n == ls.len(),
            ls == bundle_lengths@,
            max_fold > 0,
            first_length_fault(ls, i as nat) is None,
            log_sizes@.len() == i,
            forall|j: int| 0 <= j < i ==> #[trigger] log_sizes@[j] == log_length(ls, j),
            greatest == max_log(ls, i as nat),
    {
        let l: usize = bundle_lengths[i];
        if !is_power_of_two(l) {
            proof {
                lemma_length_fault(ls, (i + 1) as nat, n as nat);
            }
            return Err(
                DeriveError::BatchedUnsupported {
                    reason: BatchedFault::PlanLengthNotPowerOfTwo { bundle: i, length: l },
                },
            );
        }
        let log: usize = ceil_log2(l) as usize;
        log_sizes.push(log);
        if greatest < log {
            greatest = log;
        }
    }
    let mut equal: bool = true;
    for i in 0..n
        invariant
            n == ls.len(),
            log_sizes@.len() == n,
            greatest == max_log(ls, n as nat),
            forall|j: int| 0 <= j < n ==> #[trigger] log_sizes@[j] == log_length(ls, j),
            equal == forall|j: int| 0 <= j < i ==> #[trigger] log_length(ls, j) == greatest,
    {
        if log_sizes[i] != greatest {
            equal = false;
            assert(log_length(ls, i as int) != greatest);
        }
    }
    assert(equal == equal_sizes(ls));
    let log_merge: usize = greatest.saturating_sub(max_fold);
    let mut per_bundle: Vec<Vec<usize>> = Vec::new();
    for i in 0..n
        invariant
            n == ls.len(),
            n > 0,
            max_fold > 0,
            ls == bundle_lengths@,
            first_length_fault(ls, n as nat) is None,
            log_sizes@.len() == n,
            forall|j: int| 0 <= j < n ==> #[trigger] log_sizes@[j] == log_length(ls, j),
            equal == equal_sizes(ls),
            log_merge == merge_log(ls, max_fold),
            !equal ==> first_small(ls, max_fold, i as nat) is None,
            per_bundle@.len() == i,
            forall|j: int|
                0 <= j < i ==> (#[trigger] per_bundle@[j])@ == planned_folds(ls, max_fold, j),
    {
        let mut folds: Vec<usize> = Vec::new();
        if !equal {
            let log_size: usize = log_sizes[i];
            if log_size < log_merge {
                proof {
                    lemma_small(ls, max_fold, (i + 1) as nat, n as nat);
                }
                return Err(
                    DeriveError::BatchedUnsupported {
                        reason: BatchedFault::BelowMergePoint {
                            bundle: i,
                            log_size,
                            log_merge,
                            max_fold,
                        },
                    },
                );
            }
            let fold: usize = log_size - log_merge;
            if fold != 0 {
                folds.push(fold);
            }
        }
        assert(folds@ =~= planned_folds(ls, max_fold, i as int));
        per_bundle.push(folds);
    }
    Ok(per_bundle)
}

/// The folds of a bundle together.
pub open spec fn fold_total(folds: Seq<usize>) -> nat
    decreases folds.len(),
{
    if folds.len() == 0 {
        0
    } else {
        fold_total(folds.drop_last()) + folds.last() as nat
    }
}

/// A plan brings all bundles to one size, each by at most one fold, and no fold is
/// greater than allowed.
pub proof fn law_plan_converges(lengths: Seq<usize>, max_fold: usize, i: int, j: int)
    requires
        plan_fault(lengths, max_fold) is None,
        0 <= i < lengths.len(),
        0 <= j < lengths.len(),
    ensures
        planned_folds(lengths, max_fold, i).len() <= 1,
        fold_total(planned_folds(lengths, max_fold, i)) <= max_fold,
        fold_total(planned_folds(lengths, max_fold, i)) <= log_length(lengths, i),
        log_length(lengths, i) - fold_total(planned_folds(lengths, max_fold, i)) == log_length(
            lengths,
            j,
        ) - fold_total(planned_folds(lengths, max_fold, j)),
{
    lemma_folds_total(lengths, max_fold, i);
    lemma_folds_total(lengths, max_fold, j);
}

proof fn lemma_folds_total(lengths: Seq<usize>, max_fold: usize, i: int)
    requires
        plan_fault(lengths, max_fold) is None,
        0 <= i < lengths.len(),
    ensures
        ({
            let t = fold_total(planned_folds(lengths, max_fold, i));
            &&& t <= max_fold
            &&& t <= log_length(lengths, i)
            &&& equal_sizes(lengths) ==> t == 0 && log_length(lengths, i) == max_log(
                lengths,
                lengths.len(),
            )
            &&& !equal_sizes(lengths) ==> log_length(lengths, i) - t == merge_log(lengths, max_fold)
        }),
{
    lemma_max_log(lengths, lengths.len());
    reveal_with_fuel(fold_total, 2);
    if !equal_sizes(lengths) {
        lemma_not_small(lengths, max_fold, lengths.len(), i);
        let gap = log_length(lengths, i) - merge_log(lengths, max_fold);
        assert(gap as usize == gap);
        if gap > 0 {
            assert(seq![gap as usize].drop_last() =~= Seq::<usize>::empty());
        }
    }
}

proof fn lemma_not_small(lengths: Seq<usize>, max_fold: usize, k: nat, i: int)
    requires
        first_small(lengths, max_fold, k) is None,
        0 <= i < k,
    ensures
        log_length(lengths, i) >= merge_log(lengths, max_fold),
    decreases k,
{
    if i < k - 1 {
        lemma_not_small(lengths, max_fold, (k - 1) as nat, i);
    }
}

} // verus!
