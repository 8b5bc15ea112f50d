//! Choices that derivation makes between rounds.

use crate::bits::Bits;
use crate::irs_commit;
use crate::params::build_round::MaskQuote;
use crate::params::layout::RoundShape;
use vstd::prelude::*;

verus! {

/// The source and target rates of all rounds: every round starts from the rate that the
/// round before it switches to, the first one from `start`.
pub fn chained_rates(start: u32, targets: &[u32]) -> (r: Vec<(u32, u32)>)
    ensures
        r@.len() == targets@.len(),
        forall|i: int|
            0 <= i < r@.len() ==> #[trigger] r@[i] == (
                if i == 0 {
                    start
                } else {
                    targets@[i - 1]
                },
                targets@[i],
            ),
{
    let mut rates: Vec<(u32, u32)> = Vec::new();
    let mut rate: u32 = start;
    for i in 0..targets.len()
        invariant
            rates@.len() == i,
            rate == (if i == 0 {
                start
            } else {
                targets@[i - 1]
            }),
            forall|j: int|
                0 <= j < i ==> #[trigger] rates@[j] == (
                    if j == 0 {
                        start
                    } else {
                        targets@[j - 1]
                    },
                    targets@[j],
                ),
    {
        rates.push((rate, targets[i]));
        rate = targets[i];
    }
    rates
}

/// The rate that the rounds leave for the base case.
pub fn last_rate(start: u32, targets: &[u32]) -> (r: u32)
    ensures
        r == (if targets@.len() == 0 {
            start
        } else {
            targets@.last()
        }),
{
    let n: usize = targets.len();
    if n == 0 {
        start
    } else {
        targets[n - 1]
    }
}

/// The fold of the code that round `i` switches to: that of the next round, and none
/// before the base case.
pub fn target_fold(shapes: &[RoundShape], i: usize) -> (r: u32)
    requires
        i < shapes@.len(),
    ensures
        r == (if i + 1 < shapes@.len() {
            shapes@[i as int].target_folding_factor
        } else {
            0
        }),
{
    let n: usize = shapes.len();
    if i < n - 1 {
        shapes[i].target_folding_factor
    } else {
        0
    }
}

/// The samples that masks leave room for where rounds need these, and none where there
/// is no round: the greatest number.
pub fn shared_budget(needed: &[usize]) -> (r: usize)
    ensures
        forall|i: int| 0 <= i < needed@.len() ==> #[trigger] needed@[i] <= r,
        needed@.len() == 0 ==> r == 0,
        needed@.len() > 0 ==> needed@.contains(r),
{
    let mut budget: usize = 0;
    for i in 0..needed.len()
        invariant
            forall|j: int| 0 <= j < i ==> #[trigger] needed@[j] <= budget,
            i == 0 ==> budget == 0,
            i > 0 ==> exists|j: int| 0 <= j < i && #[trigger] needed@[j] == budget,
    {
        if i == 0 || needed[i] > budget {
            budget = needed[i];
        }
        assert(needed@[i as int] <= budget);
    }
    budget
}

/// The samples that a code's mask leaves room for beside its in-domain queries, and at
/// least the given number.
pub fn budget_beside(source: &irs_commit::Config, least: usize) -> (r: usize)
    ensures
        r == (if source.mode.mask_len() - source.in_domain_samples > least {
            source.mode.mask_len() - source.in_domain_samples
        } else {
            least as int
        }),
{
    let room: usize = source.mode.mask_length().saturating_sub(source.in_domain_samples);
    if room > least {
        room
    } else {
        least
    }
}

/// The lower of the two floors of a round's masks.
pub fn masks_floor(masks: &MaskQuote) -> (r: Bits)
    ensures
        r == (if masks.sumcheck_masks_floor.micro <= masks.cs_mask_floor.micro {
            masks.sumcheck_masks_floor
        } else {
            masks.cs_mask_floor
        }),
{
    if masks.sumcheck_masks_floor.micro <= masks.cs_mask_floor.micro {
        masks.sumcheck_masks_floor
    } else {
        masks.cs_mask_floor
    }
}

} // verus!
