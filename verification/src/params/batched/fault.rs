//! What the batched protocol does not support.

use vstd::prelude::*;

verus! {

/// The rule that bundles, or a batched configuration, break.
#[derive(Clone, Copy, Debug, PartialEq, Eq, Structural)]
pub enum BatchedFault {
    /// No bundle is declared.
    NoBundles,
    /// A bundle's length is not a power of two.
    LengthNotPowerOfTwo { bundle: usize, length: usize },
    /// A bundle has no polynomials.
    NoPolys { bundle: usize },
    /// A bundle's number of polynomials is not a power of two.
    NumPolysNotPowerOfTwo { bundle: usize, num_polys: usize },
    /// A bundle's number of polynomials differs from the first one's.
    NumPolysDiffer { bundle: usize, num_polys: usize, expected: usize },
    /// The folding factor is not constant.
    FoldingNotConstant,
    /// A plan for no bundles.
    PlanWithoutBundles,
    /// A plan without folds.
    PlanWithoutFold,
    /// A plan for a length that is not a power of two.
    PlanLengthNotPowerOfTwo { bundle: usize, length: usize },
    /// A bundle is too small to reach the merge point.
    BelowMergePoint { bundle: usize, log_size: usize, log_merge: usize, max_fold: usize },
    /// A bundle is folded more often than it has variables.
    FoldsTooDeep { bundle: usize, total_fold: usize, log_length: usize },
    /// A bundle's size at the merge point does not fit a machine size.
    MergeSizeOverflow { bundle: usize },
    /// Two bundles do not reach the same merge point.
    MergePointsDiffer { bundle: usize, expected: usize, found: usize },
    /// The merge point leaves no shared rounds.
    NoSharedRounds,
    /// A bundle's last code before the merge is not the shared rounds' first.
    PreMergeMisaligned { bundle: usize },
    /// No bundle is configured.
    NoBundleConfigs,
    /// The tuning declares another number of bundles than are configured.
    BundleCountMismatch { declared: usize, configured: usize },
    /// A bundle is configured otherwise than declared.
    BundleSpecMismatch { bundle: usize },
    /// The schedule is empty.
    NoJoins,
    /// A join at the base case.
    BasecaseJoin,
    /// A join at a round that does not exist.
    JoinRoundOutOfRange { join: usize, round: usize, rounds: usize },
    /// The first join is not at the first round.
    FirstJoinNotAtStart,
    /// The rounds of the joins do not increase.
    JoinRoundsNotIncreasing { join: usize, round: usize, previous: usize },
    /// A join without bundles.
    JoinWithoutBundles { join: usize },
    /// A join's number of blocks is not that of its bundles and the carrier.
    JoinCountMismatch { join: usize, t: usize, bundles: usize, carrier: bool },
    /// A join's selector is for another number of blocks.
    SelectorCountMismatch { join: usize, t: usize, expected: usize },
    /// A join's selector is for blocks of another length.
    SelectorLengthMismatch { join: usize, length: usize, expected: usize },
    /// A join names a bundle that does not exist.
    BundleOutOfRange { join: usize, bundle: usize },
    /// A bundle joins twice.
    BundleJoinsTwice { bundle: usize },
    /// A bundle is configured to join at another round.
    BundleJoinMismatch { bundle: usize, round: usize },
    /// A bundle never joins.
    BundleNeverJoins,
    /// A bundle is configured to join at the base case.
    BundleJoinsAtBasecase { bundle: usize },
    /// A bundle's code is not that of the round it joins at.
    JoinSourceMismatch { bundle: usize, round: usize },
    /// A bundle's code is not that of its first round.
    FirstPreMergeMismatch { bundle: usize },
    /// A bundle's round does not start from the code the one before it switched to.
    PreMergeChainBroken { bundle: usize, round: usize },
    /// A bundle's last code is not that of the round it joins at.
    LastPreMergeMismatch { bundle: usize, round: usize },
    /// Claim counts for another number of bundles.
    ClaimCountMismatch { counts: usize, configured: usize },
}

} // verus!
