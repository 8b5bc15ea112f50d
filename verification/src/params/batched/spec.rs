//! What a caller of the batched protocol asks for.

use crate::arith::{is_pow2, is_power_of_two};
use crate::params::batched::fault::BatchedFault;
use crate::params::error::DeriveError;
use crate::params::spec::{FoldingFactor, RateSchedule};
use vstd::prelude::*;

verus! {

/// The shape of a bundle: polynomials of one length under one commitment.
#[derive(Clone, Copy, Debug, PartialEq, Eq, Structural)]
pub struct BundleSpec {
    /// The length of every polynomial; a power of two.
    pub length: usize,
    /// The number of polynomials.
    pub num_polys: usize,
}

/// The size and time tradeoffs asked for. The merge follows from the bundles' sizes.
#[derive(Debug)]
pub struct BatchedTuningSpec {
    pub bundles: Vec<BundleSpec>,
    pub starting_log_inv_rate: u32,
    /// The folding factor of the shared rounds, and the most that a bundle is folded
    /// before the merge.
    pub folding_factor: FoldingFactor,
    pub rate_schedule: RateSchedule,
}

/// What is wrong with the shape of a bundle.
pub open spec fn shape_fault(bundles: Seq<BundleSpec>, i: int) -> Option<BatchedFault> {
    let b = bundles[i];
    if !is_pow2(b.length as nat) {
        Some(BatchedFault::LengthNotPowerOfTwo { bundle: i as usize, length: b.length })
    } else if b.num_polys == 0 {
        Some(BatchedFault::NoPolys { bundle: i as usize })
    } else if !is_pow2(b.num_polys as nat) {
        Some(BatchedFault::NumPolysNotPowerOfTwo { bundle: i as usize, num_polys: b.num_polys })
    } else {
        None
    }
}

/// The first of the first `k` bundles whose shape is wrong.
pub open spec fn first_shape_fault(bundles: Seq<BundleSpec>, k: nat) -> Option<BatchedFault>
    decreases k,
{
    if k == 0 {
        None
    } else {
        match first_shape_fault(bundles, (k - 1) as nat) {
            Some(f) => Some(f),
            None => shape_fault(bundles, k - 1),
        }
    }
}

/// The first of the first `k` bundles with another number of polynomials.
pub open spec fn first_count_fault(bundles: Seq<BundleSpec>, k: nat) -> Option<BatchedFault>
    decreases k,
{
    if k == 0 {
        None
    } else {
        match first_count_fault(bundles, (k - 1) as nat) {
            Some(f) => Some(f),
            None => if bundles[k - 1].num_polys != bundles[0].num_polys {
                Some(
                    BatchedFault::NumPolysDiffer {
                        bundle: (k - 1) as usize,
                        num_polys: bundles[k - 1].num_polys,
                        expected: bundles[0].num_polys,
                    },
                )
            } else {
                None
            },
        }
    }
}

/// The first fault of the bundles' shapes.
pub open spec fn inputs_fault(bundles: Seq<BundleSpec>) -> Option<BatchedFault> {
    if bundles.len() == 0 {
        Some(BatchedFault::NoBundles)
    } else {
        match first_shape_fault(bundles, bundles.len()) {
            Some(f) => Some(f),
            None => first_count_fault(bundles, bundles.len()),
        }
    }
}

/// The error for a fault.
pub open spec fn unsupported(reason: BatchedFault) -> DeriveError {
    DeriveError::BatchedUnsupported { reason }
}

/// Check the bundles' shapes: sizes that are powers of two, and one number of
/// polynomials, which is returned.
pub fn validate_bundle_inputs(bundles: &[BundleSpec]) -> (r: Result<usize, DeriveError>)
    ensures
        match inputs_fault(bundles@) {
            Some(f) => r == Err::<usize, DeriveError>(unsupported(f)),
            None => r == Ok::<usize, DeriveError>(bundles@[0].num_polys),
        },
{
    let n: usize = bundles.len();
    if n == 0 {
        return Err(DeriveError::BatchedUnsupported { reason: BatchedFault::NoBundles });
    }
    for i in 0..n
        invariant
            n == bundles@.len(),
            n > 0,
            first_shape_fault(bundles@, i as nat) is None,
    {
        let b: BundleSpec = bundles[i];
        let fault: Option<BatchedFault> = if !is_power_of_two(b.length) {
            Some(BatchedFault::LengthNotPowerOfTwo { bundle: i, length: b.length })
        } else if b.num_polys == 0 {
            Some(BatchedFault::NoPolys { bundle: i })
        } else if !is_power_of_two(b.num_polys) {
            Some(BatchedFault::NumPolysNotPowerOfTwo { bundle: i, num_polys: b.num_polys })
        } else {
            None
        };
        match fault {
            Some(reason) => {
                proof {
                    lemma_shape_fault(bundles@, (i + 1) as nat, n as nat);
                }
                return Err(DeriveError::BatchedUnsupported { reason });
            },
            None => {},
        }
    }
    let canonical: usize = bundles[0].num_polys;
    for i in 0..n
        invariant
            n == bundles@.len(),
            n > 0,
            canonical == bundles@[0].num_polys,
            first_shape_fault(bundles@, n as nat) is None,
            first_count_fault(bundles@, i as nat) is None,
    {
        if bundles[i].num_polys != canonical {
            proof {
                lemma_count_fault(bundles@, (i + 1) as nat, n as nat);
            }
            return Err(
                DeriveError::BatchedUnsupported {
                    reason: BatchedFault::NumPolysDiffer {
                        bundle: i,
                        num_polys: bundles[i].num_polys,
                        expected: canonical,
                    },
                },
            );
        }
    }
    Ok(canonical)
}

proof fn lemma_shape_fault(bundles: Seq<BundleSpec>, j: nat, k: nat)
    requires
        j <= k,
        first_shape_fault(bundles, j) is Some,
    ensures
        first_shape_fault(bundles, k) == first_shape_fault(bundles, j),
    decreases k,
{
    if j < k {
        lemma_shape_fault(bundles, j, (k - 1) as nat);
    }
}

proof fn lemma_count_fault(bundles: Seq<BundleSpec>, j: nat, k: nat)
    requires
        j <= k,
        first_count_fault(bundles, j) is Some,
    ensures
        first_count_fault(bundles, k) == first_count_fault(bundles, j),
    decreases k,
{
    if j < k {
        lemma_count_fault(bundles, j, (k - 1) as nat);
    }
}

/// Bundles are accepted exactly if there is one, all sizes are powers of two, and all
/// have the same number of polynomials.
pub proof fn law_inputs_accepted(bundles: Seq<BundleSpec>)
    ensures
        inputs_fault(bundles) is None <==> bundles.len() > 0 && forall|i: int|
            0 <= i < bundles.len() ==> {
                &&& is_pow2((#[trigger] bundles[i]).length as nat)
                &&& is_pow2(bundles[i].num_polys as nat)
                &&& bundles[i].num_polys == bundles[0].num_polys
            },
{
    if bundles.len() > 0 {
        lemma_inputs(bundles, bundles.len());
    }
}

proof fn lemma_inputs(bundles: Seq<BundleSpec>, k: nat)
    requires
        0 < bundles.len(),
        k <= bundles.len(),
    ensures
        first_shape_fault(bundles, k) is None <==> forall|i: int|
            0 <= i < k ==> is_pow2((#[trigger] bundles[i]).length as nat) && is_pow2(
                bundles[i].num_polys as nat,
            ),
        first_count_fault(bundles, k) is None <==> forall|i: int|
            0 <= i < k ==> (#[trigger] bundles[i]).num_polys == bundles[0].num_polys,
    decreases k,
{
    if k > 0 {
        lemma_inputs(bundles, (k - 1) as nat);
        vstd::arithmetic::power2::lemma_pow2_pos(crate::arith::ceil_log2_spec(0));
        assert(shape_fault(bundles, k - 1) is None <==> is_pow2(bundles[k - 1].length as nat)
            && is_pow2(bundles[k - 1].num_polys as nat));
    }
}

} // verus!
