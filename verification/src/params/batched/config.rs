//! The batched configuration: the shared rounds, the bundles' codes and rounds before
//! the merge, and when every bundle joins.

use crate::bits::Bits;
use crate::irs_commit;
use crate::irs_laws::same_shape;
use crate::params::batched::fault::BatchedFault;
use crate::params::batched::spec::{unsupported, BatchedTuningSpec, BundleSpec};
use crate::params::config::{ProtocolConfig, RoundConfig};
use crate::params::error::{DeriveError, Pow};
use crate::params::spec::SecuritySpec;
use crate::params::validate::{outcome, PlanFloors, SLACK};
use crate::proof_of_work;
use crate::zook::batched::selector::merge as selector_merge;
use vstd::prelude::*;

verus! {

/// One bundle's configuration.
#[derive(Debug)]
pub struct BundleConfig {
    pub spec: BundleSpec,
    /// The length the bundle is padded to; `None` for no padding.
    pub pad_to: Option<usize>,
    /// The shared round at which the bundle joins; `None` for the base case.
    pub join_round: Option<usize>,
    /// The code that the bundle is committed to under.
    pub irs_config: irs_commit::Config,
    /// The bundle's own rounds before it joins.
    pub pre_merge_rounds: Vec<RoundConfig>,
}

/// One merge: which bundles join at which round.
#[derive(Debug)]
pub struct RoundJoin {
    /// The round before which the merge stands; `None` for the base case.
    pub round_index: Option<usize>,
    /// The bundles that join.
    pub bundle_indices: Vec<usize>,
    /// The number of blocks merged: the bundles, and the carrier if there is one.
    pub t: usize,
    pub selector: selector_merge::Config,
}

/// All merges in order.
#[derive(Debug)]
pub struct MergeSchedule {
    pub joins: Vec<RoundJoin>,
}

/// The configuration of the batched protocol.
#[derive(Debug)]
pub struct BatchedProtocolConfig {
    pub inner: ProtocolConfig,
    pub schedule: MergeSchedule,
    pub bundle_configs: Vec<BundleConfig>,
    pub tuning: BatchedTuningSpec,
}

/// Analytic floors of a batched plan, computed anew: those of the shared rounds, one
/// for every join, and one for the claims of every bundle.
#[derive(Debug)]
pub struct BatchedFloors {
    pub inner: PlanFloors,
    pub selectors: Vec<Bits>,
    pub claims: Vec<Bits>,
}

/// The first of the first `k` joins at the given place.
pub open spec fn find_join(joins: Seq<RoundJoin>, at: Option<usize>, k: nat) -> Option<int>
    decreases k,
{
    if k == 0 {
        None
    } else {
        match find_join(joins, at, (k - 1) as nat) {
            Some(j) => Some(j),
            None => if joins[k - 1].round_index == at {
                Some(k - 1)
            } else {
                None
            },
        }
    }
}

/// How many bundles the first `k` joins take in.
pub open spec fn joined_count(joins: Seq<RoundJoin>, k: nat) -> nat
    decreases k,
{
    if k == 0 {
        0
    } else {
        joined_count(joins, (k - 1) as nat) + joins[k - 1].bundle_indices@.len()
    }
}

fn find(joins: &Vec<RoundJoin>, at: Option<usize>) -> (r: Option<usize>)
    ensures
        match find_join(joins@, at, joins@.len()) {
            None => r is None,
            Some(j) => r matches Some(i) && i == j && i < joins@.len(),
        },
{
    for j in 0..joins.len()
        invariant
            find_join(joins@, at, j as nat) is None,
    {
        let here: bool = match (joins[j].round_index, at) {
            (None, None) => true,
            (Some(a), Some(b)) => a == b,
            _ => false,
        };
        if here {
            proof {
                lemma_find_join(joins@, at, (j + 1) as nat, joins@.len());
            }
            return Some(j);
        }
    }
    None
}

/// A join that was found stays the first one.
pub proof fn lemma_find_join(joins: Seq<RoundJoin>, at: Option<usize>, j: nat, k: nat)
    requires
        j <= k,
        find_join(joins, at, j) is Some,
    ensures
        find_join(joins, at, k) == find_join(joins, at, j),
    decreases k,
{
    if j < k {
        lemma_find_join(joins, at, j, (k - 1) as nat);
    }
}

impl MergeSchedule {
    /// A schedule without merges.
    pub fn empty() -> (r: Self)
        ensures
            r.joins@.len() == 0,
    {
        MergeSchedule { joins: Vec::new() }
    }

    /// How many bundles all joins take in.
    pub fn bundle_count(&self) -> (r: usize)
        requires
            joined_count(self.joins@, self.joins@.len()) <= usize::MAX,
        ensures
            r == joined_count(self.joins@, self.joins@.len()),
    {
        let mut count: usize = 0;
        for j in 0..self.joins.len()
            invariant
                joined_count(self.joins@, self.joins@.len()) <= usize::MAX,
                count == joined_count(self.joins@, j as nat),
        {
            proof {
                lemma_joined_count(self.joins@, (j + 1) as nat, self.joins@.len());
            }
            count = count + self.joins[j].bundle_indices.len();
        }
        count
    }

    /// The join at the base case, if there is one.
    pub fn basecase_join(&self) -> (r: Option<&RoundJoin>)
        ensures
            match find_join(self.joins@, None, self.joins@.len()) {
                None => r is None,
                Some(j) => r matches Some(join) && *join == self.joins@[j],
            },
    {
        match find(&self.joins, None) {
            Some(j) => Some(&self.joins[j]),
            None => None,
        }
    }

    /// The join at a round, if there is one.
    pub fn join_at(&self, round: usize) -> (r: Option<&RoundJoin>)
        ensures
            match find_join(self.joins@, Some(round), self.joins@.len()) {
                None => r is None,
                Some(j) => r matches Some(join) && *join == self.joins@[j],
            },
    {
        match find(&self.joins, Some(round)) {
            Some(j) => Some(&self.joins[j]),
            None => None,
        }
    }
}

proof fn lemma_joined_count(joins: Seq<RoundJoin>, j: nat, k: nat)
    requires
        j <= k,
    ensures
        joined_count(joins, j) <= joined_count(joins, k),
    decreases k,
{
    if j < k {
        lemma_joined_count(joins, j, (k - 1) as nat);
    }
}

/// Does bundle `b` stand in one of the first `j` joins, or among the first `m` bundles
/// of join `j`?
pub open spec fn seen(joins: Seq<RoundJoin>, j: nat, m: nat, b: int) -> bool
    decreases j, m,
{
    if m > 0 {
        joins[j as int].bundle_indices@[m - 1] == b || seen(joins, j, (m - 1) as nat, b)
    } else if j > 0 {
        seen(joins, (j - 1) as nat, joins[j - 1].bundle_indices@.len(), b)
    } else {
        false
    }
}

/// How many blocks are merged at a join: its bundles, and the carrier after the first
/// join.
pub open spec fn join_size(joins: Seq<RoundJoin>, j: int) -> nat {
    joins[j].bundle_indices@.len() + (if j > 0 {
        1nat
    } else {
        0nat
    })
}

/// Which of the first `k` bundles is configured otherwise than declared.
pub open spec fn first_spec_fault(declared: Seq<BundleSpec>, configs: Seq<BundleConfig>, k: nat) -> Option<
    BatchedFault,
>
    decreases k,
{
    if k == 0 {
        None
    } else {
        match first_spec_fault(declared, configs, (k - 1) as nat) {
            Some(f) => Some(f),
            None => if declared[k - 1] != configs[k - 1].spec {
                Some(BatchedFault::BundleSpecMismatch { bundle: (k - 1) as usize })
            } else {
                None
            },
        }
    }
}

impl BatchedProtocolConfig {
    /// The round of a join.
    pub open spec fn join_round(&self, j: int) -> usize {
        self.schedule.joins@[j].round_index.unwrap()
    }

    /// What is wrong with a join, apart from its bundles.
    pub open spec fn join_fault(&self, j: int) -> Option<BatchedFault> {
        let joins = self.schedule.joins@;
        let join = joins[j];
        let rounds = self.inner.rounds@;
        match join.round_index {
            None => Some(BatchedFault::BasecaseJoin),
            Some(round) => if round >= rounds.len() {
                Some(
                    BatchedFault::JoinRoundOutOfRange {
                        join: j as usize,
                        round,
                        rounds: rounds.len() as usize,
                    },
                )
            } else if j == 0 && round != 0 {
                Some(BatchedFault::FirstJoinNotAtStart)
            } else if j > 0 && round <= self.join_round(j - 1) {
                Some(
                    BatchedFault::JoinRoundsNotIncreasing {
                        join: j as usize,
                        round,
                        previous: self.join_round(j - 1),
                    },
                )
            } else if join.bundle_indices@.len() == 0 {
                Some(BatchedFault::JoinWithoutBundles { join: j as usize })
            } else if join.t != join_size(joins, j) {
                Some(
                    BatchedFault::JoinCountMismatch {
                        join: j as usize,
                        t: join.t,
                        bundles: join.bundle_indices@.len() as usize,
                        carrier: j > 0,
                    },
                )
            } else if join.selector.t != join.t {
                Some(
                    BatchedFault::SelectorCountMismatch {
                        join: j as usize,
                        t: join.selector.t,
                        expected: join.t,
                    },
                )
            } else if join.selector.selector.message_length != rounds[round as int].cs().source.vector_size {
                Some(
                    BatchedFault::SelectorLengthMismatch {
                        join: j as usize,
                        length: join.selector.selector.message_length,
                        expected: rounds[round as int].cs().source.vector_size,
                    },
                )
            } else {
                None
            },
        }
    }

    /// What is wrong with bundle number `m` of a join.
    pub open spec fn index_fault(&self, j: int, m: int) -> Option<BatchedFault> {
        let b = self.schedule.joins@[j].bundle_indices@[m];
        if b >= self.bundle_configs@.len() {
            Some(BatchedFault::BundleOutOfRange { join: j as usize, bundle: b })
        } else if seen(self.schedule.joins@, j as nat, m as nat, b as int) {
            Some(BatchedFault::BundleJoinsTwice { bundle: b })
        } else if self.bundle_configs@[b as int].join_round != Some(self.join_round(j)) {
            Some(BatchedFault::BundleJoinMismatch { bundle: b, round: self.join_round(j) })
        } else {
            None
        }
    }

    /// The first fault of the first `m` bundles of a join.
    pub open spec fn first_index_fault(&self, j: int, m: nat) -> Option<BatchedFault>
        decreases m,
    {
        if m == 0 {
            None
        } else {
            match self.first_index_fault(j, (m - 1) as nat) {
                Some(f) => Some(f),
                None => self.index_fault(j, m - 1),
            }
        }
    }

    /// The first fault of the first `k` joins.
    pub open spec fn first_join_fault(&self, k: nat) -> Option<BatchedFault>
        decreases k,
    {
        if k == 0 {
            None
        } else {
            match self.first_join_fault((k - 1) as nat) {
                Some(f) => Some(f),
                None => match self.join_fault(k - 1) {
                    Some(f) => Some(f),
                    None => self.first_index_fault(
                        k - 1,
                        self.schedule.joins@[k - 1].bundle_indices@.len(),
                    ),
                },
            }
        }
    }

    /// Does a code have the shape of the source of a shared round?
    pub open spec fn source_matches(&self, round: int, code: irs_commit::Config) -> bool {
        round < self.inner.rounds@.len() && same_shape(&code, &self.inner.rounds@[round].cs().source)
    }

    /// The first of the first `k` rounds before the merge of a bundle that does not
    /// continue the one before it.
    pub open spec fn first_pre_merge_fault(&self, b: int, k: nat) -> Option<BatchedFault>
        decreases k,
    {
        let rounds = self.bundle_configs@[b].pre_merge_rounds@;
        if k <= 1 {
            None
        } else {
            match self.first_pre_merge_fault(b, (k - 1) as nat) {
                Some(f) => Some(f),
                None => if !same_shape(&rounds[k - 2].cs().target, &rounds[k - 1].cs().source) {
                    Some(BatchedFault::PreMergeChainBroken { bundle: b as usize, round: (k - 2) as usize })
                } else {
                    None
                },
            }
        }
    }

    /// What is wrong with the codes of a bundle.
    pub open spec fn bundle_fault(&self, b: int) -> Option<BatchedFault> {
        let cfg = self.bundle_configs@[b];
        let rounds = cfg.pre_merge_rounds@;
        match cfg.join_round {
            None => Some(BatchedFault::BundleJoinsAtBasecase { bundle: b as usize }),
            Some(round) => if rounds.len() == 0 {
                if !self.source_matches(round as int, cfg.irs_config) {
                    Some(BatchedFault::JoinSourceMismatch { bundle: b as usize, round })
                } else {
                    None
                }
            } else if !same_shape(&cfg.irs_config, &rounds[0].cs().source) {
                Some(BatchedFault::FirstPreMergeMismatch { bundle: b as usize })
            } else {
                match self.first_pre_merge_fault(b, rounds.len()) {
                    Some(f) => Some(f),
                    None => if !self.source_matches(
                        round as int,
                        rounds[rounds.len() - 1].cs().target,
                    ) {
                        Some(BatchedFault::LastPreMergeMismatch { bundle: b as usize, round })
                    } else {
                        None
                    },
                }
            },
        }
    }

    /// The first of the first `k` bundles whose codes are wrong.
    pub open spec fn first_bundle_fault(&self, k: nat) -> Option<BatchedFault>
        decreases k,
    {
        if k == 0 {
            None
        } else {
            match self.first_bundle_fault((k - 1) as nat) {
                Some(f) => Some(f),
                None => self.bundle_fault(k - 1),
            }
        }
    }

    /// Does every bundle join?
    pub open spec fn all_join(&self) -> bool {
        forall|b: int|
            0 <= b < self.bundle_configs@.len() ==> #[trigger] seen(
                self.schedule.joins@,
                self.schedule.joins@.len(),
                0,
                b,
            )
    }

    /// The first fault of the structure: of the bundles' number and shapes, of the
    /// joins, and of the codes.
    #[verifier::opaque]
    pub open spec fn structure_fault(&self) -> Option<BatchedFault> {
        let n = self.bundle_configs@.len();
        let joins = self.schedule.joins@;
        let declared = self.tuning.bundles@;
        if n == 0 {
            Some(BatchedFault::NoBundleConfigs)
        } else if declared.len() != n {
            Some(
                BatchedFault::BundleCountMismatch {
                    declared: declared.len() as usize,
                    configured: n as usize,
                },
            )
        } else {
            match first_spec_fault(declared, self.bundle_configs@, n) {
                Some(f) => Some(f),
                None => if joins.len() == 0 {
                    Some(BatchedFault::NoJoins)
                } else if find_join(joins, None, joins.len()) is Some {
                    Some(BatchedFault::BasecaseJoin)
                } else {
                    match self.first_join_fault(joins.len()) {
                        Some(f) => Some(f),
                        None => if !self.all_join() {
                            Some(BatchedFault::BundleNeverJoins)
                        } else {
                            self.first_bundle_fault(n)
                        },
                    }
                },
            }
        }
    }

    /// The first join whose selector is over the budget or misses the target, among
    /// the first `k`.
    pub open spec fn first_selector_fault(&self, floors: Seq<Bits>, k: nat) -> Option<DeriveError>
        decreases k,
    {
        if k == 0 {
            None
        } else {
            let merge = self.schedule.joins@[k - 1].selector;
            match self.first_selector_fault(floors, (k - 1) as nat) {
                Some(e) => Some(e),
                None => if merge.selector.selector_dim == 0 {
                    None
                } else {
                    soundness_fault(
                        self.inner.security,
                        Pow::BatchedSelectorMerge { index: (k - 1) as usize },
                        floors[k - 1],
                        merge.selector.sumcheck.round_pow,
                    )
                },
            }
        }
    }

    /// The first bundle whose claims miss the target, among the first `k`.
    pub open spec fn first_claims_fault(&self, counts: Seq<usize>, floors: Seq<Bits>, k: nat) -> Option<
        DeriveError,
    >
        decreases k,
    {
        if k == 0 {
            None
        } else {
            match self.first_claims_fault(counts, floors, (k - 1) as nat) {
                Some(e) => Some(e),
                None => if counts[k - 1] <= 1 {
                    None
                } else {
                    soundness_fault(
                        self.inner.security,
                        Pow::BatchedIntraBundleRlc { index: (k - 1) as usize },
                        floors[k - 1],
                        proof_of_work::Config::spec_none(),
                    )
                },
            }
        }
    }

    /// The first fault of the configuration.
    pub open spec fn static_fault(&self, floors: BatchedFloors) -> Option<DeriveError> {
        match self.inner.fault(floors.inner) {
            Some(e) => Some(e),
            None => match self.structure_fault() {
                Some(f) => Some(unsupported(f)),
                None => self.first_selector_fault(
                    floors.selectors@,
                    self.schedule.joins@.len(),
                ),
            },
        }
    }

    /// The first slot that misses the target when the bundles have the given numbers
    /// of claims.
    pub open spec fn claims_fault(&self, counts: Seq<usize>, floors: BatchedFloors) -> Option<
        DeriveError,
    > {
        match self.inner.target_fault(floors.inner) {
            Some(e) => Some(e),
            None => match self.first_selector_fault(floors.selectors@, self.schedule.joins@.len()) {
                Some(e) => Some(e),
                None => if counts.len() != self.bundle_configs@.len() {
                    Some(
                        unsupported(
                            BatchedFault::ClaimCountMismatch {
                                counts: counts.len() as usize,
                                configured: self.bundle_configs@.len() as usize,
                            },
                        ),
                    )
                } else {
                    self.first_claims_fault(counts, floors.claims@, counts.len())
                },
            },
        }
    }

    /// Is there a floor for every slot?
    pub open spec fn floors_fit(&self, floors: BatchedFloors) -> bool {
        &&& floors.inner.rounds@.len() == self.inner.rounds@.len()
        &&& floors.selectors@.len() == self.schedule.joins@.len()
    }
}

/// Is a slot's work over the budget, or short of the target?
pub open spec fn soundness_fault(
    spec: SecuritySpec,
    pow: Pow,
    analytic: Bits,
    pow_config: proof_of_work::Config,
) -> Option<DeriveError> {
    let pow_bits = Bits::spec_whole(pow_config.bits);
    let max = Bits::spec_whole(spec.pow_budget.spec_bits());
    let target = Bits::spec_whole(spec.target_security_bits);
    if pow_config.bits > spec.pow_budget.spec_bits() {
        Some(DeriveError::PowBudgetExceeded { pow, required: pow_bits, max })
    } else if analytic.micro + pow_bits.micro + SLACK < target.micro {
        Some(DeriveError::SecurityTargetNotMet { pow, analytic, pow_bits, target })
    } else {
        None
    }
}

/// Is a slot's work within the budget, and enough for the target?
pub fn validate_batched_soundness_slot(
    spec: &SecuritySpec,
    pow: Pow,
    analytic: Bits,
    pow_config: proof_of_work::Config,
) -> (r: Result<(), DeriveError>)
    ensures
        r == outcome(soundness_fault(*spec, pow, analytic, pow_config)),
{
    let pow_bits: Bits = pow_config.difficulty();
    let max: Bits = Bits::whole(spec.pow_budget.bits());
    if pow_bits.micro > max.micro {
        return Err(DeriveError::PowBudgetExceeded { pow, required: pow_bits, max });
    }
    let target: Bits = Bits::whole(spec.target_security_bits);
    if analytic.micro.saturating_add(pow_bits.micro).saturating_add(SLACK) < target.micro {
        return Err(DeriveError::SecurityTargetNotMet { pow, analytic, pow_bits, target });
    }
    Ok(())
}

/// Do two configurations encode alike?
pub fn irs_shape_matches(lhs: &irs_commit::Config, rhs: &irs_commit::Config) -> (r: bool)
    ensures
        r == same_shape(lhs, rhs),
{
    lhs.vector_size == rhs.vector_size && lhs.interleaving_depth == rhs.interleaving_depth
        && lhs.num_vectors == rhs.num_vectors && lhs.codeword_length == rhs.codeword_length
        && lhs.mode.mask_length() == rhs.mode.mask_length()
}

} // verus!
