//! Checks of a batched configuration.

use crate::bits::Bits;
use crate::irs_commit;
use crate::irs_laws::same_shape;
use crate::params::batched::config::{
    first_spec_fault, irs_shape_matches, seen, validate_batched_soundness_slot, BatchedFloors,
    BatchedProtocolConfig, BundleConfig, MergeSchedule, RoundJoin,
};
use crate::params::batched::fault::BatchedFault;
use crate::params::batched::spec::{BatchedTuningSpec, BundleSpec};
use crate::params::config::ProtocolConfig;
use crate::params::error::{DeriveError, Pow};
use crate::params::validate::outcome;
use crate::proof_of_work;
use vstd::prelude::*;

verus! {

/// `Err` with the fault, if there is one.
pub open spec fn structure_outcome(fault: Option<BatchedFault>) -> Result<(), BatchedFault> {
    match fault {
        Some(f) => Err(f),
        None => Ok(()),
    }
}

impl BatchedProtocolConfig {
    /// A configuration of the given parts, if no check fails.
    pub fn try_new(
        inner: ProtocolConfig,
        schedule: MergeSchedule,
        bundle_configs: Vec<BundleConfig>,
        tuning: BatchedTuningSpec,
        floors: &BatchedFloors,
    ) -> (r: Result<Self, DeriveError>)
        requires
            floors.inner.rounds@.len() == inner.rounds@.len(),
            floors.selectors@.len() == schedule.joins@.len(),
        ensures
            ({
                let cfg = BatchedProtocolConfig { inner, schedule, bundle_configs, tuning };
                match cfg.static_fault(*floors) {
                    Some(e) => r == Err::<BatchedProtocolConfig, DeriveError>(e),
                    None => r == Ok::<BatchedProtocolConfig, DeriveError>(cfg),
                }
            }),
    {
        let cfg = BatchedProtocolConfig { inner, schedule, bundle_configs, tuning };
        match cfg.validate_static_invariants(floors) {
            Ok(()) => Ok(cfg),
            Err(e) => Err(e),
        }
    }

    /// Does a code have the shape of the source of a shared round?
    fn join_source_matches(&self, join_round: usize, other: &irs_commit::Config) -> (r: bool)
        ensures
            r == self.source_matches(join_round as int, *other),
    {
        join_round < self.inner.rounds.len() && irs_shape_matches(
            other,
            &self.inner.rounds[join_round].code_switch.config.source,
        )
    }

    /// Every check of a configuration: those of the shared plan, of the structure, and
    /// of the selectors' levels.
    pub fn validate_static_invariants(&self, floors: &BatchedFloors) -> (r: Result<(), DeriveError>)
        requires
            self.floors_fit(*floors),
        ensures
            r == outcome(self.static_fault(*floors)),
    {
        match self.inner.validate(&floors.inner) {
            Err(e) => {
                return Err(e);
            },
            Ok(()) => {},
        }
        match self.validate_structure() {
            Err(reason) => {
                return Err(DeriveError::BatchedUnsupported { reason });
            },
            Ok(()) => {},
        }
        self.validate_selector_security_target_met(floors)
    }

    /// The checks of the structure.
    pub fn validate_structure(&self) -> (r: Result<(), BatchedFault>)
        ensures
            r == structure_outcome(self.structure_fault()),
    {
        reveal(BatchedProtocolConfig::structure_fault);
        let n: usize = self.bundle_configs.len();
        if n == 0 {
            return Err(BatchedFault::NoBundleConfigs);
        }
        let declared: usize = self.tuning.bundles.len();
        if declared != n {
            return Err(BatchedFault::BundleCountMismatch { declared, configured: n });
        }
        match self.validate_specs() {
            Err(f) => {
                return Err(f);
            },
            Ok(()) => {},
        }
        if self.schedule.joins.len() == 0 {
            return Err(BatchedFault::NoJoins);
        }
        if self.schedule.basecase_join().is_some() {
            return Err(BatchedFault::BasecaseJoin);
        }
        match self.validate_joins() {
            Err(f) => {
                return Err(f);
            },
            Ok(()) => {},
        }
        self.validate_bundles()
    }

    /// Is every bundle configured as declared?
    fn validate_specs(&self) -> (r: Result<(), BatchedFault>)
        requires
            self.tuning.bundles@.len() == self.bundle_configs@.len(),
        ensures
            r == structure_outcome(
                first_spec_fault(
                    self.tuning.bundles@,
                    self.bundle_configs@,
                    self.bundle_configs@.len(),
                ),
            ),
    {
        for i in 0..self.bundle_configs.len()
            invariant
                self.tuning.bundles@.len() == self.bundle_configs@.len(),
                first_spec_fault(self.tuning.bundles@, self.bundle_configs@, i as nat) is None,
        {
            let spec: BundleSpec = self.tuning.bundles[i];
            if spec != self.bundle_configs[i].spec {
                proof {
                    lemma_spec_fault(
                        self.tuning.bundles@,
                        self.bundle_configs@,
                        (i + 1) as nat,
                        self.bundle_configs@.len(),
                    );
                }
                return Err(BatchedFault::BundleSpecMismatch { bundle: i });
            }
        }
        Ok(())
    }

    /// Are all joins in order, with every bundle in exactly one of them?
    fn validate_joins(&self) -> (r: Result<(), BatchedFault>)
        ensures
            r == structure_outcome(
                match self.first_join_fault(self.schedule.joins@.len()) {
                    Some(f) => Some(f),
                    None => if !self.all_join() {
                        Some(BatchedFault::BundleNeverJoins)
                    } else {
                        None
                    },
                },
            ),
    {
        let ghost joins = self.schedule.joins@;
        let n: usize = self.bundle_configs.len();
        let mut seen_bundles: Vec<bool> = Vec::new();
        for b in 0..n
            invariant
                seen_bundles@.len() == b,
                forall|c: int| 0 <= c < b ==> !#[trigger] seen_bundles@[c],
        {
            seen_bundles.push(false);
        }
        for j in 0..self.schedule.joins.len()
            invariant
                joins == self.schedule.joins@,
                n == self.bundle_configs@.len(),
                seen_bundles@.len() == n,
                forall|b: int|
                    0 <= b < n ==> #[trigger] seen_bundles@[b] == seen(joins, j as nat, 0, b),
                self.first_join_fault(j as nat) is None,
        {
            let ghost all = joins.len();
            match self.validate_join(j) {
                Err(f) => {
                    proof {
                        self.lemma_join_fault((j + 1) as nat, all);
                    }
                    return Err(f);
                },
                Ok(()) => {},
            }
            let round: usize = match self.schedule.joins[j].round_index {
                Some(r) => r,
                None => 0,
            };
            let count: usize = self.schedule.joins[j].bundle_indices.len();
            for m in 0..count
                invariant
                    count == joins[j as int].bundle_indices@.len(),
                    joins == self.schedule.joins@,
                    all == joins.len(),
                    j < joins.len(),
                    n == self.bundle_configs@.len(),
                    seen_bundles@.len() == n,
                    forall|b: int|
                        0 <= b < n ==> #[trigger] seen_bundles@[b] == seen(joins, j as nat, m as nat, b),
                    self.first_join_fault(j as nat) is None,
                    self.join_fault(j as int) is None,
                    round == self.join_round(j as int),
                    self.first_index_fault(j as int, m as nat) is None,
            {
                let b: usize = self.schedule.joins[j].bundle_indices[m];
                let fault: Option<BatchedFault> = if b >= n {
                    Some(BatchedFault::BundleOutOfRange { join: j, bundle: b })
                } else if seen_bundles[b] {
                    Some(BatchedFault::BundleJoinsTwice { bundle: b })
                } else {
                    let same: bool = match self.bundle_configs[b].join_round {
                        Some(r) => r == round,
                        None => false,
                    };
                    if same {
                        None
                    } else {
                        Some(BatchedFault::BundleJoinMismatch { bundle: b, round })
                    }
                };
                assert(fault == self.index_fault(j as int, m as int));
                match fault {
                    Some(f) => {
                        proof {
                            self.lemma_index_fault(
                                j as int,
                                (m + 1) as nat,
                                joins[j as int].bundle_indices@.len(),
                            );
                            self.lemma_join_fault((j + 1) as nat, all);
                        }
                        return Err(f);
                    },
                    None => {},
                }
                seen_bundles.set(b, true);
            }
        }
        for b in 0..n
            invariant
                joins == self.schedule.joins@,
                n == self.bundle_configs@.len(),
                seen_bundles@.len() == n,
                forall|c: int|
                    0 <= c < n ==> #[trigger] seen_bundles@[c] == seen(joins, joins.len(), 0, c),
                forall|c: int| 0 <= c < b ==> #[trigger] seen_bundles@[c],
                self.first_join_fault(joins.len()) is None,
        {
            if !seen_bundles[b] {
                assert(!seen(joins, joins.len(), 0, b as int));
                return Err(BatchedFault::BundleNeverJoins);
            }
        }
        proof {
            assert forall|b: int| 0 <= b < n implies #[trigger] seen(joins, joins.len(), 0, b) by {
                assert(seen_bundles@[b]);
            }
        }
        Ok(())
    }

    /// The checks of one join, apart from its bundles.
    fn validate_join(&self, j: usize) -> (r: Result<(), BatchedFault>)
        requires
            j < self.schedule.joins@.len(),
            self.first_join_fault(j as nat) is None,
        ensures
            r == structure_outcome(self.join_fault(j as int)),
    {
        let join: &RoundJoin = &self.schedule.joins[j];
        let round: usize = match join.round_index {
            None => {
                return Err(BatchedFault::BasecaseJoin);
            },
            Some(r) => r,
        };
        let rounds: usize = self.inner.rounds.len();
        if round >= rounds {
            return Err(BatchedFault::JoinRoundOutOfRange { join: j, round, rounds });
        }
        if j == 0 && round != 0 {
            return Err(BatchedFault::FirstJoinNotAtStart);
        }
        if j > 0 {
            assert(self.join_fault(j - 1) is None);
            match self.schedule.joins[j - 1].round_index {
                Some(previous) => {
                    if round <= previous {
                        return Err(
                            BatchedFault::JoinRoundsNotIncreasing { join: j, round, previous },
                        );
                    }
                },
                None => {},
            }
        }
        let count: usize = join.bundle_indices.len();
        if count == 0 {
            return Err(BatchedFault::JoinWithoutBundles { join: j });
        }
        let matches_count: bool = if j > 0 {
            join.t >= 1 && join.t - 1 == count
        } else {
            join.t == count
        };
        if !matches_count {
            return Err(
                BatchedFault::JoinCountMismatch {
                    join: j,
                    t: join.t,
                    bundles: count,
                    carrier: j > 0,
                },
            );
        }
        if join.selector.t != join.t {
            return Err(
                BatchedFault::SelectorCountMismatch {
                    join: j,
                    t: join.selector.t,
                    expected: join.t,
                },
            );
        }
        let expected: usize = self.inner.rounds[round].code_switch.config.source.vector_size;
        let length: usize = join.selector.message_length();
        if length != expected {
            return Err(BatchedFault::SelectorLengthMismatch { join: j, length, expected });
        }
        Ok(())
    }

    /// Do the codes of every bundle lead to the round it joins at?
    fn validate_bundles(&self) -> (r: Result<(), BatchedFault>)
        ensures
            r == structure_outcome(self.first_bundle_fault(self.bundle_configs@.len())),
    {
        for b in 0..self.bundle_configs.len()
            invariant
                self.first_bundle_fault(b as nat) is None,
        {
            match self.validate_bundle(b) {
                Err(f) => {
                    proof {
                        self.lemma_bundle_fault((b + 1) as nat, self.bundle_configs@.len());
                    }
                    return Err(f);
                },
                Ok(()) => {},
            }
        }
        Ok(())
    }

    /// Do the codes of a bundle lead to the round it joins at?
    fn validate_bundle(&self, b: usize) -> (r: Result<(), BatchedFault>)
        requires
            b < self.bundle_configs@.len(),
        ensures
            r == structure_outcome(self.bundle_fault(b as int)),
    {
        let cfg: &BundleConfig = &self.bundle_configs[b];
        let round: usize = match cfg.join_round {
            None => {
                return Err(BatchedFault::BundleJoinsAtBasecase { bundle: b });
            },
            Some(r) => r,
        };
        let n: usize = cfg.pre_merge_rounds.len();
        if n == 0 {
            return if self.join_source_matches(round, &cfg.irs_config) {
                Ok(())
            } else {
                Err(BatchedFault::JoinSourceMismatch { bundle: b, round })
            };
        }
        let first: &irs_commit::Config = &cfg.pre_merge_rounds[0].code_switch.config.source;
        if !irs_shape_matches(&cfg.irs_config, first) {
            return Err(BatchedFault::FirstPreMergeMismatch { bundle: b });
        }
        for k in 0..n
            invariant
                b < self.bundle_configs@.len(),
                *cfg == self.bundle_configs@[b as int],
                n == cfg.pre_merge_rounds@.len(),
                cfg.join_round == Some(round),
                same_shape(&cfg.irs_config, &cfg.pre_merge_rounds@[0].cs().source),
                self.first_pre_merge_fault(b as int, k as nat) is None,
        {
            if k > 0 {
                let target: &irs_commit::Config = &cfg.pre_merge_rounds[k - 1].code_switch.config.target;
                let source: &irs_commit::Config = &cfg.pre_merge_rounds[k].code_switch.config.source;
                if !irs_shape_matches(target, source) {
                    proof {
                        self.lemma_pre_merge_fault(b as int, (k + 1) as nat, n as nat);
                    }
                    return Err(BatchedFault::PreMergeChainBroken { bundle: b, round: k - 1 });
                }
            }
        }
        let last: &irs_commit::Config = &cfg.pre_merge_rounds[n - 1].code_switch.config.target;
        if !self.join_source_matches(round, last) {
            return Err(BatchedFault::LastPreMergeMismatch { bundle: b, round });
        }
        Ok(())
    }

    /// Does every slot reach the target when the bundles have the given numbers of
    /// claims?
    pub fn validate_security_target_met_for_claims(
        &self,
        bundle_claim_counts: &[usize],
        floors: &BatchedFloors,
    ) -> (r: Result<(), DeriveError>)
        requires
            self.floors_fit(*floors),
            floors.claims@.len() == self.bundle_configs@.len(),
        ensures
            r == outcome(self.claims_fault(bundle_claim_counts@, *floors)),
    {
        match self.inner.validate_security_target_met(&floors.inner) {
            Err(e) => {
                return Err(e);
            },
            Ok(()) => {},
        }
        match self.validate_selector_security_target_met(floors) {
            Err(e) => {
                return Err(e);
            },
            Ok(()) => {},
        }
        let n: usize = self.bundle_configs.len();
        if bundle_claim_counts.len() != n {
            return Err(
                DeriveError::BatchedUnsupported {
                    reason: BatchedFault::ClaimCountMismatch {
                        counts: bundle_claim_counts.len(),
                        configured: n,
                    },
                },
            );
        }
        let ghost counts = bundle_claim_counts@;
        for index in 0..n
            invariant
                n == counts.len(),
                counts == bundle_claim_counts@,
                n == floors.claims@.len(),
                n == self.bundle_configs@.len(),
                self.inner.target_fault(floors.inner) is None,
                self.first_selector_fault(
                    floors.selectors@,
                    self.schedule.joins@.len(),
                ) is None,
                self.first_claims_fault(counts, floors.claims@, index as nat) is None,
        {
            if bundle_claim_counts[index] > 1 {
                match validate_batched_soundness_slot(
                    &self.inner.security,
                    Pow::BatchedIntraBundleRlc { index },
                    floors.claims[index],
                    proof_of_work::Config::none(),
                ) {
                    Err(e) => {
                        proof {
                            self.lemma_claims_fault(
                                counts,
                                floors.claims@,
                                (index + 1) as nat,
                                n as nat,
                            );
                        }
                        return Err(e);
                    },
                    Ok(()) => {},
                }
            }
        }
        Ok(())
    }

    /// Does every selector that draws challenges reach the target?
    fn validate_selector_security_target_met(&self, floors: &BatchedFloors) -> (r: Result<
        (),
        DeriveError,
    >)
        requires
            floors.selectors@.len() == self.schedule.joins@.len(),
        ensures
            r == outcome(
                self.first_selector_fault(floors.selectors@, self.schedule.joins@.len()),
            ),
    {
        for index in 0..self.schedule.joins.len()
            invariant
                floors.selectors@.len() == self.schedule.joins@.len(),
                self.first_selector_fault(floors.selectors@, index as nat) is None,
        {
            let join: &RoundJoin = &self.schedule.joins[index];
            if join.selector.selector_dim() != 0 {
                match validate_batched_soundness_slot(
                    &self.inner.security,
                    Pow::BatchedSelectorMerge { index },
                    floors.selectors[index],
                    join.selector.selector.sumcheck.round_pow,
                ) {
                    Err(e) => {
                        proof {
                            self.lemma_selector_fault(
                                floors.selectors@,
                                (index + 1) as nat,
                                self.schedule.joins@.len(),
                            );
                        }
                        return Err(e);
                    },
                    Ok(()) => {},
                }
            }
        }
        Ok(())
    }

    proof fn lemma_join_fault(&self, j: nat, k: nat)
        requires
            j <= k,
            self.first_join_fault(j) is Some,
        ensures
            self.first_join_fault(k) == self.first_join_fault(j),
        decreases k,
    {
        if j < k {
            self.lemma_join_fault(j, (k - 1) as nat);
        }
    }

    proof fn lemma_index_fault(&self, at: int, j: nat, k: nat)
        requires
            j <= k,
            self.first_index_fault(at, j) is Some,
        ensures
            self.first_index_fault(at, k) == self.first_index_fault(at, j),
        decreases k,
    {
        if j < k {
            self.lemma_index_fault(at, j, (k - 1) as nat);
        }
    }

    proof fn lemma_bundle_fault(&self, j: nat, k: nat)
        requires
            j <= k,
            self.first_bundle_fault(j) is Some,
        ensures
            self.first_bundle_fault(k) == self.first_bundle_fault(j),
        decreases k,
    {
        if j < k {
            self.lemma_bundle_fault(j, (k - 1) as nat);
        }
    }

    proof fn lemma_pre_merge_fault(&self, b: int, j: nat, k: nat)
        requires
            j <= k,
            self.first_pre_merge_fault(b, j) is Some,
        ensures
            self.first_pre_merge_fault(b, k) == self.first_pre_merge_fault(b, j),
        decreases k,
    {
        if j < k {
            self.lemma_pre_merge_fault(b, j, (k - 1) as nat);
        }
    }

    proof fn lemma_selector_fault(&self, floors: Seq<Bits>, j: nat, k: nat)
        requires
            j <= k,
            self.first_selector_fault(floors, j) is Some,
        ensures
            self.first_selector_fault(floors, k) == self.first_selector_fault(floors, j),
        decreases k,
    {
        if j < k {
            self.lemma_selector_fault(floors, j, (k - 1) as nat);
        }
    }

    proof fn lemma_claims_fault(&self, counts: Seq<usize>, floors: Seq<Bits>, j: nat, k: nat)
        requires
            j <= k,
            self.first_claims_fault(counts, floors, j) is Some,
        ensures
            self.first_claims_fault(counts, floors, k) == self.first_claims_fault(counts, floors, j),
        decreases k,
    {
        if j < k {
            self.lemma_claims_fault(counts, floors, j, (k - 1) as nat);
        }
    }
}

proof fn lemma_spec_fault(declared: Seq<BundleSpec>, configs: Seq<BundleConfig>, j: nat, k: nat)
    requires
        j <= k,
        first_spec_fault(declared, configs, j) is Some,
    ensures
        first_spec_fault(declared, configs, k) == first_spec_fault(declared, configs, j),
    decreases k,
{
    if j < k {
        lemma_spec_fault(declared, configs, j, (k - 1) as nat);
    }
}

impl BatchedProtocolConfig {
    /// The shared rounds.
    pub fn inner(&self) -> (r: &ProtocolConfig)
        ensures
            *r == self.inner,
    {
        &self.inner
    }

    /// When the bundles join.
    pub fn schedule(&self) -> (r: &MergeSchedule)
        ensures
            *r == self.schedule,
    {
        &self.schedule
    }

    /// The bundles, in the order they were declared.
    pub fn bundle_configs(&self) -> (r: &[BundleConfig])
        ensures
            r@ == self.bundle_configs@,
    {
        self.bundle_configs.as_slice()
    }

    /// What was asked for.
    pub fn tuning(&self) -> (r: &BatchedTuningSpec)
        ensures
            *r == self.tuning,
    {
        &self.tuning
    }
}

} // verus!
