//! What the checks of a batched configuration establish.

use crate::irs_commit;
use crate::irs_laws::same_shape;
use crate::params::batched::config::{
    find_join, first_spec_fault, join_size, seen, BatchedProtocolConfig, BundleConfig, RoundJoin,
};
use crate::params::batched::spec::BundleSpec;
use crate::zook::prove::code_after;
use vstd::prelude::*;

verus! {

impl BatchedProtocolConfig {
    /// Is a join at a round of its own, after the ones before it, with a selector for
    /// its blocks?
    pub open spec fn join_ok(&self, j: int) -> bool {
        let joins = self.schedule.joins@;
        let join = joins[j];
        let rounds = self.inner.rounds@;
        &&& join.round_index is Some
        &&& self.join_round(j) < rounds.len()
        &&& j == 0 ==> self.join_round(j) == 0
        &&& j > 0 ==> self.join_round(j - 1) < self.join_round(j)
        &&& join.bundle_indices@.len() > 0
        &&& join.t == join_size(joins, j)
        &&& join.selector.t == join.t
        &&& join.selector.selector.message_length == rounds[self.join_round(
            j,
        ) as int].cs().source.vector_size
    }

    /// Does a bundle of a join exist, join here only, and know it?
    pub open spec fn index_ok(&self, j: int, m: int) -> bool {
        let b = self.schedule.joins@[j].bundle_indices@[m];
        &&& b < self.bundle_configs@.len()
        &&& !seen(self.schedule.joins@, j as nat, m as nat, b as int)
        &&& self.bundle_configs@[b as int].join_round == Some(self.join_round(j))
    }

    /// Do the codes of a bundle lead to the round it joins at?
    pub open spec fn bundle_ok(&self, b: int) -> bool {
        let cfg = self.bundle_configs@[b];
        let rounds = cfg.pre_merge_rounds@;
        &&& cfg.join_round is Some
        &&& cfg.join_round.unwrap() < self.inner.rounds@.len()
        &&& rounds.len() > 0 ==> same_shape(&cfg.irs_config, &rounds[0].cs().source)
        &&& forall|k: int|
            0 < k < rounds.len() ==> same_shape(
                &rounds[k - 1].cs().target,
                &(#[trigger] rounds[k]).cs().source,
            )
        &&& same_shape(
            &code_after(rounds, cfg.irs_config, rounds.len()),
            &self.inner.rounds@[cfg.join_round.unwrap() as int].cs().source,
        )
    }

    /// Is every bundle configured as declared, in exactly one join, and led to it by its
    /// codes?
    #[verifier::opaque]
    pub open spec fn well_placed(&self) -> bool {
        let n = self.bundle_configs@.len();
        let joins = self.schedule.joins@;
        &&& n > 0
        &&& self.tuning.bundles@.len() == n
        &&& forall|b: int|
            0 <= b < n ==> self.tuning.bundles@[b] == (#[trigger] self.bundle_configs@[b]).spec
        &&& joins.len() > 0
        &&& forall|j: int| 0 <= j < joins.len() ==> #[trigger] self.join_ok(j)
        &&& forall|j: int, m: int|
            0 <= j < joins.len() && 0 <= m < joins[j].bundle_indices@.len()
                ==> #[trigger] self.index_ok(j, m)
        &&& self.all_join()
        &&& forall|b: int| 0 <= b < n ==> #[trigger] self.bundle_ok(b)
    }
}

impl BatchedProtocolConfig {
    /// Are the rounds of a bundle well formed, and is it committed to at its full size?
    pub open spec fn bundle_wf(&self, b: int) -> bool {
        let cfg = self.bundle_configs@[b];
        &&& cfg.irs_config.wf()
        &&& cfg.irs_config.vector_size == cfg.spec.num_polys * cfg.spec.length
        &&& forall|k: int|
            0 <= k < cfg.pre_merge_rounds@.len() ==> (#[trigger] cfg.pre_merge_rounds@[k]).wf()
    }

    /// Are all parts well formed, and do they fit together?
    pub open spec fn wf(&self) -> bool {
        &&& self.inner.wf()
        &&& self.structure_fault() is None
        &&& forall|j: int|
            0 <= j < self.schedule.joins@.len() ==> (#[trigger] self.schedule.joins@[j]).selector.wf()
        &&& forall|b: int| 0 <= b < self.bundle_configs@.len() ==> #[trigger] self.bundle_wf(b)
    }

    /// The code of a bundle when it joins.
    pub open spec fn code_at_join(&self, b: int) -> irs_commit::Config {
        let cfg = self.bundle_configs@[b];
        code_after(cfg.pre_merge_rounds@, cfg.irs_config, cfg.pre_merge_rounds@.len())
    }
}

impl BatchedProtocolConfig {
    /// Every join is in order.
    pub proof fn lemma_join_ok(&self, j: int)
        requires
            self.well_placed(),
            0 <= j < self.schedule.joins@.len(),
        ensures
            self.join_ok(j),
    {
        reveal(BatchedProtocolConfig::well_placed);
    }

    /// Every bundle of a join is in place.
    pub proof fn lemma_index_ok(&self, j: int, m: int)
        requires
            self.well_placed(),
            0 <= j < self.schedule.joins@.len(),
            0 <= m < self.schedule.joins@[j].bundle_indices@.len(),
        ensures
            self.index_ok(j, m),
    {
        reveal(BatchedProtocolConfig::well_placed);
    }

    /// The codes of every bundle lead to its join.
    pub proof fn lemma_bundle_ok(&self, b: int)
        requires
            self.well_placed(),
            0 <= b < self.bundle_configs@.len(),
        ensures
            self.bundle_ok(b),
    {
        reveal(BatchedProtocolConfig::well_placed);
    }

    /// There is a bundle and a join, and every bundle joins.
    pub proof fn lemma_all_join(&self)
        requires
            self.well_placed(),
        ensures
            self.bundle_configs@.len() > 0,
            self.schedule.joins@.len() > 0,
            self.all_join(),
    {
        reveal(BatchedProtocolConfig::well_placed);
    }
}

/// How many of the first `k` joins come before a round.
pub open spec fn joins_before(joins: Seq<RoundJoin>, round: nat, k: nat) -> nat
    decreases k,
{
    if k == 0 {
        0
    } else {
        joins_before(joins, round, (k - 1) as nat) + (if joins[k - 1].round_index.unwrap() < round {
            1nat
        } else {
            0nat
        })
    }
}

/// The joins before a round come first; the next one is the only one that can be at
/// it.
pub proof fn lemma_joins_before(cfg: &BatchedProtocolConfig, round: nat, k: nat)
    requires
        cfg.well_placed(),
        k <= cfg.schedule.joins@.len(),
        round <= usize::MAX,
    ensures
        ({
            let joins = cfg.schedule.joins@;
            let c = joins_before(joins, round, k);
            &&& c <= k
            &&& forall|j: int| 0 <= j < c ==> (#[trigger] joins[j]).round_index.unwrap() < round
            &&& forall|j: int| c <= j < k ==> (#[trigger] joins[j]).round_index.unwrap() >= round
            &&& find_join(joins, Some(round as usize), k) == (if c < k
                && joins[c as int].round_index.unwrap() == round {
                Some(c as int)
            } else {
                None
            })
            &&& k > 0 && round > 0 ==> c > 0
        }),
    decreases k,
{
    let joins = cfg.schedule.joins@;
    if k > 0 {
        let m = (k - 1) as nat;
        lemma_joins_before(cfg, round, m);
        assert(cfg.join_ok(m as int)) by {
            cfg.lemma_join_ok(m as int);
        }
        if m > 0 {
            assert(cfg.join_ok(m - 1)) by {
                cfg.lemma_join_ok(m - 1);
            }
        }
        lemma_rounds_increase(cfg, joins_before(joins, round, m) as int, m as int);
    }
}

/// Later joins are at later rounds.
pub proof fn lemma_rounds_increase(cfg: &BatchedProtocolConfig, i: int, j: int)
    requires
        cfg.well_placed(),
        0 <= i <= j < cfg.schedule.joins@.len(),
    ensures
        i < j ==> cfg.join_round(i) < cfg.join_round(j),
    decreases j - i,
{
    if i < j {
        assert(cfg.join_ok(j)) by {
            cfg.lemma_join_ok(j);
        }
        lemma_rounds_increase(cfg, i, j - 1);
    }
}

/// The checks of the structure pass exactly if every bundle is configured as declared,
/// stands in exactly one join, the joins are in order, and the codes fit.
pub proof fn law_structure_accepted(cfg: &BatchedProtocolConfig)
    ensures
        cfg.structure_fault() is None <==> cfg.well_placed(),
{
    reveal(BatchedProtocolConfig::structure_fault);
    reveal(BatchedProtocolConfig::well_placed);
    let n = cfg.bundle_configs@.len();
    let joins = cfg.schedule.joins@;
    if n > 0 && cfg.tuning.bundles@.len() == n {
        lemma_specs(cfg.tuning.bundles@, cfg.bundle_configs@, n);
        lemma_bundles(cfg, n);
        lemma_no_basecase_join(joins, joins.len());
        lemma_joins(cfg, joins.len());
        if cfg.well_placed() {
            assert forall|j: int| 0 <= j < joins.len() implies (
            #[trigger] joins[j]).round_index is Some by {
                assert(cfg.join_ok(j)) by {
                    cfg.lemma_join_ok(j);
                }
            }
        }
        assert(cfg.structure_fault() is None <==> {
            &&& first_spec_fault(cfg.tuning.bundles@, cfg.bundle_configs@, n) is None
            &&& joins.len() > 0
            &&& find_join(joins, None, joins.len()) is None
            &&& cfg.first_join_fault(joins.len()) is None
            &&& cfg.all_join()
            &&& cfg.first_bundle_fault(n) is None
        });
    }
}

proof fn lemma_specs(declared: Seq<BundleSpec>, configs: Seq<BundleConfig>, k: nat)
    requires
        k <= declared.len(),
        k <= configs.len(),
    ensures
        first_spec_fault(declared, configs, k) is None <==> forall|b: int|
            0 <= b < k ==> declared[b] == (#[trigger] configs[b]).spec,
    decreases k,
{
    if k > 0 {
        lemma_specs(declared, configs, (k - 1) as nat);
    }
}

proof fn lemma_no_basecase_join(joins: Seq<RoundJoin>, k: nat)
    requires
        k <= joins.len(),
    ensures
        find_join(joins, None, k) is None <==> forall|j: int|
            0 <= j < k ==> (#[trigger] joins[j]).round_index is Some,
    decreases k,
{
    if k > 0 {
        lemma_no_basecase_join(joins, (k - 1) as nat);
    }
}

proof fn lemma_indices(cfg: &BatchedProtocolConfig, j: int, k: nat)
    ensures
        cfg.first_index_fault(j, k) is None <==> forall|m: int| 0 <= m < k ==> #[trigger] cfg.index_ok(j, m),
    decreases k,
{
    if k > 0 {
        lemma_indices(cfg, j, (k - 1) as nat);
        assert(cfg.index_fault(j, k - 1) is None <==> cfg.index_ok(j, k - 1));
    }
}

proof fn lemma_joins(cfg: &BatchedProtocolConfig, k: nat)
    requires
        k <= cfg.schedule.joins@.len(),
    ensures
        cfg.first_join_fault(k) is None <==> {
            &&& forall|j: int| 0 <= j < k ==> #[trigger] cfg.join_ok(j)
            &&& forall|j: int, m: int|
                0 <= j < k && 0 <= m < cfg.schedule.joins@[j].bundle_indices@.len()
                    ==> #[trigger] cfg.index_ok(j, m)
        },
    decreases k,
{
    if k > 0 {
        let i = k - 1;
        lemma_joins(cfg, i as nat);
        let count = cfg.schedule.joins@[i].bundle_indices@.len();
        lemma_indices(cfg, i, count);
        assert(cfg.join_fault(i) is None <==> cfg.join_ok(i));
        if cfg.first_join_fault(k) is None {
            assert forall|j: int, m: int|
                0 <= j < k && 0 <= m < cfg.schedule.joins@[j].bundle_indices@.len() implies
                #[trigger] cfg.index_ok(j, m) by {}
        }
    }
}

#[verifier::rlimit(40)]
proof fn lemma_pre_merge(cfg: &BatchedProtocolConfig, b: int, k: nat)
    requires
        k <= cfg.bundle_configs@[b].pre_merge_rounds@.len(),
    ensures
        cfg.first_pre_merge_fault(b, k) is None <==> forall|i: int|
            0 < i < k ==> same_shape(
                &cfg.bundle_configs@[b].pre_merge_rounds@[i - 1].cs().target,
                &(#[trigger] cfg.bundle_configs@[b].pre_merge_rounds@[i]).cs().source,
            ),
    decreases k,
{
    if k > 1 {
        lemma_pre_merge(cfg, b, (k - 1) as nat);
        let rounds = cfg.bundle_configs@[b].pre_merge_rounds@;
        assert(rounds[k - 1].cs().source == rounds[k - 1].cs().source);
    }
}

#[verifier::rlimit(40)]
proof fn lemma_bundles(cfg: &BatchedProtocolConfig, k: nat)
    requires
        k <= cfg.bundle_configs@.len(),
    ensures
        cfg.first_bundle_fault(k) is None <==> forall|b: int| 0 <= b < k ==> #[trigger] cfg.bundle_ok(b),
    decreases k,
{
    if k > 0 {
        lemma_bundles(cfg, (k - 1) as nat);
        lemma_pre_merge(cfg, k - 1, cfg.bundle_configs@[k - 1].pre_merge_rounds@.len());
        assert(cfg.bundle_fault(k - 1) is None <==> cfg.bundle_ok(k - 1));
    }
}

} // verus!
