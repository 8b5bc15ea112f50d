//! What the checks of a batched plan mean: every bundle joins exactly once, all slots
//! reach the target, and bundles of different sizes come to one.

use crate::arith::{ceil_log2_spec, is_pow2, lemma_ceil_log2, lemma_pow2_sum};
use crate::bits::Bits;
use crate::params::batched::config::{
    find_join, joined_count, seen, soundness_fault, BatchedFloors, BatchedProtocolConfig, RoundJoin,
};
use crate::params::batched::place::lemma_sizes_agree;
use crate::params::batched::placement::{
    all_folds, first_point_fault, join_work, merge_plan_fault, point_size, post_length,
    shape_before,
};
use crate::params::batched::pre_merge::{
    equal_sizes, first_small, fold_total, log_length, max_log, plan_fault, planned_folds,
};
use crate::params::batched::spec::{law_inputs_accepted, BatchedTuningSpec, BundleSpec};
use crate::params::batched::structure_laws::law_structure_accepted;
use crate::params::error::{DeriveError, Pow};
use crate::params::layout::RoundSlot;
use crate::params::level_laws::{
    law_slot_is_ground, law_slot_is_refused_only_if_unreachable, reachable,
};
use crate::params::spec::SecuritySpec;
use crate::proof_of_work;
use vstd::arithmetic::power2::{lemma_pow2_pos, pow2};
use vstd::prelude::*;

verus! {

/// The join that is found is at the given place, and none before it is; if none is found,
/// none is there.
pub proof fn law_join_is_found(joins: Seq<RoundJoin>, at: Option<usize>, k: nat)
    requires
        k <= joins.len(),
    ensures
        match find_join(joins, at, k) {
            Some(j) => 0 <= j < k && joins[j].round_index == at && forall|i: int|
                0 <= i < j ==> (#[trigger] joins[i]).round_index != at,
            None => forall|i: int| 0 <= i < k ==> (#[trigger] joins[i]).round_index != at,
        },
    decreases k,
{
    if k > 0 {
        law_join_is_found(joins, at, (k - 1) as nat);
    }
}

proof fn lemma_seen_place(joins: Seq<RoundJoin>, j: nat, m: nat, b: int) -> (at: (int, int))
    requires
        seen(joins, j, m, b),
        j < joins.len() || m == 0,
        m > 0 ==> m <= joins[j as int].bundle_indices@.len(),
        j <= joins.len(),
    ensures
        0 <= at.0 < joins.len(),
        0 <= at.1 < joins[at.0].bundle_indices@.len(),
        joins[at.0].bundle_indices@[at.1] == b,
    decreases j, m,
{
    if m > 0 {
        if joins[j as int].bundle_indices@[m - 1] == b {
            (j as int, m - 1)
        } else {
            lemma_seen_place(joins, j, (m - 1) as nat, b)
        }
    } else {
        lemma_seen_place(joins, (j - 1) as nat, joins[j - 1].bundle_indices@.len(), b)
    }
}

proof fn lemma_place_seen(joins: Seq<RoundJoin>, i: int, l: int, j: nat, m: nat)
    requires
        0 <= i < joins.len(),
        0 <= l < joins[i].bundle_indices@.len(),
        i < j || (i == j && l < m),
    ensures
        seen(joins, j, m, joins[i].bundle_indices@[l] as int),
    decreases j, m,
{
    if m > 0 {
        if !(i == j && l == m - 1) {
            lemma_place_seen(joins, i, l, j, (m - 1) as nat);
        }
    } else {
        lemma_place_seen(joins, i, l, (j - 1) as nat, joins[j - 1].bundle_indices@.len());
    }
}

/// Does bundle `b` stand at place `m` of join `j`?
pub open spec fn stands_at(cfg: &BatchedProtocolConfig, b: int, j: int, m: int) -> bool {
    &&& 0 <= j < cfg.schedule.joins@.len()
    &&& 0 <= m < cfg.schedule.joins@[j].bundle_indices@.len()
    &&& cfg.schedule.joins@[j].bundle_indices@[m] == b
}

/// In a plan that is accepted every bundle stands in one place of one join and in no
/// other, and joins at that join's round.
pub proof fn law_every_bundle_joins_once(cfg: &BatchedProtocolConfig, b: int)
    requires
        cfg.structure_fault() is None,
        0 <= b < cfg.bundle_configs@.len(),
    ensures
        exists|j: int, m: int| stands_at(cfg, b, j, m),
        forall|j: int, m: int, i: int, l: int|
            #[trigger] stands_at(cfg, b, j, m) && #[trigger] stands_at(cfg, b, i, l) ==> i == j && l
                == m,
        forall|j: int, m: int| #[trigger]
            stands_at(cfg, b, j, m) ==> cfg.bundle_configs@[b].join_round
                == cfg.schedule.joins@[j].round_index,
{
    law_structure_accepted(cfg);
    let joins = cfg.schedule.joins@;
    assert(seen(joins, joins.len(), 0, b)) by {
        reveal(BatchedProtocolConfig::well_placed);
    }
    let at = lemma_seen_place(joins, joins.len(), 0, b);
    assert(stands_at(cfg, b, at.0, at.1));
    assert forall|j: int, m: int, i: int, l: int|
        #[trigger] stands_at(cfg, b, j, m) && #[trigger] stands_at(cfg, b, i, l) implies i == j && l
        == m by {
        cfg.lemma_index_ok(j, m);
        cfg.lemma_index_ok(i, l);
        if i < j || (i == j && l < m) {
            lemma_place_seen(joins, i, l, j as nat, m as nat);
        } else if j < i || (i == j && m < l) {
            lemma_place_seen(joins, j, m, i as nat, l as nat);
        }
    }
    assert forall|j: int, m: int| #[trigger]
        stands_at(cfg, b, j, m) implies cfg.bundle_configs@[b].join_round
        == cfg.schedule.joins@[j].round_index by {
        cfg.lemma_index_ok(j, m);
        cfg.lemma_join_ok(j);
    }
}

/// In a plan that is accepted the first join is before the first shared round and every
/// other after the one before it; a join takes its bundles, and what was merged before if
/// it is not the first, and its selector is for as many blocks of the round's size.
pub proof fn law_joins_are_in_order(cfg: &BatchedProtocolConfig, j: int)
    requires
        cfg.structure_fault() is None,
        0 <= j < cfg.schedule.joins@.len(),
    ensures
        ({
            let join = cfg.schedule.joins@[j];
            let n = join.bundle_indices@.len();
            &&& n > 0
            &&& join.round_index matches Some(round) && {
                &&& round < cfg.inner.rounds@.len()
                &&& j == 0 ==> round == 0 && join.t == n
                &&& j > 0 ==> {
                    &&& join.t == n + 1
                    &&& cfg.schedule.joins@[j - 1].round_index matches Some(before)
                    &&& before < round
                }
                &&& join.selector.selector.message_length
                    == cfg.inner.rounds@[round as int].cs().source.vector_size
            }
            &&& join.selector.t == join.t
        }),
{
    law_structure_accepted(cfg);
    cfg.lemma_join_ok(j);
    if j > 0 {
        cfg.lemma_join_ok(j - 1);
    }
}

/// Is a slot within the budget, and does it reach the target but for a thousandth of a
/// bit?
pub open spec fn reaches_target(spec: SecuritySpec, floor: Bits, pow: proof_of_work::Config) -> bool {
    &&& pow.bits <= spec.pow_budget.spec_bits()
    &&& floor.micro + 1_000_000 * pow.bits + 1_000 >= 1_000_000 * spec.target_security_bits
}

proof fn lemma_reaches(spec: SecuritySpec, pow: Pow, floor: Bits, slot: proof_of_work::Config)
    ensures
        soundness_fault(spec, pow, floor, slot) is None <==> reaches_target(spec, floor, slot),
{
    assert(Bits::spec_whole(slot.bits).micro == 1_000_000 * slot.bits);
    assert(Bits::spec_whole(spec.target_security_bits).micro == 1_000_000
        * spec.target_security_bits);
}

proof fn lemma_selectors(cfg: &BatchedProtocolConfig, floors: Seq<Bits>, k: nat)
    ensures
        cfg.first_selector_fault(floors, k) is None <==> forall|j: int|
            0 <= j < k && (#[trigger] cfg.schedule.joins@[j]).selector.selector.selector_dim > 0
                ==> reaches_target(
                cfg.inner.security,
                floors[j],
                cfg.schedule.joins@[j].selector.selector.sumcheck.round_pow,
            ),
    decreases k,
{
    if k > 0 {
        let m = (k - 1) as nat;
        lemma_selectors(cfg, floors, m);
        lemma_reaches(
            cfg.inner.security,
            Pow::BatchedSelectorMerge { index: m as usize },
            floors[m as int],
            cfg.schedule.joins@[m as int].selector.selector.sumcheck.round_pow,
        );
    }
}

/// A batched plan is accepted exactly if its shared rounds are, its structure is, and
/// every join that has to choose between blocks reaches the target.
pub proof fn law_accepted_batch_is_secure(cfg: &BatchedProtocolConfig, floors: BatchedFloors)
    ensures
        cfg.static_fault(floors) is None <==> {
            &&& cfg.inner.fault(floors.inner) is None
            &&& cfg.structure_fault() is None
            &&& forall|j: int|
                0 <= j < cfg.schedule.joins@.len() && (
                #[trigger] cfg.schedule.joins@[j]).selector.selector.selector_dim > 0
                    ==> reaches_target(
                    cfg.inner.security,
                    floors.selectors@[j],
                    cfg.schedule.joins@[j].selector.selector.sumcheck.round_pow,
                )
        },
{
    lemma_selectors(cfg, floors.selectors@, cfg.schedule.joins@.len());
}

proof fn lemma_claims(cfg: &BatchedProtocolConfig, counts: Seq<usize>, floors: Seq<Bits>, k: nat)
    ensures
        cfg.first_claims_fault(counts, floors, k) is None <==> forall|b: int|
            0 <= b < k && #[trigger] counts[b] > 1 ==> floors[b].micro + 1_000 >= 1_000_000
                * cfg.inner.security.target_security_bits,
    decreases k,
{
    if k > 0 {
        let m = (k - 1) as nat;
        lemma_claims(cfg, counts, floors, m);
        lemma_reaches(
            cfg.inner.security,
            Pow::BatchedIntraBundleRlc { index: m as usize },
            floors[m as int],
            proof_of_work::Config::spec_none(),
        );
    }
}

/// Claims are accepted exactly if the plan reaches the target, there is a number of claims
/// for every bundle, and the floor of every bundle with more than one claim reaches the
/// target without work.
pub proof fn law_accepted_claims_are_secure(
    cfg: &BatchedProtocolConfig,
    counts: Seq<usize>,
    floors: BatchedFloors,
)
    ensures
        cfg.claims_fault(counts, floors) is None <==> {
            &&& cfg.inner.target_fault(floors.inner) is None
            &&& forall|j: int|
                0 <= j < cfg.schedule.joins@.len() && (
                #[trigger] cfg.schedule.joins@[j]).selector.selector.selector_dim > 0
                    ==> reaches_target(
                    cfg.inner.security,
                    floors.selectors@[j],
                    cfg.schedule.joins@[j].selector.selector.sumcheck.round_pow,
                )
            &&& counts.len() == cfg.bundle_configs@.len()
            &&& forall|b: int|
                0 <= b < counts.len() && #[trigger] counts[b] > 1 ==> floors.claims@[b].micro + 1_000
                    >= 1_000_000 * cfg.inner.security.target_security_bits
        },
{
    lemma_selectors(cfg, floors.selectors@, cfg.schedule.joins@.len());
    lemma_claims(cfg, counts, floors.claims@, counts.len());
}

proof fn lemma_max_log(lengths: Seq<usize>, k: nat, i: int)
    requires
        0 <= i < k <= lengths.len(),
    ensures
        log_length(lengths, i) <= max_log(lengths, k),
        exists|j: int| 0 <= j < k && #[trigger] log_length(lengths, j) == max_log(lengths, k),
        max_log(lengths, k) <= 64,
    decreases k,
{
    crate::arith::lemma_exponent_small(lengths[k - 1]);
    if k > 1 {
        let m = (k - 1) as nat;
        lemma_max_log(lengths, m, if i < m {
            i
        } else {
            0
        });
        let j = choose|j: int| 0 <= j < m && #[trigger] log_length(lengths, j) == max_log(lengths, m);
        assert(log_length(lengths, j) == max_log(lengths, m));
        assert(log_length(lengths, m as int) == log_length(lengths, m as int));
    } else {
        assert(log_length(lengths, 0) == max_log(lengths, 1)) by {
            assert(max_log(lengths, 0) == 0);
        }
    }
}

proof fn lemma_small_none(lengths: Seq<usize>, max_fold: usize, k: nat, i: int)
    requires
        first_small(lengths, max_fold, k) is None,
        0 <= i < k,
    ensures
        log_length(lengths, i) + max_fold >= max_log(lengths, lengths.len()),
    decreases k,
{
    if i < k - 1 {
        lemma_small_none(lengths, max_fold, (k - 1) as nat, i);
    }
}

/// Where the bundles differ in size, the largest one is folded as far as is allowed, and
/// every other one to the same size; where they do not, none is folded.
pub proof fn law_largest_is_folded_fully(lengths: Seq<usize>, max_fold: usize, i: int, j: int)
    requires
        plan_fault(lengths, max_fold) is None,
        0 <= i < lengths.len(),
        0 <= j < lengths.len(),
        forall|l: int|
            0 <= l < lengths.len() ==> #[trigger] log_length(lengths, l) <= log_length(lengths, j),
    ensures
        ({
            let (a, b) = (log_length(lengths, i) as int, log_length(lengths, j) as int);
            let most = if b < max_fold {
                b
            } else {
                max_fold as int
            };
            let fold = fold_total(planned_folds(lengths, max_fold, i));
            &&& (exists|l: int|
                0 <= l < lengths.len() && #[trigger] log_length(lengths, l) != b) ==> a - fold == b
                - most
            &&& (forall|l: int|
                0 <= l < lengths.len() ==> #[trigger] log_length(lengths, l) == b) ==> fold == 0
        }),
{
    let n = lengths.len();
    lemma_max_log(lengths, n, j);
    lemma_max_log(lengths, n, i);
    let top = choose|l: int| 0 <= l < n && #[trigger] log_length(lengths, l) == max_log(lengths, n);
    assert(log_length(lengths, top) <= log_length(lengths, j));
    assert(log_length(lengths, j) == max_log(lengths, n));
    reveal_with_fuel(fold_total, 2);
    if equal_sizes(lengths) {
        assert(log_length(lengths, i) == max_log(lengths, n));
    } else {
        lemma_small_none(lengths, max_fold, n, i);
        let gap = log_length(lengths, i)
            - crate::params::batched::pre_merge::merge_log(lengths, max_fold);
        if gap != 0 {
            assert(seq![gap as usize].drop_last() =~= Seq::<usize>::empty());
        }
    }
}

proof fn lemma_points(tuning: BatchedTuningSpec, fold: usize, k: nat, i: int)
    requires
        first_point_fault(
            tuning.bundles@,
            tuning.bundles@[0].num_polys,
            all_folds(tuning.bundles@, fold),
            k,
        ) is None,
        0 <= i < k,
    ensures
        fold_total(all_folds(tuning.bundles@, fold)[i]) <= ceil_log2_spec(
            tuning.bundles@[i].length as nat,
        ),
    decreases k,
{
    if i < k - 1 {
        lemma_points(tuning, fold, (k - 1) as nat, i);
    }
}

/// A merge plan brings every bundle to the same size: that size, unfolded as often as the
/// bundle is folded, is the size of all its polynomials together.
pub proof fn law_merge_plan_keeps_sizes(tuning: BatchedTuningSpec, i: int)
    requires
        merge_plan_fault(tuning) is None,
        0 <= i < tuning.bundles@.len(),
    ensures
        tuning.folding_factor is Constant,
        ({
            let bundles = tuning.bundles@;
            let folds = all_folds(bundles, tuning.folding_factor->Constant_0);
            let size = point_size(bundles, bundles[0].num_polys, folds, 0);
            &&& bundles[i].num_polys == bundles[0].num_polys
            &&& size * pow2(fold_total(folds[i])) == bundles[i].num_polys * bundles[i].length
        }),
{
    let bundles = tuning.bundles@;
    let fold = tuning.folding_factor->Constant_0;
    let folds = all_folds(bundles, fold);
    let polys = bundles[0].num_polys;
    law_inputs_accepted(bundles);
    assert(is_pow2(bundles[i].length as nat));
    lemma_points(tuning, fold, bundles.len(), i);
    lemma_sizes_agree(bundles, polys, folds, i, bundles.len());
    let e = ceil_log2_spec(bundles[i].length as nat);
    let f = fold_total(folds[i]);
    lemma_pow2_sum((e - f) as nat, f);
    lemma_pow2_pos(f);
    let (l, d, q) = (bundles[i].length as int, pow2(f) as int, pow2((e - f) as nat) as int);
    vstd::arithmetic::div_mod::lemma_fundamental_div_mod_converse(l, d, q, 0);
    assert(post_length(bundles[i].length, folds[i]) == q);
    assert((polys * q) * d == polys * l) by (nonlinear_arith)
        requires
            l == q * d,
    ;
}

/// A join of several blocks is ground to the target, and refused only where that cannot be
/// reached; a single block asks for no work.
pub proof fn law_join_is_ground(spec: SecuritySpec, index: usize, t: usize, floor: Bits)
    ensures
        t <= 1 ==> join_work(spec, index, t, floor) == Ok::<
            proof_of_work::Config,
            DeriveError,
        >(proof_of_work::Config::spec_none()),
        t > 1 ==> match join_work(spec, index, t, floor) {
            Ok(pow) => reaches_target(spec, floor, pow) && reachable(spec, floor),
            Err(e) => !reachable(spec, floor),
        },
{
    let pow = Pow::BatchedSelectorMerge { index };
    law_slot_is_refused_only_if_unreachable(spec, floor, pow);
    law_slot_is_ground(spec, floor, pow, 0);
    lemma_ceil_log2(t as nat);
    vstd::arithmetic::power2::lemma2_to64();
    if t > 1 && ceil_log2_spec(t as nat) == 0 {
        assert(pow2(0) == 1);
    }
}

/// The rounds of a bundle before the merge chain: each starts with what the folds before it
/// leave of all polynomials together and is folded by its own fold; it switches to a code
/// for the next one's fold, the last to one for the shared rounds' first; and the rate
/// stays.
pub proof fn law_pre_merge_shapes_chain(
    num_polys: usize,
    rate: u32,
    first_fold: u32,
    b: usize,
    spec: BundleSpec,
    folds: Seq<usize>,
    k: int,
)
    requires
        0 <= k < folds.len(),
        forall|i: int| 0 <= i < folds.len() ==> #[trigger] folds[i] <= u32::MAX,
        num_polys * spec.length <= usize::MAX,
    ensures
        ({
            let shape = shape_before(num_polys, rate, first_fold, b, spec, folds, k);
            &&& k == 0 ==> shape.source_vector_size == num_polys * spec.length
            &&& shape.source_folding_factor == folds[k]
            &&& shape.source_log_inv_rate == rate
            &&& shape.target_log_inv_rate == rate
            &&& shape.round_slot == RoundSlot::PreMerge(b)
            &&& k + 1 == folds.len() ==> shape.target_folding_factor == first_fold
            &&& k + 1 < folds.len() ==> {
                let next = shape_before(num_polys, rate, first_fold, b, spec, folds, k + 1);
                &&& shape.target_folding_factor == next.source_folding_factor
                &&& next.source_vector_size == shape.source_vector_size as nat / pow2(
                    folds[k] as nat,
                )
            }
        }),
{
    let all = (num_polys * spec.length) as int;
    assert(all >= 0) by (nonlinear_arith)
        requires
            all == num_polys * spec.length,
    ;
    let before = fold_total(folds.take(k));
    lemma_pow2_pos(before);
    lemma_pow2_pos(folds[k] as nat);
    vstd::arithmetic::power2::lemma2_to64();
    assert(folds.take(k + 1).drop_last() =~= folds.take(k));
    assert(fold_total(folds.take(k + 1)) == before + folds[k] as nat);
    lemma_pow2_sum(before, folds[k] as nat);
    let (d, e) = (pow2(before) as int, pow2(folds[k] as nat) as int);
    vstd::arithmetic::div_mod::lemma_div_denominator(all, d, e);
    lemma_quotient_bound(all, d);
    lemma_quotient_bound(all, d * e);
    if k == 0 {
        assert(folds.take(0).len() == 0);
        assert(all / 1 == all);
    }
}

proof fn lemma_quotient_bound(a: int, d: int)
    requires
        a >= 0,
    ensures
        d > 0 ==> 0 <= a / d <= a,
{
    if d > 0 {
        vstd::arithmetic::div_mod::lemma_div_pos_is_pos(a, d);
        vstd::arithmetic::div_mod::lemma_div_nonincreasing(a, d);
    }
}

/// The folds of a bundle together are the sum of its folds.
pub proof fn law_folds_add_up(folds: Seq<usize>)
    ensures
        fold_total(folds) == folds.fold_left(0int, |sum: int, fold: usize| sum + fold),
    decreases folds.len(),
{
    reveal_with_fuel(Seq::fold_left, 2);
    if folds.len() > 0 {
        law_folds_add_up(folds.drop_last());
    }
}

/// How many bundles the joins take in is the sum of their numbers.
pub proof fn law_joined_bundles_add_up(joins: Seq<RoundJoin>, k: nat)
    requires
        k <= joins.len(),
    ensures
        joined_count(joins, k) == joins.take(k as int).fold_left(
            0int,
            |sum: int, join: RoundJoin| sum + join.bundle_indices@.len(),
        ),
    decreases k,
{
    let part = joins.take(k as int);
    reveal_with_fuel(Seq::fold_left, 2);
    if k > 0 {
        law_joined_bundles_add_up(joins, (k - 1) as nat);
        assert(part.drop_last() =~= joins.take(k - 1));
        assert(part.last() == joins[k - 1]);
    }
}

} // verus!
