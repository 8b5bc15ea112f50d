//! What the adaptive planner searches, and what it picks.

use crate::bits::Bits;
use crate::params::adaptive::{
    encodes, is_frontier, is_knee, knee_score, least, proofs, spec_fits, unbeaten, CandidateView,
    Cost, CostTable, LogCost, RATES,
};
use crate::params::error::{ground_at, Pow};
use crate::params::spec::SecuritySpec;
use crate::proof_of_work::MAX_DIFFICULTY;
use vstd::prelude::*;

verus! {

/// Is no entry smaller on the prover's axis?
pub open spec fn least_encode(logs: Seq<LogCost>, a: int) -> bool {
    0 <= a < logs.len() && forall|i: int|
        0 <= i < logs.len() ==> logs[a].encode <= (#[trigger] logs[i]).encode
}

/// Is no entry smaller on the proof's axis?
pub open spec fn least_proof(logs: Seq<LogCost>, b: int) -> bool {
    0 <= b < logs.len() && forall|i: int|
        0 <= i < logs.len() ==> logs[b].proof <= (#[trigger] logs[i]).proof
}

proof fn lemma_least_is(values: Seq<u32>, k: nat, a: int)
    requires
        0 <= a < k <= values.len(),
        forall|i: int| 0 <= i < k ==> values[a] <= #[trigger] values[i],
    ensures
        least(values, k) == values[a],
    decreases k,
{
    if k == 1 {
        assert(least(values, 0) == u32::MAX);
    } else {
        let m = (k - 1) as nat;
        if a < m {
            lemma_least_is(values, m, a);
            assert(values[a] <= values[m as int]);
        } else {
            lemma_least_from(values, m, values[a]);
        }
    }
}

proof fn lemma_least_from(values: Seq<u32>, k: nat, x: u32)
    requires
        k <= values.len(),
        forall|i: int| 0 <= i < k ==> x <= #[trigger] values[i],
    ensures
        x <= least(values, k),
    decreases k,
{
    if k > 0 {
        lemma_least_from(values, (k - 1) as nat, x);
        assert(x <= values[k - 1]);
    }
}

/// The square of the distance on the prover's axis, times the weight, plus that on the
/// proof's axis, times the rest of a million.
pub open spec fn weighted_distance(at: LogCost, encode: u32, proof: u32, weight: u32) -> int {
    weight * ((at.encode - encode) * (at.encode - encode)) + (1_000_000 - weight) * ((at.proof
        - proof) * (at.proof - proof))
}

/// The candidate that is picked is closest to the least prover time and the least proof
/// size: the weight counts the prover's axis, what is left of a million the proof's.
pub proof fn law_knee_is_closest(logs: Seq<LogCost>, weight: u32, k: int, a: int, b: int)
    requires
        is_knee(logs, weight, k),
        least_encode(logs, a),
        least_proof(logs, b),
    ensures
        forall|i: int|
            0 <= i < logs.len() ==> weighted_distance(
                logs[k],
                logs[a].encode,
                logs[b].proof,
                weight,
            ) <= weighted_distance(#[trigger] logs[i], logs[a].encode, logs[b].proof, weight),
        forall|i: int|
            0 <= i < k ==> weighted_distance(logs[k], logs[a].encode, logs[b].proof, weight)
                < weighted_distance(#[trigger] logs[i], logs[a].encode, logs[b].proof, weight),
{
    let n = logs.len();
    assert forall|i: int| 0 <= i < n implies encodes(logs)[a] <= #[trigger] encodes(logs)[i] by {
        assert(logs[a].encode <= logs[i].encode);
    }
    assert forall|i: int| 0 <= i < n implies proofs(logs)[b] <= #[trigger] proofs(logs)[i] by {
        assert(logs[b].proof <= logs[i].proof);
    }
    lemma_least_is(encodes(logs), n, a);
    lemma_least_is(proofs(logs), n, b);
    assert forall|i: int| 0 <= i < n implies knee_score(logs, weight, i) == weighted_distance(
        #[trigger] logs[i],
        logs[a].encode,
        logs[b].proof,
        weight,
    ) by {}
    assert forall|i: int| 0 <= i < n implies weighted_distance(
        logs[k],
        logs[a].encode,
        logs[b].proof,
        weight,
    ) <= weighted_distance(#[trigger] logs[i], logs[a].encode, logs[b].proof, weight) by {
        assert(knee_score(logs, weight, k) <= knee_score(logs, weight, i));
        let x = logs[k];
    }
    assert forall|i: int| 0 <= i < k implies weighted_distance(
        logs[k],
        logs[a].encode,
        logs[b].proof,
        weight,
    ) < weighted_distance(#[trigger] logs[i], logs[a].encode, logs[b].proof, weight) by {
        assert(knee_score(logs, weight, k) < knee_score(logs, weight, i));
        let x = logs[k];
    }
}

proof fn lemma_some_least_encode(logs: Seq<LogCost>, n: nat) -> (a: int)
    requires
        0 < n <= logs.len(),
    ensures
        0 <= a < n,
        forall|i: int| 0 <= i < n ==> logs[a].encode <= (#[trigger] logs[i]).encode,
    decreases n,
{
    if n == 1 {
        0
    } else {
        let a = lemma_some_least_encode(logs, (n - 1) as nat);
        if logs[n - 1].encode < logs[a].encode {
            n - 1
        } else {
            a
        }
    }
}

proof fn lemma_some_least_proof(logs: Seq<LogCost>, n: nat) -> (a: int)
    requires
        0 < n <= logs.len(),
    ensures
        0 <= a < n,
        forall|i: int| 0 <= i < n ==> logs[a].proof <= (#[trigger] logs[i]).proof,
    decreases n,
{
    if n == 1 {
        0
    } else {
        let a = lemma_some_least_proof(logs, (n - 1) as nat);
        if logs[n - 1].proof < logs[a].proof {
            n - 1
        } else {
            a
        }
    }
}

/// With the whole weight on the prover's axis, the candidate that is picked has the least
/// prover time of all; with no weight there, the smallest proof.
pub proof fn law_knee_extremes(logs: Seq<LogCost>, weight: u32, k: int)
    requires
        is_knee(logs, weight, k),
    ensures
        weight == 1_000_000 ==> least_encode(logs, k),
        weight == 0 ==> least_proof(logs, k),
{
    let a = lemma_some_least_encode(logs, logs.len());
    let b = lemma_some_least_proof(logs, logs.len());
    law_knee_is_closest(logs, weight, k, a, b);
    if weight == 1_000_000 {
        let d = logs[k].encode - logs[a].encode;
        assert(weighted_distance(logs[k], logs[a].encode, logs[b].proof, weight)
            <= weighted_distance(logs[a], logs[a].encode, logs[b].proof, weight));
        let y = (logs[k].proof - logs[b].proof) * (logs[k].proof - logs[b].proof);
        let z = (logs[a].proof - logs[b].proof) * (logs[a].proof - logs[b].proof);
        assert(d == 0) by (nonlinear_arith)
            requires
                1_000_000 * (d * d) + 0 * y <= 1_000_000 * (0 * 0) + 0 * z,
        ;
        assert forall|i: int| 0 <= i < logs.len() implies logs[k].encode <= (
        #[trigger] logs[i]).encode by {
            assert(logs[a].encode <= logs[i].encode);
        }
    }
    if weight == 0 {
        let d = logs[k].proof - logs[b].proof;
        assert(weighted_distance(logs[k], logs[a].encode, logs[b].proof, weight)
            <= weighted_distance(logs[b], logs[a].encode, logs[b].proof, weight));
        let y = (logs[k].encode - logs[a].encode) * (logs[k].encode - logs[a].encode);
        let z = (logs[b].encode - logs[a].encode) * (logs[b].encode - logs[a].encode);
        assert(d == 0) by (nonlinear_arith)
            requires
                0 * y + 1_000_000 * (d * d) <= 0 * z + 1_000_000 * (0 * 0),
        ;
        assert forall|i: int| 0 <= i < logs.len() implies logs[k].proof <= (
        #[trigger] logs[i]).proof by {
            assert(logs[b].proof <= logs[i].proof);
        }
    }
}

/// Where both axes count, no candidate beats the one that is picked: none is at least as
/// good on both axes and better on one.
pub proof fn law_knee_is_unbeaten(logs: Seq<LogCost>, weight: u32, k: int, i: int)
    requires
        is_knee(logs, weight, k),
        0 < weight < 1_000_000,
        0 <= i < logs.len(),
        logs[i].encode <= logs[k].encode,
        logs[i].proof <= logs[k].proof,
    ensures
        logs[i] == logs[k],
{
    let a = lemma_some_least_encode(logs, logs.len());
    let b = lemma_some_least_proof(logs, logs.len());
    law_knee_is_closest(logs, weight, k, a, b);
    let (w, v) = (weight as int, 1_000_000 - weight);
    let (e, f) = (logs[k].encode - logs[a].encode, logs[i].encode - logs[a].encode);
    let (p, q) = (logs[k].proof - logs[b].proof, logs[i].proof - logs[b].proof);
    assert(w * (e * e) + v * (p * p) <= w * (f * f) + v * (q * q)) by {
        assert(weighted_distance(logs[k], logs[a].encode, logs[b].proof, weight)
            <= weighted_distance(logs[i], logs[a].encode, logs[b].proof, weight));
    }
    assert(logs[a].encode <= logs[i].encode);
    assert(logs[b].proof <= logs[i].proof);
    assert(e * e >= f * f + (e - f)) by (nonlinear_arith)
        requires
            0 <= f <= e,
    ;
    assert(p * p >= q * q + (p - q)) by (nonlinear_arith)
        requires
            0 <= q <= p,
    ;
    assert(e == f && p == q) by (nonlinear_arith)
        requires
            w > 0,
            v > 0,
            w * (e * e) + v * (p * p) <= w * (f * f) + v * (q * q),
            e * e >= f * f + (e - f),
            p * p >= q * q + (p - q),
            f <= e,
            q <= p,
    ;
}

/// The rate before round `i` of a schedule.
pub open spec fn rate_before(start: u32, rates: Seq<u32>, i: int) -> u32 {
    if i == 0 {
        start
    } else {
        rates[i - 1]
    }
}

/// Is a round's choice allowed: it does not lower the rate, raises it by at most twice its
/// fold less one, and not beyond twenty; and is it feasible?
pub open spec fn step_allowed(table: &CostTable, start: u32, rates: Seq<u32>, i: int) -> bool {
    let before = rate_before(start, rates, i);
    let usual = if table.folding@[i] >= 1 {
        table.folding@[i] - 1
    } else {
        0
    };
    &&& before <= rates[i] <= 20
    &&& rates[i] - before <= 2 * usual
    &&& table.rounds@[i * 441 + before * 21 + rates[i]] is Some
}

/// Is this a schedule that the planner may choose: is every round's choice allowed, and
/// the base case feasible at the last rate?
pub open spec fn may_choose(table: &CostTable, start: u32, rates: Seq<u32>) -> bool {
    &&& rates.len() == table.folding@.len()
    &&& forall|i: int|
        0 <= i < rates.len() ==> #[trigger] step_allowed(table, start, rates, i)
    &&& table.basecase@[rate_before(start, rates, rates.len() as int) as int] is Some
}

/// The cost of the first `n` rounds of a schedule.
pub open spec fn rounds_cost(table: &CostTable, start: u32, rates: Seq<u32>, n: nat) -> Cost
    decreases n,
{
    if n == 0 {
        Cost { encode: 0, proof: 0 }
    } else {
        rounds_cost(table, start, rates, (n - 1) as nat).spec_plus(
            table.rounds@[(n - 1) * 441 + rate_before(start, rates, n - 1) * 21 + rates[n
                - 1]].unwrap(),
        )
    }
}

/// The cost of a schedule: of all its rounds and of the base case at the last rate.
pub open spec fn schedule_cost(table: &CostTable, start: u32, rates: Seq<u32>) -> Cost {
    rounds_cost(table, start, rates, rates.len()).spec_plus(
        table.basecase@[rate_before(start, rates, rates.len() as int) as int].unwrap(),
    )
}

/// Do the first `n` choices of a schedule obey the rules?
spec fn chosen_upto(table: &CostTable, start: u32, rates: Seq<u32>, n: nat) -> bool {
    &&& n <= rates.len()
    &&& n <= table.folding@.len()
    &&& forall|i: int|
        0 <= i < n ==> #[trigger] step_allowed(table, start, rates, i)
}

proof fn lemma_cost_prefix(table: &CostTable, start: u32, a: Seq<u32>, b: Seq<u32>, n: nat)
    requires
        n <= a.len(),
        n <= b.len(),
        forall|i: int| 0 <= i < n ==> #[trigger] a[i] == b[i],
    ensures
        rounds_cost(table, start, a, n) == rounds_cost(table, start, b, n),
    decreases n,
{
    if n > 0 {
        lemma_cost_prefix(table, start, a, b, (n - 1) as nat);
        assert(a[n - 1] == b[n - 1]);
        if n > 1 {
            assert(a[n - 2] == b[n - 2]);
        }
    }
}

/// What the search gives from a round on: each is a schedule that may be chosen, with its
/// cost.
proof fn lemma_search_sound(
    table: &CostTable,
    start: u32,
    idx: nat,
    rate: u32,
    chosen: Seq<u32>,
    acc: Cost,
    k: nat,
    t: int,
)
    requires
        idx == chosen.len(),
        idx <= table.folding@.len(),
        chosen_upto(table, start, chosen, idx),
        rate == rate_before(start, chosen, idx as int),
        acc == rounds_cost(table, start, chosen, idx),
        idx < table.folding@.len() ==> k <= table.choices(idx),
        0 <= t < table.schedules(idx, rate, chosen, acc, k).len(),
    ensures
        may_choose(table, start, table.schedules(idx, rate, chosen, acc, k)[t].rates),
        table.schedules(idx, rate, chosen, acc, k)[t].cost == schedule_cost(
            table,
            start,
            table.schedules(idx, rate, chosen, acc, k)[t].rates,
        ),
    decreases table.folding@.len() - idx, k,
{
    let all = table.schedules(idx, rate, chosen, acc, k);
    if idx >= table.folding@.len() {
    } else if k > 0 {
        let m = (k - 1) as nat;
        let before = table.schedules(idx, rate, chosen, acc, m);
        let next = rate + m;
        if t < before.len() {
            lemma_search_sound(table, start, idx, rate, chosen, acc, m, t);
        } else {
            let c = table.round_cost(idx as int, rate as int, next).unwrap();
            let longer = chosen.push(next as u32);
            assert(idx * (RATES * RATES) + rate * RATES + next == idx * 441 + rate * 21 + next)
                by (nonlinear_arith)
                requires
                    RATES == 21,
            ;
            lemma_cost_prefix(table, start, chosen, longer, idx);
            assert(chosen_upto(table, start, longer, idx + 1)) by {
                assert forall|i: int| 0 <= i < idx + 1 implies #[trigger] step_allowed(table, start, longer, i) by {
                    if i < idx {
                        assert(step_allowed(table, start, chosen, i));
                        assert(chosen[i] == longer[i]);
                        assert(rate_before(start, chosen, i) == rate_before(start, longer, i));
                    } else {
                        assert(rate_before(start, longer, i) == rate);
                    }
                }
            }
            lemma_search_sound(
                table,
                start,
                idx + 1,
                next as u32,
                longer,
                acc.spec_plus(c),
                table.choices(idx + 1),
                t - before.len(),
            );
        }
    }
}

/// Every schedule that may be chosen and begins with the choices so far is found.
proof fn lemma_search_complete(
    table: &CostTable,
    start: u32,
    rates: Seq<u32>,
    idx: nat,
    acc: Cost,
    k: nat,
) -> (t: int)
    requires
        may_choose(table, start, rates),
        idx <= table.folding@.len(),
        acc == rounds_cost(table, start, rates, idx),
        idx < table.folding@.len() ==> rates[idx as int] - rate_before(start, rates, idx as int)
            < k <= table.choices(idx),
    ensures
        ({
            let all = table.schedules(
                idx,
                rate_before(start, rates, idx as int),
                rates.take(idx as int),
                acc,
                k,
            );
            0 <= t < all.len() && all[t] == (CandidateView {
                rates,
                cost: schedule_cost(table, start, rates),
            })
        }),
    decreases table.folding@.len() - idx, k,
{
    let rate = rate_before(start, rates, idx as int);
    let chosen = rates.take(idx as int);
    if idx >= table.folding@.len() {
        assert(chosen =~= rates);
        0
    } else {
        let m = (k - 1) as nat;
        let before = table.schedules(idx, rate, chosen, acc, m);
        let x = rates[idx as int];
        assert(step_allowed(table, start, rates, idx as int));
        if x - rate < m {
            lemma_search_complete(table, start, rates, idx, acc, m)
        } else {
            assert(x == rate + m);
            assert(idx * (RATES * RATES) + rate * RATES + x == idx * 441 + rate * 21 + x)
                by (nonlinear_arith)
                requires
                    RATES == 21,
            ;
            let c = table.round_cost(idx as int, rate as int, x as int).unwrap();
            assert(rates.take((idx + 1) as int) =~= chosen.push(x));
            if idx + 1 < table.folding@.len() {
                assert(step_allowed(table, start, rates, (idx + 1) as int));
            }
            let u = lemma_search_complete(
                table,
                start,
                rates,
                idx + 1,
                acc.spec_plus(c),
                table.choices(idx + 1),
            );
            before.len() + u
        }
    }
}

/// The planner searches exactly the schedules that it may choose, each with its cost.
pub proof fn law_search_is_exhaustive(table: &CostTable, start: u32, rates: Seq<u32>)
    ensures
        may_choose(table, start, rates) <==> exists|t: int|
            0 <= t < table.all_schedules(start).len() && (
            #[trigger] table.all_schedules(start)[t]).rates == rates,
        forall|t: int|
            0 <= t < table.all_schedules(start).len() ==> (
            #[trigger] table.all_schedules(start)[t]).cost == schedule_cost(
                table,
                start,
                table.all_schedules(start)[t].rates,
            ),
{
    let all = table.all_schedules(start);
    let none = Seq::<u32>::empty();
    let zero = Cost { encode: 0, proof: 0 };
    assert forall|t: int| 0 <= t < all.len() implies may_choose(table, start, (#[trigger] all[t]).rates)
        && all[t].cost == schedule_cost(table, start, all[t].rates) by {
        lemma_search_sound(table, start, 0, start, none, zero, table.choices(0), t);
    }
    if may_choose(table, start, rates) {
        if table.folding@.len() > 0 {
            assert(step_allowed(table, start, rates, 0));
        }
        let t = lemma_search_complete(table, start, rates, 0, zero, table.choices(0));
        assert(rates.take(0) =~= none);
        assert(all[t].rates == rates);
    }
}

/// A floor is taken for feasible exactly where the gap that it leaves can be ground within
/// the budget, as far as any slot may be.
pub proof fn law_feasible_can_be_ground(spec: SecuritySpec, floor: Bits, slot: Pow)
    requires
        spec.pow_budget.spec_bits() <= MAX_DIFFICULTY,
    ensures
        spec_fits(spec, floor) <==> ground_at(spec, floor, slot) is Ok,
{
}

/// A cost beats another exactly if it is no greater on both axes and not the same: then
/// every positive weighting prefers it.
pub proof fn law_dominance_is_preference(a: Cost, b: Cost, w: nat, z: nat)
    requires
        w > 0,
        z > 0,
    ensures
        a.spec_dominates(b) <==> a.encode <= b.encode && a.proof <= b.proof && a != b,
        a.spec_dominates(b) ==> w * a.encode + z * a.proof < w * b.encode + z * b.proof,
{
    if a.spec_dominates(b) {
        let (p, q, r, t) = (a.encode as int, a.proof as int, b.encode as int, b.proof as int);
        assert(w * p + z * q < w * r + z * t) by (nonlinear_arith)
            requires
                w > 0,
                z > 0,
                p <= r,
                q <= t,
                p < r || q < t,
        ;
    }
}

/// Costs add up on both axes, as far as numbers go.
pub proof fn law_costs_add_up(a: Cost, b: Cost)
    ensures
        a.spec_plus(b) == b.spec_plus(a),
        a.encode + b.encode <= u64::MAX ==> a.spec_plus(b).encode == a.encode + b.encode,
        a.proof + b.proof <= u64::MAX ==> a.spec_plus(b).proof == a.proof + b.proof,
        a.encode + b.encode > u64::MAX ==> a.spec_plus(b).encode == u64::MAX,
        a.proof + b.proof > u64::MAX ==> a.spec_plus(b).proof == u64::MAX,
{
}

/// For every cost the frontier holds one that is no greater on either axis.
pub proof fn law_frontier_covers(costs: Seq<Cost>, places: Seq<usize>, i: int) -> (a: int)
    requires
        is_frontier(costs, places, costs.len()),
        costs.len() <= usize::MAX,
        0 <= i < costs.len(),
    ensures
        0 <= a < places.len(),
        places[a] < costs.len(),
        costs[places[a] as int].encode <= costs[i].encode,
        costs[places[a] as int].proof <= costs[i].proof,
    decreases costs[i].encode + costs[i].proof,
{
    let n = costs.len();
    if unbeaten(costs, i, n) {
        assert(places.contains(i as usize));
        places.index_of(i as usize)
    } else {
        let j = choose|j: int| 0 <= j < n && (#[trigger] costs[j]).spec_dominates(costs[i]);
        law_frontier_covers(costs, places, j)
    }
}

/// No cost on the frontier is worse than another of all on both axes.
pub proof fn law_frontier_is_unbeaten(costs: Seq<Cost>, places: Seq<usize>, a: int, i: int)
    requires
        is_frontier(costs, places, costs.len()),
        0 <= a < places.len(),
        0 <= i < costs.len(),
    ensures
        places[a] < costs.len(),
        costs[i].encode <= costs[places[a] as int].encode && costs[i].proof
            <= costs[places[a] as int].proof ==> costs[i] == costs[places[a] as int],
{
    assert(unbeaten(costs, places[a] as int, costs.len()));
}

} // verus!
