//! The adaptive planner: searching the rates of all rounds.
//!
//! Every round may raise the rate by up to twice the usual step. A schedule is feasible
//! if the budget closes the gap of every slot; of the feasible ones, the planner keeps
//! those that no other beats in prover time and proof size, and picks the knee.

use crate::bits::Bits;
use crate::params::adaptive_laws::law_knee_extremes;
use crate::params::error::DeriveError;
use crate::params::spec::{Mode, SecuritySpec};
use vstd::prelude::*;

verus! {

/// The greatest rate that is searched.
pub const ADAPTIVE_MAX_LOG_INV_RATE: u32 = 20;

/// How many usual steps a round may take.
pub const ADAPTIVE_STEP_BUDGET: u32 = 2;

/// The number of rates that are searched.
pub const RATES: usize = 21;

/// The cost of a schedule: prover time and proof size, in nominal units.
#[derive(Clone, Copy, Debug, PartialEq, Eq, Structural)]
pub struct Cost {
    pub encode: u64,
    pub proof: u64,
}

/// A sum, or the greatest number if that is exceeded.
pub open spec fn capped(a: u64, b: u64) -> u64 {
    if a + b <= u64::MAX {
        (a + b) as u64
    } else {
        u64::MAX
    }
}

impl Cost {
    /// The sum of two costs.
    pub open spec fn spec_plus(self, other: Cost) -> Cost {
        Cost { encode: capped(self.encode, other.encode), proof: capped(self.proof, other.proof) }
    }

    /// Is this cost nowhere greater and somewhere smaller?
    pub open spec fn spec_dominates(self, other: Cost) -> bool {
        &&& self.encode <= other.encode
        &&& self.proof <= other.proof
        &&& self.encode < other.encode || self.proof < other.proof
    }

    /// No cost.
    pub fn zero() -> (r: Cost)
        ensures
            r == (Cost { encode: 0, proof: 0 }),
    {
        Cost { encode: 0, proof: 0 }
    }

    /// The sum of two costs.
    pub fn plus(self, other: Cost) -> (r: Cost)
        ensures
            r == self.spec_plus(other),
    {
        Cost {
            encode: self.encode.saturating_add(other.encode),
            proof: self.proof.saturating_add(other.proof),
        }
    }

    /// Is this cost nowhere greater and somewhere smaller?
    pub fn dominates(self, other: Cost) -> (r: bool)
        ensures
            r == self.spec_dominates(other),
    {
        self.encode <= other.encode && self.proof <= other.proof && (self.encode < other.encode
            || self.proof < other.proof)
    }
}

/// Dominance is a strict order.
pub proof fn law_dominance_is_strict(a: Cost, b: Cost, c: Cost)
    ensures
        !a.spec_dominates(a),
        a.spec_dominates(b) && b.spec_dominates(c) ==> a.spec_dominates(c),
        a.spec_dominates(b) ==> !b.spec_dominates(a),
{
}

/// Can the budget close the gap that a floor leaves?
pub open spec fn spec_fits(spec: SecuritySpec, floor: Bits) -> bool {
    floor.micro + Bits::spec_whole(spec.pow_budget.spec_bits()).micro >= Bits::spec_whole(
        spec.target_security_bits,
    ).micro
}

/// Can the budget close the gap that a floor leaves?
pub fn fits(spec: &SecuritySpec, floor: Bits) -> (r: bool)
    ensures
        r == spec_fits(*spec, floor),
{
    let budget: Bits = Bits::whole(spec.pow_budget.bits());
    let target: Bits = Bits::whole(spec.target_security_bits);
    floor.micro.saturating_add(budget.micro) >= target.micro
}

/// Is a round feasible: does the budget close the gaps of its masks, its sumcheck and
/// its code-switch?
pub fn round_feasible(spec: &SecuritySpec, masks: Option<Bits>, sumcheck: Bits, code_switch: Bits) -> (r: bool)
    ensures
        r == ((masks matches Some(m) ==> spec_fits(*spec, m)) && spec_fits(*spec, sumcheck)
            && spec_fits(*spec, code_switch)),
{
    let masks_fit: bool = match masks {
        None => true,
        Some(m) => fits(spec, m),
    };
    masks_fit && fits(spec, sumcheck) && fits(spec, code_switch)
}

/// Is the base case feasible? The combination's gap counts in zero-knowledge mode only.
pub fn basecase_feasible(spec: &SecuritySpec, sumcheck: Bits, gamma: Bits) -> (r: bool)
    ensures
        r == (spec_fits(*spec, sumcheck) && (spec.mode is ZeroKnowledge ==> spec_fits(*spec, gamma))),
{
    fits(spec, sumcheck) && match spec.mode {
        Mode::Standard => true,
        Mode::ZeroKnowledge => fits(spec, gamma),
    }
}

/// The costs of all choices: for every round, source rate and target rate, and for every
/// rate of the base case; `None` where a choice is not feasible.
#[derive(Debug)]
pub struct CostTable {
    /// The folding factor of every round.
    pub folding: Vec<u32>,
    /// By round, source rate and target rate.
    pub rounds: Vec<Option<Cost>>,
    /// By rate.
    pub basecase: Vec<Option<Cost>>,
}

/// A schedule of rates and its cost.
#[derive(Debug)]
pub struct Candidate {
    pub rates: Vec<u32>,
    pub cost: Cost,
}

/// [`Candidate`] as a mathematical value.
pub struct CandidateView {
    pub rates: Seq<u32>,
    pub cost: Cost,
}

impl View for Candidate {
    type V = CandidateView;

    open spec fn view(&self) -> CandidateView {
        CandidateView { rates: self.rates@, cost: self.cost }
    }
}

/// The views of several candidates.
pub open spec fn candidate_views(cs: Seq<Candidate>) -> Seq<CandidateView> {
    Seq::new(cs.len(), |i: int| cs[i]@)
}

/// The greatest step of a round: twice the usual one.
pub open spec fn max_step(folding: u32) -> nat {
    let usual = if folding >= 1 {
        (folding - 1) as nat
    } else {
        0nat
    };
    if usual * ADAPTIVE_STEP_BUDGET <= u32::MAX {
        usual * ADAPTIVE_STEP_BUDGET as nat
    } else {
        u32::MAX as nat
    }
}

impl CostTable {
    /// Is there an entry for every choice that the search can meet?
    pub open spec fn covers(&self, starting: u32) -> bool {
        &&& self.rounds@.len() == self.folding@.len() * (RATES * RATES)
        &&& self.basecase@.len() >= RATES
        &&& self.folding@.len() == 0 ==> starting < self.basecase@.len()
    }

    /// The cost of a round with the given rates.
    pub open spec fn round_cost(&self, idx: int, source: int, target: int) -> Option<Cost> {
        self.rounds@[idx * (RATES * RATES) + source * RATES + target]
    }

    /// All feasible schedules from a round on, given the choices before it; of the next
    /// round's choices the first `k`.
    pub open spec fn schedules(&self, idx: nat, rate: u32, chosen: Seq<u32>, acc: Cost, k: nat) -> Seq<
        CandidateView,
    >
        decreases self.folding@.len() - idx, k,
    {
        if idx >= self.folding@.len() {
            match self.basecase@[rate as int] {
                None => Seq::empty(),
                Some(c) => seq![CandidateView { rates: chosen, cost: acc.spec_plus(c) }],
            }
        } else if k == 0 {
            Seq::empty()
        } else {
            let before = self.schedules(idx, rate, chosen, acc, (k - 1) as nat);
            let next = rate + (k - 1);
            if next > ADAPTIVE_MAX_LOG_INV_RATE {
                before
            } else {
                match self.round_cost(idx as int, rate as int, next) {
                    None => before,
                    Some(c) => before + self.schedules(
                        idx + 1,
                        next as u32,
                        chosen.push(next as u32),
                        acc.spec_plus(c),
                        self.choices(idx + 1),
                    ),
                }
            }
        }
    }

    /// How many choices a round has.
    pub open spec fn choices(&self, idx: nat) -> nat {
        if idx < self.folding@.len() {
            max_step(self.folding@[idx as int]) + 1
        } else {
            0
        }
    }

    /// All feasible schedules.
    pub open spec fn all_schedules(&self, starting: u32) -> Seq<CandidateView> {
        self.schedules(
            0,
            starting,
            Seq::empty(),
            Cost { encode: 0, proof: 0 },
            self.choices(0),
        )
    }

    /// Search all schedules: every round's rates from the lowest up, and the later
    /// rounds' first.
    pub fn search(&self, starting_log_inv_rate: u32) -> (r: Vec<Candidate>)
        requires
            self.covers(starting_log_inv_rate),
        ensures
            candidate_views(r@) == self.all_schedules(starting_log_inv_rate),
    {
        let mut out: Vec<Candidate> = Vec::new();
        let mut chosen: Vec<u32> = Vec::new();
        assert(candidate_views(out@) =~= Seq::<CandidateView>::empty());
        self.recurse(0, starting_log_inv_rate, &mut chosen, Cost::zero(), &mut out);
        assert(Seq::<CandidateView>::empty() + self.all_schedules(starting_log_inv_rate)
            =~= self.all_schedules(starting_log_inv_rate));
        assert(Seq::<u32>::empty() =~= chosen@);
        out
    }

    fn recurse(&self, idx: usize, cur_rate: u32, chosen: &mut Vec<u32>, acc: Cost, out: &mut Vec<Candidate>)
        requires
            self.rounds@.len() == self.folding@.len() * (RATES * RATES),
            self.basecase@.len() >= RATES,
            idx <= self.folding@.len(),
            idx == self.folding@.len() ==> cur_rate < self.basecase@.len(),
        ensures
            final(chosen)@ == old(chosen)@,
            candidate_views(final(out)@) == candidate_views(old(out)@) + self.schedules(
                idx as nat,
                cur_rate,
                old(chosen)@,
                acc,
                self.choices(idx as nat),
            ),
        decreases self.folding@.len() - idx,
    {
        let ghost start = candidate_views(out@);
        let ghost prefix = chosen@;
        let n: usize = self.folding.len();
        if idx == n {
            match self.basecase[cur_rate as usize] {
                Some(c) => {
                    let mut rates: Vec<u32> = Vec::new();
                    for i in 0..chosen.len()
                        invariant
                            rates@ =~= chosen@.take(i as int),
                    {
                        rates.push(chosen[i]);
                    }
                    assert(rates@ =~= chosen@);
                    let ghost before = out@;
                    let candidate = Candidate { rates, cost: acc.plus(c) };
                    let ghost cv = candidate@;
                    out.push(candidate);
                    assert(candidate_views(out@) =~= candidate_views(before).push(cv));
                    assert(start + seq![cv] =~= start.push(cv));
                },
                None => {
                    assert(start + Seq::<CandidateView>::empty() =~= start);
                },
            }
            return;
        }
        let folding: u32 = self.folding[idx];
        let usual: u32 = folding.saturating_sub(1);
        let steps: u32 = if usual <= u32::MAX / ADAPTIVE_STEP_BUDGET {
            usual * ADAPTIVE_STEP_BUDGET
        } else {
            u32::MAX
        };
        let len: usize = self.rounds.len();
        let mut delta: u32 = 0;
        let mut done: bool = false;
        assert(start + Seq::<CandidateView>::empty() =~= start);
        while !done
            invariant
                n == self.folding@.len(),
                len == self.rounds@.len(),
                idx < n,
                self.rounds@.len() == self.folding@.len() * (RATES * RATES),
                self.basecase@.len() >= RATES,
                steps == max_step(self.folding@[idx as int]),
                delta <= steps,
                chosen@ == prefix,
                !done ==> candidate_views(out@) == start + self.schedules(
                    idx as nat,
                    cur_rate,
                    prefix,
                    acc,
                    delta as nat,
                ),
                done ==> candidate_views(out@) == start + self.schedules(
                    idx as nat,
                    cur_rate,
                    prefix,
                    acc,
                    (steps + 1) as nat,
                ),
            decreases
                    if done {
                        0
                    } else {
                        steps - delta + 1
                    },
        {
            let ghost so_far = self.schedules(idx as nat, cur_rate, prefix, acc, delta as nat);
            if cur_rate > ADAPTIVE_MAX_LOG_INV_RATE || delta > ADAPTIVE_MAX_LOG_INV_RATE - cur_rate {
                proof {
                    self.lemma_no_more(
                        idx as nat,
                        cur_rate,
                        prefix,
                        acc,
                        delta as nat,
                        (steps + 1) as nat,
                    );
                }
                done = true;
            } else {
                let next_rate: u32 = cur_rate + delta;
                proof {
                    let (i, m) = (idx as int, n as int);
                    let square = (RATES * RATES) as int;
                    assert(i * square + square <= m * square) by (nonlinear_arith)
                        requires
                            i < m,
                            square >= 0,
                    ;
                    assert(i * square >= 0) by (nonlinear_arith)
                        requires
                            i >= 0,
                            square >= 0,
                    ;
                }
                let at: usize = idx * (RATES * RATES) + cur_rate as usize * RATES + next_rate as usize;
                match self.rounds[at] {
                    Some(c) => {
                        chosen.push(next_rate);
                        let ghost now = candidate_views(out@);
                        self.recurse(idx + 1, next_rate, chosen, acc.plus(c), out);
                        let last: Option<u32> = chosen.pop();
                        proof {
                            assert(prefix.push(next_rate).drop_last() =~= prefix);
                            assert(chosen@ =~= prefix);
                            let more = self.schedules(
                                (idx + 1) as nat,
                                next_rate,
                                prefix.push(next_rate),
                                acc.spec_plus(c),
                                self.choices((idx + 1) as nat),
                            );
                            assert(start + so_far + more =~= start + (so_far + more));
                        }
                    },
                    None => {},
                }
                if delta == steps {
                    done = true;
                } else {
                    delta = delta + 1;
                }
            }
        }
    }

    /// Choices beyond the greatest rate add nothing.
    proof fn lemma_no_more(&self, idx: nat, rate: u32, chosen: Seq<u32>, acc: Cost, j: nat, k: nat)
        requires
            idx < self.folding@.len(),
            j <= k,
            rate + j > ADAPTIVE_MAX_LOG_INV_RATE,
        ensures
            self.schedules(idx, rate, chosen, acc, k) == self.schedules(idx, rate, chosen, acc, j),
        decreases k,
    {
        if j < k {
            self.lemma_no_more(idx, rate, chosen, acc, j, (k - 1) as nat);
        }
    }
}

/// Does no cost beat this one?
pub open spec fn unbeaten(costs: Seq<Cost>, i: int, n: nat) -> bool {
    forall|j: int| 0 <= j < n ==> !(#[trigger] costs[j]).spec_dominates(costs[i])
}

/// Are these, in order, the places of the first `n` costs that no other of them beats?
pub open spec fn is_frontier(costs: Seq<Cost>, places: Seq<usize>, n: nat) -> bool {
    &&& forall|a: int, b: int| 0 <= a < b < places.len() ==> places[a] < places[b]
    &&& forall|a: int|
        0 <= a < places.len() ==> (#[trigger] places[a]) < n && unbeaten(costs, places[a] as int, n)
    &&& forall|i: int|
        0 <= i < n && #[trigger] unbeaten(costs, i, n) ==> places.contains(i as usize)
}

/// Every cost that is beaten is beaten by one on the frontier.
spec fn frontier_beats(costs: Seq<Cost>, places: Seq<usize>, n: nat) -> bool {
    forall|i: int|
        0 <= i < n ==> #[trigger] places.contains(i as usize) || exists|a: int|
            0 <= a < places.len() && costs[(#[trigger] places[a]) as int].spec_dominates(costs[i])
}

/// Does one of the places hold a cost that beats the given one?
spec fn beaten_by(costs: Seq<Cost>, places: Seq<usize>, c: Cost, k: nat) -> bool {
    exists|a: int| 0 <= a < k && costs[(#[trigger] places[a]) as int].spec_dominates(c)
}

/// The places of the costs that no other beats, in order.
pub fn pareto_frontier(costs: &[Cost]) -> (r: Vec<usize>)
    ensures
        is_frontier(costs@, r@, costs@.len()),
{
    let ghost cs = costs@;
    let mut frontier: Vec<usize> = Vec::new();
    for i in 0..costs.len()
        invariant
            cs == costs@,
            is_frontier(cs, frontier@, i as nat),
            frontier_beats(cs, frontier@, i as nat),
    {
        let cand: Cost = costs[i];
        let ghost old_places = frontier@;
        let mut dominated: bool = false;
        for a in 0..frontier.len()
            invariant
                cs == costs@,
                frontier@ == old_places,
                cand == cs[i as int],
                i < cs.len(),
                is_frontier(cs, frontier@, i as nat),
                dominated == beaten_by(cs, old_places, cand, a as nat),
        {
            assert(frontier@[a as int] < i);
            if costs[frontier[a]].dominates(cand) {
                assert(cs[old_places[a as int] as int].spec_dominates(cand));
                dominated = true;
            }
        }
        if dominated {
            proof {
                lemma_skip(cs, old_places, i as nat);
            }
        } else {
            let mut kept: Vec<usize> = Vec::new();
            for a in 0..frontier.len()
                invariant
                    cs == costs@,
                    frontier@ == old_places,
                    cand == cs[i as int],
                    i < cs.len(),
                    is_frontier(cs, frontier@, i as nat),
                    kept_from(cs, old_places, kept@, cand, a as nat),
            {
                assert(frontier@[a as int] < i);
                let place: usize = frontier[a];
                let ghost before = kept@;
                if !cand.dominates(costs[place]) {
                    kept.push(place);
                }
                proof {
                    lemma_kept_step(cs, old_places, before, kept@, cand, a as nat, i as nat);
                }
            }
            proof {
                lemma_insert(cs, old_places, kept@, i as nat);
            }
            kept.push(i);
            frontier = kept;
        }
    }
    frontier
}

/// Are these, in order, the first `k` places whose costs the new one does not beat?
spec fn kept_from(costs: Seq<Cost>, places: Seq<usize>, kept: Seq<usize>, cand: Cost, k: nat) -> bool {
    &&& k <= places.len()
    &&& forall|a: int, b: int| 0 <= a < b < kept.len() ==> kept[a] < kept[b]
    &&& forall|a: int|
        0 <= a < kept.len() ==> !cand.spec_dominates(costs[(#[trigger] kept[a]) as int]) && exists|b: int|
            0 <= b < k && places[b] == kept[a]
    &&& forall|b: int|
        0 <= b < k && !cand.spec_dominates(costs[(#[trigger] places[b]) as int]) ==> kept.contains(
            places[b],
        )
}

proof fn lemma_kept_step(
    costs: Seq<Cost>,
    places: Seq<usize>,
    before: Seq<usize>,
    after: Seq<usize>,
    cand: Cost,
    k: nat,
    n: nat,
)
    requires
        k < places.len(),
        forall|a: int, b: int| 0 <= a < b < places.len() ==> places[a] < places[b],
        kept_from(costs, places, before, cand, k),
        after == (if !cand.spec_dominates(costs[places[k as int] as int]) {
            before.push(places[k as int])
        } else {
            before
        }),
    ensures
        kept_from(costs, places, after, cand, k + 1),
{
    let p = places[k as int];
    assert forall|a: int| 0 <= a < before.len() implies #[trigger] before[a] < p by {
        let b = choose|b: int| 0 <= b < k && places[b] == before[a];
        assert(places[b] < places[k as int]);
    }
    assert forall|a: int| 0 <= a < after.len() implies !cand.spec_dominates(
        costs[(#[trigger] after[a]) as int],
    ) && exists|b: int| 0 <= b < k + 1 && places[b] == after[a] by {
        if a < before.len() {
            let b = choose|b: int| 0 <= b < k && places[b] == before[a];
            assert(places[b] == after[a]);
        } else {
            assert(places[k as int] == after[a]);
        }
    }
    assert forall|b: int|
        0 <= b < k + 1 && !cand.spec_dominates(
            costs[(#[trigger] places[b]) as int],
        ) implies after.contains(places[b]) by {
        if b < k {
            assert(before.contains(places[b]));
            let a = choose|a: int| 0 <= a < before.len() && before[a] == places[b];
            assert(after[a] == places[b]);
        } else {
            assert(after[after.len() - 1] == places[b]);
        }
    }
}

/// A beaten cost leaves the frontier as it is.
proof fn lemma_skip(costs: Seq<Cost>, places: Seq<usize>, n: nat)
    requires
        n < costs.len(),
        costs.len() <= usize::MAX,
        is_frontier(costs, places, n),
        frontier_beats(costs, places, n),
        beaten_by(costs, places, costs[n as int], places.len()),
    ensures
        is_frontier(costs, places, n + 1),
        frontier_beats(costs, places, n + 1),
{
    let w = choose|a: int|
        0 <= a < places.len() && costs[(#[trigger] places[a]) as int].spec_dominates(costs[n as int]);
    assert(places[w] < n);
    assert forall|a: int| 0 <= a < places.len() implies (#[trigger] places[a]) < n + 1 && unbeaten(
        costs,
        places[a] as int,
        n + 1,
    ) by {
        let i = places[a] as int;
        assert(unbeaten(costs, i, n));
        // Were it beaten by the new one, the frontier's would beat it too.
        assert(!costs[n as int].spec_dominates(costs[i])) by {
            law_dominance_is_strict(costs[places[w] as int], costs[n as int], costs[i]);
            assert(!costs[places[w] as int].spec_dominates(costs[i]));
        }
    }
    assert forall|i: int| 0 <= i < n + 1 && #[trigger] unbeaten(costs, i, n + 1) implies places.contains(
        i as usize,
    ) by {
        if i == n {
            assert(!costs[places[w] as int].spec_dominates(costs[i]));
        } else {
            assert(unbeaten(costs, i, n));
        }
    }
    assert forall|i: int| 0 <= i < n + 1 implies #[trigger] places.contains(i as usize) || exists|a: int|
        0 <= a < places.len() && costs[(#[trigger] places[a]) as int].spec_dominates(costs[i]) by {
        if i == n {
            assert(costs[places[w] as int].spec_dominates(costs[i]));
        }
    }
}

/// An unbeaten cost joins the frontier, and those that it beats leave.
proof fn lemma_insert(costs: Seq<Cost>, places: Seq<usize>, kept: Seq<usize>, n: nat)
    requires
        n < costs.len(),
        costs.len() <= usize::MAX,
        is_frontier(costs, places, n),
        frontier_beats(costs, places, n),
        !beaten_by(costs, places, costs[n as int], places.len()),
        kept_from(costs, places, kept, costs[n as int], places.len()),
    ensures
        is_frontier(costs, kept.push(n as usize), n + 1),
        frontier_beats(costs, kept.push(n as usize), n + 1),
{
    let cand = costs[n as int];
    let next = kept.push(n as usize);
    law_dominance_is_strict(cand, cand, cand);
    assert forall|a: int| 0 <= a < kept.len() implies (#[trigger] kept[a]) < n && unbeaten(
        costs,
        kept[a] as int,
        n,
    ) by {
        let b = choose|b: int| 0 <= b < places.len() && places[b] == kept[a];
        assert(places[b] < n && unbeaten(costs, places[b] as int, n));
    }
    // Nothing beats the new one.
    assert(unbeaten(costs, n as int, n + 1)) by {
        assert forall|j: int| 0 <= j < n + 1 implies !(#[trigger] costs[j]).spec_dominates(cand) by {
            if j < n && costs[j].spec_dominates(cand) {
                if places.contains(j as usize) {
                    let a = choose|a: int| 0 <= a < places.len() && places[a] == j as usize;
                    assert(costs[places[a] as int].spec_dominates(cand));
                } else {
                    let a = choose|a: int|
                        0 <= a < places.len() && costs[(
                        #[trigger] places[a]) as int].spec_dominates(costs[j]);
                    law_dominance_is_strict(costs[places[a] as int], costs[j], cand);
                    assert(costs[places[a] as int].spec_dominates(cand));
                }
                assert(beaten_by(costs, places, cand, places.len()));
            }
        }
    }
    assert forall|a: int, b: int| 0 <= a < b < next.len() implies next[a] < next[b] by {
        if b == kept.len() {
            assert(kept[a] < n);
        }
    }
    assert forall|a: int| 0 <= a < next.len() implies (#[trigger] next[a]) < n + 1 && unbeaten(
        costs,
        next[a] as int,
        n + 1,
    ) by {
        if a < kept.len() {
            assert(unbeaten(costs, kept[a] as int, n));
            assert(!cand.spec_dominates(costs[kept[a] as int]));
        }
    }
    assert forall|i: int| 0 <= i < n + 1 && #[trigger] unbeaten(costs, i, n + 1) implies next.contains(
        i as usize,
    ) by {
        if i == n {
            assert(next[kept.len() as int] == n as usize);
        } else {
            assert(unbeaten(costs, i, n));
            assert(places.contains(i as usize));
            let b = choose|b: int| 0 <= b < places.len() && places[b] == i as usize;
            assert(!cand.spec_dominates(costs[places[b] as int]));
            assert(kept.contains(places[b]));
            let a = choose|a: int| 0 <= a < kept.len() && kept[a] == places[b];
            assert(next[a] == i as usize);
        }
    }
    assert forall|i: int| 0 <= i < n + 1 implies #[trigger] next.contains(i as usize) || exists|a: int|
        0 <= a < next.len() && costs[(#[trigger] next[a]) as int].spec_dominates(costs[i]) by {
        if i == n {
            assert(next[kept.len() as int] == n as usize);
        } else if places.contains(i as usize) {
            let b = choose|b: int| 0 <= b < places.len() && places[b] == i as usize;
            if cand.spec_dominates(costs[places[b] as int]) {
                assert(next[kept.len() as int] == n as usize);
                assert(costs[next[kept.len() as int] as int].spec_dominates(costs[i]));
            } else {
                assert(kept.contains(places[b]));
                let a = choose|a: int| 0 <= a < kept.len() && kept[a] == places[b];
                assert(next[a] == i as usize);
            }
        } else {
            let b = choose|b: int|
                0 <= b < places.len() && costs[(#[trigger] places[b]) as int].spec_dominates(costs[i]);
            if cand.spec_dominates(costs[places[b] as int]) {
                law_dominance_is_strict(cand, costs[places[b] as int], costs[i]);
                assert(next[kept.len() as int] == n as usize);
                assert(costs[next[kept.len() as int] as int].spec_dominates(costs[i]));
            } else {
                assert(kept.contains(places[b]));
                let a = choose|a: int| 0 <= a < kept.len() && kept[a] == places[b];
                assert(next[a] == places[b]);
                assert(costs[next[a] as int].spec_dominates(costs[i]));
            }
        }
    }
}

/// A candidate's costs as binary logarithms, in millionths of a bit.
#[derive(Clone, Copy, Debug, PartialEq, Eq, Structural)]
pub struct LogCost {
    pub encode: u32,
    pub proof: u32,
}

/// The least of the first `k` logarithms on one axis.
pub open spec fn least(values: Seq<u32>, k: nat) -> u32
    decreases k,
{
    if k == 0 {
        u32::MAX
    } else {
        let before = least(values, (k - 1) as nat);
        if values[k - 1] < before {
            values[k - 1]
        } else {
            before
        }
    }
}

/// The prover times.
pub open spec fn encodes(logs: Seq<LogCost>) -> Seq<u32> {
    Seq::new(logs.len(), |i: int| logs[i].encode)
}

/// The proof sizes.
pub open spec fn proofs(logs: Seq<LogCost>) -> Seq<u32> {
    Seq::new(logs.len(), |i: int| logs[i].proof)
}

/// How far a candidate is from the least on both axes: the squared distances, weighted;
/// the weight is in millionths.
pub open spec fn knee_score(logs: Seq<LogCost>, weight: u32, i: int) -> int {
    let e = logs[i].encode - least(encodes(logs), logs.len());
    let p = logs[i].proof - least(proofs(logs), logs.len());
    weight * (e * e) + (1_000_000 - weight) * (p * p)
}

proof fn lemma_least(values: Seq<u32>, k: nat, i: int)
    requires
        0 <= i < k,
    ensures
        least(values, k) <= values[i],
    decreases k,
{
    if i < k - 1 {
        lemma_least(values, (k - 1) as nat, i);
    }
}

/// The first candidate that is closest to the least on both axes.
pub fn pick_knee(logs: &[LogCost], knee_weight: u32) -> (r: usize)
    requires
        logs@.len() > 0,
        knee_weight <= 1_000_000,
    ensures
        r < logs@.len(),
        forall|i: int|
            0 <= i < logs@.len() ==> knee_score(logs@, knee_weight, r as int) <= #[trigger] knee_score(
                logs@,
                knee_weight,
                i,
            ),
        forall|i: int|
            0 <= i < r ==> knee_score(logs@, knee_weight, r as int) < #[trigger] knee_score(
                logs@,
                knee_weight,
                i,
            ),
        knee_weight == 1_000_000 ==> forall|i: int|
            0 <= i < logs@.len() ==> logs@[r as int].encode <= (#[trigger] logs@[i]).encode,
        knee_weight == 0 ==> forall|i: int|
            0 <= i < logs@.len() ==> logs@[r as int].proof <= (#[trigger] logs@[i]).proof,
{
    let ghost ls = logs@;
    let mut min_e: u32 = u32::MAX;
    let mut min_p: u32 = u32::MAX;
    for i in 0..logs.len()
        invariant
            ls == logs@,
            min_e == least(encodes(ls), i as nat),
            min_p == least(proofs(ls), i as nat),
    {
        if logs[i].encode < min_e {
            min_e = logs[i].encode;
        }
        if logs[i].proof < min_p {
            min_p = logs[i].proof;
        }
    }
    let mut best: usize = 0;
    let mut best_score: u128 = 0;
    for i in 0..logs.len()
        invariant
            ls == logs@,
            ls.len() > 0,
            knee_weight <= 1_000_000,
            min_e == least(encodes(ls), ls.len()),
            min_p == least(proofs(ls), ls.len()),
            best == 0 || best < i,
            i > 0 ==> best_score == knee_score(ls, knee_weight, best as int),
            forall|j: int|
                0 <= j < i ==> knee_score(ls, knee_weight, best as int) <= #[trigger] knee_score(
                    ls,
                    knee_weight,
                    j,
                ),
            forall|j: int|
                0 <= j < best ==> knee_score(ls, knee_weight, best as int) < #[trigger] knee_score(
                    ls,
                    knee_weight,
                    j,
                ),
    {
        proof {
            lemma_least(encodes(ls), ls.len(), i as int);
            lemma_least(proofs(ls), ls.len(), i as int);
        }
        let e: u128 = (logs[i].encode - min_e) as u128;
        let p: u128 = (logs[i].proof - min_p) as u128;
        proof {
            let (a, b) = (e as int, p as int);
            assert(0 <= a * a <= 0x1_0000_0000 * 0x1_0000_0000) by (nonlinear_arith)
                requires
                    0 <= a < 0x1_0000_0000,
            ;
            assert(0 <= b * b <= 0x1_0000_0000 * 0x1_0000_0000) by (nonlinear_arith)
                requires
                    0 <= b < 0x1_0000_0000,
            ;
            let (x, y, w) = (a * a, b * b, knee_weight as int);
            assert(0 <= w * x <= 1_000_000 * (0x1_0000_0000 * 0x1_0000_0000)) by (nonlinear_arith)
                requires
                    0 <= w <= 1_000_000,
                    0 <= x <= 0x1_0000_0000 * 0x1_0000_0000,
            ;
            assert(0 <= (1_000_000 - w) * y <= 1_000_000 * (0x1_0000_0000 * 0x1_0000_0000))
                by (nonlinear_arith)
                requires
                    0 <= w <= 1_000_000,
                    0 <= y <= 0x1_0000_0000 * 0x1_0000_0000,
            ;
        }
        let score: u128 = knee_weight as u128 * (e * e) + (1_000_000 - knee_weight) as u128 * (p * p);
        assert(score == knee_score(ls, knee_weight, i as int));
        if i == 0 || score < best_score {
            best = i;
            best_score = score;
        }
    }
    proof {
        assert(is_knee(ls, knee_weight, best as int));
        law_knee_extremes(ls, knee_weight, best as int);
    }
    best
}

/// The rates that are chosen: of the given candidates, with the logarithms of their
/// costs, the knee of those that no other beats; an error if there is none.
pub fn plan_adaptive_rates(candidates: &[Candidate], logs: &[LogCost], knee_weight: u32) -> (r: Result<
    Vec<u32>,
    DeriveError,
>)
    requires
        candidates@.len() == logs@.len(),
        knee_weight <= 1_000_000,
    ensures
        candidates@.len() == 0 ==> r == Err::<Vec<u32>, DeriveError>(
            DeriveError::AdaptiveNoFeasibleSchedule,
        ),
        candidates@.len() > 0 ==> r is Ok && exists|places: Seq<usize>, k: int|
            {
                &&& #[trigger] is_frontier(costs_of(candidates@), places, candidates@.len())
                &&& 0 <= k < places.len()
                &&& #[trigger] is_knee(logs_at(logs@, places), knee_weight, k)
                &&& r->Ok_0@ == candidates@[places[k] as int].rates@
            },
{
    let n: usize = candidates.len();
    if n == 0 {
        return Err(DeriveError::AdaptiveNoFeasibleSchedule);
    }
    let ghost cs = costs_of(candidates@);
    let mut costs: Vec<Cost> = Vec::new();
    for i in 0..n
        invariant
            n == candidates@.len(),
            cs == costs_of(candidates@),
            costs@ =~= cs.take(i as int),
    {
        costs.push(candidates[i].cost);
    }
    assert(costs@ =~= cs);
    let frontier: Vec<usize> = pareto_frontier(costs.as_slice());
    let ghost places = frontier@;
    proof {
        lemma_frontier_nonempty(cs, places, n as nat);
    }
    let mut kept: Vec<LogCost> = Vec::new();
    for a in 0..frontier.len()
        invariant
            n == candidates@.len(),
            n == logs@.len(),
            places == frontier@,
            cs.len() == n,
            is_frontier(cs, places, n as nat),
            kept@ =~= logs_at(logs@, places).take(a as int),
    {
        assert(places[a as int] < n);
        kept.push(logs[frontier[a]]);
    }
    assert(kept@ =~= logs_at(logs@, places));
    let k: usize = pick_knee(kept.as_slice(), knee_weight);
    assert(places[k as int] < n);
    assert(is_knee(logs_at(logs@, places), knee_weight, k as int));
    let chosen: &Candidate = &candidates[frontier[k]];
    let mut rates: Vec<u32> = Vec::new();
    for i in 0..chosen.rates.len()
        invariant
            rates@ =~= chosen.rates@.take(i as int),
    {
        rates.push(chosen.rates[i]);
    }
    assert(rates@ =~= chosen.rates@);
    Ok(rates)
}

/// The candidates' costs.
pub open spec fn costs_of(candidates: Seq<Candidate>) -> Seq<Cost> {
    Seq::new(candidates.len(), |i: int| candidates[i].cost)
}

/// The logarithms at the given places.
pub open spec fn logs_at(logs: Seq<LogCost>, places: Seq<usize>) -> Seq<LogCost> {
    Seq::new(places.len(), |a: int| logs[places[a] as int])
}

/// Is this the first candidate that is closest to the least on both axes?
pub open spec fn is_knee(logs: Seq<LogCost>, weight: u32, k: int) -> bool {
    &&& 0 <= k < logs.len()
    &&& forall|i: int|
        0 <= i < logs.len() ==> knee_score(logs, weight, k) <= #[trigger] knee_score(logs, weight, i)
    &&& forall|i: int|
        0 <= i < k ==> knee_score(logs, weight, k) < #[trigger] knee_score(logs, weight, i)
}

/// Of several costs one is unbeaten.
proof fn lemma_frontier_nonempty(costs: Seq<Cost>, places: Seq<usize>, n: nat)
    requires
        0 < n <= costs.len(),
        costs.len() <= usize::MAX,
        is_frontier(costs, places, n),
    ensures
        places.len() > 0,
{
    let i = lemma_unbeaten_exists(costs, n);
    assert(places.contains(i as usize));
}

proof fn lemma_unbeaten_exists(costs: Seq<Cost>, n: nat) -> (i: int)
    requires
        0 < n <= costs.len(),
    ensures
        0 <= i < n,
        unbeaten(costs, i, n),
    decreases n,
{
    if n == 1 {
        0
    } else {
        let m = (n - 1) as nat;
        let b = lemma_unbeaten_exists(costs, m);
        let last = costs[m as int];
        if last.spec_dominates(costs[b]) {
            assert forall|j: int| 0 <= j < n implies !(#[trigger] costs[j]).spec_dominates(last) by {
                if j < m {
                    assert(!costs[j].spec_dominates(costs[b]));
                    law_dominance_is_strict(costs[j], last, costs[b]);
                }
            }
            m as int
        } else {
            b
        }
    }
}

} // verus!
