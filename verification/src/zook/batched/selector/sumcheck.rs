//! The selector sumcheck, of degree three.
//!
//! It reduces a sum over blocks `b` of `eq(b, beta) * <M(b), V(b)>` to one inner
//! product at the selector challenges `delta`. Three flat tables are carried, whose
//! high bits index the block and whose low bits index the message.

use crate::algebra::{fold, folded_all};
use crate::arith::{
    ceil_log2, ceil_log2_spec, is_pow2, lemma_ceil_log2, lemma_ceil_log2_pow2, next_pow2,
    power_of_two,
};
use crate::field::{
    all_canonical, canonical, lemma_fmul_one, lemma_residue_canonical, lemma_view_canonical, vals,
    Field64,
};
use crate::proof_of_work;
use crate::round_poly::{
    compute_round_poly_degree3, cubic_coefficients, law_cubic_round, triple_sum,
};
use crate::sumcheck;
use crate::sumcheck::{
    fold_tables, lemma_fold_tables_even, max_table_len, RoundPolyOracle, RunState, SumcheckMode,
    SumcheckOpening,
};
use crate::sumcheck_laws::{canonical_oracle, masked_sum};
use crate::sums::{lemma_add_zero, lemma_fsum_canonical};
use crate::transcript::{ProverState, ProverView, VerificationError, VerifierState};
use vstd::arithmetic::power2::{lemma_pow2_pos, lemma_pow2_strictly_increases, pow2};
use vstd::prelude::*;

verus! {

/// Parameters of a selector sumcheck.
#[derive(Clone, Copy, Debug, PartialEq, Eq, Structural)]
pub struct Config {
    pub sumcheck: sumcheck::Config,
    pub selector_dim: usize,
    pub message_length: usize,
}

/// What the selector sumcheck leaves behind.
#[derive(Debug)]
pub struct Opening {
    /// The selector challenges.
    pub delta: Vec<Field64>,
    /// The factor `eq(delta, beta)`.
    pub eta: Field64,
    /// The final sum.
    pub final_scalar: Field64,
}

/// Degree-3 oracle: the sum of products of three tables.
pub struct SelectorOracle {
    pub eq: Vec<Field64>,
    pub m: Vec<Field64>,
    pub v: Vec<Field64>,
}

impl RoundPolyOracle for SelectorOracle {
    open spec fn tables(&self) -> Seq<Seq<int>> {
        seq![vals(self.eq@), vals(self.m@), vals(self.v@)]
    }

    open spec fn num_tables() -> nat {
        3
    }

    open spec fn poly_degree() -> nat {
        3
    }

    open spec fn coefficients(tables: Seq<Seq<int>>) -> Seq<int> {
        cubic_coefficients(tables[0], tables[1], tables[2])
    }

    fn degree(&self) -> (r: usize) {
        3
    }

    fn fold_and_compute(&mut self, prev_challenge: Option<Field64>) -> (r: Vec<Field64>) {
        match prev_challenge {
            Some(w) => {
                self.finalize(w);
            },
            None => {},
        }
        proof {
            assert(self.tables()[0].len() == self.tables()[0].len());
            assert(self.tables()[1].len() == self.tables()[0].len());
            assert(self.tables()[2].len() == self.tables()[0].len());
        }
        let (c0, c2, c3): (Field64, Field64, Field64) = compute_round_poly_degree3(
            self.eq.as_slice(),
            self.m.as_slice(),
            self.v.as_slice(),
        );
        let r: Vec<Field64> = vec![c0, c2, c3];
        assert(vals(r@) =~= seq![c0@, c2@, c3@]);
        r
    }

    fn finalize(&mut self, final_challenge: Field64) {
        let ghost before = self.tables();
        proof {
            assert(before[0].len() == before[0].len());
            assert(before[1].len() == before[0].len());
            assert(before[2].len() == before[0].len());
            lemma_fold_tables_even(before, final_challenge@);
        }
        fold(&mut self.eq, final_challenge);
        fold(&mut self.m, final_challenge);
        fold(&mut self.v, final_challenge);
        assert(self.tables() =~= fold_tables(before, final_challenge@));
    }
}

/// The selector oracle has canonical coefficients.
pub proof fn lemma_selector_oracle_canonical()
    ensures
        canonical_oracle::<SelectorOracle>(),
{
    broadcast use lemma_fsum_canonical;

}

impl Config {
    /// A sumcheck of degree three without masks, over tables of all blocks.
    pub open spec fn wf(&self) -> bool {
        &&& self.sumcheck.wf()
        &&& self.sumcheck.degree == 3
        &&& self.sumcheck.mode is Standard
        &&& self.sumcheck.num_rounds == self.selector_dim
        &&& self.message_length >= 1
        &&& self.sumcheck.initial_size == pow2(self.selector_dim as nat) * self.message_length
    }

    /// The number of blocks, padded to a power of two.
    pub open spec fn spec_padded(&self) -> nat {
        pow2(self.selector_dim as nat)
    }

    /// The selector sumcheck for `t` blocks of messages of length `message_length`: one
    /// round per selector variable, none for a single block.
    pub fn new(t: usize, message_length: usize, round_pow: proof_of_work::Config) -> (r: Self)
        requires
            t >= 1,
            message_length >= 1,
            next_pow2(t as nat) * message_length <= max_table_len(),
        ensures
            r.wf(),
            r.selector_dim == ceil_log2_spec(t as nat),
            r.message_length == message_length,
            r.sumcheck.round_pow == round_pow,
    {
        let selector_dim: usize = ceil_log2(t) as usize;
        proof {
            lemma_ceil_log2(t as nat);
            let h = next_pow2(t as nat) as int;
            let l = message_length as int;
            assert(h <= h * l && l <= h * l) by (nonlinear_arith)
                requires
                    h >= 1,
                    l >= 1,
            ;
        }
        let h: usize = power_of_two(selector_dim);
        let initial_size: usize = h * message_length;
        proof {
            // The table has at least as many entries as there are blocks.
            lemma_ceil_log2_pow2(selector_dim as nat);
            crate::arith::lemma_ceil_log2_monotone(h as nat, initial_size as nat);
        }
        let sumcheck: sumcheck::Config = sumcheck::Config::new(
            initial_size,
            round_pow,
            selector_dim,
            SumcheckMode::Standard,
            3,
        );
        Config { sumcheck, selector_dim, message_length }
    }

    /// The number of selector variables.
    pub fn selector_dim(&self) -> (r: usize)
        ensures
            r == self.selector_dim,
    {
        self.selector_dim
    }

    /// The length of every block's message.
    pub fn message_length(&self) -> (r: usize)
        ensures
            r == self.message_length,
    {
        self.message_length
    }

    /// The number of blocks, padded to a power of two.
    pub fn padded_size(&self) -> (r: usize)
        requires
            self.wf(),
        ensures
            r == self.spec_padded(),
    {
        proof {
            let h = self.spec_padded() as int;
            let l = self.message_length as int;
            lemma_pow2_pos(self.selector_dim as nat);
            assert(h <= h * l) by (nonlinear_arith)
                requires
                    h >= 1,
                    l >= 1,
            ;
        }
        power_of_two(self.selector_dim)
    }

    /// The prover at the end.
    pub open spec fn proved(&self, tables: Seq<Seq<int>>, sum: int, p: ProverView) -> RunState {
        self.sumcheck.proved::<SelectorOracle>(tables, sum, Seq::empty(), p).0
    }

    /// Run the selector sumcheck; the tables are folded to one block each.
    pub fn prove(
        &self,
        ps: &mut ProverState,
        claimed_sum: Field64,
        eq_table: &mut Vec<Field64>,
        m_table: &mut Vec<Field64>,
        v_table: &mut Vec<Field64>,
    ) -> (r: Opening)
        requires
            self.wf(),
            old(eq_table)@.len() == self.sumcheck.initial_size,
            old(m_table)@.len() == self.sumcheck.initial_size,
            old(v_table)@.len() == self.sumcheck.initial_size,
        ensures
            ({
                let end = self.proved(
                    seq![vals(old(eq_table)@), vals(old(m_table)@), vals(old(v_table)@)],
                    claimed_sum@,
                    old(ps)@,
                );
                &&& end.tables == seq![
                    vals(final(eq_table)@),
                    vals(final(m_table)@),
                    vals(final(v_table)@),
                ]
                &&& final(ps)@ == end.view
                &&& vals(r.delta@) == end.points
                &&& r.final_scalar@ == end.sum
                &&& self.selector_dim == 0 ==> r.eta@ == 1
                &&& self.selector_dim > 0 ==> r.eta@ == end.tables[0][0]
            }),
            r.delta@.len() == self.selector_dim,
            final(eq_table)@.len() == final(m_table)@.len(),
            final(eq_table)@.len() == final(v_table)@.len(),
            is_pow2(self.message_length as nat) ==> final(m_table)@.len() == self.message_length,
    {
        let ghost start = seq![vals(eq_table@), vals(m_table@), vals(v_table@)];
        let mut sum: Field64 = claimed_sum;
        let mut oracle: SelectorOracle = SelectorOracle {
            eq: Vec::new(),
            m: Vec::new(),
            v: Vec::new(),
        };
        std::mem::swap(&mut oracle.eq, eq_table);
        std::mem::swap(&mut oracle.m, m_table);
        std::mem::swap(&mut oracle.v, v_table);
        let no_masks: Vec<Field64> = Vec::new();
        proof {
            assert(vals(no_masks@) =~= Seq::<int>::empty());
            assert(self.sumcheck.num_rounds * 0 == 0) by (nonlinear_arith);
            assert(oracle.tables() =~= start);
            lemma_selector_lengths(self, start, claimed_sum@, ps@);
            lemma_selector_unmasked(self, start, claimed_sum@, ps@);
            lemma_view_canonical(claimed_sum);
        }
        let opening: SumcheckOpening = self.sumcheck.prove_with_oracle(
            ps,
            &mut sum,
            no_masks.as_slice(),
            &mut oracle,
        );
        proof {
            assert(oracle.tables()[0].len() == oracle.tables()[0].len());
            assert(oracle.tables()[1].len() == oracle.tables()[0].len());
            assert(oracle.tables()[2].len() == oracle.tables()[0].len());
        }
        std::mem::swap(&mut oracle.eq, eq_table);
        std::mem::swap(&mut oracle.m, m_table);
        std::mem::swap(&mut oracle.v, v_table);
        let eta: Field64 = if self.selector_dim == 0 {
            Field64::one()
        } else {
            eq_table[0]
        };
        Opening { delta: opening.round_challenges, eta, final_scalar: sum }
    }

    /// Follow the selector sumcheck. The factor `eq(delta, beta)` is left to the caller,
    /// who knows `beta`; it is returned as zero unless there is a single block.
    pub fn verify(&self, vs: &mut VerifierState, claimed_sum: Field64) -> (r: Result<
        Opening,
        VerificationError,
    >)
        requires
            self.wf(),
        ensures
            match self.sumcheck.checked(claimed_sum@, old(vs)@) {
                None => r is Err,
                Some((end, rlc)) => {
                    &&& r is Ok
                    &&& vals(r->Ok_0.delta@) == end.points
                    &&& r->Ok_0.final_scalar@ == end.sum
                    &&& final(vs)@ == end.view
                    &&& r->Ok_0.delta@.len() == self.selector_dim
                    &&& r->Ok_0.eta@ == (if self.selector_dim == 0 {
                        1int
                    } else {
                        0int
                    })
                },
            },
    {
        let mut sum: Field64 = claimed_sum;
        match self.sumcheck.verify(vs, &mut sum) {
            Ok(opening) => {
                let eta: Field64 = if self.selector_dim == 0 {
                    Field64::one()
                } else {
                    Field64::zero()
                };
                Ok(Opening { delta: opening.round_challenges, eta, final_scalar: sum })
            },
            Err(e) => Err(e),
        }
    }
}

/// The tables of a selector sumcheck after some rounds.
proof fn lemma_run_selector(
    cfg: &Config,
    start: RunState,
    rlc: int,
    tables: Seq<Seq<int>>,
    k: nat,
)
    requires
        cfg.wf(),
        k <= cfg.selector_dim,
        tables.len() == 3,
        tables[0].len() == cfg.sumcheck.initial_size,
        tables[1].len() == cfg.sumcheck.initial_size,
        tables[2].len() == cfg.sumcheck.initial_size,
        start.tables == tables,
        start.points == Seq::<int>::empty(),
    ensures
        ({
            let st = cfg.sumcheck.run::<SelectorOracle>(start, rlc, Seq::empty(), k);
            &&& st.points.len() == k
            &&& all_canonical(st.points)
            &&& st.tables == seq![
                folded_all(tables[0], st.points),
                folded_all(tables[1], st.points),
                folded_all(tables[2], st.points),
            ]
            &&& st.tables[0].len() == st.tables[1].len()
            &&& st.tables[0].len() == st.tables[2].len()
            &&& ceil_log2_spec(st.tables[0].len()) == ceil_log2_spec(tables[0].len()) - k
            &&& k > 0 ==> st.tables[0].len() == pow2((ceil_log2_spec(tables[0].len()) - k) as nat)
            &&& all_canonical(tables[0]) && all_canonical(tables[1]) && all_canonical(tables[2])
                && start.sum == triple_sum(tables[0], tables[1], tables[2]) ==> {
                &&& st.sum == triple_sum(st.tables[0], st.tables[1], st.tables[2])
                &&& all_canonical(st.tables[0])
                &&& all_canonical(st.tables[1])
                &&& all_canonical(st.tables[2])
            }
        }),
    decreases k,
{
    broadcast use lemma_residue_canonical;

    let st = cfg.sumcheck.run::<SelectorOracle>(start, rlc, Seq::empty(), k);
    if k == 0 {
        assert(st.tables =~= seq![tables[0], tables[1], tables[2]]);
    } else {
        let m = (k - 1) as nat;
        lemma_run_selector(cfg, start, rlc, tables, m);
        let before = cfg.sumcheck.run::<SelectorOracle>(start, rlc, Seq::empty(), m);
        lemma_rounds_fit(cfg);
        let r = st.points.last();
        assert(canonical(r)) by {
            lemma_selector_challenge(cfg, before, rlc, m);
        }
        assert(before.tables[0].len() > 1) by {
            assert(ceil_log2_spec(before.tables[0].len()) >= 1);
        }
        crate::sumcheck::lemma_half_len(before.tables[0].len());
        assert(st.points.drop_last() =~= before.points);
        assert(st.tables =~= seq![
            folded_all(tables[0], st.points),
            folded_all(tables[1], st.points),
            folded_all(tables[2], st.points),
        ]);
        if all_canonical(tables[0]) && all_canonical(tables[1]) && all_canonical(tables[2]) && start.sum
            == triple_sum(tables[0], tables[1], tables[2]) {
            law_cubic_round(before.tables[0], before.tables[1], before.tables[2], r);
            crate::vector_laws::lemma_folded_canonical(before.tables[0], r);
            crate::vector_laws::lemma_folded_canonical(before.tables[1], r);
            crate::vector_laws::lemma_folded_canonical(before.tables[2], r);
        }
    }
}

proof fn lemma_selector_challenge(cfg: &Config, st: RunState, rlc: int, m: nat)
    ensures
        canonical(cfg.sumcheck.step::<SelectorOracle>(st, rlc, Seq::empty(), m).points.last()),
{
    broadcast use lemma_residue_canonical;

}

/// The tables can be folded once per selector variable.
proof fn lemma_rounds_fit(cfg: &Config)
    requires
        cfg.wf(),
    ensures
        cfg.selector_dim <= ceil_log2_spec(cfg.sumcheck.initial_size as nat),
{
    let n = cfg.selector_dim as nat;
    let k = ceil_log2_spec(cfg.sumcheck.initial_size as nat);
    if k < n {
        lemma_pow2_strictly_increases(k, n);
    }
}

/// The lengths of the folded tables.
proof fn lemma_selector_lengths(cfg: &Config, tables: Seq<Seq<int>>, sum: int, p: ProverView)
    requires
        cfg.wf(),
        tables.len() == 3,
        tables[0].len() == cfg.sumcheck.initial_size,
        tables[1].len() == cfg.sumcheck.initial_size,
        tables[2].len() == cfg.sumcheck.initial_size,
    ensures
        cfg.proved(tables, sum, p).tables.len() == 3,
        cfg.proved(tables, sum, p).tables[0].len() > 0,
        is_pow2(cfg.message_length as nat) ==> cfg.proved(tables, sum, p).tables[0].len()
            == cfg.message_length,
{
    let (start, rlc) = cfg.sumcheck.begin(tables, sum, Seq::empty(), p);
    lemma_run_selector(cfg, start, rlc, tables, cfg.selector_dim as nat);
    lemma_rounds_fit(cfg);
    lemma_pow2_pos(cfg.selector_dim as nat);
    let (h, l) = (cfg.spec_padded() as int, cfg.message_length as int);
    assert(h * l > 0) by (nonlinear_arith)
        requires
            h > 0,
            l > 0,
    ;
    if cfg.selector_dim > 0 {
        lemma_pow2_pos(
            (ceil_log2_spec(tables[0].len()) - cfg.selector_dim) as nat,
        );
    }
    if is_pow2(cfg.message_length as nat) {
        let k = ceil_log2_spec(cfg.message_length as nat);
        let n = cfg.selector_dim as nat;
        crate::arith::lemma_pow2_sum(n, k);
        lemma_ceil_log2_pow2(n + k);
        if n == 0 {
            vstd::arithmetic::power2::lemma2_to64();
            assert(1 * l == l) by (nonlinear_arith);
        }
    }
}

/// Without masks the running sum is the claim itself.
proof fn lemma_selector_unmasked(cfg: &Config, tables: Seq<Seq<int>>, sum: int, p: ProverView)
    requires
        cfg.wf(),
    ensures
        canonical(sum) ==> ({
            let (end, rlc) = cfg.sumcheck.proved::<SelectorOracle>(tables, sum, Seq::empty(), p);
            masked_sum(end, rlc) == end.sum && rlc == 1
        }),
{
    broadcast use {lemma_residue_canonical, crate::sumcheck_laws::lemma_evaluate_canonical};

    if canonical(sum) {
        let sc = cfg.sumcheck;
        let (end, rlc) = sc.proved::<SelectorOracle>(tables, sum, Seq::empty(), p);
        assert(sc.num_rounds * 0 == 0) by (nonlinear_arith);
        lemma_selector_oracle_canonical();
        crate::sumcheck_laws::law_sumcheck_masks::<SelectorOracle>(&sc, tables, sum, Seq::empty(), p);
        let f = crate::sumcheck_laws::mask_values(Seq::empty(), 0, end.points);
        assert forall|j: int| 0 <= j < sc.num_rounds implies #[trigger] f(j) == 0 by {
            assert(j as nat * 0 == 0) by (nonlinear_arith);
        }
        crate::sums::lemma_fsum_zero(f, sc.num_rounds as nat);
        assert(canonical(end.sum)) by {
            let (start, r) = sc.begin(tables, sum, Seq::empty(), p);
            if sc.num_rounds > 0 {
                let before = sc.run::<SelectorOracle>(
                    start,
                    r,
                    Seq::empty(),
                    (sc.num_rounds - 1) as nat,
                );
                assert(end == sc.step::<SelectorOracle>(
                    before,
                    r,
                    Seq::empty(),
                    (sc.num_rounds - 1) as nat,
                ));
            }
        }
        lemma_fmul_one(end.sum);
        lemma_add_zero(end.sum);
    }
}

/// A selector claim that holds is reduced to one that holds: the final sum is the sum
/// of products of the tables with their selector variables set to the challenges.
pub proof fn law_selector_reduces(cfg: &Config, tables: Seq<Seq<int>>, p: ProverView)
    requires
        cfg.wf(),
        tables.len() == 3,
        tables[0].len() == cfg.sumcheck.initial_size,
        tables[1].len() == cfg.sumcheck.initial_size,
        tables[2].len() == cfg.sumcheck.initial_size,
        all_canonical(tables[0]),
        all_canonical(tables[1]),
        all_canonical(tables[2]),
    ensures
        ({
            let end = cfg.proved(tables, triple_sum(tables[0], tables[1], tables[2]), p);
            &&& end.points.len() == cfg.selector_dim
            &&& all_canonical(end.points)
            &&& end.tables == seq![
                folded_all(tables[0], end.points),
                folded_all(tables[1], end.points),
                folded_all(tables[2], end.points),
            ]
            &&& end.sum == triple_sum(end.tables[0], end.tables[1], end.tables[2])
            &&& all_canonical(end.tables[0])
            &&& all_canonical(end.tables[1])
            &&& all_canonical(end.tables[2])
        }),
{
    let sum = triple_sum(tables[0], tables[1], tables[2]);
    let (start, rlc) = cfg.sumcheck.begin(tables, sum, Seq::empty(), p);
    lemma_run_selector(cfg, start, rlc, tables, cfg.selector_dim as nat);
}

/// Completeness of the selector sumcheck.
pub proof fn law_selector_complete(
    cfg: &Config,
    tables: Seq<Seq<int>>,
    sum: int,
    p: ProverView,
    q: ProverView,
    tail: Seq<u64>,
)
    requires
        cfg.wf(),
        cfg.sumcheck.round_pow.bits == 0 || !q.stuck,
        canonical(sum),
        crate::transcript_laws::follows(cfg.proved(tables, sum, p).view, q),
    ensures
        ({
            let end = cfg.proved(tables, sum, p);
            &&& crate::transcript_laws::follows(p, end.view)
            &&& cfg.sumcheck.checked(sum, crate::transcript_laws::pending(p, q, tail)) == Some(
                (
                    sumcheck::CheckState {
                        sum: end.sum,
                        points: end.points,
                        view: crate::transcript_laws::pending(end.view, q, tail),
                    },
                    1int,
                ),
            )
        }),
{
    assert(cfg.sumcheck.num_rounds * 0 == 0) by (nonlinear_arith);
    lemma_selector_oracle_canonical();
    lemma_selector_unmasked(cfg, tables, sum, p);
    crate::sumcheck_laws::law_sumcheck_complete::<SelectorOracle>(
        &cfg.sumcheck,
        tables,
        sum,
        Seq::empty(),
        p,
        q,
        tail,
    );
}

impl Config {
    /// The sumcheck.
    pub fn sumcheck(&self) -> (r: &sumcheck::Config)
        ensures
            *r == self.sumcheck,
    {
        &self.sumcheck
    }
}

} // verus!
