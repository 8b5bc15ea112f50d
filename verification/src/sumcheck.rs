//! The sumcheck protocol, for round polynomials of any degree, with optional
//! masking.
//!
//! The prover loop owns the transcript, the masks, the challenges and the work;
//! the round polynomials come from a [`RoundPolyOracle`]. In zero-knowledge mode a
//! fresh mask polynomial is mixed into every round polynomial, and the running sum
//! is that of the masks plus a random multiple of the claimed one.

use crate::algebra::{evaluate, fold, folded, half_len, univariate_evaluate};
use crate::arith::{
    ceil_log2, ceil_log2_spec, lemma_ceil_log2, lemma_ceil_log2_pow2, next_pow2, power_of_two,
};
use crate::embedding::{images, lift, Embedding};
use crate::field::{fadd, fmul, fpow, fsub, lemma_residue_id, lemma_vals_push, vals, Field64};
use crate::proof_of_work;
use crate::round_poly::{
    compute_round_poly_degree2, linear_coefficient, quad_coefficients, with_linear,
};
use crate::sums::{entries, fsum, total};
use crate::transcript::{
    challenge, ProverState, ProverView, VerificationError, VerifierState, VerifierView,
};
use vstd::arithmetic::power2::{lemma_pow2_strictly_increases, lemma_pow2_unfold, pow2};
use vstd::prelude::*;

verus! {

/// The longest table whose length can be rounded up to a power of two.
pub open spec fn max_table_len() -> nat {
    (usize::MAX / 2 + 1) as nat
}

/// What a sumcheck leaves behind: the challenges, and the factor of the claimed sum
/// in the running one.
#[derive(Debug)]
pub struct SumcheckOpening {
    pub round_challenges: Vec<Field64>,
    pub mask_rlc: Field64,
}

/// The number of coefficients of a mask polynomial: at least three.
#[derive(Clone, Copy, Debug, PartialEq, Eq, Structural)]
pub struct SumcheckMaskLen {
    len: usize,
}

impl SumcheckMaskLen {
    /// The least mask length.
    pub const MIN: usize = 3;

    #[verifier::type_invariant]
    spec fn long_enough(&self) -> bool {
        self.len >= 3
    }

    /// The number of coefficients.
    pub closed spec fn spec_len(&self) -> nat {
        self.len as nat
    }

    /// A mask length.
    pub fn new(len: usize) -> (r: Self)
        requires
            len >= 3,
        ensures
            r.spec_len() == len,
    {
        SumcheckMaskLen { len }
    }

    /// The number of coefficients.
    pub fn get(self) -> (r: usize)
        ensures
            r == self.spec_len(),
            r >= 3,
    {
        proof {
            use_type_invariant(&self);
        }
        self.len
    }
}

/// Whether round polynomials are masked.
#[derive(Clone, Copy, Debug, PartialEq, Eq, Structural)]
pub enum SumcheckMode {
    Standard,
    ZeroKnowledge { mask_length: SumcheckMaskLen },
}

/// Every table with its first variable set to `r`.
pub open spec fn fold_tables(tables: Seq<Seq<int>>, r: int) -> Seq<Seq<int>> {
    Seq::new(tables.len(), |i: int| folded(tables[i], r))
}

/// Every table after an optional fold.
pub open spec fn fold_tables_opt(tables: Seq<Seq<int>>, r: Option<int>) -> Seq<Seq<int>> {
    match r {
        Some(w) => fold_tables(tables, w),
        None => tables,
    }
}

/// Have all tables the same length, short enough to round up?
pub open spec fn even_tables(tables: Seq<Seq<int>>) -> bool {
    forall|i: int|
        0 <= i < tables.len() ==> (#[trigger] tables[i]).len() == tables[0].len() && tables[i].len()
            <= max_table_len()
}

/// The value of an optional challenge.
pub open spec fn challenge_value(r: Option<Field64>) -> Option<int> {
    match r {
        Some(x) => Some(x@),
        None => None,
    }
}

/// Per-round polynomial provider for [`Config::prove_with_oracle`].
///
/// The oracle holds tables of one length; a challenge sets the first variable of
/// all of them.
pub trait RoundPolyOracle: Sized {
    /// The tables.
    spec fn tables(&self) -> Seq<Seq<int>>;

    /// How many tables there are.
    spec fn num_tables() -> nat;

    /// The degree of every round polynomial.
    spec fn poly_degree() -> nat;

    /// The coefficients of the round polynomial of these tables, without the linear
    /// one.
    spec fn coefficients(tables: Seq<Seq<int>>) -> Seq<int>;

    /// The degree of every round polynomial.
    fn degree(&self) -> (r: usize)
        ensures
            r == Self::poly_degree(),
    ;

    /// Fold the tables by the previous challenge, if there is one, then compute the
    /// round polynomial's coefficients `c_0, c_2, ..., c_d`.
    fn fold_and_compute(&mut self, prev_challenge: Option<Field64>) -> (r: Vec<Field64>)
        requires
            old(self).tables().len() == Self::num_tables(),
            even_tables(old(self).tables()),
        ensures
            final(self).tables() == fold_tables_opt(
                old(self).tables(),
                challenge_value(prev_challenge),
            ),
            final(self).tables().len() == Self::num_tables(),
            even_tables(final(self).tables()),
            vals(r@) == Self::coefficients(final(self).tables()),
            r@.len() == Self::poly_degree(),
    ;

    /// Fold the tables by the last challenge.
    fn finalize(&mut self, final_challenge: Field64)
        requires
            old(self).tables().len() == Self::num_tables(),
            even_tables(old(self).tables()),
        ensures
            final(self).tables() == fold_tables(old(self).tables(), final_challenge@),
            final(self).tables().len() == Self::num_tables(),
            even_tables(final(self).tables()),
    ;
}

/// Parameters of a sumcheck.
#[derive(Clone, Copy, Debug, PartialEq, Eq, Structural)]
pub struct Config {
    pub initial_size: usize,
    pub round_pow: proof_of_work::Config,
    pub num_rounds: usize,
    pub mode: SumcheckMode,
    pub degree: usize,
}

/// The inverse of two.
pub const ONE_HALF: u64 = 0x7FFF_FFFF_8000_0001;

/// `p(0) + p(1)`.
pub open spec fn eval_01_spec(coefficients: Seq<int>) -> int {
    if coefficients.len() == 0 {
        0
    } else {
        fadd(coefficients[0], total(coefficients))
    }
}

/// The mask of a round.
pub open spec fn mask_of_round(masks: Seq<int>, mask_len: nat, round: nat) -> Seq<int> {
    masks.subrange((round * mask_len) as int, (round * mask_len + mask_len) as int)
}

/// The share of the masks in coefficient `i` of a masked round polynomial.
pub open spec fn mask_share(mask: Seq<int>, mask_sum: int, multiple: int, i: int) -> int {
    let own = if i < mask.len() {
        fmul(multiple, mask[i])
    } else {
        0
    };
    if i == 0 {
        fadd(
            own,
            fmul(fsub(mask_sum, fmul(multiple, eval_01_spec(mask))), ONE_HALF as int),
        )
    } else {
        own
    }
}

/// A masked round polynomial: the mask times `multiple`, a constant that makes its
/// values at zero and one add up to `mask_sum`, and `mask_rlc` times the round
/// polynomial itself.
pub open spec fn masked_poly(
    poly: Seq<int>,
    mask: Seq<int>,
    mask_sum: int,
    mask_rlc: int,
    multiple: int,
    len: nat,
) -> Seq<int> {
    Seq::new(
        len,
        |i: int|
            if i < poly.len() {
                fadd(mask_share(mask, mask_sum, multiple, i), fmul(mask_rlc, poly[i]))
            } else {
                mask_share(mask, mask_sum, multiple, i)
            },
    )
}

/// The prover between two rounds.
pub struct RunState {
    pub tables: Seq<Seq<int>>,
    pub sum: int,
    pub mask_sum: int,
    pub points: Seq<int>,
    pub view: ProverView,
}

/// The verifier between two rounds.
pub struct CheckState {
    pub sum: int,
    pub points: Seq<int>,
    pub view: VerifierView,
}

impl Config {
    /// Can the table be folded this often, and has the polynomial a sensible degree?
    pub open spec fn wf(&self) -> bool {
        &&& self.num_rounds == 0 || next_pow2(self.initial_size as nat) >= pow2(self.num_rounds as nat)
        &&& self.initial_size <= max_table_len()
        &&& 2 <= self.degree < usize::MAX
    }

    /// The number of coefficients of a mask; zero without masks.
    pub open spec fn mask_len(&self) -> nat {
        match self.mode {
            SumcheckMode::Standard => 0,
            SumcheckMode::ZeroKnowledge { mask_length } => mask_length.spec_len(),
        }
    }

    /// The number of coefficients of a masked round polynomial.
    pub open spec fn poly_len(&self) -> nat {
        if self.mask_len() > self.degree + 1 {
            self.mask_len()
        } else {
            (self.degree + 1) as nat
        }
    }

    /// Is a mask sum sent first?
    pub open spec fn is_masked(&self) -> bool {
        self.mode is ZeroKnowledge && self.num_rounds > 0
    }

    /// The table length after all rounds.
    pub open spec fn spec_final_size(&self) -> nat {
        if self.initial_size == 0 || self.num_rounds == 0 {
            self.initial_size as nat
        } else {
            next_pow2(self.initial_size as nat) / pow2(self.num_rounds as nat)
        }
    }

    /// The sum that the masks contribute at first.
    pub open spec fn initial_mask_sum(&self, masks: Seq<int>) -> int {
        fmul(
            fsum(
                mask_evals(masks, self.mask_len()),
                self.num_rounds as nat,
            ),
            fpow(2, (self.num_rounds - 1) as nat),
        )
    }

    /// The prover before the first round, and the factor of the claimed sum.
    pub open spec fn begin(&self, tables: Seq<Seq<int>>, sum: int, masks: Seq<int>, p: ProverView) -> (
        RunState,
        int,
    ) {
        if self.is_masked() {
            let mask_sum = self.initial_mask_sum(masks);
            let sent = p.send_field(mask_sum);
            (
                RunState { tables, sum, mask_sum, points: Seq::empty(), view: sent.draw() },
                challenge(sent.sponge),
            )
        } else {
            (RunState { tables, sum, mask_sum: 0, points: Seq::empty(), view: p }, 1)
        }
    }

    /// The polynomial that the prover sends in a round.
    pub open spec fn sent_poly<O: RoundPolyOracle>(
        &self,
        st: RunState,
        mask_rlc: int,
        masks: Seq<int>,
        round: nat,
    ) -> Seq<int> {
        masked_poly(
            with_linear(st.sum, O::coefficients(st.tables)),
            mask_of_round(masks, self.mask_len(), round),
            st.mask_sum,
            mask_rlc,
            fpow(2, (self.num_rounds - round - 1) as nat),
            self.poly_len(),
        )
    }

    /// The prover after a round.
    pub open spec fn step<O: RoundPolyOracle>(
        &self,
        st: RunState,
        mask_rlc: int,
        masks: Seq<int>,
        round: nat,
    ) -> RunState {
        let poly = with_linear(st.sum, O::coefficients(st.tables));
        let sent = self.sent_poly::<O>(st, mask_rlc, masks, round);
        let worked = self.round_pow.proved(
            st.view.send_field(sent[0]).send_fields(sent.skip(2)),
        );
        let r = challenge(worked.sponge);
        let sum = evaluate(poly, r);
        RunState {
            tables: fold_tables(st.tables, r),
            sum,
            mask_sum: fsub(evaluate(sent, r), fmul(mask_rlc, sum)),
            points: st.points.push(r),
            view: worked.draw(),
        }
    }

    /// The prover after the first `k` rounds.
    pub open spec fn run<O: RoundPolyOracle>(
        &self,
        start: RunState,
        mask_rlc: int,
        masks: Seq<int>,
        k: nat,
    ) -> RunState
        decreases k,
    {
        if k == 0 {
            start
        } else {
            self.step::<O>(
                self.run::<O>(start, mask_rlc, masks, (k - 1) as nat),
                mask_rlc,
                masks,
                (k - 1) as nat,
            )
        }
    }

    /// The prover at the end, and the factor of the claimed sum.
    pub open spec fn proved<O: RoundPolyOracle>(
        &self,
        tables: Seq<Seq<int>>,
        sum: int,
        masks: Seq<int>,
        p: ProverView,
    ) -> (RunState, int) {
        let (start, mask_rlc) = self.begin(tables, sum, masks, p);
        (self.run::<O>(start, mask_rlc, masks, self.num_rounds as nat), mask_rlc)
    }

    /// The verifier before the first round, and the factor of the claimed sum.
    pub open spec fn begin_check(&self, sum: int, v: VerifierView) -> Option<(CheckState, int)> {
        if self.is_masked() {
            match v.read_field() {
                None => None,
                Some((mask_sum, next)) => Some(
                    (
                        CheckState {
                            sum: fadd(mask_sum, fmul(challenge(next.sponge), sum)),
                            points: Seq::empty(),
                            view: next.draw(),
                        },
                        challenge(next.sponge),
                    ),
                ),
            }
        } else {
            Some((CheckState { sum, points: Seq::empty(), view: v }, 1))
        }
    }

    /// The verifier after a round.
    pub open spec fn check_step(&self, st: CheckState) -> Option<CheckState> {
        match st.view.read_field() {
            None => None,
            Some((c0, v1)) => match v1.read_fields((self.poly_len() - 2) as nat) {
                None => None,
                Some((higher, v2)) => match self.round_pow.verified(v2) {
                    None => None,
                    Some(v3) => {
                        let poly = seq![c0, linear_coefficient(st.sum, c0, higher)] + higher;
                        let r = challenge(v3.sponge);
                        Some(
                            CheckState {
                                sum: evaluate(poly, r),
                                points: st.points.push(r),
                                view: v3.draw(),
                            },
                        )
                    },
                },
            },
        }
    }

    /// The verifier after the first `k` rounds.
    pub open spec fn check_run(&self, start: CheckState, k: nat) -> Option<CheckState>
        decreases k,
    {
        if k == 0 {
            Some(start)
        } else {
            match self.check_run(start, (k - 1) as nat) {
                None => None,
                Some(st) => self.check_step(st),
            }
        }
    }

    /// The verifier at the end, and the factor of the claimed sum.
    pub open spec fn checked(&self, sum: int, v: VerifierView) -> Option<(CheckState, int)> {
        match self.begin_check(sum, v) {
            None => None,
            Some((start, mask_rlc)) => match self.check_run(start, self.num_rounds as nat) {
                None => None,
                Some(st) => Some((st, mask_rlc)),
            },
        }
    }
}

/// `p(0) + p(1)` of every mask.
pub open spec fn mask_evals(masks: Seq<int>, mask_len: nat) -> spec_fn(int) -> int {
    |j: int| eval_01_spec(mask_of_round(masks, mask_len, j as nat))
}

fn eval_01(coefficients: &[Field64]) -> (r: Field64)
    ensures
        r@ == eval_01_spec(vals(coefficients@)),
{
    if coefficients.len() == 0 {
        return Field64::zero();
    }
    coefficients[0].add(sum_of(coefficients))
}

/// The sum of the elements.
pub fn sum_of(xs: &[Field64]) -> (r: Field64)
    ensures
        r@ == total(vals(xs@)),
{
    let mut acc: Field64 = Field64::zero();
    for i in 0..xs.len()
        invariant
            acc@ == fsum(entries(vals(xs@)), i as nat),
    {
        acc = acc.add(xs[i]);
    }
    acc
}

/// Folding a table of a short enough length gives a short enough one.
pub proof fn lemma_fold_tables_even(tables: Seq<Seq<int>>, r: int)
    requires
        even_tables(tables),
    ensures
        even_tables(fold_tables(tables, r)),
        fold_tables(tables, r).len() == tables.len(),
{
    let out = fold_tables(tables, r);
    assert forall|i: int| 0 <= i < out.len() implies (#[trigger] out[i]).len() == out[0].len()
        && out[i].len() <= max_table_len() by {
        assert(tables[i].len() == tables[0].len());
        lemma_half_len(tables[i].len());
    }
}

/// A fold does not lengthen a table.
pub proof fn lemma_half_len(n: nat)
    ensures
        half_len(n) <= n,
        n > 1 ==> half_len(n) >= 1,
        n != 1 ==> n <= 2 * half_len(n),
        n > 1 ==> ceil_log2_spec(half_len(n)) == ceil_log2_spec(n) - 1,
        half_len(n) == 0 || half_len(n) == pow2((ceil_log2_spec(n) - 1) as nat),
        n <= 1 ==> half_len(n) == 0,
{
    lemma_ceil_log2(n);
    if n <= 1 {
        vstd::arithmetic::power2::lemma2_to64();
    } else {
        let k = ceil_log2_spec(n);
        lemma_pow2_unfold(k);
        lemma_ceil_log2_pow2((k - 1) as nat);
        vstd::arithmetic::power2::lemma_pow2_pos((k - 1) as nat);
    }
}

impl Config {
    /// A sumcheck of `num_rounds` rounds on tables of length `initial_size`.
    pub fn new(
        initial_size: usize,
        round_pow: proof_of_work::Config,
        num_rounds: usize,
        mode: SumcheckMode,
        degree: usize,
    ) -> (r: Self)
        requires
            num_rounds == 0 || next_pow2(initial_size as nat) >= pow2(num_rounds as nat),
            initial_size <= max_table_len(),
            2 <= degree < usize::MAX,
        ensures
            r.wf(),
            r == (Config { initial_size, round_pow, num_rounds, mode, degree }),
    {
        Config { initial_size, round_pow, num_rounds, mode, degree }
    }

    /// The degree of the round polynomials.
    pub fn degree(&self) -> (r: usize)
        ensures
            r == self.degree,
    {
        self.degree
    }

    /// The table length before the first round.
    pub fn initial_size(&self) -> (r: usize)
        ensures
            r == self.initial_size,
    {
        self.initial_size
    }

    /// The work per round.
    pub fn round_pow(&self) -> (r: proof_of_work::Config)
        ensures
            r == self.round_pow,
    {
        self.round_pow
    }

    /// The number of rounds.
    pub fn num_rounds(&self) -> (r: usize)
        ensures
            r == self.num_rounds,
    {
        self.num_rounds
    }

    /// Whether round polynomials are masked.
    pub fn mode(&self) -> (r: SumcheckMode)
        ensures
            r == self.mode,
    {
        self.mode
    }

    /// The number of coefficients of a mask; zero without masks.
    pub fn mask_length(&self) -> (r: usize)
        ensures
            r == self.mask_len(),
    {
        match self.mode {
            SumcheckMode::Standard => 0,
            SumcheckMode::ZeroKnowledge { mask_length } => mask_length.get(),
        }
    }

    /// The table length after all rounds.
    pub fn final_size(&self) -> (r: usize)
        requires
            self.wf(),
        ensures
            r == self.spec_final_size(),
    {
        if self.initial_size == 0 || self.num_rounds == 0 {
            return self.initial_size;
        }
        let k: u32 = ceil_log2(self.initial_size);
        proof {
            let n = self.initial_size as nat;
            let m = self.num_rounds as nat;
            lemma_ceil_log2(n);
            if k < m {
                lemma_pow2_strictly_increases(k as nat, m);
            }
            crate::arith::lemma_pow2_sum((k - m) as nat, m);
            vstd::arithmetic::div_mod::lemma_div_multiples_vanish(
                pow2((k - m) as nat) as int,
                pow2(m) as int,
            );
            assert(pow2(m) * pow2((k - m) as nat) == pow2((k - m) as nat) * pow2(m)) by (nonlinear_arith);
            if k - m < k {
                lemma_pow2_strictly_increases((k - m) as nat, k as nat);
            }
        }
        power_of_two(k as usize - self.num_rounds)
    }

    fn polynomial_len(&self) -> (r: usize)
        requires
            self.wf(),
        ensures
            r == self.poly_len(),
    {
        let m: usize = self.mask_length();
        if m > self.degree + 1 {
            m
        } else {
            self.degree + 1
        }
    }

    /// Send the sum of the masks and draw the factor of the claimed sum, in
    /// zero-knowledge mode.
    fn maybe_send_initial_mask_sum(&self, ps: &mut ProverState, masks: &[Field64]) -> (r: (
        Field64,
        Field64,
    ))
        requires
            masks@.len() == self.num_rounds * self.mask_len(),
        ensures
            ({
                let (start, mask_rlc) = self.begin(Seq::empty(), 0, vals(masks@), old(ps)@);
                &&& r.0@ == start.mask_sum
                &&& r.1@ == mask_rlc
                &&& final(ps)@ == start.view
            }),
    {
        match self.mode {
            SumcheckMode::Standard => (Field64::zero(), Field64::one()),
            SumcheckMode::ZeroKnowledge { mask_length } => {
                if self.num_rounds == 0 {
                    return (Field64::zero(), Field64::one());
                }
                let len: usize = mask_length.get();
                let ghost terms = mask_evals(vals(masks@), len as nat);
                let mut acc: Field64 = Field64::zero();
                for j in 0..self.num_rounds
                    invariant
                        len == self.mask_len(),
                        masks@.len() == self.num_rounds * self.mask_len(),
                        terms == mask_evals(vals(masks@), len as nat),
                        acc@ == fsum(terms, j as nat),
                {
                    let mask: &[Field64] = chunk(masks, len, j, self.num_rounds);
                    acc = acc.add(eval_01(mask));
                }
                let two: Field64 = two();
                let mask_sum: Field64 = acc.mul(two.pow((self.num_rounds - 1) as u64));
                ps.prover_message(mask_sum);
                let mask_rlc: Field64 = ps.verifier_message();
                (mask_sum, mask_rlc)
            },
        }
    }

    /// Generic sumcheck prover: it drives the transcript, the masks, the challenges
    /// and the work, and leaves the oracle's tables folded by every challenge.
    pub fn prove_with_oracle<O: RoundPolyOracle>(
        &self,
        ps: &mut ProverState,
        sum: &mut Field64,
        masks: &[Field64],
        oracle: &mut O,
    ) -> (r: SumcheckOpening)
        requires
            self.wf(),
            O::poly_degree() == self.degree,
            masks@.len() == self.num_rounds * self.mask_len(),
            old(oracle).tables().len() == O::num_tables(),
            even_tables(old(oracle).tables()),
        ensures
            ({
                let (end, mask_rlc) = self.proved::<O>(
                    old(oracle).tables(),
                    old(sum)@,
                    vals(masks@),
                    old(ps)@,
                );
                &&& final(ps)@ == end.view
                &&& final(sum)@ == fadd(end.mask_sum, fmul(mask_rlc, end.sum))
                &&& final(oracle).tables() == end.tables
                &&& vals(r.round_challenges@) == end.points
                &&& r.mask_rlc@ == mask_rlc
            }),
            r.round_challenges@.len() == self.num_rounds,
            final(oracle).tables().len() == O::num_tables(),
            even_tables(final(oracle).tables()),
    {
        let ghost ms = vals(masks@);
        let ghost (start, rlc) = self.begin(oracle.tables(), sum@, ms, ps@);
        let degree: usize = self.degree;
        let half: Field64 = Field64::new(ONE_HALF);
        proof {
            lemma_residue_id(ONE_HALF as int);
        }
        let polynomial_len: usize = self.polynomial_len();
        let mask_len: usize = self.mask_length();
        let (mask_sum_0, mask_rlc): (Field64, Field64) = self.maybe_send_initial_mask_sum(ps, masks);
        let mut mask_sum: Field64 = mask_sum_0;
        let mut round_challenges: Vec<Field64> = Vec::new();
        let mut prev_round_challenge: Option<Field64> = None;
        assert(vals(round_challenges@) =~= Seq::<int>::empty());
        for round in 0..self.num_rounds
            invariant
                self.wf(),
                O::poly_degree() == self.degree,
                degree == self.degree,
                half@ == ONE_HALF as int,
                polynomial_len == self.poly_len(),
                mask_len == self.mask_len(),
                masks@.len() == self.num_rounds * self.mask_len(),
                ms == vals(masks@),
                mask_rlc@ == rlc,
                oracle.tables().len() == O::num_tables(),
                even_tables(oracle.tables()),
                round_challenges@.len() == round,
                ({
                    let st = self.run::<O>(start, rlc, ms, round as nat);
                    &&& st.tables == fold_tables_opt(
                        oracle.tables(),
                        challenge_value(prev_round_challenge),
                    )
                    &&& st.sum == sum@
                    &&& st.mask_sum == mask_sum@
                    &&& st.points == vals(round_challenges@)
                    &&& st.view == ps@
                }),
                prev_round_challenge is None <==> round == 0,
        {
            let ghost st = self.run::<O>(start, rlc, ms, round as nat);
            let coeffs: Vec<Field64> = oracle.fold_and_compute(prev_round_challenge);
            let poly: Vec<Field64> = full_polynomial(*sum, coeffs.as_slice());
            let mask: &[Field64] = chunk(masks, mask_len, round, self.num_rounds);
            let multiple: Field64 = two().pow((self.num_rounds - round - 1) as u64);
            let correction: Field64 = mask_sum.sub(multiple.mul(eval_01(mask))).mul(half);
            let mut univariate: Vec<Field64> = Vec::new();
            let ghost target = self.sent_poly::<O>(st, rlc, ms, round as nat);
            for i in 0..polynomial_len
                invariant
                    univariate@.len() == i,
                    polynomial_len == self.poly_len(),
                    vals(mask@) == mask_of_round(ms, self.mask_len(), round as nat),
                    correction@ == fmul(
                        fsub(mask_sum@, fmul(multiple@, eval_01_spec(vals(mask@)))),
                        ONE_HALF as int,
                    ),
                    multiple@ == fpow(2, (self.num_rounds - round - 1) as nat),
                    vals(poly@) == with_linear(st.sum, O::coefficients(st.tables)),
                    st.mask_sum == mask_sum@,
                    mask_rlc@ == rlc,
                    target == self.sent_poly::<O>(st, rlc, ms, round as nat),
                    forall|j: int| 0 <= j < i ==> (#[trigger] univariate@[j])@ == target[j],
            {
                let mut u: Field64 = if i < mask.len() {
                    multiple.mul(mask[i])
                } else {
                    Field64::zero()
                };
                if i == 0 {
                    u = u.add(correction);
                }
                if i < poly.len() {
                    u = u.add(mask_rlc.mul(poly[i]));
                }
                univariate.push(u);
            }
            assert(vals(univariate@) =~= target);
            ps.prover_message(univariate[0]);
            let rest: &[Field64] = vstd::slice::slice_subrange(univariate.as_slice(), 2, polynomial_len);
            assert(vals(rest@) =~= target.skip(2));
            ps.prover_messages(rest);
            self.round_pow.prove(ps);
            let r: Field64 = ps.verifier_message();
            proof {
                lemma_vals_push(round_challenges@, r);
            }
            round_challenges.push(r);
            *sum = univariate_evaluate(poly.as_slice(), r);
            mask_sum = univariate_evaluate(univariate.as_slice(), r).sub(mask_rlc.mul(*sum));
            prev_round_challenge = Some(r);
        }
        match prev_round_challenge {
            Some(r) => {
                oracle.finalize(r);
            },
            None => {},
        }
        *sum = mask_sum.add(mask_rlc.mul(*sum));
        SumcheckOpening { round_challenges, mask_rlc }
    }

    /// Reduce a claim `dot(a, b) == sum`: both vectors are folded by every challenge. The
    /// first one is lifted through the embedding; the proof is that of the lifted vector.
    pub fn prove<M: Embedding>(
        &self,
        ps: &mut ProverState,
        embedding: &M,
        a: Vec<M::Source>,
        b: Vec<Field64>,
        sum: &mut Field64,
        masks: &[Field64],
    ) -> (r: (Vec<Field64>, Vec<Field64>, SumcheckOpening))
        requires
            self.wf(),
            self.degree == 2,
            a@.len() == self.initial_size,
            b@.len() == self.initial_size,
            masks@.len() == self.num_rounds * self.mask_len(),
        ensures
            ({
                let (end, mask_rlc) = self.proved::<DotProductOracle>(
                    seq![images(*embedding, a@), vals(b@)],
                    old(sum)@,
                    vals(masks@),
                    old(ps)@,
                );
                &&& final(ps)@ == end.view
                &&& final(sum)@ == fadd(end.mask_sum, fmul(mask_rlc, end.sum))
                &&& seq![vals(r.0@), vals(r.1@)] == end.tables
                &&& vals(r.2.round_challenges@) == end.points
                &&& r.2.mask_rlc@ == mask_rlc
            }),
            r.2.round_challenges@.len() == self.num_rounds,
            r.0@.len() == r.1@.len(),
    {
        let lifted: Vec<Field64> = lift(embedding, a.as_slice());
        self.prove_lifted(ps, lifted, b, sum, masks)
    }

    /// Reduce a claim `dot(a, b) == sum` about vectors over the field itself.
    pub fn prove_lifted(
        &self,
        ps: &mut ProverState,
        a: Vec<Field64>,
        b: Vec<Field64>,
        sum: &mut Field64,
        masks: &[Field64],
    ) -> (r: (Vec<Field64>, Vec<Field64>, SumcheckOpening))
        requires
            self.wf(),
            self.degree == 2,
            a@.len() == self.initial_size,
            b@.len() == self.initial_size,
            masks@.len() == self.num_rounds * self.mask_len(),
        ensures
            ({
                let (end, mask_rlc) = self.proved::<DotProductOracle>(
                    seq![vals(a@), vals(b@)],
                    old(sum)@,
                    vals(masks@),
                    old(ps)@,
                );
                &&& final(ps)@ == end.view
                &&& final(sum)@ == fadd(end.mask_sum, fmul(mask_rlc, end.sum))
                &&& seq![vals(r.0@), vals(r.1@)] == end.tables
                &&& vals(r.2.round_challenges@) == end.points
                &&& r.2.mask_rlc@ == mask_rlc
            }),
            r.2.round_challenges@.len() == self.num_rounds,
            r.0@.len() == r.1@.len(),
    {
        let mut oracle: DotProductOracle = DotProductOracle { a, b };
        let opening: SumcheckOpening = self.prove_with_oracle(ps, sum, masks, &mut oracle);
        proof {
            assert(oracle.tables()[1].len() == oracle.tables()[0].len());
        }
        (oracle.a, oracle.b, opening)
    }

    /// Follow the prover's messages; `sum` becomes the running sum after the last
    /// round.
    pub fn verify(&self, vs: &mut VerifierState, sum: &mut Field64) -> (r: Result<
        SumcheckOpening,
        VerificationError,
    >)
        requires
            self.wf(),
        ensures
            match self.checked(old(sum)@, old(vs)@) {
                None => r is Err,
                Some((end, mask_rlc)) => {
                    &&& r is Ok
                    &&& final(vs)@ == end.view
                    &&& final(sum)@ == end.sum
                    &&& vals(r->Ok_0.round_challenges@) == end.points
                    &&& r->Ok_0.mask_rlc@ == mask_rlc
                    &&& r->Ok_0.round_challenges@.len() == self.num_rounds
                },
            },
    {
        let ghost begun = self.begin_check(sum@, vs@);
        let mask_rlc: Field64 = match self.maybe_receive_initial_mask_sum(vs, sum) {
            Ok(c) => c,
            Err(e) => {
                return Err(e);
            },
        };
        let ghost start = begun.unwrap().0;
        let higher_len: usize = self.polynomial_len() - 2;
        let mut round_challenges: Vec<Field64> = Vec::new();
        assert(vals(round_challenges@) =~= Seq::<int>::empty());
        for round in 0..self.num_rounds
            invariant
                self.wf(),
                higher_len == self.poly_len() - 2,
                begun == Some((start, mask_rlc@)),
                begun == self.begin_check(old(sum)@, old(vs)@),
                round_challenges@.len() == round,
                self.check_run(start, round as nat) == Some(
                    CheckState { sum: sum@, points: vals(round_challenges@), view: vs@ },
                ),
        {
            let c0: Field64 = match vs.prover_message() {
                Ok(c) => c,
                Err(e) => {
                    proof {
                        lemma_check_fails(self, start, (round + 1) as nat, self.num_rounds as nat);
                    }
                    return Err(e);
                },
            };
            let higher: Vec<Field64> = match vs.prover_messages(higher_len) {
                Ok(h) => h,
                Err(e) => {
                    proof {
                        lemma_check_fails(self, start, (round + 1) as nat, self.num_rounds as nat);
                    }
                    return Err(e);
                },
            };
            // The linear coefficient follows from p(0) + p(1) = sum.
            let c1: Field64 = sum.sub(c0.add(c0)).sub(sum_of(higher.as_slice()));
            match self.round_pow.verify(vs) {
                Ok(()) => {},
                Err(e) => {
                    proof {
                        lemma_check_fails(self, start, (round + 1) as nat, self.num_rounds as nat);
                    }
                    return Err(e);
                },
            }
            let r: Field64 = vs.verifier_message();
            let mut univariate: Vec<Field64> = Vec::new();
            univariate.push(c0);
            univariate.push(c1);
            for i in 0..higher.len()
                invariant
                    univariate@.len() == i + 2,
                    univariate@[0] == c0,
                    univariate@[1] == c1,
                    forall|j: int| 0 <= j < i ==> #[trigger] univariate@[j + 2] == higher@[j],
            {
                univariate.push(higher[i]);
            }
            proof {
                let poly = seq![c0@, c1@] + vals(higher@);
                assert forall|j: int| 0 <= j < poly.len() implies vals(univariate@)[j] == poly[j] by {
                    if j >= 2 {
                        assert(univariate@[(j - 2) + 2] == higher@[j - 2]);
                    }
                }
                assert(vals(univariate@) =~= poly);
                lemma_vals_push(round_challenges@, r);
            }
            round_challenges.push(r);
            *sum = univariate_evaluate(univariate.as_slice(), r);
        }
        Ok(SumcheckOpening { round_challenges, mask_rlc })
    }

    /// Read the sum of the masks and draw the factor of the claimed sum, in
    /// zero-knowledge mode.
    fn maybe_receive_initial_mask_sum(&self, vs: &mut VerifierState, sum: &mut Field64) -> (r: Result<
        Field64,
        VerificationError,
    >)
        ensures
            match self.begin_check(old(sum)@, old(vs)@) {
                None => r is Err,
                Some((start, mask_rlc)) => r is Ok && r->Ok_0@ == mask_rlc && final(sum)@ == start.sum
                    && final(vs)@ == start.view,
            },
    {
        match self.mode {
            SumcheckMode::Standard => Ok(Field64::one()),
            SumcheckMode::ZeroKnowledge { mask_length } => {
                if self.num_rounds == 0 {
                    return Ok(Field64::one());
                }
                let mask_sum: Field64 = match vs.prover_message() {
                    Ok(m) => m,
                    Err(e) => {
                        return Err(e);
                    },
                };
                let mask_rlc: Field64 = vs.verifier_message();
                *sum = mask_sum.add(mask_rlc.mul(*sum));
                Ok(mask_rlc)
            },
        }
    }
}

proof fn lemma_check_fails(cfg: &Config, start: CheckState, k: nat, n: nat)
    requires
        k <= n,
        cfg.check_run(start, k) is None,
    ensures
        cfg.check_run(start, n) is None,
    decreases n,
{
    if k < n {
        lemma_check_fails(cfg, start, k, (n - 1) as nat);
    }
}

fn two() -> (r: Field64)
    ensures
        r@ == 2,
{
    proof {
        lemma_residue_id(2);
    }
    Field64::new(2)
}

/// The `j`-th run of `len` elements.
fn chunk(xs: &[Field64], len: usize, j: usize, count: usize) -> (r: &[Field64])
    requires
        xs@.len() == count * len,
        j < count,
    ensures
        vals(r@) == mask_of_round(vals(xs@), len as nat, j as nat),
        r@.len() == len,
{
    let n: usize = xs.len();
    proof {
        assert(n == count * len);
        assert(j * len + len <= count * len) by (nonlinear_arith)
            requires
                j < count,
        ;
        assert(j * len >= 0) by (nonlinear_arith);
    }
    let r: &[Field64] = vstd::slice::slice_subrange(xs, j * len, j * len + len);
    assert(vals(r@) =~= mask_of_round(vals(xs@), len as nat, j as nat));
    r
}

/// All coefficients of the round polynomial, the linear one from the claimed sum.
fn full_polynomial(sum: Field64, coeffs: &[Field64]) -> (r: Vec<Field64>)
    requires
        coeffs@.len() >= 1,
    ensures
        vals(r@) == with_linear(sum@, vals(coeffs@)),
{
    let high: &[Field64] = vstd::slice::slice_subrange(coeffs, 1, coeffs.len());
    assert(vals(high@) =~= vals(coeffs@).drop_first());
    let c0: Field64 = coeffs[0];
    let c1: Field64 = sum.sub(c0.add(c0)).sub(sum_of(high));
    let mut out: Vec<Field64> = Vec::new();
    out.push(c0);
    out.push(c1);
    for i in 0..high.len()
        invariant
            out@.len() == i + 2,
            out@[0] == c0,
            out@[1] == c1,
            forall|j: int| 0 <= j < i ==> #[trigger] out@[j + 2] == high@[j],
    {
        out.push(high[i]);
    }
    proof {
        let poly = with_linear(sum@, vals(coeffs@));
        assert forall|j: int| 0 <= j < poly.len() implies vals(out@)[j] == poly[j] by {
            if j >= 2 {
                assert(out@[(j - 2) + 2] == high@[j - 2]);
            }
        }
        assert(vals(out@) =~= poly);
    }
    out
}

/// Degree-2 oracle for [`Config::prove_with_oracle`]: the inner product of two
/// vectors.
pub struct DotProductOracle {
    pub a: Vec<Field64>,
    pub b: Vec<Field64>,
}

impl RoundPolyOracle for DotProductOracle {
    open spec fn tables(&self) -> Seq<Seq<int>> {
        seq![vals(self.a@), vals(self.b@)]
    }

    open spec fn num_tables() -> nat {
        2
    }

    open spec fn poly_degree() -> nat {
        2
    }

    open spec fn coefficients(tables: Seq<Seq<int>>) -> Seq<int> {
        quad_coefficients(tables[0], tables[1])
    }

    fn degree(&self) -> (r: usize) {
        2
    }

    fn fold_and_compute(&mut self, prev_challenge: Option<Field64>) -> (r: Vec<Field64>) {
        match prev_challenge {
            Some(w) => {
                self.finalize(w);
            },
            None => {},
        }
        proof {
            assert(self.tables()[1].len() == self.tables()[0].len());
        }
        let (c0, c2): (Field64, Field64) = compute_round_poly_degree2(
            self.a.as_slice(),
            self.b.as_slice(),
        );
        let r: Vec<Field64> = vec![c0, c2];
        assert(vals(r@) =~= seq![c0@, c2@]);
        r
    }

    fn finalize(&mut self, final_challenge: Field64) {
        let ghost before = self.tables();
        proof {
            assert(before[1].len() == before[0].len());
            lemma_fold_tables_even(before, final_challenge@);
        }
        fold(&mut self.a, final_challenge);
        fold(&mut self.b, final_challenge);
        assert(self.tables() =~= fold_tables(before, final_challenge@));
    }
}

} // verus!
