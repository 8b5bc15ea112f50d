//! Selector-merge: reduce several blocks of one code to a single virtual block.
//!
//! A single block passes through and nothing is sent.

use crate::algebra::{dot, dot_spec, eq_table, eq_weights, scaled, zeros_spec};
use crate::arith::{ceil_log2_spec, is_pow2, lemma_ceil_log2, next_pow2};
use crate::code_switch::sub_vec;
use crate::field::{lemma_vals_push, vals, Field64};
use crate::irs_commit::{all_vals, lemma_challenges_len};
use crate::linear_form::{eq_polynomial, eq_product};
use crate::proof_of_work;
use crate::sumcheck::max_table_len;
use crate::transcript::{
    challenges, ProverState, ProverView, VerificationError, VerifierState, VerifierView,
};
use crate::zook::batched::selector::sumcheck;
use vstd::prelude::*;

verus! {

/// Parameters of a selector-merge of `t` blocks.
#[derive(Clone, Copy, Debug, PartialEq, Eq, Structural)]
pub struct Config {
    pub selector: sumcheck::Config,
    pub t: usize,
}

/// Prover-side output of the merge.
#[derive(Debug)]
pub struct Witness {
    pub merged_message: Vec<Field64>,
    pub merged_covector: Vec<Field64>,
    pub sum: Field64,
    pub delta: Vec<Field64>,
    pub eta: Field64,
    pub theta: Vec<Field64>,
}

/// Verifier-side output of the merge.
#[derive(Debug)]
pub struct Opening {
    pub sum: Field64,
    pub delta: Vec<Field64>,
    pub eta: Field64,
    pub theta: Vec<Field64>,
}

/// Prover-side output of the merge, as a mathematical value.
pub struct Merged {
    pub message: Seq<int>,
    pub covector: Seq<int>,
    pub sum: int,
    pub delta: Seq<int>,
    pub eta: int,
    pub theta: Seq<int>,
    pub view: ProverView,
}

/// Verifier-side output of the merge, as a mathematical value.
pub struct MergeChecked {
    pub sum: int,
    pub delta: Seq<int>,
    pub eta: int,
    pub theta: Seq<int>,
    pub view: VerifierView,
}

/// Every entry of `s`, repeated `len` times: the first `k` of them.
pub open spec fn repeated(s: Seq<int>, len: nat, k: nat) -> Seq<int>
    decreases k,
{
    if k == 0 {
        Seq::empty()
    } else {
        repeated(s, len, (k - 1) as nat) + Seq::new(len, |i: int| s[k - 1])
    }
}

/// Blocks one after the other, zeros for missing ones: the first `k` of them.
pub open spec fn stacked(blocks: Seq<Seq<int>>, len: nat, k: nat) -> Seq<int>
    decreases k,
{
    if k == 0 {
        Seq::empty()
    } else {
        stacked(blocks, len, (k - 1) as nat) + (if k - 1 < blocks.len() {
            blocks[k - 1]
        } else {
            zeros_spec(len)
        })
    }
}

impl Config {
    /// Enough selector variables for the blocks, and none for a single one.
    pub open spec fn wf(&self) -> bool {
        &&& self.selector.wf()
        &&& self.t >= 1
        &&& self.selector.selector_dim == ceil_log2_spec(self.t as nat)
    }

    /// The three tables of the selector sumcheck.
    pub open spec fn tables(&self, eq: Seq<int>, messages: Seq<Seq<int>>, covectors: Seq<Seq<int>>) -> Seq<
        Seq<int>,
    > {
        let h = self.selector.spec_padded();
        let l = self.selector.message_length as nat;
        seq![repeated(eq, l, h), stacked(messages, l, h), stacked(covectors, l, h)]
    }

    /// The prover's merge.
    pub open spec fn merged(
        &self,
        messages: Seq<Seq<int>>,
        covectors: Seq<Seq<int>>,
        sums: Seq<int>,
        p: ProverView,
    ) -> Merged {
        if self.t == 1 {
            Merged {
                message: messages[0],
                covector: covectors[0],
                sum: sums[0],
                delta: Seq::empty(),
                eta: 1,
                theta: seq![1int],
                view: p,
            }
        } else {
            let n = self.selector.selector_dim as nat;
            let eq = eq_table(challenges(p.sponge, n));
            let end = self.selector.proved(
                self.tables(eq, messages, covectors),
                dot_spec(sums, eq),
                p.draw_many(n),
            );
            let eta = end.tables[0][0];
            Merged {
                message: end.tables[1],
                covector: scaled(end.tables[2], eta),
                sum: end.sum,
                delta: end.points,
                eta,
                theta: eq_table(end.points).take(self.t as int),
                view: end.view,
            }
        }
    }

    /// The verifier's merge; `None` if it rejects.
    pub open spec fn merge_checked(&self, sums: Seq<int>, v: VerifierView) -> Option<MergeChecked> {
        if self.t == 1 {
            Some(
                MergeChecked {
                    sum: sums[0],
                    delta: Seq::empty(),
                    eta: 1,
                    theta: seq![1int],
                    view: v,
                },
            )
        } else {
            let n = self.selector.selector_dim as nat;
            let beta = challenges(v.sponge, n);
            match self.selector.sumcheck.checked(dot_spec(sums, eq_table(beta)), v.draw_many(n)) {
                None => None,
                Some((end, rlc)) => Some(
                    MergeChecked {
                        sum: end.sum,
                        delta: end.points,
                        eta: eq_product(end.points, beta),
                        theta: eq_table(end.points).take(self.t as int),
                        view: end.view,
                    },
                ),
            }
        }
    }

    /// A merge of `t` blocks of messages of length `message_length`.
    pub fn new(t: usize, message_length: usize, round_pow: proof_of_work::Config) -> (r: Self)
        requires
            t >= 1,
            message_length >= 1,
            next_pow2(t as nat) * message_length <= max_table_len(),
        ensures
            r.wf(),
            r.t == t,
            r.selector.message_length == message_length,
            r.selector.sumcheck.round_pow == round_pow,
    {
        Config { selector: sumcheck::Config::new(t, message_length, round_pow), t }
    }

    /// The number of blocks.
    pub fn t(&self) -> (r: usize)
        ensures
            r == self.t,
    {
        self.t
    }

    /// The length of every block's message.
    pub fn message_length(&self) -> (r: usize)
        ensures
            r == self.selector.message_length,
    {
        self.selector.message_length
    }

    /// The number of selector variables.
    pub fn selector_dim(&self) -> (r: usize)
        ensures
            r == self.selector.selector_dim,
    {
        self.selector.selector_dim
    }

    /// The number of blocks, padded to a power of two.
    pub fn padded_size(&self) -> (r: usize)
        requires
            self.wf(),
        ensures
            r == self.selector.spec_padded(),
    {
        self.selector.padded_size()
    }

    /// The number of blocks fits the padded size.
    proof fn lemma_fits(&self)
        requires
            self.wf(),
        ensures
            self.t <= self.selector.spec_padded(),
            self.selector.spec_padded() >= 1,
    {
        lemma_ceil_log2(self.t as nat);
    }

    /// Merge blocks whose sums are the inner products of their messages and covectors.
    pub fn prove(
        &self,
        ps: &mut ProverState,
        messages: &[Vec<Field64>],
        covectors: &[Vec<Field64>],
        sums: &[Field64],
    ) -> (r: Witness)
        requires
            self.wf(),
            messages@.len() == self.t,
            covectors@.len() == self.t,
            sums@.len() == self.t,
            forall|b: int|
                0 <= b < messages@.len() ==> (#[trigger] messages@[b])@.len()
                    == self.selector.message_length,
            forall|b: int|
                0 <= b < covectors@.len() ==> (#[trigger] covectors@[b])@.len()
                    == self.selector.message_length,
        ensures
            ({
                let m = self.merged(
                    all_vals(messages@),
                    all_vals(covectors@),
                    vals(sums@),
                    old(ps)@,
                );
                &&& vals(r.merged_message@) == m.message
                &&& vals(r.merged_covector@) == m.covector
                &&& r.sum@ == m.sum
                &&& vals(r.delta@) == m.delta
                &&& r.eta@ == m.eta
                &&& vals(r.theta@) == m.theta
                &&& final(ps)@ == m.view
            }),
            r.merged_message@.len() == r.merged_covector@.len(),
            is_pow2(self.selector.message_length as nat) ==> r.merged_message@.len()
                == self.selector.message_length,
            r.theta@.len() == self.t,
    {
        let ghost ms = all_vals(messages@);
        let ghost vs = all_vals(covectors@);
        if self.t == 1 {
            let delta: Vec<Field64> = Vec::new();
            let theta: Vec<Field64> = vec![Field64::one()];
            proof {
                assert(vals(delta@) =~= Seq::<int>::empty());
                assert(vals(theta@) =~= seq![1int]);
                assert(ms[0] == vals(messages@[0]@));
                assert(vs[0] == vals(covectors@[0]@));
            }
            return Witness {
                merged_message: crate::algebra::copied(messages[0].as_slice()),
                merged_covector: crate::algebra::copied(covectors[0].as_slice()),
                sum: sums[0],
                delta,
                eta: Field64::one(),
                theta,
            };
        }
        let n: usize = self.selector.selector_dim;
        let h: usize = self.padded_size();
        let l: usize = self.selector.message_length;
        proof {
            self.lemma_fits();
            lemma_challenges_len(ps@.sponge, n as nat);
        }
        let beta: Vec<Field64> = ps.verifier_message_vec(n);
        assert(beta@.len() == vals(beta@).len());
        let eq: Vec<Field64> = eq_weights(beta.as_slice());
        let initial_sum: Field64 = dot(sums, eq.as_slice());
        let mut eq_flat: Vec<Field64> = Vec::new();
        let mut m_flat: Vec<Field64> = Vec::new();
        let mut v_flat: Vec<Field64> = Vec::new();
        let ghost e = vals(eq@);
        proof {
            assert(vals(eq_flat@) =~= Seq::<int>::empty());
            assert(vals(m_flat@) =~= Seq::<int>::empty());
            assert(vals(v_flat@) =~= Seq::<int>::empty());
            assert(0 * l == 0) by (nonlinear_arith);
        }
        for b in 0..h
            invariant
                h == eq@.len(),
                l == self.selector.message_length,
                messages@.len() == self.t,
                covectors@.len() == self.t,
                e == vals(eq@),
                ms == all_vals(messages@),
                vs == all_vals(covectors@),
                forall|t: int| 0 <= t < messages@.len() ==> (#[trigger] messages@[t])@.len() == l,
                forall|t: int| 0 <= t < covectors@.len() ==> (#[trigger] covectors@[t])@.len() == l,
                vals(eq_flat@) == repeated(e, l as nat, b as nat),
                vals(m_flat@) == stacked(ms, l as nat, b as nat),
                vals(v_flat@) == stacked(vs, l as nat, b as nat),
                eq_flat@.len() == b * l,
                m_flat@.len() == b * l,
                v_flat@.len() == b * l,
        {
            push_block(&mut eq_flat, None, eq[b], l);
            if b < self.t {
                assert(ms[b as int] == vals(messages@[b as int]@));
                assert(vs[b as int] == vals(covectors@[b as int]@));
                push_block(&mut m_flat, Some(messages[b].as_slice()), Field64::zero(), l);
                push_block(&mut v_flat, Some(covectors[b].as_slice()), Field64::zero(), l);
            } else {
                push_block(&mut m_flat, None, Field64::zero(), l);
                push_block(&mut v_flat, None, Field64::zero(), l);
            }
            proof {
                assert((b as int + 1) * l == b as int * l + l) by (nonlinear_arith);
                assert(vals(eq_flat@) =~= repeated(e, l as nat, (b + 1) as nat));
                assert(vals(m_flat@) =~= stacked(ms, l as nat, (b + 1) as nat));
                assert(vals(v_flat@) =~= stacked(vs, l as nat, (b + 1) as nat));
            }
        }
        let opening: sumcheck::Opening = self.selector.prove(
            ps,
            initial_sum,
            &mut eq_flat,
            &mut m_flat,
            &mut v_flat,
        );
        let eta: Field64 = opening.eta;
        crate::algebra::scalar_mul(&mut v_flat, eta);
        let weights: Vec<Field64> = eq_weights(opening.delta.as_slice());
        let theta: Vec<Field64> = sub_vec(weights.as_slice(), 0, self.t);
        assert(vals(theta@) =~= vals(weights@).take(self.t as int));
        Witness {
            merged_message: m_flat,
            merged_covector: v_flat,
            sum: opening.final_scalar,
            delta: opening.delta,
            eta,
            theta,
        }
    }

    /// Follow a merge of blocks with the given sums.
    pub fn verify(&self, vs: &mut VerifierState, sums: &[Field64]) -> (r: Result<
        Opening,
        VerificationError,
    >)
        requires
            self.wf(),
            sums@.len() == self.t,
        ensures
            match self.merge_checked(vals(sums@), old(vs)@) {
                None => r is Err,
                Some(m) => {
                    &&& r is Ok
                    &&& r->Ok_0.sum@ == m.sum
                    &&& vals(r->Ok_0.delta@) == m.delta
                    &&& r->Ok_0.eta@ == m.eta
                    &&& vals(r->Ok_0.theta@) == m.theta
                    &&& r->Ok_0.theta@.len() == self.t
                    &&& final(vs)@ == m.view
                },
            },
    {
        if self.t == 1 {
            let delta: Vec<Field64> = Vec::new();
            let theta: Vec<Field64> = vec![Field64::one()];
            proof {
                assert(vals(delta@) =~= Seq::<int>::empty());
                assert(vals(theta@) =~= seq![1int]);
            }
            return Ok(Opening { sum: sums[0], delta, eta: Field64::one(), theta });
        }
        let n: usize = self.selector.selector_dim;
        proof {
            self.lemma_fits();
            lemma_challenges_len(vs@.sponge, n as nat);
        }
        let beta: Vec<Field64> = vs.verifier_message_vec(n);
        assert(beta@.len() == vals(beta@).len());
        let eq: Vec<Field64> = eq_weights(beta.as_slice());
        let initial_sum: Field64 = dot(sums, eq.as_slice());
        let opening: sumcheck::Opening = match self.selector.verify(vs, initial_sum) {
            Ok(o) => o,
            Err(e) => {
                return Err(e);
            },
        };
        let eta: Field64 = eq_polynomial(opening.delta.as_slice(), beta.as_slice());
        let weights: Vec<Field64> = eq_weights(opening.delta.as_slice());
        let theta: Vec<Field64> = sub_vec(weights.as_slice(), 0, self.t);
        assert(vals(theta@) =~= vals(weights@).take(self.t as int));
        Ok(Opening { sum: opening.final_scalar, delta: opening.delta, eta, theta })
    }
}

/// Append a block: the given elements, or one element `len` times.
fn push_block(out: &mut Vec<Field64>, block: Option<&[Field64]>, fill: Field64, len: usize)
    requires
        block matches Some(b) ==> b@.len() == len,
    ensures
        vals(final(out)@) == vals(old(out)@) + (match block {
            Some(b) => vals(b@),
            None => Seq::new(len as nat, |i: int| fill@),
        }),
        final(out)@.len() == old(out)@.len() + len,
{
    let ghost want = match block {
        Some(b) => vals(b@),
        None => Seq::new(len as nat, |i: int| fill@),
    };
    for i in 0..len
        invariant
            block matches Some(b) ==> b@.len() == len,
            want == (match block {
                Some(b) => vals(b@),
                None => Seq::new(len as nat, |i: int| fill@),
            }),
            vals(out@) =~= vals(old(out)@) + want.take(i as int),
            out@.len() == old(out)@.len() + i,
    {
        let x: Field64 = match block {
            Some(b) => b[i],
            None => fill,
        };
        proof {
            lemma_vals_push(out@, x);
            assert(want[i as int] == x@);
        }
        out.push(x);
    }
    assert(want.take(len as int) =~= want);
}

impl Config {
    /// The selector sumcheck.
    pub fn selector(&self) -> (r: &sumcheck::Config)
        ensures
            *r == self.selector,
    {
        &self.selector
    }
}

} // verus!
