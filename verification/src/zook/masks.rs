//! The masks of a zero-knowledge round.
//!
//! The sumcheck's mask polynomials are drawn and committed to before the sumcheck.
//! The code-switch's mask is the folded randomness of the source commitments
//! followed by fresh randomness, committed to after it.

use crate::algebra::{
    accumulated_at, evaluate, geometric, geometric_sequence, univariate_evaluate, zeros, zeros_spec,
};
use crate::code_switch::{CovectorUpdateParams, Update};
use crate::field::{fpow, lemma_vals_push, vals, Field64};
use crate::irs_commit::lemma_challenges_len;
use crate::mask_proximity;
use crate::mask_proximity::flat_row;
use crate::matrix_commit::row_of;
use crate::params::config::{MaskOracleConfig, RoundConfig};
use crate::sums::fsum;
use crate::transcript::{challenges, ProverState, ProverView};
use vstd::prelude::*;

verus! {

/// Polynomials of `poly_len` coefficients, each padded with zeros to `size`: the
/// first `k` of them.
pub open spec fn padded_rows(coefs: Seq<int>, poly_len: nat, size: nat, k: nat) -> Seq<int>
    decreases k,
{
    if k == 0 {
        Seq::empty()
    } else {
        padded_rows(coefs, poly_len, size, (k - 1) as nat) + row_of(coefs, poly_len, k - 1) + zeros_spec(
            (size - poly_len) as nat,
        )
    }
}

/// The powers of every point: the first `k` points.
pub open spec fn point_rows(points: Seq<int>, size: nat, k: nat) -> Seq<int>
    decreases k,
{
    if k == 0 {
        Seq::empty()
    } else {
        point_rows(points, size, (k - 1) as nat) + geometric(1, points[k - 1], size)
    }
}

/// Every mask's value at its round's challenge.
pub open spec fn padded_values(padded: Seq<int>, size: nat, points: Seq<int>) -> spec_fn(int) -> int {
    |i: int| evaluate(row_of(padded, size, i), points[i])
}

/// The sum of the masks' values at their rounds' challenges.
pub open spec fn mask_eval_sum(padded: Seq<int>, size: nat, points: Seq<int>) -> int {
    fsum(padded_values(padded, size, points), points.len())
}

/// The prover's masks before the sumcheck.
pub struct MasksBegun {
    pub coefs: Seq<int>,
    pub padded: Seq<int>,
    pub fresh: Seq<int>,
    pub irs_masks: Seq<int>,
    pub matrix: Seq<int>,
    pub padding: Seq<int>,
    pub view: ProverView,
}

impl RoundConfig {
    /// How many mask coefficients the sumcheck takes.
    pub open spec fn num_coefs(&self) -> nat {
        self.sc().num_rounds as nat * self.sc().mask_len()
    }

    /// How long the fresh part of the code-switch's mask is.
    pub open spec fn padding_len(&self, mo: MaskOracleConfig) -> nat {
        (mo.l_zk - self.cs().source.mode.mask_len()) as nat
    }

    /// The masks that a prover in state `p` draws and commits to.
    pub open spec fn masks_begun(&self, mo: MaskOracleConfig, p: ProverView) -> MasksBegun {
        let sm = mo.sumcheck_masks.config;
        let coefs = challenges(p.coins, self.num_coefs());
        let p1 = p.toss(self.num_coefs());
        let padded = padded_rows(
            coefs,
            self.sc().mask_len(),
            sm.size(),
            self.sc().num_rounds as nat,
        );
        let p2 = sm.committed(padded, p1);
        MasksBegun {
            coefs,
            padded,
            fresh: sm.fresh_of(p1),
            irs_masks: sm.irs_masks_of(p1),
            matrix: sm.matrix_of(padded, p1),
            padding: challenges(p2.coins, self.padding_len(mo)),
            view: p2.toss(self.padding_len(mo)),
        }
    }
}

/// The committed masks of the sumcheck.
#[derive(Debug)]
pub struct SumcheckMaskTree {
    pub cfg: mask_proximity::Config,
    pub padded_masks: Vec<Field64>,
    pub flat_coefficients: Vec<Field64>,
    pub tree_witness: mask_proximity::Witness,
}

/// The committed mask of the code-switch.
#[derive(Debug)]
pub struct CodeSwitchMask {
    pub cfg: mask_proximity::Config,
    pub poly: Vec<Field64>,
    pub tree_witness: mask_proximity::Witness,
}

/// A padded run of polynomials has the length of its rows.
pub proof fn lemma_padded_len(coefs: Seq<int>, poly_len: nat, size: nat, k: nat, count: nat)
    requires
        k <= count,
        poly_len <= size,
        coefs.len() == count * poly_len,
    ensures
        padded_rows(coefs, poly_len, size, k).len() == k * size,
    decreases k,
{
    if k > 0 {
        let m = (k - 1) as nat;
        lemma_padded_len(coefs, poly_len, size, m, count);
        assert(m * poly_len + poly_len <= count * poly_len) by (nonlinear_arith)
            requires
                m < count,
                poly_len >= 0,
        ;
        assert(m * poly_len >= 0) by (nonlinear_arith);
        assert(k * size == m * size + size) by (nonlinear_arith)
            requires
                k == m + 1,
        ;
    } else {
        assert(0 * size == 0) by (nonlinear_arith);
    }
}

impl SumcheckMaskTree {
    /// Draw the masks and commit to them.
    pub fn sample_and_commit(
        cfg: mask_proximity::Config,
        num_masks: usize,
        mask_poly_len: usize,
        ps: &mut ProverState,
    ) -> (r: Self)
        requires
            cfg.wf(),
            cfg.num_masks == num_masks,
            mask_poly_len <= cfg.size(),
            num_masks * mask_poly_len <= usize::MAX,
        ensures
            r.cfg == cfg,
            ({
                let n = num_masks as nat * mask_poly_len as nat;
                let coefs = challenges(old(ps)@.coins, n);
                let padded = padded_rows(coefs, mask_poly_len as nat, cfg.size(), num_masks as nat);
                let p1 = old(ps)@.toss(n);
                &&& vals(r.flat_coefficients@) == coefs
                &&& r.flat_coefficients@.len() == n
                &&& vals(r.padded_masks@) == padded
                &&& r.padded_masks@.len() == cfg.flat_len()
                &&& r.tree_witness.wf(&cfg)
                &&& vals(r.tree_witness.fresh@) == cfg.fresh_of(p1)
                &&& vals(r.tree_witness.irs.masks@) == cfg.irs_masks_of(p1)
                &&& vals(r.tree_witness.irs.matrix@) == cfg.matrix_of(padded, p1)
                &&& final(ps)@ == cfg.committed(padded, p1)
            }),
    {
        let size: usize = cfg.c_zk_commit.vector_size;
        let n: usize = num_masks * mask_poly_len;
        proof {
            lemma_challenges_len(ps@.coins, n as nat);
        }
        let flat_coefficients: Vec<Field64> = ps.random_vector(n);
        assert(flat_coefficients@.len() == vals(flat_coefficients@).len());
        let ghost coefs = vals(flat_coefficients@);
        let mut padded_masks: Vec<Field64> = Vec::new();
        assert(vals(padded_masks@) =~= Seq::<int>::empty());
        for i in 0..num_masks
            invariant
                coefs == vals(flat_coefficients@),
                flat_coefficients@.len() == num_masks * mask_poly_len,
                mask_poly_len <= size,
                vals(padded_masks@) == padded_rows(
                    coefs,
                    mask_poly_len as nat,
                    size as nat,
                    i as nat,
                ),
        {
            let row: &[Field64] = flat_row(
                flat_coefficients.as_slice(),
                mask_poly_len,
                i,
                num_masks,
            );
            let ghost before = vals(padded_masks@);
            for j in 0..mask_poly_len
                invariant
                    row@.len() == mask_poly_len,
                    vals(padded_masks@) =~= before + vals(row@).take(j as int),
            {
                proof {
                    lemma_vals_push(padded_masks@, row@[j as int]);
                }
                padded_masks.push(row[j]);
            }
            let ghost mid = vals(padded_masks@);
            assert(vals(row@).take(mask_poly_len as int) =~= vals(row@));
            for j in 0..(size - mask_poly_len)
                invariant
                    vals(padded_masks@) =~= mid + zeros_spec(j as nat),
            {
                let z: Field64 = Field64::zero();
                proof {
                    lemma_vals_push(padded_masks@, z);
                }
                padded_masks.push(z);
            }
            assert(vals(padded_masks@) =~= padded_rows(
                coefs,
                mask_poly_len as nat,
                size as nat,
                (i + 1) as nat,
            ));
        }
        proof {
            lemma_padded_len(
                coefs,
                mask_poly_len as nat,
                size as nat,
                num_masks as nat,
                num_masks as nat,
            );
            assert(padded_masks@.len() == vals(padded_masks@).len());
        }
        let tree_witness: mask_proximity::Witness = cfg.commit(ps, padded_masks.as_slice());
        SumcheckMaskTree { cfg, padded_masks, flat_coefficients, tree_witness }
    }

    /// The sum of the masks' values at their rounds' challenges.
    pub fn eval_sum(&self, points: &[Field64]) -> (r: Field64)
        requires
            points@.len() == self.cfg.num_masks,
            self.padded_masks@.len() == self.cfg.flat_len(),
        ensures
            r@ == mask_eval_sum(vals(self.padded_masks@), self.cfg.size(), vals(points@)),
    {
        let size: usize = self.cfg.c_zk_commit.vector_size;
        let mut acc: Field64 = Field64::zero();
        for i in 0..points.len()
            invariant
                size == self.cfg.size(),
                points@.len() == self.cfg.num_masks,
                self.padded_masks@.len() == self.cfg.flat_len(),
                acc@ == fsum(
                    padded_values(vals(self.padded_masks@), size as nat, vals(points@)),
                    i as nat,
                ),
        {
            let row: &[Field64] = flat_row(
                self.padded_masks.as_slice(),
                size,
                i,
                self.cfg.num_masks,
            );
            acc = acc.add(univariate_evaluate(row, points[i]));
        }
        acc
    }
}

/// The powers of every point.
pub fn point_covectors(points: &[Field64], size: usize) -> (r: Vec<Field64>)
    requires
        points@.len() * size <= usize::MAX,
    ensures
        vals(r@) == point_rows(vals(points@), size as nat, points@.len()),
        r@.len() == points@.len() * size,
{
    let mut out: Vec<Field64> = Vec::new();
    assert(vals(out@) =~= Seq::<int>::empty());
    assert(0 * size == 0) by (nonlinear_arith);
    for i in 0..points.len()
        invariant
            vals(out@) == point_rows(vals(points@), size as nat, i as nat),
            out@.len() == i * size,
    {
        let row: Vec<Field64> = geometric_sequence(Field64::one(), points[i], size);
        let ghost before = vals(out@);
        assert(row@.len() == vals(row@).len());
        for j in 0..size
            invariant
                row@.len() == size,
                vals(out@) =~= before + vals(row@).take(j as int),
                out@.len() == i * size + j,
        {
            proof {
                lemma_vals_push(out@, row@[j as int]);
            }
            out.push(row[j]);
        }
        assert(vals(row@).take(size as int) =~= vals(row@));
        proof {
            assert((i as int + 1) * size == i as int * size + size) by (nonlinear_arith);
        }
    }
    out
}

/// The part of an updated covector that meets the code-switch's mask: the
/// out-of-domain points' powers over all of it, the in-domain points' only as far as
/// the source's masks reach.
pub open spec fn zk_tail_spec(u: Update, msg_len: nat, l_zk: nat, source_mask_len: nat) -> Seq<int> {
    Seq::new(
        l_zk,
        |l: int|
            {
                let ood = accumulated_at(
                    0,
                    u.ood_coeffs,
                    u.ood_points,
                    msg_len + l as nat,
                    u.ood_points.len(),
                );
                if l < source_mask_len {
                    accumulated_at(
                        ood,
                        u.in_coeffs,
                        u.in_points,
                        msg_len + l as nat,
                        u.in_points.len(),
                    )
                } else {
                    ood
                }
            },
    )
}

/// Add a point's powers, from the `shift`-th on, to the first `len` entries, for every
/// point.
fn add_shifted_powers(
    acc: &mut Vec<Field64>,
    coeffs: &[Field64],
    points: &[Field64],
    shift: usize,
    len: usize,
)
    requires
        coeffs@.len() == points@.len(),
        len <= old(acc)@.len(),
    ensures
        final(acc)@.len() == old(acc)@.len(),
        forall|l: int|
            0 <= l < final(acc)@.len() ==> (#[trigger] final(acc)@[l])@ == (if l < len {
                accumulated_at(
                    old(acc)@[l]@,
                    vals(coeffs@),
                    vals(points@),
                    shift as nat + l as nat,
                    points@.len(),
                )
            } else {
                old(acc)@[l]@
            }),
{
    let ghost cs = vals(coeffs@);
    let ghost xs = vals(points@);
    for k in 0..points.len()
        invariant
            coeffs@.len() == points@.len(),
            len <= acc@.len(),
            acc@.len() == old(acc)@.len(),
            cs == vals(coeffs@),
            xs == vals(points@),
            forall|l: int|
                0 <= l < acc@.len() ==> (#[trigger] acc@[l])@ == (if l < len {
                    accumulated_at(old(acc)@[l]@, cs, xs, shift as nat + l as nat, k as nat)
                } else {
                    old(acc)@[l]@
                }),
    {
        let x: Field64 = points[k];
        let mut power: Field64 = x.pow(shift as u64);
        for i in 0..len
            invariant
                k < points@.len(),
                coeffs@.len() == points@.len(),
                len <= acc@.len(),
                acc@.len() == old(acc)@.len(),
                cs == vals(coeffs@),
                xs == vals(points@),
                x@ == xs[k as int],
                power@ == fpow(x@, shift as nat + i as nat),
                forall|l: int|
                    0 <= l < acc@.len() ==> (#[trigger] acc@[l])@ == (if l < i {
                        accumulated_at(
                            old(acc)@[l]@,
                            cs,
                            xs,
                            shift as nat + l as nat,
                            (k + 1) as nat,
                        )
                    } else if l < len {
                        accumulated_at(old(acc)@[l]@, cs, xs, shift as nat + l as nat, k as nat)
                    } else {
                        old(acc)@[l]@
                    }),
        {
            let y: Field64 = acc[i];
            acc.set(i, y.add(coeffs[k].mul(power)));
            power = power.mul(x);
        }
    }
}

/// The part of an updated covector that meets the code-switch's mask.
pub fn zk_tail(params: &CovectorUpdateParams, msg_len: usize, l_zk: usize, source_mask_len: usize) -> (r:
    Vec<Field64>)
    requires
        params@.ood_coeffs.len() == params@.ood_points.len(),
        params@.in_coeffs.len() == params@.in_points.len(),
        source_mask_len <= l_zk,
    ensures
        vals(r@) == zk_tail_spec(params@, msg_len as nat, l_zk as nat, source_mask_len as nat),
        r@.len() == l_zk,
{
    let mut tail: Vec<Field64> = zeros(l_zk);
    let ghost start = tail@;
    proof {
        assert(vals(start) == zeros_spec(l_zk as nat));
        assert forall|l: int| 0 <= l < l_zk implies (#[trigger] start[l])@ == 0 by {
            assert(vals(start)[l] == 0);
        }
        assert(params.ood_eval_points@.len() == vals(params.ood_eval_points@).len());
        assert(params.ood_rlc_coeffs@.len() == vals(params.ood_rlc_coeffs@).len());
        assert(params.in_domain_eval_points@.len() == vals(params.in_domain_eval_points@).len());
        assert(params.in_domain_rlc_coeffs@.len() == vals(params.in_domain_rlc_coeffs@).len());
    }
    add_shifted_powers(
        &mut tail,
        params.ood_rlc_coeffs.as_slice(),
        params.ood_eval_points.as_slice(),
        msg_len,
        l_zk,
    );
    let ghost mid = tail@;
    add_shifted_powers(
        &mut tail,
        params.in_domain_rlc_coeffs.as_slice(),
        params.in_domain_eval_points.as_slice(),
        msg_len,
        source_mask_len,
    );
    proof {
        let want = zk_tail_spec(params@, msg_len as nat, l_zk as nat, source_mask_len as nat);
        assert forall|l: int| 0 <= l < l_zk implies vals(tail@)[l] == want[l] by {
            assert(mid[l]@ == accumulated_at(
                start[l]@,
                params@.ood_coeffs,
                params@.ood_points,
                msg_len as nat + l as nat,
                params@.ood_points.len(),
            ));
        }
        assert(vals(tail@) =~= want);
    }
    tail
}

} // verus!
