//! What verification leaves to check: the claimed linear forms at the final point.
//!
//! The verifier never holds a covector. Every round scales it and adds constraints;
//! at the end the constraints are evaluated at the point and taken out of the value
//! that the base case gives.

use crate::algebra::{dot_spec, dot_terms, geometric, geometric_sequence, mle};
use crate::arith::{ceil_log2, ceil_log2_spec};
use crate::code_switch::{CovectorUpdateParams, Update};
use crate::field::{fadd, fmul, lemma_residue_canonical, lemma_residue_id, vals, Field64};
use crate::linear_form::{mle_of_powers, power_product, LinearForm};
use crate::sums::{fsum, lemma_fsum_eq};
use crate::transcript::VerificationError;
use vstd::arithmetic::power2::pow2;
use vstd::prelude::*;

verus! {

/// One batched claim set's terminal data.
#[derive(Debug)]
pub struct ClaimGroup {
    /// Round challenges, then base-case points, for this group's claims.
    pub evaluation_point: Vec<Field64>,
    /// The product of the factors that reach this group.
    pub initial_claim_scale: Field64,
    /// The challenge whose powers batch the claims.
    pub batching_challenge: Field64,
}

/// The end of a verification: one group per independently batched claim set, and
/// what their forms must add up to.
#[derive(Debug)]
pub struct FinalClaim {
    pub groups: Vec<ClaimGroup>,
    pub linear_forms_contribution: Field64,
}

/// [`ClaimGroup`] as a mathematical value.
pub struct GroupView {
    pub point: Seq<int>,
    pub scale: int,
    pub batching: int,
}

impl View for ClaimGroup {
    type V = GroupView;

    open spec fn view(&self) -> GroupView {
        GroupView {
            point: vals(self.evaluation_point@),
            scale: self.initial_claim_scale@,
            batching: self.batching_challenge@,
        }
    }
}

/// The views of several groups.
pub open spec fn group_views(groups: Seq<ClaimGroup>) -> Seq<GroupView> {
    Seq::new(groups.len(), |i: int| groups[i]@)
}

/// The vectors of several linear forms.
pub open spec fn covectors_of(forms: Seq<&LinearForm>) -> Seq<Seq<int>> {
    Seq::new(forms.len(), |j: int| forms[j].covector())
}

/// Every form's value at a point, times its power of the batching challenge.
pub open spec fn form_terms(covectors: Seq<Seq<int>>, batching: int, point: Seq<int>) -> spec_fn(
    int,
) -> int {
    |j: int| fmul(geometric(1, batching, covectors.len())[j], mle(covectors[j], point))
}

/// The batched value of the forms at a point.
pub open spec fn form_sum(covectors: Seq<Seq<int>>, batching: int, point: Seq<int>) -> int {
    fsum(form_terms(covectors, batching, point), covectors.len())
}

/// Are all forms on vectors over the point's hypercube?
pub open spec fn forms_fit(forms: Seq<&LinearForm>, point_len: nat) -> bool {
    forall|j: int|
        0 <= j < forms.len() ==> (#[trigger] forms[j]).wf() && forms[j].covector().len() == pow2(
            point_len,
        )
}

/// The batched value is that of all forms, each counted: the values at the point,
/// combined by the powers of the batching challenge.
pub proof fn law_forms_are_combination(covectors: Seq<Seq<int>>, batching: int, point: Seq<int>)
    ensures
        form_sum(covectors, batching, point) == dot_spec(
            geometric(1, batching, covectors.len()),
            Seq::new(covectors.len(), |j: int| mle(covectors[j], point)),
        ),
{
    let powers = geometric(1, batching, covectors.len());
    let values = Seq::new(covectors.len(), |j: int| mle(covectors[j], point));
    lemma_fsum_eq(
        form_terms(covectors, batching, point),
        dot_terms(powers, values),
        covectors.len(),
    );
}

impl FinalClaim {
    /// Single-track terminator: do the forms, batched at the one group's point and
    /// scaled, give the contribution?
    pub fn verify(&self, linear_forms: &[&LinearForm]) -> (r: Result<(), VerificationError>)
        requires
            self.groups@.len() == 1 ==> forms_fit(
                linear_forms@,
                self.groups@[0].evaluation_point@.len(),
            ),
        ensures
            r is Ok <==> self.groups@.len() == 1 && fadd(
                0,
                fmul(
                    self.groups@[0]@.scale,
                    form_sum(
                        covectors_of(linear_forms@),
                        self.groups@[0]@.batching,
                        self.groups@[0]@.point,
                    ),
                ),
            ) == self.linear_forms_contribution@,
            r is Ok ==> self.linear_forms_contribution@ == fmul(
                self.groups@[0]@.scale,
                dot_spec(
                    geometric(1, self.groups@[0]@.batching, linear_forms@.len()),
                    Seq::new(
                        linear_forms@.len(),
                        |j: int| mle(linear_forms@[j].covector(), self.groups@[0]@.point),
                    ),
                ),
            ),
    {
        if self.groups.len() != 1 {
            return Err(VerificationError);
        }
        let group: &ClaimGroup = &self.groups[0];
        let weights: Vec<Field64> = geometric_sequence(
            Field64::one(),
            group.batching_challenge,
            linear_forms.len(),
        );
        assert(weights@.len() == vals(weights@).len());
        let ghost cs = covectors_of(linear_forms@);
        let mut acc: Field64 = Field64::zero();
        for j in 0..linear_forms.len()
            invariant
                self.groups@.len() == 1,
                *group == self.groups@[0],
                forms_fit(linear_forms@, group.evaluation_point@.len()),
                weights@.len() == linear_forms@.len(),
                vals(weights@) == geometric(1, group@.batching, linear_forms@.len()),
                cs == covectors_of(linear_forms@),
                acc@ == fsum(form_terms(cs, group@.batching, group@.point), j as nat),
        {
            let form: &LinearForm = linear_forms[j];
            assert(linear_forms@[j as int].wf());
            let value: Field64 = form.mle_evaluate(group.evaluation_point.as_slice());
            assert(vals(weights@)[j as int] == weights@[j as int]@);
            acc = acc.add(weights[j].mul(value));
        }
        let total: Field64 = Field64::zero().add(group.initial_claim_scale.mul(acc));
        proof {
            law_forms_are_combination(cs, group@.batching, group@.point);
            assert(Seq::new(cs.len(), |j: int| mle(cs[j], group@.point)) =~= Seq::new(
                linear_forms@.len(),
                |j: int| mle(linear_forms@[j].covector(), group@.point),
            ));
            let scaled = fmul(group@.scale, acc@);
            lemma_residue_canonical(group@.scale * acc@);
            lemma_residue_id(scaled);
        }
        if total == self.linear_forms_contribution {
            Ok(())
        } else {
            Err(VerificationError)
        }
    }
}

/// A constraint that a round added to the covector: the powers of a point, times a
/// weight.
#[derive(Clone, Copy, Debug)]
pub struct ImplicitConstraint {
    pub eval_point: Field64,
    pub batching_weight: Field64,
    /// The binary logarithm of the covector's length at the time.
    pub domain_bits: u32,
    /// The round that added it.
    pub added_at_round: usize,
}

/// [`ImplicitConstraint`] as a mathematical value.
pub struct ConstraintView {
    pub x: int,
    pub weight: int,
    pub bits: nat,
    pub round: nat,
}

impl View for ImplicitConstraint {
    type V = ConstraintView;

    open spec fn view(&self) -> ConstraintView {
        ConstraintView {
            x: self.eval_point@,
            weight: self.batching_weight@,
            bits: self.domain_bits as nat,
            round: self.added_at_round as nat,
        }
    }
}

/// The views of several constraints.
pub open spec fn constraint_views(cs: Seq<ImplicitConstraint>) -> Seq<ConstraintView> {
    Seq::new(cs.len(), |i: int| cs[i]@)
}

/// The constraints for the given points and weights.
pub open spec fn point_constraints(xs: Seq<int>, ws: Seq<int>, bits: nat, round: nat) -> Seq<
    ConstraintView,
> {
    Seq::new(xs.len(), |i: int| ConstraintView { x: xs[i], weight: ws[i], bits, round })
}

/// The constraints that a round adds: out-of-domain, then in-domain.
pub open spec fn round_constraints(u: Update, bits: nat, round: nat) -> Seq<ConstraintView> {
    point_constraints(u.ood_points, u.ood_coeffs, bits, round) + point_constraints(
        u.in_points,
        u.in_coeffs,
        bits,
        round,
    )
}

/// Append constraints for the given points and weights.
fn push_points(
    constraints: &mut Vec<ImplicitConstraint>,
    xs: &[Field64],
    ws: &[Field64],
    domain_bits: u32,
    round: usize,
)
    requires
        xs@.len() == ws@.len(),
    ensures
        constraint_views(final(constraints)@) == constraint_views(old(constraints)@)
            + point_constraints(vals(xs@), vals(ws@), domain_bits as nat, round as nat),
{
    for i in 0..xs.len()
        invariant
            xs@.len() == ws@.len(),
            constraint_views(constraints@) =~= constraint_views(old(constraints)@)
                + point_constraints(
                vals(xs@),
                vals(ws@),
                domain_bits as nat,
                round as nat,
            ).take(i as int),
    {
        let c = ImplicitConstraint {
            eval_point: xs[i],
            batching_weight: ws[i],
            domain_bits,
            added_at_round: round,
        };
        let ghost before = constraints@;
        constraints.push(c);
        assert(constraint_views(constraints@) =~= constraint_views(before).push(c@));
    }
    let ghost all = point_constraints(vals(xs@), vals(ws@), domain_bits as nat, round as nat);
    assert(all.take(xs@.len() as int) =~= all);
}

/// Append a round's constraints to the accumulator.
pub fn push_constraints(
    constraints: &mut Vec<ImplicitConstraint>,
    update_params: &CovectorUpdateParams,
    msg_len: usize,
    added_at_round: usize,
)
    requires
        update_params@.ood_coeffs.len() == update_params@.ood_points.len(),
        update_params@.in_coeffs.len() == update_params@.in_points.len(),
    ensures
        constraint_views(final(constraints)@) == constraint_views(old(constraints)@)
            + round_constraints(
            update_params@,
            ceil_log2_spec(msg_len as nat),
            added_at_round as nat,
        ),
{
    let domain_bits: u32 = ceil_log2(msg_len);
    proof {
        assert(update_params.ood_eval_points@.len() == vals(update_params.ood_eval_points@).len());
        assert(update_params.ood_rlc_coeffs@.len() == vals(update_params.ood_rlc_coeffs@).len());
        assert(update_params.in_domain_eval_points@.len() == vals(
            update_params.in_domain_eval_points@,
        ).len());
        assert(update_params.in_domain_rlc_coeffs@.len() == vals(
            update_params.in_domain_rlc_coeffs@,
        ).len());
    }
    let ghost start = constraint_views(constraints@);
    push_points(
        constraints,
        update_params.ood_eval_points.as_slice(),
        update_params.ood_rlc_coeffs.as_slice(),
        domain_bits,
        added_at_round,
    );
    push_points(
        constraints,
        update_params.in_domain_eval_points.as_slice(),
        update_params.in_domain_rlc_coeffs.as_slice(),
        domain_bits,
        added_at_round,
    );
    assert(constraint_views(constraints@) =~= start + round_constraints(
        update_params@,
        ceil_log2_spec(msg_len as nat),
        added_at_round as nat,
    ));
}

/// The product of the factors from `k` on.
pub open spec fn scale_suffix(scales: Seq<int>, k: nat) -> int
    decreases scales.len() - k,
{
    if k >= scales.len() {
        1
    } else {
        fmul(scales[k as int], scale_suffix(scales, k + 1))
    }
}

/// The products of the factors from every position on.
pub fn scale_suffixes(scales: &[Field64]) -> (r: Vec<Field64>)
    requires
        scales@.len() < usize::MAX,
    ensures
        r@.len() == scales@.len() + 1,
        forall|k: int|
            0 <= k <= scales@.len() ==> (#[trigger] r@[k])@ == scale_suffix(vals(scales@), k as nat),
{
    let n: usize = scales.len();
    let mut out: Vec<Field64> = Vec::new();
    for i in 0..(n + 1)
        invariant
            out@.len() == i,
            n < usize::MAX,
            forall|j: int| 0 <= j < i ==> (#[trigger] out@[j])@ == 1,
    {
        out.push(Field64::one());
    }
    let mut i: usize = n;
    while i > 0
        invariant
            i <= n,
            n == scales@.len(),
            out@.len() == n + 1,
            forall|k: int| i <= k <= n ==> (#[trigger] out@[k])@ == scale_suffix(vals(scales@), k as nat),
        decreases i,
    {
        i = i - 1;
        let x: Field64 = scales[i].mul(out[i + 1]);
        out.set(i, x);
    }
    out
}

/// The value of a constraint: its weight, times the factors of the later rounds,
/// times the value of its point's powers at the rest of the point.
pub open spec fn constraint_value(
    c: ConstraintView,
    scales: Seq<int>,
    starts: Seq<usize>,
    point: Seq<int>,
) -> int {
    let from = starts[c.round as int + 1] as int;
    fmul(
        fmul(c.weight, scale_suffix(scales, c.round + 1)),
        power_product(c.x, point.subrange(from, from + c.bits)),
    )
}

/// The values of several constraints, as summands.
pub open spec fn constraint_terms(
    cs: Seq<ConstraintView>,
    scales: Seq<int>,
    starts: Seq<usize>,
    point: Seq<int>,
) -> spec_fn(int) -> int {
    |i: int| constraint_value(cs[i], scales, starts, point)
}

/// Do the constraints' parts of the point exist?
pub open spec fn constraints_fit(
    cs: Seq<ConstraintView>,
    rounds: nat,
    starts: Seq<usize>,
    point_len: nat,
) -> bool {
    &&& starts.len() == rounds + 1
    &&& forall|i: int|
        0 <= i < cs.len() ==> (#[trigger] cs[i]).round < rounds && starts[cs[i].round as int + 1]
            + cs[i].bits <= point_len
}

/// The sum of the constraints' values.
pub fn constraint_sum(
    constraints: &[ImplicitConstraint],
    suffixes: &[Field64],
    starts: &[usize],
    point: &[Field64],
    Ghost(scales): Ghost<Seq<int>>,
) -> (r: Field64)
    requires
        suffixes@.len() == scales.len() + 1,
        forall|k: int|
            0 <= k <= scales.len() ==> (#[trigger] suffixes@[k])@ == scale_suffix(scales, k as nat),
        constraints_fit(constraint_views(constraints@), scales.len(), starts@, point@.len()),
    ensures
        r@ == fsum(
            constraint_terms(constraint_views(constraints@), scales, starts@, vals(point@)),
            constraints@.len(),
        ),
{
    let ghost cs = constraint_views(constraints@);
    let ghost pt = vals(point@);
    let len: usize = point.len();
    let count: usize = suffixes.len();
    let mut acc: Field64 = Field64::zero();
    for i in 0..constraints.len()
        invariant
            len == point@.len(),
            count == suffixes@.len(),
            suffixes@.len() == scales.len() + 1,
            forall|k: int|
                0 <= k <= scales.len() ==> (#[trigger] suffixes@[k])@ == scale_suffix(scales, k as nat),
            cs == constraint_views(constraints@),
            pt == vals(point@),
            constraints_fit(cs, scales.len(), starts@, point@.len()),
            acc@ == fsum(constraint_terms(cs, scales, starts@, pt), i as nat),
    {
        let c: &ImplicitConstraint = &constraints[i];
        assert(cs[i as int] == c@);
        let from: usize = starts[c.added_at_round + 1];
        let part: &[Field64] = vstd::slice::slice_subrange(point, from, from + c.domain_bits as usize);
        assert(vals(part@) =~= pt.subrange(from as int, from + c.domain_bits));
        let value: Field64 = mle_of_powers(c.eval_point, part);
        acc = acc.add(c.batching_weight.mul(suffixes[c.added_at_round + 1]).mul(value));
    }
    acc
}

} // verus!
