//! How the covector of a claim changes over the rounds, seen at a point.

use crate::algebra::{
    accumulated, accumulated_at, eq_table, folded_all, geometric, mle, scaled, zeros_spec,
};
use crate::arith::ceil_log2_spec;
use crate::code_switch::{update_wf, CodeSwitchMode, Update};
use crate::code_switch_laws::lemma_accumulated_all_canonical;
use crate::field::{
    all_canonical, canonical, fadd, fmul, lemma_fpow_canonical, lemma_residue_canonical,
};
use crate::linear_form::{law_mle_of_powers, power_product};
use crate::params::config::{RoundConfig, RoundMode};
use crate::sums::{fsum, lemma_add_assoc, lemma_fsum_canonical, lemma_fsum_eq};
use crate::transcript::ProverView;
use crate::vector_laws::{
    law_dot_accumulated, law_dot_commutes, law_dot_scaled, law_evaluate_is_dot, law_mle_fold_all,
    lemma_eq_table_len, weighted_evals,
};
use crate::zook::block::BlockView;
use crate::zook::round_laws::{
    law_round_keeps_claim, lemma_masked_parts, lemma_plain_parts, lemma_source_sizes,
};
use crate::zook::verify::lemma_round_variables;
use vstd::arithmetic::power2::pow2;
use vstd::prelude::*;

verus! {

/// A covector after an update, as far as the message reaches.
pub open spec fn message_covector(covector: Seq<int>, u: Update) -> Seq<int> {
    let n = covector.len();
    accumulated(
        accumulated(scaled(covector, u.scale), u.ood_coeffs, u.ood_points, n),
        u.in_coeffs,
        u.in_points,
        n,
    )
}

/// Accumulating two runs of points is accumulating their concatenation.
pub proof fn lemma_accumulated_concat(
    acc: int,
    c1: Seq<int>,
    x1: Seq<int>,
    c2: Seq<int>,
    x2: Seq<int>,
    i: nat,
    k: nat,
)
    requires
        c1.len() == x1.len(),
        c2.len() == x2.len(),
        k <= x2.len(),
    ensures
        accumulated_at(acc, c1 + c2, x1 + x2, i, x1.len() + k) == accumulated_at(
            accumulated_at(acc, c1, x1, i, x1.len()),
            c2,
            x2,
            i,
            k,
        ),
    decreases k,
{
    if k == 0 {
        lemma_accumulated_prefix(acc, c1, x1, c1 + c2, x1 + x2, i, x1.len());
    } else {
        lemma_accumulated_concat(acc, c1, x1, c2, x2, i, (k - 1) as nat);
        let at = x1.len() + k - 1;
        assert((c1 + c2)[at] == c2[k - 1]);
        assert((x1 + x2)[at] == x2[k - 1]);
    }
}

proof fn lemma_accumulated_prefix(
    acc: int,
    c1: Seq<int>,
    x1: Seq<int>,
    c: Seq<int>,
    x: Seq<int>,
    i: nat,
    k: nat,
)
    requires
        k <= c1.len(),
        k <= x1.len(),
        k <= c.len(),
        k <= x.len(),
        forall|j: int| 0 <= j < k ==> #[trigger] c[j] == c1[j],
        forall|j: int| 0 <= j < k ==> #[trigger] x[j] == x1[j],
    ensures
        accumulated_at(acc, c, x, i, k) == accumulated_at(acc, c1, x1, i, k),
    decreases k,
{
    if k > 0 {
        lemma_accumulated_prefix(acc, c1, x1, c, x, i, (k - 1) as nat);
        assert(c[k - 1] == c1[k - 1] && x[k - 1] == x1[k - 1]);
    }
}

/// What a code-switch makes of the message's part of a covector.
proof fn lemma_updated_prefix(round: &RoundConfig, covector: Seq<int>, extension: nat, u: Update)
    requires
        round.wf(),
        update_wf(u),
        covector.len() == round.cs().source.message_len(),
        extension == round.cs().mask_len(),
    ensures
        round.cs().updated_covector(covector + zeros_spec(extension), u).take(covector.len() as int)
            == message_covector(covector, u),
{
    let n = covector.len();
    let cov = covector + zeros_spec(extension);
    let got = round.cs().updated_covector(cov, u).take(n as int);
    let want = message_covector(covector, u);
    assert forall|i: int| 0 <= i < n implies got[i] == want[i] by {
        let b = fmul(u.scale, covector[i]);
        assert(scaled(cov, u.scale)[i] == b);
        match round.cs().mode {
            CodeSwitchMode::Standard => {
                lemma_accumulated_concat(
                    b,
                    u.ood_coeffs,
                    u.ood_points,
                    u.in_coeffs,
                    u.in_points,
                    i as nat,
                    u.in_points.len(),
                );
            },
            CodeSwitchMode::ZeroKnowledge { message_mask_length } => {},
        }
    }
    assert(got =~= want);
}

/// The covector that a round leaves is the folded one, updated.
pub proof fn lemma_round_covector(
    round: &RoundConfig,
    block: BlockView,
    vectors: Seq<Seq<int>>,
    p: ProverView,
)
    requires
        round.wf(),
        block.valid(&round.cs().source, vectors),
        round.round_proved(block, p) is Some,
    ensures
        ({
            let o = round.round_proved(block, p).unwrap();
            o.block.covector == message_covector(folded_all(block.covector, o.points), o.update)
        }),
{
    reveal(RoundConfig::round_proved);
    law_round_keeps_claim(round, block, vectors, p);
    let o = round.round_proved(block, p).unwrap();
    match round.mode {
        RoundMode::Standard => {
            let cov = lemma_plain_parts(round, block, vectors, p);
            lemma_updated_prefix(round, cov, 0, o.update);
            assert(cov + zeros_spec(0) =~= cov);
            let next = round.cs().updated_covector(cov, o.update);
            assert(next.take(cov.len() as int) =~= next);
        },
        RoundMode::ZeroKnowledge { t_ood, mask_oracle } => {
            let cov = lemma_masked_parts(round, mask_oracle, block, vectors, p);
            lemma_updated_prefix(round, cov, mask_oracle.l_zk as nat, o.update);
        },
    }
}

/// The powers of points at `z`, each times its weight.
pub open spec fn power_terms(cs: Seq<int>, xs: Seq<int>, z: Seq<int>) -> spec_fn(int) -> int {
    |j: int| fmul(cs[j], power_product(xs[j], z))
}

/// The value at `z` of a covector to which powers of points were added.
proof fn lemma_mle_accumulated(acc: Seq<int>, cs: Seq<int>, xs: Seq<int>, z: Seq<int>)
    requires
        all_canonical(acc),
        all_canonical(cs),
        all_canonical(xs),
        all_canonical(z),
        cs.len() == xs.len(),
        acc.len() == pow2(z.len()),
    ensures
        mle(accumulated(acc, cs, xs, acc.len()), z) == fadd(
            mle(acc, z),
            fsum(power_terms(cs, xs, z), xs.len()),
        ),
{
    broadcast use {lemma_fpow_canonical, lemma_residue_canonical};

    let h = eq_table(z);
    lemma_eq_table_len(z);
    let next = accumulated(acc, cs, xs, acc.len());
    law_dot_commutes(next, h);
    law_dot_commutes(acc, h);
    law_dot_accumulated(h, acc, cs, xs);
    let f = weighted_evals(h, cs, xs);
    let g = power_terms(cs, xs, z);
    assert forall|j: int| 0 <= j < xs.len() implies #[trigger] f(j) == g(j) by {
        assert(canonical(xs[j]));
        law_evaluate_is_dot(h, xs[j]);
        let powers = geometric(1, xs[j], h.len());
        law_dot_commutes(h, powers);
        law_mle_of_powers(xs[j], z);
    }
    lemma_fsum_eq(f, g, xs.len());
}

/// The value at `z` of the covector that a round leaves: the round's factor times the
/// old covector's value at the round's challenges followed by `z`, plus the values of
/// the constraints' powers.
pub proof fn law_round_covector_value(
    round: &RoundConfig,
    block: BlockView,
    vectors: Seq<Seq<int>>,
    p: ProverView,
    z: Seq<int>,
)
    requires
        round.wf(),
        block.valid(&round.cs().source, vectors),
        round.round_proved(block, p) is Some,
        all_canonical(z),
        z.len() == ceil_log2_spec(round.cs().source.message_len()),
    ensures
        ({
            let o = round.round_proved(block, p).unwrap();
            let u = o.update;
            mle(o.block.covector, z) == fadd(
                fmul(u.scale, mle(block.covector, o.points + z)),
                fadd(
                    fsum(power_terms(u.ood_coeffs, u.ood_points, z), u.ood_points.len()),
                    fsum(power_terms(u.in_coeffs, u.in_points, z), u.in_points.len()),
                ),
            )
        }),
{
    broadcast use {lemma_residue_canonical, lemma_fsum_canonical};

    let o = round.round_proved(block, p).unwrap();
    let u = o.update;
    law_round_keeps_claim(round, block, vectors, p);
    lemma_round_covector(round, block, vectors, p);
    lemma_source_sizes(round);
    lemma_round_variables(round);
    let cov = folded_all(block.covector, o.points);
    crate::arith::lemma_pow2_sum(o.points.len(), z.len());
    assert(pow2(o.points.len()) * pow2(z.len()) == pow2(z.len()) * pow2(o.points.len()))
        by (nonlinear_arith);
    law_mle_fold_all(block.covector, o.points, z);
    let base = scaled(cov, u.scale);
    assert(all_canonical(base));
    let mid = accumulated(base, u.ood_coeffs, u.ood_points, cov.len());
    lemma_accumulated_all_canonical(base, u.ood_coeffs, u.ood_points, cov.len());
    lemma_mle_accumulated(base, u.ood_coeffs, u.ood_points, z);
    lemma_mle_accumulated(mid, u.in_coeffs, u.in_points, z);
    lemma_eq_table_len(z);
    law_dot_scaled(cov, eq_table(z), u.scale);
    let a = fmul(u.scale, mle(cov, z));
    lemma_add_assoc(
        a,
        fsum(power_terms(u.ood_coeffs, u.ood_points, z), u.ood_points.len()),
        fsum(power_terms(u.in_coeffs, u.in_points, z), u.in_points.len()),
    );
}

} // verus!
