//! Laws of the whole protocol.

use crate::algebra::{dot_spec, dot_terms, eq_table, geometric, mle, scaled, vsum};
use crate::arith::ceil_log2_spec;
use crate::basecase_laws::law_basecase_complete;
use crate::code_switch::{update_wf, Update};
use crate::field::{
    all_canonical, canonical, fadd, fmul, fsub, lemma_fmul_assoc, lemma_fmul_comm, lemma_fmul_one,
    lemma_fpow_canonical, lemma_residue_canonical, lemma_residue_id,
};
use crate::irs_commit;
use crate::irs_laws::{law_same_shape, matrix_roots};
use crate::linear_form::{added_at, power_product};
use crate::matrix_commit::root_of;
use crate::params::config::{rounds_chained, ProtocolConfig, RoundConfig};
use crate::sums::{
    fsum, lemma_add_assoc, lemma_add_zero, lemma_distribute, lemma_fsum_canonical, lemma_fsum_eq,
    lemma_fsum_scale, lemma_fsum_split,
};
use crate::transcript::{challenge, ProverView, VerifierView};
use crate::transcript_laws::{follows, lemma_follows_refl, lemma_follows_trans, pending};
use crate::vector_laws::{
    law_dot_commutes, law_dot_scaled, law_dot_vsum, lemma_dot_zeros, lemma_eq_table_len,
};
use crate::zook::block::{lemma_block_shape, BlockView};
use crate::zook::combination_laws::lemma_theta_single;
use crate::zook::covector_laws::{law_round_covector_value, power_terms};
use crate::zook::final_claim::{
    constraint_terms, form_sum, form_terms, point_constraints, round_constraints, scale_suffix,
};
use crate::zook::prove::{batched_covector, code_after, rounds_proved};
use crate::zook::round_laws::{check_block, law_round_complete, law_round_keeps_claim};
use crate::zook::verify::{lemma_round_variables, rounds_checked, walk_fits, Walk};
use vstd::arithmetic::power2::pow2;
use vstd::prelude::*;

verus! {

/// Are all covectors of length `n`, with canonical entries?
pub open spec fn covectors_wf(covectors: Seq<Seq<int>>, n: nat) -> bool {
    forall|j: int|
        0 <= j < covectors.len() ==> all_canonical(#[trigger] covectors[j]) && covectors[j].len() == n
}

/// Adding a multiple of a covector of full length.
proof fn lemma_added(acc: Seq<int>, cov: Seq<int>, w: int)
    requires
        acc.len() == cov.len(),
    ensures
        added_at(acc, 0, cov, w) == vsum(acc, scaled(cov, w)),
{
    assert(added_at(acc, 0, cov, w) =~= vsum(acc, scaled(cov, w)));
}

/// Every covector's inner product with `h`, times its weight.
pub open spec fn weighted_dots(covectors: Seq<Seq<int>>, weights: Seq<int>, h: Seq<int>) -> spec_fn(int) -> int {
    |j: int| fmul(weights[j], dot_spec(h, covectors[j]))
}

/// The inner product with a batched covector is the batched inner product.
pub proof fn lemma_batched_dot(
    covectors: Seq<Seq<int>>,
    weights: Seq<int>,
    n: nat,
    h: Seq<int>,
    k: nat,
)
    requires
        covectors_wf(covectors, n),
        all_canonical(weights),
        all_canonical(h),
        h.len() == n,
        k <= covectors.len(),
        weights.len() == covectors.len(),
    ensures
        dot_spec(h, batched_covector(covectors, weights, n, k)) == fsum(
            weighted_dots(covectors, weights, h),
            k,
        ),
        all_canonical(batched_covector(covectors, weights, n, k)),
        batched_covector(covectors, weights, n, k).len() == n,
    decreases k,
{
    broadcast use {lemma_residue_canonical, lemma_fsum_canonical};

    if k == 0 {
        lemma_dot_zeros(h, n);
    } else {
        let m = (k - 1) as nat;
        lemma_batched_dot(covectors, weights, n, h, m);
        let before = batched_covector(covectors, weights, n, m);
        let cov = covectors[m as int];
        let w = weights[m as int];
        assert(all_canonical(cov) && canonical(w));
        lemma_added(before, cov, w);
        assert(all_canonical(scaled(cov, w)));
        law_dot_vsum(h, before, scaled(cov, w));
        law_dot_scaled(h, cov, w);
    }
}

/// Claims that hold, batched, hold.
proof fn lemma_batched_claim(
    covectors: Seq<Seq<int>>,
    weights: Seq<int>,
    f: Seq<int>,
    evaluations: Seq<int>,
)
    requires
        covectors_wf(covectors, f.len()),
        all_canonical(weights),
        all_canonical(f),
        weights.len() == covectors.len(),
        evaluations.len() == covectors.len(),
        forall|j: int|
            0 <= j < covectors.len() ==> #[trigger] evaluations[j] == dot_spec(f, covectors[j]),
    ensures
        dot_spec(evaluations, weights) == dot_spec(
            f,
            batched_covector(covectors, weights, f.len(), covectors.len()),
        ),
{
    let k = covectors.len();
    lemma_batched_dot(covectors, weights, f.len(), f, k);
    let a = dot_terms(evaluations, weights);
    let b = weighted_dots(covectors, weights, f);
    assert forall|j: int| 0 <= j < k implies #[trigger] a(j) == b(j) by {
        assert(evaluations[j] == dot_spec(f, covectors[j]));
        lemma_fmul_comm(evaluations[j], weights[j]);
    }
    lemma_fsum_eq(a, b, k);
}

/// The value at a point of a batched covector is the batched value of the forms.
proof fn lemma_batched_value(covectors: Seq<Seq<int>>, batching: int, n: nat, point: Seq<int>)
    requires
        covectors_wf(covectors, n),
        canonical(batching),
        all_canonical(point),
        n == pow2(point.len()),
    ensures
        mle(
            batched_covector(
                covectors,
                geometric(1, batching, covectors.len()),
                n,
                covectors.len(),
            ),
            point,
        ) == form_sum(covectors, batching, point),
{
    broadcast use {lemma_fpow_canonical, lemma_residue_canonical};

    let k = covectors.len();
    let weights = geometric(1, batching, k);
    let h = eq_table(point);
    lemma_eq_table_len(point);
    lemma_batched_dot(covectors, weights, n, h, k);
    law_dot_commutes(batched_covector(covectors, weights, n, k), h);
    let a = weighted_dots(covectors, weights, h);
    let b = form_terms(covectors, batching, point);
    assert forall|j: int| 0 <= j < k implies #[trigger] a(j) == b(j) by {
        assert(covectors[j].len() == n);
        law_dot_commutes(covectors[j], h);
    }
    lemma_fsum_eq(a, b, k);
}

/// One more factor.
pub proof fn lemma_suffix_push(scales: Seq<int>, s: int, k: nat)
    requires
        all_canonical(scales),
        canonical(s),
        k <= scales.len(),
    ensures
        scale_suffix(scales.push(s), k) == fmul(s, scale_suffix(scales, k)),
        canonical(scale_suffix(scales, k)),
    decreases scales.len() - k,
{
    broadcast use lemma_residue_canonical;

    let more = scales.push(s);
    if k == scales.len() {
        reveal_with_fuel(scale_suffix, 3);
        lemma_fmul_one(s);
    } else {
        lemma_suffix_push(scales, s, k + 1);
        let a = scales[k as int];
        assert(canonical(a));
        let rest = scale_suffix(scales, k + 1);
        lemma_fmul_assoc(a, s, rest);
        lemma_fmul_comm(a, s);
        lemma_fmul_assoc(s, a, rest);
    }
}

/// The value of the covector after some rounds at `z`: the factors so far times the
/// first covector's value, plus the constraints' values.
pub open spec fn covector_accounted(first: Seq<int>, now: Seq<int>, w: Walk, z: Seq<int>) -> bool {
    mle(now, z) == fadd(
        fmul(scale_suffix(w.scales, 0), mle(first, w.points + z)),
        fsum(
            constraint_terms(w.constraints, w.scales, w.starts, w.points + z),
            w.constraints.len(),
        ),
    )
}

/// The values of old constraints after one more round.
pub proof fn lemma_old_constraints(w: Walk, next: Walk, rounds: nat, variables: nat, left: nat, s: int, g: Seq<int>, z: Seq<int>)
    requires
        walk_fits(w, rounds, variables, left),
        all_canonical(w.scales),
        canonical(s),
        next.scales == w.scales.push(s),
        next.points == w.points + g,
        next.starts.len() == w.starts.len() + 1,
        forall|i: int| 0 <= i < w.starts.len() ==> #[trigger] next.starts[i] == w.starts[i],
        forall|i: int| 0 <= i < w.constraints.len() ==> canonical((#[trigger] w.constraints[i]).weight),
        g.len() + z.len() == left,
    ensures
        fsum(
            constraint_terms(w.constraints, next.scales, next.starts, next.points + z),
            w.constraints.len(),
        ) == fmul(
            s,
            fsum(
                constraint_terms(w.constraints, w.scales, w.starts, w.points + (g + z)),
                w.constraints.len(),
            ),
        ),
{
    broadcast use lemma_residue_canonical;

    let a = constraint_terms(w.constraints, next.scales, next.starts, next.points + z);
    let b = constraint_terms(w.constraints, w.scales, w.starts, w.points + (g + z));
    let n = w.constraints.len();
    assert(next.points + z =~= w.points + (g + z));
    assert forall|i: int| 0 <= i < n implies #[trigger] a(i) == fmul(s, b(i)) by {
        let c = w.constraints[i];
        assert(c.round < rounds);
        lemma_suffix_push(w.scales, s, c.round + 1);
        let suf = scale_suffix(w.scales, c.round + 1);
        assert(next.starts[c.round as int + 1] == w.starts[c.round as int + 1]);
        let from = w.starts[c.round as int + 1] as int;
        let pp = power_product(c.x, (w.points + (g + z)).subrange(from, from + c.bits));
        lemma_power_product_canonical(c.x, (w.points + (g + z)).subrange(from, from + c.bits));
        // (weight * (s * suf)) * pp == s * ((weight * suf) * pp)
        assert(canonical(c.weight));
        lemma_fmul_assoc(c.weight, s, suf);
        lemma_fmul_comm(c.weight, s);
        lemma_fmul_assoc(s, c.weight, suf);
        lemma_fmul_assoc(s, fmul(c.weight, suf), pp);
    }
    lemma_fsum_scale(s, b, a, n);
}

/// A product of powers is canonical.
proof fn lemma_power_product_canonical(x: int, z: Seq<int>)
    ensures
        canonical(power_product(x, z)),
{
    broadcast use lemma_residue_canonical;

}

/// The values of a round's own constraints at its end.
pub proof fn lemma_new_constraints(u: Update, bits: nat, round: nat, scales: Seq<int>, starts: Seq<usize>, points: Seq<int>, z: Seq<int>)
    requires
        update_wf(u),
        scales.len() == round + 1,
        starts.len() == round + 2,
        starts[round as int + 1] == points.len(),
        z.len() == bits,
    ensures
        ({
            let cs = round_constraints(u, bits, round);
            fsum(constraint_terms(cs, scales, starts, points + z), cs.len()) == fadd(
                fsum(power_terms(u.ood_coeffs, u.ood_points, z), u.ood_points.len()),
                fsum(power_terms(u.in_coeffs, u.in_points, z), u.in_points.len()),
            )
        }),
{
    broadcast use lemma_residue_canonical;

    let cs = round_constraints(u, bits, round);
    let f = constraint_terms(cs, scales, starts, points + z);
    let a = power_terms(u.ood_coeffs, u.ood_points, z);
    let b = power_terms(u.in_coeffs, u.in_points, z);
    let n = u.ood_points.len();
    let m = u.in_points.len();
    let from = points.len() as int;
    assert((points + z).subrange(from, from + bits) =~= z);
    reveal_with_fuel(scale_suffix, 2);
    assert forall|i: int| 0 <= i < n implies #[trigger] f(i) == a(i) by {
        let c = cs[i];
        assert(canonical(u.ood_coeffs[i]));
        lemma_fmul_one(c.weight);
    }
    assert forall|i: int| 0 <= i < m implies #[trigger] b(i) == f(n + i) by {
        let c = cs[n + i];
        assert(c == point_constraints(u.in_points, u.in_coeffs, bits, round)[i]);
        assert(canonical(u.in_coeffs[i]));
        lemma_fmul_one(c.weight);
    }
    lemma_fsum_split(f, b, n, m);
    lemma_fsum_eq(f, a, n);
    assert(cs.len() == n + m);
}

/// Where both parties are after some rounds.
pub open spec fn in_step(
    rounds: Seq<RoundConfig>,
    first: irs_commit::Config,
    k: nat,
    b0: BlockView,
    block: BlockView,
    vectors: Seq<Seq<int>>,
    w: Walk,
) -> bool {
    let code = code_after(rounds, first, k);
    &&& block.valid(&code, vectors)
    &&& w.block == check_block(block, &code)
    &&& walk_fits(
        w,
        k,
        ceil_log2_spec(first.vector_size as nat),
        ceil_log2_spec(code.vector_size as nat),
    )
    &&& all_canonical(w.points)
    &&& all_canonical(w.scales)
    &&& forall|i: int| 0 <= i < w.constraints.len() ==> canonical((#[trigger] w.constraints[i]).weight)
    &&& forall|z: Seq<int>|
        all_canonical(z) && z.len() == ceil_log2_spec(code.vector_size as nat)
            ==> #[trigger] covector_accounted(b0.covector, block.covector, w, z)
}

/// The covector stays accounted for over a round.
proof fn lemma_account_step(
    round: &RoundConfig,
    k: nat,
    variables: nat,
    b0: BlockView,
    block: BlockView,
    vectors: Seq<Seq<int>>,
    p: ProverView,
    w: Walk,
    next: Walk,
    z: Seq<int>,
)
    requires
        round.wf(),
        block.valid(&round.cs().source, vectors),
        round.round_proved(block, p) is Some,
        walk_fits(w, k, variables, ceil_log2_spec(round.cs().source.vector_size as nat)),
        all_canonical(w.points),
        all_canonical(w.scales),
        forall|i: int| 0 <= i < w.constraints.len() ==> canonical((#[trigger] w.constraints[i]).weight),
        forall|y: Seq<int>|
            all_canonical(y) && y.len() == ceil_log2_spec(round.cs().source.vector_size as nat)
                ==> #[trigger] covector_accounted(b0.covector, block.covector, w, y),
        all_canonical(z),
        z.len() == ceil_log2_spec(round.cs().source.message_len()),
        ({
            let o = round.round_proved(block, p).unwrap();
            &&& next.points == w.points + o.points
            &&& next.starts == w.starts.push((w.points + o.points).len() as usize)
            &&& (w.points + o.points).len() <= usize::MAX
            &&& next.scales == w.scales.push(o.update.scale)
            &&& next.constraints == w.constraints + round_constraints(
                o.update,
                ceil_log2_spec(round.cs().source.message_len()),
                k,
            )
        }),
    ensures
        covector_accounted(
            b0.covector,
            round.round_proved(block, p).unwrap().block.covector,
            next,
            z,
        ),
{
    broadcast use {lemma_residue_canonical, lemma_fsum_canonical};

    let o = round.round_proved(block, p).unwrap();
    let u = o.update;
    let s = u.scale;
    law_round_keeps_claim(round, block, vectors, p);
    lemma_round_variables(round);
    law_round_covector_value(round, block, vectors, p, z);
    let y = o.points + z;
    assert(all_canonical(y));
    assert(covector_accounted(b0.covector, block.covector, w, y));
    let left = ceil_log2_spec(round.cs().source.vector_size as nat);
    lemma_old_constraints(w, next, k, variables, left, s, o.points, z);
    let bits = ceil_log2_spec(round.cs().source.message_len());
    lemma_new_constraints(u, bits, k, next.scales, next.starts, next.points, z);
    lemma_suffix_push(w.scales, s, 0);
    // Split the constraints' sum into the old and the new ones.
    let full = next.points + z;
    let f = constraint_terms(next.constraints, next.scales, next.starts, full);
    let old_terms = constraint_terms(w.constraints, next.scales, next.starts, full);
    let cs = round_constraints(u, bits, k);
    let new_terms = constraint_terms(cs, next.scales, next.starts, full);
    let n = w.constraints.len();
    assert forall|i: int| 0 <= i < cs.len() implies #[trigger] new_terms(i) == f(n + i) by {
        assert(next.constraints[n + i] == cs[i]);
    }
    lemma_fsum_split(f, new_terms, n, cs.len());
    lemma_fsum_eq(f, old_terms, n);
    // s * (A + B) + C == (s * A) + (s * B + C)
    let a = fmul(scale_suffix(w.scales, 0), mle(b0.covector, w.points + y));
    let b = fsum(constraint_terms(w.constraints, w.scales, w.starts, w.points + y), n);
    let c = fsum(new_terms, cs.len());
    lemma_distribute(s, a, b);
    lemma_add_assoc(fmul(s, a), fmul(s, b), c);
    assert(w.points + y =~= full);
    lemma_fmul_assoc(s, scale_suffix(w.scales, 0), mle(b0.covector, full));
}

/// Both parties stay in step over the rounds.
#[verifier::rlimit(40)]
pub proof fn lemma_rounds_in_step(
    rounds: Seq<RoundConfig>,
    first: irs_commit::Config,
    k: nat,
    b0: BlockView,
    vectors: Seq<Seq<int>>,
    p: ProverView,
    q: ProverView,
    tail: Seq<u64>,
) -> (last: Seq<Seq<int>>)
    requires
        rounds_chained(rounds),
        !q.stuck,
        rounds.len() > 0 ==> first == rounds[0].cs().source,
        k <= rounds.len(),
        b0.valid(&first, vectors),
        rounds_proved(rounds, k, b0, p) is Some,
        follows(rounds_proved(rounds, k, b0, p).unwrap().1, q),
        ceil_log2_spec(first.vector_size as nat) <= usize::MAX,
    ensures
        ({
            let (block, view) = rounds_proved(rounds, k, b0, p).unwrap();
            let checked = rounds_checked(rounds, k, check_block(b0, &first), pending(p, q, tail));
            &&& follows(p, view)
            &&& checked is Some
            &&& checked.unwrap().view == pending(view, q, tail)
            &&& in_step(rounds, first, k, b0, block, last, checked.unwrap())
            &&& k == 0 ==> last == vectors
            &&& k > 0 ==> last == seq![block.message]
        }),
    decreases k,
{
    broadcast use {lemma_residue_canonical, lemma_fsum_canonical};

    let (block, view) = rounds_proved(rounds, k, b0, p).unwrap();
    let variables = ceil_log2_spec(first.vector_size as nat);
    if k == 0 {
        lemma_follows_refl(p);
        let w = rounds_checked(rounds, 0, check_block(b0, &first), pending(p, q, tail)).unwrap();
        assert forall|z: Seq<int>|
            all_canonical(z) && z.len() == variables implies #[trigger] covector_accounted(
            b0.covector,
            block.covector,
            w,
            z,
        ) by {
            assert(w.points + z =~= z);
            lemma_fmul_one(mle(b0.covector, z));
            lemma_add_zero(mle(b0.covector, z));
        }
        vectors
    } else {
        let m = (k - 1) as nat;
        let round = rounds[m as int];
        assert(round.wf());
        let (before, mid) = rounds_proved(rounds, m, b0, p).unwrap();
        let code = code_after(rounds, first, m);
        law_same_shape(&code, &round.cs().source);
        let o = round.round_proved(before, mid).unwrap();
        lemma_round_follows(rounds, first, m, b0, vectors, p, q);
        lemma_follows_trans(mid, o.view, q);
        let vs = lemma_rounds_in_step(rounds, first, m, b0, vectors, p, q, tail);
        let w = rounds_checked(rounds, m, check_block(b0, &first), pending(p, q, tail)).unwrap();
        lemma_block_shape(before, &code, &round.cs().source, vs);
        law_round_keeps_claim(&round, before, vs, mid);
        law_round_complete(&round, before, vs, mid, q, tail);
        lemma_follows_trans(p, mid, o.view);
        lemma_round_variables(&round);
        let next = rounds_checked(rounds, k, check_block(b0, &first), pending(p, q, tail)).unwrap();
        let last = seq![o.block.message];
        assert forall|i: int| 0 <= i < next.constraints.len() implies canonical(
            (#[trigger] next.constraints[i]).weight,
        ) && next.constraints[i].round < k && next.starts[next.constraints[i].round as int + 1]
            + next.constraints[i].bits == variables by {
            let n = w.constraints.len();
            if i < n {
                assert(next.constraints[i] == w.constraints[i]);
                assert(w.constraints[i].round < m);
            } else {
                let j = i - n;
                let u = o.update;
                if j < u.ood_points.len() {
                    assert(canonical(u.ood_coeffs[j]));
                } else {
                    assert(canonical(u.in_coeffs[j - u.ood_points.len()]));
                }
            }
        }
        assert forall|z: Seq<int>|
            all_canonical(z) && z.len() == ceil_log2_spec(
                code_after(rounds, first, k).vector_size as nat,
            ) implies #[trigger] covector_accounted(b0.covector, block.covector, next, z) by {
            lemma_account_step(&round, m, variables, b0, before, vs, mid, w, next, z);
        }
        last
    }
}

/// The prover goes on over a round.
proof fn lemma_round_follows(
    rounds: Seq<RoundConfig>,
    first: irs_commit::Config,
    m: nat,
    b0: BlockView,
    vectors: Seq<Seq<int>>,
    p: ProverView,
    q: ProverView,
)
    requires
        rounds_chained(rounds),
        !q.stuck,
        rounds.len() > 0 ==> first == rounds[0].cs().source,
        m < rounds.len(),
        b0.valid(&first, vectors),
        rounds_proved(rounds, m + 1, b0, p) is Some,
        follows(rounds_proved(rounds, m + 1, b0, p).unwrap().1, q),
        ceil_log2_spec(first.vector_size as nat) <= usize::MAX,
    ensures
        ({
            let (before, mid) = rounds_proved(rounds, m, b0, p).unwrap();
            follows(mid, rounds[m as int].round_proved(before, mid).unwrap().view)
        }),
{
    let (before, mid) = rounds_proved(rounds, m, b0, p).unwrap();
    let round = rounds[m as int];
    assert(round.wf());
    let o = round.round_proved(before, mid).unwrap();
    lemma_follows_refl(mid);
    let vs = lemma_blocks_valid(rounds, first, m, b0, vectors, p);
    lemma_block_shape(before, &code_after(rounds, first, m), &round.cs().source, vs);
    law_round_complete(&round, before, vs, mid, q, Seq::empty());
}

/// Every block on the way is valid.
pub proof fn lemma_blocks_valid(
    rounds: Seq<RoundConfig>,
    first: irs_commit::Config,
    m: nat,
    b0: BlockView,
    vectors: Seq<Seq<int>>,
    p: ProverView,
) -> (vs: Seq<Seq<int>>)
    requires
        rounds_chained(rounds),
        rounds.len() > 0 ==> first == rounds[0].cs().source,
        m <= rounds.len(),
        b0.valid(&first, vectors),
        rounds_proved(rounds, m, b0, p) is Some,
    ensures
        rounds_proved(rounds, m, b0, p).unwrap().0.valid(&code_after(rounds, first, m), vs),
    decreases m,
{
    if m == 0 {
        vectors
    } else {
        let k = (m - 1) as nat;
        let vs = lemma_blocks_valid(rounds, first, k, b0, vectors, p);
        let (before, mid) = rounds_proved(rounds, k, b0, p).unwrap();
        let round = rounds[k as int];
        assert(round.wf());
        lemma_block_shape(before, &code_after(rounds, first, k), &round.cs().source, vs);
        law_round_keeps_claim(&round, before, vs, mid);
        seq![rounds_proved(rounds, m, b0, p).unwrap().0.message]
    }
}

/// The first block of a true claim is valid.
proof fn lemma_first_block(
    cfg: &ProtocolConfig,
    f: Seq<int>,
    masks: Seq<int>,
    covectors: Seq<Seq<int>>,
    evaluations: Seq<int>,
    batching: int,
)
    requires
        cfg.wf(),
        cfg.first_code().wf(),
        all_canonical(f),
        f.len() == cfg.tuning.vector_size,
        all_canonical(masks),
        masks.len() == cfg.first_code().num_mask_coefficients(),
        covectors_wf(covectors, f.len()),
        evaluations.len() == covectors.len(),
        forall|j: int|
            0 <= j < covectors.len() ==> #[trigger] evaluations[j] == dot_spec(f, covectors[j]),
        canonical(batching),
    ensures
        cfg.first_block(
            f,
            masks,
            cfg.first_code().encoded(seq![f], masks),
            covectors,
            evaluations,
            batching,
        ).valid(&cfg.first_code(), seq![f]),
{
    broadcast use {lemma_fpow_canonical, lemma_residue_canonical};

    let weights = geometric(1, batching, covectors.len());
    lemma_batched_claim(covectors, weights, f, evaluations);
    lemma_batched_dot(covectors, weights, f.len(), f, covectors.len());
    lemma_theta_single(f);
}

/// The base case's code is well formed, and so is the first one.
pub proof fn lemma_codes(cfg: &ProtocolConfig)
    requires
        cfg.wf(),
    ensures
        cfg.first_code().wf(),
        cfg.last_code() == code_after(cfg.rounds@, cfg.first_code(), cfg.rounds@.len()),
        cfg.basecase.config.spec_size() > 0,
        ceil_log2_spec(cfg.tuning.vector_size as nat) <= usize::MAX,
{
    let n = cfg.rounds@.len();
    crate::arith::lemma_ceil_log2(cfg.tuning.vector_size as nat);
    crate::arith::lemma_exponent_small(cfg.tuning.vector_size);
    if n > 0 {
        assert(cfg.rounds@[0].wf());
        let last = cfg.rounds@[n - 1];
        assert(last.wf());
        lemma_round_variables(&last);
        crate::zook::round_laws::lemma_source_sizes(&last);
    }
}

/// The base case's opening follows the rounds.
pub proof fn lemma_basecase_step(
    cfg: &ProtocolConfig,
    block: BlockView,
    vectors: Seq<Seq<int>>,
    p: ProverView,
    q: ProverView,
    tail: Seq<u64>,
)
    requires
        cfg.wf(),
        !q.stuck,
        block.valid(&cfg.basecase.config.commit, vectors),
        vectors == seq![block.message],
        cfg.basecase.config.spec_size() > 0,
        ({
            let o = cfg.basecase.config.opened(
                block.message,
                block.masks[0],
                block.matrices[0],
                block.covector,
                block.sum,
                p,
            );
            o is Some && follows(o.unwrap().view, q)
        }),
    ensures
        ({
            let c = cfg.basecase.config;
            let o = c.opened(
                block.message,
                block.masks[0],
                block.matrices[0],
                block.covector,
                block.sum,
                p,
            ).unwrap();
            let chk = check_block(block, &c.commit);
            &&& follows(p, o.view)
            &&& c.open_checked(chk.roots[0], chk.sum, pending(p, q, tail)) == Some(
                crate::basecase::OpenChecked {
                    points: o.points,
                    value: o.value,
                    view: pending(o.view, q, tail),
                },
            )
            &&& o.value == mle(block.covector, o.points)
            &&& all_canonical(o.points)
            &&& o.points.len() == ceil_log2_spec(c.commit.vector_size as nat)
        }),
{
    let c = cfg.basecase.config;
    assert(block.matrices[0] == c.commit.encoded(seq![vectors[0]], block.masks[0]));
    assert(all_canonical(block.masks[0]));
    law_basecase_complete(&c, block.message, block.masks[0], block.covector, p, q, tail);
    crate::basecase_laws::lemma_opened_points(
        &c,
        block.message,
        block.masks[0],
        block.matrices[0],
        block.covector,
        block.sum,
        p,
    );
    crate::sumcheck_laws::lemma_size_bound(&c.sumcheck);
}

/// The value without the constraints is the first covector's.
proof fn lemma_left_over(
    first: Seq<int>,
    now: Seq<int>,
    w: Walk,
    z: Seq<int>,
    covectors: Seq<Seq<int>>,
    batching: int,
    n: nat,
)
    requires
        covectors_wf(covectors, n),
        canonical(batching),
        all_canonical(w.points + z),
        n == pow2((w.points + z).len()),
        first == batched_covector(
            covectors,
            geometric(1, batching, covectors.len()),
            n,
            covectors.len(),
        ),
        covector_accounted(first, now, w, z),
    ensures
        fadd(
            0,
            fmul(scale_suffix(w.scales, 0), form_sum(covectors, batching, w.points + z)),
        ) == fsub(
            mle(now, z),
            fsum(
                constraint_terms(w.constraints, w.scales, w.starts, w.points + z),
                w.constraints.len(),
            ),
        ),
{
    broadcast use {lemma_residue_canonical, lemma_fsum_canonical};

    let full = w.points + z;
    let a = fmul(scale_suffix(w.scales, 0), mle(first, full));
    let c = fsum(constraint_terms(w.constraints, w.scales, w.starts, full), w.constraints.len());
    lemma_residue_id(a);
    lemma_residue_id(c);
    crate::field::lemma_residue_add(a, c);
    crate::field::lemma_residue_sub(a + c, c);
    assert(fsub(fadd(a, c), c) == a);
    lemma_add_zero(a);
    lemma_batched_value(covectors, batching, n, full);
}

/// Completeness: a proof of true values is accepted. When the claimed values are those
/// of the linear forms at the committed witness, and the prover writes a proof (it may give
/// up, see [`ProtocolConfig::proved`]), then the verifier, reading what the prover sent,
/// accepts; it leaves nothing of the proof unread, and what is left to check holds of the
/// forms.
#[verifier::rlimit(60)]
pub proof fn law_zook_complete(
    cfg: &ProtocolConfig,
    f: Seq<int>,
    masks: Seq<int>,
    covectors: Seq<Seq<int>>,
    evaluations: Seq<int>,
    p: ProverView,
    tail: Seq<u64>,
)
    requires
        cfg.wf(),
        all_canonical(f),
        f.len() == cfg.tuning.vector_size,
        all_canonical(masks),
        masks.len() == cfg.first_code().num_mask_coefficients(),
        covectors_wf(covectors, f.len()),
        evaluations.len() == covectors.len(),
        forall|j: int|
            0 <= j < covectors.len() ==> #[trigger] evaluations[j] == dot_spec(f, covectors[j]),
        cfg.proved(
            f,
            masks,
            cfg.first_code().encoded(seq![f], masks),
            covectors,
            evaluations,
            p,
        ) is Some,
    ensures
        ({
            let matrix = cfg.first_code().encoded(seq![f], masks);
            let root = root_of(cfg.first_code().matrix_config().leaves(matrix));
            let q = cfg.proved(f, masks, matrix, covectors, evaluations, p).unwrap().view;
            let r = cfg.verified(root, evaluations, pending(p, q, tail));
            &&& r is Some
            &&& r.unwrap().view == (VerifierView { sponge: q.sponge, rest: tail })
            &&& r.unwrap().group.point.len() == ceil_log2_spec(f.len())
            &&& fadd(
                0,
                fmul(
                    r.unwrap().group.scale,
                    form_sum(covectors, r.unwrap().group.batching, r.unwrap().group.point),
                ),
            ) == r.unwrap().contribution
        }),
{
    broadcast use {lemma_residue_canonical, lemma_fsum_canonical};

    let code = cfg.first_code();
    let matrix = code.encoded(seq![f], masks);
    let root = root_of(code.matrix_config().leaves(matrix));
    let rounds = cfg.rounds@;
    let n = rounds.len();
    let batching = challenge(p.sponge);
    let o = cfg.proved(f, masks, matrix, covectors, evaluations, p).unwrap();
    let q = o.view;
    let b0 = cfg.first_block(f, masks, matrix, covectors, evaluations, batching);
    lemma_codes(cfg);
    lemma_first_block(cfg, f, masks, covectors, evaluations, batching);
    let (block, mid) = rounds_proved(rounds, n, b0, p.draw()).unwrap();
    // The base case first: what it sent was sent after the rounds.
    let vs = lemma_blocks_valid(rounds, code, n, b0, seq![f], p.draw());
    lemma_last_vectors(rounds, code, n, b0, f, p.draw());
    lemma_follows_refl(q);
    lemma_block_shape(
        block,
        &cfg.last_code(),
        &cfg.basecase.config.commit,
        seq![block.message],
    );
    law_same_shape(&cfg.last_code(), &cfg.basecase.config.commit);
    lemma_basecase_step(cfg, block, seq![block.message], mid, q, tail);
    let last = lemma_rounds_in_step(rounds, code, n, b0, seq![f], p.draw(), q, tail);
    let w = rounds_checked(rounds, n, check_block(b0, &code), pending(p.draw(), q, tail)).unwrap();
    assert(matrix_roots(&code, b0.matrices) =~= seq![root]);
    let full = w.points + o.points;
    assert(all_canonical(full));
    assert(covector_accounted(b0.covector, block.covector, w, o.points));
    lemma_left_over(b0.covector, block.covector, w, o.points, covectors, batching, f.len());
    assert(pending(p, q, tail).draw() == pending(p.draw(), q, tail));
    assert(pending(q, q, tail).rest =~= tail);
}

/// The last block's commitment is to its own message.
pub proof fn lemma_last_vectors(
    rounds: Seq<RoundConfig>,
    first: irs_commit::Config,
    m: nat,
    b0: BlockView,
    f: Seq<int>,
    p: ProverView,
)
    requires
        rounds_chained(rounds),
        rounds.len() > 0 ==> first == rounds[0].cs().source,
        m <= rounds.len(),
        b0.valid(&first, seq![f]),
        b0.message == f,
        rounds_proved(rounds, m, b0, p) is Some,
    ensures
        ({
            let block = rounds_proved(rounds, m, b0, p).unwrap().0;
            block.valid(&code_after(rounds, first, m), seq![block.message])
        }),
{
    if m > 0 {
        let k = (m - 1) as nat;
        let vs = lemma_blocks_valid(rounds, first, k, b0, seq![f], p);
        let (before, mid) = rounds_proved(rounds, k, b0, p).unwrap();
        let round = rounds[k as int];
        assert(round.wf());
        lemma_block_shape(before, &code_after(rounds, first, k), &round.cs().source, vs);
        law_round_keeps_claim(&round, before, vs, mid);
    }
}

} // verus!
