//! What a selector-merge keeps: the claims of its blocks become one claim about their
//! combination, on both sides alike.

use crate::algebra::{dot_spec, dot_terms, eq_table, folded_all, scaled};
use crate::arith::{ceil_log2_spec, lemma_ceil_log2};
use crate::chunks::{chunk_terms, chunks_combined, law_fold_all_is_combination};
use crate::field::{
    all_canonical, canonical, fmul, lemma_fmul_assoc, lemma_fmul_comm, lemma_fmul_one,
    lemma_residue_canonical, lemma_residue_id,
};
use crate::irs_commit::lemma_challenges_len;
use crate::linear_form::{eq_product, law_mle_of_eq_table};
use crate::round_poly::{triple_sum, triple_terms};
use crate::sums::{
    fsum, lemma_add_zero, lemma_fsum_canonical, lemma_fsum_eq, lemma_fsum_scale, lemma_fsum_split,
    lemma_fsum_trim,
};
use crate::transcript::{challenges, ProverView};
use crate::transcript_laws::{
    follows, lemma_follows_draw, lemma_follows_refl, lemma_follows_trans, pending,
};
use crate::vector_laws::lemma_eq_table_len;
use crate::zook::batched::selector::merge::{repeated, stacked, Config, MergeChecked};
use crate::zook::batched::selector::sumcheck::{law_selector_complete, law_selector_reduces};
use crate::zook::block::{theta_combined, theta_terms};
use vstd::arithmetic::power2::{lemma_pow2_pos, pow2};
use vstd::prelude::*;

verus! {

/// Blocks of one length with entries of the field.
pub open spec fn uniform(blocks: Seq<Seq<int>>, len: nat) -> bool {
    forall|b: int|
        0 <= b < blocks.len() ==> (#[trigger] blocks[b]).len() == len && all_canonical(blocks[b])
}

/// The entry of a block; zero where there is no such block.
pub open spec fn block_entry(blocks: Seq<Seq<int>>, b: int, i: int) -> int {
    if b < blocks.len() {
        blocks[b][i]
    } else {
        0
    }
}

/// The entries of a table of repeated values.
pub proof fn lemma_repeated(s: Seq<int>, len: nat, k: nat)
    requires
        k <= s.len(),
        all_canonical(s),
    ensures
        repeated(s, len, k).len() == k * len,
        all_canonical(repeated(s, len, k)),
        forall|b: int, i: int|
            0 <= b < k && 0 <= i < len ==> #[trigger] repeated(s, len, k)[b * len + i] == s[b],
    decreases k,
{
    if k == 0 {
        assert(0 * len == 0) by (nonlinear_arith);
    } else {
        let m = (k - 1) as nat;
        lemma_repeated(s, len, m);
        let t = repeated(s, len, k);
        let u = repeated(s, len, m);
        assert(k * len == m * len + len) by (nonlinear_arith)
            requires
                k == m + 1,
        ;
        assert forall|i: int| 0 <= i < t.len() implies canonical(#[trigger] t[i]) by {
            assert(canonical(s[m as int]));
            if i < u.len() {
                assert(canonical(u[i]));
            }
        }
        assert forall|b: int, i: int| 0 <= b < k && 0 <= i < len implies #[trigger] t[b * len + i]
            == s[b] by {
            if b < m {
                assert(0 <= b * len + i < m * len) by (nonlinear_arith)
                    requires
                        0 <= b < m,
                        0 <= i < len,
                ;
                assert(u[b * len + i] == s[b]);
            }
        }
    }
}

/// The entries of a table of blocks.
pub proof fn lemma_stacked(blocks: Seq<Seq<int>>, len: nat, k: nat)
    requires
        uniform(blocks, len),
    ensures
        stacked(blocks, len, k).len() == k * len,
        all_canonical(stacked(blocks, len, k)),
        forall|b: int, i: int|
            0 <= b < k && 0 <= i < len ==> #[trigger] stacked(blocks, len, k)[b * len + i]
                == block_entry(blocks, b, i),
    decreases k,
{
    if k == 0 {
        assert(0 * len == 0) by (nonlinear_arith);
    } else {
        let m = (k - 1) as nat;
        lemma_stacked(blocks, len, m);
        let t = stacked(blocks, len, k);
        let u = stacked(blocks, len, m);
        assert(k * len == m * len + len) by (nonlinear_arith)
            requires
                k == m + 1,
        ;
        assert forall|i: int| 0 <= i < t.len() implies canonical(#[trigger] t[i]) by {
            if i < u.len() {
                assert(canonical(u[i]));
            } else if m < blocks.len() {
                assert(canonical(blocks[m as int][i - u.len()]));
            }
        }
        assert forall|b: int, i: int| 0 <= b < k && 0 <= i < len implies #[trigger] t[b * len + i]
            == block_entry(blocks, b, i) by {
            if b < m {
                assert(0 <= b * len + i < m * len) by (nonlinear_arith)
                    requires
                        0 <= b < m,
                        0 <= i < len,
                ;
                assert(u[b * len + i] == block_entry(blocks, b, i));
            }
        }
    }
}

/// The blocks' inner products, each times its weight.
spec fn weighted_dots(eq: Seq<int>, ms: Seq<Seq<int>>, vs: Seq<Seq<int>>) -> spec_fn(int) -> int {
    |b: int|
        if b < ms.len() {
            fmul(dot_spec(ms[b], vs[b]), eq[b])
        } else {
            0
        }
}

/// The sum over the tables is the weighted sum of the blocks' inner products.
proof fn lemma_table_sum(eq: Seq<int>, ms: Seq<Seq<int>>, vs: Seq<Seq<int>>, len: nat, h: nat, k: nat)
    requires
        uniform(ms, len),
        uniform(vs, len),
        ms.len() == vs.len(),
        all_canonical(eq),
        eq.len() == h,
        k <= h,
    ensures
        fsum(
            triple_terms(repeated(eq, len, h), stacked(ms, len, h), stacked(vs, len, h)),
            (k * len) as nat,
        ) == fsum(weighted_dots(eq, ms, vs), k),
    decreases k,
{
    broadcast use {lemma_residue_canonical, lemma_fsum_canonical};

    let f = triple_terms(repeated(eq, len, h), stacked(ms, len, h), stacked(vs, len, h));
    let g = weighted_dots(eq, ms, vs);
    if k == 0 {
        assert(0 * len == 0) by (nonlinear_arith);
    } else {
        let m = (k - 1) as nat;
        lemma_table_sum(eq, ms, vs, len, h, m);
        lemma_repeated(eq, len, h);
        lemma_stacked(ms, len, h);
        lemma_stacked(vs, len, h);
        assert(k * len == m * len + len) by (nonlinear_arith)
            requires
                k == m + 1,
        ;
        let base = (m * len) as nat;
        let part = |i: int| f(base + i);
        lemma_fsum_split(f, part, base, len);
        assert(canonical(eq[m as int]));
        if m < ms.len() {
            let d = dot_terms(ms[m as int], vs[m as int]);
            assert forall|i: int| 0 <= i < len implies #[trigger] part(i) == fmul(eq[m as int], d(i)) by {
                assert(repeated(eq, len, h)[m as int * len + i] == eq[m as int]);
                assert(stacked(ms, len, h)[m as int * len + i] == block_entry(ms, m as int, i));
                assert(stacked(vs, len, h)[m as int * len + i] == block_entry(vs, m as int, i));
            }
            lemma_fsum_scale(eq[m as int], d, part, len);
            lemma_fmul_comm(eq[m as int], fsum(d, len));
        } else {
            assert forall|i: int| 0 <= i < len implies #[trigger] part(i) == 0 by {
                assert(repeated(eq, len, h)[m as int * len + i] == eq[m as int]);
                assert(stacked(ms, len, h)[m as int * len + i] == block_entry(ms, m as int, i));
                assert(stacked(vs, len, h)[m as int * len + i] == block_entry(vs, m as int, i));
                lemma_residue_id(0);
                assert(eq[m as int] * 0 == 0) by (nonlinear_arith);
            }
            crate::sums::lemma_fsum_zero(part, len);
        }
    }
}

/// Setting the selector combines the blocks by the weights of the challenges.
proof fn lemma_fold_stacked(blocks: Seq<Seq<int>>, delta: Seq<int>, k: nat)
    requires
        uniform(blocks, pow2(k)),
        all_canonical(delta),
        blocks.len() <= pow2(delta.len()),
    ensures
        folded_all(stacked(blocks, pow2(k), pow2(delta.len())), delta) == theta_combined(
            eq_table(delta).take(blocks.len() as int),
            blocks,
            pow2(k),
        ),
{
    broadcast use {lemma_residue_canonical, lemma_fsum_canonical};

    let len = pow2(k);
    let h = pow2(delta.len());
    let w = eq_table(delta);
    let theta = w.take(blocks.len() as int);
    let s = stacked(blocks, len, h);
    lemma_stacked(blocks, len, h);
    lemma_eq_table_len(delta);
    law_fold_all_is_combination(s, delta, k);
    let lhs = chunks_combined(s, len, w);
    let rhs = theta_combined(theta, blocks, len);
    assert forall|i: int| 0 <= i < len implies lhs[i] == rhs[i] by {
        let f = chunk_terms(s, len, w, i);
        let g = theta_terms(theta, blocks, i);
        assert forall|b: int| blocks.len() <= b < h implies #[trigger] f(b) == 0 by {
            assert(s[b * len + i] == block_entry(blocks, b, i));
            assert(w[b] * 0 == 0) by (nonlinear_arith);
            lemma_residue_id(0);
        }
        lemma_fsum_trim(f, blocks.len(), h);
        assert forall|b: int| 0 <= b < blocks.len() implies #[trigger] f(b) == g(b) by {
            assert(s[b * len + i] == block_entry(blocks, b, i));
        }
        lemma_fsum_eq(f, g, blocks.len());
    }
    assert(lhs =~= rhs);
}

/// Setting the selector of the weights' table leaves `eq(delta, beta)` everywhere.
proof fn lemma_fold_repeated(beta: Seq<int>, delta: Seq<int>, k: nat)
    requires
        all_canonical(beta),
        all_canonical(delta),
        beta.len() == delta.len(),
    ensures
        ({
            let t = folded_all(repeated(eq_table(beta), pow2(k), pow2(delta.len())), delta);
            &&& t.len() == pow2(k)
            &&& forall|i: int| 0 <= i < t.len() ==> #[trigger] t[i] == eq_product(delta, beta)
        }),
{
    broadcast use {lemma_residue_canonical, lemma_fsum_canonical};

    let len = pow2(k);
    let h = pow2(delta.len());
    let w = eq_table(delta);
    let e = eq_table(beta);
    lemma_eq_table_len(delta);
    lemma_eq_table_len(beta);
    let s = repeated(e, len, h);
    lemma_repeated(e, len, h);
    law_fold_all_is_combination(s, delta, k);
    law_mle_of_eq_table(delta, beta);
    let t = folded_all(s, delta);
    assert forall|i: int| 0 <= i < t.len() implies #[trigger] t[i] == eq_product(delta, beta) by {
        let f = chunk_terms(s, len, w, i);
        let g = dot_terms(w, e);
        assert forall|b: int| 0 <= b < h implies #[trigger] f(b) == g(b) by {
            assert(s[b * len + i] == e[b]);
        }
        lemma_fsum_eq(f, g, h);
    }
}

/// A constant factor moves into the second table.
proof fn lemma_constant_factor(e: Seq<int>, m: Seq<int>, v: Seq<int>, eta: int)
    requires
        e.len() == m.len(),
        e.len() == v.len(),
        all_canonical(m),
        all_canonical(v),
        canonical(eta),
        forall|i: int| 0 <= i < e.len() ==> #[trigger] e[i] == eta,
    ensures
        triple_sum(e, m, v) == dot_spec(m, scaled(v, eta)),
{
    let f = triple_terms(e, m, v);
    let g = dot_terms(m, scaled(v, eta));
    assert forall|i: int| 0 <= i < e.len() implies #[trigger] f(i) == g(i) by {
        assert(e[i] == eta);
        assert(canonical(m[i]) && canonical(v[i]));
        lemma_fmul_comm(v[i], eta);
        lemma_fmul_assoc(eta, m[i], v[i]);
        lemma_fmul_comm(eta, m[i]);
        lemma_fmul_assoc(m[i], eta, v[i]);
    }
    lemma_fsum_eq(f, g, e.len());
}

/// The inner products of blocks.
pub open spec fn block_sums(ms: Seq<Seq<int>>, vs: Seq<Seq<int>>) -> Seq<int> {
    Seq::new(ms.len(), |b: int| dot_spec(ms[b], vs[b]))
}

/// The blocks, covectors and parameters a merge is meant for.
pub open spec fn mergeable(cfg: &Config, ms: Seq<Seq<int>>, vs: Seq<Seq<int>>) -> bool {
    &&& cfg.wf()
    &&& ms.len() == cfg.t
    &&& vs.len() == cfg.t
    &&& uniform(ms, cfg.selector.message_length as nat)
    &&& uniform(vs, cfg.selector.message_length as nat)
}

/// The initial claim of the selector sumcheck.
proof fn lemma_initial_claim(cfg: &Config, ms: Seq<Seq<int>>, vs: Seq<Seq<int>>, beta: Seq<int>)
    requires
        mergeable(cfg, ms, vs),
        all_canonical(beta),
        beta.len() == cfg.selector.selector_dim,
    ensures
        ({
            let t = cfg.tables(eq_table(beta), ms, vs);
            &&& t.len() == 3
            &&& t[0].len() == cfg.selector.sumcheck.initial_size
            &&& t[1].len() == cfg.selector.sumcheck.initial_size
            &&& t[2].len() == cfg.selector.sumcheck.initial_size
            &&& all_canonical(t[0])
            &&& all_canonical(t[1])
            &&& all_canonical(t[2])
            &&& triple_sum(t[0], t[1], t[2]) == dot_spec(block_sums(ms, vs), eq_table(beta))
        }),
{
    broadcast use {lemma_residue_canonical, lemma_fsum_canonical};

    let eq = eq_table(beta);
    let l = cfg.selector.message_length as nat;
    let h = cfg.selector.spec_padded();
    lemma_ceil_log2(cfg.t as nat);
    lemma_eq_table_len(beta);
    lemma_repeated(eq, l, h);
    lemma_stacked(ms, l, h);
    lemma_stacked(vs, l, h);
    lemma_table_sum(eq, ms, vs, l, h, h);
    let g = weighted_dots(eq, ms, vs);
    lemma_fsum_trim(g, ms.len(), h);
    lemma_fsum_eq(g, dot_terms(block_sums(ms, vs), eq), ms.len());
}

/// The claims of the blocks are merged into one: if every sum is the inner product of
/// its block's message and covector, the merged sum is that of the merged message and
/// covector. The merged message is the combination of the messages by the weights
/// `theta` of the selector challenges, the merged covector that of the covectors,
/// times the factor `eta`.
pub proof fn law_merge_keeps_claims(
    cfg: &Config,
    ms: Seq<Seq<int>>,
    vs: Seq<Seq<int>>,
    k: nat,
    p: ProverView,
)
    requires
        mergeable(cfg, ms, vs),
        cfg.selector.message_length == pow2(k),
    ensures
        ({
            let m = cfg.merged(ms, vs, block_sums(ms, vs), p);
            let l = cfg.selector.message_length as nat;
            &&& m.theta.len() == cfg.t
            &&& all_canonical(m.theta)
            &&& canonical(m.eta)
            &&& m.message == theta_combined(m.theta, ms, l)
            &&& m.covector == scaled(theta_combined(m.theta, vs, l), m.eta)
            &&& m.sum == dot_spec(m.message, m.covector)
            &&& m.delta.len() == cfg.selector.selector_dim
            &&& all_canonical(m.delta)
            &&& all_canonical(m.message)
            &&& all_canonical(m.covector)
            &&& m.theta == eq_table(m.delta).take(cfg.t as int)
            &&& m.eta == eq_product(
                m.delta,
                challenges(p.sponge, cfg.selector.selector_dim as nat),
            )
        }),
{
    broadcast use {lemma_residue_canonical, lemma_fsum_canonical};

    let sums = block_sums(ms, vs);
    let m = cfg.merged(ms, vs, sums, p);
    let l = cfg.selector.message_length as nat;
    let n = cfg.selector.selector_dim as nat;
    let beta = challenges(p.sponge, n);
    lemma_challenges_len(p.sponge, n);
    lemma_pow2_pos(k);
    lemma_ceil_log2(cfg.t as nat);
    if cfg.t == 1 {
        lemma_combine_one(ms[0], ms);
        lemma_combine_one(vs[0], vs);
        assert(ceil_log2_spec(1) == 0);
        assert(scaled(vs[0], 1) =~= vs[0]) by {
            assert forall|i: int| 0 <= i < vs[0].len() implies #[trigger] scaled(vs[0], 1)[i]
                == vs[0][i] by {
                assert(canonical(vs[0][i]));
                lemma_fmul_one(vs[0][i]);
            }
        }
        assert(eq_table(m.delta).take(1) =~= seq![1int]);
    } else {
        let eq = eq_table(beta);
        let tables = cfg.tables(eq, ms, vs);
        lemma_initial_claim(cfg, ms, vs, beta);
        law_selector_reduces(&cfg.selector, tables, p.draw_many(n));
        let end = cfg.selector.proved(tables, dot_spec(sums, eq), p.draw_many(n));
        let delta = end.points;
        lemma_fold_stacked(ms, delta, k);
        lemma_fold_stacked(vs, delta, k);
        lemma_fold_repeated(beta, delta, k);
        assert(end.tables[0][0] == eq_product(delta, beta));
        assert(canonical(end.tables[0][0]));
        lemma_constant_factor(end.tables[0], end.tables[1], end.tables[2], m.eta);
        lemma_eq_table_len(delta);
    }
}

/// A single vector of weight one is its own combination.
proof fn lemma_combine_one(v: Seq<int>, vs: Seq<Seq<int>>)
    requires
        vs.len() == 1,
        vs[0] == v,
        all_canonical(v),
    ensures
        theta_combined(seq![1int], vs, v.len()) == v,
{
    let c = theta_combined(seq![1int], vs, v.len());
    assert forall|i: int| 0 <= i < v.len() implies c[i] == v[i] by {
        let f = theta_terms(seq![1int], vs, i);
        reveal_with_fuel(fsum, 2);
        assert(canonical(v[i]));
        assert(f(0) == fmul(1, v[i]));
        lemma_fmul_one(v[i]);
        lemma_add_zero(v[i]);
    }
    assert(c =~= v);
}

/// The verifier follows the prover's merge: it ends with the same sum, challenges and
/// weights, and with the same factor.
pub proof fn law_merge_complete(
    cfg: &Config,
    ms: Seq<Seq<int>>,
    vs: Seq<Seq<int>>,
    k: nat,
    p: ProverView,
    q: ProverView,
    tail: Seq<u64>,
)
    requires
        mergeable(cfg, ms, vs),
        cfg.selector.message_length == pow2(k),
        cfg.selector.sumcheck.round_pow.bits == 0 || !q.stuck,
        follows(cfg.merged(ms, vs, block_sums(ms, vs), p).view, q),
    ensures
        ({
            let m = cfg.merged(ms, vs, block_sums(ms, vs), p);
            &&& follows(p, m.view)
            &&& cfg.merge_checked(block_sums(ms, vs), pending(p, q, tail)) == Some(
                MergeChecked {
                    sum: m.sum,
                    delta: m.delta,
                    eta: m.eta,
                    theta: m.theta,
                    view: pending(m.view, q, tail),
                },
            )
        }),
{
    broadcast use lemma_fsum_canonical;

    let sums = block_sums(ms, vs);
    let m = cfg.merged(ms, vs, sums, p);
    law_merge_keeps_claims(cfg, ms, vs, k, p);
    if cfg.t == 1 {
        lemma_follows_refl(p);
    } else {
        let n = cfg.selector.selector_dim as nat;
        let eq = eq_table(challenges(p.sponge, n));
        let d = p.draw_many(n);
        lemma_follows_draw(p, n);
        law_selector_complete(
            &cfg.selector,
            cfg.tables(eq, ms, vs),
            dot_spec(sums, eq),
            d,
            q,
            tail,
        );
        lemma_follows_trans(p, d, m.view);
        assert(pending(p, q, tail).draw_many(n) == pending(d, q, tail));
    }
}

} // verus!
