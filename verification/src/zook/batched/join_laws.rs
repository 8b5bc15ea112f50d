//! What a merge does to the claims of the blocks that enter a shared round.

use crate::algebra::{dot_spec, dot_terms, eq_table, mle};
use crate::arith::{ceil_log2_spec, is_pow2};
use crate::field::{
    all_canonical, canonical, fmul, lemma_fmul_assoc, lemma_fmul_comm, lemma_fmul_one,
    lemma_residue_canonical,
};
use crate::irs_commit;
use crate::irs_laws::matrix_roots;
use crate::params::batched::config::{find_join, seen, BatchedProtocolConfig, RoundJoin};
use crate::params::batched::structure_laws::{joins_before, lemma_joins_before};
use crate::sums::{
    exchanged, fsum, inner_sums, lemma_add_zero, lemma_fsum_add, lemma_fsum_canonical,
    lemma_fsum_eq, lemma_fsum_exchange, lemma_fsum_scale, lemma_fsum_single, lemma_fsum_zero,
};
use crate::transcript::ProverView;
use crate::transcript_laws::{follows, lemma_follows_refl, pending};
use crate::vector_laws::{law_dot_commutes, law_dot_scaled, lemma_eq_table_len};
use crate::zook::batched::prove::{block_covectors, merged_block, messages_of, sums_of};
use crate::zook::batched::selector::merge;
use crate::zook::batched::selector::merge_laws::{
    block_sums, law_merge_complete, law_merge_keeps_claims, mergeable, uniform,
};
use crate::zook::batched::verify::{assigned, check_sums, merge_verified};
use crate::zook::block::{theta_combined, theta_terms, BlockView, CheckBlock};
use crate::zook::round_laws::check_block;
use vstd::arithmetic::power2::pow2;
use vstd::prelude::*;

verus! {

/// Is `b` one of the first `m` indices?
pub open spec fn among(indices: Seq<usize>, b: int, m: nat) -> bool
    decreases m,
{
    m > 0 && (indices[m - 1] == b || among(indices, b, (m - 1) as nat))
}

/// Are the first `m` indices different and below `n`?
pub open spec fn distinct_below(indices: Seq<usize>, n: nat, m: nat) -> bool {
    &&& m <= indices.len()
    &&& forall|i: int| 0 <= i < m ==> (#[trigger] indices[i]) < n
    &&& forall|i: int| 0 <= i < m ==> !among(indices, #[trigger] indices[i] as int, i as nat)
}

/// The terms at the indices.
pub open spec fn terms_at(f: spec_fn(int) -> int, indices: Seq<usize>) -> spec_fn(int) -> int {
    |i: int| f(indices[i] as int)
}

/// The terms at the indices, and zero elsewhere.
pub open spec fn terms_among(f: spec_fn(int) -> int, indices: Seq<usize>, m: nat) -> spec_fn(int) -> int {
    |b: int|
        if among(indices, b, m) {
            f(b)
        } else {
            0
        }
}

/// A sum over different indices is a sum over all places.
pub proof fn lemma_pick_sum(f: spec_fn(int) -> int, indices: Seq<usize>, n: nat, m: nat)
    requires
        distinct_below(indices, n, m),
        forall|b: int| 0 <= b < n ==> canonical(#[trigger] f(b)),
    ensures
        fsum(terms_at(f, indices), m) == fsum(terms_among(f, indices, m), n),
    decreases m,
{
    let after = terms_among(f, indices, m);
    if m == 0 {
        assert forall|b: int| 0 <= b < n implies #[trigger] after(b) == 0 by {}
        lemma_fsum_zero(after, n);
    } else {
        let k = (m - 1) as nat;
        lemma_pick_sum(f, indices, n, k);
        let before = terms_among(f, indices, k);
        let b0 = indices[k as int] as int;
        assert(!among(indices, b0, k));
        let one = |b: int|
            if b == b0 {
                f(b)
            } else {
                0
            };
        assert forall|b: int| 0 <= b < n implies #[trigger] after(b) == crate::field::fadd(
            before(b),
            one(b),
        ) by {
            assert(canonical(f(b)));
            lemma_add_zero(f(b));
            lemma_add_zero(0);
        }
        lemma_fsum_add(before, one, after, n);
        lemma_fsum_single(one, b0, n);
    }
}

/// What was not seen is not among the indices.
proof fn lemma_unseen(joins: Seq<RoundJoin>, j: nat, m: nat, b: int)
    requires
        !seen(joins, j, m, b),
    ensures
        !among(joins[j as int].bundle_indices@, b, m),
    decreases m,
{
    if m > 0 {
        lemma_unseen(joins, j, (m - 1) as nat, b);
    }
}

/// The bundles of a join are different.
pub proof fn lemma_join_distinct(cfg: &BatchedProtocolConfig, j: int)
    requires
        cfg.well_placed(),
        0 <= j < cfg.schedule.joins@.len(),
    ensures
        ({
            let indices = cfg.schedule.joins@[j].bundle_indices@;
            distinct_below(indices, cfg.bundle_configs@.len(), indices.len())
        }),
{
    let joins = cfg.schedule.joins@;
    let indices = joins[j].bundle_indices@;
    assert forall|i: int| 0 <= i < indices.len() implies (#[trigger] indices[i])
        < cfg.bundle_configs@.len() by {
        assert(cfg.index_ok(j, i)) by {
            cfg.lemma_index_ok(j, i);
        }
    }
    assert forall|i: int| 0 <= i < indices.len() implies !among(
        indices,
        #[trigger] indices[i] as int,
        i as nat,
    ) by {
        assert(cfg.index_ok(j, i)) by {
            cfg.lemma_index_ok(j, i);
        }
        lemma_unseen(joins, j as nat, i as nat, indices[i] as int);
    }
}

/// An index that is among some stands at a place.
proof fn lemma_among_at(indices: Seq<usize>, b: int, m: nat) -> (i: int)
    requires
        among(indices, b, m),
    ensures
        0 <= i < m,
        indices[i] == b,
    decreases m,
{
    if indices[m - 1] == b {
        m - 1
    } else {
        lemma_among_at(indices, b, (m - 1) as nat)
    }
}

/// An index at a place is among those before the next.
proof fn lemma_at_among(indices: Seq<usize>, i: int, m: nat)
    requires
        0 <= i < m,
    ensures
        among(indices, indices[i] as int, m),
    decreases m,
{
    if i < m - 1 {
        lemma_at_among(indices, i, (m - 1) as nat);
    }
}

/// A bundle that was seen stands in a join at the round where it is to join.
proof fn lemma_seen_join(cfg: &BatchedProtocolConfig, j: nat, m: nat, b: int) -> (at: int)
    requires
        cfg.well_placed(),
        0 <= b < cfg.bundle_configs@.len(),
        j <= cfg.schedule.joins@.len(),
        j < cfg.schedule.joins@.len() ==> m <= cfg.schedule.joins@[j as int].bundle_indices@.len(),
        j == cfg.schedule.joins@.len() ==> m == 0,
        seen(cfg.schedule.joins@, j, m, b),
    ensures
        0 <= at < cfg.schedule.joins@.len(),
        among(
            cfg.schedule.joins@[at].bundle_indices@,
            b,
            cfg.schedule.joins@[at].bundle_indices@.len(),
        ),
        cfg.bundle_configs@[b].join_round == Some(cfg.join_round(at)),
    decreases j, m,
{
    let joins = cfg.schedule.joins@;
    if m > 0 {
        if joins[j as int].bundle_indices@[m - 1] == b {
            assert(cfg.index_ok(j as int, m - 1)) by {
                cfg.lemma_index_ok(j as int, m - 1);
            }
            lemma_at_among(joins[j as int].bundle_indices@, m - 1, joins[j as int].bundle_indices@.len());
            j as int
        } else {
            lemma_seen_join(cfg, j, (m - 1) as nat, b)
        }
    } else {
        lemma_seen_join(cfg, (j - 1) as nat, joins[j - 1].bundle_indices@.len(), b)
    }
}

/// The bundles that are to join at a round are those of the join at that round.
#[verifier::rlimit(40)]
pub proof fn lemma_joining(cfg: &BatchedProtocolConfig, r: nat, b: int)
    requires
        cfg.well_placed(),
        0 <= b < cfg.bundle_configs@.len(),
        r < cfg.inner.rounds@.len(),
        cfg.inner.rounds@.len() <= usize::MAX,
    ensures
        cfg.join_rounds()[b] == r <==> match find_join(
            cfg.schedule.joins@,
            Some(r as usize),
            cfg.schedule.joins@.len(),
        ) {
            None => false,
            Some(j) => among(
                cfg.schedule.joins@[j].bundle_indices@,
                b,
                cfg.schedule.joins@[j].bundle_indices@.len(),
            ),
        },
{
    let joins = cfg.schedule.joins@;
    let n = joins.len();
    lemma_joins_before(cfg, r, n);
    assert(cfg.bundle_ok(b)) by {
        cfg.lemma_bundle_ok(b);
    }
    cfg.lemma_all_join();
    assert(seen(joins, n, 0, b));
    let at = lemma_seen_join(cfg, n, 0, b);
    assert(cfg.join_ok(at)) by {
        cfg.lemma_join_ok(at);
    }
    let c = joins_before(joins, r, n);
    if cfg.join_rounds()[b] == r {
        if at < c {
            assert(joins[at].round_index.unwrap() < r);
        }
        assert(cfg.join_ok(c as int)) by {
            cfg.lemma_join_ok(c as int);
        }
        crate::params::batched::structure_laws::lemma_rounds_increase(cfg, c as int, at);
    } else {
        match find_join(joins, Some(r as usize), n) {
            None => {},
            Some(j) => {
                let indices = joins[j].bundle_indices@;
                if among(indices, b, indices.len()) {
                    let i = lemma_among_at(indices, b, indices.len());
                    assert(cfg.index_ok(j, i)) by {
                        cfg.lemma_index_ok(j, i);
                    }
                }
            },
        }
    }
}

/// The factors that a merge gives to its bundles.
pub proof fn lemma_assigned(
    pre: Seq<int>,
    indices: Seq<usize>,
    theta: Seq<int>,
    eta: int,
    offset: nat,
    m: nat,
)
    requires
        distinct_below(indices, pre.len(), m),
        all_canonical(pre),
    ensures
        ({
            let r = assigned(pre, indices, theta, eta, offset, m);
            &&& r.len() == pre.len()
            &&& all_canonical(r)
            &&& forall|i: int|
                0 <= i < m ==> r[#[trigger] indices[i] as int] == fmul(theta[i + offset], eta)
            &&& forall|b: int| 0 <= b < pre.len() && !among(indices, b, m) ==> #[trigger] r[b] == pre[b]
        }),
    decreases m,
{
    broadcast use lemma_residue_canonical;

    let r = assigned(pre, indices, theta, eta, offset, m);
    if m > 0 {
        let k = (m - 1) as nat;
        lemma_assigned(pre, indices, theta, eta, offset, k);
        let before = assigned(pre, indices, theta, eta, offset, k);
        let b0 = indices[k as int] as int;
        assert(b0 < pre.len());
        assert(!among(indices, b0, k));
        assert forall|i: int| 0 <= i < m implies r[#[trigger] indices[i] as int] == fmul(
            theta[i + offset],
            eta,
        ) by {
            if i < k {
                lemma_at_among(indices, i, k);
                assert(indices[i] as int != b0);
                assert(r[indices[i] as int] == before[indices[i] as int]);
            }
        }
        assert forall|b: int| 0 <= b < pre.len() && !among(indices, b, m) implies #[trigger] r[b]
            == pre[b] by {
            assert(b != b0);
            assert(before[b] == pre[b]);
        }
        assert forall|b: int| 0 <= b < r.len() implies canonical(#[trigger] r[b]) by {
            if b != b0 {
                assert(canonical(before[b]));
            }
        }
    }
}

/// Every vector's inner product with `h`, times its weight.
pub open spec fn theta_dots(theta: Seq<int>, vectors: Seq<Seq<int>>, h: Seq<int>) -> spec_fn(int) -> int {
    |b: int| fmul(theta[b], dot_spec(vectors[b], h))
}

/// The inner product with a combination is the combination of the inner products.
pub proof fn law_theta_dot(theta: Seq<int>, vectors: Seq<Seq<int>>, len: nat, h: Seq<int>)
    requires
        uniform(vectors, len),
        theta.len() == vectors.len(),
        all_canonical(theta),
        all_canonical(h),
        h.len() == len,
    ensures
        dot_spec(theta_combined(theta, vectors, len), h) == fsum(
            theta_dots(theta, vectors, h),
            theta.len(),
        ),
{
    broadcast use {lemma_residue_canonical, lemma_fsum_canonical};

    let t = theta.len();
    let c = theta_combined(theta, vectors, len);
    let f = |i: int, b: int| fmul(fmul(theta[b], vectors[b][i]), h[i]);
    let by_entry = inner_sums(f, t);
    let d = dot_terms(c, h);
    assert forall|i: int| 0 <= i < len implies #[trigger] d(i) == by_entry(i) by {
        let inner = |b: int| f(i, b);
        let tt = theta_terms(theta, vectors, i);
        assert(canonical(h[i]));
        assert forall|b: int| 0 <= b < t implies #[trigger] inner(b) == fmul(h[i], tt(b)) by {
            lemma_fmul_comm(tt(b), h[i]);
        }
        lemma_fsum_scale(h[i], tt, inner, t);
        lemma_fmul_comm(c[i], h[i]);
    }
    lemma_fsum_eq(d, by_entry, len);
    lemma_fsum_exchange(f, len, t);
    let by_vector = inner_sums(exchanged(f), len);
    let want = theta_dots(theta, vectors, h);
    assert forall|b: int| 0 <= b < t implies #[trigger] by_vector(b) == want(b) by {
        let inner = |i: int| exchanged(f)(b, i);
        let dv = dot_terms(vectors[b], h);
        assert(vectors[b].len() == len && all_canonical(vectors[b]));
        assert(canonical(theta[b]));
        assert forall|i: int| 0 <= i < len implies #[trigger] inner(i) == fmul(theta[b], dv(i)) by {
            assert(canonical(vectors[b][i]) && canonical(h[i]));
            lemma_fmul_assoc(theta[b], vectors[b][i], h[i]);
        }
        lemma_fsum_scale(theta[b], dv, inner, len);
    }
    lemma_fsum_eq(by_vector, want, t);
}

/// The blocks that a merge is meant for: each with one commitment, and with a claim
/// that holds.
pub open spec fn blocks_valid(blocks: Seq<BlockView>, source: &irs_commit::Config) -> bool {
    forall|b: int| 0 <= b < blocks.len() ==> (#[trigger] blocks[b]).valid(source, seq![blocks[b].message])
}

/// May these blocks be merged for the given code?
pub open spec fn merge_fits(cfg: merge::Config, blocks: Seq<BlockView>, source: &irs_commit::Config) -> bool {
    &&& cfg.wf()
    &&& cfg.t == blocks.len()
    &&& cfg.selector.message_length == source.vector_size
    &&& is_pow2(source.vector_size as nat)
    &&& blocks_valid(blocks, source)
}

/// The weights of a merge's blocks.
pub open spec fn merge_weights(cfg: merge::Config, blocks: Seq<BlockView>, p: ProverView) -> Seq<int> {
    if blocks.len() == 1 {
        seq![1int]
    } else {
        cfg.merged(messages_of(blocks), block_covectors(blocks), sums_of(blocks), p).theta
    }
}

/// The common factor of a merge.
pub open spec fn merge_factor(cfg: merge::Config, blocks: Seq<BlockView>, p: ProverView) -> int {
    if blocks.len() == 1 {
        1
    } else {
        cfg.merged(messages_of(blocks), block_covectors(blocks), sums_of(blocks), p).eta
    }
}

/// The vectors behind a merged block's commitments.
pub open spec fn merged_vectors(blocks: Seq<BlockView>) -> Seq<Seq<int>> {
    messages_of(blocks)
}

/// What the merge's laws speak of.
proof fn lemma_merge_inputs(cfg: merge::Config, blocks: Seq<BlockView>, source: &irs_commit::Config)
    requires
        merge_fits(cfg, blocks, source),
    ensures
        mergeable(&cfg, messages_of(blocks), block_covectors(blocks)),
        sums_of(blocks) == block_sums(messages_of(blocks), block_covectors(blocks)),
        cfg.selector.message_length == pow2(ceil_log2_spec(source.vector_size as nat)),
{
    let ms = messages_of(blocks);
    let vs = block_covectors(blocks);
    assert forall|b: int| 0 <= b < blocks.len() implies (#[trigger] ms[b]).len()
        == source.vector_size && all_canonical(ms[b]) by {
        assert(blocks[b].valid(source, seq![blocks[b].message]));
    }
    assert forall|b: int| 0 <= b < blocks.len() implies (#[trigger] vs[b]).len()
        == source.vector_size && all_canonical(vs[b]) by {
        assert(blocks[b].valid(source, seq![blocks[b].message]));
    }
    assert(sums_of(blocks) =~= block_sums(ms, vs)) by {
        assert forall|b: int| 0 <= b < blocks.len() implies sums_of(blocks)[b] == block_sums(
            ms,
            vs,
        )[b] by {
            assert(blocks[b].valid(source, seq![blocks[b].message]));
        }
    }
}

/// A merged block is valid: its claim holds, and its commitments are to the messages
/// that it combines.
pub proof fn law_merge_valid(
    cfg: merge::Config,
    blocks: Seq<BlockView>,
    source: &irs_commit::Config,
    p: ProverView,
)
    requires
        merge_fits(cfg, blocks, source),
    ensures
        merged_block(cfg, blocks, p).0.valid(source, merged_vectors(blocks)),
        merge_weights(cfg, blocks, p).len() == blocks.len(),
        all_canonical(merge_weights(cfg, blocks, p)),
        canonical(merge_factor(cfg, blocks, p)),
{
    let e = merged_block(cfg, blocks, p).0;
    let ms = messages_of(blocks);
    let vs = block_covectors(blocks);
    if blocks.len() == 1 {
        assert(ms =~= seq![blocks[0].message]);
        assert(blocks[0].valid(source, seq![blocks[0].message]));
    } else {
        lemma_merge_inputs(cfg, blocks, source);
        law_merge_keeps_claims(&cfg, ms, vs, ceil_log2_spec(source.vector_size as nat), p);
        assert forall|b: int| 0 <= b < ms.len() implies all_canonical(#[trigger] ms[b]) && ms[b].len()
            == source.vector_size by {
            assert(blocks[b].valid(source, seq![blocks[b].message]));
        }
        assert forall|b: int| 0 <= b < e.masks.len() implies all_canonical(#[trigger] e.masks[b])
            && e.masks[b].len() == source.num_mask_coefficients() by {
            assert(blocks[b].valid(source, seq![blocks[b].message]));
            assert(all_canonical(blocks[b].masks[0]));
        }
        assert forall|b: int| 0 <= b < e.matrices.len() implies #[trigger] e.matrices[b]
            == source.encoded(seq![ms[b]], e.masks[b]) by {
            assert(blocks[b].valid(source, seq![blocks[b].message]));
            assert(blocks[b].matrices[0] == source.encoded(
                seq![seq![blocks[b].message][0]],
                blocks[b].masks[0],
            ));
        }
    }
}

/// Every block's covector at a point, times its weight and the common factor.
pub open spec fn weighted_values(
    theta: Seq<int>,
    eta: int,
    blocks: Seq<BlockView>,
    y: Seq<int>,
) -> spec_fn(int) -> int {
    |c: int| fmul(fmul(theta[c], eta), mle(blocks[c].covector, y))
}

/// The value at a point of a merged covector is the weighted sum of the blocks'.
pub proof fn law_merge_value(
    cfg: merge::Config,
    blocks: Seq<BlockView>,
    source: &irs_commit::Config,
    p: ProverView,
    y: Seq<int>,
)
    requires
        merge_fits(cfg, blocks, source),
        all_canonical(y),
        y.len() == ceil_log2_spec(source.vector_size as nat),
    ensures
        mle(merged_block(cfg, blocks, p).0.covector, y) == fsum(
            weighted_values(
                merge_weights(cfg, blocks, p),
                merge_factor(cfg, blocks, p),
                blocks,
                y,
            ),
            blocks.len(),
        ),
{
    broadcast use {lemma_residue_canonical, lemma_fsum_canonical};

    let theta = merge_weights(cfg, blocks, p);
    let eta = merge_factor(cfg, blocks, p);
    let e = merged_block(cfg, blocks, p).0;
    let f = weighted_values(theta, eta, blocks, y);
    let len = source.vector_size as nat;
    lemma_eq_table_len(y);
    if blocks.len() == 1 {
        reveal_with_fuel(fsum, 2);
        let v = mle(blocks[0].covector, y);
        lemma_fmul_one(1);
        lemma_fmul_one(v);
        assert(f(0) == fmul(fmul(1, 1), v));
        lemma_add_zero(v);
    } else {
        let ms = messages_of(blocks);
        let vs = block_covectors(blocks);
        let h = eq_table(y);
        lemma_merge_inputs(cfg, blocks, source);
        law_merge_keeps_claims(&cfg, ms, vs, ceil_log2_spec(len), p);
        let combined = theta_combined(theta, vs, len);
        assert(all_canonical(combined));
        // <eta * combined, h> == eta * <combined, h>
        law_dot_commutes(e.covector, h);
        law_dot_scaled(h, combined, eta);
        law_dot_commutes(h, combined);
        law_theta_dot(theta, vs, len, h);
        let d = theta_dots(theta, vs, h);
        assert forall|c: int| 0 <= c < blocks.len() implies #[trigger] f(c) == fmul(eta, d(c)) by {
            let v = mle(blocks[c].covector, y);
            assert(vs[c] == blocks[c].covector);
            assert(canonical(theta[c]));
            lemma_fmul_comm(theta[c], eta);
            lemma_fmul_assoc(eta, theta[c], v);
        }
        lemma_fsum_scale(eta, d, f, blocks.len());
    }
}

/// The verifier's blocks.
pub open spec fn check_blocks(blocks: Seq<BlockView>, source: &irs_commit::Config) -> Seq<CheckBlock> {
    Seq::new(blocks.len(), |b: int| check_block(blocks[b], source))
}

/// The verifier follows a merge: it ends with its view of the prover's block, and with
/// the same weights and factor.
pub proof fn law_merge_followed(
    cfg: merge::Config,
    blocks: Seq<BlockView>,
    source: &irs_commit::Config,
    p: ProverView,
    q: ProverView,
    tail: Seq<u64>,
)
    requires
        merge_fits(cfg, blocks, source),
        cfg.selector.sumcheck.round_pow.bits == 0 || !q.stuck,
        follows(merged_block(cfg, blocks, p).1, q),
    ensures
        ({
            let (e, after) = merged_block(cfg, blocks, p);
            &&& follows(p, after)
            &&& merge_verified(cfg, check_blocks(blocks, source), pending(p, q, tail)) == Some(
                (
                    check_block(e, source),
                    merge_weights(cfg, blocks, p),
                    merge_factor(cfg, blocks, p),
                    pending(after, q, tail),
                ),
            )
        }),
{
    let (e, after) = merged_block(cfg, blocks, p);
    let checks = check_blocks(blocks, source);
    if blocks.len() == 1 {
        lemma_follows_refl(p);
    } else {
        let ms = messages_of(blocks);
        let vs = block_covectors(blocks);
        lemma_merge_inputs(cfg, blocks, source);
        law_merge_complete(&cfg, ms, vs, ceil_log2_spec(source.vector_size as nat), p, q, tail);
        assert(check_sums(checks) =~= sums_of(blocks));
        assert(Seq::new(checks.len(), |b: int| checks[b].roots[0]) =~= matrix_roots(
            source,
            e.matrices,
        )) by {
            assert forall|b: int| 0 <= b < checks.len() implies checks[b].roots[0] == matrix_roots(
                source,
                e.matrices,
            )[b] by {
                assert(blocks[b].valid(source, seq![blocks[b].message]));
            }
        }
    }
}

} // verus!
