//! A verifier that accepts is bound to its claims: laws of the rounds and of the whole
//! protocol that hold whoever sends the messages.

use crate::algebra::{dot_spec, eq_table, geometric};
use crate::field::{
    all_canonical, canonical, fadd, fmul, fsub, group_residue, lemma_cancel, lemma_fmul_assoc,
    lemma_fmul_one, lemma_residue_canonical, lemma_residue_id, quotient, residue, MODULUS,
};
use crate::code_switch::SwitchChecked;
use crate::matrix_commit::Digest;
use crate::params::config::{ProtocolConfig, RoundConfig, RoundMode};
use crate::polynomial_laws::law_combination_tells_apart;
use crate::soundness_laws::{
    after_words, law_opening_binds, law_quotient_times_divisor, law_sumcheck_binds,
    law_switch_binds, law_words_are_read, lemma_add_cancel, lemma_join_words, lemma_one_word,
    none_zero,
};
use crate::sums::{fsum, lemma_fsum_canonical, total};
use crate::transcript::{challenge, VerifierView};
use crate::zook::block::CheckBlock;
use crate::zook::final_claim::{constraint_terms, form_sum};
use crate::zook::masks::{point_rows, zk_tail_spec};
use crate::zook::round::RoundChecked;
use crate::zook::slot_weights::slot_table;
use crate::zook::verify::{lemma_round_variables, rounds_checked, Walk};
use vstd::prelude::*;

verus! {

/// Equal differences with one equal subtrahend come from equal values.
pub proof fn lemma_sub_cancel(x: int, y: int, d: int)
    requires
        canonical(x),
        canonical(y),
        fsub(x, d) == fsub(y, d),
    ensures
        x == y,
{
    assert(fsub(x, d) == fadd(-d, x));
    assert(fsub(y, d) == fadd(-d, y));
    lemma_add_cancel(-d, x, y);
}

/// Do two blocks differ at most in the claimed sum?
pub open spec fn block_twins(a: CheckBlock, b: CheckBlock) -> bool {
    &&& a.roots == b.roots
    &&& a.theta == b.theta
    &&& canonical(a.sum)
    &&& canonical(b.sum)
}

/// A round binds the claimed sum: with the same messages, verifiers of different claims
/// accept alike and are left with different sums unless a challenge was zero.
pub proof fn law_round_binds(round: &RoundConfig, a: CheckBlock, b: CheckBlock, v: VerifierView)
    requires
        round.wf(),
        block_twins(a, b),
    ensures
        round.round_checked(a, v) is Some == round.round_checked(b, v) is Some,
        round.round_checked(a, v) matches Some(x) ==> {
            let y = round.round_checked(b, v).unwrap();
            &&& block_twins(x.block, y.block)
            &&& x.points == y.points
            &&& x.update == y.update
            &&& x.view == y.view
            &&& none_zero(x.points) && x.block.sum == y.block.sum ==> a.sum == b.sum
        },
{
    reveal(RoundConfig::round_checked);
    match round.mode {
        RoundMode::Standard => {
            lemma_plain_round_binds(round, a, b, v);
        },
        RoundMode::ZeroKnowledge { t_ood, mask_oracle } => {
            lemma_masked_round_binds(round, a, b, v);
        },
    }
}

proof fn lemma_plain_round_binds(round: &RoundConfig, a: CheckBlock, b: CheckBlock, v: VerifierView)
    requires
        round.wf(),
        block_twins(a, b),
        round.mode is Standard,
    ensures
        round.plain_round_checked(a, v) is Some == round.plain_round_checked(b, v) is Some,
        round.plain_round_checked(a, v) matches Some(x) ==> {
            let y = round.plain_round_checked(b, v).unwrap();
            &&& block_twins(x.block, y.block)
            &&& x.points == y.points
            &&& x.update == y.update
            &&& x.view == y.view
            &&& none_zero(x.points) && x.block.sum == y.block.sum ==> a.sum == b.sum
        },
{
    law_sumcheck_binds(&round.sc(), a.sum, b.sum, v);
    if let Some((x, rlc)) = round.sc().checked(a.sum, v) {
        let (y, other) = round.sc().checked(b.sum, v).unwrap();
        let weights = slot_table(a.theta, eq_table(x.points));
        law_switch_binds(&round.cs(), a.roots, weights, x.sum, y.sum, x.view);
    }
}

#[verifier::spinoff_prover]
#[verifier::rlimit(60)]
proof fn lemma_masked_round_binds(round: &RoundConfig, a: CheckBlock, b: CheckBlock, v: VerifierView)
    requires
        round.wf(),
        block_twins(a, b),
        round.mode is ZeroKnowledge,
    ensures
        ({
            let mo = round.mode->ZeroKnowledge_mask_oracle;
            &&& round.masked_round_checked(mo, a, v) is Some == round.masked_round_checked(
                mo,
                b,
                v,
            ) is Some
            &&& round.masked_round_checked(mo, a, v) matches Some(x) ==> {
                let y = round.masked_round_checked(mo, b, v).unwrap();
                &&& block_twins(x.block, y.block)
                &&& x.points == y.points
                &&& x.update == y.update
                &&& x.view == y.view
                &&& none_zero(x.points) && x.block.sum == y.block.sum ==> a.sum == b.sum
            }
        }),
{
    broadcast use lemma_residue_canonical;

    let mo = round.mode->ZeroKnowledge_mask_oracle;
    if let Some((ws, v1)) = v.read_all(4) {
        law_sumcheck_binds(&round.sc(), a.sum, b.sum, v1);
        if let Some((x, rlc)) = round.sc().checked(a.sum, v1) {
            let (y, other) = round.sc().checked(b.sum, v1).unwrap();
            if let Some((us, v2)) = x.view.read_all(4) {
                if let Some((delta, v3)) = v2.read_field() {
                    if rlc != 0 {
                        let inv = quotient(1, rlc);
                        lemma_residue_id(1);
                        law_quotient_times_divisor(1, rlc);
                        if inv == 0 {
                            assert(0 * rlc == 0) by (nonlinear_arith);
                            lemma_residue_id(0);
                        }
                        let (xd, yd) = (fsub(x.sum, delta), fsub(y.sum, delta));
                        let (xs, ys) = (fmul(xd, inv), fmul(yd, inv));
                        let weights = slot_table(
                            a.theta,
                            eq_table(x.points),
                        );
                        law_switch_binds(&round.cs(), a.roots, weights, xs, ys, v3);
                        if xs == ys {
                            lemma_cancel(xd, yd, inv);
                            lemma_sub_cancel(x.sum, y.sum, delta);
                        }
                        if let Some(s) = round.cs().switch_checked(a.roots, weights, xs, v3) {
                            let t = round.cs().switch_checked(a.roots, weights, ys, v3).unwrap();
                            lemma_discharge_binds(
                                round,
                                Digest { a: ws[0], b: ws[1], c: ws[2], d: ws[3] },
                                Digest { a: us[0], b: us[1], c: us[2], d: us[3] },
                                delta,
                                x.points,
                                s,
                                t,
                            );
                        }
                    }
                }
            }
        }
    }
}

proof fn lemma_discharge_binds(
    round: &RoundConfig,
    sc_root: Digest,
    cs_root: Digest,
    delta: int,
    points: Seq<int>,
    s: SwitchChecked,
    t: SwitchChecked,
)
    requires
        round.mode is ZeroKnowledge,
        s.update == t.update,
        s.view == t.view,
        canonical(s.sum),
        canonical(t.sum),
    ensures
        ({
            let mo = round.mode->ZeroKnowledge_mask_oracle;
            let x = round.discharged(mo, sc_root, cs_root, delta, points, s);
            let y = round.discharged(mo, sc_root, cs_root, delta, points, t);
            &&& x is Some == y is Some
            &&& x is Some ==> {
                &&& x.unwrap().1 == y.unwrap().1
                &&& canonical(x.unwrap().0)
                &&& canonical(y.unwrap().0)
                &&& x.unwrap().0 == y.unwrap().0 ==> s.sum == t.sum
            }
        }),
{
    broadcast use lemma_residue_canonical;

    let mo = round.mode->ZeroKnowledge_mask_oracle;
    let x = round.discharged(mo, sc_root, cs_root, delta, points, s);
    let y = round.discharged(mo, sc_root, cs_root, delta, points, t);
    if x is Some && x.unwrap().0 == y.unwrap().0 {
        let sm = mo.sumcheck_masks.config;
        let rows = point_rows(points, sm.size(), points.len());
        let v1 = sm.checked(sc_root, rows, s.view).unwrap().1;
        let tail = zk_tail_spec(
            s.update,
            round.cs().source.message_len(),
            mo.l_zk as nat,
            round.cs().source.mode.mask_len(),
        );
        let ys = mo.cs_mask.config.checked(cs_root, tail, v1).unwrap().0;
        lemma_sub_cancel(s.sum, t.sum, ys[0]);
    }
}

/// What a standard round shows: the sumcheck starts from the block's sum; the code-switch
/// opens the block's commitments, weighted by the block's weights and the challenges; and
/// the next block has the commitment that was switched to, of weight one.
pub proof fn law_plain_round_shows(round: &RoundConfig, block: CheckBlock, v: VerifierView)
    requires
        round.wf(),
        round.mode is Standard,
    ensures
        round.round_checked(block, v) matches Some(o) ==> ({
            let summed = round.sc().checked(block.sum, v);
            let end = summed.unwrap().0;
            let switched = round.cs().switch_checked(
                block.roots,
                slot_table(block.theta, eq_table(end.points)),
                end.sum,
                end.view,
            );
            &&& summed is Some
            &&& switched is Some
            &&& o.points == end.points
            &&& o.update == switched.unwrap().update
            &&& o.view == switched.unwrap().view
            &&& o.block.sum == switched.unwrap().sum
            &&& o.block.roots == seq![switched.unwrap().root]
            &&& o.block.theta == seq![1int]
        }),
{
    reveal(RoundConfig::round_checked);
}

/// What a zero-knowledge round shows: the root of the sumcheck's masks is read before the
/// sumcheck, that of the code-switch's mask and the masks' value after it. The value is
/// the sum of what the first masks are shown to give at the challenges; without it, the
/// sumcheck's end is the factor times what the code-switch starts from. And what the
/// second mask is shown to give is no part of the sum that is left.
pub open spec fn masked_round_shown(
    round: &RoundConfig,
    block: CheckBlock,
    v: VerifierView,
    o: RoundChecked,
    start: int,
    first: Digest,
    second: Digest,
    s: SwitchChecked,
) -> bool {
    let mo = round.mode->ZeroKnowledge_mask_oracle;
    let (sm, cm) = (mo.sumcheck_masks.config, mo.cs_mask.config);
    let source = round.cs().source;
    &&& v.rest.len() >= 4
    &&& first.words() == v.rest.take(4)
    &&& round.sc().checked(block.sum, after_words(v, 4)) matches Some((end, rlc)) && {
        let delta = end.view.rest[4] as int;
        let rows = point_rows(end.points, sm.size(), end.points.len());
        let tail = zk_tail_spec(s.update, source.message_len(), mo.l_zk as nat, source.mode.mask_len());
        &&& end.view.rest.len() >= 5
        &&& second.words() == end.view.rest.take(4)
        &&& rlc != 0
        &&& fmul(start, rlc) == fsub(end.sum, delta)
        &&& round.cs().switch_checked(
            block.roots,
            slot_table(block.theta, eq_table(end.points)),
            start,
            after_words(end.view, 5),
        ) == Some(s)
        &&& sm.checked(first, rows, s.view) matches Some((xs, v1)) && {
            &&& total(xs) == delta
            &&& cm.checked(second, tail, v1) matches Some((ys, v2)) && {
                &&& fadd(o.block.sum, ys[0]) == s.sum
                &&& o.view == v2
            }
        }
        &&& o.block.roots == seq![s.root]
        &&& o.block.theta == seq![1int]
        &&& o.points == end.points
        &&& o.update == s.update
    }
}

/// Every zero-knowledge round that is accepted shows what it must.
#[verifier::spinoff_prover]
#[verifier::rlimit(60)]
pub proof fn law_masked_round_shows(round: &RoundConfig, block: CheckBlock, v: VerifierView)
    requires
        round.wf(),
        round.mode is ZeroKnowledge,
        canonical(block.sum),
    ensures
        round.round_checked(block, v) matches Some(o) ==> exists|
            start: int,
            first: Digest,
            second: Digest,
            s: SwitchChecked,
        | masked_round_shown(round, block, v, o, start, first, second, s),
{
    let mo = round.mode->ZeroKnowledge_mask_oracle;
    assert(round.round_checked(block, v) == round.masked_round_checked(mo, block, v)) by {
        reveal(RoundConfig::round_checked);
    }
    if let Some(o) = round.masked_round_checked(mo, block, v) {
        law_words_are_read(v, 4);
        let (ws, v1) = v.read_all(4).unwrap();
        let (end, rlc) = round.sc().checked(block.sum, v1).unwrap();
        law_words_are_read(end.view, 4);
        let (us, v2) = end.view.read_all(4).unwrap();
        let (delta, v3) = v2.read_field().unwrap();
        lemma_fifth_word(end.view);
        let first = Digest { a: ws[0], b: ws[1], c: ws[2], d: ws[3] };
        let second = Digest { a: us[0], b: us[1], c: us[2], d: us[3] };
        assert(first.words() =~= v.rest.take(4));
        assert(second.words() =~= end.view.rest.take(4));
        assert(canonical(rlc)) by {
            law_sumcheck_binds(&round.sc(), block.sum, block.sum, v1);
        }
        let gap = fsub(end.sum, delta);
        let start = fmul(gap, quotient(1, rlc));
        lemma_unscaled(end.sum - delta, rlc);
        let weights = slot_table(block.theta, eq_table(end.points));
        let s = round.cs().switch_checked(block.roots, weights, start, v3).unwrap();
        assert(canonical(s.sum)) by {
            lemma_residue_canonical(gap * quotient(1, rlc));
            law_switch_binds(&round.cs(), block.roots, weights, start, start, v3);
        }
        let d = round.discharged(mo, first, second, delta, end.points, s);
        assert(d == Some((o.block.sum, o.view)));
        let sm = mo.sumcheck_masks.config;
        let rows = point_rows(end.points, sm.size(), end.points.len());
        let (xs, v4) = sm.checked(first, rows, s.view).unwrap();
        let tail = zk_tail_spec(
            s.update,
            round.cs().source.message_len(),
            mo.l_zk as nat,
            round.cs().source.mode.mask_len(),
        );
        let (ys, v5) = mo.cs_mask.config.checked(second, tail, v4).unwrap();
        lemma_sub_then_add(s.sum, ys[0]);
        assert(masked_round_shown(round, block, v, o, start, first, second, s));
    }
}

proof fn lemma_unscaled(gap: int, rlc: int)
    requires
        0 < rlc < MODULUS,
    ensures
        fmul(fmul(residue(gap), quotient(1, rlc)), rlc) == residue(gap),
{
    lemma_residue_canonical(gap);
    lemma_residue_id(1);
    law_quotient_times_divisor(1, rlc);
    lemma_fmul_assoc(residue(gap), quotient(1, rlc), rlc);
    lemma_fmul_one(residue(gap));
}

proof fn lemma_fifth_word(v: VerifierView)
    requires
        v.read_all(4) is Some,
        v.read_all(4).unwrap().1.read_field() is Some,
    ensures
        v.rest.len() >= 5,
        v.read_all(4).unwrap().1.read_field() == Some((v.rest[4] as int, after_words(v, 5))),
{
    law_words_are_read(v, 4);
    let v1 = v.read_all(4).unwrap().1;
    let (x, v2) = v1.read_field().unwrap();
    assert(v1.rest[0] == v.rest[4]);
    lemma_one_word(v1);
    lemma_join_words(v, 4, 1);
}

proof fn lemma_sub_then_add(a: int, b: int)
    requires
        canonical(a),
    ensures
        fadd(fsub(a, b), b) == a,
{
    broadcast use group_residue;

    lemma_residue_id(a);
    let t = residue(b);
    assert(fsub(a, b) == residue(a - b));
    assert(fadd(residue(a - b), residue(b)) == residue((a - b) + b));
    lemma_add_residue(residue(a - b), b);
}

proof fn lemma_add_residue(x: int, b: int)
    requires
        canonical(x),
    ensures
        fadd(x, b) == fadd(x, residue(b)),
{
    reveal(residue);
    vstd::arithmetic::div_mod::lemma_add_mod_noop_right(x, b, MODULUS as int);
}

/// Are two verifiers after some rounds alike up to the sum?
pub open spec fn walk_twins(x: Walk, y: Walk) -> bool {
    &&& block_twins(x.block, y.block)
    &&& x.points == y.points
    &&& x.starts == y.starts
    &&& x.scales == y.scales
    &&& x.constraints == y.constraints
    &&& x.view == y.view
}

/// Rounds bind the claimed sum, as each of them does.
pub proof fn lemma_rounds_bind(
    rounds: Seq<RoundConfig>,
    k: nat,
    a: CheckBlock,
    b: CheckBlock,
    v: VerifierView,
)
    requires
        k <= rounds.len(),
        forall|i: int| 0 <= i < rounds.len() ==> (#[trigger] rounds[i]).wf(),
        block_twins(a, b),
    ensures
        rounds_checked(rounds, k, a, v) is Some == rounds_checked(rounds, k, b, v) is Some,
        rounds_checked(rounds, k, a, v) matches Some(x) ==> {
            let y = rounds_checked(rounds, k, b, v).unwrap();
            &&& walk_twins(x, y)
            &&& none_zero(x.points) && x.block.sum == y.block.sum ==> a.sum == b.sum
        },
    decreases k,
{
    if k > 0 {
        let m = (k - 1) as nat;
        lemma_rounds_bind(rounds, m, a, b, v);
        if let Some(p) = rounds_checked(rounds, m, a, v) {
            let q = rounds_checked(rounds, m, b, v).unwrap();
            assert(rounds[m as int].wf());
            law_round_binds(&rounds[m as int], p.block, q.block, p.view);
            if let Some(x) = rounds_checked(rounds, k, a, v) {
                let o = rounds[m as int].round_checked(p.block, p.view).unwrap();
                assert(x.points == p.points + o.points);
                if none_zero(x.points) {
                    lemma_none_zero_parts(p.points, o.points);
                }
            }
        }
    }
}

/// No challenge of the parts is zero.
pub proof fn lemma_none_zero_parts(a: Seq<int>, b: Seq<int>)
    requires
        none_zero(a + b),
    ensures
        none_zero(a),
        none_zero(b),
{
    assert forall|i: int| 0 <= i < a.len() implies #[trigger] a[i] != 0 by {
        assert((a + b)[i] == a[i]);
    }
    assert forall|i: int| 0 <= i < b.len() implies #[trigger] b[i] != 0 by {
        assert((a + b)[a.len() + i] == b[i]);
    }
}

/// The protocol binds the batch of the claimed values. With the same messages,
/// verifiers of different claims accept alike and are left with the same forms to
/// check at the same point, batched by the first challenge; and if they are left with
/// the same contribution to check, then the claimed values, combined by the powers of
/// that challenge, are equal, unless a coordinate of the point is zero.
pub proof fn law_batch_is_bound(
    cfg: &ProtocolConfig,
    root: Digest,
    e: Seq<int>,
    f: Seq<int>,
    v: VerifierView,
)
    requires
        cfg.wf(),
        e.len() == f.len(),
    ensures
        cfg.verified(root, e, v) is Some == cfg.verified(root, f, v) is Some,
        cfg.verified(root, e, v) matches Some(x) ==> {
            let y = cfg.verified(root, f, v).unwrap();
            let powers = geometric(1, challenge(v.sponge), e.len());
            &&& x.group == y.group
            &&& x.view == y.view
            &&& x.group.batching == challenge(v.sponge)
            &&& none_zero(x.group.point) && x.contribution == y.contribution ==> dot_spec(e, powers)
                == dot_spec(f, powers)
        },
{
    broadcast use {lemma_residue_canonical, lemma_fsum_canonical};

    let c = challenge(v.sponge);
    let powers = geometric(1, c, e.len());
    let a = CheckBlock { sum: dot_spec(e, powers), roots: seq![root], theta: seq![1int] };
    let b = CheckBlock { sum: dot_spec(f, powers), roots: seq![root], theta: seq![1int] };
    let n = cfg.rounds@.len();
    let base = cfg.basecase.config;
    lemma_rounds_bind(cfg.rounds@, n, a, b, v.draw());
    if let Some(x) = rounds_checked(cfg.rounds@, n, a, v.draw()) {
        let y = rounds_checked(cfg.rounds@, n, b, v.draw()).unwrap();
        lemma_base_size(cfg);
        law_opening_binds(&base, x.block.roots[0], x.block.sum, y.block.sum, x.view);
        if let Some(o) = base.open_checked(x.block.roots[0], x.block.sum, x.view) {
            let p = base.open_checked(y.block.roots[0], y.block.sum, y.view).unwrap();
            let full = x.points + o.points;
            let terms = fsum(
                constraint_terms(x.constraints, x.scales, x.starts, full),
                x.constraints.len(),
            );
            if none_zero(full) && fsub(o.value, terms) == fsub(p.value, terms) {
                lemma_none_zero_parts(x.points, o.points);
                lemma_sub_cancel(o.value, p.value, terms);
            }
        }
    }
}

/// The base case has something to open.
pub proof fn lemma_base_size(cfg: &ProtocolConfig)
    requires
        cfg.wf(),
    ensures
        cfg.basecase.config.spec_size() > 0,
{
    let n = cfg.rounds@.len();
    if n > 0 {
        let last = cfg.rounds@[n - 1];
        assert(last.wf());
        lemma_round_variables(&last);
        crate::zook::round_laws::lemma_source_sizes(&last);
    } else {
        crate::arith::lemma_ceil_log2(cfg.tuning.vector_size as nat);
    }
}

/// Is a proof of these claims on these covectors accepted in full, and was no
/// coordinate of the point drawn as zero?
pub open spec fn fully_accepted(
    cfg: &ProtocolConfig,
    root: Digest,
    covectors: Seq<Seq<int>>,
    claims: Seq<int>,
    v: VerifierView,
) -> bool {
    cfg.verified(root, claims, v) matches Some(o) && {
        &&& fadd(0, fmul(o.group.scale, form_sum(covectors, o.group.batching, o.group.point)))
            == o.contribution
        &&& none_zero(o.group.point)
    }
}

/// Every claimed value is bound: two vectors of claimed values that differ are both
/// accepted, on one and the same transcript, for fewer first challenges than there are
/// claims. Put the other way: where both are accepted on as many transcripts as there
/// are claims, all with different first challenges, they are equal, value by value.
pub proof fn law_claims_are_bound(
    cfg: &ProtocolConfig,
    roots: Seq<Digest>,
    covectors: Seq<Seq<int>>,
    e: Seq<int>,
    f: Seq<int>,
    views: Seq<VerifierView>,
)
    requires
        cfg.wf(),
        e.len() == f.len(),
        all_canonical(e),
        all_canonical(f),
        roots.len() == views.len(),
        views.len() >= e.len(),
        forall|i: int, j: int|
            0 <= i < j < views.len() ==> challenge(#[trigger] views[i].sponge) != challenge(
                #[trigger] views[j].sponge,
            ),
        forall|i: int|
            0 <= i < views.len() ==> fully_accepted(cfg, roots[i], covectors, e, #[trigger] views[i])
                && fully_accepted(cfg, roots[i], covectors, f, views[i]),
    ensures
        e == f,
{
    broadcast use lemma_residue_canonical;

    let cs = Seq::new(views.len(), |i: int| challenge(views[i].sponge));
    assert forall|i: int| 0 <= i < cs.len() implies canonical(#[trigger] cs[i]) && dot_spec(
        e,
        geometric(1, cs[i], e.len()),
    ) == dot_spec(f, geometric(1, cs[i], f.len())) by {
        assert(fully_accepted(cfg, roots[i], covectors, e, views[i]));
        assert(fully_accepted(cfg, roots[i], covectors, f, views[i]));
        law_batch_is_bound(cfg, roots[i], e, f, views[i]);
    }
    assert forall|i: int, j: int| 0 <= i < j < cs.len() implies #[trigger] cs[i] != #[trigger] cs[j] by {
        assert(challenge(views[i].sponge) != challenge(views[j].sponge));
    }
    law_combination_tells_apart(e, f, cs);
}

} // verus!
