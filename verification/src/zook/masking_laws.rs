//! What hides the prover's vectors: every mask, fresh vector and padding is the prover's
//! private randomness, and no element of it is used twice.

use crate::basecase;
use crate::field::{fadd, fmul};
use crate::irs_commit;
use crate::irs_commit::lemma_challenges_len;
use crate::mask_proximity;
use crate::params::config::{MaskOracleConfig, RoundConfig};
use crate::sumcheck;
use crate::sumcheck::{DotProductOracle, RoundPolyOracle, RunState};
use crate::transcript::{after_challenges, challenge, challenges, ProverView};
use crate::whir_transcript_laws::law_fields_are_sent;
use crate::zook::block::BlockView;
use crate::zook::masks::MasksBegun;
use vstd::prelude::*;

verus! {

/// The element number `i` of the prover's private randomness.
pub open spec fn coin(p: ProverView, i: nat) -> int {
    challenge(after_challenges(p.coins, i))
}

/// Are these the elements of the randomness from number `from` on?
pub open spec fn are_coins(xs: Seq<int>, p: ProverView, from: nat) -> bool {
    forall|i: int| 0 <= i < xs.len() ==> #[trigger] xs[i] == coin(p, (from + i) as nat)
}

/// Is a prover left with the randomness from number `n` on?
pub open spec fn spent(p: ProverView, q: ProverView, n: nat) -> bool {
    q.coins == after_challenges(p.coins, n)
}

proof fn lemma_after_after(st: Seq<u8>, a: nat, b: nat)
    ensures
        after_challenges(after_challenges(st, a), b) == after_challenges(st, a + b),
    decreases b,
{
    if b > 0 {
        lemma_after_after(st, a, (b - 1) as nat);
        assert(a + b - 1 == a + (b - 1));
    }
}

proof fn lemma_challenge_at(st: Seq<u8>, n: nat, i: int)
    requires
        0 <= i < n,
    ensures
        challenges(st, n)[i] == challenge(after_challenges(st, i as nat)),
    decreases n,
{
    lemma_challenges_len(st, (n - 1) as nat);
    if i < n - 1 {
        lemma_challenge_at(st, (n - 1) as nat, i);
    }
}

proof fn lemma_are_coins(p: ProverView, from: nat, n: nat)
    ensures
        are_coins(challenges(after_challenges(p.coins, from), n), p, from),
        challenges(after_challenges(p.coins, from), n).len() == n,
{
    let st = after_challenges(p.coins, from);
    let xs = challenges(st, n);
    lemma_challenges_len(st, n);
    assert forall|i: int| 0 <= i < xs.len() implies #[trigger] xs[i] == coin(p, (from + i) as nat) by {
        lemma_challenge_at(st, n, i);
        lemma_after_after(p.coins, from, i as nat);
    }
}

/// A commitment masks every column by randomness of its own.
pub proof fn law_commitment_masks(cfg: &irs_commit::Config, vectors: Seq<Seq<int>>, p: ProverView)
    ensures
        cfg.masks_of(p).len() == cfg.mode.mask_len() * cfg.cols(),
        are_coins(cfg.masks_of(p), p, 0),
        spent(p, cfg.committed(vectors, p), cfg.mode.mask_len() * cfg.cols()),
{
    let n = cfg.num_mask_coefficients();
    assert(after_challenges(p.coins, 0) == p.coins);
    lemma_are_coins(p, 0, n);
    let root = crate::matrix_commit::root_of(
        cfg.matrix_config().leaves(cfg.encoded(vectors, cfg.masks_of(p))),
    );
    lemma_send_keeps_coins(p.toss(n), root.words());
}

proof fn lemma_send_keeps_coins(p: ProverView, ws: Seq<u64>)
    ensures
        p.send_all(ws).coins == p.coins,
    decreases ws.len(),
{
    if ws.len() > 0 {
        lemma_send_keeps_coins(p, ws.drop_last());
    }
}

/// A commitment to masks draws a fresh vector beside every mask, and then the code's own
/// masks.
pub proof fn law_mask_tree_coins(cfg: &mask_proximity::Config, masks: Seq<int>, p: ProverView)
    ensures
        ({
            let n = (cfg.num_masks * cfg.size()) as nat;
            let m = cfg.c_zk_commit.num_mask_coefficients();
            &&& cfg.fresh_of(p).len() == n
            &&& are_coins(cfg.fresh_of(p), p, 0)
            &&& cfg.irs_masks_of(p).len() == m
            &&& are_coins(cfg.irs_masks_of(p), p, n)
            &&& spent(p, cfg.committed(masks, p), n + m)
        }),
{
    let n = cfg.flat_len();
    let m = cfg.c_zk_commit.num_mask_coefficients();
    assert(after_challenges(p.coins, 0) == p.coins);
    lemma_are_coins(p, 0, n);
    lemma_are_coins(p, n, m);
    law_commitment_masks(&cfg.c_zk_commit, cfg.vectors(masks, cfg.fresh_of(p)), p.toss(n));
    lemma_after_after(p.coins, n, m);
}

/// A zero-knowledge round draws the coefficients of the sumcheck's masks, what commits to
/// them, and the fresh part of the code-switch's mask, one after the other.
pub proof fn law_round_coins(round: &RoundConfig, mo: MaskOracleConfig, p: ProverView)
    ensures
        ({
            let b = round.masks_begun(mo, p);
            let c = (round.sc().num_rounds * round.sc().mask_len()) as nat;
            let sm = mo.sumcheck_masks.config;
            let n = sm.flat_len();
            let m = sm.c_zk_commit.num_mask_coefficients();
            let rest = (mo.l_zk - round.cs().source.mode.mask_len()) as nat;
            &&& b.coefs.len() == c
            &&& are_coins(b.coefs, p, 0)
            &&& b.fresh.len() == n
            &&& are_coins(b.fresh, p, c)
            &&& b.irs_masks.len() == m
            &&& are_coins(b.irs_masks, p, c + n)
            &&& b.padding.len() == rest
            &&& are_coins(b.padding, p, c + n + m)
            &&& spent(p, b.view, c + n + m + rest)
        }),
{
    let b = round.masks_begun(mo, p);
    let c = round.num_coefs();
    let sm = mo.sumcheck_masks.config;
    let n = sm.flat_len();
    let m = sm.c_zk_commit.num_mask_coefficients();
    let rest = round.padding_len(mo);
    let p1 = p.toss(c);
    assert(after_challenges(p.coins, 0) == p.coins);
    lemma_are_coins(p, 0, c);
    law_mask_tree_coins(&sm, b.padded, p1);
    lemma_shift(b.fresh, p, p1, c, 0);
    lemma_shift(b.irs_masks, p, p1, c, n);
    lemma_after_after(p.coins, c, n + m);
    assert(c + (n + m) == c + n + m);
    lemma_are_coins(p, c + n + m, rest);
    lemma_after_after(p.coins, c + n + m, rest);
}

proof fn lemma_shift(xs: Seq<int>, p: ProverView, q: ProverView, c: nat, from: nat)
    requires
        spent(p, q, c),
        are_coins(xs, q, from),
    ensures
        are_coins(xs, p, c + from),
{
    assert forall|i: int| 0 <= i < xs.len() implies #[trigger] xs[i] == coin(
        p,
        (c + from + i) as nat,
    ) by {
        lemma_after_after(p.coins, c, (from + i) as nat);
        assert(c + (from + i) == c + from + i);
    }
}

/// In zero-knowledge mode the base case does not send the vector and its masks but their
/// multiples by a challenge, each hidden by an element of the randomness.
pub proof fn law_blinding_hides(
    cfg: &basecase::Config,
    vector: Seq<int>,
    masks: Seq<int>,
    matrix: Seq<int>,
    covector: Seq<int>,
    sum: int,
    p: ProverView,
)
    requires
        cfg.mode is ZeroKnowledge,
        masks.len() == cfg.commit.num_mask_coefficients(),
    ensures
        cfg.blinded(vector, masks, matrix, covector, sum, p) matches Some(b) ==> {
            let n = vector.len();
            &&& b.vector.len() == n
            &&& b.masks.len() == masks.len()
            &&& spent(p, b.view, n + masks.len())
            &&& exists|gamma: int| #[trigger]
                hidden_by(b.vector, vector, p, 0, gamma) && hidden_by(
                    b.masks,
                    masks,
                    p,
                    n,
                    gamma,
                ) && gamma != 0
        },
{
    let n = vector.len();
    let m = cfg.commit.num_mask_coefficients();
    if let Some(b) = cfg.blinded(vector, masks, matrix, covector, sum, p) {
        let blinding = challenges(p.coins, n);
        let p1 = p.toss(n);
        let blinding_masks = cfg.commit.masks_of(p1);
        assert(after_challenges(p.coins, 0) == p.coins);
        lemma_are_coins(p, 0, n);
        lemma_are_coins(p, n, m);
        law_commitment_masks(&cfg.commit, seq![blinding], p1);
        lemma_after_after(p.coins, n, m);
        let committed = cfg.commit.committed(seq![blinding], p1);
        let worked = cfg.pow.proved(
            committed.send_field(crate::algebra::dot_spec(blinding, covector)),
        );
        let gamma = challenge(worked.sponge);
        law_fields_are_sent(worked.draw(), b.vector);
        law_fields_are_sent(worked.draw().send_fields(b.vector), b.masks);
        assert forall|i: int| 0 <= i < n implies #[trigger] b.vector[i] == fadd(
            coin(p, i as nat),
            fmul(gamma, vector[i]),
        ) by {
            assert(blinding[i] == coin(p, (0 + i) as nat));
        }
        assert forall|i: int| 0 <= i < m implies #[trigger] b.masks[i] == fadd(
            coin(p, (n + i) as nat),
            fmul(gamma, masks[i]),
        ) by {
            assert(blinding_masks[i] == coin(p, (n + i) as nat));
        }
        assert(hidden_by(b.vector, vector, p, 0, gamma));
        assert(hidden_by(b.masks, masks, p, n, gamma));
    }
}

/// Is every entry the multiple of another one, hidden by an element of the randomness
/// from number `from` on?
pub open spec fn hidden_by(
    sent: Seq<int>,
    xs: Seq<int>,
    p: ProverView,
    from: nat,
    gamma: int,
) -> bool {
    &&& sent.len() == xs.len()
    &&& forall|i: int|
        0 <= i < sent.len() ==> #[trigger] sent[i] == fadd(
            coin(p, (from + i) as nat),
            fmul(gamma, xs[i]),
        )
}

proof fn lemma_step_keeps_coins<O: RoundPolyOracle>(
    cfg: &sumcheck::Config,
    start: RunState,
    mask_rlc: int,
    masks: Seq<int>,
    k: nat,
)
    ensures
        cfg.run::<O>(start, mask_rlc, masks, k).view.coins == start.view.coins,
    decreases k,
{
    if k > 0 {
        let m = (k - 1) as nat;
        lemma_step_keeps_coins::<O>(cfg, start, mask_rlc, masks, m);
        let st = cfg.run::<O>(start, mask_rlc, masks, m);
        let sent = cfg.sent_poly::<O>(st, mask_rlc, masks, m);
        law_fields_are_sent(st.view.send_field(sent[0]), sent.skip(2));
    }
}

proof fn lemma_proof_keeps_coins<O: RoundPolyOracle>(
    cfg: &sumcheck::Config,
    tables: Seq<Seq<int>>,
    sum: int,
    masks: Seq<int>,
    p: ProverView,
)
    ensures
        cfg.proved::<O>(tables, sum, masks, p).0.view.coins == p.coins,
{
    let (start, factor) = cfg.begin(tables, sum, masks, p);
    assert(start.view.coins == p.coins);
    lemma_step_keeps_coins::<O>(cfg, start, factor, masks, cfg.num_rounds as nat);
}

proof fn lemma_fold_keeps_coins(round: &RoundConfig, block: BlockView, coefs: Seq<int>, p: ProverView)
    ensures
        round.folded_block(block, coefs, p).0.view.coins == p.coins,
{
    reveal(RoundConfig::folded_block);
    lemma_proof_keeps_coins::<DotProductOracle>(
        &round.sc(),
        seq![block.message, block.covector],
        block.sum,
        coefs,
        p,
    );
}

proof fn lemma_same_coins(xs: Seq<int>, p: ProverView, q: ProverView, from: nat)
    requires
        p.coins == q.coins,
        are_coins(xs, p, from),
    ensures
        are_coins(xs, q, from),
{
    assert forall|i: int| 0 <= i < xs.len() implies #[trigger] xs[i] == coin(q, (from + i) as nat) by {
        assert(xs[i] == coin(p, (from + i) as nat));
    }
}

/// The mask of a round's code-switch ends with the fresh part that was drawn for it, and
/// what commits to it is drawn after everything else.
#[verifier::spinoff_prover]
#[verifier::rlimit(40)]
pub proof fn law_switch_mask_coins(
    round: &RoundConfig,
    mo: MaskOracleConfig,
    b: MasksBegun,
    block: BlockView,
)
    ensures
        round.mask_bound(mo, b, block) matches Some(m) ==> {
            let cm = mo.cs_mask.config;
            let n = cm.flat_len();
            let rest = cm.c_zk_commit.num_mask_coefficients();
            &&& m.poly.len() >= b.padding.len()
            &&& m.poly.skip(m.poly.len() - b.padding.len()) == b.padding
            &&& m.fresh.len() == n
            &&& are_coins(m.fresh, b.view, 0)
            &&& m.irs_masks.len() == rest
            &&& are_coins(m.irs_masks, b.view, n)
            &&& spent(b.view, m.view, n + rest)
        },
{
    if let Some(m) = round.mask_bound(mo, b, block) {
        let cm = mo.cs_mask.config;
        let view = round.folded_block(block, b.coefs, b.view).0.view;
        lemma_fold_keeps_coins(round, block, b.coefs, b.view);
        law_mask_tree_coins(&cm, m.poly, view);
        lemma_same_coins(m.fresh, view, b.view, 0);
        lemma_same_coins(m.irs_masks, view, b.view, cm.flat_len());
        assert(m.poly.skip(m.poly.len() - b.padding.len()) =~= b.padding);
    }
}

} // verus!
