//! One round of the protocol: a sumcheck, then a code-switch.
//!
//! In zero-knowledge mode the round polynomials are masked. The sum of the masks'
//! values is sent and taken out of the running sum before the code-switch, and both
//! mask commitments are opened after it.

use crate::algebra::{dot, dot_spec, eq_table, zeros_spec};
use crate::chunks::{chunks_combined, fold_chunks};
use crate::code_switch;
use crate::code_switch::{concat, sub_vec, update_wf, CovectorUpdateParams, Update};
use crate::field::{
    fmul, fsub, lemma_fmul_comm, lemma_quotient, lemma_view_canonical, quotient, vals, wipe,
    Field64,
};
use crate::irs_commit;
use crate::irs_commit::{lemma_challenges_len, matrices_of};
use crate::mask_proximity;
use crate::matrix_commit::Digest;
use crate::params::config::{MaskOracleConfig, RoundConfig, RoundMode};
use crate::sumcheck;
use crate::sumcheck::{DotProductOracle, SumcheckOpening};
use crate::sumcheck_laws::{lemma_final_tables, masked_sum};
use crate::sums::total;
use crate::transcript::{ProverState, ProverView, VerificationError, VerifierState, VerifierView};
use crate::zook::block::{
    masks_of, single_block, theta_combine, theta_combined, BlockView, CheckBlock, ProverBlock,
    VerifierBlock,
};
use crate::zook::masks::{
    mask_eval_sum, point_covectors, point_rows, zk_tail, zk_tail_spec, MasksBegun, SumcheckMaskTree,
};
use crate::zook::slot_weights;
use crate::zook::slot_weights::slot_table;
use vstd::arithmetic::power2::pow2;
use vstd::prelude::*;

verus! {

/// What a round leaves the prover with.
pub struct RoundProved {
    pub block: BlockView,
    pub points: Seq<int>,
    pub update: Update,
    pub view: ProverView,
}

/// What a round leaves the verifier with.
pub struct RoundChecked {
    pub block: CheckBlock,
    pub points: Seq<int>,
    pub update: Update,
    pub view: VerifierView,
}

/// A zero-knowledge round between the sumcheck and the code-switch.
pub struct MaskBound {
    pub message: Seq<int>,
    pub covector: Seq<int>,
    pub sum: int,
    pub points: Seq<int>,
    pub poly: Seq<int>,
    pub fresh: Seq<int>,
    pub irs_masks: Seq<int>,
    pub matrix: Seq<int>,
    pub view: ProverView,
}

impl RoundConfig {
    /// The prover after the sumcheck, and the factor of the claimed sum.
    #[verifier::opaque]
    pub open spec fn folded_block(&self, block: BlockView, coefs: Seq<int>, p: ProverView) -> (
        sumcheck::RunState,
        int,
    ) {
        self.sc().proved::<DotProductOracle>(
            seq![block.message, block.covector],
            block.sum,
            coefs,
            p,
        )
    }

    /// The prover after the code-switch.
    #[verifier::opaque]
    pub open spec fn switched_block(
        &self,
        message: Seq<int>,
        mask: Seq<int>,
        block: BlockView,
        points: Seq<int>,
        sum: int,
        p: ProverView,
    ) -> code_switch::Switched {
        self.cs().switched(
            message,
            mask,
            block.matrices,
            slot_table(block.theta, eq_table(points)),
            sum,
            p,
        )
    }

    /// The polynomial of the code-switch's mask: the source's randomness, combined and
    /// folded as the message is, then fresh randomness.
    pub open spec fn cs_mask_poly(&self, block: BlockView, points: Seq<int>, padding: Seq<int>) -> Seq<int> {
        chunks_combined(
            theta_combined(
                block.theta,
                block.masks,
                self.cs().source.num_mask_coefficients(),
            ),
            self.cs().source.mode.mask_len(),
            eq_table(points),
        ) + padding
    }

    /// The prover before the code-switch of a zero-knowledge round; `None` if the
    /// masks' factor is zero.
    pub open spec fn mask_bound(
        &self,
        mo: MaskOracleConfig,
        b: MasksBegun,
        block: BlockView,
    ) -> Option<MaskBound> {
        let (end, rlc) = self.folded_block(block, b.coefs, b.view);
        let cm = mo.cs_mask.config;
        let poly = self.cs_mask_poly(block, end.points, b.padding);
        let delta = mask_eval_sum(b.padded, mo.sumcheck_masks.config.size(), end.points);
        if rlc == 0 {
            None
        } else {
            Some(
                MaskBound {
                    message: end.tables[0],
                    covector: end.tables[1],
                    sum: fmul(fsub(masked_sum(end, rlc), delta), quotient(1, rlc)),
                    points: end.points,
                    poly,
                    fresh: cm.fresh_of(end.view),
                    irs_masks: cm.irs_masks_of(end.view),
                    matrix: cm.matrix_of(poly, end.view),
                    view: cm.committed(poly, end.view).send_field(delta),
                },
            )
        }
    }

    /// What the code-switch commits to.
    pub open spec fn next_block(
        &self,
        message: Seq<int>,
        covector: Seq<int>,
        sum: int,
        before: ProverView,
    ) -> BlockView {
        let masks = self.cs().target.masks_of(before);
        single_block(
            message,
            covector,
            sum,
            self.cs().target.encoded(seq![message], masks),
            masks,
        )
    }

    /// A zero-knowledge round from the code-switch on.
    pub open spec fn masked_switch(
        &self,
        mo: MaskOracleConfig,
        b: MasksBegun,
        m: MaskBound,
        block: BlockView,
    ) -> RoundProved {
        let sm = mo.sumcheck_masks.config;
        let n = m.message.len();
        let s = self.switched_block(m.message, m.poly, block, m.points, m.sum, m.view);
        let covector = self.cs().updated_covector(
            m.covector + zeros_spec(mo.l_zk as nat),
            s.update,
        );
        let region = covector.skip(n as int);
        let v1 = sm.proved(
            b.padded,
            b.fresh,
            b.irs_masks,
            b.matrix,
            point_rows(m.points, sm.size(), m.points.len()),
            s.view,
        );
        RoundProved {
            block: self.next_block(
                m.message,
                covector.take(n as int),
                fsub(s.sum, dot_spec(m.poly, region)),
                m.view,
            ),
            points: m.points,
            update: s.update,
            view: mo.cs_mask.config.proved(
                m.poly,
                m.fresh,
                m.irs_masks,
                m.matrix,
                region,
                v1,
            ),
        }
    }

    /// A standard round.
    pub open spec fn plain_round(&self, block: BlockView, p: ProverView) -> RoundProved {
        let (end, rlc) = self.folded_block(block, Seq::empty(), p);
        let s = self.switched_block(
            end.tables[0],
            Seq::empty(),
            block,
            end.points,
            masked_sum(end, rlc),
            end.view,
        );
        RoundProved {
            block: self.next_block(
                end.tables[0],
                self.cs().updated_covector(end.tables[1], s.update),
                s.sum,
                end.view,
            ),
            points: end.points,
            update: s.update,
            view: s.view,
        }
    }

    /// The prover after a round; `None` if the masks' factor is zero.
    #[verifier::opaque]
    pub open spec fn round_proved(&self, block: BlockView, p: ProverView) -> Option<RoundProved> {
        match self.mode {
            RoundMode::Standard => Some(self.plain_round(block, p)),
            RoundMode::ZeroKnowledge { t_ood, mask_oracle } => {
                let b = self.masks_begun(mask_oracle, p);
                match self.mask_bound(mask_oracle, b, block) {
                    None => None,
                    Some(m) => Some(self.masked_switch(mask_oracle, b, m, block)),
                }
            },
        }
    }

    /// The verifier after the mask commitments were opened; `None` if it rejects.
    pub open spec fn discharged(
        &self,
        mo: MaskOracleConfig,
        sc_root: Digest,
        cs_root: Digest,
        delta: int,
        points: Seq<int>,
        s: code_switch::SwitchChecked,
    ) -> Option<(int, VerifierView)> {
        let sm = mo.sumcheck_masks.config;
        match sm.checked(sc_root, point_rows(points, sm.size(), points.len()), s.view) {
            None => None,
            Some((xs, v1)) => if total(xs) != delta {
                None
            } else {
                match mo.cs_mask.config.checked(
                    cs_root,
                    zk_tail_spec(
                        s.update,
                        self.cs().source.message_len(),
                        mo.l_zk as nat,
                        self.cs().source.mode.mask_len(),
                    ),
                    v1,
                ) {
                    None => None,
                    Some((ys, v2)) => Some((fsub(s.sum, ys[0]), v2)),
                }
            },
        }
    }

    /// The verifier after a zero-knowledge round; `None` if it rejects.
    pub open spec fn masked_round_checked(
        &self,
        mo: MaskOracleConfig,
        block: CheckBlock,
        v: VerifierView,
    ) -> Option<RoundChecked> {
        match v.read_all(4) {
            None => None,
            Some((ws, v1)) => match self.sc().checked(block.sum, v1) {
                None => None,
                Some((end, rlc)) => match end.view.read_all(4) {
                    None => None,
                    Some((us, v2)) => match v2.read_field() {
                        None => None,
                        Some((delta, v3)) => if rlc == 0 {
                            None
                        } else {
                            let sum = fmul(fsub(end.sum, delta), quotient(1, rlc));
                            match self.cs().switch_checked(
                                block.roots,
                                slot_table(block.theta, eq_table(end.points)),
                                sum,
                                v3,
                            ) {
                                None => None,
                                Some(s) => match self.discharged(
                                    mo,
                                    Digest { a: ws[0], b: ws[1], c: ws[2], d: ws[3] },
                                    Digest { a: us[0], b: us[1], c: us[2], d: us[3] },
                                    delta,
                                    end.points,
                                    s,
                                ) {
                                    None => None,
                                    Some((sum, view)) => Some(
                                        RoundChecked {
                                            block: CheckBlock {
                                                sum,
                                                roots: seq![s.root],
                                                theta: seq![1int],
                                            },
                                            points: end.points,
                                            update: s.update,
                                            view,
                                        },
                                    ),
                                },
                            }
                        },
                    },
                },
            },
        }
    }

    /// The verifier after a standard round; `None` if it rejects.
    pub open spec fn plain_round_checked(&self, block: CheckBlock, v: VerifierView) -> Option<
        RoundChecked,
    > {
        match self.sc().checked(block.sum, v) {
            None => None,
            Some((end, rlc)) => match self.cs().switch_checked(
                block.roots,
                slot_table(block.theta, eq_table(end.points)),
                end.sum,
                end.view,
            ) {
                None => None,
                Some(s) => Some(
                    RoundChecked {
                        block: CheckBlock { sum: s.sum, roots: seq![s.root], theta: seq![1int] },
                        points: end.points,
                        update: s.update,
                        view: s.view,
                    },
                ),
            },
        }
    }

    /// The verifier after a round; `None` if it rejects.
    #[verifier::opaque]
    pub open spec fn round_checked(&self, block: CheckBlock, v: VerifierView) -> Option<RoundChecked> {
        match self.mode {
            RoundMode::Standard => self.plain_round_checked(block, v),
            RoundMode::ZeroKnowledge { t_ood, mask_oracle } => self.masked_round_checked(
                mask_oracle,
                block,
                v,
            ),
        }
    }
}

/// The verifier's output of one round, besides the next block.
#[derive(Debug)]
pub struct VerifyRoundOutput {
    pub round_challenges: Vec<Field64>,
    pub update_params: CovectorUpdateParams,
}

impl RoundConfig {
    proof fn lemma_sizes(&self)
        requires
            self.wf(),
        ensures
            self.cs().source.cols() == pow2(self.sc().num_rounds as nat),
            self.cs().source.num_mask_coefficients() == self.cs().source.mode.mask_len() * pow2(
                self.sc().num_rounds as nat,
            ),
    {
        let d = self.cs().source.interleaving_depth as int;
        assert(d * 1 == d) by (nonlinear_arith);
    }
}

/// Draw the masks of a zero-knowledge round and commit to those of the sumcheck.
fn begin_masks(round: &RoundConfig, mo: &MaskOracleConfig, ps: &mut ProverState) -> (r: (
    SumcheckMaskTree,
    Vec<Field64>,
))
    requires
        round.wf(),
        round.mode matches RoundMode::ZeroKnowledge { t_ood, mask_oracle } && mask_oracle == *mo,
    ensures
        ({
            let b = round.masks_begun(*mo, old(ps)@);
            &&& r.0.cfg == mo.sumcheck_masks.config
            &&& vals(r.0.flat_coefficients@) == b.coefs
            &&& r.0.flat_coefficients@.len() == round.num_coefs()
            &&& vals(r.0.padded_masks@) == b.padded
            &&& r.0.padded_masks@.len() == r.0.cfg.flat_len()
            &&& r.0.tree_witness.wf(&r.0.cfg)
            &&& vals(r.0.tree_witness.fresh@) == b.fresh
            &&& vals(r.0.tree_witness.irs.masks@) == b.irs_masks
            &&& vals(r.0.tree_witness.irs.matrix@) == b.matrix
            &&& vals(r.1@) == b.padding
            &&& r.1@.len() == round.padding_len(*mo)
            &&& final(ps)@ == b.view
        }),
{
    let mask_len: usize = round.sumcheck.config.mask_length();
    let tree: SumcheckMaskTree = SumcheckMaskTree::sample_and_commit(
        mo.sumcheck_masks.config,
        round.sumcheck.config.num_rounds,
        mask_len,
        ps,
    );
    let padding_len: usize = mo.l_zk - round.code_switch.config.source.mask_length();
    proof {
        lemma_challenges_len(ps@.coins, padding_len as nat);
    }
    let padding: Vec<Field64> = ps.random_vector(padding_len);
    assert(padding@.len() == vals(padding@).len());
    (tree, padding)
}

/// Commit to the code-switch's mask, send the sum of the masks' values, and take it
/// out of the running sum. `None` if the masks' factor is zero.
fn bind_code_switch_mask(
    round: &RoundConfig,
    mo: &MaskOracleConfig,
    tree: &mut SumcheckMaskTree,
    padding: Vec<Field64>,
    witnesses: &[irs_commit::Witness],
    theta: &[Field64],
    opening: &SumcheckOpening,
    sum: &mut Field64,
    ps: &mut ProverState,
) -> (r: Option<(Vec<Field64>, mask_proximity::Witness)>)
    requires
        round.wf(),
        round.mode matches RoundMode::ZeroKnowledge { t_ood, mask_oracle } && mask_oracle == *mo,
        old(tree).cfg == mo.sumcheck_masks.config,
        old(tree).padded_masks@.len() == old(tree).cfg.flat_len(),
        padding@.len() == round.padding_len(*mo),
        witnesses@.len() == theta@.len(),
        forall|b: int|
            0 <= b < witnesses@.len() ==> (#[trigger] witnesses@[b]).wf(&round.cs().source),
        opening.round_challenges@.len() == round.sc().num_rounds,
    ensures
        final(tree).cfg == old(tree).cfg,
        final(tree).padded_masks == old(tree).padded_masks,
        final(tree).tree_witness == old(tree).tree_witness,
        r is None <==> opening.mask_rlc@ == 0,
        r matches Some((poly, witness)) ==> ({
            let cm = mo.cs_mask.config;
            let points = vals(opening.round_challenges@);
            let delta = mask_eval_sum(vals(old(tree).padded_masks@), old(tree).cfg.size(), points);
            let want = chunks_combined(
                theta_combined(
                    vals(theta@),
                    masks_of(witnesses@),
                    round.cs().source.num_mask_coefficients(),
                ),
                round.cs().source.mode.mask_len(),
                eq_table(points),
            ) + vals(padding@);
            &&& vals(poly@) == want
            &&& poly@.len() == mo.l_zk
            &&& witness.wf(&cm)
            &&& vals(witness.fresh@) == cm.fresh_of(old(ps)@)
            &&& vals(witness.irs.masks@) == cm.irs_masks_of(old(ps)@)
            &&& vals(witness.irs.matrix@) == cm.matrix_of(want, old(ps)@)
            &&& final(ps)@ == cm.committed(want, old(ps)@).send_field(delta)
            &&& final(sum)@ == fmul(
                fsub(old(sum)@, delta),
                quotient(1, opening.mask_rlc@),
            )
        }),
{
    // The blinding coefficients are not needed any more.
    wipe(&mut tree.flat_coefficients);
    let source: &irs_commit::Config = &round.code_switch.config.source;
    proof {
        round.lemma_sizes();
    }
    let count: usize = source.mask_length() * source.num_messages();
    let combined: Vec<Field64> = theta_combine(theta, witnesses, count);
    let folded: Vec<Field64> = fold_chunks(
        combined.as_slice(),
        source.mask_length(),
        opening.round_challenges.as_slice(),
    );
    let poly: Vec<Field64> = concat(folded.as_slice(), padding.as_slice());
    let cm: mask_proximity::Config = mo.cs_mask.config;
    proof {
        assert(poly@.len() == mo.l_zk);
        assert(1 * cm.size() == cm.size()) by (nonlinear_arith);
    }
    let witness: mask_proximity::Witness = cm.commit(ps, poly.as_slice());
    let delta: Field64 = tree.eval_sum(opening.round_challenges.as_slice());
    ps.prover_message(delta);
    match opening.mask_rlc.inverse() {
        None => None,
        Some(inv) => {
            proof {
                lemma_view_canonical(opening.mask_rlc);
                lemma_view_canonical(inv);
                lemma_fmul_comm(opening.mask_rlc@, inv@);
                lemma_quotient(1, opening.mask_rlc@, inv@);
            }
            *sum = sum.sub(delta).mul(inv);
            Some((poly, witness))
        },
    }
}

/// Prove one round. `None`, with negligible probability, if the masks' factor is
/// zero.
pub fn prove_whir_round(round: &RoundConfig, block: ProverBlock, ps: &mut ProverState) -> (r: Option<
    ProverBlock,
>)
    requires
        round.wf(),
        block.wf(&round.cs().source),
    ensures
        match round.round_proved(block@, old(ps)@) {
            None => r is None,
            Some(o) => r is Some && r.unwrap()@ == o.block && final(ps)@ == o.view
                && r.unwrap().wf(&round.cs().target) && r.unwrap().witnesses@.len() == 1,
        },
{
    reveal(RoundConfig::round_proved);
    match round.mode {
        RoundMode::Standard => Some(prove_plain_round(round, block, ps)),
        RoundMode::ZeroKnowledge { t_ood, mask_oracle } => prove_masked_round(
            round,
            &mask_oracle,
            block,
            ps,
        ),
    }
}

/// Run a round's sumcheck.
fn fold_claim(
    round: &RoundConfig,
    message: Vec<Field64>,
    covector: Vec<Field64>,
    sum: &mut Field64,
    masks: &[Field64],
    ps: &mut ProverState,
    Ghost(block): Ghost<BlockView>,
) -> (r: (Vec<Field64>, Vec<Field64>, SumcheckOpening))
    requires
        round.wf(),
        message@.len() == round.cs().source.vector_size,
        covector@.len() == round.cs().source.vector_size,
        masks@.len() == round.num_coefs(),
        block.message == vals(message@),
        block.covector == vals(covector@),
        block.sum == old(sum)@,
    ensures
        ({
            let (end, rlc) = round.folded_block(block, vals(masks@), old(ps)@);
            &&& end.tables[0] == vals(r.0@)
            &&& end.tables[1] == vals(r.1@)
            &&& end.points == vals(r.2.round_challenges@)
            &&& rlc == r.2.mask_rlc@
            &&& final(sum)@ == masked_sum(end, rlc)
            &&& final(ps)@ == end.view
        }),
        r.0@.len() == round.cs().source.message_len(),
        r.1@.len() == round.cs().source.message_len(),
        r.2.round_challenges@.len() == round.sc().num_rounds,
{
    proof {
        reveal(RoundConfig::folded_block);
        lemma_final_tables(
            &round.sc(),
            vals(message@),
            vals(covector@),
            sum@,
            vals(masks@),
            ps@,
        );
    }
    let r: (Vec<Field64>, Vec<Field64>, SumcheckOpening) = round.sumcheck.config.prove_lifted(
        ps,
        message,
        covector,
        sum,
        masks,
    );
    proof {
        let tables = seq![vals(r.0@), vals(r.1@)];
        assert(tables[0].len() == r.0@.len());
        assert(tables[1].len() == r.1@.len());
    }
    r
}

/// Run a round's code-switch.
fn switch_claim(
    round: &RoundConfig,
    message: Vec<Field64>,
    covector: &mut Vec<Field64>,
    sum: &mut Field64,
    witnesses: Vec<irs_commit::Witness>,
    theta: &[Field64],
    points: &[Field64],
    mask: &[Field64],
    ps: &mut ProverState,
    Ghost(block): Ghost<BlockView>,
) -> (r: code_switch::Witness)
    requires
        round.wf(),
        message@.len() == round.cs().source.message_len(),
        old(covector)@.len() == round.cs().covector_len(),
        mask@.len() == round.cs().mask_len(),
        witnesses@.len() == theta@.len(),
        forall|b: int|
            0 <= b < witnesses@.len() ==> (#[trigger] witnesses@[b]).wf(&round.cs().source),
        points@.len() == round.sc().num_rounds,
        block.matrices == matrices_of(witnesses@),
        block.theta == vals(theta@),
    ensures
        ({
            let s = round.switched_block(
                vals(message@),
                vals(mask@),
                block,
                vals(points@),
                old(sum)@,
                old(ps)@,
            );
            let masks = round.cs().target.masks_of(old(ps)@);
            &&& final(ps)@ == s.view
            &&& final(sum)@ == s.sum
            &&& vals(final(covector)@) == round.cs().updated_covector(
                vals(old(covector)@),
                s.update,
            )
            &&& vals(r.target_witness.masks@) == masks
            &&& vals(r.target_witness.matrix@) == round.cs().target.encoded(
                seq![vals(message@)],
                masks,
            )
        }),
        final(covector)@.len() == old(covector)@.len(),
        r.message@ == message@,
        r.target_witness.wf(&round.cs().target),
{
    proof {
        round.lemma_sizes();
        reveal(RoundConfig::switched_block);
    }
    let weights: Vec<Field64> = slot_weights::build(theta, points);
    let (cs_witness, params): (code_switch::Witness, CovectorUpdateParams) =
        round.code_switch.config.prove_virtual(
        ps,
        message,
        witnesses.as_slice(),
        weights.as_slice(),
        covector,
        sum,
        mask,
    );
    cs_witness
}

/// Prove a standard round.
fn prove_plain_round(round: &RoundConfig, block: ProverBlock, ps: &mut ProverState) -> (r: ProverBlock)
    requires
        round.wf(),
        round.mode is Standard,
        block.wf(&round.cs().source),
    ensures
        ({
            let o = round.plain_round(block@, old(ps)@);
            &&& r@ == o.block
            &&& final(ps)@ == o.view
        }),
        r.wf(&round.cs().target),
        r.witnesses@.len() == 1,
{
    let ghost b0 = block@;
    let ProverBlock { message, covector, sum: start_sum, witnesses, theta } = block;
    let mut sum: Field64 = start_sum;
    let no_masks: Vec<Field64> = Vec::new();
    proof {
        assert(vals(no_masks@) =~= Seq::<int>::empty());
        assert(round.sc().num_rounds * 0 == 0) by (nonlinear_arith);
    }
    let (folded, folded_covector, opening): (Vec<Field64>, Vec<Field64>, SumcheckOpening) =
        fold_claim(round, message, covector, &mut sum, no_masks.as_slice(), ps, Ghost(b0));
    let mut new_covector: Vec<Field64> = folded_covector;
    let cs_witness: code_switch::Witness = switch_claim(
        round,
        folded,
        &mut new_covector,
        &mut sum,
        witnesses,
        theta.as_slice(),
        opening.round_challenges.as_slice(),
        no_masks.as_slice(),
        ps,
        Ghost(b0),
    );
    ProverBlock::single_source(cs_witness.message, new_covector, sum, cs_witness.target_witness)
}

/// Prove a zero-knowledge round.
fn prove_masked_round(
    round: &RoundConfig,
    mo: &MaskOracleConfig,
    block: ProverBlock,
    ps: &mut ProverState,
) -> (r: Option<ProverBlock>)
    requires
        round.wf(),
        round.mode matches RoundMode::ZeroKnowledge { t_ood, mask_oracle } && mask_oracle == *mo,
        block.wf(&round.cs().source),
    ensures
        ({
            let b = round.masks_begun(*mo, old(ps)@);
            match round.mask_bound(*mo, b, block@) {
                None => r is None,
                Some(m) => {
                    let o = round.masked_switch(*mo, b, m, block@);
                    &&& r is Some
                    &&& r.unwrap()@ == o.block
                    &&& final(ps)@ == o.view
                    &&& r.unwrap().wf(&round.cs().target)
                    &&& r.unwrap().witnesses@.len() == 1
                },
            }
        }),
{
    let ghost b0 = block@;
    let ghost b = round.masks_begun(*mo, ps@);
    let (tree0, padding): (SumcheckMaskTree, Vec<Field64>) = begin_masks(round, mo, ps);
    let mut tree: SumcheckMaskTree = tree0;
    let ProverBlock { message, covector, sum: start_sum, witnesses, theta } = block;
    let mut sum: Field64 = start_sum;
    let (folded, folded_covector, opening): (Vec<Field64>, Vec<Field64>, SumcheckOpening) =
        fold_claim(
        round,
        message,
        covector,
        &mut sum,
        tree.flat_coefficients.as_slice(),
        ps,
        Ghost(b0),
    );
    let (poly, cs_tree): (Vec<Field64>, mask_proximity::Witness) = match bind_code_switch_mask(
        round,
        mo,
        &mut tree,
        padding,
        witnesses.as_slice(),
        theta.as_slice(),
        &opening,
        &mut sum,
        ps,
    ) {
        Some(x) => x,
        None => {
            return None;
        },
    };
    let ghost m = round.mask_bound(*mo, b, b0).unwrap();
    proof {
        assert(vals(poly@) == m.poly);
        assert(ps@ == m.view);
        assert(sum@ == m.sum);
    }
    Some(
        switch_masked_claim(
            round,
            mo,
            folded,
            folded_covector,
            sum,
            poly,
            cs_tree,
            tree,
            &opening,
            witnesses,
            theta.as_slice(),
            ps,
            Ghost(b),
            Ghost(m),
            Ghost(b0),
        ),
    )
}

/// A zero-knowledge round from the code-switch on.
fn switch_masked_claim(
    round: &RoundConfig,
    mo: &MaskOracleConfig,
    folded: Vec<Field64>,
    folded_covector: Vec<Field64>,
    start_sum: Field64,
    poly: Vec<Field64>,
    cs_tree: mask_proximity::Witness,
    tree: SumcheckMaskTree,
    opening: &SumcheckOpening,
    witnesses: Vec<irs_commit::Witness>,
    theta: &[Field64],
    ps: &mut ProverState,
    Ghost(b): Ghost<MasksBegun>,
    Ghost(m): Ghost<MaskBound>,
    Ghost(block): Ghost<BlockView>,
) -> (r: ProverBlock)
    requires
        round.wf(),
        round.mode matches RoundMode::ZeroKnowledge { t_ood, mask_oracle } && mask_oracle == *mo,
        folded@.len() == round.cs().source.message_len(),
        folded_covector@.len() == round.cs().source.message_len(),
        poly@.len() == mo.l_zk,
        cs_tree.wf(&mo.cs_mask.config),
        tree.cfg == mo.sumcheck_masks.config,
        tree.padded_masks@.len() == tree.cfg.flat_len(),
        tree.tree_witness.wf(&tree.cfg),
        opening.round_challenges@.len() == round.sc().num_rounds,
        witnesses@.len() == theta@.len(),
        forall|i: int|
            0 <= i < witnesses@.len() ==> (#[trigger] witnesses@[i]).wf(&round.cs().source),
        block.matrices == matrices_of(witnesses@),
        block.theta == vals(theta@),
        b.padded == vals(tree.padded_masks@),
        b.fresh == vals(tree.tree_witness.fresh@),
        b.irs_masks == vals(tree.tree_witness.irs.masks@),
        b.matrix == vals(tree.tree_witness.irs.matrix@),
        m.message == vals(folded@),
        m.covector == vals(folded_covector@),
        m.sum == start_sum@,
        m.points == vals(opening.round_challenges@),
        m.poly == vals(poly@),
        m.fresh == vals(cs_tree.fresh@),
        m.irs_masks == vals(cs_tree.irs.masks@),
        m.matrix == vals(cs_tree.irs.matrix@),
        m.view == old(ps)@,
    ensures
        r@ == round.masked_switch(*mo, b, m, block).block,
        final(ps)@ == round.masked_switch(*mo, b, m, block).view,
        r.wf(&round.cs().target),
        r.witnesses@.len() == 1,
{
    let mut sum: Field64 = start_sum;
    let msg_len: usize = folded.len();
    let extension: Vec<Field64> = crate::algebra::zeros(mo.l_zk);
    let mut new_covector: Vec<Field64> = concat(folded_covector.as_slice(), extension.as_slice());
    let cs_witness: code_switch::Witness = switch_claim(
        round,
        folded,
        &mut new_covector,
        &mut sum,
        witnesses,
        theta,
        opening.round_challenges.as_slice(),
        poly.as_slice(),
        ps,
        Ghost(block),
    );
    let ghost cov = vals(new_covector@);
    let region: Vec<Field64> = sub_vec(new_covector.as_slice(), msg_len, new_covector.len());
    assert(vals(region@) =~= cov.skip(msg_len as int));
    finish_masks(mo, tree, cs_tree, poly.as_slice(), opening, region.as_slice(), ps);
    let x_cs: Field64 = dot(poly.as_slice(), region.as_slice());
    let mut secret: Vec<Field64> = poly;
    wipe(&mut secret);
    sum = sum.sub(x_cs);
    new_covector.truncate(msg_len);
    assert(vals(new_covector@) =~= cov.take(msg_len as int));
    ProverBlock::single_source(cs_witness.message, new_covector, sum, cs_witness.target_witness)
}

/// Open both mask commitments.
fn finish_masks(
    mo: &MaskOracleConfig,
    tree: SumcheckMaskTree,
    cs_tree: mask_proximity::Witness,
    poly: &[Field64],
    opening: &SumcheckOpening,
    region: &[Field64],
    ps: &mut ProverState,
)
    requires
        mo.sumcheck_masks.config.wf(),
        mo.cs_mask.config.wf(),
        tree.cfg == mo.sumcheck_masks.config,
        tree.padded_masks@.len() == tree.cfg.flat_len(),
        tree.tree_witness.wf(&tree.cfg),
        opening.round_challenges@.len() == tree.cfg.num_masks,
        cs_tree.wf(&mo.cs_mask.config),
        mo.cs_mask.config.num_masks == 1,
        poly@.len() == mo.cs_mask.config.size(),
        region@.len() == mo.cs_mask.config.size(),
    ensures
        ({
            let sm = mo.sumcheck_masks.config;
            let points = vals(opening.round_challenges@);
            let v1 = sm.proved(
                vals(tree.padded_masks@),
                vals(tree.tree_witness.fresh@),
                vals(tree.tree_witness.irs.masks@),
                vals(tree.tree_witness.irs.matrix@),
                point_rows(points, sm.size(), points.len()),
                old(ps)@,
            );
            final(ps)@ == mo.cs_mask.config.proved(
                vals(poly@),
                vals(cs_tree.fresh@),
                vals(cs_tree.irs.masks@),
                vals(cs_tree.irs.matrix@),
                vals(region@),
                v1,
            )
        }),
{
    let sm: mask_proximity::Config = mo.sumcheck_masks.config;
    let covectors: Vec<Field64> = point_covectors(
        opening.round_challenges.as_slice(),
        sm.c_zk_commit.vector_size,
    );
    let SumcheckMaskTree { cfg, padded_masks, flat_coefficients, tree_witness } = tree;
    let mut secret: Vec<Field64> = padded_masks;
    sm.prove(ps, tree_witness, secret.as_slice(), covectors.as_slice());
    wipe(&mut secret);
    proof {
        assert(1 * mo.cs_mask.config.size() == mo.cs_mask.config.size()) by (nonlinear_arith);
    }
    mo.cs_mask.config.prove(ps, cs_tree, poly, region);
}

/// Verify one round.
pub fn verify_whir_round(round: &RoundConfig, block: VerifierBlock, vs: &mut VerifierState) -> (r: Result<
    (VerifierBlock, VerifyRoundOutput),
    VerificationError,
>)
    requires
        round.wf(),
        block.commitments@.len() == block.theta@.len(),
    ensures
        match round.round_checked(block@, old(vs)@) {
            None => r is Err,
            Some(o) => {
                &&& r is Ok
                &&& r->Ok_0.0@ == o.block
                &&& vals(r->Ok_0.1.round_challenges@) == o.points
                &&& r->Ok_0.1.round_challenges@.len() == round.sc().num_rounds
                &&& r->Ok_0.1.update_params@ == o.update
                &&& update_wf(r->Ok_0.1.update_params@)
                &&& final(vs)@ == o.view
                &&& r->Ok_0.0.commitments@.len() == 1
                &&& r->Ok_0.0.theta@.len() == 1
            },
        },
{
    reveal(RoundConfig::round_checked);
    match round.mode {
        RoundMode::Standard => verify_plain_round(round, block, vs),
        RoundMode::ZeroKnowledge { t_ood, mask_oracle } => verify_masked_round(
            round,
            &mask_oracle,
            block,
            vs,
        ),
    }
}

/// Verify a standard round.
fn verify_plain_round(round: &RoundConfig, block: VerifierBlock, vs: &mut VerifierState) -> (r: Result<
    (VerifierBlock, VerifyRoundOutput),
    VerificationError,
>)
    requires
        round.wf(),
        block.commitments@.len() == block.theta@.len(),
    ensures
        match round.plain_round_checked(block@, old(vs)@) {
            None => r is Err,
            Some(o) => {
                &&& r is Ok
                &&& r->Ok_0.0@ == o.block
                &&& vals(r->Ok_0.1.round_challenges@) == o.points
                &&& r->Ok_0.1.round_challenges@.len() == round.sc().num_rounds
                &&& r->Ok_0.1.update_params@ == o.update
                &&& update_wf(r->Ok_0.1.update_params@)
                &&& final(vs)@ == o.view
                &&& r->Ok_0.0.commitments@.len() == 1
                &&& r->Ok_0.0.theta@.len() == 1
            },
        },
{
    let mut sum: Field64 = block.sum;
    proof {
        round.lemma_sizes();
    }
    let opening: SumcheckOpening = match round.sumcheck.config.verify(vs, &mut sum) {
        Ok(o) => o,
        Err(e) => {
            return Err(e);
        },
    };
    let weights: Vec<Field64> = slot_weights::build(
        block.theta.as_slice(),
        opening.round_challenges.as_slice(),
    );
    match round.code_switch.config.verify_virtual_for_implicit(
        vs,
        &mut sum,
        block.commitments.as_slice(),
        weights.as_slice(),
    ) {
        Ok((target, update_params)) => Ok(
            (
                VerifierBlock::single_source(sum, target),
                VerifyRoundOutput { round_challenges: opening.round_challenges, update_params },
            ),
        ),
        Err(e) => Err(e),
    }
}

/// Verify a zero-knowledge round.
fn verify_masked_round(
    round: &RoundConfig,
    mo: &MaskOracleConfig,
    block: VerifierBlock,
    vs: &mut VerifierState,
) -> (r: Result<(VerifierBlock, VerifyRoundOutput), VerificationError>)
    requires
        round.wf(),
        round.mode matches RoundMode::ZeroKnowledge { t_ood, mask_oracle } && mask_oracle == *mo,
        block.commitments@.len() == block.theta@.len(),
    ensures
        match round.masked_round_checked(*mo, block@, old(vs)@) {
            None => r is Err,
            Some(o) => {
                &&& r is Ok
                &&& r->Ok_0.0@ == o.block
                &&& vals(r->Ok_0.1.round_challenges@) == o.points
                &&& r->Ok_0.1.round_challenges@.len() == round.sc().num_rounds
                &&& r->Ok_0.1.update_params@ == o.update
                &&& update_wf(r->Ok_0.1.update_params@)
                &&& final(vs)@ == o.view
                &&& r->Ok_0.0.commitments@.len() == 1
                &&& r->Ok_0.0.theta@.len() == 1
            },
        },
{
    let mut sum: Field64 = block.sum;
    proof {
        round.lemma_sizes();
    }
    let sc_commitment: irs_commit::Commitment = match mo.sumcheck_masks.config.receive_commitment(vs) {
        Ok(c) => c,
        Err(e) => {
            return Err(e);
        },
    };
    let opening: SumcheckOpening = match round.sumcheck.config.verify(vs, &mut sum) {
        Ok(o) => o,
        Err(e) => {
            return Err(e);
        },
    };
    let (cs_commitment, delta): (irs_commit::Commitment, Field64) = match receive_cs_mask_and_reconcile(
        mo,
        &opening,
        vs,
        &mut sum,
    ) {
        Ok(x) => x,
        Err(e) => {
            return Err(e);
        },
    };
    let weights: Vec<Field64> = slot_weights::build(
        block.theta.as_slice(),
        opening.round_challenges.as_slice(),
    );
    let (target, update_params): (irs_commit::Commitment, CovectorUpdateParams) =
        match round.code_switch.config.verify_virtual_for_implicit(
        vs,
        &mut sum,
        block.commitments.as_slice(),
        weights.as_slice(),
    ) {
        Ok(x) => x,
        Err(e) => {
            return Err(e);
        },
    };
    match verify_and_discharge(
        round,
        mo,
        &sc_commitment,
        &cs_commitment,
        delta,
        &opening,
        &update_params,
        vs,
        &mut sum,
        Ghost(target.matrix_commitment.root),
    ) {
        Ok(()) => Ok(
            (
                VerifierBlock::single_source(sum, target),
                VerifyRoundOutput { round_challenges: opening.round_challenges, update_params },
            ),
        ),
        Err(e) => Err(e),
    }
}

/// Read the commitment to the code-switch's mask and the sum of the masks' values,
/// and take that out of the running sum. Rejects a factor of zero.
fn receive_cs_mask_and_reconcile(
    mo: &MaskOracleConfig,
    opening: &SumcheckOpening,
    vs: &mut VerifierState,
    sum: &mut Field64,
) -> (r: Result<(irs_commit::Commitment, Field64), VerificationError>)
    requires
        mo.cs_mask.config.wf(),
    ensures
        match old(vs)@.read_all(4) {
            None => r is Err,
            Some((us, v2)) => match v2.read_field() {
                None => r is Err,
                Some((delta, v3)) => if opening.mask_rlc@ == 0 {
                    r is Err
                } else {
                    &&& r is Ok
                    &&& r->Ok_0.0.matrix_commitment.root == (Digest {
                        a: us[0],
                        b: us[1],
                        c: us[2],
                        d: us[3],
                    })
                    &&& r->Ok_0.1@ == delta
                    &&& final(vs)@ == v3
                    &&& final(sum)@ == fmul(
                        fsub(old(sum)@, delta),
                        quotient(1, opening.mask_rlc@),
                    )
                },
            },
        },
{
    let commitment: irs_commit::Commitment = match mo.cs_mask.config.receive_commitment(vs) {
        Ok(c) => c,
        Err(e) => {
            return Err(e);
        },
    };
    let delta: Field64 = match vs.prover_message() {
        Ok(d) => d,
        Err(e) => {
            return Err(e);
        },
    };
    match opening.mask_rlc.inverse() {
        None => Err(VerificationError),
        Some(inv) => {
            proof {
                lemma_view_canonical(opening.mask_rlc);
                lemma_view_canonical(inv);
                lemma_fmul_comm(opening.mask_rlc@, inv@);
                lemma_quotient(1, opening.mask_rlc@, inv@);
            }
            *sum = sum.sub(delta).mul(inv);
            Ok((commitment, delta))
        },
    }
}

/// Open both mask commitments: the masks' values must add up to the sum that was
/// sent, and the code-switch mask's share is taken out of the running sum.
fn verify_and_discharge(
    round: &RoundConfig,
    mo: &MaskOracleConfig,
    sc_commitment: &irs_commit::Commitment,
    cs_commitment: &irs_commit::Commitment,
    delta: Field64,
    opening: &SumcheckOpening,
    params: &CovectorUpdateParams,
    vs: &mut VerifierState,
    sum: &mut Field64,
    Ghost(root): Ghost<Digest>,
) -> (r: Result<(), VerificationError>)
    requires
        round.wf(),
        round.mode matches RoundMode::ZeroKnowledge { t_ood, mask_oracle } && mask_oracle == *mo,
        opening.round_challenges@.len() == round.sc().num_rounds,
        update_wf(params@),
    ensures
        match round.discharged(
            *mo,
            sc_commitment.matrix_commitment.root,
            cs_commitment.matrix_commitment.root,
            delta@,
            vals(opening.round_challenges@),
            (code_switch::SwitchChecked {
                root,
                sum: old(sum)@,
                update: params@,
                view: old(vs)@,
            }),
        ) {
            None => r is Err,
            Some((s, v)) => r is Ok && final(sum)@ == s && final(vs)@ == v,
        },
{
    let sm: mask_proximity::Config = mo.sumcheck_masks.config;
    let covectors: Vec<Field64> = point_covectors(
        opening.round_challenges.as_slice(),
        sm.c_zk_commit.vector_size,
    );
    proof {
        assert(vals(opening.round_challenges@).len() == opening.round_challenges@.len());
    }
    let xs: Vec<Field64> = match sm.verify(vs, sc_commitment, covectors.as_slice()) {
        Ok(x) => x,
        Err(e) => {
            return Err(e);
        },
    };
    if sumcheck::sum_of(xs.as_slice()) != delta {
        return Err(VerificationError);
    }
    let source: &irs_commit::Config = &round.code_switch.config.source;
    let tail: Vec<Field64> = zk_tail(params, source.message_length(), mo.l_zk, source.mask_length());
    proof {
        assert(1 * mo.cs_mask.config.size() == mo.cs_mask.config.size()) by (nonlinear_arith);
    }
    match mo.cs_mask.config.verify(vs, cs_commitment, tail.as_slice()) {
        Ok(ys) => {
            *sum = sum.sub(ys[0]);
            Ok(())
        },
        Err(e) => Err(e),
    }
}

} // verus!
