//! What an opening sends: whoever reads it finds every value that the claim rests on,
//! and finds it consistent with what was committed to.

use crate::algebra::{dot_spec, eq_table, evaluate, geometric};
use crate::code_switch::collapsed;
use crate::field::{all_canonical, fadd, lemma_fpow_canonical, lemma_residue_canonical};
use crate::irs_laws::{
    law_irs_open_complete, lemma_encoded_wf, lemma_rows_sent_follow, matrices_wf, matrix_roots,
};
use crate::irs_ood::{law_ood_received, ood_values};
use crate::matrix_commit::{root_of, row_of, value_words};
use crate::sumcheck;
use crate::sumcheck::{CheckState, DotProductOracle};
use crate::sumcheck_laws::{law_sumcheck_complete, lemma_dot_oracle_canonical, lemma_run_follows};
use crate::sums::lemma_fsum_canonical;
use crate::transcript::{challenge, challenges, words_bytes, ProverView};
use crate::transcript_laws::{
    follows, law_pow_accepted, law_read_fields, lemma_follows_draw, lemma_follows_pow,
    lemma_follows_refl, lemma_follows_send, lemma_follows_send_fields, lemma_follows_trans, pending,
};
use crate::vector_laws::law_dot_concat;
use crate::whir::{claim_folded, cross_sent, cross_terms, Config, Stage, WitnessView};
use crate::whir_laws::{
    lemma_first_claim, lemma_opened_values, lemma_sampled_claim, opening_true, stage_true,
    vectors_of,
};
use crate::zook::slot_weights::slot_table;
use vstd::prelude::*;

verus! {

/// Field elements that are sent stand at the end of what was sent, as words, and the
/// sponge absorbs them.
pub proof fn law_fields_are_sent(p: ProverView, xs: Seq<int>)
    ensures
        p.send_fields(xs).sent == p.sent + value_words(xs),
        p.send_fields(xs).sponge == p.sponge + words_bytes(value_words(xs)),
        p.send_fields(xs).coins == p.coins,
        p.send_fields(xs).stuck == p.stuck,
    decreases xs.len(),
{
    let ws = value_words(xs);
    if xs.len() == 0 {
        assert(ws =~= Seq::empty());
        assert(p.sent + ws =~= p.sent);
        assert(p.sponge + words_bytes(ws) =~= p.sponge);
    } else {
        let before = xs.drop_last();
        law_fields_are_sent(p, before);
        assert(ws.drop_last() =~= value_words(before));
        assert(ws.last() == xs.last() as u64);
        assert(p.send_fields(xs).sent =~= p.sent + ws);
        assert(p.send_fields(xs).sponge =~= p.sponge + words_bytes(ws));
    }
}

/// Are these the words at the start of what was sent after `p`?
pub open spec fn sends_first(p: ProverView, q: ProverView, ws: Seq<u64>) -> bool {
    &&& p.sent.len() + ws.len() <= q.sent.len()
    &&& q.sent.take((p.sent.len() + ws.len()) as int) == p.sent + ws
}

/// The matrices of a true stage are of the commitment's size.
proof fn lemma_stage_matrices(cfg: &Config, k: nat, s: Stage, vectors: Seq<Seq<int>>)
    requires
        cfg.wf(),
        k <= cfg.round_configs@.len(),
        stage_true(cfg, k, s, vectors),
    ensures
        s.committer.wf(),
        matrices_wf(&s.committer, s.matrices),
{
    if k > 0 {
        assert(cfg.round_configs@[k - 1].wf());
    }
    let code = s.committer;
    assert forall|w: int| 0 <= w < s.matrices.len() implies all_canonical(#[trigger] s.matrices[w])
        && s.matrices[w].len() == code.codeword_length * code.cols() by {
        let own = vectors_of(vectors, code.num_vectors as nat, w);
        assert(s.matrices[w] == code.encoded(own, Seq::empty()));
        lemma_encoded_wf(&code, own, Seq::empty());
    }
}

/// A sumcheck of a claim that holds is read with the sum, the challenges and the
/// transcript that the prover ends with.
proof fn lemma_claim_read(
    cfg: sumcheck::Config,
    vector: Seq<int>,
    covector: Seq<int>,
    p: ProverView,
    q: ProverView,
    tail: Seq<u64>,
)
    requires
        cfg.wf(),
        cfg.degree == 2,
        cfg.mode is Standard,
        cfg.round_pow.bits == 0 || !q.stuck,
        follows(claim_folded(cfg, vector, covector, dot_spec(vector, covector), p).4, q),
    ensures
        ({
            let sum = dot_spec(vector, covector);
            let (v, c, end, points, view) = claim_folded(cfg, vector, covector, sum, p);
            &&& follows(p, view)
            &&& cfg.checked(sum, pending(p, q, tail)) == Some(
                (CheckState { sum: end, points, view: pending(view, q, tail) }, 1int),
            )
        }),
{
    broadcast use {lemma_residue_canonical, lemma_fsum_canonical};

    let sum = dot_spec(vector, covector);
    let none = Seq::<int>::empty();
    assert(cfg.num_rounds * 0 == 0) by (nonlinear_arith);
    lemma_dot_oracle_canonical();
    law_sumcheck_complete::<DotProductOracle>(&cfg, seq![vector, covector], sum, none, p, q, tail);
}

proof fn lemma_claim_follows(
    cfg: sumcheck::Config,
    vector: Seq<int>,
    covector: Seq<int>,
    sum: int,
    p: ProverView,
)
    ensures
        follows(p, claim_folded(cfg, vector, covector, sum, p).4),
{
    let none = Seq::<int>::empty();
    let (start, rlc) = cfg.begin(seq![vector, covector], sum, none, p);
    lemma_run_follows::<DotProductOracle>(&cfg, start, rlc, none, 0, cfg.num_rounds as nat);
    let end = claim_folded(cfg, vector, covector, sum, p).4;
    if cfg.is_masked() {
        let sent = p.send_field(cfg.initial_mask_sum(none));
        lemma_follows_send(p, cfg.initial_mask_sum(none) as u64);
        lemma_follows_draw(sent, 0);
        lemma_follows_trans(p, sent, start.view);
    } else {
        lemma_follows_refl(p);
    }
    lemma_follows_trans(p, start.view, end);
}

/// After the last round the folded vector is sent first, word by word, whatever it is;
/// the work, the rows that are opened and the last sumcheck follow.
pub proof fn law_final_vector_is_sent(cfg: &Config, s: Stage)
    ensures
        sends_first(s.view, cfg.finished(s).view, value_words(s.vector)),
        follows(
            s.committer.opened(
                cfg.final_pow.proved(s.view.send_fields(s.vector)),
                s.matrices,
            ).2,
            cfg.finished(s).view,
        ),
{
    let end = cfg.finished(s).view;
    let sent = s.view.send_fields(s.vector);
    let worked = cfg.final_pow.proved(sent);
    let code = s.committer;
    let (indices, sponge) = code.indices(worked.sponge);
    let drawn = ProverView { sponge, ..worked };
    let opened = code.opened(worked, s.matrices).2;
    law_fields_are_sent(s.view, s.vector);
    lemma_follows_pow(cfg.final_pow, sent);
    lemma_follows_refl(worked);
    lemma_rows_sent_follow(&code, drawn, s.matrices, indices, 0, s.matrices.len());
    assert(follows(worked, drawn));
    lemma_follows_trans(worked, drawn, opened);
    lemma_claim_follows(cfg.final_sumcheck, s.vector, s.covector, s.sum, opened);
    lemma_follows_trans(sent, worked, opened);
    lemma_follows_trans(sent, opened, end);
}

/// The end of an opening: the folded vector is sent first, word by word, before
/// anything is drawn. Whoever reads on finds the vector; the work done on it; rows of
/// the last commitments, each of which, combined by the weights, is the vector's value
/// at its point; and a sumcheck from the claimed sum to the last one.
#[verifier::spinoff_prover]
#[verifier::rlimit(60)]
pub proof fn law_end_is_readable(
    cfg: &Config,
    s: Stage,
    vectors: Seq<Seq<int>>,
    q: ProverView,
    tail: Seq<u64>,
)
    requires
        cfg.wf(),
        cfg.code_before(cfg.round_configs@.len()).mode.mask_len() == 0,
        stage_true(cfg, cfg.round_configs@.len(), s, vectors),
        follows(cfg.finished(s).view, q),
        cfg.final_pow.bits == 0 || !q.stuck,
        cfg.final_sumcheck.round_pow.bits == 0 || !q.stuck,
    ensures
        ({
            let end = cfg.finished(s);
            let read = pending(s.view, q, tail).read_fields(s.vector.len());
            let worked = cfg.final_pow.verified(read.unwrap().1);
            let opened = s.committer.verified(
                worked.unwrap(),
                matrix_roots(&s.committer, s.matrices),
            );
            let (points, rows, rest) = opened.unwrap();
            let weights = slot_table(s.weights, eq_table(s.folding));
            &&& follows(s.view, end.view)
            &&& sends_first(s.view, end.view, value_words(s.vector))
            &&& read is Some
            &&& read.unwrap().0 == s.vector
            &&& read.unwrap().1.sponge == s.view.sponge + words_bytes(value_words(s.vector))
            &&& worked is Some
            &&& opened is Some
            &&& points.len() == s.committer.indices(worked.unwrap().sponge).0.len()
            &&& forall|i: int|
                0 <= i < points.len() ==> dot_spec(weights, row_of(rows, weights.len(), i))
                    == evaluate(s.vector, #[trigger] points[i])
            &&& cfg.final_sumcheck.checked(s.sum, rest) == Some(
                (
                    CheckState {
                        sum: end.sum,
                        points: end.folding,
                        view: pending(end.view, q, tail),
                    },
                    1int,
                ),
            )
            &&& end.points == s.points + end.folding
        }),
{
    let n = cfg.round_configs@.len();
    let end = cfg.finished(s);
    let sent = s.view.send_fields(s.vector);
    let worked = cfg.final_pow.proved(sent);
    let (points, rows, opened) = s.committer.opened(worked, s.matrices);
    lemma_stage_matrices(cfg, n, s, vectors);
    lemma_claim_read(cfg.final_sumcheck, s.vector, s.covector, opened, q, tail);
    lemma_follows_trans(opened, end.view, q);
    law_irs_open_complete(&s.committer, s.matrices, worked, q, tail);
    lemma_follows_trans(worked, opened, q);
    law_pow_accepted(cfg.final_pow, sent, q, tail);
    lemma_follows_trans(sent, worked, q);
    lemma_follows_send_fields(s.view, s.vector);
    law_read_fields(s.view, s.vector, q, tail);
    law_fields_are_sent(s.view, s.vector);
    lemma_follows_trans(worked, opened, end.view);
    lemma_follows_trans(sent, worked, end.view);
    lemma_follows_trans(s.view, sent, end.view);
    let weights = slot_table(s.weights, eq_table(s.folding));
    assert forall|i: int| 0 <= i < points.len() implies dot_spec(
        weights,
        row_of(rows, weights.len(), i),
    ) == evaluate(s.vector, #[trigger] points[i]) by {
        lemma_opened_values(cfg, n, s, vectors, worked, i);
        assert(collapsed(rows, weights, points.len())[i] == dot_spec(
            weights,
            row_of(rows, weights.len(), i),
        ));
    }
}

/// A round of an opening. Whoever reads it finds the root of a commitment to the
/// folded vector; the vector's values at the points drawn out of domain; the work; and
/// rows of the commitments before it, each of which, combined by the weights, is the
/// vector's value at its point. All values, combined by the powers of a challenge drawn
/// after them, go into the sum that the sumcheck starts from.
#[verifier::spinoff_prover]
#[verifier::rlimit(60)]
pub proof fn law_round_is_readable(
    cfg: &Config,
    k: nat,
    s: Stage,
    vectors: Seq<Seq<int>>,
    q: ProverView,
    tail: Seq<u64>,
)
    requires
        cfg.wf(),
        k < cfg.round_configs@.len(),
        cfg.code_before(k).mode.mask_len() == 0,
        cfg.round_configs@[k as int].irs_committer.mode.mask_len() == 0,
        stage_true(cfg, k, s, vectors),
        follows(cfg.rounded(k as int, s).view, q),
        cfg.round_configs@[k as int].pow.bits == 0 || !q.stuck,
        cfg.round_configs@[k as int].sumcheck.round_pow.bits == 0 || !q.stuck,
    ensures
        ({
            let round = cfg.round_configs@[k as int];
            let next = cfg.rounded(k as int, s);
            let samples = round.out_domain_samples as nat;
            let received = round.irs_committer.received_with_ood(
                samples,
                pending(s.view, q, tail),
            );
            let (root, oods, answers, v1) = received.unwrap();
            let worked = round.pow.verified(v1);
            let opened = s.committer.verified(
                worked.unwrap(),
                matrix_roots(&s.committer, s.matrices),
            );
            let (points, rows, v2) = opened.unwrap();
            let weights = slot_table(s.weights, eq_table(s.folding));
            let values = answers + Seq::new(
                points.len(),
                |i: int| dot_spec(weights, row_of(rows, weights.len(), i)),
            );
            let count = oods.len() + points.len();
            let powers = geometric(1, challenge(v2.sponge), count);
            let start = fadd(s.sum, dot_spec(powers, values));
            &&& follows(s.view, next.view)
            &&& received is Some
            &&& next.matrices.len() == 1
            &&& root == root_of(round.irs_committer.matrix_config().leaves(next.matrices[0]))
            &&& oods.len() == samples
            &&& worked is Some
            &&& opened is Some
            &&& points.len() == s.committer.indices(worked.unwrap().sponge).0.len()
            &&& values.len() == count
            &&& forall|i: int|
                0 <= i < count ==> #[trigger] values[i] == evaluate(s.vector, (oods + points)[i])
            &&& count > 1 ==> round.sumcheck.checked(start, v2.draw()) == Some(
                (
                    CheckState {
                        sum: next.sum,
                        points: next.folding,
                        view: pending(next.view, q, tail),
                    },
                    1int,
                ),
            )
            &&& next.points == s.points + next.folding
        }),
{
    broadcast use {lemma_residue_canonical, lemma_fsum_canonical, lemma_fpow_canonical};

    let round = cfg.round_configs@[k as int];
    let code = round.irs_committer;
    assert(round.wf());
    assert(code.vector_size == cfg.size_after(k));
    let t = cfg.sampled(k as int, s);
    let next = cfg.rounded(k as int, s);
    let samples = round.out_domain_samples as nat;
    let (oods, committed) = code.committed_with_ood(seq![s.vector], samples, s.view);
    crate::irs_commit::lemma_challenges_len(code.committed(seq![s.vector], s.view).sponge, samples);
    let worked = round.pow.proved(committed);
    let (points, rows, opened) = s.committer.opened(worked, s.matrices);
    lemma_stage_matrices(cfg, k, s, vectors);
    lemma_sampled_claim(cfg, k, s, vectors);
    lemma_claim_read(round.sumcheck, t.vector, t.covector, t.view, q, tail);
    lemma_follows_trans(t.view, next.view, q);
    assert(follows(opened, t.view)) by {
        lemma_follows_refl(opened);
    }
    lemma_follows_trans(opened, t.view, q);
    law_irs_open_complete(&s.committer, s.matrices, worked, q, tail);
    lemma_follows_trans(worked, opened, q);
    law_pow_accepted(round.pow, committed, q, tail);
    lemma_follows_trans(committed, worked, q);
    law_ood_received(&code, seq![s.vector], samples, s.view, q, tail);
    lemma_follows_trans(s.view, committed, worked);
    lemma_follows_trans(s.view, worked, opened);
    lemma_follows_trans(s.view, opened, t.view);
    lemma_follows_trans(s.view, t.view, next.view);
    let weights = slot_table(s.weights, eq_table(s.folding));
    let answers = ood_values(seq![s.vector], oods);
    let c = oods.len() as int;
    assert(c * 1 == c) by (nonlinear_arith);
    let seen = Seq::new(
        points.len(),
        |i: int| dot_spec(weights, row_of(rows, weights.len(), i)),
    );
    assert(seen =~= collapsed(rows, weights, points.len()));
    let values = answers + seen;
    assert forall|i: int| 0 <= i < c + points.len() implies #[trigger] values[i] == evaluate(
        s.vector,
        (oods + points)[i],
    ) by {
        if i < c {
            vstd::arithmetic::div_mod::lemma_fundamental_div_mod_converse(i, 1, i, 0);
            assert(answers[i] == evaluate(seq![s.vector][0], oods[i]));
        } else {
            lemma_opened_values(cfg, k, s, vectors, worked, i - c);
        }
    }
}

/// The values at `x` of the vectors from `from` up to `to`.
pub open spec fn values_at(vectors: Seq<Seq<int>>, x: int, from: nat, to: nat) -> Seq<int> {
    Seq::new((to - from) as nat, |j: int| evaluate(vectors[from + j], x))
}

proof fn lemma_cross_sent(
    p: ProverView,
    vectors: Seq<Seq<int>>,
    row: Seq<int>,
    offset: nat,
    x: int,
    k: nat,
)
    ensures
        ({
            let bound = if k < offset {
                k
            } else {
                offset
            };
            let first = values_at(vectors, x, 0, bound);
            let last = offset + row.len();
            let rest = if k <= last {
                Seq::empty()
            } else {
                values_at(vectors, x, last, k)
            };
            cross_sent(p, vectors, row, offset, x, k) == p.send_fields(first + rest)
        }),
    decreases k,
{
    let last = offset + row.len();
    if k == 0 {
        let none = values_at(vectors, x, 0, 0) + Seq::<int>::empty();
        assert(none.len() == 0);
    } else {
        let m = (k - 1) as nat;
        lemma_cross_sent(p, vectors, row, offset, x, m);
        let value = evaluate(vectors[m as int], x);
        if m < offset {
            let before = values_at(vectors, x, 0, m);
            let now = values_at(vectors, x, 0, k);
            assert(before + Seq::<int>::empty() =~= before);
            assert(now + Seq::<int>::empty() =~= now);
            assert(now.drop_last() =~= before);
            assert(now.last() == value);
        } else if m >= last {
            let first = values_at(vectors, x, 0, offset);
            let before = if m <= last {
                Seq::empty()
            } else {
                values_at(vectors, x, last, m)
            };
            let now = values_at(vectors, x, last, k);
            assert((first + now).drop_last() =~= first + before);
            assert((first + now).last() == value);
        } else {
            assert(k <= last);
        }
    }
}

/// Before the claim is put together, every vector's value at every point that was drawn
/// for another commitment is sent: the values of the vectors before the commitment's own
/// and then of those after, and no others. Whoever reads on finds them.
#[verifier::spinoff_prover]
#[verifier::rlimit(60)]
pub proof fn law_cross_values_are_readable(
    vectors: Seq<Seq<int>>,
    ws: Seq<WitnessView>,
    per: nat,
    w: nat,
    i: nat,
    p: ProverView,
    q: ProverView,
    tail: Seq<u64>,
)
    requires
        w < ws.len(),
        i < ws[w as int].ood_points.len(),
        ws[w as int].ood_matrix.len() == ws[w as int].ood_points.len() * per,
        (w + 1) * per <= vectors.len(),
        follows(cross_terms(vectors, ws, per, w, i + 1, p).2, q),
    ensures
        ({
            let before = cross_terms(vectors, ws, per, w, i, p);
            let after = cross_terms(vectors, ws, per, w, i + 1, p);
            let x = ws[w as int].ood_points[i as int];
            let others = values_at(vectors, x, 0, w * per) + values_at(
                vectors,
                x,
                (w + 1) * per,
                vectors.len(),
            );
            &&& after.0 == before.0.push(x)
            &&& after.1.len() == before.1.len() + vectors.len()
            &&& after.2.sent == before.2.sent + value_words(others)
            &&& follows(before.2, after.2)
            &&& pending(before.2, q, tail).read_fields((vectors.len() - per) as nat) == Some(
                (others, pending(after.2, q, tail)),
            )
        }),
{
    broadcast use crate::sumcheck_laws::lemma_evaluate_canonical;

    let before = cross_terms(vectors, ws, per, w, i, p);
    let after = cross_terms(vectors, ws, per, w, i + 1, p);
    let x = ws[w as int].ood_points[i as int];
    let n = vectors.len();
    let count = ws[w as int].ood_points.len();
    assert(i * per + per <= count * per) by (nonlinear_arith)
        requires
            i < count,
    ;
    assert(i * per >= 0 && w * per >= 0) by (nonlinear_arith);
    assert((w + 1) * per == w * per + per) by (nonlinear_arith);
    let row = row_of(ws[w as int].ood_matrix, per, i as int);
    assert(row.len() == per);
    let first = values_at(vectors, x, 0, w * per);
    let rest = values_at(vectors, x, (w + 1) * per, n);
    let others = first + rest;
    lemma_cross_sent(before.2, vectors, row, w * per, x, n);
    if n <= (w + 1) * per {
        assert(rest =~= Seq::empty());
    }
    if n < w * per {
        assert(false);
    }
    assert(after.2 == before.2.send_fields(others));
    law_fields_are_sent(before.2, others);
    lemma_follows_send_fields(before.2, others);
    law_read_fields(before.2, others, q, tail);
    assert(others.len() == n - per);
}

/// The first claim puts all values together: those that are claimed, form by form, and
/// those at the points, each row combined by the powers of a first challenge, and all
/// rows by the powers of a second one. The vectors are combined by the same powers, and
/// the forms' coefficients are the first of the second ones.
#[verifier::spinoff_prover]
#[verifier::rlimit(60)]
pub proof fn law_first_claim_is_combination(
    cfg: &Config,
    vectors: Seq<Seq<int>>,
    ws: Seq<WitnessView>,
    covectors: Seq<Seq<int>>,
    evaluations: Seq<int>,
    p: ProverView,
)
    requires
        vectors.len() > 1,
        evaluations.len() == covectors.len() * vectors.len(),
        cfg.gathered(vectors, ws, p).1.len() == cfg.gathered(vectors, ws, p).0.len()
            * vectors.len(),
        covectors.len() + cfg.gathered(vectors, ws, p).0.len() > 1,
    ensures
        ({
            let (points, matrix, sent) = cfg.gathered(vectors, ws, p);
            let n = vectors.len();
            let count = covectors.len() + points.len();
            let columns = geometric(1, challenge(sent.sponge), n);
            let rows = geometric(1, challenge(sent.draw().sponge), count);
            let all = evaluations + matrix;
            let (s, forms) = cfg.first_claim(vectors, ws, covectors, evaluations, p);
            &&& s.weights == columns
            &&& forms == rows.take(covectors.len() as int)
            &&& s.sum == dot_spec(
                rows,
                Seq::new(count, |f: int| dot_spec(columns, row_of(all, n, f))),
            )
            &&& s.view == sent.draw().draw()
        }),
{
    let (points, matrix, sent) = cfg.gathered(vectors, ws, p);
    let n = vectors.len();
    let count = covectors.len() + points.len();
    let columns = geometric(1, challenge(sent.sponge), n);
    let rows = geometric(1, challenge(sent.draw().sponge), count);
    let all = evaluations + matrix;
    let (s, forms) = cfg.first_claim(vectors, ws, covectors, evaluations, p);
    let oods = rows.subrange(covectors.len() as int, count as int);
    assert(forms =~= rows.take(covectors.len() as int));
    assert(rows =~= forms + oods);
    let (a, b) = (
        collapsed(evaluations, columns, covectors.len()),
        collapsed(matrix, columns, points.len()),
    );
    law_dot_concat(forms, oods, a, b);
    let values = Seq::new(count, |f: int| dot_spec(columns, row_of(all, n, f)));
    let c = covectors.len() as int;
    assert forall|f: int| 0 <= f < count implies values[f] == (a + b)[f] by {
        if f < c {
            assert(f * n + n <= c * n) by (nonlinear_arith)
                requires
                    f < c,
            ;
            assert(f * n >= 0) by (nonlinear_arith)
                requires
                    f >= 0,
            ;
            assert(row_of(all, n, f) =~= row_of(evaluations, n, f));
        } else {
            let g = f - c;
            let m = points.len() as int;
            assert(f * n == c * n + g * n) by (nonlinear_arith)
                requires
                    f == c + g,
            ;
            assert(g * n + n <= m * n) by (nonlinear_arith)
                requires
                    g < m,
            ;
            assert(g * n >= 0) by (nonlinear_arith)
                requires
                    g >= 0,
            ;
            assert(row_of(all, n, f) =~= row_of(matrix, n, g));
        }
    }
    assert(values =~= a + b);
}

/// The first sumcheck of an opening is read from the first claim's sum to the sum before
/// the first round. Where there is nothing to sum, its challenges are drawn all the same,
/// and work is done in its place.
pub proof fn law_start_is_readable(
    cfg: &Config,
    vectors: Seq<Seq<int>>,
    ws: Seq<WitnessView>,
    covectors: Seq<Seq<int>>,
    evaluations: Seq<int>,
    p: ProverView,
    q: ProverView,
    tail: Seq<u64>,
)
    requires
        opening_true(cfg, vectors, ws, covectors, evaluations),
        follows(cfg.started(vectors, ws, covectors, evaluations, p).0.view, q),
        cfg.initial_sumcheck.round_pow.bits == 0 || !q.stuck,
        cfg.initial_skip_pow.bits == 0 || !q.stuck,
    ensures
        ({
            let (s, forms) = cfg.first_claim(vectors, ws, covectors, evaluations, p);
            let (t, rlc) = cfg.started(vectors, ws, covectors, evaluations, p);
            let count = covectors.len() + cfg.gathered(vectors, ws, p).0.len();
            let v = pending(s.view, q, tail);
            let n = cfg.initial_sumcheck.num_rounds as nat;
            &&& rlc == forms
            &&& follows(s.view, t.view)
            &&& t.points == t.folding
            &&& count > 0 ==> cfg.initial_sumcheck.checked(s.sum, v) == Some(
                (
                    CheckState {
                        sum: t.sum,
                        points: t.folding,
                        view: pending(t.view, q, tail),
                    },
                    1int,
                ),
            )
            &&& count == 0 ==> t.folding == challenges(v.sponge, n)
                && cfg.initial_skip_pow.verified(v.draw_many(n)) == Some(
                pending(t.view, q, tail),
            )
        }),
{
    let (s, forms) = cfg.first_claim(vectors, ws, covectors, evaluations, p);
    let t = cfg.started(vectors, ws, covectors, evaluations, p).0;
    let count = covectors.len() + cfg.gathered(vectors, ws, p).0.len();
    lemma_first_claim(cfg, vectors, ws, covectors, evaluations, p);
    if count > 0 {
        lemma_claim_read(cfg.initial_sumcheck, s.vector, s.covector, s.view, q, tail);
    } else {
        let n = cfg.initial_sumcheck.num_rounds as nat;
        let drawn = s.view.draw_many(n);
        lemma_follows_draw(s.view, n);
        law_pow_accepted(cfg.initial_skip_pow, drawn, q, tail);
        lemma_follows_trans(s.view, drawn, t.view);
    }
}

} // verus!
