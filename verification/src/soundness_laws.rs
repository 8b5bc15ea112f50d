//! What a verifier that accepts has learned: laws of the sumcheck, the code-switch and
//! the base case that hold whoever sends the messages.

use crate::algebra::{dot_spec, dot_terms, evaluate, geometric, mle};
use crate::basecase;
use crate::chunks::law_evaluate_concat;
use crate::code_switch;
use crate::field::{
    all_canonical, canonical, fadd, fmul, fpow, fsub, group_residue, lemma_cancel, lemma_fmul_assoc,
    lemma_fmul_comm, lemma_fmul_one, lemma_fpow_canonical, lemma_inverse_exists,
    lemma_residue_canonical, lemma_residue_id, quotient, residue, MODULUS,
};
use crate::irs_commit;
use crate::irs_commit::{lemma_challenges_len, lemma_read_fields_len};
use crate::mask_proximity;
use crate::matrix_commit::{row_of, Digest};
use crate::proof_of_work;
use crate::proof_of_work::nonce_hash;
use crate::round_poly::linear_coefficient;
use crate::sumcheck;
use crate::sumcheck::CheckState;
use crate::sumcheck_laws::{law_linear_coefficient, lemma_evaluate_canonical};
use crate::sums::{entries, fsum, lemma_fsum_canonical, lemma_fsum_eq, total};
use crate::transcript::{
    challenge, challenges, le_value, sponge_output, word_bytes, words_bytes, VerifierView,
};
use crate::vector_laws::{law_dot_concat, law_evaluate_is_dot};
use vstd::arithmetic::power2::{lemma_pow2_pos, pow2};
use vstd::prelude::*;

verus! {

/// What is left of a transcript after its first `n` words were read, and nothing drawn.
pub open spec fn after_words(v: VerifierView, n: nat) -> VerifierView {
    VerifierView {
        sponge: v.sponge + words_bytes(v.rest.take(n as int)),
        rest: v.rest.skip(n as int),
    }
}

proof fn lemma_after_one(v: VerifierView, n: nat)
    requires
        n < v.rest.len(),
    ensures
        after_words(v, n).read() == Some((v.rest[n as int], after_words(v, n + 1))),
{
    let m = n as int;
    let here = v.rest.take(m + 1);
    assert(here.drop_last() =~= v.rest.take(m));
    assert(here.last() == v.rest[m]);
    assert(words_bytes(here) == words_bytes(v.rest.take(m)) + word_bytes(v.rest[m]));
    assert(v.rest.skip(m)[0] == v.rest[m]);
    assert(v.rest.skip(m).drop_first() =~= v.rest.skip(m + 1));
    assert(v.sponge + words_bytes(v.rest.take(m)) + word_bytes(v.rest[m]) =~= v.sponge
        + words_bytes(here));
}

/// Field elements that are read are the next words of the proof, as they stand, and the
/// sponge has absorbed them.
pub proof fn law_fields_are_words(v: VerifierView, n: nat)
    ensures
        v.read_fields(n) matches Some((xs, next)) ==> {
            &&& n <= v.rest.len()
            &&& xs.len() == n
            &&& forall|i: int| 0 <= i < n ==> #[trigger] xs[i] == v.rest[i]
            &&& next == after_words(v, n)
        },
    decreases n,
{
    if n == 0 {
        assert(v.rest.take(0) =~= Seq::empty());
        assert(v.rest.skip(0) =~= v.rest);
        assert(v.sponge + words_bytes(Seq::empty()) =~= v.sponge);
    } else {
        let m = (n - 1) as nat;
        law_fields_are_words(v, m);
        if v.read_fields(n) is Some {
            lemma_after_len(v, m);
            lemma_after_one(v, m);
        }
    }
}

proof fn lemma_after_len(v: VerifierView, n: nat)
    requires
        n <= v.rest.len(),
    ensures
        after_words(v, n).rest.len() == v.rest.len() - n,
{
}

/// Words that are read are the next words of the proof, and the sponge has absorbed
/// them.
pub proof fn law_words_are_read(v: VerifierView, n: nat)
    ensures
        v.read_all(n) matches Some((ws, next)) ==> {
            &&& n <= v.rest.len()
            &&& ws == v.rest.take(n as int)
            &&& next == after_words(v, n)
        },
    decreases n,
{
    if n == 0 {
        assert(v.rest.take(0) =~= Seq::empty());
        assert(v.rest.skip(0) =~= v.rest);
        assert(v.sponge + words_bytes(Seq::empty()) =~= v.sponge);
    } else {
        let m = (n - 1) as nat;
        law_words_are_read(v, m);
        if v.read_all(n) is Some {
            lemma_after_len(v, m);
            lemma_after_one(v, m);
            assert(v.rest.take(n as int) =~= v.rest.take(m as int).push(v.rest[m as int]));
        }
    }
}

/// At one, a polynomial is the sum of its coefficients.
proof fn lemma_at_one(p: Seq<int>)
    requires
        all_canonical(p),
    ensures
        evaluate(p, 1) == total(p),
{
    lemma_residue_id(1);
    law_evaluate_is_dot(p, 1);
    let g = geometric(1, 1, p.len());
    assert forall|i: int| 0 <= i < p.len() implies #[trigger] dot_terms(p, g)(i) == entries(p)(i) by {
        lemma_power_of_one(i as nat);
        lemma_fmul_one(1);
        lemma_fmul_one(p[i]);
        assert(canonical(p[i]));
    }
    lemma_fsum_eq(dot_terms(p, g), entries(p), p.len());
}

proof fn lemma_power_of_one(n: nat)
    ensures
        fpow(1, n) == 1,
    decreases n,
{
    lemma_residue_id(1);
    if n > 0 {
        lemma_power_of_one((n - 1) as nat);
        lemma_fmul_one(1);
    }
}

/// At zero, a polynomial is its constant coefficient.
proof fn lemma_at_zero(p: Seq<int>)
    requires
        all_canonical(p),
        p.len() > 0,
    ensures
        evaluate(p, 0) == p[0],
{
    broadcast use lemma_evaluate_canonical;

    let t = evaluate(p.drop_first(), 0);
    assert(canonical(p[0]));
    assert(0 * t == 0) by (nonlinear_arith);
    lemma_residue_id(0);
    lemma_residue_id(p[0]);
    assert(evaluate(p, 0) == fadd(p[0], fmul(0, t)));
}

/// Does this polynomial tie a round's sum to the next: its values at zero and one add
/// up to the one, and its value at the challenge is the other; was it sent without its
/// linear coefficient, before the challenge was drawn?
pub open spec fn ties(cfg: &sumcheck::Config, st: CheckState, next: CheckState, poly: Seq<int>) -> bool {
    let words = (poly.len() - 1) as nat;
    &&& poly.len() == cfg.poly_len()
    &&& all_canonical(poly)
    &&& fadd(evaluate(poly, 0), evaluate(poly, 1)) == st.sum
    &&& next.points.len() == st.points.len() + 1
    &&& next.points.drop_last() == st.points
    &&& next.sum == evaluate(poly, next.points.last())
    &&& words <= st.view.rest.len()
    &&& poly[0] == st.view.rest[0]
    &&& forall|i: int| 2 <= i < poly.len() ==> #[trigger] poly[i] == st.view.rest[i - 1]
    &&& cfg.round_pow.verified(after_words(st.view, words)) matches Some(worked) && {
        &&& next.points.last() == challenge(worked.sponge)
        &&& next.view == worked.draw()
    }
}

/// Reading words twice is reading all of them.
pub proof fn lemma_join_words(v: VerifierView, a: nat, b: nat)
    requires
        a + b <= v.rest.len(),
    ensures
        after_words(after_words(v, a), b) == after_words(v, a + b),
    decreases b,
{
    let w = after_words(v, a);
    if b == 0 {
        assert(w.rest.take(0) =~= Seq::empty());
        assert(w.rest.skip(0) =~= w.rest);
        assert(w.sponge + words_bytes(Seq::empty()) =~= w.sponge);
    } else {
        let c = (b - 1) as nat;
        lemma_join_words(v, a, c);
        lemma_after_one(v, a + c);
        lemma_after_one(w, c);
        assert(w.rest[c as int] == v.rest[(a + c) as int]);
        assert(a + c + 1 == a + b && c + 1 == b);
    }
}

/// A round that is accepted is tied to the next by a polynomial.
#[verifier::spinoff_prover]
#[verifier::rlimit(60)]
pub proof fn law_round_is_tied(cfg: &sumcheck::Config, st: CheckState)
    requires
        cfg.wf(),
        canonical(st.sum),
    ensures
        cfg.check_step(st) matches Some(next) ==> exists|poly: Seq<int>| ties(cfg, st, next, poly),
{
    broadcast use {lemma_residue_canonical, lemma_fsum_canonical};

    if let Some(next) = cfg.check_step(st) {
        let v = st.view;
        let (c0, v1) = v.read_field().unwrap();
        let k = (cfg.poly_len() - 2) as nat;
        let (higher, v2) = v1.read_fields(k).unwrap();
        law_fields_are_words(v1, k);
        lemma_read_fields_len(v1, k);
        let c1 = linear_coefficient(st.sum, c0, higher);
        let poly = seq![c0, c1] + higher;
        assert forall|i: int| 0 <= i < poly.len() implies canonical(#[trigger] poly[i]) by {
            if i >= 2 {
                assert(canonical(higher[i - 2]));
            }
        }
        law_linear_coefficient(st.sum, c0, c1, higher);
        lemma_at_zero(poly);
        lemma_at_one(poly);
        assert(next.points.drop_last() =~= st.points);
        assert(v.rest.take(0) =~= Seq::empty());
        assert(v.rest.skip(0) =~= v.rest);
        assert(v.sponge + words_bytes(Seq::empty()) =~= v.sponge);
        assert(after_words(v, 0) == v);
        lemma_after_one(v, 0);
        assert(v1 == after_words(v, 1));
        lemma_join_words(v, 1, k);
        assert(poly.len() - 1 == 1 + k);
        assert forall|i: int| 2 <= i < poly.len() implies #[trigger] poly[i] == v.rest[i - 1] by {
            assert(higher[i - 2] == v1.rest[i - 2]);
        }
        assert(ties(cfg, st, next, poly));
    }
}

/// Equal sums with one equal summand have equal other summands.
pub proof fn lemma_add_cancel(a: int, x: int, y: int)
    requires
        canonical(x),
        canonical(y),
        fadd(a, x) == fadd(a, y),
    ensures
        x == y,
{
    broadcast use group_residue;

    let t = residue(a);
    lemma_residue_id(x);
    lemma_residue_id(y);
    assert(fadd(t, residue(x)) == residue(a + x));
    assert(fadd(t, residue(y)) == residue(a + y));
    assert(fsub(residue(a + x), residue(a)) == residue((a + x) - a));
    assert(fsub(residue(a + y), residue(a)) == residue((a + y) - a));
}

/// Two verifiers of one transcript that differ at most in the claimed sum.
pub open spec fn twins(a: CheckState, b: CheckState) -> bool {
    &&& a.points == b.points
    &&& a.view == b.view
    &&& canonical(a.sum)
    &&& canonical(b.sum)
}

#[verifier::spinoff_prover]
#[verifier::rlimit(60)]
proof fn lemma_step_twins(cfg: &sumcheck::Config, a: CheckState, b: CheckState)
    requires
        cfg.wf(),
        twins(a, b),
    ensures
        cfg.check_step(a) is Some == cfg.check_step(b) is Some,
        cfg.check_step(a) matches Some(x) ==> {
            let y = cfg.check_step(b).unwrap();
            &&& twins(x, y)
            &&& x.points.len() == a.points.len() + 1
            &&& x.points.drop_last() == a.points
            &&& canonical(x.points.last())
            &&& x.points.last() != 0 && x.sum == y.sum ==> a.sum == b.sum
        },
{
    broadcast use {lemma_residue_canonical, lemma_fsum_canonical, lemma_evaluate_canonical};

    if let Some(x) = cfg.check_step(a) {
        let y = cfg.check_step(b).unwrap();
        let v = a.view;
        let (c0, v1) = v.read_field().unwrap();
        let k = (cfg.poly_len() - 2) as nat;
        let (h, v2) = v1.read_fields(k).unwrap();
        lemma_read_fields_len(v1, k);
        assert(x.points.drop_last() =~= a.points);
        let r = x.points.last();
        if r != 0 && x.sum == y.sum {
            let (la, lb) = (linear_coefficient(a.sum, c0, h), linear_coefficient(b.sum, c0, h));
            let t = fmul(r, evaluate(h, r));
            lemma_two_terms(c0, la, h, r);
            lemma_two_terms(c0, lb, h, r);
            lemma_add_cancel(c0, fmul(r, fadd(la, t)), fmul(r, fadd(lb, t)));
            lemma_fmul_comm(r, fadd(la, t));
            lemma_fmul_comm(r, fadd(lb, t));
            lemma_cancel(fadd(la, t), fadd(lb, t), r);
            assert(fadd(la, t) == fadd(t, la) && fadd(lb, t) == fadd(t, lb));
            lemma_add_cancel(t, la, lb);
            law_linear_coefficient(a.sum, c0, la, h);
            law_linear_coefficient(b.sum, c0, lb, h);
        }
    }
}

proof fn lemma_two_terms(c0: int, l: int, h: Seq<int>, r: int)
    ensures
        evaluate(seq![c0, l] + h, r) == fadd(c0, fmul(r, fadd(l, fmul(r, evaluate(h, r))))),
{
    let p = seq![c0, l] + h;
    let q = p.drop_first();
    assert(q =~= seq![l] + h);
    assert(q.drop_first() =~= h);
    assert(evaluate(q, r) == fadd(l, fmul(r, evaluate(h, r))));
}

proof fn lemma_run_twins(cfg: &sumcheck::Config, a: CheckState, b: CheckState, k: nat)
    requires
        cfg.wf(),
        twins(a, b),
    ensures
        cfg.check_run(a, k) is Some == cfg.check_run(b, k) is Some,
        cfg.check_run(a, k) matches Some(x) ==> {
            let y = cfg.check_run(b, k).unwrap();
            &&& twins(x, y)
            &&& x.points.len() == a.points.len() + k
            &&& (forall|i: int|
                a.points.len() <= i < x.points.len() ==> #[trigger] x.points[i] != 0) && x.sum == y.sum
                ==> a.sum == b.sum
        },
    decreases k,
{
    if k > 0 {
        let m = (k - 1) as nat;
        lemma_run_twins(cfg, a, b, m);
        if let Some(p) = cfg.check_run(a, m) {
            let q = cfg.check_run(b, m).unwrap();
            lemma_step_twins(cfg, p, q);
            if let Some(x) = cfg.check_step(p) {
                let y = cfg.check_step(q).unwrap();
                if (forall|i: int|
                    a.points.len() <= i < x.points.len() ==> #[trigger] x.points[i] != 0) && x.sum
                    == y.sum {
                    assert(x.points[x.points.len() - 1] != 0);
                    assert forall|i: int| a.points.len() <= i < p.points.len() implies #[trigger] p.points[i]
                        != 0 by {
                        assert(x.points.drop_last()[i] == x.points[i]);
                    }
                }
            }
        }
    }
}

/// Is no challenge of these zero?
pub open spec fn none_zero(points: Seq<int>) -> bool {
    forall|i: int| 0 <= i < points.len() ==> #[trigger] points[i] != 0
}

/// The sumcheck binds the claimed sum: with the same messages, verifiers of different
/// claims accept alike, draw the same challenges, and are left with different sums
/// unless a challenge was zero.
pub proof fn law_sumcheck_binds(cfg: &sumcheck::Config, s: int, t: int, v: VerifierView)
    requires
        cfg.wf(),
        canonical(s),
        canonical(t),
    ensures
        cfg.checked(s, v) is Some == cfg.checked(t, v) is Some,
        cfg.checked(s, v) matches Some((x, rlc)) ==> {
            let (y, other) = cfg.checked(t, v).unwrap();
            &&& twins(x, y)
            &&& rlc == other
            &&& canonical(rlc)
            &&& none_zero(x.points) && rlc != 0 && x.sum == y.sum ==> s == t
        },
{
    broadcast use lemma_residue_canonical;

    lemma_residue_id(1);
    if let Some((a, rlc)) = cfg.begin_check(s, v) {
        let (b, other) = cfg.begin_check(t, v).unwrap();
        lemma_run_twins(cfg, a, b, cfg.num_rounds as nat);
        if rlc != 0 && a.sum == b.sum && cfg.is_masked() {
            let (mask_sum, next) = v.read_field().unwrap();
            lemma_add_cancel(mask_sum, fmul(rlc, s), fmul(rlc, t));
            lemma_fmul_comm(rlc, s);
            lemma_fmul_comm(rlc, t);
            lemma_cancel(s, t, rlc);
        }
    }
}

/// A quotient times its divisor.
pub proof fn law_quotient_times_divisor(a: int, b: int)
    requires
        canonical(a),
        0 < b < MODULUS,
    ensures
        fmul(quotient(a, b), b) == a,
        canonical(quotient(a, b)),
{
    broadcast use lemma_residue_canonical;

    let inv = lemma_inverse_exists(b);
    let x = fmul(a, inv);
    lemma_fmul_assoc(a, inv, b);
    lemma_fmul_comm(inv, b);
    lemma_fmul_one(a);
    assert(canonical(x) && fmul(x, b) == a);
}

/// What an accepted opening shows: the vector and its masks were sent as they stand;
/// every opened row, combined by the weights of the commitments, is the value at its
/// point of the vector followed by the masks; and the claimed sum was reduced to the
/// product of the value that is left with the vector's at the challenges.
pub open spec fn opening_shows(
    cfg: &basecase::Config,
    b: basecase::BlindReceived,
    o: basecase::OpenChecked,
    vector: Seq<int>,
    masks: Seq<int>,
) -> bool {
    let n = vector.len();
    let sent = b.view.rest;
    let v = after_words(b.view, n + masks.len());
    &&& n == cfg.commit.vector_size
    &&& masks.len() == cfg.commit.num_mask_coefficients()
    &&& n + masks.len() <= sent.len()
    &&& forall|i: int| 0 <= i < n ==> #[trigger] vector[i] == sent[i]
    &&& forall|i: int| 0 <= i < masks.len() ==> #[trigger] masks[i] == sent[n + i]
    &&& cfg.commit.verified(v, b.roots) matches Some((points, rows, w)) && {
        &&& forall|i: int|
            0 <= i < points.len() ==> dot_spec(b.weights, row_of(rows, b.weights.len(), i))
                == evaluate(vector + masks, #[trigger] points[i])
        &&& cfg.sumcheck.checked(b.sum, w) matches Some((end, rlc)) && {
            &&& mle(vector, end.points) != 0
            &&& end.points == o.points
            &&& end.view == o.view
            &&& fmul(o.value, mle(vector, o.points)) == end.sum
        }
    }
}

/// Whatever is accepted shows what it must.
#[verifier::spinoff_prover]
#[verifier::rlimit(60)]
pub proof fn law_opening_shows(cfg: &basecase::Config, root: Digest, sum: int, v: VerifierView)
    requires
        cfg.wf(),
        cfg.spec_size() > 0,
        canonical(sum),
    ensures
        cfg.open_checked(root, sum, v) matches Some(o) ==> {
            &&& cfg.blind_received(root, sum, v) is Some
            &&& exists|vector: Seq<int>, masks: Seq<int>|
                opening_shows(
                    cfg,
                    cfg.blind_received(root, sum, v).unwrap(),
                    o,
                    vector,
                    masks,
                )
        },
{
    broadcast use {lemma_residue_canonical, lemma_fsum_canonical, lemma_evaluate_canonical};

    reveal(basecase::Config::open_checked);
    if let Some(o) = cfg.open_checked(root, sum, v) {
        let b = cfg.blind_received(root, sum, v).unwrap();
        let n = cfg.commit.vector_size as nat;
        let m = cfg.commit.num_mask_coefficients();
        let (vector, v1) = b.view.read_fields(n).unwrap();
        let (masks, v2) = v1.read_fields(m).unwrap();
        law_fields_are_words(b.view, n);
        law_fields_are_words(v1, m);
        lemma_read_fields_len(b.view, n);
        lemma_read_fields_len(v1, m);
        lemma_join_words(b.view, n, m);
        assert forall|i: int| 0 <= i < masks.len() implies #[trigger] masks[i] == b.view.rest[n + i] by {
            assert(v1.rest[i] == b.view.rest[n + i]);
        }
        let (points, rows, v3) = cfg.commit.verified(v2, b.roots).unwrap();
        assert forall|i: int| 0 <= i < points.len() implies dot_spec(
            b.weights,
            row_of(rows, b.weights.len(), i),
        ) == evaluate(vector + masks, #[trigger] points[i]) by {
            lemma_point_canonical(&cfg.commit, v2, b.roots, i);
            law_evaluate_concat(vector, masks, points[i]);
        }
        let (end, rlc) = cfg.sumcheck.checked(b.sum, v3).unwrap();
        law_sumcheck_binds(&cfg.sumcheck, b.sum, b.sum, v3);
        assert(canonical(mle(vector, end.points)));
        law_quotient_times_divisor(end.sum, mle(vector, end.points));
        assert(opening_shows(cfg, b, o, vector, masks));
    }
}

proof fn lemma_point_canonical(cfg: &irs_commit::Config, v: VerifierView, roots: Seq<Digest>, i: int)
    requires
        cfg.verified(v, roots) is Some,
        0 <= i < cfg.verified(v, roots).unwrap().0.len(),
    ensures
        canonical(cfg.verified(v, roots).unwrap().0[i]),
{
    broadcast use lemma_fpow_canonical;

}

/// The base case binds the claimed sum, as the sumcheck does.
#[verifier::spinoff_prover]
#[verifier::rlimit(60)]
pub proof fn law_opening_binds(cfg: &basecase::Config, root: Digest, s: int, t: int, v: VerifierView)
    requires
        cfg.wf(),
        cfg.spec_size() > 0,
        canonical(s),
        canonical(t),
    ensures
        cfg.open_checked(root, s, v) is Some == cfg.open_checked(root, t, v) is Some,
        cfg.open_checked(root, s, v) matches Some(x) ==> {
            let y = cfg.open_checked(root, t, v).unwrap();
            &&& x.points == y.points
            &&& x.view == y.view
            &&& canonical(x.value)
            &&& canonical(y.value)
            &&& none_zero(x.points) && x.value == y.value ==> s == t
        },
{
    broadcast use {lemma_residue_canonical, lemma_fsum_canonical};

    reveal(basecase::Config::open_checked);
    if let Some(b) = cfg.blind_received(root, s, v) {
        let c = cfg.blind_received(root, t, v).unwrap();
        let n = cfg.commit.vector_size as nat;
        if let Some((vector, v1)) = b.view.read_fields(n) {
            lemma_read_fields_len(b.view, n);
            if let Some((masks, v2)) = v1.read_fields(cfg.commit.num_mask_coefficients()) {
                if let Some((points, rows, v3)) = cfg.commit.verified(v2, b.roots) {
                    law_sumcheck_binds(&cfg.sumcheck, b.sum, c.sum, v3);
                    if let Some((x, rlc)) = cfg.sumcheck.checked(b.sum, v3) {
                        let (y, other) = cfg.sumcheck.checked(c.sum, v3).unwrap();
                        let at = mle(vector, x.points);
                        assert(canonical(at));
                        if at != 0 {
                            law_quotient_times_divisor(x.sum, at);
                            law_quotient_times_divisor(y.sum, at);
                        }
                        if cfg.mode is ZeroKnowledge && b.sum == c.sum {
                            let v1 = v.read_all(4).unwrap().1;
                            let (product, v2) = v1.read_field().unwrap();
                            let gamma = challenge(cfg.pow.verified(v2).unwrap().sponge);
                            lemma_add_cancel(product, fmul(gamma, s), fmul(gamma, t));
                            lemma_fmul_comm(gamma, s);
                            lemma_fmul_comm(gamma, t);
                            lemma_cancel(s, t, gamma);
                        }
                    }
                }
            }
        }
    }
}

/// A code-switch that is accepted leaves the old claim, the answers at the drawn points
/// and the opened rows, each row combined by the weights, all combined by the powers of
/// one challenge, drawn when everything was read.
#[verifier::spinoff_prover]
#[verifier::rlimit(60)]
pub proof fn law_switch_is_combination(
    cfg: &code_switch::Config,
    roots: Seq<Digest>,
    weights: Seq<int>,
    sum: int,
    v: VerifierView,
)
    requires
        cfg.wf(),
        canonical(sum),
    ensures
        cfg.switch_checked(roots, weights, sum, v) matches Some(s) ==> ({
            let n = cfg.out_domain_samples as nat;
            let worked = cfg.pow.verified(after_words(v, 4));
            let drawn = worked.unwrap().draw_many(n);
            let answers = drawn.rest.take(n as int);
            let opened = cfg.source.verified(after_words(drawn, n), roots);
            let (points, rows, end) = opened.unwrap();
            let values = Seq::new(
                points.len(),
                |i: int| dot_spec(weights, row_of(rows, weights.len(), i)),
            );
            let count = 1 + n + points.len();
            let powers = geometric(1, challenge(end.sponge), count);
            &&& s.root.words() == v.rest.take(4)
            &&& worked is Some
            &&& opened is Some
            &&& n <= drawn.rest.len()
            &&& s.update.ood_points == challenges(worked.unwrap().sponge, n)
            &&& s.update.in_points == points
            &&& s.update.scale == 1
            &&& s.update.ood_coeffs == powers.subrange(1, 1 + n as int)
            &&& s.update.in_coeffs == powers.skip(1 + n as int)
            &&& s.sum == dot_spec(
                powers,
                seq![sum] + Seq::new(n, |i: int| answers[i] as int) + values,
            )
            &&& s.view == end.draw()
        }),
{
    broadcast use {lemma_residue_canonical, lemma_fpow_canonical, lemma_fsum_canonical};

    if let Some(s) = cfg.switch_checked(roots, weights, sum, v) {
        let n = cfg.out_domain_samples as nat;
        law_words_are_read(v, 4);
        let (ws, v1) = v.read_all(4).unwrap();
        assert(s.root.words() =~= v.rest.take(4));
        let v2 = cfg.pow.verified(v1).unwrap();
        let drawn = v2.draw_many(n);
        law_fields_are_words(drawn, n);
        let (answers, v3) = drawn.read_fields(n).unwrap();
        lemma_challenges_len(v2.sponge, n);
        let (points, rows, end) = cfg.source.verified(v3, roots).unwrap();
        let values = Seq::new(
            points.len(),
            |i: int| dot_spec(weights, row_of(rows, weights.len(), i)),
        );
        let words = drawn.rest.take(n as int);
        assert(answers =~= Seq::new(n, |i: int| words[i] as int));
        assert(values =~= crate::code_switch::collapsed(rows, weights, points.len()));
        let count = 1 + n + points.len();
        let powers = geometric(1, challenge(end.sponge), count);
        let k = 1 + n as int;
        assert(fpow(challenge(end.sponge), 0) == 1);
        lemma_fmul_one(1);
        assert(powers[0] == 1);
        let (p0, p1, p2) = (seq![1int], powers.subrange(1, k), powers.skip(k));
        assert(powers =~= p0 + p1 + p2);
        assert(p2 =~= powers.subrange(k, k + points.len()));
        law_dot_concat(p0 + p1, p2, seq![sum] + answers, values);
        law_dot_concat(p0, p1, seq![sum], answers);
        assert(dot_spec(p0, seq![sum]) == fmul(1, sum)) by {
            let f = dot_terms(p0, seq![sum]);
            reveal_with_fuel(fsum, 2);
            assert(f(0) == fmul(1, sum));
            lemma_residue_id(fmul(1, sum));
        }
    }
}

/// A code-switch binds the claimed sum, as the sumcheck does.
#[verifier::spinoff_prover]
#[verifier::rlimit(60)]
pub proof fn law_switch_binds(
    cfg: &code_switch::Config,
    roots: Seq<Digest>,
    weights: Seq<int>,
    s: int,
    t: int,
    v: VerifierView,
)
    requires
        cfg.wf(),
        canonical(s),
        canonical(t),
    ensures
        cfg.switch_checked(roots, weights, s, v) is Some == cfg.switch_checked(
            roots,
            weights,
            t,
            v,
        ) is Some,
        cfg.switch_checked(roots, weights, s, v) matches Some(x) ==> {
            let y = cfg.switch_checked(roots, weights, t, v).unwrap();
            &&& x.root == y.root
            &&& x.update == y.update
            &&& x.view == y.view
            &&& canonical(x.sum)
            &&& canonical(y.sum)
            &&& x.sum == y.sum ==> s == t
        },
{
    broadcast use {lemma_residue_canonical, lemma_fsum_canonical};

    if let Some(x) = cfg.switch_checked(roots, weights, s, v) {
        let y = cfg.switch_checked(roots, weights, t, v).unwrap();
        law_switch_is_combination(cfg, roots, weights, s, v);
        if x.sum == y.sum {
            let n = cfg.out_domain_samples as nat;
            let v1 = v.read_all(4).unwrap().1;
            let v2 = cfg.pow.verified(v1).unwrap();
            let (answers, v3) = v2.draw_many(n).read_fields(n).unwrap();
            let (points, rows, v4) = cfg.source.verified(v3, roots).unwrap();
            let a = dot_spec(x.update.ood_coeffs, answers);
            let b = dot_spec(
                x.update.in_coeffs,
                crate::code_switch::collapsed(rows, weights, points.len()),
            );
            lemma_fmul_one(s);
            lemma_fmul_one(t);
            assert(fadd(fadd(s, a), b) == fadd(fadd(t, a), b));
            assert(fadd(fadd(s, a), b) == fadd(b, fadd(s, a)));
            assert(fadd(fadd(t, a), b) == fadd(b, fadd(t, a)));
            lemma_add_cancel(b, fadd(s, a), fadd(t, a));
            assert(fadd(s, a) == fadd(a, s) && fadd(t, a) == fadd(a, t));
            lemma_add_cancel(a, s, t);
        }
    }
}

/// The next word.
pub proof fn lemma_one_word(v: VerifierView)
    requires
        v.rest.len() > 0,
    ensures
        v.read() == Some((v.rest[0], after_words(v, 1))),
{
    assert(v.rest.take(0) =~= Seq::empty());
    assert(v.rest.skip(0) =~= v.rest);
    assert(v.sponge + words_bytes(Seq::empty()) =~= v.sponge);
    assert(after_words(v, 0) == v);
    lemma_after_one(v, 0);
}

/// A sumcheck with masks starts from the sum of the masks, which is read first, and the
/// claimed sum times a challenge drawn after it; one without masks from the claimed sum.
pub proof fn law_masked_start(cfg: &sumcheck::Config, sum: int, v: VerifierView)
    ensures
        cfg.begin_check(sum, v) matches Some((st, rlc)) ==> {
            &&& st.points.len() == 0
            &&& cfg.mode is ZeroKnowledge && cfg.num_rounds > 0 ==> {
                &&& v.rest.len() > 0
                &&& rlc == challenge(after_words(v, 1).sponge)
                &&& st.sum == fadd(v.rest[0] as int, fmul(rlc, sum))
                &&& st.view == after_words(v, 1).draw()
            }
            &&& !(cfg.mode is ZeroKnowledge && cfg.num_rounds > 0) ==> {
                &&& rlc == 1
                &&& st.sum == sum
                &&& st.view == v
            }
        },
{
    if v.rest.len() > 0 {
        lemma_one_word(v);
    }
}

/// How many words a slot reads.
pub open spec fn work_words(pow: proof_of_work::Config) -> nat {
    if pow.bits == 0 {
        0
    } else {
        1
    }
}

proof fn lemma_run_reads(cfg: &sumcheck::Config, start: CheckState, k: nat)
    requires
        cfg.wf(),
        canonical(start.sum),
    ensures
        cfg.check_run(start, k) matches Some(end) ==> {
            &&& canonical(end.sum)
            &&& end.points.len() == start.points.len() + k
            &&& end.view.rest.len() + k * (cfg.poly_len() - 1 + work_words(cfg.round_pow))
                == start.view.rest.len()
        },
    decreases k,
{
    broadcast use lemma_evaluate_canonical;

    let each = cfg.poly_len() - 1 + work_words(cfg.round_pow);
    if k == 0 {
        assert(0 * each == 0) by (nonlinear_arith);
    } else {
        let m = (k - 1) as nat;
        lemma_run_reads(cfg, start, m);
        if let Some(st) = cfg.check_run(start, m) {
            law_round_is_tied(cfg, st);
            if let Some(end) = cfg.check_step(st) {
                let poly = choose|poly: Seq<int>| ties(cfg, st, end, poly);
                assert(ties(cfg, st, end, poly));
                lemma_after_len(st.view, (poly.len() - 1) as nat);
                assert(k * each == m * each + each) by (nonlinear_arith)
                    requires
                        k == m + 1,
                ;
            }
        }
    }
}

/// A sumcheck draws one challenge per round and reads one polynomial per round, all its
/// coefficients but one, with the work of every round; the sum of the masks, if any,
/// comes first.
pub proof fn law_sumcheck_reads(cfg: &sumcheck::Config, sum: int, v: VerifierView)
    requires
        cfg.wf(),
        canonical(sum),
    ensures
        cfg.checked(sum, v) matches Some((end, rlc)) ==> {
            &&& end.points.len() == cfg.num_rounds
            &&& canonical(end.sum)
            &&& end.view.rest.len() + cfg.num_rounds * (cfg.poly_len() - 1 + work_words(
                cfg.round_pow,
            )) + (if cfg.mode is ZeroKnowledge && cfg.num_rounds > 0 {
                1nat
            } else {
                0nat
            }) == v.rest.len()
        },
{
    broadcast use lemma_residue_canonical;

    law_masked_start(cfg, sum, v);
    if let Some((st, rlc)) = cfg.begin_check(sum, v) {
        lemma_run_reads(cfg, st, cfg.num_rounds as nat);
    }
}

/// Work that is accepted was done on the transcript so far: the next word, hashed with
/// it, gives a number with as many leading zero bits as the slot asks for. The word is
/// then part of the transcript.
pub proof fn law_work_is_done(pow: proof_of_work::Config, v: VerifierView)
    requires
        pow.bits <= 64,
    ensures
        pow.bits == 0 ==> pow.verified(v) == Some(v),
        pow.bits > 0 ==> match pow.verified(v) {
            None => v.rest.len() == 0 || le_value(
                sponge_output(
                    v.sponge + word_bytes(pow.hash_id.number) + word_bytes(v.rest[0]),
                    8,
                ),
            ) * pow2(pow.bits as nat) >= 0x1_0000_0000_0000_0000,
            Some(next) => {
                &&& v.rest.len() > 0
                &&& next == after_words(v, 1)
                &&& le_value(
                    sponge_output(
                        v.sponge + word_bytes(pow.hash_id.number) + word_bytes(v.rest[0]),
                        8,
                    ),
                ) * pow2(pow.bits as nat) < 0x1_0000_0000_0000_0000
            },
        },
{
    if pow.bits > 0 && v.rest.len() > 0 {
        lemma_one_word(v);
        let h = nonce_hash(pow.hash_id, v.sponge, v.rest[0]) as int;
        let b = pow.bits as nat;
        let c = (64 - b) as nat;
        crate::arith::lemma_pow2_sum(c, b);
        vstd::arithmetic::power2::lemma2_to64();
        let (p, q) = (pow2(c) as int, pow2(b) as int);
        assert(p * q == 0x1_0000_0000_0000_0000);
        assert(p >= 1);
        lemma_pow2_pos(b);
        if h <= p - 1 {
            assert(h * q < p * q) by (nonlinear_arith)
                requires
                    h < p,
                    q > 0,
            ;
        } else {
            assert(h * q >= p * q) by (nonlinear_arith)
                requires
                    h >= p,
                    q > 0,
            ;
        }
    }
}

/// A blinded opening: the root of the blinding is read first and the blinding's own
/// product next; the opened commitments are combined by one and a challenge drawn after
/// the work on both, which is not zero; and so are the product and the claimed sum. One
/// that is not blinded stays as it is.
pub proof fn law_blinding_shows(cfg: &basecase::Config, root: Digest, sum: int, v: VerifierView)
    ensures
        cfg.blind_received(root, sum, v) matches Some(b) ==> {
            &&& !(cfg.mode is ZeroKnowledge) ==> {
                &&& b.roots == seq![root]
                &&& b.weights == seq![1int]
                &&& b.sum == sum
                &&& b.view == v
            }
            &&& cfg.mode is ZeroKnowledge ==> {
                let worked = cfg.pow.verified(after_words(v, 5));
                let gamma = challenge(worked.unwrap().sponge);
                &&& v.rest.len() >= 5
                &&& worked is Some
                &&& gamma != 0
                &&& b.roots.len() == 2
                &&& b.roots[0].words() == v.rest.take(4)
                &&& b.roots[1] == root
                &&& b.weights == seq![1int, gamma]
                &&& b.sum == fadd(v.rest[4] as int, fmul(gamma, sum))
                &&& b.view == worked.unwrap().draw()
            }
        },
{
    if cfg.mode is ZeroKnowledge && cfg.blind_received(root, sum, v) is Some {
        law_words_are_read(v, 4);
        let (ws, v1) = v.read_all(4).unwrap();
        lemma_after_len(v, 4);
        lemma_one_word(v1);
        lemma_join_words(v, 4, 1);
        assert(v1.rest[0] == v.rest[4]);
        let b = cfg.blind_received(root, sum, v).unwrap();
        assert(b.roots[0].words() =~= v.rest.take(4));
    }
}

/// The values of words, from position `at` on.
pub open spec fn word_values(words: Seq<u64>, at: nat, n: nat) -> Seq<int> {
    Seq::new(n, |i: int| words[at + i] as int)
}

proof fn lemma_two_reads(v: VerifierView, a: nat, b: nat)
    ensures
        (v.read_fields(a) is Some && v.read_fields(a).unwrap().1.read_fields(b) is Some) ==> {
            let (xs, v1) = v.read_fields(a).unwrap();
            let (ys, v2) = v1.read_fields(b).unwrap();
            &&& a + b <= v.rest.len()
            &&& xs == word_values(v.rest, 0, a)
            &&& ys == word_values(v.rest, a, b)
            &&& v2 == after_words(v, a + b)
            &&& all_canonical(xs)
            &&& all_canonical(ys)
        },
{
    if let Some((xs, v1)) = v.read_fields(a) {
        law_fields_are_words(v, a);
        lemma_read_fields_len(v, a);
        assert(xs =~= word_values(v.rest, 0, a));
        if let Some((ys, v2)) = v1.read_fields(b) {
            law_fields_are_words(v1, b);
            lemma_read_fields_len(v1, b);
            lemma_after_len(v, a);
            lemma_join_words(v, a, b);
            assert forall|i: int| 0 <= i < b implies ys[i] == word_values(v.rest, a, b)[i] by {
                assert(v1.rest[i] == v.rest[a + i]);
            }
            assert(ys =~= word_values(v.rest, a, b));
        }
    }
}

/// What is accepted of masks: their inner products and those of the fresh vectors are
/// read first. Then a challenge is drawn, and vectors are read of which every one has,
/// with its mask coefficients, the combined value of every opened row, and the combined
/// inner product. Fresh values count once, those of the masks as often as the challenge
/// says.
#[verifier::spinoff_prover]
#[verifier::rlimit(60)]
pub proof fn law_masks_are_shown(
    cfg: &mask_proximity::Config,
    root: Digest,
    covectors: Seq<int>,
    v: VerifierView,
)
    requires
        cfg.wf(),
    ensures
        cfg.checked(root, covectors, v) matches Some((xs, end)) ==> ({
            let k = cfg.num_masks as nat;
            let (n, l) = (cfg.flat_len(), cfg.flat_mask_len());
            let (size, len) = (cfg.size(), cfg.c_zk_commit.mode.mask_len());
            let worked = cfg.pow.verified(after_words(v, k + k));
            let gamma = challenge(worked.unwrap().sponge);
            let w = worked.unwrap().draw();
            let (z, m) = (word_values(w.rest, 0, n), word_values(w.rest, n, l));
            let opened = cfg.c_zk_commit.verified(after_words(w, n + l), seq![root]);
            let (points, rows, rest) = opened.unwrap();
            &&& k + k <= v.rest.len()
            &&& xs == word_values(v.rest, 0, k)
            &&& worked is Some
            &&& n + l <= w.rest.len()
            &&& opened is Some
            &&& rest == end
            &&& forall|i: int, j: int|
                0 <= i < points.len() && 0 <= j < k ==> fadd(
                    #[trigger] row_of(rows, 2 * k, i)[k + j],
                    fmul(gamma, row_of(rows, 2 * k, i)[j]),
                ) == evaluate(
                    z.subrange(j * size, j * size + size) + m.subrange(j * len, j * len + len),
                    points[i],
                )
            &&& forall|j: int|
                0 <= j < k ==> dot_spec(
                    z.subrange(j * size, j * size + size),
                    covectors.subrange(j * size, j * size + size),
                ) == fadd(
                    word_values(v.rest, k, k)[j],
                    fmul(gamma, #[trigger] word_values(v.rest, 0, k)[j]),
                )
        }),
{
    if let Some((xs, end)) = cfg.checked(root, covectors, v) {
        let k = cfg.num_masks as nat;
        let (n, l) = (cfg.flat_len(), cfg.flat_mask_len());
        lemma_two_reads(v, k, k);
        let (first, v1) = v.read_fields(k).unwrap();
        let (ys, v2) = v1.read_fields(k).unwrap();
        let w = cfg.pow.verified(v2).unwrap().draw();
        lemma_two_reads(w, n, l);
        let (z, v4) = w.read_fields(n).unwrap();
        let (m, v5) = v4.read_fields(l).unwrap();
        let (points, rows, rest) = cfg.c_zk_commit.verified(v5, seq![root]).unwrap();
        let gamma = challenge(cfg.pow.verified(v2).unwrap().sponge);
        let (size, len) = (cfg.size(), cfg.c_zk_commit.mode.mask_len());
        assert forall|i: int, j: int| 0 <= i < points.len() && 0 <= j < k implies fadd(
            #[trigger] row_of(rows, 2 * k, i)[k + j],
            fmul(gamma, row_of(rows, 2 * k, i)[j]),
        ) == evaluate(
            z.subrange(j * size, j * size + size) + m.subrange(j * len, j * len + len),
            points[i],
        ) by {
            assert(mask_proximity::entry_consistent(
                z,
                size,
                m,
                len,
                k,
                gamma,
                row_of(rows, 2 * k, i),
                points[i],
                j,
            ));
        }
        assert forall|j: int| 0 <= j < k implies dot_spec(
            z.subrange(j * size, j * size + size),
            covectors.subrange(j * size, j * size + size),
        ) == fadd(
            word_values(v.rest, k, k)[j],
            fmul(gamma, #[trigger] word_values(v.rest, 0, k)[j]),
        ) by {
            assert(fadd(ys[j], fmul(gamma, xs[j])) == fadd(ys[j], fmul(gamma, xs[j])));
        }
    }
}

} // verus!
