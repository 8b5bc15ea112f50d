//! What the prover sends, the verifier reads.
//!
//! A verifier that reads the words of a prover that went on from `p` to `q` is in
//! the state [`pending`]. Every step that sends is answered by one that reads the
//! same values and leaves both sponges equal.

use crate::field::canonical;
use crate::proof_of_work;
use crate::transcript::{ProverView, VerifierView};
use vstd::prelude::*;

verus! {

/// Did a prover in state `p` go on to `q`, as far as the words it sent tell, and whether
/// it is stuck?
pub open spec fn follows(p: ProverView, q: ProverView) -> bool {
    &&& p.stuck ==> q.stuck
    &&& p.sent.len() <= q.sent.len()
    &&& q.sent.take(p.sent.len() as int) == p.sent
}

/// The verifier that has read what was sent up to `p`, with what was sent from
/// there to `q` and then `tail` still to read.
pub open spec fn pending(p: ProverView, q: ProverView, tail: Seq<u64>) -> VerifierView {
    VerifierView { sponge: p.sponge, rest: q.sent.skip(p.sent.len() as int) + tail }
}

/// `follows` is transitive.
pub proof fn lemma_follows_trans(p: ProverView, q: ProverView, r: ProverView)
    requires
        follows(p, q),
        follows(q, r),
    ensures
        follows(p, r),
{
    let n = p.sent.len() as int;
    assert(r.sent.take(n) =~= r.sent.take(q.sent.len() as int).take(n));
}

/// Every state follows itself.
pub proof fn lemma_follows_refl(p: ProverView)
    ensures
        follows(p, p),
{
    assert(p.sent.take(p.sent.len() as int) =~= p.sent);
}

/// Sending goes on.
pub proof fn lemma_follows_send(p: ProverView, w: u64)
    ensures
        follows(p, p.send(w)),
{
    assert(p.send(w).sent.take(p.sent.len() as int) =~= p.sent);
}

/// Sending goes on.
pub proof fn lemma_follows_send_fields(p: ProverView, xs: Seq<int>)
    ensures
        follows(p, p.send_fields(xs)),
    decreases xs.len(),
{
    if xs.len() == 0 {
        lemma_follows_refl(p);
    } else {
        let mid = p.send_fields(xs.drop_last());
        lemma_follows_send_fields(p, xs.drop_last());
        lemma_follows_send(mid, xs.last() as u64);
        lemma_follows_trans(p, mid, p.send_fields(xs));
    }
}

/// Sending goes on.
pub proof fn lemma_follows_send_all(p: ProverView, ws: Seq<u64>)
    ensures
        follows(p, p.send_all(ws)),
    decreases ws.len(),
{
    if ws.len() == 0 {
        lemma_follows_refl(p);
    } else {
        let mid = p.send_all(ws.drop_last());
        lemma_follows_send_all(p, ws.drop_last());
        lemma_follows_send(mid, ws.last());
        lemma_follows_trans(p, mid, p.send_all(ws));
    }
}

/// Drawing challenges or randomness sends nothing.
pub proof fn lemma_follows_draw(p: ProverView, n: nat)
    ensures
        follows(p, p.draw()),
        follows(p, p.draw_many(n)),
        follows(p, p.toss(n)),
{
    lemma_follows_refl(p);
}

/// A word that was sent is read.
pub proof fn law_read_word(p: ProverView, w: u64, q: ProverView, tail: Seq<u64>)
    requires
        follows(p.send(w), q),
    ensures
        pending(p, q, tail).read() == Some((w, pending(p.send(w), q, tail))),
{
    let n = p.sent.len() as int;
    let v = pending(p, q, tail);
    assert(q.sent[n] == w) by {
        assert(q.sent.take(n + 1)[n] == p.send(w).sent[n]);
    }
    assert(v.rest[0] == w);
    assert(v.rest.drop_first() =~= q.sent.skip(n + 1) + tail);
}

/// A field element that was sent is read.
pub proof fn law_read_field(p: ProverView, x: int, q: ProverView, tail: Seq<u64>)
    requires
        canonical(x),
        follows(p.send_field(x), q),
    ensures
        pending(p, q, tail).read_field() == Some((x, pending(p.send_field(x), q, tail))),
{
    law_read_word(p, x as u64, q, tail);
}

/// Field elements that were sent are read.
pub proof fn law_read_fields(p: ProverView, xs: Seq<int>, q: ProverView, tail: Seq<u64>)
    requires
        crate::field::all_canonical(xs),
        follows(p.send_fields(xs), q),
    ensures
        pending(p, q, tail).read_fields(xs.len()) == Some((xs, pending(p.send_fields(xs), q, tail))),
    decreases xs.len(),
{
    if xs.len() == 0 {
        assert(xs =~= Seq::<int>::empty());
    } else {
        let mid = p.send_fields(xs.drop_last());
        lemma_follows_send(mid, xs.last() as u64);
        lemma_follows_trans(mid, p.send_fields(xs), q);
        law_read_fields(p, xs.drop_last(), q, tail);
        law_read_field(mid, xs.last(), q, tail);
        assert(xs.drop_last().push(xs.last()) =~= xs);
    }
}

/// Words that were sent are read.
pub proof fn law_read_words(p: ProverView, ws: Seq<u64>, q: ProverView, tail: Seq<u64>)
    requires
        follows(p.send_all(ws), q),
    ensures
        pending(p, q, tail).read_all(ws.len()) == Some((ws, pending(p.send_all(ws), q, tail))),
    decreases ws.len(),
{
    if ws.len() == 0 {
        assert(ws =~= Seq::<u64>::empty());
    } else {
        let mid = p.send_all(ws.drop_last());
        lemma_follows_send(mid, ws.last());
        lemma_follows_trans(mid, p.send_all(ws), q);
        law_read_words(p, ws.drop_last(), q, tail);
        law_read_word(mid, ws.last(), q, tail);
        assert(ws.drop_last().push(ws.last()) =~= ws);
    }
}

/// Work that was done is accepted: all of it by a prover that is not stuck, and a slot
/// that asks for none in any case.
pub proof fn law_pow_accepted(cfg: proof_of_work::Config, p: ProverView, q: ProverView, tail: Seq<u64>)
    requires
        cfg.bits == 0 || !q.stuck,
        follows(cfg.proved(p), q),
    ensures
        follows(p, cfg.proved(p)),
        cfg.verified(pending(p, q, tail)) == Some(pending(cfg.proved(p), q, tail)),
{
    if cfg.bits == 0 {
        lemma_follows_refl(p);
    } else {
        let nonce = cfg.first_accepted(p.sponge, 0);
        lemma_follows_send(p, nonce);
        law_read_word(p, nonce, q, tail);
    }
}

/// Work goes on.
pub proof fn lemma_follows_pow(cfg: proof_of_work::Config, p: ProverView)
    ensures
        follows(p, cfg.proved(p)),
{
    if cfg.bits == 0 {
        lemma_follows_refl(p);
    } else {
        lemma_follows_send(p, cfg.first_accepted(p.sponge, 0));
    }
}

/// A prover is not stuck by a slot that asks for no work, or for which some nonce is
/// accepted.
pub proof fn law_work_is_found(cfg: proof_of_work::Config, p: ProverView)
    requires
        cfg.bits == 0 || cfg.has_solution(p.sponge),
    ensures
        cfg.proved(p).stuck == p.stuck,
{
    if cfg.bits > 0 {
        proof_of_work::lemma_first_accepted_is_accepted(cfg, p.sponge);
    }
}

/// Sending two runs is sending their concatenation.
pub proof fn lemma_send_all_concat(p: ProverView, a: Seq<u64>, b: Seq<u64>)
    ensures
        p.send_all(a + b) == p.send_all(a).send_all(b),
    decreases b.len(),
{
    if b.len() == 0 {
        assert(a + b =~= a);
    } else {
        lemma_send_all_concat(p, a, b.drop_last());
        assert((a + b).drop_last() =~= a + b.drop_last());
        assert((a + b).last() == b.last());
    }
}

} // verus!
