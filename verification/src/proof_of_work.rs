//! Grinding: a nonce whose hash under the transcript falls below a threshold.

use crate::transcript::{
    le_value, sponge_output, word_bytes, ProverState, ProverView, Sponge, VerificationError,
    VerifierState, VerifierView,
};
use crate::bits::{Bits, UNITS_PER_BIT};
use vstd::arithmetic::power2::{
    lemma2_to64, lemma_pow2_adds, lemma_pow2_pos, lemma_pow2_unfold, pow2,
};
use vstd::prelude::*;

verus! {

/// The most work that a slot may ask for.
pub const MAX_DIFFICULTY: u32 = 60;

/// A hash engine. All work is judged by the transcript's sponge; the engine that is chosen
/// is bound into it, so that the work for one is none for another.
#[derive(Clone, Copy, Debug, PartialEq, Eq, Structural)]
pub struct HashId {
    pub number: u64,
}

impl HashId {
    /// BLAKE3.
    pub open spec fn spec_blake3() -> Self {
        HashId { number: 0 }
    }

    /// BLAKE3.
    pub fn blake3() -> (r: Self)
        ensures
            r == HashId::spec_blake3(),
    {
        HashId { number: 0 }
    }

    /// SHA-2.
    pub open spec fn spec_sha2() -> Self {
        HashId { number: 1 }
    }

    /// SHA-2.
    pub fn sha2() -> (r: Self)
        ensures
            r == HashId::spec_sha2(),
    {
        HashId { number: 1 }
    }
}

/// A proof-of-work slot: a nonce is accepted if the first `bits` bits of its hash
/// are zero.
#[derive(Clone, Copy, Debug, PartialEq, Eq, Structural)]
pub struct Config {
    pub bits: u32,
    pub hash_id: HashId,
}

/// More work would be needed than a slot may ask for.
#[derive(Clone, Copy, Debug, PartialEq, Eq, Structural)]
pub struct PowError {
    pub required: Bits,
}

/// The hash that a nonce is judged by.
pub open spec fn nonce_hash(hash_id: HashId, sponge: Seq<u8>, nonce: u64) -> nat {
    le_value(sponge_output(sponge + word_bytes(hash_id.number) + word_bytes(nonce), 8))
}

/// The whole bits of work that close the gap from `analytic` to `target`, rounded
/// up.
pub open spec fn work_needed(target: Bits, analytic: Bits) -> nat {
    if analytic.micro >= target.micro {
        0
    } else {
        ((target.micro - analytic.micro + UNITS_PER_BIT - 1) / UNITS_PER_BIT as int) as nat
    }
}

impl Config {
    /// The largest accepted hash.
    pub open spec fn threshold(self) -> nat {
        if self.bits < 64 {
            (pow2((64 - self.bits) as nat) - 1) as nat
        } else {
            0
        }
    }

    /// Is the nonce accepted under a transcript in this state?
    pub open spec fn accepts(self, sponge: Seq<u8>, nonce: u64) -> bool {
        nonce_hash(self.hash_id, sponge, nonce) <= self.threshold()
    }

    /// The first accepted nonce from `from` on, or the last nonce if none is
    /// accepted.
    pub open spec fn first_accepted(self, sponge: Seq<u8>, from: u64) -> u64
        decreases u64::MAX - from,
    {
        if self.accepts(sponge, from) || from == u64::MAX {
            from
        } else {
            self.first_accepted(sponge, (from + 1) as u64)
        }
    }

    /// Is some nonce accepted under a transcript in this state?
    pub open spec fn has_solution(self, sponge: Seq<u8>) -> bool {
        exists|nonce: u64| #[trigger] self.accepts(sponge, nonce)
    }

    /// The prover's transcript after this slot: nothing is sent when every nonce
    /// would be accepted; the prover is stuck when none is.
    pub open spec fn proved(self, p: ProverView) -> ProverView {
        if self.bits == 0 {
            p
        } else {
            let nonce = self.first_accepted(p.sponge, 0);
            ProverView { stuck: p.stuck || !self.accepts(p.sponge, nonce), ..p.send(nonce) }
        }
    }

    /// The verifier's transcript after this slot; `None` if it is not met.
    pub open spec fn verified(self, v: VerifierView) -> Option<VerifierView> {
        if self.bits == 0 {
            Some(v)
        } else {
            match v.read() {
                None => None,
                Some((nonce, next)) => if self.accepts(v.sponge, nonce) {
                    Some(next)
                } else {
                    None
                },
            }
        }
    }

    /// The slot without work.
    pub open spec fn spec_none() -> Self {
        Config { bits: 0, hash_id: HashId::spec_blake3() }
    }

    /// The slot without work.
    pub fn none() -> (r: Self)
        ensures
            r == Config::spec_none(),
    {
        Config { bits: 0, hash_id: HashId::blake3() }
    }

    /// How hard the slot is.
    pub fn difficulty(&self) -> (r: Bits)
        ensures
            r == Bits::spec_whole(self.bits),
    {
        Bits::whole(self.bits)
    }

    /// The slot that lifts `analytic` to `target`: the gap in whole bits, rounded up;
    /// an error if that is more than a slot may ask for.
    pub fn grind_to(target: Bits, analytic: Bits, hash_id: HashId) -> (r: Result<Config, PowError>)
        ensures
            work_needed(target, analytic) <= MAX_DIFFICULTY ==> r is Ok && r->Ok_0.bits == work_needed(
                target,
                analytic,
            ) && r->Ok_0.hash_id == hash_id,
            work_needed(target, analytic) > MAX_DIFFICULTY ==> r is Err && r->Err_0.required.micro
                == target.micro - analytic.micro,
    {
        if analytic.micro >= target.micro {
            return Ok(Config { bits: 0, hash_id });
        }
        let gap: u64 = target.micro - analytic.micro;
        let whole: u64 = gap / UNITS_PER_BIT;
        let bits: u64 = if gap % UNITS_PER_BIT == 0 {
            whole
        } else {
            whole + 1
        };
        if bits <= MAX_DIFFICULTY as u64 {
            Ok(Config { bits: bits as u32, hash_id })
        } else {
            Err(PowError { required: Bits::new(gap) })
        }
    }

    fn threshold_exec(&self) -> (r: u64)
        ensures
            r == self.threshold(),
    {
        if self.bits >= 64 {
            return 0;
        }
        let mut r: u64 = u64::MAX;
        proof {
            lemma2_to64();
            lemma_pow2_adds(32, 32);
        }
        for i in 0..self.bits
            invariant
                self.bits < 64,
                r == pow2((64 - i) as nat) - 1,
        {
            proof {
                lemma_pow2_unfold((64 - i) as nat);
                lemma_pow2_pos((64 - (i + 1)) as nat);
            }
            r = r / 2;
        }
        r
    }

    fn accepts_exec(&self, sponge: &Sponge, nonce: u64) -> (r: bool)
        ensures
            r == self.accepts(sponge@, nonce),
    {
        let mut trial: Sponge = sponge.duplicate();
        trial.absorb_word(self.hash_id.number);
        trial.absorb_word(nonce);
        trial.squeeze_word() <= self.threshold_exec()
    }

    /// Find a nonce and send it. Where no nonce is accepted the prover is stuck.
    pub fn prove(&self, ps: &mut ProverState)
        ensures
            final(ps)@ == self.proved(old(ps)@),
    {
        if self.bits == 0 {
            return;
        }
        let mut nonce: u64 = 0;
        while !self.accepts_exec(&ps.sponge, nonce) && nonce < u64::MAX
            invariant
                ps@ == old(ps)@,
                self.first_accepted(ps@.sponge, nonce) == self.first_accepted(ps@.sponge, 0),
            decreases u64::MAX - nonce,
        {
            nonce = nonce + 1;
        }
        if !self.accepts_exec(&ps.sponge, nonce) {
            ps.stuck = true;
        }
        ps.send_word(nonce);
    }

    /// Read a nonce and judge it.
    pub fn verify(&self, vs: &mut VerifierState) -> (r: Result<(), VerificationError>)
        ensures
            match self.verified(old(vs)@) {
                Some(next) => r is Ok && final(vs)@ == next,
                None => r is Err,
            },
    {
        if self.bits == 0 {
            return Ok(());
        }
        let before: Sponge = vs.sponge.duplicate();
        match vs.read_word() {
            Ok(nonce) => if self.accepts_exec(&before, nonce) {
                Ok(())
            } else {
                Err(VerificationError)
            },
            Err(e) => Err(e),
        }
    }
}

proof fn lemma_first_accepted(cfg: Config, sponge: Seq<u8>, from: u64, nonce: u64)
    requires
        from <= nonce,
        cfg.accepts(sponge, nonce),
    ensures
        cfg.accepts(sponge, cfg.first_accepted(sponge, from)),
    decreases u64::MAX - from,
{
    if !cfg.accepts(sponge, from) && from < u64::MAX {
        lemma_first_accepted(cfg, sponge, (from + 1) as u64, nonce);
    }
}

/// Where a slot has a solution, the nonce that the prover sends is one.
pub proof fn lemma_first_accepted_is_accepted(cfg: Config, sponge: Seq<u8>)
    requires
        cfg.has_solution(sponge),
    ensures
        cfg.accepts(sponge, cfg.first_accepted(sponge, 0)),
{
    let nonce = choose|nonce: u64| #[trigger] cfg.accepts(sponge, nonce);
    lemma_first_accepted(cfg, sponge, 0, nonce);
}

} // verus!
