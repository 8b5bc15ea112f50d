//! The Fiat-Shamir transcript.
//!
//! Both parties drive a [`Sponge`]: prover messages are absorbed, verifier
//! challenges are squeezed. A squeeze also ratchets: 32 bytes of output under a
//! separating byte replace what was absorbed so far. The proof string is a sequence of words, in
//! the order in which they were absorbed.

use crate::field::{lemma_residue_id, lemma_vals_push, residue, vals, Field64, MODULUS};
use spongefish::DuplexSpongeInterface;
use vstd::prelude::*;

verus! {

/// The number of output bytes that a squeeze keeps as the sponge's new state.
pub const RATCHET_BYTES: usize = 32;

/// The byte that separates the output kept from the output given.
pub const RATCHET_TAG: u8 = 1;

/// The byte at position `i` of the output stream of the SHAKE-128 sponge that has
/// absorbed the given bytes.
pub uninterp spec fn sponge_byte(absorbed: Seq<u8>, i: nat) -> u8;

/// The first `len` bytes of the output stream.
pub open spec fn sponge_output(absorbed: Seq<u8>, len: nat) -> Seq<u8> {
    Seq::new(len, |i: int| sponge_byte(absorbed, i as nat))
}

/// Calls `spongefish::instantiations::Shake128`: a fresh sponge absorbs the given
/// bytes and `len` bytes are squeezed from it. The output is a stream that depends
/// on what was absorbed alone, of which a squeeze returns a prefix.
#[verifier::external_body]
fn shake128(absorbed: &[u8], len: usize) -> (out: Vec<u8>)
    ensures
        out@ == Seq::new(len as nat, |i: int| sponge_byte(absorbed@, i as nat)),
{
    let mut sponge = spongefish::instantiations::Shake128::default();
    let mut out = vec![0u8; len];
    sponge.absorb(absorbed).squeeze(&mut out);
    out
}

/// The eight bytes of a word, least significant first.
pub open spec fn word_bytes(w: u64) -> Seq<u8> {
    seq![
        (w % 256) as u8,
        (w / 0x100 % 256) as u8,
        (w / 0x1_0000 % 256) as u8,
        (w / 0x100_0000 % 256) as u8,
        (w / 0x1_0000_0000 % 256) as u8,
        (w / 0x100_0000_0000 % 256) as u8,
        (w / 0x1_0000_0000_0000 % 256) as u8,
        (w / 0x100_0000_0000_0000 % 256) as u8,
    ]
}

/// The bytes of a run of words.
pub open spec fn words_bytes(ws: Seq<u64>) -> Seq<u8>
    decreases ws.len(),
{
    if ws.len() == 0 {
        Seq::empty()
    } else {
        words_bytes(ws.drop_last()) + word_bytes(ws.last())
    }
}

/// The integer that a run of bytes spells, least significant first.
pub open spec fn le_value(bytes: Seq<u8>) -> nat
    decreases bytes.len(),
{
    if bytes.len() == 0 {
        0
    } else {
        bytes[0] as nat + 256 * le_value(bytes.drop_first())
    }
}

/// What a squeeze of `n` bytes returns.
pub open spec fn squeezed(st: Seq<u8>, n: nat) -> Seq<u8> {
    sponge_output(st, n)
}

/// The sponge's state after a squeeze.
pub open spec fn ratcheted(st: Seq<u8>) -> Seq<u8> {
    sponge_output(st.push(RATCHET_TAG), RATCHET_BYTES as nat)
}

/// The field challenge that a sponge in this state gives.
pub open spec fn challenge(st: Seq<u8>) -> int {
    residue(le_value(squeezed(st, 16)) as int)
}

/// The sponge's state after a field challenge.
pub open spec fn after_challenge(st: Seq<u8>) -> Seq<u8> {
    ratcheted(st)
}

/// The next `n` field challenges.
pub open spec fn challenges(st: Seq<u8>, n: nat) -> Seq<int>
    decreases n,
{
    if n == 0 {
        Seq::empty()
    } else {
        challenges(st, (n - 1) as nat).push(challenge(after_challenges(st, (n - 1) as nat)))
    }
}

/// The sponge's state after `n` field challenges.
pub open spec fn after_challenges(st: Seq<u8>, n: nat) -> Seq<u8>
    decreases n,
{
    if n == 0 {
        st
    } else {
        after_challenge(after_challenges(st, (n - 1) as nat))
    }
}

/// A source of verifier challenges: a sponge, or bytes recorded in advance.
pub trait ChallengeSource {
    /// What the coming challenges depend on.
    spec fn state(&self) -> Seq<u8>;

    /// The next `n` bytes of a source in this state; `None` if it has fewer left.
    spec fn output(st: Seq<u8>, n: nat) -> Option<Seq<u8>>;

    /// The state after the next `n` bytes were drawn.
    spec fn next_state(st: Seq<u8>, n: nat) -> Seq<u8>;

    /// Draw the next `n` bytes.
    fn squeeze(&mut self, n: usize) -> (r: Option<Vec<u8>>)
        ensures
            r is Some <==> Self::output(old(self).state(), n as nat) is Some,
            r matches Some(bytes) ==> bytes@ == Self::output(old(self).state(), n as nat).unwrap()
                && bytes@.len() == n && final(self).state() == Self::next_state(
                old(self).state(),
                n as nat,
            ),
            r is None ==> final(self).state() == old(self).state(),
    ;
}

/// Challenge bytes recorded in advance.
#[derive(Debug)]
pub struct RecordedBytes {
    bytes: Vec<u8>,
}

impl RecordedBytes {
    /// A source that gives out these bytes, in this order.
    pub fn new(bytes: Vec<u8>) -> (r: Self)
        ensures
            r.state() == bytes@,
    {
        RecordedBytes { bytes }
    }
}

impl ChallengeSource for RecordedBytes {
    closed spec fn state(&self) -> Seq<u8> {
        self.bytes@
    }

    open spec fn output(st: Seq<u8>, n: nat) -> Option<Seq<u8>> {
        if n <= st.len() {
            Some(st.take(n as int))
        } else {
            None
        }
    }

    open spec fn next_state(st: Seq<u8>, n: nat) -> Seq<u8> {
        st.skip(n as int)
    }

    fn squeeze(&mut self, n: usize) -> (r: Option<Vec<u8>>) {
        if n > self.bytes.len() {
            return None;
        }
        let ghost before = self.bytes@;
        let rest: Vec<u8> = self.bytes.split_off(n);
        let mut drawn: Vec<u8> = rest;
        std::mem::swap(&mut drawn, &mut self.bytes);
        assert(drawn@ == before.take(n as int));
        assert(self.bytes@ == before.skip(n as int));
        Some(drawn)
    }
}

/// The sponge that both parties drive. Its view is what its coming output depends
/// on.
#[derive(Debug)]
pub struct Sponge {
    absorbed: Vec<u8>,
}

impl View for Sponge {
    type V = Seq<u8>;

    closed spec fn view(&self) -> Seq<u8> {
        self.absorbed@
    }
}

impl ChallengeSource for Sponge {
    open spec fn state(&self) -> Seq<u8> {
        self@
    }

    open spec fn output(st: Seq<u8>, n: nat) -> Option<Seq<u8>> {
        Some(squeezed(st, n))
    }

    open spec fn next_state(st: Seq<u8>, n: nat) -> Seq<u8> {
        ratcheted(st)
    }

    fn squeeze(&mut self, n: usize) -> (r: Option<Vec<u8>>) {
        Some(self.squeeze_bytes(n))
    }
}

impl Sponge {
    /// A sponge that has absorbed the given bytes.
    pub fn new(label: &[u8]) -> (r: Self)
        ensures
            r@ == label@,
    {
        let mut absorbed: Vec<u8> = Vec::new();
        for i in 0..label.len()
            invariant
                absorbed@ == label@.take(i as int),
        {
            absorbed.push(label[i]);
            assert(label@.take(i + 1) == label@.take(i as int).push(label@[i as int]));
        }
        assert(label@.take(label@.len() as int) == label@);
        Sponge { absorbed }
    }

    /// Absorb a word.
    pub fn absorb_word(&mut self, w: u64)
        ensures
            final(self)@ == old(self)@ + word_bytes(w),
    {
        self.absorbed.push((w % 256) as u8);
        self.absorbed.push((w / 0x100 % 256) as u8);
        self.absorbed.push((w / 0x1_0000 % 256) as u8);
        self.absorbed.push((w / 0x100_0000 % 256) as u8);
        self.absorbed.push((w / 0x1_0000_0000 % 256) as u8);
        self.absorbed.push((w / 0x100_0000_0000 % 256) as u8);
        self.absorbed.push((w / 0x1_0000_0000_0000 % 256) as u8);
        self.absorbed.push((w / 0x100_0000_0000_0000 % 256) as u8);
        assert(self@ =~= old(self)@ + word_bytes(w));
    }

    /// Squeeze `n` bytes and ratchet.
    pub fn squeeze_bytes(&mut self, n: usize) -> (r: Vec<u8>)
        ensures
            r@ == squeezed(old(self)@, n as nat),
            r@.len() == n,
            final(self)@ == ratcheted(old(self)@),
    {
        let drawn: Vec<u8> = shake128(self.absorbed.as_slice(), n);
        self.absorbed.push(RATCHET_TAG);
        self.absorbed = shake128(self.absorbed.as_slice(), RATCHET_BYTES);
        drawn
    }

    /// A sponge in the same state.
    pub fn duplicate(&self) -> (r: Sponge)
        ensures
            r@ == self@,
    {
        Sponge::new(self.absorbed.as_slice())
    }

    /// The word that the first eight output bytes spell.
    pub fn squeeze_word(&self) -> (r: u64)
        ensures
            r == le_value(sponge_output(self@, 8)),
    {
        let bytes: Vec<u8> = shake128(self.absorbed.as_slice(), 8);
        let w: u64 = le_word(bytes.as_slice(), 0);
        assert(bytes@.subrange(0, 8) == bytes@);
        w
    }

    /// The first `n` output bytes.
    pub fn peek(&self, n: usize) -> (r: Vec<u8>)
        ensures
            r@ == sponge_output(self@, n as nat),
    {
        shake128(self.absorbed.as_slice(), n)
    }

    /// Draw a field challenge.
    pub fn challenge_field(&mut self) -> (r: Field64)
        ensures
            r@ == challenge(old(self)@),
            final(self)@ == after_challenge(old(self)@),
    {
        let bytes: Vec<u8> = self.squeeze_bytes(16);
        let mut acc: u128 = 0;
        let mut i: usize = 16;
        while i > 0
            invariant
                i <= 16,
                bytes@.len() == 16,
                acc == le_value(bytes@.skip(i as int)),
                acc < byte_bound((16 - i) as nat),
            decreases i,
        {
            i = i - 1;
            proof {
                let tail = bytes@.skip(i as int);
                assert(tail.drop_first() == bytes@.skip(i + 1));
                assert(tail[0] == bytes@[i as int]);
                reveal_with_fuel(byte_bound, 17);
                lemma_byte_bound((16 - i) as nat);
            }
            acc = (bytes[i] as u128) + 256 * acc;
        }
        assert(bytes@.skip(0) == bytes@);
        proof {
            reveal(residue);
        }
        Field64::new((acc % (MODULUS as u128)) as u64)
    }

    /// Draw `n` field challenges.
    pub fn challenge_fields(&mut self, n: usize) -> (r: Vec<Field64>)
        ensures
            vals(r@) == challenges(old(self)@, n as nat),
            final(self)@ == after_challenges(old(self)@, n as nat),
    {
        let mut out: Vec<Field64> = Vec::new();
        for i in 0..n
            invariant
                vals(out@) == challenges(old(self)@, i as nat),
                self@ == after_challenges(old(self)@, i as nat),
        {
            let c: Field64 = self.challenge_field();
            proof {
                lemma_vals_push(out@, c);
            }
            out.push(c);
        }
        out
    }
}

/// The prover's transcript as a mathematical value: the sponge, the words sent so
/// far, the private randomness to come, and whether some work could not be done.
pub struct ProverView {
    pub sponge: Seq<u8>,
    pub sent: Seq<u64>,
    pub coins: Seq<u8>,
    pub stuck: bool,
}

/// The verifier's transcript as a mathematical value: the sponge and the words of
/// the proof that were not read yet.
pub struct VerifierView {
    pub sponge: Seq<u8>,
    pub rest: Seq<u64>,
}

impl ProverView {
    /// After a word was sent.
    pub open spec fn send(self, w: u64) -> ProverView {
        ProverView { sponge: self.sponge + word_bytes(w), sent: self.sent.push(w), ..self }
    }

    /// After words were sent.
    pub open spec fn send_all(self, ws: Seq<u64>) -> ProverView
        decreases ws.len(),
    {
        if ws.len() == 0 {
            self
        } else {
            self.send_all(ws.drop_last()).send(ws.last())
        }
    }

    /// After a field element was sent.
    pub open spec fn send_field(self, x: int) -> ProverView {
        self.send(x as u64)
    }

    /// After field elements were sent.
    pub open spec fn send_fields(self, xs: Seq<int>) -> ProverView
        decreases xs.len(),
    {
        if xs.len() == 0 {
            self
        } else {
            self.send_fields(xs.drop_last()).send_field(xs.last())
        }
    }

    /// After a field challenge was drawn.
    pub open spec fn draw(self) -> ProverView {
        ProverView { sponge: after_challenge(self.sponge), ..self }
    }

    /// After `n` field challenges were drawn.
    pub open spec fn draw_many(self, n: nat) -> ProverView {
        ProverView { sponge: after_challenges(self.sponge, n), ..self }
    }

    /// After `n` private random field elements were drawn.
    pub open spec fn toss(self, n: nat) -> ProverView {
        ProverView { coins: after_challenges(self.coins, n), ..self }
    }
}

impl VerifierView {
    /// The word read next, and the transcript after it.
    pub open spec fn read(self) -> Option<(u64, VerifierView)> {
        if self.rest.len() == 0 {
            None
        } else {
            Some(
                (
                    self.rest[0],
                    VerifierView {
                        sponge: self.sponge + word_bytes(self.rest[0]),
                        rest: self.rest.drop_first(),
                    },
                ),
            )
        }
    }

    /// The field element read next: a word below the field's order.
    pub open spec fn read_field(self) -> Option<(int, VerifierView)> {
        match self.read() {
            Some((w, next)) => if w < MODULUS {
                Some((w as int, next))
            } else {
                None
            },
            None => None,
        }
    }

    /// The `n` field elements read next.
    pub open spec fn read_fields(self, n: nat) -> Option<(Seq<int>, VerifierView)>
        decreases n,
    {
        if n == 0 {
            Some((Seq::empty(), self))
        } else {
            match self.read_fields((n - 1) as nat) {
                None => None,
                Some((xs, mid)) => match mid.read_field() {
                    None => None,
                    Some((x, next)) => Some((xs.push(x), next)),
                },
            }
        }
    }

    /// The `n` words read next.
    pub open spec fn read_all(self, n: nat) -> Option<(Seq<u64>, VerifierView)>
        decreases n,
    {
        if n == 0 {
            Some((Seq::empty(), self))
        } else {
            match self.read_all((n - 1) as nat) {
                None => None,
                Some((ws, mid)) => match mid.read() {
                    None => None,
                    Some((w, next)) => Some((ws.push(w), next)),
                },
            }
        }
    }

    /// After a field challenge was drawn.
    pub open spec fn draw(self) -> VerifierView {
        VerifierView { sponge: after_challenge(self.sponge), rest: self.rest }
    }

    /// After `n` field challenges were drawn.
    pub open spec fn draw_many(self, n: nat) -> VerifierView {
        VerifierView { sponge: after_challenges(self.sponge, n), rest: self.rest }
    }
}

/// A proof that does not verify.
#[derive(Clone, Copy, Debug, PartialEq, Eq, Structural)]
pub struct VerificationError;

/// The prover's end of the transcript. It is stuck once a proof-of-work slot had no
/// nonce that is accepted; what was sent is then no proof.
#[derive(Debug)]
pub struct ProverState {
    pub sponge: Sponge,
    pub narg: Vec<u64>,
    pub coins: Sponge,
    pub stuck: bool,
}

impl View for ProverState {
    type V = ProverView;

    open spec fn view(&self) -> ProverView {
        ProverView {
            sponge: self.sponge@,
            sent: self.narg@,
            coins: self.coins@,
            stuck: self.stuck,
        }
    }
}

impl ProverState {
    /// A transcript bound to `label`, whose private randomness expands `seed`.
    pub fn new(label: &[u8], seed: &[u8]) -> (r: Self)
        ensures
            r@ == (ProverView { sponge: label@, sent: Seq::empty(), coins: seed@, stuck: false }),
    {
        ProverState {
            sponge: Sponge::new(label),
            narg: Vec::new(),
            coins: Sponge::new(seed),
            stuck: false,
        }
    }

    /// Send a word.
    pub fn send_word(&mut self, w: u64)
        ensures
            final(self)@ == old(self)@.send(w),
    {
        self.sponge.absorb_word(w);
        self.narg.push(w);
    }

    /// Send words.
    pub fn send_words(&mut self, ws: &[u64])
        ensures
            final(self)@ == old(self)@.send_all(ws@),
    {
        assert(ws@.take(0) == Seq::<u64>::empty());
        for i in 0..ws.len()
            invariant
                self@ == old(self)@.send_all(ws@.take(i as int)),
        {
            self.send_word(ws[i]);
            assert(ws@.take(i + 1).drop_last() == ws@.take(i as int));
        }
        assert(ws@.take(ws@.len() as int) == ws@);
    }

    /// Send a field element.
    pub fn prover_message(&mut self, x: Field64)
        ensures
            final(self)@ == old(self)@.send_field(x@),
    {
        self.send_word(x.to_u64());
    }

    /// Send field elements.
    pub fn prover_messages(&mut self, xs: &[Field64])
        ensures
            final(self)@ == old(self)@.send_fields(vals(xs@)),
    {
        assert(vals(xs@).take(0) == Seq::<int>::empty());
        for i in 0..xs.len()
            invariant
                self@ == old(self)@.send_fields(vals(xs@).take(i as int)),
        {
            self.prover_message(xs[i]);
            assert(vals(xs@).take(i + 1).drop_last() == vals(xs@).take(i as int));
        }
        assert(vals(xs@).take(xs@.len() as int) == vals(xs@));
    }

    /// Draw a field challenge.
    pub fn verifier_message(&mut self) -> (r: Field64)
        ensures
            r@ == challenge(old(self)@.sponge),
            final(self)@ == old(self)@.draw(),
    {
        self.sponge.challenge_field()
    }

    /// Draw `n` field challenges.
    pub fn verifier_message_vec(&mut self, n: usize) -> (r: Vec<Field64>)
        ensures
            vals(r@) == challenges(old(self)@.sponge, n as nat),
            final(self)@ == old(self)@.draw_many(n as nat),
    {
        self.sponge.challenge_fields(n)
    }

    /// Draw `n` private random field elements.
    pub fn random_vector(&mut self, n: usize) -> (r: Vec<Field64>)
        ensures
            vals(r@) == challenges(old(self)@.coins, n as nat),
            final(self)@ == old(self)@.toss(n as nat),
    {
        self.coins.challenge_fields(n)
    }
}

/// A proof and how far it was read.
#[derive(Debug)]
pub struct NargReader {
    words: Vec<u64>,
    pos: usize,
}

impl View for NargReader {
    type V = Seq<u64>;

    closed spec fn view(&self) -> Seq<u64> {
        self.words@.skip(self.pos as int)
    }
}

impl NargReader {
    #[verifier::type_invariant]
    spec fn position_in_range(&self) -> bool {
        self.pos <= self.words.len()
    }

    /// A reader at the start of a proof.
    pub fn new(words: Vec<u64>) -> (r: Self)
        ensures
            r@ == words@,
    {
        let r = NargReader { words, pos: 0 };
        assert(words@.skip(0) == words@);
        r
    }

    /// The next word, if one is left.
    pub fn next_word(&mut self) -> (r: Option<u64>)
        ensures
            old(self)@.len() == 0 ==> r is None && final(self)@ == old(self)@,
            old(self)@.len() > 0 ==> r == Some(old(self)@[0]) && final(self)@ == old(self)@.drop_first(),
    {
        proof {
            use_type_invariant(&*self);
        }
        if self.pos >= self.words.len() {
            return None;
        }
        let w: u64 = self.words[self.pos];
        self.pos = self.pos + 1;
        assert(self@ =~= old(self)@.drop_first());
        Some(w)
    }

    /// Was every word read?
    pub fn at_end(&self) -> (r: bool)
        ensures
            r == (self@.len() == 0),
    {
        proof {
            use_type_invariant(self);
        }
        self.pos == self.words.len()
    }
}

/// The verifier's end of the transcript.
#[derive(Debug)]
pub struct VerifierState {
    pub sponge: Sponge,
    pub reader: NargReader,
}

impl View for VerifierState {
    type V = VerifierView;

    open spec fn view(&self) -> VerifierView {
        VerifierView { sponge: self.sponge@, rest: self.reader@ }
    }
}

impl VerifierState {
    /// A transcript bound to `label` that reads the given proof.
    pub fn new(label: &[u8], narg: Vec<u64>) -> (r: Self)
        ensures
            r@ == (VerifierView { sponge: label@, rest: narg@ }),
    {
        VerifierState { sponge: Sponge::new(label), reader: NargReader::new(narg) }
    }

    /// Read a word.
    pub fn read_word(&mut self) -> (r: Result<u64, VerificationError>)
        ensures
            match old(self)@.read() {
                Some((w, next)) => r == Ok::<u64, VerificationError>(w) && final(self)@ == next,
                None => r is Err && final(self)@ == old(self)@,
            },
    {
        match self.reader.next_word() {
            Some(w) => {
                self.sponge.absorb_word(w);
                Ok(w)
            },
            None => Err(VerificationError),
        }
    }

    /// Read `n` words.
    pub fn read_words(&mut self, n: usize) -> (r: Result<Vec<u64>, VerificationError>)
        ensures
            match old(self)@.read_all(n as nat) {
                Some((ws, next)) => r is Ok && r->Ok_0@ == ws && final(self)@ == next,
                None => r is Err,
            },
    {
        let mut out: Vec<u64> = Vec::new();
        for i in 0..n
            invariant
                old(self)@.read_all(i as nat) == Some((out@, self@)),
        {
            match self.read_word() {
                Ok(w) => {
                    out.push(w);
                },
                Err(e) => {
                    proof {
                        lemma_read_all_fails(old(self)@, (i + 1) as nat, n as nat);
                    }
                    return Err(e);
                },
            }
        }
        Ok(out)
    }

    /// Read a field element.
    pub fn prover_message(&mut self) -> (r: Result<Field64, VerificationError>)
        ensures
            match old(self)@.read_field() {
                Some((x, next)) => r is Ok && r->Ok_0@ == x && final(self)@ == next,
                None => r is Err,
            },
    {
        match self.read_word() {
            Ok(w) => if w < MODULUS {
                proof {
                    lemma_residue_id(w as int);
                }
                Ok(Field64::new(w))
            } else {
                Err(VerificationError)
            },
            Err(e) => Err(e),
        }
    }

    /// Read `n` field elements.
    pub fn prover_messages(&mut self, n: usize) -> (r: Result<Vec<Field64>, VerificationError>)
        ensures
            match old(self)@.read_fields(n as nat) {
                Some((xs, next)) => r is Ok && vals(r->Ok_0@) == xs && final(self)@ == next,
                None => r is Err,
            },
    {
        let mut out: Vec<Field64> = Vec::new();
        assert(vals(out@) =~= Seq::<int>::empty());
        for i in 0..n
            invariant
                old(self)@.read_fields(i as nat) == Some((vals(out@), self@)),
        {
            match self.prover_message() {
                Ok(x) => {
                    proof {
                        lemma_vals_push(out@, x);
                    }
                    out.push(x);
                },
                Err(e) => {
                    proof {
                        lemma_read_fields_fails(old(self)@, (i + 1) as nat, n as nat);
                    }
                    return Err(e);
                },
            }
        }
        Ok(out)
    }

    /// Draw a field challenge.
    pub fn verifier_message(&mut self) -> (r: Field64)
        ensures
            r@ == challenge(old(self)@.sponge),
            final(self)@ == old(self)@.draw(),
    {
        self.sponge.challenge_field()
    }

    /// Draw `n` field challenges.
    pub fn verifier_message_vec(&mut self, n: usize) -> (r: Vec<Field64>)
        ensures
            vals(r@) == challenges(old(self)@.sponge, n as nat),
            final(self)@ == old(self)@.draw_many(n as nat),
    {
        self.sponge.challenge_fields(n)
    }

    /// Was the whole proof read?
    pub fn check_eof(&self) -> (r: Result<(), VerificationError>)
        ensures
            r is Ok <==> self@.rest.len() == 0,
    {
        if self.reader.at_end() {
            Ok(())
        } else {
            Err(VerificationError)
        }
    }
}

proof fn lemma_read_all_fails(v: VerifierView, k: nat, n: nat)
    requires
        k <= n,
        v.read_all(k) is None,
    ensures
        v.read_all(n) is None,
    decreases n,
{
    if k < n {
        lemma_read_all_fails(v, k, (n - 1) as nat);
    }
}

proof fn lemma_read_fields_fails(v: VerifierView, k: nat, n: nat)
    requires
        k <= n,
        v.read_fields(k) is None,
    ensures
        v.read_fields(n) is None,
    decreases n,
{
    if k < n {
        lemma_read_fields_fails(v, k, (n - 1) as nat);
    }
}

/// The word that eight bytes from `at` on spell.
pub fn le_word(bytes: &[u8], at: usize) -> (r: u64)
    requires
        at + 8 <= bytes@.len(),
    ensures
        r == le_value(bytes@.subrange(at as int, at + 8)),
{
    let mut acc: u64 = 0;
    let mut i: usize = 8;
    let len: usize = bytes.len();
    let ghost eight = bytes@.subrange(at as int, at + 8);
    while i > 0
        invariant
            i <= 8,
            len == bytes@.len(),
            at + 8 <= bytes@.len(),
            eight == bytes@.subrange(at as int, at + 8),
            acc == le_value(eight.skip(i as int)),
            acc < byte_bound((8 - i) as nat),
        decreases i,
    {
        i = i - 1;
        proof {
            let tail = eight.skip(i as int);
            assert(tail.drop_first() == eight.skip(i + 1));
            assert(tail[0] == eight[i as int]);
            lemma_byte_bound((8 - i) as nat);
            reveal_with_fuel(byte_bound, 9);
        }
        acc = (bytes[at + i] as u64) + 256 * acc;
    }
    assert(eight.skip(0) == eight);
    acc
}

/// `256^n`.
spec fn byte_bound(n: nat) -> nat
    decreases n,
{
    if n == 0 {
        1
    } else {
        256 * byte_bound((n - 1) as nat)
    }
}

proof fn lemma_byte_bound(n: nat)
    requires
        0 < n <= 16,
    ensures
        byte_bound(n) <= 0x1_0000_0000_0000_0000_0000_0000_0000_0000,
        byte_bound(n) == 256 * byte_bound((n - 1) as nat),
{
    reveal_with_fuel(byte_bound, 18);
}

} // verus!
