//! Interleaved Reed-Solomon commitments.
//!
//! Every vector is cut into `interleaving_depth` messages of one length; a message,
//! followed by its mask coefficients, is the polynomial whose values at the
//! codeword's points fill one column of a matrix. The rows are committed to, and
//! opened at random indices.

use crate::algebra::{evaluate, univariate_evaluate};
use crate::arith::next_pow2;
use crate::binding_laws::{law_opened_rows_lead_to_roots, leads_to_root, opened_row};
use crate::challenge_indices::{law_indices_in_range, sponge_indices, sponge_indices_drawn};
use crate::field::{all_canonical, fpow, lemma_residue_id, lemma_vals_push, vals, Field64, MODULUS};
use crate::matrix_commit;
use crate::matrix_commit::{paths_sent, root_of, row_of, rows_checked, Digest};
use crate::transcript::{
    challenges, ProverState, ProverView, Sponge, VerificationError, VerifierState, VerifierView,
};
use vstd::arithmetic::div_mod::{lemma_fundamental_div_mod, lemma_fundamental_div_mod_converse};
use vstd::prelude::*;

verus! {

/// The length of a mask: not zero.
#[derive(Clone, Copy, Debug, PartialEq, Eq, Structural)]
pub struct MaskLen {
    len: usize,
}

impl MaskLen {
    #[verifier::type_invariant]
    spec fn not_zero(self) -> bool {
        self.len != 0
    }

    /// The length.
    pub closed spec fn spec_get(self) -> usize {
        self.len
    }

    /// This length, unless it is zero.
    pub fn new(len: usize) -> (r: Option<Self>)
        ensures
            r is Some <==> len != 0,
            r matches Some(m) ==> m.spec_get() == len,
    {
        if len == 0 {
            None
        } else {
            Some(MaskLen { len })
        }
    }

    /// The length.
    pub fn get(self) -> (r: usize)
        ensures
            r == self.spec_get(),
            r != 0,
    {
        proof {
            use_type_invariant(&self);
        }
        self.len
    }
}

/// Whether messages are masked.
#[derive(Clone, Copy, Debug, PartialEq, Eq, Structural)]
pub enum IrsMode {
    Standard,
    ZeroKnowledge { mask_length: MaskLen },
}

impl IrsMode {
    /// Per-message mask length; zero in standard mode.
    pub open spec fn mask_len(self) -> nat {
        match self {
            IrsMode::Standard => 0,
            IrsMode::ZeroKnowledge { mask_length } => mask_length.spec_get() as nat,
        }
    }

    /// Per-message mask length; zero in standard mode.
    pub fn mask_length(&self) -> (r: usize)
        ensures
            r == self.mask_len(),
            r == 0 <==> self is Standard,
    {
        match self {
            IrsMode::Standard => 0,
            IrsMode::ZeroKnowledge { mask_length } => mask_length.get(),
        }
    }
}

/// Parameters of an interleaved Reed-Solomon commitment.
#[derive(Clone, Copy, Debug, PartialEq, Eq, Structural)]
pub struct Config {
    /// The number of vectors to commit to in one operation.
    pub num_vectors: usize,
    /// The number of coefficients in each vector.
    pub vector_size: usize,
    /// The number of Reed-Solomon evaluation points.
    pub codeword_length: usize,
    /// The number of independent codewords that are interleaved together.
    pub interleaving_depth: usize,
    /// The number of in-domain samples.
    pub in_domain_samples: usize,
    /// Whether to sort and deduplicate the in-domain samples.
    pub deduplicate_in_domain: bool,
    /// Standard or zero-knowledge.
    pub mode: IrsMode,
}

/// The prover's side of a commitment.
#[derive(Debug)]
pub struct Witness {
    pub masks: Vec<Field64>,
    pub matrix: Vec<Field64>,
    pub matrix_witness: matrix_commit::Witness,
}

/// The verifier's side of a commitment.
#[derive(Clone, Copy, Debug, PartialEq, Eq, Structural)]
pub struct Commitment {
    pub matrix_commitment: matrix_commit::Commitment,
}

/// Values of codewords at some points, one row per point; in the field, unless said
/// otherwise.
#[derive(Debug)]
pub struct Evaluations<F = Field64> {
    pub points: Vec<F>,
    pub matrix: Vec<F>,
}

/// The codeword length exceeds every order the field supports.
#[derive(Clone, Copy, Debug, PartialEq, Eq, Structural)]
pub struct CodewordLengthError {
    pub length: usize,
}

/// The generator of the multiplicative group.
pub const GENERATOR: u64 = 7;

/// The rows of several matrices side by side, for one row index.
pub open spec fn joined_row(subs: Seq<Seq<int>>, cols: nat, i: int, k: nat) -> Seq<int>
    decreases k,
{
    if k == 0 {
        Seq::empty()
    } else {
        joined_row(subs, cols, i, (k - 1) as nat) + row_of(subs[k - 1], cols, i)
    }
}

/// Several matrices side by side: their first `n` rows.
pub open spec fn joined(subs: Seq<Seq<int>>, cols: nat, n: nat) -> Seq<int>
    decreases n,
{
    if n == 0 {
        Seq::empty()
    } else {
        joined(subs, cols, (n - 1) as nat) + joined_row(subs, cols, n - 1, subs.len())
    }
}

/// The rows of a matrix at the first `n` indices.
pub open spec fn rows_at(matrix: Seq<int>, cols: nat, indices: Seq<usize>, n: nat) -> Seq<int>
    decreases n,
{
    if n == 0 {
        Seq::empty()
    } else {
        rows_at(matrix, cols, indices, (n - 1) as nat) + row_of(matrix, cols, indices[n - 1] as int)
    }
}

impl Config {
    /// The length of a message.
    pub open spec fn message_len(&self) -> nat {
        (self.vector_size / self.interleaving_depth) as nat
    }

    /// The length of a message with its mask.
    pub open spec fn masked_len(&self) -> nat {
        self.message_len() + self.mode.mask_len()
    }

    /// The number of columns.
    pub open spec fn cols(&self) -> nat {
        (self.interleaving_depth * self.num_vectors) as nat
    }

    /// Are the sizes consistent, does the codeword's length divide the order of the
    /// field's multiplicative group, and do all sizes fit a machine size?
    pub open spec fn wf(&self) -> bool {
        &&& self.interleaving_depth > 0
        &&& self.vector_size as int % self.interleaving_depth as int == 0
        &&& self.codeword_length > 0
        &&& (MODULUS - 1) % self.codeword_length as int == 0
        &&& self.cols() <= usize::MAX
        &&& self.codeword_length * self.cols() <= usize::MAX
        &&& next_pow2(self.codeword_length as nat) <= usize::MAX
        &&& self.masked_len() <= usize::MAX
        &&& self.mode.mask_len() * self.cols() <= usize::MAX
    }

    /// The matrix commitment's parameters.
    pub open spec fn matrix_config(&self) -> matrix_commit::Config {
        matrix_commit::Config {
            num_rows: self.codeword_length,
            num_cols: self.cols() as usize,
        }
    }

    /// The generator of the codeword's points.
    pub open spec fn root(&self) -> int {
        fpow(GENERATOR as int, ((MODULUS - 1) / self.codeword_length as int) as nat)
    }

    /// The codeword's point at index `i`.
    pub open spec fn point(&self, i: nat) -> int {
        fpow(self.root(), i)
    }

    /// The points at the given indices.
    pub open spec fn points(&self, indices: Seq<usize>) -> Seq<int> {
        Seq::new(indices.len(), |i: int| self.point(indices[i] as nat))
    }

    /// Column `j`'s polynomial: a message followed by its mask.
    pub open spec fn column(&self, vectors: Seq<Seq<int>>, masks: Seq<int>, j: int) -> Seq<int> {
        let depth = self.interleaving_depth as int;
        row_of(vectors[j / depth], self.message_len(), j % depth) + row_of(
            masks,
            self.mode.mask_len(),
            j,
        )
    }

    /// The matrix of codewords.
    pub open spec fn encoded(&self, vectors: Seq<Seq<int>>, masks: Seq<int>) -> Seq<int> {
        Seq::new(
            self.codeword_length as nat * self.cols(),
            |t: int|
                evaluate(
                    self.column(vectors, masks, t % self.cols() as int),
                    self.point((t / self.cols() as int) as nat),
                ),
        )
    }

    /// How much randomness a commitment takes.
    pub open spec fn num_mask_coefficients(&self) -> nat {
        self.mode.mask_len() * self.cols()
    }

    /// The masks of a commitment, as the prover's randomness gives them.
    pub open spec fn masks_of(&self, p: ProverView) -> Seq<int> {
        challenges(p.coins, self.num_mask_coefficients())
    }

    /// The prover's transcript after a commitment.
    pub open spec fn committed(&self, vectors: Seq<Seq<int>>, p: ProverView) -> ProverView {
        p.toss(self.num_mask_coefficients()).send_all(
            root_of(
                self.matrix_config().leaves(self.encoded(vectors, self.masks_of(p))),
            ).words(),
        )
    }

    /// The indices that an opening draws, and the sponge after it.
    pub open spec fn indices(&self, sponge: Seq<u8>) -> (Seq<usize>, Seq<u8>) {
        sponge_indices_drawn(
            sponge,
            self.codeword_length as nat,
            self.in_domain_samples as nat,
            self.deduplicate_in_domain,
        )
    }

    /// The prover's transcript after the rows of the first `k` matrices were sent
    /// with their paths.
    pub open spec fn rows_sent(
        &self,
        p: ProverView,
        matrices: Seq<Seq<int>>,
        indices: Seq<usize>,
        k: nat,
    ) -> ProverView
        decreases k,
    {
        if k == 0 {
            p
        } else {
            let before = self.rows_sent(p, matrices, indices, (k - 1) as nat);
            let matrix = matrices[k - 1];
            paths_sent(
                before.send_fields(rows_at(matrix, self.cols(), indices, indices.len())),
                self.matrix_config().leaves(matrix),
                indices,
                indices.len(),
            )
        }
    }

    /// The rows of every matrix at the given indices.
    pub open spec fn all_rows_at(&self, matrices: Seq<Seq<int>>, indices: Seq<usize>) -> Seq<Seq<int>> {
        Seq::new(
            matrices.len(),
            |b: int| rows_at(matrices[b], self.cols(), indices, indices.len()),
        )
    }

    /// What an opening of several commitments gives: the points, the rows side by
    /// side, and the prover's transcript after it.
    pub open spec fn opened(&self, p: ProverView, matrices: Seq<Seq<int>>) -> (
        Seq<int>,
        Seq<int>,
        ProverView,
    ) {
        let (indices, sponge) = self.indices(p.sponge);
        let drawn = ProverView { sponge, ..p };
        (
            self.points(indices),
            joined(self.all_rows_at(matrices, indices), self.cols(), indices.len()),
            self.rows_sent(drawn, matrices, indices, matrices.len()),
        )
    }

    /// The rows that a verifier reads for one commitment, and its transcript after
    /// them; `None` if they do not match the commitment.
    #[verifier::opaque]
    pub open spec fn one_received(&self, v: VerifierView, root: Digest, indices: Seq<usize>) -> Option<
        (Seq<int>, VerifierView),
    > {
        match v.read_fields(indices.len() * self.cols()) {
            None => None,
            Some((sub, next)) => match rows_checked(
                next,
                root,
                self.codeword_length as nat,
                self.cols(),
                indices,
                sub,
                indices.len(),
            ) {
                None => None,
                Some(end) => Some((sub, end)),
            },
        }
    }

    /// The rows that a verifier reads for the first `k` commitments, and its
    /// transcript after them; `None` if they do not match the commitments.
    pub open spec fn rows_received(
        &self,
        v: VerifierView,
        roots: Seq<Digest>,
        indices: Seq<usize>,
        k: nat,
    ) -> Option<(Seq<Seq<int>>, VerifierView)>
        decreases k,
    {
        if k == 0 {
            Some((Seq::empty(), v))
        } else {
            match self.rows_received(v, roots, indices, (k - 1) as nat) {
                None => None,
                Some((subs, mid)) => match self.one_received(mid, roots[k - 1], indices) {
                    None => None,
                    Some((sub, end)) => Some((subs.push(sub), end)),
                },
            }
        }
    }

    /// What the verification of several openings gives: the points, the rows side
    /// by side, and the verifier's transcript after it.
    pub open spec fn verified(&self, v: VerifierView, roots: Seq<Digest>) -> Option<
        (Seq<int>, Seq<int>, VerifierView),
    > {
        let (indices, sponge) = self.indices(v.sponge);
        match self.rows_received(VerifierView { sponge, ..v }, roots, indices, roots.len()) {
            None => None,
            Some((subs, end)) => Some(
                (self.points(indices), joined(subs, self.cols(), indices.len()), end),
            ),
        }
    }
}

impl Witness {
    /// Is this a witness for a commitment under `cfg`?
    pub open spec fn wf(&self, cfg: &Config) -> bool {
        &&& self.matrix@.len() == cfg.codeword_length * cfg.cols()
        &&& self.masks@.len() == cfg.num_mask_coefficients()
        &&& self.matrix_witness.is_tree_of(cfg.matrix_config().leaves(vals(self.matrix@)))
    }
}

/// The matrices of several witnesses.
pub open spec fn matrices_of(witnesses: Seq<Witness>) -> Seq<Seq<int>> {
    Seq::new(witnesses.len(), |b: int| vals(witnesses[b].matrix@))
}

/// The roots of several commitments.
pub open spec fn roots_of(commitments: Seq<Commitment>) -> Seq<Digest> {
    Seq::new(commitments.len(), |b: int| commitments[b].matrix_commitment.root)
}

/// The values of several vectors.
pub open spec fn all_vals(vectors: Seq<Vec<Field64>>) -> Seq<Seq<int>> {
    Seq::new(vectors.len(), |i: int| vals(vectors[i]@))
}

/// Append a run of elements.
fn append_run(out: &mut Vec<Field64>, from: &[Field64], start: usize, len: usize)
    requires
        start + len <= from@.len(),
    ensures
        vals(final(out)@) == vals(old(out)@) + vals(from@).subrange(start as int, start + len),
        final(out)@.len() == old(out)@.len() + len,
{
    let n: usize = from.len();
    for i in 0..len
        invariant
            n == from@.len(),
            start + len <= n,
            out@.len() == old(out)@.len() + i,
            vals(out@) =~= vals(old(out)@) + vals(from@).subrange(start as int, start + i),
    {
        proof {
            lemma_vals_push(out@, from@[start + i]);
        }
        out.push(from[start + i]);
    }
}

impl Config {
    /// The number of codewords.
    pub fn num_messages(&self) -> (r: usize)
        requires
            self.wf(),
        ensures
            r == self.cols(),
    {
        self.interleaving_depth * self.num_vectors
    }

    /// The length of a message.
    pub fn message_length(&self) -> (r: usize)
        requires
            self.wf(),
        ensures
            r == self.message_len(),
    {
        self.vector_size / self.interleaving_depth
    }

    /// Per-message mask length; zero in standard mode.
    pub fn mask_length(&self) -> (r: usize)
        ensures
            r == self.mode.mask_len(),
    {
        self.mode.mask_length()
    }

    /// Message length including mask coefficients.
    pub fn masked_message_length(&self) -> (r: usize)
        requires
            self.wf(),
        ensures
            r == self.masked_len(),
    {
        self.message_length() + self.mask_length()
    }

    /// The number of columns.
    pub fn num_cols(&self) -> (r: usize)
        requires
            self.wf(),
        ensures
            r == self.cols(),
    {
        self.num_messages()
    }

    /// The number of matrix entries.
    pub fn size(&self) -> (r: usize)
        requires
            self.wf(),
        ensures
            r == self.codeword_length * self.cols(),
    {
        self.codeword_length * self.num_messages()
    }

    /// The matrix commitment's parameters.
    pub fn matrix_commit(&self) -> (r: matrix_commit::Config)
        requires
            self.wf(),
        ensures
            r == self.matrix_config(),
    {
        matrix_commit::Config { num_rows: self.codeword_length, num_cols: self.num_messages() }
    }

    fn root_exec(&self) -> (r: Field64)
        requires
            self.wf(),
        ensures
            r@ == self.root(),
    {
        proof {
            lemma_residue_id(GENERATOR as int);
        }
        Field64::new(GENERATOR).pow((MODULUS - 1) / (self.codeword_length as u64))
    }

    /// The codeword's points at the given indices.
    pub fn evaluation_points(&self, indices: &[usize]) -> (r: Vec<Field64>)
        requires
            self.wf(),
        ensures
            vals(r@) == self.points(indices@),
            r@.len() == indices@.len(),
    {
        let root: Field64 = self.root_exec();
        let mut out: Vec<Field64> = Vec::new();
        for i in 0..indices.len()
            invariant
                root@ == self.root(),
                out@.len() == i,
                forall|j: int| 0 <= j < i ==> (#[trigger] out@[j])@ == self.point(indices@[j] as nat),
        {
            out.push(root.pow(indices[i] as u64));
        }
        assert(vals(out@) =~= self.points(indices@));
        out
    }

    /// The matrix of codewords.
    fn encode(&self, vectors: &[Vec<Field64>], masks: &[Field64]) -> (r: Vec<Field64>)
        requires
            self.wf(),
            vectors@.len() == self.num_vectors,
            forall|i: int| 0 <= i < vectors@.len() ==> (#[trigger] vectors@[i])@.len() == self.vector_size,
            masks@.len() == self.num_mask_coefficients(),
        ensures
            vals(r@) == self.encoded(all_vals(vectors@), vals(masks@)),
            r@.len() == self.codeword_length * self.cols(),
    {
        let cols: usize = self.num_messages();
        let ml: usize = self.message_length();
        let mk: usize = self.mask_length();
        let ghost vs = all_vals(vectors@);
        let ghost ms = vals(masks@);
        let mut columns: Vec<Vec<Field64>> = Vec::new();
        for j in 0..cols
            invariant
                self.wf(),
                cols == self.cols(),
                ml == self.message_len(),
                mk == self.mode.mask_len(),
                vs == all_vals(vectors@),
                ms == vals(masks@),
                vectors@.len() == self.num_vectors,
                forall|i: int|
                    0 <= i < vectors@.len() ==> (#[trigger] vectors@[i])@.len() == self.vector_size,
                masks@.len() == self.num_mask_coefficients(),
                columns@.len() == j,
                forall|i: int|
                    0 <= i < j ==> vals((#[trigger] columns@[i])@) == self.column(vs, ms, i),
        {
            let depth: usize = self.interleaving_depth;
            let which: usize = j / depth;
            let part: usize = j % depth;
            proof {
                let (d, n) = (depth as int, self.num_vectors as int);
                lemma_fundamental_div_mod(j as int, d);
                vstd::arithmetic::div_mod::lemma_mod_bound(j as int, d);
                let w = j as int / d;
                let q = j as int % d;
                assert(w < n) by (nonlinear_arith)
                    requires
                        j as int == d * w + q,
                        0 <= q,
                        (j as int) < d * n,
                        d > 0,
                ;
                lemma_fundamental_div_mod(self.vector_size as int, d);
                let m = ml as int;
                assert(q * m + m <= self.vector_size) by (nonlinear_arith)
                    requires
                        self.vector_size as int == d * m,
                        q < d,
                        m >= 0,
                ;
                assert(q * m >= 0) by (nonlinear_arith)
                    requires
                        q >= 0,
                        m >= 0,
                ;
                assert(j as int * mk as int + mk as int <= mk as int * cols as int) by (nonlinear_arith)
                    requires
                        (j as int) < cols as int,
                        mk as int >= 0,
                ;
                assert(j as int * mk as int >= 0) by (nonlinear_arith);
                assert(vectors@[which as int]@.len() == self.vector_size);
            }
            let mut column: Vec<Field64> = Vec::new();
            assert(vals(column@) =~= Seq::<int>::empty());
            append_run(&mut column, vectors[which].as_slice(), part * ml, ml);
            append_run(&mut column, masks, j * mk, mk);
            assert(vals(column@) =~= self.column(vs, ms, j as int));
            columns.push(column);
        }
        let root: Field64 = self.root_exec();
        let mut x: Field64 = Field64::one();
        let mut out: Vec<Field64> = Vec::new();
        let ghost target = self.encoded(vs, ms);
        let total: usize = self.codeword_length * cols;
        assert(0 * cols == 0) by (nonlinear_arith);
        for i in 0..self.codeword_length
            invariant
                self.wf(),
                cols == self.cols(),
                total == self.codeword_length * cols,
                columns@.len() == cols,
                forall|t: int|
                    0 <= t < cols ==> vals((#[trigger] columns@[t])@) == self.column(vs, ms, t),
                root@ == self.root(),
                x@ == self.point(i as nat),
                target == self.encoded(vs, ms),
                out@.len() == i * cols,
                forall|t: int| 0 <= t < out@.len() ==> (#[trigger] out@[t])@ == target[t],
        {
            proof {
                let (a, b, c) = (i as int, self.codeword_length as int, cols as int);
                assert(a * c + c <= b * c) by (nonlinear_arith)
                    requires
                        a < b,
                        c >= 0,
                ;
                assert((a + 1) * c == a * c + c) by (nonlinear_arith);
            }
            for j in 0..cols
                invariant
                    self.wf(),
                    i < self.codeword_length,
                    cols == self.cols(),
                    i * cols + cols <= self.codeword_length * cols,
                    columns@.len() == cols,
                    forall|t: int|
                        0 <= t < cols ==> vals((#[trigger] columns@[t])@) == self.column(vs, ms, t),
                    x@ == self.point(i as nat),
                    target == self.encoded(vs, ms),
                    out@.len() == i * cols + j,
                    forall|t: int| 0 <= t < out@.len() ==> (#[trigger] out@[t])@ == target[t],
            {
                let ghost t = i * cols + j;
                proof {
                    assert(i * cols == i as int * cols as int);
                    lemma_fundamental_div_mod_converse(t as int, cols as int, i as int, j as int);
                }
                let y: Field64 = univariate_evaluate(columns[j].as_slice(), x);
                out.push(y);
            }
            x = x.mul(root);
        }
        assert(vals(out@) =~= target);
        out
    }

    /// Commit to one or more vectors.
    pub fn commit(&self, ps: &mut ProverState, vectors: &[Vec<Field64>]) -> (r: Witness)
        requires
            self.wf(),
            vectors@.len() == self.num_vectors,
            forall|i: int| 0 <= i < vectors@.len() ==> (#[trigger] vectors@[i])@.len() == self.vector_size,
        ensures
            r.wf(self),
            vals(r.masks@) == self.masks_of(old(ps)@),
            vals(r.matrix@) == self.encoded(all_vals(vectors@), self.masks_of(old(ps)@)),
            final(ps)@ == self.committed(all_vals(vectors@), old(ps)@),
    {
        let masks: Vec<Field64> = ps.random_vector(self.mask_length() * self.num_messages());
        proof {
            lemma_challenges_len(old(ps)@.coins, self.num_mask_coefficients());
            assert(masks@.len() == vals(masks@).len());
        }
        let matrix: Vec<Field64> = self.encode(vectors, masks.as_slice());
        let matrix_witness: matrix_commit::Witness = self.matrix_commit().commit(ps, matrix.as_slice());
        Witness { masks, matrix, matrix_witness }
    }

    /// Receive a commitment to one or more vectors.
    pub fn receive_commitment(&self, vs: &mut VerifierState) -> (r: Result<Commitment, VerificationError>)
        requires
            self.wf(),
        ensures
            match old(vs)@.read_all(4) {
                None => r is Err,
                Some((ws, next)) => r is Ok && final(vs)@ == next && r->Ok_0.matrix_commitment.root == (
                Digest { a: ws[0], b: ws[1], c: ws[2], d: ws[3] }),
            },
    {
        match self.matrix_commit().receive_commitment(vs) {
            Ok(matrix_commitment) => Ok(Commitment { matrix_commitment }),
            Err(e) => Err(e),
        }
    }

    /// Draw the indices of an opening, and their points.
    fn in_domain_challenges(&self, sponge: &mut Sponge) -> (r: (Vec<usize>, Vec<Field64>))
        requires
            self.wf(),
        ensures
            (r.0@, final(sponge)@) == self.indices(old(sponge)@),
            vals(r.1@) == self.points(r.0@),
            r.1@.len() == r.0@.len(),
            forall|i: int| 0 <= i < r.0@.len() ==> #[trigger] r.0@[i] < self.codeword_length,
    {
        let indices: Vec<usize> = sponge_indices(
            sponge,
            self.codeword_length,
            self.in_domain_samples,
            self.deduplicate_in_domain,
        );
        let points: Vec<Field64> = self.evaluation_points(indices.as_slice());
        (indices, points)
    }

    /// The rows of a matrix at the given indices.
    fn read_rows(&self, matrix: &[Field64], indices: &[usize]) -> (r: Vec<Field64>)
        requires
            self.wf(),
            matrix@.len() == self.codeword_length * self.cols(),
            forall|i: int| 0 <= i < indices@.len() ==> #[trigger] indices@[i] < self.codeword_length,
        ensures
            vals(r@) == rows_at(vals(matrix@), self.cols(), indices@, indices@.len()),
            r@.len() == indices@.len() * self.cols(),
    {
        let cols: usize = self.num_cols();
        let mut out: Vec<Field64> = Vec::new();
        assert(vals(out@) =~= Seq::<int>::empty());
        for n in 0..indices.len()
            invariant
                self.wf(),
                cols == self.cols(),
                matrix@.len() == self.codeword_length * self.cols(),
                forall|i: int| 0 <= i < indices@.len() ==> #[trigger] indices@[i] < self.codeword_length,
                vals(out@) == rows_at(vals(matrix@), self.cols(), indices@, n as nat),
                out@.len() == n * cols,
        {
            let index: usize = indices[n];
            proof {
                let (a, b, c) = (index as int, self.codeword_length as int, cols as int);
                assert(a * c + c <= b * c) by (nonlinear_arith)
                    requires
                        a < b,
                        c >= 0,
                ;
                assert(a * c >= 0) by (nonlinear_arith)
                    requires
                        a >= 0,
                        c >= 0,
                ;
                assert((n as int + 1) * c == n as int * c + c) by (nonlinear_arith);
            }
            let len: usize = matrix.len();
            append_run(&mut out, matrix, index * cols, cols);
        }
        out
    }

    /// Open commitments at random rows and return the rows, side by side.
    pub fn open(&self, ps: &mut ProverState, witnesses: &[Witness]) -> (r: Evaluations)
        requires
            self.wf(),
            forall|b: int| 0 <= b < witnesses@.len() ==> (#[trigger] witnesses@[b]).wf(self),
        ensures
            (vals(r.points@), vals(r.matrix@), final(ps)@) == self.opened(
                old(ps)@,
                matrices_of(witnesses@),
            ),
            r.points@.len() == self.indices(old(ps)@.sponge).0.len(),
            r.matrix@.len() == r.points@.len() * (witnesses@.len() * self.cols()),
    {
        let ghost p0 = ps@;
        let ghost mats = matrices_of(witnesses@);
        let (indices, points): (Vec<usize>, Vec<Field64>) = self.in_domain_challenges(&mut ps.sponge);
        let ghost drawn = ps@;
        let mut subs: Vec<Vec<Field64>> = Vec::new();
        let config: matrix_commit::Config = self.matrix_commit();
        for b in 0..witnesses.len()
            invariant
                self.wf(),
                config == self.matrix_config(),
                forall|t: int| 0 <= t < witnesses@.len() ==> (#[trigger] witnesses@[t]).wf(self),
                forall|i: int| 0 <= i < indices@.len() ==> #[trigger] indices@[i] < self.codeword_length,
                mats == matrices_of(witnesses@),
                ps@ == self.rows_sent(drawn, mats, indices@, b as nat),
                subs@.len() == b,
                forall|t: int|
                    0 <= t < b ==> vals((#[trigger] subs@[t])@) == self.all_rows_at(mats, indices@)[t]
                        && subs@[t]@.len() == indices@.len() * self.cols(),
        {
            let witness: &Witness = &witnesses[b];
            let sub: Vec<Field64> = self.read_rows(witness.matrix.as_slice(), indices.as_slice());
            ps.prover_messages(sub.as_slice());
            let ghost leaves = config.leaves(vals(witness.matrix@));
            config.open(ps, &witness.matrix_witness, indices.as_slice(), Ghost(leaves));
            subs.push(sub);
        }
        let matrix: Vec<Field64> = self.join(&subs, indices.len());
        proof {
            let all = Seq::new(subs@.len(), |t: int| vals(subs@[t]@));
            assert(all =~= self.all_rows_at(mats, indices@));
        }
        Evaluations { points, matrix }
    }

    /// Matrices side by side.
    fn join(&self, subs: &Vec<Vec<Field64>>, n: usize) -> (r: Vec<Field64>)
        requires
            self.wf(),
            forall|t: int| 0 <= t < subs@.len() ==> (#[trigger] subs@[t])@.len() == n * self.cols(),
        ensures
            vals(r@) == joined(Seq::new(subs@.len(), |t: int| vals(subs@[t]@)), self.cols(), n as nat),
            r@.len() == n * (subs@.len() * self.cols()),
    {
        let cols: usize = self.num_cols();
        let ghost all = Seq::new(subs@.len(), |t: int| vals(subs@[t]@));
        let mut out: Vec<Field64> = Vec::new();
        assert(vals(out@) =~= Seq::<int>::empty());
        for i in 0..n
            invariant
                self.wf(),
                cols == self.cols(),
                all == Seq::new(subs@.len(), |t: int| vals(subs@[t]@)),
                forall|t: int| 0 <= t < subs@.len() ==> (#[trigger] subs@[t])@.len() == n * self.cols(),
                vals(out@) == joined(all, self.cols(), i as nat),
                out@.len() == i * (subs@.len() * cols),
        {
            let ghost before = vals(out@);
            assert(before =~= before + joined_row(all, self.cols(), i as int, 0));
            assert(0 * (cols as int) == 0) by (nonlinear_arith);
            for b in 0..subs.len()
                invariant
                    self.wf(),
                    i < n,
                    cols == self.cols(),
                    all == Seq::new(subs@.len(), |t: int| vals(subs@[t]@)),
                    forall|t: int|
                        0 <= t < subs@.len() ==> (#[trigger] subs@[t])@.len() == n * self.cols(),
                    vals(out@) == before + joined_row(all, self.cols(), i as int, b as nat),
                    out@.len() == i * (subs@.len() * cols) + b * cols,
            {
                proof {
                    let (x, m, c) = (i as int, n as int, cols as int);
                    assert(x * c + c <= m * c) by (nonlinear_arith)
                        requires
                            x < m,
                            c >= 0,
                    ;
                    assert(x * c >= 0) by (nonlinear_arith)
                        requires
                            x >= 0,
                            c >= 0,
                    ;
                    assert((b as int + 1) * c == b as int * c + c) by (nonlinear_arith);
                }
                let sub: &Vec<Field64> = &subs[b];
                let len: usize = sub.len();
                let ghost was = vals(out@);
                append_run(&mut out, sub.as_slice(), i * cols, cols);
                assert(vals(out@) =~= before + joined_row(all, self.cols(), i as int, (b + 1) as nat));
            }
            proof {
                let k = subs@.len() * cols;
                assert((i as int + 1) * k == i as int * k + k) by (nonlinear_arith);
            }
        }
        out
    }

    /// Read the rows of one opening and check them against the commitment.
    fn receive_rows(&self, vs: &mut VerifierState, commitment: &Commitment, indices: &[usize]) -> (r: Result<
        Vec<Field64>,
        VerificationError,
    >)
        requires
            self.wf(),
            indices@.len() * self.cols() <= usize::MAX,
        ensures
            match self.one_received(old(vs)@, commitment.matrix_commitment.root, indices@) {
                None => r is Err,
                Some((sub, end)) => r is Ok && vals(r->Ok_0@) == sub && final(vs)@ == end
                    && r->Ok_0@.len() == indices@.len() * self.cols(),
            },
    {
        reveal(Config::one_received);
        let count: usize = indices.len() * self.num_cols();
        proof {
            lemma_read_fields_len(vs@, count as nat);
        }
        let sub: Vec<Field64> = match vs.prover_messages(count) {
            Ok(s) => s,
            Err(e) => {
                return Err(e);
            },
        };
        assert(sub@.len() == vals(sub@).len());
        match self.matrix_commit().verify(
            vs,
            &commitment.matrix_commitment,
            indices,
            sub.as_slice(),
        ) {
            Ok(()) => Ok(sub),
            Err(e) => Err(e),
        }
    }

    /// Verify one or more openings and return the rows, side by side.
    pub fn verify(&self, vs: &mut VerifierState, commitments: &[Commitment]) -> (r: Result<
        Evaluations,
        VerificationError,
    >)
        requires
            self.wf(),
            self.deduplicate_in_domain || self.in_domain_samples * self.cols() <= usize::MAX,
        ensures
            match self.verified(old(vs)@, roots_of(commitments@)) {
                None => r is Err,
                Some((points, matrix, next)) => {
                    &&& r is Ok
                    &&& vals(r->Ok_0.points@) == points
                    &&& vals(r->Ok_0.matrix@) == matrix
                    &&& final(vs)@ == next
                    &&& r->Ok_0.points@.len() == self.indices(old(vs)@.sponge).0.len()
                    &&& r->Ok_0.matrix@.len() == r->Ok_0.points@.len() * (commitments@.len() * self.cols())
                },
            },
            r is Ok ==> forall|i: int, b: int|
                0 <= i < r->Ok_0.points@.len() && 0 <= b < commitments@.len() ==> leads_to_root(
                    commitments@[b].matrix_commitment.root,
                    self.codeword_length as nat,
                    #[trigger] opened_row(
                        vals(r->Ok_0.matrix@),
                        self.cols(),
                        commitments@.len(),
                        i,
                        b,
                    ),
                    self.indices(old(vs)@.sponge).0[i] as nat,
                ),
    {
        let ghost v0 = vs@;
        let ghost roots = roots_of(commitments@);
        let (indices, points): (Vec<usize>, Vec<Field64>) = self.in_domain_challenges(&mut vs.sponge);
        let ghost drawn = vs@;
        let mut subs: Vec<Vec<Field64>> = Vec::new();
        let ghost mut read: Seq<Seq<int>> = Seq::empty();
        proof {
            lemma_num_indices(self, v0.sponge);
        }
        for b in 0..commitments.len()
            invariant
                self.wf(),
                indices@.len() * self.cols() <= usize::MAX,
                v0 == old(vs)@,
                (indices@, drawn.sponge) == self.indices(v0.sponge),
                drawn.rest == v0.rest,
                roots == roots_of(commitments@),
                self.rows_received(drawn, roots, indices@, b as nat) == Some((read, vs@)),
                subs@.len() == b,
                read.len() == b,
                forall|t: int|
                    0 <= t < b ==> vals((#[trigger] subs@[t])@) == read[t] && subs@[t]@.len()
                        == indices@.len() * self.cols(),
        {
            let ghost mid = vs@;
            assert(roots[b as int] == commitments@[b as int].matrix_commitment.root);
            let sub: Vec<Field64> = match self.receive_rows(vs, &commitments[b], indices.as_slice()) {
                Ok(s) => s,
                Err(e) => {
                    proof {
                        lemma_rows_received_fails(
                            self,
                            drawn,
                            roots,
                            indices@,
                            (b + 1) as nat,
                            commitments@.len(),
                        );
                    }
                    return Err(e);
                },
            };
            proof {
                assert(self.rows_received(drawn, roots, indices@, (b + 1) as nat) == Some(
                    (read.push(vals(sub@)), vs@),
                ));
                read = read.push(vals(sub@));
            }
            subs.push(sub);
        }
        let matrix: Vec<Field64> = self.join(&subs, indices.len());
        proof {
            assert(Seq::new(subs@.len(), |t: int| vals(subs@[t]@)) =~= read);
            assert forall|i: int, b: int|
                0 <= i < points@.len() && 0 <= b < commitments@.len() implies leads_to_root(
                commitments@[b].matrix_commitment.root,
                self.codeword_length as nat,
                #[trigger] opened_row(vals(matrix@), self.cols(), commitments@.len(), i, b),
                self.indices(v0.sponge).0[i] as nat,
            ) by {
                law_opened_rows_lead_to_roots(self, v0, roots, i, b);
                assert(roots[b] == commitments@[b].matrix_commitment.root);
            }
        }
        Ok(Evaluations { points, matrix })
    }
}

/// A run of challenges has the length asked for, and its entries are canonical.
pub proof fn lemma_challenges_len(st: Seq<u8>, n: nat)
    ensures
        challenges(st, n).len() == n,
        all_canonical(challenges(st, n)),
    decreases n,
{
    broadcast use crate::field::lemma_residue_canonical;

    if n > 0 {
        lemma_challenges_len(st, (n - 1) as nat);
    }
}

/// A read of `n` elements gives `n` elements, all canonical.
pub proof fn lemma_read_fields_len(v: VerifierView, n: nat)
    ensures
        v.read_fields(n) matches Some((xs, next)) ==> xs.len() == n && all_canonical(xs),
    decreases n,
{
    if n > 0 {
        lemma_read_fields_len(v, (n - 1) as nat);
    }
}

/// Sorting and deduplicating does not lengthen, and distinct indices are no more
/// than there are rows.
proof fn lemma_sorted_len(s: Seq<usize>, bound: nat)
    requires
        forall|i: int| 0 <= i < s.len() ==> #[trigger] s[i] < bound,
        crate::challenge_indices::strictly_increasing(s),
    ensures
        s.len() <= bound,
    decreases bound,
{
    if s.len() > 0 {
        let t = s.drop_last();
        assert forall|i: int| 0 <= i < t.len() implies #[trigger] t[i] < (bound - 1) as nat by {
            assert(s[i] < s[s.len() - 1]);
            assert(s[s.len() - 1] < bound);
        }
        assert(s[s.len() - 1] < bound);
        lemma_sorted_len(t, (bound - 1) as nat);
    }
}

/// Deduplicated indices are no more than there are rows.
pub proof fn lemma_index_count(cfg: &Config, sponge: Seq<u8>)
    requires
        cfg.wf(),
    ensures
        cfg.deduplicate_in_domain ==> cfg.indices(sponge).0.len() <= cfg.codeword_length,
        forall|i: int|
            0 <= i < cfg.indices(sponge).0.len() ==> #[trigger] cfg.indices(sponge).0[i]
                < cfg.codeword_length,
{
    let n = cfg.codeword_length;
    let count = cfg.in_domain_samples as nat;
    crate::challenge_indices::law_sponge_never_runs_out(sponge, n as nat, count);
    law_indices_in_range::<Sponge>(sponge, n, count, cfg.deduplicate_in_domain);
    let r = cfg.indices(sponge).0;
    if cfg.deduplicate_in_domain && count > 0 && n > 1 {
        let drawn = crate::challenge_indices::samples::<Sponge>(sponge, n as nat, count).unwrap().0;
        crate::challenge_indices::law_sorted_distinct(
            crate::challenge_indices::machine_indices(drawn),
        );
        lemma_sorted_len(r, n as nat);
    }
}

/// An opening's rows fit a machine size.
pub proof fn lemma_num_indices(cfg: &Config, sponge: Seq<u8>)
    requires
        cfg.wf(),
        cfg.deduplicate_in_domain || cfg.in_domain_samples * cfg.cols() <= usize::MAX,
    ensures
        cfg.indices(sponge).0.len() * cfg.cols() <= usize::MAX,
        !cfg.deduplicate_in_domain ==> cfg.indices(sponge).0.len() == cfg.in_domain_samples,
{
    let n = cfg.codeword_length;
    let count = cfg.in_domain_samples as nat;
    crate::challenge_indices::law_sponge_never_runs_out(sponge, n as nat, count);
    law_indices_in_range::<Sponge>(sponge, n, count, cfg.deduplicate_in_domain);
    let r = cfg.indices(sponge).0;
    lemma_index_count(cfg, sponge);
    if cfg.deduplicate_in_domain {
        assert(r.len() <= n);
        let (a, b, c) = (r.len() as int, n as int, cfg.cols() as int);
        assert(a * c <= b * c) by (nonlinear_arith)
            requires
                a <= b,
                c >= 0,
        ;
    }
}

proof fn lemma_rows_received_fails(
    cfg: &Config,
    v: VerifierView,
    roots: Seq<Digest>,
    indices: Seq<usize>,
    k: nat,
    n: nat,
)
    requires
        k <= n,
        cfg.rows_received(v, roots, indices, k) is None,
    ensures
        cfg.rows_received(v, roots, indices, n) is None,
    decreases n,
{
    if k < n {
        lemma_rows_received_fails(cfg, v, roots, indices, k, (n - 1) as nat);
    }
}

} // verus!
