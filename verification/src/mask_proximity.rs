//! Mask proximity: committed mask polynomials are close to codewords, and have
//! claimed inner products.
//!
//! Every mask is committed to together with a fresh random vector. The prover sends
//! both inner products with the mask's covector, then a random combination of the
//! two vectors in the clear, which is checked against the opened rows and against
//! the combined inner products.

use crate::algebra::{dot, dot_spec, evaluate, univariate_evaluate};
use crate::basecase::combined;
use crate::code_switch::concat;
use crate::field::{fadd, fmul, vals, Field64};
use crate::irs_commit;
use crate::irs_commit::{
    all_vals, lemma_challenges_len, lemma_read_fields_len, matrices_of, roots_of,
};
use crate::matrix_commit::{row_of, Digest};
use crate::proof_of_work;
use crate::transcript::{
    challenge, challenges, ProverState, ProverView, VerificationError, VerifierState, VerifierView,
};
use vstd::prelude::*;

verus! {

/// Parameters of a mask-proximity proof.
#[derive(Clone, Copy, Debug, PartialEq, Eq, Structural)]
pub struct Config {
    pub c_zk_commit: irs_commit::Config,
    pub num_masks: usize,
    pub pow: proof_of_work::Config,
}

/// The prover's side of a commitment to masks.
#[derive(Debug)]
pub struct Witness {
    pub fresh: Vec<Field64>,
    pub irs: irs_commit::Witness,
}

/// A flat run of vectors, one by one.
pub open spec fn split_rows(flat: Seq<int>, size: nat, count: nat) -> Seq<Seq<int>> {
    Seq::new(count, |i: int| row_of(flat, size, i))
}

/// The inner products of corresponding vectors.
pub open spec fn row_products(a: Seq<int>, b: Seq<int>, size: nat, count: nat) -> Seq<int> {
    Seq::new(count, |i: int| dot_spec(row_of(a, size, i), row_of(b, size, i)))
}

/// Does the combined vector `j` have, at a row's point, the row's combined value?
pub open spec fn entry_consistent(
    z: Seq<int>,
    size: nat,
    m: Seq<int>,
    mask_len: nat,
    count: nat,
    gamma: int,
    row: Seq<int>,
    x: int,
    j: int,
) -> bool {
    fadd(row[count + j], fmul(gamma, row[j])) == evaluate(
        row_of(z, size, j) + row_of(m, mask_len, j),
        x,
    )
}

/// Do the combined vectors have the combined values of the first `n` rows?
pub open spec fn rows_consistent(
    z: Seq<int>,
    size: nat,
    m: Seq<int>,
    mask_len: nat,
    count: nat,
    gamma: int,
    points: Seq<int>,
    matrix: Seq<int>,
    n: nat,
) -> bool {
    forall|i: int, j: int|
        0 <= i < n && 0 <= j < count ==> #[trigger] entry_consistent(
            z,
            size,
            m,
            mask_len,
            count,
            gamma,
            row_of(matrix, 2 * count, i),
            points[i],
            j,
        )
}

/// Do the combined vectors have the combined inner products?
pub open spec fn products_consistent(
    z: Seq<int>,
    covectors: Seq<int>,
    size: nat,
    xs: Seq<int>,
    ys: Seq<int>,
    gamma: int,
    n: nat,
) -> bool {
    forall|i: int|
        0 <= i < n ==> dot_spec(row_of(z, size, i), row_of(covectors, size, i)) == #[trigger] fadd(
            ys[i],
            fmul(gamma, xs[i]),
        )
}

impl Config {
    /// The length of a mask.
    pub open spec fn size(&self) -> nat {
        self.c_zk_commit.vector_size as nat
    }

    /// The length of all masks together.
    pub open spec fn flat_len(&self) -> nat {
        self.num_masks as nat * self.size()
    }

    /// The number of mask coefficients that the code adds to all masks together.
    pub open spec fn flat_mask_len(&self) -> nat {
        self.num_masks as nat * self.c_zk_commit.mode.mask_len()
    }

    /// Masks and fresh vectors, not interleaved; all sizes fit a machine size.
    pub open spec fn wf(&self) -> bool {
        &&& self.c_zk_commit.wf()
        &&& self.c_zk_commit.num_vectors == 2 * self.num_masks
        &&& self.c_zk_commit.interleaving_depth == 1
        &&& self.flat_len() <= usize::MAX
        &&& self.flat_mask_len() <= usize::MAX
        &&& self.c_zk_commit.deduplicate_in_domain || self.c_zk_commit.in_domain_samples
            * self.c_zk_commit.cols() <= usize::MAX
    }

    /// The vectors that a commitment to masks commits to.
    pub open spec fn vectors(&self, masks: Seq<int>, fresh: Seq<int>) -> Seq<Seq<int>> {
        split_rows(masks, self.size(), self.num_masks as nat) + split_rows(
            fresh,
            self.size(),
            self.num_masks as nat,
        )
    }

    /// The fresh vectors of a commitment.
    pub open spec fn fresh_of(&self, p: ProverView) -> Seq<int> {
        challenges(p.coins, self.flat_len())
    }

    /// The code's mask coefficients of a commitment.
    pub open spec fn irs_masks_of(&self, p: ProverView) -> Seq<int> {
        self.c_zk_commit.masks_of(p.toss(self.flat_len()))
    }

    /// The matrix of a commitment.
    pub open spec fn matrix_of(&self, masks: Seq<int>, p: ProverView) -> Seq<int> {
        self.c_zk_commit.encoded(self.vectors(masks, self.fresh_of(p)), self.irs_masks_of(p))
    }

    /// The prover's transcript after a commitment.
    pub open spec fn committed(&self, masks: Seq<int>, p: ProverView) -> ProverView {
        self.c_zk_commit.committed(
            self.vectors(masks, self.fresh_of(p)),
            p.toss(self.flat_len()),
        )
    }

    /// The code's mask coefficients, combined as the vectors are.
    pub open spec fn combined_masks(&self, irs_masks: Seq<int>, gamma: int) -> Seq<int> {
        let k = self.flat_mask_len() as int;
        combined(irs_masks.skip(k), irs_masks.take(k), gamma)
    }

    /// The prover's transcript before the combination challenge.
    pub open spec fn products_sent(
        &self,
        masks: Seq<int>,
        fresh: Seq<int>,
        covectors: Seq<int>,
        p: ProverView,
    ) -> ProverView {
        let k = self.num_masks as nat;
        self.pow.proved(
            p.send_fields(row_products(masks, covectors, self.size(), k)).send_fields(
                row_products(fresh, covectors, self.size(), k),
            ),
        )
    }

    /// The prover's transcript after the proof.
    pub open spec fn proved(
        &self,
        masks: Seq<int>,
        fresh: Seq<int>,
        irs_masks: Seq<int>,
        matrix: Seq<int>,
        covectors: Seq<int>,
        p: ProverView,
    ) -> ProverView {
        let worked = self.products_sent(masks, fresh, covectors, p);
        let gamma = challenge(worked.sponge);
        let sent = worked.draw().send_fields(combined(fresh, masks, gamma)).send_fields(
            self.combined_masks(irs_masks, gamma),
        );
        self.c_zk_commit.opened(sent, seq![matrix]).2
    }

    /// The masks' inner products that the verifier accepts, and its transcript; `None`
    /// if it rejects.
    pub open spec fn checked(&self, root: Digest, covectors: Seq<int>, v: VerifierView) -> Option<
        (Seq<int>, VerifierView),
    > {
        let k = self.num_masks as nat;
        match v.read_fields(k) {
            None => None,
            Some((xs, v1)) => match v1.read_fields(k) {
                None => None,
                Some((ys, v2)) => match self.pow.verified(v2) {
                    None => None,
                    Some(v3) => {
                        let gamma = challenge(v3.sponge);
                        match v3.draw().read_fields(self.flat_len()) {
                            None => None,
                            Some((z, v4)) => match v4.read_fields(self.flat_mask_len()) {
                                None => None,
                                Some((m, v5)) => match self.c_zk_commit.verified(v5, seq![root]) {
                                    None => None,
                                    Some((points, matrix, v6)) => if rows_consistent(
                                        z,
                                        self.size(),
                                        m,
                                        self.c_zk_commit.mode.mask_len(),
                                        k,
                                        gamma,
                                        points,
                                        matrix,
                                        points.len(),
                                    ) && products_consistent(
                                        z,
                                        covectors,
                                        self.size(),
                                        xs,
                                        ys,
                                        gamma,
                                        k,
                                    ) {
                                        Some((xs, v6))
                                    } else {
                                        None
                                    },
                                },
                            },
                        }
                    },
                },
            },
        }
    }
}

impl Witness {
    /// Is this a witness for a commitment under `cfg`?
    pub open spec fn wf(&self, cfg: &Config) -> bool {
        &&& self.irs.wf(&cfg.c_zk_commit)
        &&& self.fresh@.len() == cfg.flat_len()
    }
}

/// Bounds of a row of a flat run of vectors.
proof fn lemma_row_bounds(i: int, count: int, size: int)
    requires
        0 <= i < count,
        0 <= size,
    ensures
        0 <= i * size,
        i * size + size <= count * size,
{
    assert(i * size + size <= count * size) by (nonlinear_arith)
        requires
            i < count,
            0 <= size,
    ;
    assert(0 <= i * size) by (nonlinear_arith)
        requires
            0 <= i,
            0 <= size,
    ;
}

/// Vector `i` of a flat run.
pub fn flat_row(flat: &[Field64], size: usize, i: usize, count: usize) -> (r: &[Field64])
    requires
        i < count,
        count * size <= flat@.len(),
    ensures
        vals(r@) == row_of(vals(flat@), size as nat, i as int),
        r@.len() == size,
{
    let len: usize = flat.len();
    proof {
        lemma_row_bounds(i as int, count as int, size as int);
    }
    let r: &[Field64] = vstd::slice::slice_subrange(flat, i * size, i * size + size);
    assert(vals(r@) =~= row_of(vals(flat@), size as nat, i as int));
    r
}

/// Append the vectors of a flat run.
fn push_rows(out: &mut Vec<Vec<Field64>>, flat: &[Field64], size: usize, count: usize)
    requires
        flat@.len() == count * size,
        forall|t: int| 0 <= t < old(out)@.len() ==> (#[trigger] old(out)@[t])@.len() == size,
    ensures
        all_vals(final(out)@) == all_vals(old(out)@) + split_rows(
            vals(flat@),
            size as nat,
            count as nat,
        ),
        final(out)@.len() == old(out)@.len() + count,
        forall|t: int| 0 <= t < final(out)@.len() ==> (#[trigger] final(out)@[t])@.len() == size,
{
    for i in 0..count
        invariant
            flat@.len() == count * size,
            out@.len() == old(out)@.len() + i,
            all_vals(out@) =~= all_vals(old(out)@) + split_rows(vals(flat@), size as nat, i as nat),
            forall|t: int| 0 <= t < out@.len() ==> (#[trigger] out@[t])@.len() == size,
    {
        let row: Vec<Field64> = crate::algebra::copied(flat_row(flat, size, i, count));
        let ghost before = out@;
        out.push(row);
        assert(all_vals(out@) =~= all_vals(before).push(vals(row@)));
    }
}

/// The inner products of corresponding vectors.
fn products(a: &[Field64], b: &[Field64], size: usize, count: usize) -> (r: Vec<Field64>)
    requires
        a@.len() == count * size,
        b@.len() == count * size,
    ensures
        vals(r@) == row_products(vals(a@), vals(b@), size as nat, count as nat),
        r@.len() == count,
{
    let mut out: Vec<Field64> = Vec::new();
    for i in 0..count
        invariant
            a@.len() == count * size,
            b@.len() == count * size,
            out@.len() == i,
            forall|j: int|
                0 <= j < i ==> (#[trigger] out@[j])@ == row_products(
                    vals(a@),
                    vals(b@),
                    size as nat,
                    count as nat,
                )[j],
    {
        out.push(dot(flat_row(a, size, i, count), flat_row(b, size, i, count)));
    }
    assert(vals(out@) =~= row_products(vals(a@), vals(b@), size as nat, count as nat));
    out
}

fn combine_flat(a: &[Field64], b: &[Field64], c: Field64) -> (r: Vec<Field64>)
    requires
        a@.len() == b@.len(),
    ensures
        vals(r@) == combined(vals(a@), vals(b@), c@),
        r@.len() == a@.len(),
{
    let mut out: Vec<Field64> = Vec::new();
    for i in 0..a.len()
        invariant
            a@.len() == b@.len(),
            out@.len() == i,
            forall|j: int|
                0 <= j < i ==> (#[trigger] out@[j])@ == combined(vals(a@), vals(b@), c@)[j],
    {
        out.push(a[i].add(c.mul(b[i])));
    }
    assert(vals(out@) =~= combined(vals(a@), vals(b@), c@));
    out
}

impl Config {
    /// A mask-proximity proof for `num_masks` masks.
    pub fn new(c_zk_commit: irs_commit::Config, num_masks: usize, pow: proof_of_work::Config) -> (r: Self)
        requires
            (Config { c_zk_commit, num_masks, pow }).wf(),
        ensures
            r == (Config { c_zk_commit, num_masks, pow }),
    {
        Config { c_zk_commit, num_masks, pow }
    }

    proof fn lemma_counts(&self)
        requires
            self.wf(),
        ensures
            self.c_zk_commit.cols() == 2 * self.num_masks,
            self.c_zk_commit.num_mask_coefficients() == 2 * self.flat_mask_len(),
            self.c_zk_commit.message_len() == self.size(),
    {
        let k = self.num_masks as int;
        let mk = self.c_zk_commit.mode.mask_len() as int;
        assert(1 * (2 * k) == 2 * k) by (nonlinear_arith);
        assert(mk * (2 * k) == 2 * (k * mk)) by (nonlinear_arith);
        assert(self.c_zk_commit.vector_size as int / 1 == self.c_zk_commit.vector_size);
    }

    /// Commit to masks, each next to a fresh random vector.
    pub fn commit(&self, ps: &mut ProverState, masks: &[Field64]) -> (r: Witness)
        requires
            self.wf(),
            masks@.len() == self.flat_len(),
        ensures
            r.wf(self),
            vals(r.fresh@) == self.fresh_of(old(ps)@),
            vals(r.irs.masks@) == self.irs_masks_of(old(ps)@),
            vals(r.irs.matrix@) == self.matrix_of(vals(masks@), old(ps)@),
            final(ps)@ == self.committed(vals(masks@), old(ps)@),
    {
        proof {
            lemma_challenges_len(ps@.coins, self.flat_len());
            self.lemma_counts();
        }
        let size: usize = self.c_zk_commit.vector_size;
        let fresh: Vec<Field64> = ps.random_vector(self.num_masks * size);
        assert(fresh@.len() == vals(fresh@).len());
        let mut vectors: Vec<Vec<Field64>> = Vec::new();
        assert(all_vals(vectors@) =~= Seq::<Seq<int>>::empty());
        push_rows(&mut vectors, masks, size, self.num_masks);
        push_rows(&mut vectors, fresh.as_slice(), size, self.num_masks);
        assert(all_vals(vectors@) =~= self.vectors(vals(masks@), vals(fresh@)));
        let irs: irs_commit::Witness = self.c_zk_commit.commit(ps, vectors.as_slice());
        Witness { fresh, irs }
    }

    /// Receive a commitment to masks.
    pub fn receive_commitment(&self, vs: &mut VerifierState) -> (r: Result<
        irs_commit::Commitment,
        VerificationError,
    >)
        requires
            self.wf(),
        ensures
            match old(vs)@.read_all(4) {
                None => r is Err,
                Some((ws, next)) => r is Ok && final(vs)@ == next && r->Ok_0.matrix_commitment.root == (
                Digest { a: ws[0], b: ws[1], c: ws[2], d: ws[3] }),
            },
    {
        self.c_zk_commit.receive_commitment(vs)
    }

    /// Prove the masks' inner products with the covectors.
    pub fn prove(
        &self,
        ps: &mut ProverState,
        witness: Witness,
        masks: &[Field64],
        covectors: &[Field64],
    )
        requires
            self.wf(),
            witness.wf(self),
            masks@.len() == self.flat_len(),
            covectors@.len() == self.flat_len(),
        ensures
            final(ps)@ == self.proved(
                vals(masks@),
                vals(witness.fresh@),
                vals(witness.irs.masks@),
                vals(witness.irs.matrix@),
                vals(covectors@),
                old(ps)@,
            ),
    {
        let size: usize = self.c_zk_commit.vector_size;
        let count: usize = self.num_masks;
        proof {
            self.lemma_counts();
        }
        let xs: Vec<Field64> = products(masks, covectors, size, count);
        ps.prover_messages(xs.as_slice());
        let ys: Vec<Field64> = products(witness.fresh.as_slice(), covectors, size, count);
        ps.prover_messages(ys.as_slice());
        self.pow.prove(ps);
        let gamma: Field64 = ps.verifier_message();
        let z: Vec<Field64> = combine_flat(witness.fresh.as_slice(), masks, gamma);
        ps.prover_messages(z.as_slice());
        let k: usize = count * self.c_zk_commit.mask_length();
        let n: usize = witness.irs.masks.len();
        let first: &[Field64] = vstd::slice::slice_subrange(witness.irs.masks.as_slice(), 0, k);
        let second: &[Field64] = vstd::slice::slice_subrange(witness.irs.masks.as_slice(), k, n);
        assert(vals(first@) =~= vals(witness.irs.masks@).take(k as int));
        assert(vals(second@) =~= vals(witness.irs.masks@).skip(k as int));
        let m: Vec<Field64> = combine_flat(second, first, gamma);
        ps.prover_messages(m.as_slice());
        let mut witnesses: Vec<irs_commit::Witness> = Vec::new();
        let ghost matrix = vals(witness.irs.matrix@);
        witnesses.push(witness.irs);
        assert(matrices_of(witnesses@) =~= seq![matrix]);
        let _rows: irs_commit::Evaluations = self.c_zk_commit.open(ps, witnesses.as_slice());
    }

    fn check_rows(
        &self,
        z: &[Field64],
        m: &[Field64],
        gamma: Field64,
        evaluations: &irs_commit::Evaluations,
    ) -> (r: bool)
        requires
            self.wf(),
            z@.len() == self.flat_len(),
            m@.len() == self.flat_mask_len(),
            evaluations.matrix@.len() == evaluations.points@.len() * (2 * self.num_masks),
        ensures
            r == rows_consistent(
                vals(z@),
                self.size(),
                vals(m@),
                self.c_zk_commit.mode.mask_len(),
                self.num_masks as nat,
                gamma@,
                vals(evaluations.points@),
                vals(evaluations.matrix@),
                evaluations.points@.len(),
            ),
    {
        let size: usize = self.c_zk_commit.vector_size;
        let mk: usize = self.c_zk_commit.mask_length();
        let count: usize = self.num_masks;
        proof {
            self.lemma_counts();
        }
        let stride: usize = self.c_zk_commit.num_cols();
        let n: usize = evaluations.points.len();
        let len: usize = evaluations.matrix.len();
        let ghost zs = vals(z@);
        let ghost ms = vals(m@);
        let ghost points = vals(evaluations.points@);
        let ghost matrix = vals(evaluations.matrix@);
        for i in 0..n
            invariant
                self.wf(),
                z@.len() == self.flat_len(),
                m@.len() == self.flat_mask_len(),
                size == self.size(),
                mk == self.c_zk_commit.mode.mask_len(),
                count == self.num_masks,
                stride == 2 * count,
                n == evaluations.points@.len(),
                len == evaluations.matrix@.len(),
                len == n * stride,
                zs == vals(z@),
                ms == vals(m@),
                points == vals(evaluations.points@),
                matrix == vals(evaluations.matrix@),
                rows_consistent(
                    zs,
                    size as nat,
                    ms,
                    mk as nat,
                    count as nat,
                    gamma@,
                    points,
                    matrix,
                    i as nat,
                ),
        {
            let row: &[Field64] = flat_row(evaluations.matrix.as_slice(), stride, i, n);
            let x: Field64 = evaluations.points[i];
            assert(points[i as int] == x@);
            for j in 0..count
                invariant
                    self.wf(),
                    z@.len() == self.flat_len(),
                    m@.len() == self.flat_mask_len(),
                    size == self.size(),
                    mk == self.c_zk_commit.mode.mask_len(),
                    count == self.num_masks,
                    stride == 2 * count,
                    i < n,
                    n == evaluations.points@.len(),
                    points == vals(evaluations.points@),
                    matrix == vals(evaluations.matrix@),
                    zs == vals(z@),
                    ms == vals(m@),
                    row@.len() == stride,
                    vals(row@) == row_of(matrix, stride as nat, i as int),
                    x@ == points[i as int],
                    rows_consistent(
                        zs,
                        size as nat,
                        ms,
                        mk as nat,
                        count as nat,
                        gamma@,
                        points,
                        matrix,
                        i as nat,
                    ),
                    forall|t: int|
                        0 <= t < j ==> #[trigger] entry_consistent(
                            zs,
                            size as nat,
                            ms,
                            mk as nat,
                            count as nat,
                            gamma@,
                            row_of(matrix, stride as nat, i as int),
                            points[i as int],
                            t,
                        ),
            {
                let zj: &[Field64] = flat_row(z, size, j, count);
                let mj: &[Field64] = flat_row(m, mk, j, count);
                let poly: Vec<Field64> = concat(zj, mj);
                let expected: Field64 = univariate_evaluate(poly.as_slice(), x);
                let value: Field64 = row[count + j].add(gamma.mul(row[j]));
                let ghost ok = entry_consistent(
                    zs,
                    size as nat,
                    ms,
                    mk as nat,
                    count as nat,
                    gamma@,
                    row_of(matrix, stride as nat, i as int),
                    points[i as int],
                    j as int,
                );
                assert(ok == (value@ == expected@));
                if value != expected {
                    return false;
                }
            }
        }
        true
    }

    fn check_products(
        &self,
        z: &[Field64],
        covectors: &[Field64],
        xs: &[Field64],
        ys: &[Field64],
        gamma: Field64,
    ) -> (r: bool)
        requires
            self.wf(),
            z@.len() == self.flat_len(),
            covectors@.len() == self.flat_len(),
            xs@.len() == self.num_masks,
            ys@.len() == self.num_masks,
        ensures
            r == products_consistent(
                vals(z@),
                vals(covectors@),
                self.size(),
                vals(xs@),
                vals(ys@),
                gamma@,
                self.num_masks as nat,
            ),
    {
        let size: usize = self.c_zk_commit.vector_size;
        let count: usize = self.num_masks;
        for i in 0..count
            invariant
                z@.len() == count * size,
                covectors@.len() == count * size,
                xs@.len() == count,
                ys@.len() == count,
                count == self.num_masks,
                size == self.size(),
                products_consistent(
                    vals(z@),
                    vals(covectors@),
                    size as nat,
                    vals(xs@),
                    vals(ys@),
                    gamma@,
                    i as nat,
                ),
        {
            let left: Field64 = dot(
                flat_row(z, size, i, count),
                flat_row(covectors, size, i, count),
            );
            let right: Field64 = ys[i].add(gamma.mul(xs[i]));
            assert(right@ == fadd(vals(ys@)[i as int], fmul(gamma@, vals(xs@)[i as int])));
            if left != right {
                return false;
            }
        }
        true
    }

    /// Check the masks' inner products with the covectors, and return them.
    pub fn verify(
        &self,
        vs: &mut VerifierState,
        commitment: &irs_commit::Commitment,
        covectors: &[Field64],
    ) -> (r: Result<Vec<Field64>, VerificationError>)
        requires
            self.wf(),
            covectors@.len() == self.flat_len(),
        ensures
            match self.checked(commitment.matrix_commitment.root, vals(covectors@), old(vs)@) {
                None => r is Err,
                Some((xs, next)) => r is Ok && vals(r->Ok_0@) == xs && final(vs)@ == next
                    && r->Ok_0@.len() == self.num_masks,
            },
    {
        let count: usize = self.num_masks;
        let size: usize = self.c_zk_commit.vector_size;
        proof {
            self.lemma_counts();
            lemma_read_fields_len(vs@, count as nat);
        }
        let xs: Vec<Field64> = match vs.prover_messages(count) {
            Ok(x) => x,
            Err(e) => {
                return Err(e);
            },
        };
        proof {
            assert(xs@.len() == vals(xs@).len());
            lemma_read_fields_len(vs@, count as nat);
        }
        let ys: Vec<Field64> = match vs.prover_messages(count) {
            Ok(y) => y,
            Err(e) => {
                return Err(e);
            },
        };
        assert(ys@.len() == vals(ys@).len());
        match self.pow.verify(vs) {
            Ok(()) => {},
            Err(e) => {
                return Err(e);
            },
        }
        let gamma: Field64 = vs.verifier_message();
        proof {
            lemma_read_fields_len(vs@, self.flat_len());
        }
        let z: Vec<Field64> = match vs.prover_messages(count * size) {
            Ok(z) => z,
            Err(e) => {
                return Err(e);
            },
        };
        proof {
            assert(z@.len() == vals(z@).len());
            lemma_read_fields_len(vs@, self.flat_mask_len());
        }
        let m: Vec<Field64> = match vs.prover_messages(count * self.c_zk_commit.mask_length()) {
            Ok(m) => m,
            Err(e) => {
                return Err(e);
            },
        };
        assert(m@.len() == vals(m@).len());
        let commitments: Vec<irs_commit::Commitment> = vec![*commitment];
        assert(roots_of(commitments@) =~= seq![commitment.matrix_commitment.root]);
        let evaluations: irs_commit::Evaluations = match self.c_zk_commit.verify(
            vs,
            commitments.as_slice(),
        ) {
            Ok(e) => e,
            Err(e) => {
                return Err(e);
            },
        };
        proof {
            assert(evaluations.points@.len() == vals(evaluations.points@).len());
            assert(1 * self.c_zk_commit.cols() == self.c_zk_commit.cols()) by (nonlinear_arith);
        }
        if !self.check_rows(z.as_slice(), m.as_slice(), gamma, &evaluations) {
            return Err(VerificationError);
        }
        if !self.check_products(z.as_slice(), covectors, xs.as_slice(), ys.as_slice(), gamma) {
            return Err(VerificationError);
        }
        Ok(xs)
    }
}

} // verus!
