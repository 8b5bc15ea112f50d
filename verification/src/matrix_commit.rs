//! Merkle commitments to the rows of a matrix of field elements.
//!
//! The leaves are the digests of the rows, padded to a power of two; an inner node
//! is the digest of its two children.

use crate::arith::{ceil_log2, ceil_log2_spec, lemma_ceil_log2, next_pow2};
use crate::binding_laws::{law_accepted_rows_lead_to_root, leads_to_root};
use crate::field::{vals, Field64};
use crate::transcript::{
    le_value, le_word, sponge_output, words_bytes, ProverState, ProverView, Sponge,
    VerificationError, VerifierState, VerifierView,
};
use crate::transcript_laws::{
    follows, law_read_words, lemma_follows_refl, lemma_follows_send_all, lemma_follows_trans,
    pending,
};
use vstd::arithmetic::power2::{lemma_pow2_pos, lemma_pow2_unfold, pow2};
use vstd::prelude::*;

verus! {

/// A digest: 32 bytes, as words.
#[derive(Clone, Copy, Debug, PartialEq, Eq, Structural)]
pub struct Digest {
    pub a: u64,
    pub b: u64,
    pub c: u64,
    pub d: u64,
}

impl Digest {
    /// The digest's words.
    pub open spec fn words(self) -> Seq<u64> {
        seq![self.a, self.b, self.c, self.d]
    }
}

/// The digest that the output bytes spell.
pub open spec fn digest_of_bytes(bytes: Seq<u8>) -> Digest {
    Digest {
        a: le_value(bytes.subrange(0, 8)) as u64,
        b: le_value(bytes.subrange(8, 16)) as u64,
        c: le_value(bytes.subrange(16, 24)) as u64,
        d: le_value(bytes.subrange(24, 32)) as u64,
    }
}

/// The digest of a run of words.
pub open spec fn digest_of(ws: Seq<u64>) -> Digest {
    digest_of_bytes(sponge_output(words_bytes(ws), 32))
}

/// The words of a run of field values.
pub open spec fn value_words(xs: Seq<int>) -> Seq<u64> {
    Seq::new(xs.len(), |i: int| xs[i] as u64)
}

/// Row `i` of a matrix with `cols` columns.
pub open spec fn row_of(matrix: Seq<int>, cols: nat, i: int) -> Seq<int> {
    matrix.subrange(i * cols, i * cols + cols)
}

/// The digests of the rows.
pub open spec fn leaves_of(matrix: Seq<int>, rows: nat, cols: nat) -> Seq<Digest> {
    Seq::new(rows, |i: int| digest_of(value_words(row_of(matrix, cols, i))))
}

/// The digest of two children.
pub open spec fn parent(left: Digest, right: Digest) -> Digest {
    digest_of(left.words() + right.words())
}

/// The node at position `i` of level `k`; the leaves are level zero.
pub open spec fn node(leaves: Seq<Digest>, k: nat, i: nat) -> Digest
    decreases k,
{
    if k == 0 {
        if i < leaves.len() {
            leaves[i as int]
        } else {
            Digest { a: 0, b: 0, c: 0, d: 0 }
        }
    } else {
        parent(node(leaves, (k - 1) as nat, 2 * i), node(leaves, (k - 1) as nat, 2 * i + 1))
    }
}

/// The tree's height.
pub open spec fn height(rows: nat) -> nat {
    ceil_log2_spec(rows)
}

/// The root.
pub open spec fn root_of(leaves: Seq<Digest>) -> Digest {
    node(leaves, height(leaves.len()), 0)
}

/// The other child of the same parent.
pub open spec fn sibling(i: nat) -> nat {
    if i % 2 == 0 {
        i + 1
    } else {
        (i - 1) as nat
    }
}

/// The siblings on the way from leaf `i` to the root, lowest first.
pub open spec fn path_of(leaves: Seq<Digest>, i: nat) -> Seq<Digest> {
    Seq::new(
        height(leaves.len()),
        |k: int| node(leaves, k as nat, sibling(i / pow2(k as nat))),
    )
}

/// The words of a path.
pub open spec fn path_words(path: Seq<Digest>) -> Seq<u64>
    decreases path.len(),
{
    if path.len() == 0 {
        Seq::empty()
    } else {
        path_words(path.drop_last()) + path.last().words()
    }
}

/// Where a leaf and its siblings lead after `k` levels.
pub open spec fn climbed(leaf: Digest, i: nat, path: Seq<Digest>, k: nat) -> Digest
    decreases k,
{
    if k == 0 {
        leaf
    } else {
        let below = climbed(leaf, i, path, (k - 1) as nat);
        if (i / pow2((k - 1) as nat)) % 2 == 0 {
            parent(below, path[k - 1])
        } else {
            parent(path[k - 1], below)
        }
    }
}

/// The prover's transcript after the paths of the first `n` indices were sent.
pub open spec fn paths_sent(p: ProverView, leaves: Seq<Digest>, indices: Seq<usize>, n: nat) -> ProverView
    decreases n,
{
    if n == 0 {
        p
    } else {
        paths_sent(p, leaves, indices, (n - 1) as nat).send_all(
            path_words(path_of(leaves, indices[n - 1] as nat)),
        )
    }
}

/// The path that a verifier reads: `h` digests of four words each.
pub open spec fn path_read(v: VerifierView, h: nat) -> Option<(Seq<Digest>, VerifierView)>
    decreases h,
{
    if h == 0 {
        Some((Seq::empty(), v))
    } else {
        match path_read(v, (h - 1) as nat) {
            None => None,
            Some((below, mid)) => match mid.read_all(4) {
                None => None,
                Some((ws, next)) => Some(
                    (below.push(Digest { a: ws[0], b: ws[1], c: ws[2], d: ws[3] }), next),
                ),
            },
        }
    }
}

/// The verifier's transcript after a leaf was checked against the root; `None` if
/// it does not lead there.
#[verifier::opaque]
pub open spec fn leaf_checked(v: VerifierView, root: Digest, h: nat, leaf: Digest, index: nat) -> Option<
    VerifierView,
> {
    match path_read(v, h) {
        None => None,
        Some((path, next)) => if climbed(leaf, index, path, h) == root {
            Some(next)
        } else {
            None
        },
    }
}

/// The verifier's transcript after the rows at the first `n` indices were checked
/// against the root; `None` if one does not lead there.
pub open spec fn rows_checked(
    v: VerifierView,
    root: Digest,
    rows: nat,
    cols: nat,
    indices: Seq<usize>,
    submatrix: Seq<int>,
    n: nat,
) -> Option<VerifierView>
    decreases n,
{
    if n == 0 {
        Some(v)
    } else {
        match rows_checked(v, root, rows, cols, indices, submatrix, (n - 1) as nat) {
            None => None,
            Some(mid) => leaf_checked(
                mid,
                root,
                height(rows),
                digest_of(value_words(row_of(submatrix, cols, n - 1))),
                indices[n - 1] as nat,
            ),
        }
    }
}

/// The digest of a run of words.
fn hash_words(ws: &[u64]) -> (r: Digest)
    ensures
        r == digest_of(ws@),
{
    let empty: Vec<u8> = Vec::new();
    let mut sponge: Sponge = Sponge::new(empty.as_slice());
    assert(ws@.take(0) == Seq::<u64>::empty());
    assert(sponge@ =~= words_bytes(ws@.take(0)));
    for i in 0..ws.len()
        invariant
            sponge@ == words_bytes(ws@.take(i as int)),
    {
        sponge.absorb_word(ws[i]);
        assert(ws@.take(i + 1).drop_last() == ws@.take(i as int));
    }
    assert(ws@.take(ws@.len() as int) == ws@);
    let bytes: Vec<u8> = sponge.peek(32);
    let a: u64 = le_word(bytes.as_slice(), 0);
    let b: u64 = le_word(bytes.as_slice(), 8);
    let c: u64 = le_word(bytes.as_slice(), 16);
    let d: u64 = le_word(bytes.as_slice(), 24);
    Digest { a, b, c, d }
}

fn hash_pair(left: Digest, right: Digest) -> (r: Digest)
    ensures
        r == parent(left, right),
{
    let ws: Vec<u64> = vec![left.a, left.b, left.c, left.d, right.a, right.b, right.c, right.d];
    assert(ws@ =~= left.words() + right.words());
    hash_words(ws.as_slice())
}

fn hash_row(matrix: &[Field64], cols: usize, i: usize) -> (r: Digest)
    requires
        i * cols + cols <= matrix@.len(),
    ensures
        r == digest_of(value_words(row_of(vals(matrix@), cols as nat, i as int))),
{
    let len: usize = matrix.len();
    proof {
        assert(i * cols >= 0) by (nonlinear_arith);
    }
    let base: usize = i * cols;
    let mut ws: Vec<u64> = Vec::new();
    let ghost row = row_of(vals(matrix@), cols as nat, i as int);
    for j in 0..cols
        invariant
            len == matrix@.len(),
            base == i * cols,
            base + cols <= len,
            row == row_of(vals(matrix@), cols as nat, i as int),
            ws@.len() == j,
            forall|t: int| 0 <= t < j ==> #[trigger] ws@[t] == row[t] as u64,
    {
        ws.push(matrix[base + j].to_u64());
    }
    assert(ws@ =~= value_words(row));
    hash_words(ws.as_slice())
}

/// Parameters of a matrix commitment.
#[derive(Clone, Copy, Debug, PartialEq, Eq, Structural)]
pub struct Config {
    pub num_rows: usize,
    pub num_cols: usize,
}

/// All levels of a Merkle tree, the leaves first.
#[derive(Debug)]
pub struct Witness {
    levels: Vec<Vec<Digest>>,
}

impl Witness {
    /// Is this the tree over the given leaves?
    pub closed spec fn is_tree_of(&self, leaves: Seq<Digest>) -> bool {
        &&& self.levels@.len() == height(leaves.len()) + 1
        &&& forall|k: int|
            0 <= k < self.levels@.len() ==> (#[trigger] self.levels@[k])@.len() == pow2(
                (height(leaves.len()) - k) as nat,
            )
        &&& forall|k: int, i: int|
            0 <= k < self.levels@.len() && 0 <= i < self.levels@[k]@.len()
                ==> #[trigger] self.levels@[k]@[i] == node(leaves, k as nat, i as nat)
    }
}

/// A commitment: the tree's root.
#[derive(Clone, Copy, Debug, PartialEq, Eq, Structural)]
pub struct Commitment {
    pub root: Digest,
}

impl Config {
    /// Does the matrix fit a machine size?
    pub open spec fn wf(&self) -> bool {
        &&& self.num_rows * self.num_cols <= usize::MAX
        &&& next_pow2(self.num_rows as nat) <= usize::MAX
    }

    /// The number of entries.
    pub open spec fn spec_size(&self) -> nat {
        (self.num_rows * self.num_cols) as nat
    }

    /// The digests of the rows.
    pub open spec fn leaves(&self, matrix: Seq<int>) -> Seq<Digest> {
        leaves_of(matrix, self.num_rows as nat, self.num_cols as nat)
    }

    /// Commit to a matrix and send the root.
    pub fn commit(&self, ps: &mut ProverState, matrix: &[Field64]) -> (r: Witness)
        requires
            self.wf(),
            matrix@.len() == self.spec_size(),
        ensures
            r.is_tree_of(self.leaves(vals(matrix@))),
            final(ps)@ == old(ps)@.send_all(root_of(self.leaves(vals(matrix@))).words()),
    {
        let ghost m = vals(matrix@);
        let ghost leaves = self.leaves(m);
        let h: usize = ceil_log2(self.num_rows) as usize;
        let width: usize = crate::arith::power_of_two(h);
        let mut level: Vec<Digest> = Vec::new();
        proof {
            lemma_ceil_log2(self.num_rows as nat);
        }
        for i in 0..width
            invariant
                self.wf(),
                matrix@.len() == self.spec_size(),
                m == vals(matrix@),
                leaves == self.leaves(m),
                level@.len() == i,
                forall|j: int| 0 <= j < i ==> #[trigger] level@[j] == node(leaves, 0, j as nat),
        {
            if i < self.num_rows {
                proof {
                    let (r, c, x) = (self.num_rows as int, self.num_cols as int, i as int);
                    assert(x * c + c <= r * c) by (nonlinear_arith)
                        requires
                            x < r,
                            c >= 0,
                    ;
                }
                level.push(hash_row(matrix, self.num_cols, i));
            } else {
                level.push(Digest { a: 0, b: 0, c: 0, d: 0 });
            }
        }
        let mut levels: Vec<Vec<Digest>> = Vec::new();
        levels.push(level);
        for k in 0..h
            invariant
                h == height(leaves.len()),
                levels@.len() == k + 1,
                forall|t: int|
                    0 <= t < levels@.len() ==> (#[trigger] levels@[t])@.len() == pow2((h - t) as nat),
                forall|t: int, i: int|
                    0 <= t < levels@.len() && 0 <= i < levels@[t]@.len() ==> #[trigger] levels@[t]@[i]
                        == node(leaves, t as nat, i as nat),
        {
            let mut next: Vec<Digest> = Vec::new();
            let below: &Vec<Digest> = &levels[k];
            proof {
                lemma_pow2_unfold((h - k) as nat);
            }
            let len: usize = below.len();
            let half: usize = len / 2;
            for i in 0..half
                invariant
                    k < levels@.len(),
                    below@ == levels@[k as int]@,
                    2 * half <= len,
                    len == below@.len(),
                    next@.len() == i,
                    forall|t: int, j: int|
                        0 <= t < levels@.len() && 0 <= j < levels@[t]@.len() ==> #[trigger] levels@[t]@[j]
                            == node(leaves, t as nat, j as nat),
                    forall|j: int|
                        0 <= j < i ==> #[trigger] next@[j] == node(leaves, (k + 1) as nat, j as nat),
            {
                proof {
                    assert(levels@[k as int]@[2 * i] == node(leaves, k as nat, (2 * i) as nat));
                    assert(levels@[k as int]@[2 * i + 1] == node(leaves, k as nat, (2 * i + 1) as nat));
                }
                next.push(hash_pair(below[2 * i], below[2 * i + 1]));
            }
            levels.push(next);
        }
        proof {
            vstd::arithmetic::power2::lemma2_to64();
            assert(levels@[h as int]@.len() == 1);
            assert(levels@[h as int]@[0] == node(leaves, h as nat, 0));
        }
        let root: Digest = levels[h][0];
        let ws: Vec<u64> = vec![root.a, root.b, root.c, root.d];
        assert(ws@ =~= root.words());
        ps.send_words(ws.as_slice());
        Witness { levels }
    }

    /// Read a root.
    pub fn receive_commitment(&self, vs: &mut VerifierState) -> (r: Result<Commitment, VerificationError>)
        ensures
            match old(vs)@.read_all(4) {
                None => r is Err,
                Some((ws, next)) => r is Ok && final(vs)@ == next && r->Ok_0.root == (Digest {
                    a: ws[0],
                    b: ws[1],
                    c: ws[2],
                    d: ws[3],
                }),
            },
    {
        match read_digest(vs) {
            Ok(root) => Ok(Commitment { root }),
            Err(e) => Err(e),
        }
    }

    /// Send the siblings on the way from every index to the root.
    pub(crate) fn open(
        &self,
        ps: &mut ProverState,
        witness: &Witness,
        indices: &[usize],
        Ghost(leaves): Ghost<Seq<Digest>>,
    )
        requires
            witness.is_tree_of(leaves),
            leaves.len() == self.num_rows,
            forall|i: int| 0 <= i < indices@.len() ==> #[trigger] indices@[i] < self.num_rows,
        ensures
            final(ps)@ == paths_sent(old(ps)@, leaves, indices@, indices@.len()),
    {
        let h: usize = witness.levels.len() - 1;
        for n in 0..indices.len()
            invariant
                witness.is_tree_of(leaves),
                leaves.len() == self.num_rows,
                h == height(leaves.len()),
                forall|i: int| 0 <= i < indices@.len() ==> #[trigger] indices@[i] < self.num_rows,
                ps@ == paths_sent(old(ps)@, leaves, indices@, n as nat),
        {
            let index: usize = indices[n];
            let ghost path = path_of(leaves, index as nat);
            let mut ws: Vec<u64> = Vec::new();
            let mut at: usize = index;
            proof {
                lemma_ceil_log2(self.num_rows as nat);
                vstd::arithmetic::power2::lemma2_to64();
                assert(pow2(0) == 1);
                vstd::arithmetic::div_mod::lemma_div_basics(index as int);
                assert(index as nat / pow2(0) == index);
                assert(path.take(0) =~= Seq::<Digest>::empty());
            }
            for k in 0..h
                invariant
                    witness.is_tree_of(leaves),
                    h == height(leaves.len()),
                    path == path_of(leaves, index as nat),
                    ws@ == path_words(path.take(k as int)),
                    at == index as nat / pow2(k as nat),
                    at < pow2((h - k) as nat),
            {
                proof {
                    lemma_pow2_unfold((h - k) as nat);
                    lemma_pow2_unfold((k + 1) as nat);
                    lemma_pow2_pos(k as nat);
                    assert(witness.levels@[k as int]@.len() == pow2((h - k) as nat));
                }
                let other: usize = if at % 2 == 0 {
                    at + 1
                } else {
                    at - 1
                };
                let d: Digest = witness.levels[k][other];
                proof {
                    assert(witness.levels@[k as int]@[other as int] == node(
                        leaves,
                        k as nat,
                        other as nat,
                    ));
                    assert(d == path[k as int]);
                    assert(path.take(k + 1).drop_last() =~= path.take(k as int));
                    vstd::arithmetic::div_mod::lemma_div_denominator(
                        index as int,
                        pow2(k as nat) as int,
                        2,
                    );
                    assert(pow2(k as nat) * 2 == pow2((k + 1) as nat));
                }
                let ghost before = ws@;
                ws.push(d.a);
                ws.push(d.b);
                ws.push(d.c);
                ws.push(d.d);
                assert(ws@ =~= before + d.words());
                at = at / 2;
            }
            assert(path.take(h as int) =~= path);
            ps.send_words(ws.as_slice());
        }
    }

    /// Check the rows at the given indices against the root.
    pub fn verify(
        &self,
        vs: &mut VerifierState,
        commitment: &Commitment,
        indices: &[usize],
        submatrix: &[Field64],
    ) -> (r: Result<(), VerificationError>)
        requires
            submatrix@.len() == indices@.len() * self.num_cols,
        ensures
            match rows_checked(
                old(vs)@,
                commitment.root,
                self.num_rows as nat,
                self.num_cols as nat,
                indices@,
                vals(submatrix@),
                indices@.len(),
            ) {
                None => r is Err,
                Some(next) => r is Ok && final(vs)@ == next,
            },
            r is Ok ==> forall|i: int|
                0 <= i < indices@.len() ==> leads_to_root(
                    commitment.root,
                    self.num_rows as nat,
                    row_of(vals(submatrix@), self.num_cols as nat, i),
                    #[trigger] indices@[i] as nat,
                ),
    {
        let h: usize = ceil_log2(self.num_rows) as usize;
        let ghost sub = vals(submatrix@);
        let ghost rows = self.num_rows as nat;
        let ghost cols = self.num_cols as nat;
        for n in 0..indices.len()
            invariant
                submatrix@.len() == indices@.len() * self.num_cols,
                sub == vals(submatrix@),
                rows == self.num_rows,
                cols == self.num_cols,
                h == height(rows),
                rows_checked(old(vs)@, commitment.root, rows, cols, indices@, sub, n as nat) == Some(
                    vs@,
                ),
        {
            proof {
                let (a, b, c) = (n as int, indices@.len() as int, self.num_cols as int);
                assert(a * c + c <= b * c) by (nonlinear_arith)
                    requires
                        a < b,
                        c >= 0,
                ;
            }
            let leaf: Digest = hash_row(submatrix, self.num_cols, n);
            match check_leaf(vs, commitment.root, h, leaf, indices[n]) {
                Ok(()) => {},
                Err(e) => {
                    proof {
                        lemma_rows_fail(
                            old(vs)@,
                            commitment.root,
                            rows,
                            cols,
                            indices@,
                            sub,
                            (n + 1) as nat,
                            indices@.len(),
                        );
                    }
                    return Err(e);
                },
            }
        }
        proof {
            assert forall|i: int| 0 <= i < indices@.len() implies leads_to_root(
                commitment.root,
                rows,
                row_of(sub, cols, i),
                #[trigger] indices@[i] as nat,
            ) by {
                law_accepted_rows_lead_to_root(
                    old(vs)@,
                    commitment.root,
                    rows,
                    cols,
                    indices@,
                    sub,
                    indices@.len(),
                    i,
                );
            }
        }
        Ok(())
    }
}

/// Read the siblings of a leaf and follow them to the root.
fn check_leaf(vs: &mut VerifierState, root: Digest, h: usize, leaf: Digest, index: usize) -> (r: Result<
    (),
    VerificationError,
>)
    ensures
        match leaf_checked(old(vs)@, root, h as nat, leaf, index as nat) {
            None => r is Err,
            Some(next) => r is Ok && final(vs)@ == next,
        },
{
    reveal(leaf_checked);
    let path: Vec<Digest> = match read_path(vs, h) {
        Ok(p) => p,
        Err(e) => {
            return Err(e);
        },
    };
    let mut current: Digest = leaf;
    let mut at: usize = index;
    proof {
        vstd::arithmetic::power2::lemma2_to64();
        assert(pow2(0) == 1);
        vstd::arithmetic::div_mod::lemma_div_basics(index as int);
        assert(index as nat / pow2(0) == index);
    }
    for k in 0..h
        invariant
            path@.len() == h,
            current == climbed(leaf, index as nat, path@, k as nat),
            at == index as nat / pow2(k as nat),
    {
        if at % 2 == 0 {
            current = hash_pair(current, path[k]);
        } else {
            current = hash_pair(path[k], current);
        }
        proof {
            lemma_pow2_unfold((k + 1) as nat);
            lemma_pow2_pos(k as nat);
            vstd::arithmetic::div_mod::lemma_div_denominator(index as int, pow2(k as nat) as int, 2);
            assert(pow2(k as nat) * 2 == pow2((k + 1) as nat));
        }
        at = at / 2;
    }
    if current == root {
        Ok(())
    } else {
        Err(VerificationError)
    }
}

fn read_digest(vs: &mut VerifierState) -> (r: Result<Digest, VerificationError>)
    ensures
        match old(vs)@.read_all(4) {
            None => r is Err,
            Some((ws, next)) => r is Ok && final(vs)@ == next && r->Ok_0 == (Digest {
                a: ws[0],
                b: ws[1],
                c: ws[2],
                d: ws[3],
            }),
        },
{
    proof {
        lemma_read_all_len(vs@, 4);
    }
    match vs.read_words(4) {
        Ok(ws) => Ok(Digest { a: ws[0], b: ws[1], c: ws[2], d: ws[3] }),
        Err(e) => Err(e),
    }
}

proof fn lemma_read_all_len(v: VerifierView, n: nat)
    ensures
        v.read_all(n) matches Some((ws, next)) ==> ws.len() == n,
    decreases n,
{
    if n > 0 {
        lemma_read_all_len(v, (n - 1) as nat);
    }
}

fn read_path(vs: &mut VerifierState, h: usize) -> (r: Result<Vec<Digest>, VerificationError>)
    ensures
        match path_read(old(vs)@, h as nat) {
            None => r is Err,
            Some((path, next)) => r is Ok && r->Ok_0@ == path && final(vs)@ == next && r->Ok_0@.len()
                == h,
        },
{
    let mut out: Vec<Digest> = Vec::new();
    for k in 0..h
        invariant
            out@.len() == k,
            path_read(old(vs)@, k as nat) == Some((out@, vs@)),
    {
        match read_digest(vs) {
            Ok(d) => {
                out.push(d);
            },
            Err(e) => {
                proof {
                    lemma_path_fails(old(vs)@, (k + 1) as nat, h as nat);
                }
                return Err(e);
            },
        }
    }
    Ok(out)
}

proof fn lemma_path_fails(v: VerifierView, k: nat, h: nat)
    requires
        k <= h,
        path_read(v, k) is None,
    ensures
        path_read(v, h) is None,
    decreases h,
{
    if k < h {
        lemma_path_fails(v, k, (h - 1) as nat);
    }
}

proof fn lemma_rows_fail(
    v: VerifierView,
    root: Digest,
    rows: nat,
    cols: nat,
    indices: Seq<usize>,
    sub: Seq<int>,
    k: nat,
    n: nat,
)
    requires
        k <= n,
        rows_checked(v, root, rows, cols, indices, sub, k) is None,
    ensures
        rows_checked(v, root, rows, cols, indices, sub, n) is None,
    decreases n,
{
    if k < n {
        lemma_rows_fail(v, root, rows, cols, indices, sub, k, (n - 1) as nat);
    }
}

/// The siblings lead from a leaf to the nodes above it.
pub proof fn lemma_climb(leaves: Seq<Digest>, i: nat, k: nat)
    requires
        k <= height(leaves.len()),
    ensures
        climbed(node(leaves, 0, i), i, path_of(leaves, i), k) == node(leaves, k, i / pow2(k)),
    decreases k,
{
    if k == 0 {
        vstd::arithmetic::power2::lemma2_to64();
        assert(i / 1 == i);
    } else {
        let j = (k - 1) as nat;
        lemma_climb(leaves, i, j);
        lemma_pow2_unfold(k);
        lemma_pow2_pos(j);
        vstd::arithmetic::div_mod::lemma_div_denominator(i as int, pow2(j) as int, 2);
        assert(pow2(j) * 2 == pow2(k));
        let at = i / pow2(j);
        let up = at / 2;
        assert(i / pow2(k) == up);
        let path = path_of(leaves, i);
        assert(path[j as int] == node(leaves, j, sibling(at)));
        assert(node(leaves, k, up) == parent(node(leaves, j, 2 * up), node(leaves, j, 2 * up + 1)));
        if at % 2 == 0 {
            assert(2 * up == at);
            assert(sibling(at) == 2 * up + 1);
        } else {
            assert(2 * up + 1 == at);
            assert(sibling(at) == 2 * up);
        }
    }
}

/// A path that was sent is read.
proof fn lemma_path_read(p: ProverView, path: Seq<Digest>, q: ProverView, tail: Seq<u64>)
    requires
        follows(p.send_all(path_words(path)), q),
    ensures
        path_read(pending(p, q, tail), path.len()) == Some(
            (path, pending(p.send_all(path_words(path)), q, tail)),
        ),
    decreases path.len(),
{
    if path.len() == 0 {
        assert(path =~= Seq::<Digest>::empty());
    } else {
        let below = path.drop_last();
        let d = path.last();
        let mid = p.send_all(path_words(below));
        crate::transcript_laws::lemma_send_all_concat(p, path_words(below), d.words());
        lemma_follows_send_all(mid, d.words());
        lemma_follows_trans(mid, mid.send_all(d.words()), q);
        lemma_path_read(p, below, q, tail);
        law_read_words(mid, d.words(), q, tail);
        assert(below.push(d) =~= path);
    }
}

/// The prover goes on while it sends paths.
pub proof fn lemma_paths_follow(p: ProverView, leaves: Seq<Digest>, indices: Seq<usize>, n: nat)
    ensures
        follows(p, paths_sent(p, leaves, indices, n)),
    decreases n,
{
    if n == 0 {
        lemma_follows_refl(p);
    } else {
        let mid = paths_sent(p, leaves, indices, (n - 1) as nat);
        lemma_paths_follow(p, leaves, indices, (n - 1) as nat);
        let ws = path_words(path_of(leaves, indices[n - 1] as nat));
        lemma_follows_send_all(mid, ws);
        lemma_follows_trans(p, mid, mid.send_all(ws));
    }
}

/// Completeness: the rows of a committed matrix, sent with the siblings on their
/// ways to the root, are accepted.
pub proof fn law_open_verifies(
    cfg: Config,
    matrix: Seq<int>,
    indices: Seq<usize>,
    submatrix: Seq<int>,
    n: nat,
    p: ProverView,
    q: ProverView,
    tail: Seq<u64>,
)
    requires
        n <= indices.len(),
        forall|i: int| 0 <= i < indices.len() ==> #[trigger] indices[i] < cfg.num_rows,
        forall|i: int|
            0 <= i < indices.len() ==> row_of(submatrix, cfg.num_cols as nat, i) == row_of(
                matrix,
                cfg.num_cols as nat,
                #[trigger] indices[i] as int,
            ),
        follows(paths_sent(p, cfg.leaves(matrix), indices, n), q),
    ensures
        rows_checked(
            pending(p, q, tail),
            root_of(cfg.leaves(matrix)),
            cfg.num_rows as nat,
            cfg.num_cols as nat,
            indices,
            submatrix,
            n,
        ) == Some(pending(paths_sent(p, cfg.leaves(matrix), indices, n), q, tail)),
    decreases n,
{
    let leaves = cfg.leaves(matrix);
    if n > 0 {
        let m = (n - 1) as nat;
        let i = indices[m as int] as nat;
        let mid = paths_sent(p, leaves, indices, m);
        let path = path_of(leaves, i);
        lemma_follows_send_all(mid, path_words(path));
        lemma_follows_trans(mid, mid.send_all(path_words(path)), q);
        law_open_verifies(cfg, matrix, indices, submatrix, m, p, q, tail);
        lemma_path_read(mid, path, q, tail);
        let h = height(leaves.len());
        lemma_climb(leaves, i, h);
        lemma_ceil_log2(leaves.len());
        assert(i / pow2(h) == 0) by {
            vstd::arithmetic::div_mod::lemma_basic_div(i as int, pow2(h) as int);
        }
        assert(node(leaves, 0, i) == leaves[i as int]);
        reveal(leaf_checked);
    }
}

} // verus!
