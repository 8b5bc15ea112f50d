//! Commitments bind: whoever opens a commitment to rows that were not committed to has
//! found a collision of the sponge.

use crate::arith::lemma_ceil_log2;
use crate::field::{all_canonical, canonical, MODULUS};
use crate::irs_commit;
use crate::irs_commit::{joined, joined_row, lemma_index_count, lemma_read_fields_len, rows_at};
use crate::irs_laws::{
    lemma_joined_row_len, lemma_joined_rows, lemma_row_canonical, lemma_rows_at, matrices_wf,
    matrix_roots,
};
use crate::matrix_commit::{
    climbed, digest_of, digest_of_bytes, height, leaf_checked, lemma_climb, node, parent, path_of,
    path_read, root_of, row_of, rows_checked, value_words, Config, Digest,
};
use crate::transcript::{le_value, sponge_output, word_bytes, words_bytes, VerifierView};
use vstd::arithmetic::power2::pow2;
use vstd::prelude::*;

verus! {

/// Has the sponge a collision: do two different inputs give the same 32 bytes?
pub open spec fn sponge_collision() -> bool {
    exists|a: Seq<u8>, b: Seq<u8>|
        a != b && #[trigger] sponge_output(a, 32) == #[trigger] sponge_output(b, 32)
}

/// A word is put together from its bytes.
proof fn lemma_split(a: nat)
    requires
        a < 0x1_0000_0000_0000_0000,
    ensures
        a == a % 256 + 0x100 * (a / 0x100 % 256) + 0x1_0000 * (a / 0x1_0000 % 256) + 0x100_0000 * (a
            / 0x100_0000 % 256) + 0x1_0000_0000 * (a / 0x1_0000_0000 % 256) + 0x100_0000_0000 * (a
            / 0x100_0000_0000 % 256) + 0x1_0000_0000_0000 * (a / 0x1_0000_0000_0000 % 256)
            + 0x100_0000_0000_0000 * (a / 0x100_0000_0000_0000 % 256),
{
    assert(a / 0x1_0000 == a / 0x100 / 256);
    assert(a / 0x100_0000 == a / 0x1_0000 / 256);
    assert(a / 0x1_0000_0000 == a / 0x100_0000 / 256);
    assert(a / 0x100_0000_0000 == a / 0x1_0000_0000 / 256);
    assert(a / 0x1_0000_0000_0000 == a / 0x100_0000_0000 / 256);
    assert(a / 0x100_0000_0000_0000 == a / 0x1_0000_0000_0000 / 256);
}

proof fn lemma_word_bytes_injective(a: u64, b: u64)
    requires
        word_bytes(a) == word_bytes(b),
    ensures
        a == b,
{
    let (x, y) = (word_bytes(a), word_bytes(b));
    assert(x[0] == y[0] && x[1] == y[1] && x[2] == y[2] && x[3] == y[3] && x[4] == y[4] && x[5]
        == y[5] && x[6] == y[6] && x[7] == y[7]);
    lemma_split(a as nat);
    lemma_split(b as nat);
}

proof fn lemma_words_bytes_len(ws: Seq<u64>)
    ensures
        words_bytes(ws).len() == 8 * ws.len(),
    decreases ws.len(),
{
    if ws.len() > 0 {
        lemma_words_bytes_len(ws.drop_last());
    }
}

/// Different runs of words have different bytes.
pub proof fn law_words_bytes_injective(a: Seq<u64>, b: Seq<u64>)
    requires
        words_bytes(a) == words_bytes(b),
    ensures
        a == b,
    decreases a.len(),
{
    lemma_words_bytes_len(a);
    lemma_words_bytes_len(b);
    if a.len() == 0 {
        assert(a =~= b);
    } else {
        let (p, q) = (a.drop_last(), b.drop_last());
        lemma_words_bytes_len(p);
        lemma_words_bytes_len(q);
        let n = 8 * p.len() as int;
        assert(words_bytes(p) =~= words_bytes(a).take(n));
        assert(words_bytes(q) =~= words_bytes(b).take(n));
        assert(word_bytes(a.last()) =~= words_bytes(a).skip(n));
        assert(word_bytes(b.last()) =~= words_bytes(b).skip(n));
        law_words_bytes_injective(p, q);
        lemma_word_bytes_injective(a.last(), b.last());
        assert(a =~= p.push(a.last()));
        assert(b =~= q.push(b.last()));
    }
}

spec fn byte_power(n: nat) -> nat
    decreases n,
{
    if n == 0 {
        1
    } else {
        256 * byte_power((n - 1) as nat)
    }
}

proof fn lemma_le_value(a: Seq<u8>)
    ensures
        le_value(a) < byte_power(a.len()),
    decreases a.len(),
{
    if a.len() > 0 {
        lemma_le_value(a.drop_first());
    }
}

proof fn lemma_le_value_injective(a: Seq<u8>, b: Seq<u8>)
    requires
        a.len() == b.len(),
        le_value(a) == le_value(b),
    ensures
        a == b,
    decreases a.len(),
{
    if a.len() > 0 {
        let (x, y) = (le_value(a.drop_first()), le_value(b.drop_first()));
        assert(a[0] + 256 * x == b[0] + 256 * y);
        assert(a[0] == b[0] && x == y);
        lemma_le_value_injective(a.drop_first(), b.drop_first());
        assert(a =~= seq![a[0]] + a.drop_first());
        assert(b =~= seq![b[0]] + b.drop_first());
    }
    assert(a =~= b);
}

proof fn lemma_eight_bytes(a: Seq<u8>, b: Seq<u8>)
    requires
        a.len() == 8,
        b.len() == 8,
        le_value(a) as u64 == le_value(b) as u64,
    ensures
        a == b,
{
    lemma_le_value(a);
    lemma_le_value(b);
    reveal_with_fuel(byte_power, 9);
    lemma_le_value_injective(a, b);
}

/// Different runs of words with one digest are a collision of the sponge: the digest
/// depends on every word, and every byte of the output goes into it.
pub proof fn law_digest_binds(a: Seq<u64>, b: Seq<u64>)
    requires
        digest_of(a) == digest_of(b),
    ensures
        a == b || sponge_collision(),
{
    let (x, y) = (words_bytes(a), words_bytes(b));
    let (s, t) = (sponge_output(x, 32), sponge_output(y, 32));
    assert(digest_of_bytes(s) == digest_of_bytes(t));
    lemma_eight_bytes(s.subrange(0, 8), t.subrange(0, 8));
    lemma_eight_bytes(s.subrange(8, 16), t.subrange(8, 16));
    lemma_eight_bytes(s.subrange(16, 24), t.subrange(16, 24));
    lemma_eight_bytes(s.subrange(24, 32), t.subrange(24, 32));
    assert forall|i: int| 0 <= i < 32 implies s[i] == t[i] by {
        if i < 8 {
            assert(s[i] == s.subrange(0, 8)[i] && t[i] == t.subrange(0, 8)[i]);
        } else if i < 16 {
            assert(s[i] == s.subrange(8, 16)[i - 8] && t[i] == t.subrange(8, 16)[i - 8]);
        } else if i < 24 {
            assert(s[i] == s.subrange(16, 24)[i - 16] && t[i] == t.subrange(16, 24)[i - 16]);
        } else {
            assert(s[i] == s.subrange(24, 32)[i - 24] && t[i] == t.subrange(24, 32)[i - 24]);
        }
    }
    assert(s =~= t);
    if x == y {
        law_words_bytes_injective(a, b);
    }
}

proof fn lemma_words_injective(a: Digest, b: Digest)
    requires
        a.words() == b.words(),
    ensures
        a == b,
{
    let (x, y) = (a.words(), b.words());
    assert(x[0] == y[0] && x[1] == y[1] && x[2] == y[2] && x[3] == y[3]);
}

proof fn lemma_parent_binds(l: Digest, r: Digest, x: Digest, y: Digest)
    requires
        parent(l, r) == parent(x, y),
    ensures
        (l == x && r == y) || sponge_collision(),
{
    let (a, b) = (l.words() + r.words(), x.words() + y.words());
    law_digest_binds(a, b);
    if a == b {
        assert(l.words() =~= a.take(4) && x.words() =~= b.take(4));
        assert(r.words() =~= a.skip(4) && y.words() =~= b.skip(4));
        lemma_words_injective(l, x);
        lemma_words_injective(r, y);
    }
}

/// Two leaves that lead to one node from one place are equal.
proof fn lemma_climb_binds(a: Digest, b: Digest, i: nat, p: Seq<Digest>, q: Seq<Digest>, k: nat)
    requires
        climbed(a, i, p, k) == climbed(b, i, q, k),
    ensures
        a == b || sponge_collision(),
    decreases k,
{
    if k > 0 {
        let j = (k - 1) as nat;
        let (x, y) = (climbed(a, i, p, j), climbed(b, i, q, j));
        if (i / pow2(j)) % 2 == 0 {
            lemma_parent_binds(x, p[j as int], y, q[j as int]);
        } else {
            lemma_parent_binds(p[j as int], x, q[j as int], y);
        }
        if x == y {
            lemma_climb_binds(a, b, i, p, q, j);
        }
    }
}

proof fn lemma_path_len(v: VerifierView, h: nat)
    ensures
        path_read(v, h) matches Some((path, next)) ==> path.len() == h,
    decreases h,
{
    if h > 0 {
        lemma_path_len(v, (h - 1) as nat);
    }
}

/// Does a row lead to the root, from its place, by siblings of every level?
pub open spec fn leads_to_root(root: Digest, rows: nat, row: Seq<int>, index: nat) -> bool {
    exists|path: Seq<Digest>|
        path.len() == height(rows) && #[trigger] climbed(
            digest_of(value_words(row)),
            index,
            path,
            height(rows),
        ) == root
}

/// Every row that is accepted leads to the root.
pub proof fn law_accepted_rows_lead_to_root(
    v: VerifierView,
    root: Digest,
    rows: nat,
    cols: nat,
    indices: Seq<usize>,
    submatrix: Seq<int>,
    n: nat,
    i: int,
)
    requires
        rows_checked(v, root, rows, cols, indices, submatrix, n) is Some,
        0 <= i < n,
    ensures
        leads_to_root(root, rows, row_of(submatrix, cols, i), indices[i] as nat),
    decreases n,
{
    let m = (n - 1) as nat;
    if i < m {
        law_accepted_rows_lead_to_root(v, root, rows, cols, indices, submatrix, m, i);
    } else {
        reveal(leaf_checked);
        let mid = rows_checked(v, root, rows, cols, indices, submatrix, m).unwrap();
        let (path, next) = path_read(mid, height(rows)).unwrap();
        lemma_path_len(mid, height(rows));
        assert(climbed(
            digest_of(value_words(row_of(submatrix, cols, i))),
            indices[i] as nat,
            path,
            height(rows),
        ) == root);
    }
}

proof fn lemma_value_words_injective(a: Seq<int>, b: Seq<int>)
    requires
        all_canonical(a),
        all_canonical(b),
        value_words(a) == value_words(b),
    ensures
        a == b,
{
    assert(a.len() == value_words(a).len() && b.len() == value_words(b).len());
    assert forall|i: int| 0 <= i < a.len() implies a[i] == b[i] by {
        assert(canonical(a[i]) && canonical(b[i]));
        assert(value_words(a)[i] == a[i] as u64 && value_words(b)[i] == b[i] as u64);
        assert(a[i] < MODULUS && b[i] < MODULUS);
    }
    assert(a =~= b);
}

/// Two rows that lead to one root from one place are equal, or give a collision.
pub proof fn law_rows_are_bound(root: Digest, rows: nat, a: Seq<int>, b: Seq<int>, index: nat)
    requires
        all_canonical(a),
        all_canonical(b),
        leads_to_root(root, rows, a, index),
        leads_to_root(root, rows, b, index),
    ensures
        a == b || sponge_collision(),
{
    let h = height(rows);
    let (x, y) = (digest_of(value_words(a)), digest_of(value_words(b)));
    let p = choose|path: Seq<Digest>|
        path.len() == h && #[trigger] climbed(x, index, path, h) == root;
    let q = choose|path: Seq<Digest>|
        path.len() == h && #[trigger] climbed(y, index, path, h) == root;
    lemma_climb_binds(x, y, index, p, q, h);
    if x == y {
        law_digest_binds(value_words(a), value_words(b));
        if value_words(a) == value_words(b) {
            lemma_value_words_injective(a, b);
        }
    }
}

/// The rows of a committed matrix lead to its root.
pub proof fn law_committed_rows_lead_to_root(cfg: Config, matrix: Seq<int>, index: nat)
    requires
        index < cfg.num_rows,
    ensures
        leads_to_root(
            root_of(cfg.leaves(matrix)),
            cfg.num_rows as nat,
            row_of(matrix, cfg.num_cols as nat, index as int),
            index,
        ),
{
    let leaves = cfg.leaves(matrix);
    let h = height(leaves.len());
    lemma_climb(leaves, index, h);
    lemma_ceil_log2(leaves.len());
    vstd::arithmetic::div_mod::lemma_basic_div(index as int, pow2(h) as int);
    assert(node(leaves, 0, index) == leaves[index as int]);
    assert(path_of(leaves, index).len() == h);
}

proof fn lemma_rows_equal(a: Seq<int>, b: Seq<int>, cols: nat, n: nat)
    requires
        a.len() == n * cols,
        b.len() == n * cols,
        forall|i: int| 0 <= i < n ==> #[trigger] row_of(a, cols, i) == row_of(b, cols, i),
    ensures
        a == b,
{
    assert forall|t: int| 0 <= t < a.len() implies a[t] == b[t] by {
        if cols == 0 {
            assert(n * cols == 0) by (nonlinear_arith)
                requires
                    cols == 0,
            ;
        } else {
            let i = t / (cols as int);
            let j = t % (cols as int);
            vstd::arithmetic::div_mod::lemma_fundamental_div_mod(t, cols as int);
            assert(cols * i == i * cols) by (nonlinear_arith);
            assert(i < n) by (nonlinear_arith)
                requires
                    t == i * cols + j,
                    t < n * cols,
                    0 <= j < cols,
            ;
            assert(i >= 0) by (nonlinear_arith)
                requires
                    t == i * cols + j,
                    t >= 0,
                    0 <= j < cols,
            ;
            assert(i * cols + cols <= n * cols) by (nonlinear_arith)
                requires
                    i < n,
            ;
            assert(row_of(a, cols, i) == row_of(b, cols, i));
            assert(row_of(a, cols, i)[j] == a[i * cols + j]);
            assert(row_of(b, cols, i)[j] == b[i * cols + j]);
        }
    }
    assert(a =~= b);
}

/// The rows read for one commitment are those of the committed matrix.
proof fn lemma_one_received(
    cfg: &irs_commit::Config,
    v: VerifierView,
    matrix: Seq<int>,
    indices: Seq<usize>,
)
    requires
        cfg.wf(),
        all_canonical(matrix),
        matrix.len() == cfg.codeword_length * cfg.cols(),
        forall|i: int| 0 <= i < indices.len() ==> #[trigger] indices[i] < cfg.codeword_length,
    ensures
        cfg.one_received(v, root_of(cfg.matrix_config().leaves(matrix)), indices) matches Some(
            (sub, next),
        ) ==> sub == rows_at(matrix, cfg.cols(), indices, indices.len()) || sponge_collision(),
{
    reveal(irs_commit::Config::one_received);
    let m = cfg.matrix_config();
    let cols = cfg.cols();
    let n = indices.len();
    let root = root_of(m.leaves(matrix));
    if let Some((sub, next)) = cfg.one_received(v, root, indices) {
        lemma_read_fields_len(v, n * cols);
        assert(n * cols == cols * n) by (nonlinear_arith);
        assert(cfg.codeword_length * cols == cols * cfg.codeword_length) by (nonlinear_arith);
        let mid = v.read_fields(n * cols).unwrap().1;
        let want = rows_at(matrix, cols, indices, n);
        lemma_rows_at(matrix, cfg.codeword_length as nat, cols, indices, n);
        if !sponge_collision() {
            assert forall|i: int| 0 <= i < n implies #[trigger] row_of(sub, cols, i) == row_of(
                want,
                cols,
                i,
            ) by {
                assert(indices[i] < cfg.codeword_length);
                law_accepted_rows_lead_to_root(
                    mid,
                    root,
                    cfg.codeword_length as nat,
                    cols,
                    indices,
                    sub,
                    n,
                    i,
                );
                law_committed_rows_lead_to_root(m, matrix, indices[i] as nat);
                lemma_row_canonical(sub, cols, n, i);
                lemma_row_canonical(matrix, cols, cfg.codeword_length as nat, indices[i] as int);
                law_rows_are_bound(
                    root,
                    cfg.codeword_length as nat,
                    row_of(sub, cols, i),
                    row_of(matrix, cols, indices[i] as int),
                    indices[i] as nat,
                );
            }
            lemma_rows_equal(sub, want, cols, n);
        }
    }
}

/// The rows read for one commitment do not depend on who sends them.
proof fn lemma_one_bound(
    cfg: &irs_commit::Config,
    v: VerifierView,
    w: VerifierView,
    root: Digest,
    indices: Seq<usize>,
)
    requires
        cfg.one_received(v, root, indices) is Some,
        cfg.one_received(w, root, indices) is Some,
    ensures
        cfg.one_received(v, root, indices).unwrap().0 == cfg.one_received(
            w,
            root,
            indices,
        ).unwrap().0 || sponge_collision(),
{
    reveal(irs_commit::Config::one_received);
    let cols = cfg.cols();
    let n = indices.len();
    let a = cfg.one_received(v, root, indices).unwrap().0;
    let b = cfg.one_received(w, root, indices).unwrap().0;
    let rows = cfg.codeword_length as nat;
    lemma_read_fields_len(v, n * cols);
    lemma_read_fields_len(w, n * cols);
    let after_a = v.read_fields(n * cols).unwrap().1;
    let after_b = w.read_fields(n * cols).unwrap().1;
    assert(n * cols == cols * n) by (nonlinear_arith);
    if !sponge_collision() {
        assert forall|i: int| 0 <= i < n implies #[trigger] row_of(a, cols, i) == row_of(
            b,
            cols,
            i,
        ) by {
            law_accepted_rows_lead_to_root(after_a, root, rows, cols, indices, a, n, i);
            law_accepted_rows_lead_to_root(after_b, root, rows, cols, indices, b, n, i);
            lemma_row_canonical(a, cols, n, i);
            lemma_row_canonical(b, cols, n, i);
            law_rows_are_bound(
                root,
                rows,
                row_of(a, cols, i),
                row_of(b, cols, i),
                indices[i] as nat,
            );
        }
        lemma_rows_equal(a, b, cols, n);
    }
}

proof fn lemma_all_bound(
    cfg: &irs_commit::Config,
    v: VerifierView,
    w: VerifierView,
    roots: Seq<Digest>,
    indices: Seq<usize>,
    k: nat,
)
    requires
        cfg.rows_received(v, roots, indices, k) is Some,
        cfg.rows_received(w, roots, indices, k) is Some,
    ensures
        cfg.rows_received(v, roots, indices, k).unwrap().0 == cfg.rows_received(
            w,
            roots,
            indices,
            k,
        ).unwrap().0 || sponge_collision(),
    decreases k,
{
    if k > 0 {
        let m = (k - 1) as nat;
        lemma_all_bound(cfg, v, w, roots, indices, m);
        lemma_one_bound(
            cfg,
            cfg.rows_received(v, roots, indices, m).unwrap().1,
            cfg.rows_received(w, roots, indices, m).unwrap().1,
            roots[m as int],
            indices,
        );
    }
}

/// An opening is bound to its commitments: two provers whose openings are accepted by
/// verifiers that draw the same indices have opened the same rows, or the sponge has a
/// collision.
pub proof fn law_opening_is_bound(
    cfg: &irs_commit::Config,
    v: VerifierView,
    w: VerifierView,
    roots: Seq<Digest>,
)
    requires
        v.sponge == w.sponge,
        cfg.verified(v, roots) is Some,
        cfg.verified(w, roots) is Some,
    ensures
        cfg.verified(v, roots).unwrap().0 == cfg.verified(w, roots).unwrap().0,
        cfg.verified(v, roots).unwrap().1 == cfg.verified(w, roots).unwrap().1
            || sponge_collision(),
{
    let (indices, sponge) = cfg.indices(v.sponge);
    lemma_all_bound(
        cfg,
        VerifierView { sponge, ..v },
        VerifierView { sponge, ..w },
        roots,
        indices,
        roots.len(),
    );
}

proof fn lemma_all_received(
    cfg: &irs_commit::Config,
    v: VerifierView,
    matrices: Seq<Seq<int>>,
    indices: Seq<usize>,
    k: nat,
)
    requires
        cfg.wf(),
        matrices_wf(cfg, matrices),
        k <= matrices.len(),
        forall|i: int| 0 <= i < indices.len() ==> #[trigger] indices[i] < cfg.codeword_length,
    ensures
        cfg.rows_received(v, matrix_roots(cfg, matrices), indices, k) matches Some((subs, next))
            ==> subs == cfg.all_rows_at(matrices, indices).take(k as int) || sponge_collision(),
    decreases k,
{
    let roots = matrix_roots(cfg, matrices);
    let all = cfg.all_rows_at(matrices, indices);
    if k > 0 {
        let m = (k - 1) as nat;
        lemma_all_received(cfg, v, matrices, indices, m);
        if let Some((subs, mid)) = cfg.rows_received(v, roots, indices, m) {
            assert(all_canonical(matrices[m as int]));
            lemma_one_received(cfg, mid, matrices[m as int], indices);
            assert(all.take(k as int) =~= all.take(m as int).push(all[m as int]));
        }
    } else {
        assert(all.take(0) =~= Seq::empty());
    }
}

proof fn lemma_joined_cell(subs: Seq<Seq<int>>, cols: nat, i: int, k: nat, b: int, c: int)
    requires
        0 <= b < k <= subs.len(),
        0 <= c < cols,
        0 <= i,
        forall|t: int| 0 <= t < subs.len() ==> (#[trigger] subs[t]).len() >= i * cols + cols,
    ensures
        joined_row(subs, cols, i, k).len() == k * cols,
        joined_row(subs, cols, i, k)[b * cols + c] == subs[b][i * cols + c],
    decreases k,
{
    let m = (k - 1) as nat;
    assert(subs[m as int].len() >= i * cols + cols);
    assert(i * cols >= 0) by (nonlinear_arith)
        requires
            i >= 0,
    ;
    assert(k * cols == m * cols + cols) by (nonlinear_arith)
        requires
            k == m + 1,
    ;
    if b < m {
        lemma_joined_cell(subs, cols, i, m, b, c);
        assert(b * cols + c < m * cols) by (nonlinear_arith)
            requires
                b < m,
                c < cols,
        ;
        assert(b * cols >= 0) by (nonlinear_arith)
            requires
                b >= 0,
        ;
    } else if m > 0 {
        lemma_joined_cell(subs, cols, i, m, 0, c);
    } else {
        assert(0 * cols == 0) by (nonlinear_arith);
        assert(joined_row(subs, cols, i, 0) == Seq::<int>::empty());
        assert(joined_row(subs, cols, i, 1) =~= row_of(subs[0], cols, i));
    }
}

#[verifier::spinoff_prover]
#[verifier::rlimit(60)]
proof fn lemma_received_rows(
    cfg: &irs_commit::Config,
    v: VerifierView,
    roots: Seq<Digest>,
    indices: Seq<usize>,
    k: nat,
)
    requires
        cfg.rows_received(v, roots, indices, k) is Some,
    ensures
        ({
            let subs = cfg.rows_received(v, roots, indices, k).unwrap().0;
            &&& subs.len() == k
            &&& forall|b: int|
                0 <= b < k ==> (#[trigger] subs[b]).len() == indices.len() * cfg.cols()
            &&& forall|b: int, i: int|
                0 <= b < k && 0 <= i < indices.len() ==> leads_to_root(
                    roots[b],
                    cfg.codeword_length as nat,
                    #[trigger] row_of(subs[b], cfg.cols(), i),
                    indices[i] as nat,
                )
        }),
    decreases k,
{
    if k > 0 {
        reveal(irs_commit::Config::one_received);
        let m = (k - 1) as nat;
        lemma_received_rows(cfg, v, roots, indices, m);
        let (before, mid) = cfg.rows_received(v, roots, indices, m).unwrap();
        let subs = cfg.rows_received(v, roots, indices, k).unwrap().0;
        let n = indices.len();
        lemma_read_fields_len(mid, n * cfg.cols());
        let (sub, next) = mid.read_fields(n * cfg.cols()).unwrap();
        assert(subs == before.push(sub));
        assert forall|b: int, i: int| 0 <= b < k && 0 <= i < n implies leads_to_root(
            roots[b],
            cfg.codeword_length as nat,
            #[trigger] row_of(subs[b], cfg.cols(), i),
            indices[i] as nat,
        ) by {
            if b < m {
                assert(subs[b] == before[b]);
                assert(leads_to_root(
                    roots[b],
                    cfg.codeword_length as nat,
                    row_of(before[b], cfg.cols(), i),
                    indices[i] as nat,
                ));
            } else {
                law_accepted_rows_lead_to_root(
                    next,
                    roots[b],
                    cfg.codeword_length as nat,
                    cfg.cols(),
                    indices,
                    sub,
                    n,
                    i,
                );
            }
        }
    }
}

/// The columns of commitment `b` in row `i` of what an opening of `count` commitments
/// gave.
pub open spec fn opened_row(rows: Seq<int>, cols: nat, count: nat, i: int, b: int) -> Seq<int> {
    row_of(row_of(rows, count * cols, i), cols, b)
}

/// Every row of an opening that is accepted leads to its commitment's root, from the
/// index that was drawn for it.
#[verifier::spinoff_prover]
#[verifier::rlimit(60)]
pub proof fn law_opened_rows_lead_to_roots(
    cfg: &irs_commit::Config,
    v: VerifierView,
    roots: Seq<Digest>,
    i: int,
    b: int,
)
    requires
        0 <= i < cfg.indices(v.sponge).0.len(),
        0 <= b < roots.len(),
    ensures
        cfg.verified(v, roots) matches Some((points, rows, next)) ==> leads_to_root(
            roots[b],
            cfg.codeword_length as nat,
            opened_row(rows, cfg.cols(), roots.len(), i, b),
            cfg.indices(v.sponge).0[i] as nat,
        ),
{
    let (indices, sponge) = cfg.indices(v.sponge);
    let (cols, n) = (cfg.cols(), indices.len());
    let drawn = VerifierView { sponge, ..v };
    if let Some((subs, next)) = cfg.rows_received(drawn, roots, indices, roots.len()) {
        lemma_received_rows(cfg, drawn, roots, indices, roots.len());
        let stride = roots.len() * cols;
        assert(i * cols + cols <= n * cols) by (nonlinear_arith)
            requires
                i < n,
        ;
        assert(i * cols >= 0 && b * cols >= 0) by (nonlinear_arith)
            requires
                i >= 0,
                b >= 0,
        ;
        assert(b * cols + cols <= stride) by (nonlinear_arith)
            requires
                b < roots.len(),
                stride == roots.len() * cols,
        ;
        assert forall|t: int| 0 <= t < subs.len() implies (#[trigger] subs[t]).len() >= n * cols by {
            assert(subs[t].len() == n * cols);
        }
        lemma_joined_rows(subs, cols, n, i);
        let row = joined_row(subs, cols, i, subs.len());
        assert(subs[b].len() == n * cols);
        let part = row_of(row, cols, b);
        let want = row_of(subs[b], cols, i);
        lemma_joined_row_len(subs, cols, n, i, subs.len());
        assert forall|c: int| 0 <= c < cols implies part[c] == want[c] by {
            lemma_joined_cell(subs, cols, i, subs.len(), b, c);
        }
        assert(part =~= want);
        assert(row_of(joined(subs, cols, n), subs.len() * cols, i) == row);
    }
}

/// Only what was committed to can be opened: every cell that a verifier has from an
/// opening that it accepts stands in a committed matrix, in the row whose index was
/// drawn and in its own column, or the sponge has a collision.
#[verifier::spinoff_prover]
#[verifier::rlimit(60)]
pub proof fn law_only_committed_rows(
    cfg: &irs_commit::Config,
    v: VerifierView,
    matrices: Seq<Seq<int>>,
    i: int,
    b: int,
    c: int,
)
    requires
        cfg.wf(),
        matrices_wf(cfg, matrices),
        0 <= i < cfg.indices(v.sponge).0.len(),
        0 <= b < matrices.len(),
        0 <= c < cfg.cols(),
    ensures
        cfg.verified(v, matrix_roots(cfg, matrices)) matches Some((points, rows, next)) ==> {
            ||| sponge_collision()
            ||| rows[i * (matrices.len() * cfg.cols()) + (b * cfg.cols() + c)]
                == matrices[b][cfg.indices(v.sponge).0[i] * cfg.cols() + c]
        },
{
    let (indices, sponge) = cfg.indices(v.sponge);
    let (cols, n) = (cfg.cols(), indices.len());
    let all = cfg.all_rows_at(matrices, indices);
    let stride = matrices.len() * cols;
    lemma_index_count(cfg, v.sponge);
    lemma_all_received(cfg, VerifierView { sponge, ..v }, matrices, indices, matrices.len());
    assert(all.take(matrices.len() as int) =~= all);
    assert(i * cols + cols <= n * cols) by (nonlinear_arith)
        requires
            i < n,
    ;
    assert forall|t: int| 0 <= t < all.len() implies (#[trigger] all[t]).len() == n * cols by {
        assert(all_canonical(matrices[t]));
        lemma_rows_at(matrices[t], cfg.codeword_length as nat, cols, indices, n);
    }
    lemma_joined_rows(all, cols, n, i);
    lemma_joined_cell(all, cols, i, all.len(), b, c);
    let whole = joined(all, cols, n);
    assert(i * stride + stride <= n * stride) by (nonlinear_arith)
        requires
            i < n,
    ;
    assert(i * stride >= 0) by (nonlinear_arith)
        requires
            i >= 0,
    ;
    assert(0 <= b * cols + c < stride) by (nonlinear_arith)
        requires
            0 <= b < matrices.len(),
            0 <= c < cols,
            stride == matrices.len() * cols,
    ;
    assert(row_of(whole, stride, i)[b * cols + c] == whole[i * stride + (b * cols + c)]);
    assert(all_canonical(matrices[b]));
    lemma_rows_at(matrices[b], cfg.codeword_length as nat, cols, indices, n);
    let at = indices[i] as int;
    assert(at * cols + cols <= cfg.codeword_length * cols) by (nonlinear_arith)
        requires
            at < cfg.codeword_length,
    ;
    assert(at * cols >= 0 && i * cols >= 0) by (nonlinear_arith)
        requires
            at >= 0,
            i >= 0,
    ;
    assert(row_of(all[b], cols, i) == row_of(matrices[b], cols, at));
    assert(row_of(all[b], cols, i)[c] == all[b][i * cols + c]);
    assert(row_of(matrices[b], cols, at)[c] == matrices[b][at * cols + c]);
}

} // verus!
