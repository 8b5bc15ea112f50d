//! The codeword's points are different, so that a codeword tells messages apart.

use crate::algebra::{dot_spec, evaluate, geometric};
use crate::field::{
    all_canonical, fmul, lemma_cancel, lemma_fmul_comm, lemma_fmul_one, lemma_fpow_add,
    lemma_fpow_canonical, lemma_residue_id, MODULUS,
};
use crate::irs_commit::Config;
use crate::matrix_commit::Digest;
use crate::orders::is_order;
use crate::polynomial_laws::{law_combination_tells_apart, law_power_is_remainder};
use crate::prime::{
    is_minus_one, lemma_minus_one_pow, lemma_no_small_order, lemma_seven_is_a_non_residue,
    lemma_seven_is_no_cube,
};
use crate::transcript::VerifierView;
use crate::vector_laws::law_evaluate_is_dot;
use vstd::arithmetic::div_mod::{
    lemma_fundamental_div_mod, lemma_mod_bound, lemma_mul_mod_noop_general, lemma_small_mod,
};
use vstd::arithmetic::power::{
    lemma1_pow, lemma_pow_adds, lemma_pow_mod_noop, lemma_pow_multiplies, pow,
};
use vstd::arithmetic::power2::{lemma2_to64, lemma_pow2_pos, lemma_pow2_unfold, pow2};
use vstd::prelude::*;

verus! {

/// Powers of the generator: the exponent of a point.
proof fn lemma_point_power(cfg: &Config, i: nat)
    requires
        cfg.codeword_length > 0,
    ensures
        cfg.point(i) == pow(7, (((MODULUS - 1) / cfg.codeword_length as int) * i) as nat)
            % (MODULUS as int),
{
    broadcast use lemma_fpow_canonical;

    let n = MODULUS as int;
    let e = ((MODULUS - 1) / cfg.codeword_length as int) as nat;
    lemma_residue_id(7);
    law_power_is_remainder(7, e);
    law_power_is_remainder(cfg.root(), i);
    lemma_pow_mod_noop(pow(7, e), i, n);
    lemma_pow_multiplies(7, e, i);
}

/// An exponent that a power-of-two order leaves open.
proof fn lemma_even_order(e: nat, m: nat, d: nat)
    requires
        e * pow2(m) == MODULUS - 1,
        0 < d < pow2(m),
    ensures
        pow(7, e * d) % (MODULUS as int) != 1,
{
    let n = MODULUS as int;
    lemma2_to64();
    if m == 0 {
        assert(pow2(0) == 1);
    }
    let k = (m - 1) as nat;
    lemma_pow2_unfold(m);
    let b = pow(7, e);
    assert(e * pow2(k) == 9223372034707292160) by (nonlinear_arith)
        requires
            e * (2 * pow2(k)) == 18446744069414584320,
    ;
    lemma_pow_multiplies(7, e, pow2(k));
    lemma_seven_is_a_non_residue();
    lemma_no_small_order(b, k, d, n);
    lemma_pow_multiplies(7, e, d);
}

/// An exponent that an order of three times a power of two leaves open.
#[verifier::spinoff_prover]
#[verifier::rlimit(60)]
proof fn lemma_threefold_order(e: nat, k: nat, d: nat)
    requires
        e * (3 * pow2(k)) == MODULUS - 1,
        0 < d < 3 * pow2(k),
    ensures
        pow(7, e * d) % (MODULUS as int) != 1,
{
    let n = MODULUS as int;
    let p = pow2(k) as int;
    lemma_pow2_pos(k);
    lemma2_to64();
    let q = d as int / p;
    let r = d as int % p;
    lemma_fundamental_div_mod(d as int, p);
    lemma_mod_bound(d as int, p);
    assert(0 <= q < 3) by (nonlinear_arith)
        requires
            d == p * q + r,
            0 <= r < p,
            0 <= d < 3 * p,
    ;
    if pow(7, e * d) % n == 1 {
        let c = 3 * e;
        assert(c * p == MODULUS - 1) by (nonlinear_arith)
            requires
                e * (3 * p) == MODULUS - 1,
                c == 3 * e,
        ;
        if r != 0 {
            lemma_even_order(c, k, r as nat);
            // The cube of the power is one.
            assert(e * d * 3 == c * d) by (nonlinear_arith)
                requires
                    c == 3 * e,
            ;
            lemma_pow_multiplies(7, e * d, 3);
            lemma_pow_mod_noop(pow(7, e * d), 3, n);
            lemma1_pow(3);
            lemma_small_mod(1, n as nat);
            assert(pow(7, c * d) % n == 1);
            // All but the remainder is a multiple of the order.
            assert(c * d == (c * p) * q + c * r) by (nonlinear_arith)
                requires
                    d == p * q + r,
            ;
            let whole = ((c * p) * q) as nat;
            lemma_whole_order(q as nat);
            assert(whole == (MODULUS - 1) * q) by (nonlinear_arith)
                requires
                    c * p == MODULUS - 1,
                    whole == (c * p) * q,
            ;
            let part = (c * r) as nat;
            assert(c * r >= 0) by (nonlinear_arith)
                requires
                    c >= 0,
                    r >= 0,
            ;
            lemma_pow_adds(7, whole, part);
            lemma_mul_mod_noop_general(pow(7, whole), pow(7, part), n);
            lemma_mod_bound(pow(7, part), n);
            lemma_small_mod((pow(7, part) % n) as nat, n as nat);
            assert(pow(7, part) % n == 1);
        } else {
            lemma_seven_is_no_cube();
            assert(e * p == 6148914689804861440) by (nonlinear_arith)
                requires
                    e * (3 * p) == 18446744069414584320,
            ;
            if q == 0 {
                assert(p * q == 0) by (nonlinear_arith)
                    requires
                        q == 0,
                ;
            } else if q == 1 {
                assert(p * q == p) by (nonlinear_arith)
                    requires
                        q == 1,
                ;
            } else {
                assert(q == 2);
                assert(e * d == 2 * (e * p)) by (nonlinear_arith)
                    requires
                        d == p * q + r,
                        r == 0,
                        q == 2,
                ;
            }
        }
    }
}

/// Multiples of the group's order.
proof fn lemma_whole_order(q: nat)
    ensures
        pow(7, ((MODULUS - 1) * q) as nat) % (MODULUS as int) == 1,
{
    let n = MODULUS as int;
    let half: nat = 9223372034707292160;
    lemma_seven_is_a_non_residue();
    let b = pow(7, half);
    assert(is_minus_one(b, n));
    let t = 2 * q;
    lemma_minus_one_pow(b, t, n);
    lemma_pow_multiplies(7, half, t);
    assert(half * t == (MODULUS - 1) * q) by (nonlinear_arith)
        requires
            half == 9223372034707292160,
            t == 2 * q,
            MODULUS == 18446744069414584321,
    ;
}

/// No point of a codeword is zero.
pub proof fn law_point_is_not_zero(cfg: &Config, i: nat)
    requires
        is_order(cfg.codeword_length as nat),
        i < cfg.codeword_length,
    ensures
        cfg.point(i) != 0,
{
    broadcast use lemma_fpow_canonical;

    let n = cfg.codeword_length as nat;
    let e = ((MODULUS - 1) / n as int) as nat;
    lemma_fundamental_div_mod(MODULUS - 1, n as int);
    assert(e * n == MODULUS - 1) by (nonlinear_arith)
        requires
            MODULUS - 1 == n as int * e as int + 0,
    ;
    lemma_point_power(cfg, n);
    lemma_whole_order(1);
    assert((MODULUS - 1) * 1 == MODULUS - 1);
    lemma_fpow_add(cfg.root(), i, (n - i) as nat);
    assert(fmul(cfg.point(i), cfg.point((n - i) as nat)) == 1);
    if cfg.point(i) == 0 {
        let x = cfg.point((n - i) as nat);
        assert(0 * x == 0) by (nonlinear_arith);
        lemma_residue_id(0);
    }
}

/// The codeword's points are all different, and none is zero.
#[verifier::spinoff_prover]
#[verifier::rlimit(60)]
pub proof fn law_points_are_different(cfg: &Config, i: nat, j: nat)
    requires
        is_order(cfg.codeword_length as nat),
        i < j < cfg.codeword_length,
    ensures
        cfg.point(i) != cfg.point(j),
        cfg.point(i) != 0,
{
    broadcast use lemma_fpow_canonical;

    let n = cfg.codeword_length as nat;
    let e = ((MODULUS - 1) / n as int) as nat;
    let root = cfg.root();
    lemma_fundamental_div_mod(MODULUS - 1, n as int);
    assert(e * n == MODULUS - 1) by (nonlinear_arith)
        requires
            MODULUS - 1 == n as int * e as int + 0,
    ;
    law_point_is_not_zero(cfg, i);
    // The powers do not come round to one before the last.
    let d = (j - i) as nat;
    lemma_fpow_add(root, i, d);
    if cfg.point(i) == cfg.point(j) {
        lemma_fmul_one(cfg.point(i));
        lemma_fmul_comm(cfg.point(i), cfg.point(d));
        lemma_residue_id(1);
        lemma_cancel(cfg.point(d), 1, cfg.point(i));
        lemma_point_power(cfg, d);
        if crate::arith::is_pow2(n) {
            let k = crate::arith::ceil_log2_spec(n);
            assert(n == pow2(k));
            lemma_even_order(e, k, d);
        } else {
            let k = crate::arith::ceil_log2_spec(n / 3);
            assert(n == 3 * pow2(k));
            lemma_threefold_order(e, k, d);
        }
    }
}

/// Different messages of one length give codewords that agree in fewer places than the
/// message is long: polynomials that agree at as many rows of the code are equal.
pub proof fn law_code_distance(cfg: &Config, a: Seq<int>, b: Seq<int>, rows: Seq<nat>)
    requires
        is_order(cfg.codeword_length as nat),
        a.len() == b.len(),
        all_canonical(a),
        all_canonical(b),
        rows.len() >= a.len(),
        forall|i: int| 0 <= i < rows.len() ==> #[trigger] rows[i] < cfg.codeword_length,
        forall|i: int, j: int| 0 <= i < j < rows.len() ==> #[trigger] rows[i] != #[trigger] rows[j],
        forall|i: int|
            0 <= i < rows.len() ==> evaluate(a, cfg.point(#[trigger] rows[i])) == evaluate(
                b,
                cfg.point(rows[i]),
            ),
    ensures
        a == b,
{
    broadcast use lemma_fpow_canonical;

    let xs = Seq::new(rows.len(), |i: int| cfg.point(rows[i]));
    assert forall|i: int, j: int| 0 <= i < j < xs.len() implies #[trigger] xs[i] != #[trigger] xs[j] by {
        assert(rows[i] != rows[j]);
        if rows[i] < rows[j] {
            law_points_are_different(cfg, rows[i], rows[j]);
        } else {
            law_points_are_different(cfg, rows[j], rows[i]);
        }
    }
    assert forall|i: int| 0 <= i < xs.len() implies dot_spec(
        a,
        geometric(1, #[trigger] xs[i], a.len()),
    ) == dot_spec(b, geometric(1, xs[i], a.len())) by {
        assert(rows[i] < cfg.codeword_length);
        law_evaluate_is_dot(a, xs[i]);
        law_evaluate_is_dot(b, xs[i]);
    }
    law_combination_tells_apart(a, b, xs);
}

/// Equal matrices are encodings of equal columns: of the same messages and masks.
pub proof fn law_encoding_tells_apart(
    cfg: &Config,
    vectors: Seq<Seq<int>>,
    masks: Seq<int>,
    others: Seq<Seq<int>>,
    other_masks: Seq<int>,
    j: int,
)
    requires
        is_order(cfg.codeword_length as nat),
        cfg.encoded(vectors, masks) == cfg.encoded(others, other_masks),
        0 <= j < cfg.cols(),
        cfg.column(vectors, masks, j).len() == cfg.column(others, other_masks, j).len(),
        cfg.column(vectors, masks, j).len() <= cfg.codeword_length,
        all_canonical(cfg.column(vectors, masks, j)),
        all_canonical(cfg.column(others, other_masks, j)),
    ensures
        cfg.column(vectors, masks, j) == cfg.column(others, other_masks, j),
{
    let (a, b) = (cfg.column(vectors, masks, j), cfg.column(others, other_masks, j));
    let (n, cols) = (cfg.codeword_length as int, cfg.cols() as int);
    let rows = Seq::new(n as nat, |i: int| i as nat);
    assert forall|i: int| 0 <= i < rows.len() implies evaluate(a, cfg.point(#[trigger] rows[i]))
        == evaluate(b, cfg.point(rows[i])) by {
        let t = i * cols + j;
        assert(0 <= t < n * cols) by (nonlinear_arith)
            requires
                t == i * cols + j,
                0 <= i < n,
                0 <= j < cols,
        ;
        vstd::arithmetic::div_mod::lemma_fundamental_div_mod_converse(t, cols, i, j);
        assert(t % cols == j && t / cols == i);
        assert(t < cfg.codeword_length as nat * cfg.cols());
        assert(cfg.encoded(vectors, masks)[t] == evaluate(a, cfg.point(i as nat)));
        assert(cfg.encoded(others, other_masks)[t] == evaluate(b, cfg.point(i as nat)));
    }
    law_code_distance(cfg, a, b, rows);
}

/// The points of an opening that is accepted are those of the rows that were queried, as
/// powers of the generator.
pub proof fn law_opened_points(cfg: &Config, v: VerifierView, roots: Seq<Digest>, i: int)
    requires
        cfg.codeword_length > 0,
        0 <= i < cfg.indices(v.sponge).0.len(),
    ensures
        cfg.verified(v, roots) matches Some((points, rows, next)) ==> {
            &&& points.len() == cfg.indices(v.sponge).0.len()
            &&& points[i] == pow(
                7,
                (((MODULUS - 1) / cfg.codeword_length as int) * cfg.indices(
                    v.sponge,
                ).0[i]) as nat,
            ) % (MODULUS as int)
        },
{
    lemma_point_power(cfg, cfg.indices(v.sponge).0[i] as nat);
}

} // verus!
