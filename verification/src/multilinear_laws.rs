//! What the multilinear polynomial of a vector is: it is linear in every variable and has
//! the vector's entries at the corners of the hypercube.

use crate::algebra::{dot_spec, dot_terms, eq_table, evaluate, mle, scaled};
use crate::field::{
    all_canonical, canonical, fadd, fmul, fsub, lemma_fmul_one, lemma_residue_canonical,
    lemma_residue_id, lemma_vals_canonical, lemma_view_canonical, vals,
};
use crate::linear_form::{eq_product, LinearForm};
use crate::sums::{fsum, lemma_fsum_canonical, lemma_fsum_zero};
use crate::vector_laws::{law_dot_concat, law_dot_scaled, law_evaluate_is_dot, lemma_eq_table_len};
use vstd::arithmetic::power2::{lemma2_to64, lemma_pow2_unfold, pow2};
use vstd::prelude::*;

verus! {

/// Is this a corner of the hypercube?
pub open spec fn is_corner(point: Seq<int>) -> bool {
    forall|i: int| 0 <= i < point.len() ==> #[trigger] point[i] == 0 || point[i] == 1
}

/// The index of a corner: the first coordinate is the most significant bit.
pub open spec fn corner_index(point: Seq<int>) -> int
    decreases point.len(),
{
    if point.len() == 0 {
        0
    } else {
        point[0] * pow2((point.len() - 1) as nat) + corner_index(point.drop_first())
    }
}

proof fn lemma_corner_bound(point: Seq<int>)
    requires
        is_corner(point),
    ensures
        0 <= corner_index(point) < pow2(point.len()),
    decreases point.len(),
{
    lemma2_to64();
    if point.len() > 0 {
        let t = point.drop_first();
        assert(is_corner(t)) by {
            assert forall|i: int| 0 <= i < t.len() implies #[trigger] t[i] == 0 || t[i] == 1 by {
                assert(t[i] == point[i + 1]);
            }
        }
        lemma_corner_bound(t);
        lemma_pow2_unfold(point.len());
        let h = pow2(t.len()) as int;
        assert(point[0] == 0 || point[0] == 1);
        assert(point[0] * h == 0 || point[0] * h == h) by (nonlinear_arith)
            requires
                point[0] == 0 || point[0] == 1,
        ;
    }
}

/// The weights at a corner: one for its own index, zero for all others.
pub proof fn law_weights_at_corner(point: Seq<int>, i: int)
    requires
        is_corner(point),
        0 <= i < pow2(point.len()),
    ensures
        eq_table(point).len() == pow2(point.len()),
        eq_table(point)[i] == (if i == corner_index(point) {
            1int
        } else {
            0int
        }),
    decreases point.len(),
{
    lemma2_to64();
    lemma_eq_table_len(point);
    if point.len() > 0 {
        let t = point.drop_first();
        assert(is_corner(t)) by {
            assert forall|i: int| 0 <= i < t.len() implies #[trigger] t[i] == 0 || t[i] == 1 by {
                assert(t[i] == point[i + 1]);
            }
        }
        lemma_corner_bound(t);
        lemma_eq_table_len(t);
        lemma_pow2_unfold(point.len());
        let h = pow2(t.len()) as int;
        let x = point[0];
        assert(x == 0 || x == 1);
        assert(x * h == (if x == 0 {
            0
        } else {
            h
        })) by (nonlinear_arith)
            requires
                x == 0 || x == 1,
        ;
        let j = if i < h {
            i
        } else {
            i - h
        };
        law_weights_at_corner(t, j);
        let w = eq_table(t)[j];
        lemma_residue_id(0);
        lemma_residue_id(1);
        let f = if i < h {
            fsub(1, x)
        } else {
            x
        };
        assert(f == 0 || f == 1);
        assert(eq_table(point)[i] == fmul(f, w));
        lemma_fmul_one(w);
        assert(0 * w == 0) by (nonlinear_arith);
    }
}

proof fn lemma_pick(f: spec_fn(int) -> int, n: nat, at: int)
    requires
        0 <= at < n,
        canonical(f(at)),
        forall|i: int| 0 <= i < n && i != at ==> #[trigger] f(i) == 0,
    ensures
        fsum(f, n) == f(at),
    decreases n,
{
    let m = (n - 1) as nat;
    if at == m {
        lemma_fsum_zero(f, m);
        lemma_residue_id(f(at));
        assert(fsum(f, n) == fadd(fsum(f, m), f(m as int)));
        assert(fadd(0, f(at)) == fadd(f(at), 0));
    } else {
        lemma_pick(f, m, at);
        assert(f(m as int) == 0);
        lemma_residue_id(f(at));
    }
}

/// At a corner the polynomial has the entry whose index the corner spells.
pub proof fn law_value_at_corner(s: Seq<int>, point: Seq<int>)
    requires
        all_canonical(s),
        s.len() == pow2(point.len()),
        is_corner(point),
    ensures
        0 <= corner_index(point) < s.len(),
        mle(s, point) == s[corner_index(point)],
{
    let at = corner_index(point);
    lemma_corner_bound(point);
    let f = dot_terms(s, eq_table(point));
    assert(canonical(s[at]));
    law_weights_at_corner(point, at);
    lemma_fmul_one(s[at]);
    assert(f(at) == s[at]);
    lemma_residue_id(0);
    assert forall|i: int| 0 <= i < s.len() && i != at implies #[trigger] f(i) == 0 by {
        law_weights_at_corner(point, i);
        assert(s[i] * 0 == 0) by (nonlinear_arith);
    }
    lemma_pick(f, s.len(), at);
}

/// In its first variable the polynomial is linear: between the polynomials of the two
/// halves of the vector.
pub proof fn law_linear_in_first(s: Seq<int>, x: int, rest: Seq<int>)
    requires
        all_canonical(s),
        canonical(x),
        all_canonical(rest),
        s.len() == pow2(rest.len() + 1),
    ensures
        ({
            let h = pow2(rest.len()) as int;
            mle(s, seq![x] + rest) == fadd(
                fmul(fsub(1, x), mle(s.take(h), rest)),
                fmul(x, mle(s.skip(h), rest)),
            )
        }),
{
    broadcast use {lemma_residue_canonical, lemma_fsum_canonical};

    let point = seq![x] + rest;
    let h = pow2(rest.len()) as int;
    lemma_pow2_unfold(rest.len() + 1);
    assert(point.drop_first() =~= rest);
    let w = eq_table(rest);
    lemma_eq_table_len(rest);
    let (a, b) = (s.take(h), s.skip(h));
    assert(s =~= a + b);
    assert(all_canonical(a) && all_canonical(b)) by {
        assert forall|i: int| 0 <= i < a.len() implies canonical(#[trigger] a[i]) by {
            assert(canonical(s[i]));
        }
        assert forall|i: int| 0 <= i < b.len() implies canonical(#[trigger] b[i]) by {
            assert(canonical(s[h + i]));
        }
    }
    let (lo, hi) = (scaled(w, fsub(1, x)), scaled(w, x));
    assert(eq_table(point) == lo + hi);
    law_dot_concat(a, b, lo, hi);
    law_dot_scaled(a, w, fsub(1, x));
    law_dot_scaled(b, w, x);
}

/// What the forms give: a covector its inner product, a point the multilinear polynomial's
/// value, and so at a corner the entry there, and a number the value of the polynomial
/// with the given coefficients.
pub proof fn law_form_values(form: &LinearForm, s: Seq<int>)
    requires
        all_canonical(s),
    ensures
        form matches LinearForm::Covector { vector } ==> dot_spec(s, form.covector()) == dot_spec(
            s,
            vals(vector@),
        ),
        form matches LinearForm::MultilinearExtension { point } ==> s.len() == pow2(point@.len())
            && is_corner(vals(point@)) ==> dot_spec(s, form.covector()) == s[corner_index(
            vals(point@),
        )],
        form matches LinearForm::UnivariateEvaluation { x, size } ==> s.len() == size ==> dot_spec(
            s,
            form.covector(),
        ) == evaluate(s, x@),
{
    broadcast use {lemma_vals_canonical, lemma_view_canonical};

    match form {
        LinearForm::Covector { vector } => {},
        LinearForm::MultilinearExtension { point } => {
            if s.len() == pow2(point@.len()) && is_corner(vals(point@)) {
                law_value_at_corner(s, vals(point@));
            }
        },
        LinearForm::UnivariateEvaluation { x, size } => {
            law_evaluate_is_dot(s, x@);
        },
    }
}

/// The form of two points is one where a corner meets itself, and zero where it meets
/// another.
pub proof fn law_form_of_corners(a: Seq<int>, b: Seq<int>)
    requires
        a.len() == b.len(),
        is_corner(a),
        is_corner(b),
    ensures
        eq_product(a, b) == (if a == b {
            1int
        } else {
            0int
        }),
    decreases a.len(),
{
    if a.len() == 0 {
        assert(a =~= b);
    } else {
        let (s, t) = (a.drop_first(), b.drop_first());
        assert(is_corner(s)) by {
            assert forall|i: int| 0 <= i < s.len() implies #[trigger] s[i] == 0 || s[i] == 1 by {
                assert(s[i] == a[i + 1]);
            }
        }
        assert(is_corner(t)) by {
            assert forall|i: int| 0 <= i < t.len() implies #[trigger] t[i] == 0 || t[i] == 1 by {
                assert(t[i] == b[i + 1]);
            }
        }
        law_form_of_corners(s, t);
        assert(a[0] == 0 || a[0] == 1);
        assert(b[0] == 0 || b[0] == 1);
        lemma_residue_id(0);
        lemma_residue_id(1);
        if a == b {
            assert(s =~= t);
        } else if a[0] == b[0] {
            assert(s != t) by {
                if s == t {
                    assert(a =~= seq![a[0]] + s);
                    assert(b =~= seq![b[0]] + t);
                }
            }
        }
        let rest = eq_product(s, t);
        assert(0 * rest == 0) by (nonlinear_arith);
    }
}

} // verus!
