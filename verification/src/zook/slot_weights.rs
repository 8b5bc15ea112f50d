//! Slot weights: how the opened rows of several commitments combine to one value.
//!
//! The weight of column `s` of block `b` is the block's selector weight times the
//! column's folding weight.

use crate::algebra::{dot_spec, eq_table, eq_weights, scaled};
use crate::field::{all_canonical, canonical, fmul, lemma_vals_push, vals, Field64};
use crate::irs_commit::joined_row;
use crate::matrix_commit::row_of;
use crate::sums::fsum;
use crate::vector_laws::{law_dot_concat, law_dot_scaled};
use vstd::arithmetic::power2::pow2;
use vstd::prelude::*;

verus! {

/// Every block's weight times every column's, block by block.
pub open spec fn slot_table(theta: Seq<int>, columns: Seq<int>) -> Seq<int>
    decreases theta.len(),
{
    if theta.len() == 0 {
        Seq::empty()
    } else {
        slot_table(theta.drop_last(), columns) + scaled(columns, theta.last())
    }
}

/// Build the flat vector of slot weights: block index as the outer axis, columns as
/// the inner axis.
pub fn build(theta: &[Field64], folding_randomness: &[Field64]) -> (r: Vec<Field64>)
    ensures
        vals(r@) == slot_table(vals(theta@), eq_table(vals(folding_randomness@))),
        r@.len() == theta@.len() * pow2(folding_randomness@.len()),
{
    let collapse: Vec<Field64> = eq_weights(folding_randomness);
    let ghost th = vals(theta@);
    let ghost cs = vals(collapse@);
    let mut out: Vec<Field64> = Vec::new();
    assert(th.take(0) =~= Seq::<int>::empty());
    assert(vals(out@) =~= Seq::<int>::empty());
    for b in 0..theta.len()
        invariant
            th == vals(theta@),
            cs == vals(collapse@),
            vals(out@) == slot_table(th.take(b as int), cs),
            out@.len() == b * collapse@.len(),
    {
        let weight: Field64 = theta[b];
        let ghost before = vals(out@);
        for s in 0..collapse.len()
            invariant
                cs == vals(collapse@),
                vals(out@) =~= before + scaled(cs, weight@).take(s as int),
                out@.len() == b * collapse@.len() + s,
        {
            let w: Field64 = weight.mul(collapse[s]);
            proof {
                lemma_vals_push(out@, w);
            }
            out.push(w);
        }
        proof {
            assert(scaled(cs, weight@).take(cs.len() as int) =~= scaled(cs, weight@));
            assert(th.take(b + 1).drop_last() =~= th.take(b as int));
            assert((b as int + 1) * collapse@.len() == b as int * collapse@.len() + collapse@.len())
                by (nonlinear_arith);
        }
    }
    assert(th.take(th.len() as int) =~= th);
    out
}

/// The blocks' rows, combined by the column weights, each times its block's weight.
pub open spec fn block_values(
    theta: Seq<int>,
    columns: Seq<int>,
    subs: Seq<Seq<int>>,
    i: int,
) -> spec_fn(int) -> int {
    |b: int| fmul(theta[b], dot_spec(columns, row_of(subs[b], columns.len(), i)))
}

/// One reduction by slot weights is the reduction of every block by the column
/// weights, followed by the combination of the blocks.
pub proof fn law_slot_weights_reduce(
    theta: Seq<int>,
    columns: Seq<int>,
    subs: Seq<Seq<int>>,
    i: int,
    k: nat,
)
    requires
        k <= theta.len(),
        k <= subs.len(),
        all_canonical(theta),
        all_canonical(columns),
        0 <= i,
        forall|b: int|
            0 <= b < subs.len() ==> all_canonical(#[trigger] subs[b]) && i * columns.len() + columns.len()
                <= subs[b].len(),
    ensures
        dot_spec(
            slot_table(theta.take(k as int), columns),
            joined_row(subs, columns.len(), i, k),
        ) == fsum(block_values(theta, columns, subs, i), k),
        slot_table(theta.take(k as int), columns).len() == k * columns.len(),
        joined_row(subs, columns.len(), i, k).len() == k * columns.len(),
    decreases k,
{
    let c = columns.len();
    if k > 0 {
        let m = (k - 1) as nat;
        law_slot_weights_reduce(theta, columns, subs, i, m);
        let t = theta.take(k as int);
        assert(t.drop_last() =~= theta.take(m as int));
        assert(t.last() == theta[m as int]);
        assert(all_canonical(subs[m as int]));
        assert(i * c >= 0) by (nonlinear_arith)
            requires
                i >= 0,
                c >= 0,
        ;
        let row = row_of(subs[m as int], c, i);
        assert(row.len() == c);
        assert(all_canonical(row)) by {
            assert forall|j: int| 0 <= j < row.len() implies canonical(#[trigger] row[j]) by {
                assert(canonical(subs[m as int][i * c + j]));
            }
        }
        assert(canonical(theta[m as int]));
        let a = slot_table(theta.take(m as int), columns);
        let b = joined_row(subs, c, i, m);
        law_dot_concat(a, scaled(columns, theta[m as int]), b, row);
        law_dot_scaled(columns, row, theta[m as int]);
        assert(k * c == m * c + c) by (nonlinear_arith)
            requires
                k == m + 1,
        ;
    } else {
        assert(theta.take(0) =~= Seq::<int>::empty());
        assert(0 * c == 0) by (nonlinear_arith);
    }
}

} // verus!
