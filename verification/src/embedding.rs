//! Embeddings of other sets of numbers into the field.

use crate::field::{lemma_residue_id, lemma_vals_push, vals, Field64};
use vstd::prelude::*;

verus! {

/// An embedding into the field: every source element stands for a field element.
pub trait Embedding {
    /// What is embedded.
    type Source;

    /// The field element that a source element stands for.
    spec fn image(&self, x: Self::Source) -> int;

    /// The field element that a source element stands for.
    fn map(&self, x: &Self::Source) -> (r: Field64)
        ensures
            r@ == self.image(*x),
    ;
}

/// The field embedded into itself.
#[derive(Clone, Copy, Debug)]
pub struct Identity;

impl Embedding for Identity {
    type Source = Field64;

    open spec fn image(&self, x: Field64) -> int {
        x@
    }

    fn map(&self, x: &Field64) -> (r: Field64) {
        *x
    }
}

/// 32-bit words, each taken as the element with its number. No two have the same image.
#[derive(Clone, Copy, Debug)]
pub struct SmallWords;

impl Embedding for SmallWords {
    type Source = u32;

    open spec fn image(&self, x: u32) -> int {
        x as int
    }

    fn map(&self, x: &u32) -> (r: Field64) {
        let r: Field64 = Field64::new(*x as u64);
        proof {
            lemma_residue_id(*x as int);
        }
        r
    }
}

/// The images of all elements, in order.
pub open spec fn images<M: Embedding>(embedding: M, v: Seq<M::Source>) -> Seq<int> {
    Seq::new(v.len(), |i: int| embedding.image(v[i]))
}

/// The images of all elements, in order.
pub fn lift<M: Embedding>(embedding: &M, v: &[M::Source]) -> (r: Vec<Field64>)
    ensures
        r@.len() == v@.len(),
        vals(r@) == images(*embedding, v@),
{
    let mut out: Vec<Field64> = Vec::new();
    for i in 0..v.len()
        invariant
            out@.len() == i,
            vals(out@) =~= images(*embedding, v@).take(i as int),
    {
        let x: Field64 = embedding.map(&v[i]);
        proof {
            lemma_vals_push(out@, x);
        }
        out.push(x);
    }
    assert(vals(out@) =~= images(*embedding, v@));
    out
}

/// The field's embedding into itself changes nothing.
pub proof fn law_identity_keeps(v: Seq<Field64>)
    ensures
        images(Identity, v) == vals(v),
{
    assert(images(Identity, v) =~= vals(v));
}

/// To lift through an embedding, and then through the identity, is to lift once.
pub proof fn law_lift_once<M: Embedding>(embedding: M, v: Seq<M::Source>, lifted: Seq<Field64>)
    requires
        vals(lifted) == images(embedding, v),
    ensures
        images(Identity, lifted) == images(embedding, v),
{
    law_identity_keeps(lifted);
}

} // verus!
