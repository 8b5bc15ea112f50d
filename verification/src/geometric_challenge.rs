//! Random linear combinations by the powers of one challenge.

use crate::algebra::{geometric, geometric_sequence};
use crate::field::{
    canonical, fpow, lemma_fmul_one, lemma_fpow_add, lemma_fpow_canonical, lemma_residue_canonical,
    lemma_view_canonical, vals, Field64,
};
use crate::transcript::{after_challenge, challenge, Sponge};
use vstd::prelude::*;

verus! {

/// The base drawn for a combination of `count` items: one, without a draw, where
/// there is nothing to combine.
pub open spec fn combination_base(st: Seq<u8>, count: nat) -> int {
    if count > 1 {
        challenge(st)
    } else {
        1
    }
}

/// The sponge after the base was drawn.
pub open spec fn after_base(st: Seq<u8>, count: nat) -> Seq<u8> {
    if count > 1 {
        after_challenge(st)
    } else {
        st
    }
}

/// The coefficients of a combination of `count` items.
pub open spec fn combination(st: Seq<u8>, count: nat) -> Seq<int> {
    geometric(1, combination_base(st, count), count)
}

/// The sum of the first `k` lengths.
pub open spec fn length_before(lengths: Seq<usize>, k: nat) -> nat
    decreases k,
{
    if k == 0 {
        0
    } else {
        length_before(lengths, (k - 1) as nat) + lengths[k - 1] as nat
    }
}

/// The sum of all lengths.
pub open spec fn total_length(lengths: Seq<usize>) -> nat {
    length_before(lengths, lengths.len())
}

proof fn lemma_length_before_monotone(lengths: Seq<usize>, j: nat, k: nat)
    requires
        j <= k <= lengths.len(),
    ensures
        length_before(lengths, j) <= length_before(lengths, k),
    decreases k,
{
    if j < k {
        lemma_length_before_monotone(lengths, j, (k - 1) as nat);
    }
}

/// A combination's base is canonical.
pub proof fn lemma_combination_base(st: Seq<u8>, count: nat)
    ensures
        canonical(combination_base(st, count)),
{
    broadcast use lemma_residue_canonical;

}

/// Draw the base `x` for a geometric challenge of the given total length.
pub fn geometric_challenge_base(transcript: &mut Sponge, count: usize) -> (r: Field64)
    ensures
        r@ == combination_base(old(transcript)@, count as nat),
        final(transcript)@ == after_base(old(transcript)@, count as nat),
{
    if count > 1 {
        transcript.challenge_field()
    } else {
        Field64::one()
    }
}

/// Draw a geometric challenge `1, x, x^2, ...` of length `count`.
pub fn geometric_challenge(transcript: &mut Sponge, count: usize) -> (r: Vec<Field64>)
    ensures
        vals(r@) == combination(old(transcript)@, count as nat),
        final(transcript)@ == after_base(old(transcript)@, count as nat),
        r@.len() == count,
{
    let base: Field64 = geometric_challenge_base(transcript, count);
    let r: Vec<Field64> = geometric_sequence(Field64::one(), base, count);
    assert(vals(r@).len() == count);
    r
}

/// A geometric challenge as a single group.
pub fn geometric_challenge_buffer(transcript: &mut Sponge, count: usize) -> (r: Vec<Field64>)
    ensures
        vals(r@) == combination(old(transcript)@, count as nat),
        final(transcript)@ == after_base(old(transcript)@, count as nat),
        r@.len() == count,
{
    let lengths: Vec<usize> = vec![count];
    let ghost st = transcript@;
    proof {
        reveal_with_fuel(length_before, 2);
        assert(lengths@ =~= seq![count]);
        assert(total_length(lengths@) == count);
    }
    let mut groups: Vec<Vec<Field64>> = geometric_challenge_groups(transcript, lengths.as_slice());
    let ghost first = groups@[0];
    match groups.pop() {
        Some(group) => {
            proof {
                assert(group == first);
                assert(combination(st, count as nat).subrange(0, count as int) =~= combination(
                    st,
                    count as nat,
                ));
                assert(vals(group@).len() == group@.len());
            }
            group
        },
        None => Vec::new(),
    }
}

/// Split the sequence `1, x, x^2, ...` into consecutive groups of the given
/// lengths.
pub fn geometric_challenge_groups(transcript: &mut Sponge, lengths: &[usize]) -> (r: Vec<Vec<Field64>>)
    requires
        total_length(lengths@) <= usize::MAX,
    ensures
        r@.len() == lengths@.len(),
        forall|k: int|
            0 <= k < lengths@.len() ==> vals((#[trigger] r@[k])@) == combination(
                old(transcript)@,
                total_length(lengths@),
            ).subrange(
                length_before(lengths@, k as nat) as int,
                length_before(lengths@, (k + 1) as nat) as int,
            ),
        forall|k: int| 0 <= k < lengths@.len() ==> (#[trigger] r@[k])@.len() == lengths@[k],
        final(transcript)@ == after_base(old(transcript)@, total_length(lengths@)),
{
    geometric_challenge_groups_with_offset(transcript, 0, lengths).1
}

/// Draw one base and return consecutive groups that begin at `x^offset`.
///
/// The base is drawn on the condition of the whole sequence, the omitted prefix
/// included.
pub fn geometric_challenge_groups_with_offset(
    transcript: &mut Sponge,
    offset: usize,
    lengths: &[usize],
) -> (r: (Field64, Vec<Vec<Field64>>))
    requires
        offset + total_length(lengths@) <= usize::MAX,
    ensures
        r.0@ == combination_base(old(transcript)@, offset as nat + total_length(lengths@)),
        r.1@.len() == lengths@.len(),
        forall|k: int|
            0 <= k < lengths@.len() ==> vals((#[trigger] r.1@[k])@) == combination(
                old(transcript)@,
                offset as nat + total_length(lengths@),
            ).subrange(
                offset + length_before(lengths@, k as nat),
                offset + length_before(lengths@, (k + 1) as nat),
            ),
        forall|k: int| 0 <= k < lengths@.len() ==> (#[trigger] r.1@[k])@.len() == lengths@[k],
        final(transcript)@ == after_base(old(transcript)@, offset as nat + total_length(lengths@)),
{
    broadcast use {lemma_view_canonical, lemma_fpow_canonical};

    let mut total: usize = offset;
    for k in 0..lengths.len()
        invariant
            offset + total_length(lengths@) <= usize::MAX,
            total == offset + length_before(lengths@, k as nat),
    {
        proof {
            lemma_length_before_monotone(lengths@, (k + 1) as nat, lengths@.len());
        }
        total = total + lengths[k];
    }
    let ghost st = transcript@;
    let base: Field64 = geometric_challenge_base(transcript, total);
    let ghost seq = combination(st, total as nat);
    let mut groups: Vec<Vec<Field64>> = Vec::new();
    let mut current: Field64 = base.pow(offset as u64);
    for k in 0..lengths.len()
        invariant
            offset + total_length(lengths@) <= usize::MAX,
            total == offset + total_length(lengths@),
            base@ == combination_base(st, total as nat),
            seq == combination(st, total as nat),
            groups@.len() == k,
            current@ == fpow(base@, (offset + length_before(lengths@, k as nat)) as nat),
            forall|j: int|
                0 <= j < k ==> vals((#[trigger] groups@[j])@) == seq.subrange(
                    offset + length_before(lengths@, j as nat),
                    offset + length_before(lengths@, (j + 1) as nat),
                ),
            forall|j: int| 0 <= j < k ==> (#[trigger] groups@[j])@.len() == lengths@[j],
    {
        broadcast use {lemma_view_canonical, lemma_fpow_canonical};

        let ghost before = (offset + length_before(lengths@, k as nat)) as nat;
        proof {
            lemma_length_before_monotone(lengths@, (k + 1) as nat, lengths@.len());
            lemma_fpow_add(base@, before, lengths@[k as int] as nat);
        }
        let group: Vec<Field64> = geometric_sequence(current, base, lengths[k]);
        proof {
            let want = seq.subrange(before as int, (before + lengths@[k as int]) as int);
            assert forall|i: int| 0 <= i < want.len() implies vals(group@)[i] == want[i] by {
                lemma_fpow_add(base@, before, i as nat);
                lemma_fmul_one(fpow(base@, before + (i as nat)));
            }
            assert(vals(group@) =~= want);
            assert(vals(group@).len() == group@.len());
        }
        current = current.mul(base.pow(lengths[k] as u64));
        groups.push(group);
    }
    (base, groups)
}

} // verus!
