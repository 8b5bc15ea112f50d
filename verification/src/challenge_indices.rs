//! Row indices drawn from a transcript.
//!
//! An index is drawn as a big-endian number of just enough bytes. Numbers in the
//! tail that would favour small indices are rejected and drawn again, so that
//! every index is equally likely.

use crate::arith::{ceil_log2, ceil_log2_spec, lemma_pow2_sum};
use crate::transcript::{ChallengeSource, Sponge};
use vstd::arithmetic::div_mod::{lemma_fundamental_div_mod, lemma_mod_bound};
use vstd::arithmetic::power2::{lemma2_to64, lemma_pow2_adds, lemma_pow2_strictly_increases, pow2};
use vstd::prelude::*;

verus! {

/// The number of bytes that an index below `num_leaves` is drawn from.
pub open spec fn index_bytes(num_leaves: nat) -> nat {
    (ceil_log2_spec(num_leaves) + 7) / 8
}

/// The largest multiple of `num_leaves` that the drawn bytes reach: numbers from
/// here on are rejected.
pub open spec fn rejection_threshold(num_leaves: nat) -> nat {
    (pow2(8 * index_bytes(num_leaves)) / num_leaves) * num_leaves
}

/// The integer that a run of bytes spells, most significant first.
pub open spec fn be_value(bytes: Seq<u8>) -> nat
    decreases bytes.len(),
{
    if bytes.len() == 0 {
        0
    } else {
        256 * be_value(bytes.drop_last()) + bytes.last() as nat
    }
}

/// The state of a source after `k` numbers were drawn.
pub open spec fn state_after<T: ChallengeSource>(st: Seq<u8>, num_leaves: nat, k: nat) -> Seq<u8>
    decreases k,
{
    if k == 0 {
        st
    } else {
        T::next_state(
            state_after::<T>(st, num_leaves, (k - 1) as nat),
            index_bytes(num_leaves),
        )
    }
}

/// The bytes of number `k`, counted from zero; `None` if the source has fewer left.
pub open spec fn number_bytes<T: ChallengeSource>(st: Seq<u8>, num_leaves: nat, k: nat) -> Option<
    Seq<u8>,
> {
    T::output(state_after::<T>(st, num_leaves, k), index_bytes(num_leaves))
}

/// Is number `k` drawn and rejected?
pub open spec fn rejected<T: ChallengeSource>(st: Seq<u8>, num_leaves: nat, k: nat) -> bool {
    number_bytes::<T>(st, num_leaves, k) matches Some(bytes) && be_value(bytes)
        >= rejection_threshold(num_leaves)
}

/// Do the draws end with number `k`: is it the first that is not rejected?
pub open spec fn ends_at<T: ChallengeSource>(st: Seq<u8>, num_leaves: nat, k: nat) -> bool {
    &&& !rejected::<T>(st, num_leaves, k)
    &&& forall|j: nat| j < k ==> #[trigger] rejected::<T>(st, num_leaves, j)
}

/// The index that a source in state `st` gives, and the state after it: numbers are drawn
/// until one is accepted. `None` if the source runs out of bytes before. (A source that
/// gives only numbers to reject gives no index; zero stands for it here.)
#[verifier::opaque]
pub open spec fn sampled<T: ChallengeSource>(st: Seq<u8>, num_leaves: nat) -> Option<
    (nat, Seq<u8>),
> {
    if exists|k: nat| ends_at::<T>(st, num_leaves, k) {
        let k = choose|k: nat| ends_at::<T>(st, num_leaves, k);
        match number_bytes::<T>(st, num_leaves, k) {
            None => None,
            Some(bytes) => Some(
                (be_value(bytes) % num_leaves, state_after::<T>(st, num_leaves, k + 1)),
            ),
        }
    } else {
        Some((0, st))
    }
}

/// What is drawn is the first number that is not rejected, however many come before it.
pub proof fn law_first_accepted<T: ChallengeSource>(st: Seq<u8>, num_leaves: nat, k: nat)
    requires
        ends_at::<T>(st, num_leaves, k),
    ensures
        sampled::<T>(st, num_leaves) == match number_bytes::<T>(st, num_leaves, k) {
            None => None,
            Some(bytes) => Some(
                (be_value(bytes) % num_leaves, state_after::<T>(st, num_leaves, k + 1)),
            ),
        },
{
    reveal(sampled);
    let j = choose|k: nat| ends_at::<T>(st, num_leaves, k);
    if j < k {
        assert(rejected::<T>(st, num_leaves, j));
    }
    if k < j {
        assert(rejected::<T>(st, num_leaves, k));
    }
}

/// The first `count` indices that a source in state `st` gives, in the order in
/// which they are drawn.
pub open spec fn samples<T: ChallengeSource>(st: Seq<u8>, num_leaves: nat, count: nat) -> Option<
    (Seq<nat>, Seq<u8>),
>
    decreases count,
{
    if count == 0 {
        Some((Seq::empty(), st))
    } else {
        match samples::<T>(st, num_leaves, (count - 1) as nat) {
            None => None,
            Some((drawn, mid)) => match sampled::<T>(mid, num_leaves) {
                None => None,
                Some((index, after)) => Some((drawn.push(index), after)),
            },
        }
    }
}

/// Is the sequence strictly increasing?
pub open spec fn strictly_increasing(s: Seq<usize>) -> bool {
    forall|i: int, j: int| 0 <= i < j < s.len() ==> s[i] < s[j]
}

/// The position of the first entry, from `k` on, that is not below `x`.
pub open spec fn first_not_below(s: Seq<usize>, x: usize, k: nat) -> nat
    decreases s.len() - k,
{
    if k < s.len() && s[k as int] < x {
        first_not_below(s, x, k + 1)
    } else {
        k
    }
}

/// A sorted list with `x` put into its place, unless it is there.
pub open spec fn inserted(s: Seq<usize>, x: usize) -> Seq<usize> {
    let at = first_not_below(s, x, 0);
    if at < s.len() && s[at as int] == x {
        s
    } else {
        s.insert(at as int, x)
    }
}

/// The distinct entries, sorted.
pub open spec fn sorted_distinct(s: Seq<usize>) -> Seq<usize>
    decreases s.len(),
{
    if s.len() == 0 {
        Seq::empty()
    } else {
        inserted(sorted_distinct(s.drop_last()), s.last())
    }
}

/// The indices as machine numbers.
pub open spec fn machine_indices(s: Seq<nat>) -> Seq<usize> {
    Seq::new(s.len(), |i: int| s[i] as usize)
}

/// What a draw of `count` indices below `num_leaves` gives, and the state after it:
/// nothing for no indices; zeros, without a draw, for a single row; the sampled
/// indices otherwise. Deduplication sorts. `None` if the source runs out of bytes.
pub open spec fn indices_drawn<T: ChallengeSource>(
    st: Seq<u8>,
    num_leaves: nat,
    count: nat,
    deduplicate: bool,
) -> Option<(Seq<usize>, Seq<u8>)> {
    if count == 0 {
        Some((Seq::empty(), st))
    } else if num_leaves <= 1 {
        Some(
            (
                if deduplicate {
                    seq![0usize]
                } else {
                    Seq::new(count, |i: int| 0usize)
                },
                st,
            ),
        )
    } else {
        match samples::<T>(st, num_leaves, count) {
            None => None,
            Some((drawn, after)) => Some(
                (
                    if deduplicate {
                        sorted_distinct(machine_indices(drawn))
                    } else {
                        machine_indices(drawn)
                    },
                    after,
                ),
            ),
        }
    }
}

/// Rejection-sampling domain for transcript-derived row indices.
#[derive(Clone, Copy, Debug)]
struct IndexDomain {
    num_leaves: usize,
    size_bytes: usize,
    threshold: u128,
}

impl IndexDomain {
    spec fn wf(&self) -> bool {
        &&& self.num_leaves > 1
        &&& self.size_bytes == index_bytes(self.num_leaves as nat)
        &&& self.size_bytes <= 8
        &&& self.threshold == rejection_threshold(self.num_leaves as nat)
    }

    fn new(num_leaves: usize) -> (r: Self)
        requires
            num_leaves > 1,
        ensures
            r.wf(),
            r.num_leaves == num_leaves,
    {
        let bits_needed: u32 = ceil_log2(num_leaves);
        let size_bytes: usize = ((bits_needed + 7) / 8) as usize;
        let mut entropy_space: u128 = 1;
        proof {
            lemma2_to64();
            lemma_pow2_adds(32, 32);
        }
        for i in 0..size_bytes
            invariant
                size_bytes <= 8,
                entropy_space == pow2((8 * i) as nat),
                pow2(64) == 0x1_0000_0000_0000_0000,
        {
            proof {
                lemma2_to64();
                lemma_pow2_sum((8 * i) as nat, 8);
                if 8 * (i + 1) < 64 {
                    lemma_pow2_strictly_increases((8 * (i + 1)) as nat, 64);
                }
            }
            entropy_space = entropy_space * 256;
        }
        let n: u128 = num_leaves as u128;
        proof {
            lemma_fundamental_div_mod(entropy_space as int, n as int);
            lemma_mod_bound(entropy_space as int, n as int);
            assert((entropy_space / n) * n <= entropy_space) by (nonlinear_arith)
                requires
                    entropy_space as int == n as int * (entropy_space as int / n as int) + (
                    entropy_space as int % n as int),
                    entropy_space as int % n as int >= 0,
            ;
        }
        IndexDomain { num_leaves, size_bytes, threshold: (entropy_space / n) * n }
    }

    /// Draw numbers until one is accepted. The rejected ones are kept: draws go on for as
    /// long as there is memory.
    fn sample<T: ChallengeSource>(&self, transcript: &mut T) -> (r: Option<usize>)
        requires
            self.wf(),
        ensures
            match sampled::<T>(old(transcript).state(), self.num_leaves as nat) {
                None => r is None,
                Some((index, after)) => r is Some && r.unwrap() == index && final(transcript).state()
                    == after,
            },
            r matches Some(v) ==> v < self.num_leaves,
    {
        let ghost st = transcript.state();
        let ghost n = self.num_leaves as nat;
        let mut tail: Vec<u128> = Vec::new();
        loop
            invariant
                self.wf(),
                n == self.num_leaves as nat,
                st == old(transcript).state(),
                transcript.state() == state_after::<T>(st, n, tail@.len()),
                forall|j: nat| j < tail@.len() ==> #[trigger] rejected::<T>(st, n, j),
            decreases usize::MAX - tail.len(),
        {
            let ghost k = tail@.len();
            let candidate: u128 = match self.draw_candidate(transcript) {
                Some(c) => c,
                None => {
                    proof {
                        law_first_accepted::<T>(st, n, k);
                    }
                    return None;
                },
            };
            if candidate < self.threshold {
                proof {
                    law_first_accepted::<T>(st, n, k);
                    lemma_mod_bound(candidate as int, self.num_leaves as int);
                }
                return Some((candidate % (self.num_leaves as u128)) as usize);
            }
            assert(rejected::<T>(st, n, k));
            tail.push(candidate);
        }
    }

    /// Draw one number.
    fn draw_candidate<T: ChallengeSource>(&self, transcript: &mut T) -> (r: Option<u128>)
        requires
            self.wf(),
        ensures
            match T::output(old(transcript).state(), index_bytes(self.num_leaves as nat)) {
                None => r is None,
                Some(bytes) => r is Some && r.unwrap() == be_value(bytes) && final(transcript).state()
                    == T::next_state(
                    old(transcript).state(),
                    index_bytes(self.num_leaves as nat),
                ),
            },
    {
        match transcript.squeeze(self.size_bytes) {
            None => None,
            Some(bytes) => {
                let mut candidate: u128 = 0;
                proof {
                    lemma2_to64();
                    lemma_pow2_adds(32, 32);
                }
                for i in 0..bytes.len()
                    invariant
                        bytes@.len() <= 8,
                        candidate == be_value(bytes@.take(i as int)),
                        candidate < pow2((8 * i) as nat),
                        pow2(64) == 0x1_0000_0000_0000_0000,
                {
                    proof {
                        lemma2_to64();
                        lemma_pow2_sum((8 * i) as nat, 8);
                        if 8 * (i + 1) < 64 {
                            lemma_pow2_strictly_increases((8 * (i + 1)) as nat, 64);
                        }
                        assert(bytes@.take(i + 1).drop_last() == bytes@.take(i as int));
                    }
                    candidate = candidate * 256 + bytes[i] as u128;
                }
                assert(bytes@.take(bytes@.len() as int) == bytes@);
                Some(candidate)
            },
        }
    }
}

/// Put `x` into its place in a strictly increasing list, unless it is there.
fn insert_sorted(list: &mut Vec<usize>, x: usize)
    ensures
        final(list)@ == inserted(old(list)@, x),
{
    let mut at: usize = 0;
    while at < list.len() && list[at] < x
        invariant
            at <= list.len(),
            list@ == old(list)@,
            first_not_below(list@, x, at as nat) == first_not_below(list@, x, 0),
        decreases list.len() - at,
    {
        at = at + 1;
    }
    if at < list.len() && list[at] == x {
        return;
    }
    list.insert(at, x);
}

proof fn lemma_first_not_below(s: Seq<usize>, x: usize, k: nat)
    requires
        strictly_increasing(s),
        k <= s.len(),
        forall|i: int| 0 <= i < k ==> s[i] < x,
    ensures
        ({
            let at = first_not_below(s, x, k);
            &&& at <= s.len()
            &&& forall|i: int| 0 <= i < at ==> s[i] < x
            &&& at < s.len() ==> s[at as int] >= x
        }),
    decreases s.len() - k,
{
    if k < s.len() && s[k as int] < x {
        lemma_first_not_below(s, x, k + 1);
    }
}

/// Deduplicated indices are strictly increasing, and are the drawn ones.
pub proof fn law_sorted_distinct(s: Seq<usize>)
    ensures
        strictly_increasing(sorted_distinct(s)),
        forall|y: usize| #[trigger] sorted_distinct(s).contains(y) <==> s.contains(y),
    decreases s.len(),
{
    if s.len() > 0 {
        let before = sorted_distinct(s.drop_last());
        let x = s.last();
        law_sorted_distinct(s.drop_last());
        lemma_first_not_below(before, x, 0);
        let at = first_not_below(before, x, 0) as int;
        let out = sorted_distinct(s);
        assert forall|y: usize| #[trigger] out.contains(y) <==> s.contains(y) by {
            assert(s[s.len() - 1] == x);
            if s.drop_last().contains(y) {
                assert(s[s.drop_last().index_of(y)] == y);
            }
            if s.contains(y) && y != x {
                assert(s.drop_last()[s.index_of(y)] == y);
            }
            assert(before.contains(y) <==> s.drop_last().contains(y));
            if before.contains(y) && out != before {
                let i = before.index_of(y);
                if i < at {
                    assert(out[i] == y);
                } else {
                    assert(out[i + 1] == y);
                }
            }
            assert(out[at] == x);
            if out.contains(y) && y != x && out != before {
                let i = out.index_of(y);
                if i < at {
                    assert(before[i] == y);
                } else {
                    assert(before[i - 1] == y);
                }
            }
        }
    }
}

proof fn lemma_samples_fail<T: ChallengeSource>(st: Seq<u8>, num_leaves: nat, k: nat, count: nat)
    requires
        k <= count,
        samples::<T>(st, num_leaves, k) is None,
    ensures
        samples::<T>(st, num_leaves, count) is None,
    decreases count,
{
    if k < count {
        lemma_samples_fail::<T>(st, num_leaves, k, (count - 1) as nat);
    }
}

/// Indices are below the number of rows, or zero.
pub proof fn law_indices_in_range<T: ChallengeSource>(
    st: Seq<u8>,
    num_leaves: usize,
    count: nat,
    deduplicate: bool,
)
    ensures
        indices_drawn::<T>(st, num_leaves as nat, count, deduplicate) matches Some((r, after))
            ==> forall|i: int| 0 <= i < r.len() ==> (#[trigger] r[i] < num_leaves || r[i] == 0),
        indices_drawn::<T>(st, num_leaves as nat, count, deduplicate) matches Some((r, after))
            ==> !deduplicate ==> r.len() == count,
{
    if num_leaves > 1 {
        lemma_samples_in_range::<T>(st, num_leaves as nat, count);
        match samples::<T>(st, num_leaves as nat, count) {
            Some((drawn, after)) => {
                let ms = machine_indices(drawn);
                law_sorted_distinct(ms);
                let r = sorted_distinct(ms);
                assert forall|i: int| 0 <= i < r.len() implies #[trigger] r[i] < num_leaves by {
                    assert(r.contains(r[i]));
                    let j = ms.index_of(r[i]);
                    assert(ms[j] == drawn[j] as usize);
                }
            },
            None => {},
        }
    }
}

proof fn lemma_samples_in_range<T: ChallengeSource>(st: Seq<u8>, num_leaves: nat, count: nat)
    requires
        num_leaves > 0,
    ensures
        samples::<T>(st, num_leaves, count) matches Some((drawn, after)) ==> drawn.len() == count
            && forall|i: int| 0 <= i < drawn.len() ==> #[trigger] drawn[i] < num_leaves,
    decreases count,
{
    if count > 0 {
        lemma_samples_in_range::<T>(st, num_leaves, (count - 1) as nat);
        match samples::<T>(st, num_leaves, (count - 1) as nat) {
            Some((drawn, mid)) => {
                lemma_sampled_in_range::<T>(mid, num_leaves);
            },
            None => {},
        }
    }
}

proof fn lemma_sampled_in_range<T: ChallengeSource>(st: Seq<u8>, num_leaves: nat)
    requires
        num_leaves > 0,
    ensures
        sampled::<T>(st, num_leaves) matches Some((index, after)) ==> index < num_leaves,
{
    reveal(sampled);
    let k = choose|k: nat| ends_at::<T>(st, num_leaves, k);
    if let Some(bytes) = number_bytes::<T>(st, num_leaves, k) {
        lemma_mod_bound(be_value(bytes) as int, num_leaves as int);
    }
}

/// Generate a set of indices for challenges; `None` if the source runs out of
/// bytes.
pub fn challenge_indices<T: ChallengeSource>(
    transcript: &mut T,
    num_leaves: usize,
    count: usize,
    deduplicate: bool,
) -> (r: Option<Vec<usize>>)
    ensures
        match indices_drawn::<T>(
            old(transcript).state(),
            num_leaves as nat,
            count as nat,
            deduplicate,
        ) {
            None => r is None,
            Some((indices, after)) => r is Some && r.unwrap()@ == indices && final(transcript).state()
                == after,
        },
{
    if count == 0 {
        return Some(Vec::new());
    }
    if num_leaves <= 1 {
        let mut zeros: Vec<usize> = Vec::new();
        if deduplicate {
            zeros.push(0);
            assert(zeros@ =~= seq![0usize]);
            return Some(zeros);
        }
        for i in 0..count
            invariant
                zeros@ == Seq::new(i as nat, |j: int| 0usize),
        {
            zeros.push(0);
            assert(zeros@ =~= Seq::new((i + 1) as nat, |j: int| 0usize));
        }
        return Some(zeros);
    }
    let domain: IndexDomain = IndexDomain::new(num_leaves);
    let mut indices: Vec<usize> = Vec::new();
    let mut sorted: Vec<usize> = Vec::new();
    let ghost mut drawn: Seq<nat> = Seq::empty();
    assert(machine_indices(drawn) =~= indices@);
    for k in 0..count
        invariant
            domain.wf(),
            domain.num_leaves == num_leaves,
            samples::<T>(old(transcript).state(), num_leaves as nat, k as nat) == Some(
                (drawn, transcript.state()),
            ),
            indices@ == machine_indices(drawn),
            sorted@ == sorted_distinct(indices@),
    {
        match domain.sample(transcript) {
            Some(index) => {
                let ghost before = indices@;
                indices.push(index);
                insert_sorted(&mut sorted, index);
                proof {
                    drawn = drawn.push(index as nat);
                    assert(indices@ =~= machine_indices(drawn));
                    assert(indices@.drop_last() =~= before);
                }
            },
            None => {
                proof {
                    lemma_samples_fail::<T>(
                        old(transcript).state(),
                        num_leaves as nat,
                        (k + 1) as nat,
                        count as nat,
                    );
                }
                return None;
            },
        }
    }
    if deduplicate {
        Some(sorted)
    } else {
        Some(indices)
    }
}

/// The indices that a sponge gives, and its state after them.
pub open spec fn sponge_indices_drawn(st: Seq<u8>, num_leaves: nat, count: nat, deduplicate: bool) -> (
    Seq<usize>,
    Seq<u8>,
) {
    indices_drawn::<Sponge>(st, num_leaves, count, deduplicate).unwrap()
}

/// Generate a set of indices from a sponge, which never runs out.
pub fn sponge_indices(sponge: &mut Sponge, num_leaves: usize, count: usize, deduplicate: bool) -> (r: Vec<
    usize,
>)
    ensures
        (r@, final(sponge)@) == sponge_indices_drawn(
            old(sponge)@,
            num_leaves as nat,
            count as nat,
            deduplicate,
        ),
        forall|i: int| 0 <= i < r@.len() ==> (#[trigger] r@[i] < num_leaves || r@[i] == 0),
        !deduplicate ==> r@.len() == count,
{
    proof {
        law_sponge_never_runs_out(sponge@, num_leaves as nat, count as nat);
        law_indices_in_range::<Sponge>(sponge@, num_leaves, count as nat, deduplicate);
    }
    match challenge_indices(sponge, num_leaves, count, deduplicate) {
        Some(r) => r,
        None => Vec::new(),
    }
}

/// A power-of-two number of rows divides the range of the drawn numbers, so no
/// number is ever rejected: the index is the number modulo the row count.
pub proof fn law_power_of_two_never_rejects(k: nat, bytes: Seq<u8>)
    requires
        bytes.len() == index_bytes(pow2(k)),
    ensures
        be_value(bytes) < rejection_threshold(pow2(k)),
{
    crate::arith::lemma_ceil_log2_pow2(k);
    let e = 8 * index_bytes(pow2(k));
    assert(k <= e);
    lemma_pow2_sum((e - k) as nat, k);
    let q = pow2((e - k) as nat);
    let n = pow2(k);
    assert(pow2(e) == q * n);
    vstd::arithmetic::div_mod::lemma_div_multiples_vanish(q as int, n as int);
    assert(n * q == q * n) by (nonlinear_arith);
    lemma_be_value_bound(bytes);
}

/// A run of bytes spells a number below `256` to its length.
proof fn lemma_be_value_bound(bytes: Seq<u8>)
    ensures
        be_value(bytes) < pow2(8 * bytes.len()),
    decreases bytes.len(),
{
    lemma2_to64();
    if bytes.len() > 0 {
        lemma_be_value_bound(bytes.drop_last());
        lemma_pow2_sum(8 * bytes.drop_last().len(), 8);
        assert(8 * bytes.len() == 8 * bytes.drop_last().len() + 8);
    }
}

/// A sponge never runs out: every draw from it gives indices.
pub proof fn law_sponge_never_runs_out(st: Seq<u8>, num_leaves: nat, count: nat)
    ensures
        samples::<Sponge>(st, num_leaves, count) is Some,
    decreases count,
{
    reveal(sampled);
    if count > 0 {
        law_sponge_never_runs_out(st, num_leaves, (count - 1) as nat);
    }
}

} // verus!
