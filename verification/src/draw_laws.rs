//! What is drawn from a transcript: challenges that every squeezed byte counts in, and
//! indices that no row is favoured by.

use crate::arith::{ceil_log2_spec, is_pow2, lemma_ceil_log2};
use crate::challenge_indices::{
    be_value, ends_at, index_bytes, law_first_accepted, law_power_of_two_never_rejects,
    law_sorted_distinct, law_sponge_never_runs_out, machine_indices, number_bytes,
    rejection_threshold, samples, state_after, strictly_increasing,
};
use crate::field::{lemma_residue_id, residue, MODULUS};
use crate::geometric_challenge::{after_base, combination, length_before, total_length};
use crate::polynomial_laws::law_weights_are_powers;
use crate::irs_commit::Config;
use crate::soundness_laws::{after_words, law_fields_are_words, law_words_are_read};
use crate::transcript::{
    after_challenge, after_challenges, challenge, challenges, le_value, sponge_byte, sponge_output,
    words_bytes, Sponge, VerifierView,
};
use vstd::arithmetic::div_mod::{
    lemma_fundamental_div_mod, lemma_fundamental_div_mod_converse, lemma_mod_bound,
};
use vstd::arithmetic::power::{lemma_pow0, lemma_pow1, lemma_pow_adds, lemma_pow_positive, pow};
use vstd::arithmetic::power2::{lemma2_to64, lemma_pow2_adds, pow2};
use vstd::prelude::*;

verus! {

/// The digits of a number to base 256 are its bytes, least significant first.
pub proof fn law_little_endian(bytes: Seq<u8>, i: int)
    requires
        0 <= i < bytes.len(),
    ensures
        le_value(bytes) < pow(256, bytes.len()),
        (le_value(bytes) as int / pow(256, i as nat)) % 256 == bytes[i],
    decreases bytes.len(),
{
    let t = bytes.drop_first();
    let v = le_value(bytes) as int;
    let rest = le_value(t) as int;
    lemma_pow_adds(256, 1, t.len());
    lemma_pow1(256);
    lemma_pow0(256);
    lemma_fundamental_div_mod_converse(v, 256, rest, bytes[0] as int);
    if t.len() > 0 {
        law_little_endian(t, if i > 0 {
            i - 1
        } else {
            0
        });
    } else {
        assert(rest == 0);
    }
    assert(v < pow(256, bytes.len())) by (nonlinear_arith)
        requires
            v == bytes[0] as int + 256 * rest,
            rest < pow(256, t.len()),
            pow(256, bytes.len()) == 256 * pow(256, t.len()),
            bytes[0] < 256,
    ;
    if i > 0 {
        let j = (i - 1) as nat;
        lemma_pow_adds(256, 1, j);
        lemma_pow_positive(256, j);
        vstd::arithmetic::div_mod::lemma_div_denominator(v, 256, pow(256, j));
        assert(t[i - 1] == bytes[i]);
    } else {
        assert(v / 1 == v);
    }
}

/// The digits of a number to base 256 are its bytes, most significant first.
pub proof fn law_big_endian(bytes: Seq<u8>, i: int)
    requires
        0 <= i < bytes.len(),
    ensures
        be_value(bytes) < pow(256, bytes.len()),
        (be_value(bytes) as int / pow(256, (bytes.len() - 1 - i) as nat)) % 256 == bytes[i],
    decreases bytes.len(),
{
    let t = bytes.drop_last();
    let v = be_value(bytes) as int;
    let rest = be_value(t) as int;
    let low = bytes.last() as int;
    lemma_pow_adds(256, 1, t.len());
    lemma_pow1(256);
    lemma_pow0(256);
    lemma_fundamental_div_mod_converse(v, 256, rest, low);
    if t.len() > 0 {
        law_big_endian(t, if i < t.len() {
            i
        } else {
            0
        });
    } else {
        assert(rest == 0);
    }
    assert(v < pow(256, bytes.len())) by (nonlinear_arith)
        requires
            v == low + 256 * rest,
            rest < pow(256, t.len()),
            pow(256, bytes.len()) == 256 * pow(256, t.len()),
            low < 256,
    ;
    if i < t.len() {
        let j = (t.len() - 1 - i) as nat;
        lemma_pow_adds(256, 1, j);
        lemma_pow_positive(256, j);
        vstd::arithmetic::div_mod::lemma_div_denominator(v, 256, pow(256, j));
        assert(t[i] == bytes[i]);
    } else {
        assert(v / 1 == v);
    }
}

/// A challenge is the remainder of a number of sixteen digits to base 256, which are the
/// first bytes that the sponge gives.
pub proof fn law_challenge_is_remainder(st: Seq<u8>)
    ensures
        ({
            let n = le_value(sponge_output(st, 16)) as int;
            &&& challenge(st) == n % (MODULUS as int)
            &&& n < pow(256, 16)
            &&& forall|i: int|
                0 <= i < 16 ==> (n / #[trigger] pow(256, i as nat)) % 256 == sponge_byte(
                    st,
                    i as nat,
                )
        }),
{
    let bytes = sponge_output(st, 16);
    let n = le_value(bytes) as int;
    reveal(residue);
    law_little_endian(bytes, 0);
    assert forall|i: int| 0 <= i < 16 implies (n / #[trigger] pow(256, i as nat)) % 256
        == sponge_byte(st, i as nat) by {
        law_little_endian(bytes, i);
    }
}

/// Every challenge of a run is drawn from a state of its own: the one that the sponge
/// gives, from another input than the challenge, after the challenge before.
pub proof fn law_challenges_go_on(st: Seq<u8>, n: nat, i: nat)
    requires
        i < n,
    ensures
        challenges(st, n).len() == n,
        challenges(st, n)[i as int] == challenge(after_challenges(st, i)),
        after_challenges(st, 0) == st,
        after_challenges(st, i + 1) == sponge_output(after_challenges(st, i).push(1), 32),
    decreases n,
{
    crate::irs_commit::lemma_challenges_len(st, n);
    crate::irs_commit::lemma_challenges_len(st, (n - 1) as nat);
    if i < n - 1 {
        law_challenges_go_on(st, (n - 1) as nat, i);
    }
    assert(after_challenges(st, i + 1) == after_challenge(after_challenges(st, i)));
}

proof fn lemma_byte_power(k: nat)
    ensures
        pow2(8 * k) == pow(256, k),
    decreases k,
{
    lemma2_to64();
    lemma_pow0(256);
    if k > 0 {
        let m = (k - 1) as nat;
        lemma_byte_power(m);
        lemma_pow2_adds(8, 8 * m);
        lemma_pow_adds(256, 1, m);
        lemma_pow1(256);
    }
}

/// Indices are fair. A number is drawn from as few bytes as can hold every index; below
/// the bound every index has equally many numbers, one in every full round of them; and
/// fewer numbers are rejected than there are indices.
pub proof fn law_indices_are_fair(n: nat, index: nat, round: nat)
    requires
        n > 1,
        index < n,
    ensures
        ({
            let (bytes, bound) = (index_bytes(n), rejection_threshold(n));
            let all = pow(256, bytes);
            &&& bytes > 0
            &&& n <= all
            &&& pow(256, (bytes - 1) as nat) < n
            &&& 0 < bound <= all < bound + n
            &&& bound as int % n as int == 0
            &&& round < bound as int / n as int <==> index + n * round < bound
            &&& (index + n * round) as int % n as int == index
        }),
{
    let bytes = index_bytes(n);
    let e = ceil_log2_spec(n);
    lemma_ceil_log2(n);
    lemma_byte_power(bytes);
    let all = pow2(8 * bytes) as int;
    lemma2_to64();
    // Enough bytes.
    assert(e >= 1) by {
        if e == 0 {
            assert(pow2(0) == 1);
        }
    }
    assert(8 * bytes >= e);
    if 8 * bytes > e {
        vstd::arithmetic::power2::lemma_pow2_strictly_increases(e, 8 * bytes);
    }
    assert(n <= all);
    // And no more.
    let less = (bytes - 1) as nat;
    lemma_byte_power(less);
    assert(8 * less <= e - 1);
    if 8 * less < e - 1 {
        vstd::arithmetic::power2::lemma_pow2_strictly_increases(8 * less, (e - 1) as nat);
    }
    assert(pow(256, less) < n);
    // The bound.
    let (m, q, r) = (n as int, all / n as int, all % n as int);
    lemma_fundamental_div_mod(all, m);
    lemma_mod_bound(all, m);
    let bound = rejection_threshold(n) as int;
    assert(q >= 1) by (nonlinear_arith)
        requires
            all == m * q + r,
            0 <= r < m,
            m <= all,
            m > 0,
    ;
    assert(q * m == m * q) by (nonlinear_arith);
    assert(bound == q * m);
    assert(bound > 0) by (nonlinear_arith)
        requires
            bound == q * m,
            q >= 1,
            m > 1,
    ;
    lemma_fundamental_div_mod_converse(bound, m, q, 0);
    lemma_fundamental_div_mod_converse((index + n * round) as int, m, round as int, index as int);
    let k = round as int;
    if k < q {
        assert(index + m * k < q * m) by (nonlinear_arith)
            requires
                k < q,
                index < m,
        ;
    } else {
        assert(index + m * k >= q * m) by (nonlinear_arith)
            requires
                k >= q,
                index >= 0,
                m > 0,
        ;
    }
}

/// The coefficients of a combination are the powers of one challenge, drawn for it: the
/// first is one, and no power is left out. For a single item nothing is drawn.
pub proof fn law_combination_is_drawn(st: Seq<u8>, count: nat)
    ensures
        combination(st, count).len() == count,
        count > 1 ==> after_base(st, count) == after_challenge(st),
        count > 1 ==> forall|i: int|
            0 <= i < count ==> #[trigger] combination(st, count)[i] == pow(challenge(st), i as nat)
                % (MODULUS as int),
        count <= 1 ==> after_base(st, count) == st,
        count == 1 ==> combination(st, count) == seq![1int],
{
    broadcast use crate::field::lemma_residue_canonical;

    if count > 1 {
        law_weights_are_powers(challenge(st), count);
    } else if count == 1 {
        lemma_residue_id(1);
        law_weights_are_powers(1, 1);
        lemma_pow0(1);
        assert(combination(st, 1)[0] == pow(1, 0) % (MODULUS as int));
        assert(1int % (MODULUS as int) == 1);
        assert(combination(st, 1) =~= seq![1int]);
    }
}

proof fn lemma_sponge_states(st: Seq<u8>, n: nat, k: nat)
    ensures
        state_after::<Sponge>(st, n, k) == after_challenges(st, k),
    decreases k,
{
    if k > 0 {
        lemma_sponge_states(st, n, (k - 1) as nat);
    }
}

/// Every index of a run is sampled, from the state that the ones before it leave: it is
/// the remainder of the first number that is not rejected, which is spelled by the bytes
/// that the sponge gives after as many squeezes as there were rejected ones.
pub proof fn law_samples_go_on(st: Seq<u8>, n: nat, count: nat, k: nat, j: nat)
    requires
        k < count,
    ensures
        ({
            let (drawn, end) = samples::<Sponge>(st, n, count).unwrap();
            let here = samples::<Sponge>(st, n, k).unwrap().1;
            &&& drawn.len() == count
            &&& ends_at::<Sponge>(here, n, j) ==> drawn[k as int] == be_value(
                sponge_output(after_challenges(here, j), index_bytes(n)),
            ) % n
            &&& ends_at::<Sponge>(here, n, j) ==> samples::<Sponge>(st, n, k + 1).unwrap().1
                == after_challenges(here, j + 1)
        }),
    decreases count,
{
    law_sponge_never_runs_out(st, n, count);
    law_sponge_never_runs_out(st, n, (count - 1) as nat);
    law_sponge_never_runs_out(st, n, k);
    law_sponge_never_runs_out(st, n, k + 1);
    let here = samples::<Sponge>(st, n, k).unwrap().1;
    if k < count - 1 {
        law_samples_go_on(st, n, (count - 1) as nat, k, j);
    } else {
        if count > 1 {
            law_samples_go_on(st, n, (count - 1) as nat, 0, 0);
        } else {
            assert(samples::<Sponge>(st, n, 0) == Some((Seq::<nat>::empty(), st)));
        }
        if ends_at::<Sponge>(here, n, j) {
            law_first_accepted::<Sponge>(here, n, j);
            lemma_sponge_states(here, n, j);
            lemma_sponge_states(here, n, j + 1);
        }
    }
    if ends_at::<Sponge>(here, n, j) {
        law_first_accepted::<Sponge>(here, n, j);
        lemma_sponge_states(here, n, j + 1);
    }
}

proof fn lemma_even_draws(st: Seq<u8>, n: nat, k: nat)
    requires
        is_pow2(n),
        n > 1,
    ensures
        samples::<Sponge>(st, n, k).unwrap().1 == after_challenges(st, k),
        ends_at::<Sponge>(after_challenges(st, k), n, 0),
    decreases k,
{
    let here = after_challenges(st, k);
    assert(ends_at::<Sponge>(here, n, 0)) by {
        let bytes = sponge_output(here, index_bytes(n));
        lemma_sponge_states(here, n, 0);
        assert(number_bytes::<Sponge>(here, n, 0) == Some(bytes));
        law_power_of_two_never_rejects(ceil_log2_spec(n), bytes);
    }
    if k > 0 {
        let m = (k - 1) as nat;
        lemma_even_draws(st, n, m);
        law_samples_go_on(st, n, k, m, 0);
        assert(after_challenges(after_challenges(st, m), 1) == after_challenges(st, k)) by {
            reveal_with_fuel(after_challenges, 3);
        }
    } else {
        assert(samples::<Sponge>(st, n, 0) == Some((Seq::<nat>::empty(), st)));
    }
}

/// The number that is drawn as index `k` of a code whose length is a power of two: the
/// remainder of the bytes that the sponge gives after `k` squeezes.
pub open spec fn drawn_index(st: Seq<u8>, n: nat, k: nat) -> nat {
    be_value(sponge_output(after_challenges(st, k), index_bytes(n))) % n
}

/// An opening queries the rows that the sponge gives, as many as the code asks for, all of
/// them and no others; sorted and without repetition if it asks for that.
pub proof fn law_queries_are_drawn(cfg: &Config, st: Seq<u8>)
    requires
        is_pow2(cfg.codeword_length as nat),
        cfg.codeword_length > 1,
        cfg.in_domain_samples > 0,
    ensures
        ({
            let (n, count) = (cfg.codeword_length as nat, cfg.in_domain_samples as nat);
            let (indices, after) = cfg.indices(st);
            &&& after == after_challenges(st, count)
            &&& !cfg.deduplicate_in_domain ==> {
                &&& indices.len() == count
                &&& forall|k: int|
                    0 <= k < count ==> #[trigger] indices[k] == drawn_index(st, n, k as nat)
            }
            &&& cfg.deduplicate_in_domain ==> {
                &&& strictly_increasing(indices)
                &&& forall|k: nat|
                    k < count ==> indices.contains(#[trigger] drawn_index(st, n, k) as usize)
                &&& forall|y: usize| #[trigger]
                    indices.contains(y) ==> exists|k: nat|
                        k < count && #[trigger] drawn_index(st, n, k) == y
            }
        }),
{
    let (n, count) = (cfg.codeword_length as nat, cfg.in_domain_samples as nat);
    law_sponge_never_runs_out(st, n, count);
    let (drawn, end) = samples::<Sponge>(st, n, count).unwrap();
    lemma_even_draws(st, n, count);
    let all = machine_indices(drawn);
    assert forall|k: nat| k < count implies drawn.len() == count && all[k as int] == #[trigger] drawn_index(
        st,
        n,
        k,
    ) && drawn_index(st, n, k) < n by {
        lemma_even_draws(st, n, k);
        law_samples_go_on(st, n, count, k, 0);
        assert(after_challenges(after_challenges(st, k), 0) == after_challenges(st, k));
        lemma_mod_bound(
            be_value(sponge_output(after_challenges(st, k), index_bytes(n))) as int,
            n as int,
        );
    }
    assert(drawn_index(st, n, 0) < n);
    law_sorted_distinct(all);
    let indices = cfg.indices(st).0;
    if cfg.deduplicate_in_domain {
        assert forall|k: nat| k < count implies indices.contains(
            #[trigger] drawn_index(st, n, k) as usize,
        ) by {
            assert(all[k as int] == drawn_index(st, n, k));
            assert(all.contains(drawn_index(st, n, k) as usize));
        }
        assert forall|y: usize| #[trigger] indices.contains(y) implies exists|k: nat|
            k < count && #[trigger] drawn_index(st, n, k) == y by {
            assert(all.contains(y));
            let k = all.index_of(y) as nat;
            assert(drawn_index(st, n, k) == y);
        }
    } else {
        assert forall|k: int| 0 <= k < count implies #[trigger] indices[k] == drawn_index(
            st,
            n,
            k as nat,
        ) by {
            assert(all[k] == drawn_index(st, n, k as nat));
        }
    }
}

/// What is received of a commitment with samples: its root, before any point is drawn;
/// points that the sponge gives after it; and then a value of every vector at every
/// point.
pub proof fn law_samples_follow_root(cfg: &Config, samples: nat, v: VerifierView)
    ensures
        cfg.received_with_ood(samples, v) matches Some((root, points, values, end)) ==> ({
            let n = samples * cfg.num_vectors as nat;
            let drawn = after_words(v, 4).draw_many(samples);
            &&& root.words() == v.rest.take(4)
            &&& points.len() == samples
            &&& forall|i: int|
                0 <= i < samples ==> #[trigger] points[i] == challenge(
                    after_challenges(v.sponge + words_bytes(v.rest.take(4)), i as nat),
                )
            &&& n <= drawn.rest.len()
            &&& values.len() == n
            &&& forall|i: int| 0 <= i < n ==> #[trigger] values[i] == v.rest[4 + i]
            &&& end == after_words(drawn, n)
        }),
{
    if let Some((root, points, values, end)) = cfg.received_with_ood(samples, v) {
        let n = samples * cfg.num_vectors as nat;
        law_words_are_read(v, 4);
        assert(root.words() =~= v.rest.take(4));
        let next = after_words(v, 4);
        let drawn = next.draw_many(samples);
        law_fields_are_words(drawn, n);
        crate::irs_commit::lemma_challenges_len(next.sponge, samples);
        assert forall|i: int| 0 <= i < samples implies #[trigger] points[i] == challenge(
            after_challenges(v.sponge + words_bytes(v.rest.take(4)), i as nat),
        ) by {
            law_challenges_go_on(next.sponge, samples, i as nat);
        }
        assert forall|i: int| 0 <= i < n implies #[trigger] values[i] == v.rest[4 + i] by {
            assert(drawn.rest[i] == v.rest[4 + i]);
        }
    }
}

/// The groups of a combination follow one another: each starts where the lengths before
/// it, added up, end.
pub proof fn law_groups_are_consecutive(lengths: Seq<usize>, k: nat)
    requires
        k <= lengths.len(),
    ensures
        length_before(lengths, k) == lengths.take(k as int).fold_left(
            0int,
            |sum: int, len: usize| sum + len,
        ),
        k < lengths.len() ==> length_before(lengths, k + 1) == length_before(lengths, k)
            + lengths[k as int],
        total_length(lengths) == lengths.fold_left(0int, |sum: int, len: usize| sum + len),
{
    lemma_lengths_added(lengths, k);
    lemma_lengths_added(lengths, lengths.len());
    assert(lengths.take(lengths.len() as int) =~= lengths);
}

proof fn lemma_lengths_added(lengths: Seq<usize>, k: nat)
    requires
        k <= lengths.len(),
    ensures
        length_before(lengths, k) == lengths.take(k as int).fold_left(
            0int,
            |sum: int, len: usize| sum + len,
        ),
    decreases k,
{
    let part = lengths.take(k as int);
    reveal_with_fuel(Seq::fold_left, 2);
    if k > 0 {
        lemma_lengths_added(lengths, (k - 1) as nat);
        assert(part.drop_last() =~= lengths.take(k - 1));
        assert(part.last() == lengths[k - 1]);
    }
}

} // verus!
