# zook

A polynomial commitment scheme over the 64-bit field of order `2^64 - 2^32 + 1`, with
contracts and proofs in Verus.

A prover commits to a vector under an interleaved Reed-Solomon code and proves the values
of linear forms of it. Every round folds the vector by a sumcheck and switches to a
smaller code; a base case ends the protocol. In zero-knowledge mode round polynomials,
messages and codewords are masked. Several bundles of vectors can be proved together: a
selector sumcheck merges them into one claim.

## Layout

- `src/field.rs`, `arith.rs`, `prime.rs`, `sums.rs`, `algebra.rs`, `linear_form.rs`,
  `chunks.rs`, `embedding.rs`: the field, sums, multilinear extensions, linear forms, and
  embeddings into the field.
- `src/transcript.rs`, `proof_of_work.rs`, `matrix_commit.rs`, `challenge_indices.rs`,
  `geometric_challenge.rs`: the transcript and what is drawn from it.
- `src/irs_commit.rs`, `irs_ood.rs`, `sumcheck.rs`, `code_switch.rs`,
  `mask_proximity.rs`, `basecase.rs`: the sub-protocols.
- `src/zook/`: the protocol for one vector, and under `batched/` for bundles.
- `src/whir.rs`: the prover of the protocol without code-switches.
- `src/params/`: specifications, round layouts, plans and their checks;
  `src/orders.rs`: the lengths that codewords can have.
- Files that end in `_laws.rs` hold what is proved of several functions together, above
  all completeness: the proof that an honest prover writes is accepted
  (`zook/protocol_laws.rs`, `zook/batched/protocol_laws.rs`). The prover writes one unless a
  challenge that must not be zero is, the folded witness is zero, or some work has no
  solution; it then returns `None`.
- `app/`: parameter selection with floating point, stored and printed types.
- `tests/`: the library run on concrete values.

## What is trusted

Two calls: `transcript::shake128`, the sponge, and `field::wipe_word`, which erases a
word. Their doc comments say what is taken for granted of them.
