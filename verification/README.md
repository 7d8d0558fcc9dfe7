# regev-plonky3

Regev (Ring-LWE) public-key encryption over the BabyBear field, with value-level
additive homomorphism and STARK proofs of correct encryption, plaintext ranges
and transfers (`before = after + delta` over encrypted balances). The library is
written in Verus: what each function returns is stated in its contract and
proved.

## Layout

- `src/` is the verified library: the scheme, the constraint systems with the
  traces that satisfy them, the evaluation argument, the transcript, and the
  decisions of the verifier.
- `tests/` runs the library with the real field, permutation and random number
  generator.
- `app/` hands the library's constraint systems to Plonky3's commitment schemes
  and FRI, and offers the `prove_*` and `verify_*` entry points.

## What is shown

- Every constraint of every system: on which rows it is asked, which value it
  asks to vanish, and which columns it reads on the next row (`src/air.rs`,
  `src/range.rs`, `src/transfer.rs`, `src/gadget.rs`).
- Decryption undoes encryption, and sums of ciphertexts decrypt to sums of
  values, within explicit digit and noise budgets (`src/correctness.rs`).
- A satisfied trace has a small witness, and the challenge is a root of both
  ring identities; honest traces are satisfied at every challenge
  (`src/soundness.rs`, `src/transfer_soundness.rs`, `src/range.rs`).
- A statement that is accepted against one committed table at `2n` different
  challenges is true: the ciphertexts are encryptions of binary messages, ranges
  hold, transfers conserve (`src/binding.rs`). This rests on the extension being
  a field, in which a nonzero polynomial has no more roots than its degree
  (`src/roots.rs`).

Field arithmetic, the extension, the duplex sponge and the random draws are
those of the Plonky3 crates and `rand`, and decimal digits are those of the
standard library. The functions that call them are marked `external_body`, and
their contracts are the only ones taken on trust. Nothing is claimed of the
STARK itself, of the hardness of the lattice problem, or of the randomness.
