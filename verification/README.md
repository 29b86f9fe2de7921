# whir_commit

Reed–Solomon encoding and Merkle commitment of multilinear polynomials for the
WHIR polynomial commitment scheme, over the Goldilocks field and its quadratic
extension, verified with Verus.

- `src/layout.rs` — how the evaluations are laid out as a matrix (prefix or
  suffix variable order), transposed and zero-padded; the entry-by-entry laws
  of both orders.
- `src/encoding.rs` — the column-wise DFT as a specification over the integers
  modulo the Goldilocks prime, and the laws used to show that a codeword is a
  Reed–Solomon codeword.
- `src/commit.rs` — the base-field and extension commitments, with and without
  the outcome of an accelerator, their contracts, the `try_` variants that
  test the shape of a polynomial before committing it, and the laws of the
  codewords (Reed–Solomon, linearity, agreement of the two orders and of the
  two fields).
- `src/transcript.rs` — the challenger together with the record of the
  commitments it observed.
- `src/plonky3.rs` — the Plonky3 types and calls, each with the contract that
  the proofs rely on.
- `app/` — the accelerated entry points: they try a fused accelerator first and
  hand its outcome to the library.

The field is Goldilocks with its quadratic extension `X^2 = 7`, Poseidon2
Merkle commitments and a duplex challenger. The functions are written for
these concrete types because the contracts can only name outside types
declared without trait-bounded parameters: Goldilocks is a plain struct,
while the Monty-31 fields (BabyBear, KoalaBear) are a type parameterised by a
trait-bounded parameter.
