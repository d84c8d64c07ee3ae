# emp_mpc

A Verus-verified library for two-party secure computation in the style of
EMP: Boolean circuits and a Bristol Fashion parser, half-gate and
privacy-free garbling, one-hot garbling gadgets over shares, and oblivious
transfer (Naor–Pinkas and Chou–Orlandi base OT on Ristretto, IKNP
extension, correlated and random OT, and the GGM, SPCOT and LPN pieces of
Ferret).

Layout:

- `src/` is the verified library. Every executable function carries a
  `requires`/`ensures` contract, and the laws of the library are public
  proof functions: for example `lemma_halfgate_circuit_correct` and
  `lemma_pf_circuit_correct` (garbled evaluation decodes to plain
  evaluation), `lemma_iknp_delivers_choice`, `lemma_eq_gadget` and
  `lemma_add_gadget`, `lemma_mod_p_correct`, and
  `lemma_integer_multiply_correct`.
- Outside code is reached through a few trusted wrappers: SHA-256 from
  `sha2` (`block_hash.rs`) and Ristretto arithmetic from `curve25519-dalek`
  (`base_ot.rs`). Each names its result with an uninterpreted spec
  function.
- The hashes and pseudorandom generators of `emp_tool` are passed in as
  closures.
- `app/` holds what cannot be verified: channels, threads, random sampling,
  and the drivers that run the protocols over I/O.
- `tests/` runs the library against concrete values.
