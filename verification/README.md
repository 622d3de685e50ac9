# pqhv

Post-quantum homomorphic voting: Module-LWE encryption over
R_q = Z_q[X]/(X^n + 1) with additive homomorphism, threshold decryption by
additive key shares, and a disjunctive zero-knowledge proof that a ballot
encrypts 0 or 1, made non-interactive with Fiat-Shamir over SHA-256.

The library under `src/` is written in Verus and verified:

- `ring`, `algebra`, `arith`: the negacyclic product and its laws
  (commutative, bilinear, associative, compatible with congruence modulo q).
- `params`, `sample`, `poly`, `matrix`, `noise`, `text`: parameter sets and
  their descriptions, CBD sampling, polynomial, vector and matrix arithmetic, noise budgets.
- `keygen`, `encrypt`, `decrypt`, `linear`: the scheme and the modular
  arithmetic that relates what it computes to exact integer sums.
- `threshold`, `threshold_error`: key shares, partial decryptions and
  their combination.
- `bytes`, `challenge`, `disjunctive`, `ballot`, `checked`: transcripts,
  challenges, proof branches, ballot proofs, and verification of proofs
  from untrusted sources with their shapes tested first.
- `laws`: the properties the operations keep together, among them that
  decryption inverts encryption, that the homomorphic tally decrypts to
  the number of 1-votes, that threshold decryption agrees with decryption
  under the summed key whatever the order of the partial decryptions,
  and that an honest ballot proof verifies.

`app/` holds what Verus does not check: JSON serialization, `Display`
impls that print the library's verified message texts, an owning wrapper
that erases a library secret key in place when dropped (the library's
`SecretKey` has `zeroize` but no destructor), and the argument checks made
before calling the library.
