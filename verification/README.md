# zk_learning

Building blocks of zero-knowledge proofs over the BLS12-381 scalar field,
written in Verus. Verus proves the contracts of the library's functions and
the laws stated as proof functions; the calls into `ark_ff`, `ark_poly`,
`ark_ec` and `rand` stand behind small trusted wrappers whose contracts
say what those crates document.

- `src/field.rs`: field elements, with the arithmetic done by `ark_ff`
  behind small trusted wrappers; `src/fields.rs`: exponentiation and
  inversion by square-and-multiply.
- `src/r1cs.rs`: rank-1 constraint systems and their satisfaction.
- `src/poly.rs`: univariate polynomials (through `ark_poly`), Lagrange
  interpolation and a randomized equality check.
- `src/roots.rs`: root counting for polynomials over the field, and that
  the Lagrange interpolant passes through its points.
- `src/univariate.rs`: functions of one field variable that are polynomials
  of bounded degree, closed under sums, differences and products.
- `src/mle.rs`: multilinear extensions of tables over the Boolean hypercube,
  affine in each coordinate.
- `src/qap.rs`: the QAP of an R1CS instance.
- `src/sumcheck.rs`: the sum-check protocol, interactive and with
  Fiat-Shamir challenges; an honest prover of a low-degree function is
  accepted.
- `src/spartan.rs`: R1CS satisfiability through two sum-checks; the verdict
  is whether the claimed sum at the random point is zero, so a satisfying
  witness is accepted.
- `src/commitments.rs`: Pedersen commitments over G1 (points through
  `ark_ec`), a commitment to a polynomial, and an inner-product argument
  as prover and verifier steps; Pedersen commitments add up, and an
  honest opening of a committed polynomial is accepted.
- `src/halving.rs`: the halving argument accepts an honest prover for every
  sequence of nonzero challenges, proved from the group laws of G1.
- `src/openings.rs`: the verifier of the inner-product argument accepts the
  openings of an honest prover, and hands on the prover's own claim.
- `app/`: the inner-product argument run by two threads over channels.
- `tests/`: tests of the library.
