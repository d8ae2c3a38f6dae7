# permcore

Verified linear-time permutation arguments over the BN254 scalar field:
BiPerm and ProdPerm, with the sumcheck, zerocheck and product-check
protocols they share, a Fiat-Shamir transcript over `merlin`, the
`PolynomialCommitment` interface with a mock scheme and the Hyrax scheme over
BN254 `G1`.

Layout:

- `src/field.rs`: field elements, their values in `[0, p)`, and the field laws.
- `src/sums.rs`: finite sums and products in the field and their rearrangements.
- `src/eq.rs`, `src/mle.rs`: the equality polynomial and multilinear extensions.
- `src/permutation.rs`: permutations of the hypercube, their bits, halves and groups.
- `src/transcript.rs`: the transcript, specified as the log of what it absorbed.
- `src/sumcheck.rs`, `src/zerocheck.rs`, `src/prodcheck.rs`: the building blocks.
- `src/interp.rs`: polynomials by coefficients and exact Lagrange interpolation.
- `src/completeness.rs`: the honest sumcheck and zerocheck provers against their verifiers.
- `src/pcs.rs`, `src/hyrax.rs`: commitment schemes.
- `src/biperm.rs`, `src/prodperm.rs`: the two permutation arguments, each with
  its completeness theorem and its rejection laws.
- `app/`: conversions to and from arkworks types, and error messages.

What is proved, and on what it rests:

- Sumcheck and zerocheck: an honest proof is accepted with the same
  challenges, for every degree whose Lagrange nodes `0..=d` are invertible in
  the field (proved here for up to 40 nodes); a wrong number of rounds, a
  wrong claim and a changed round are refused with their own errors, whatever
  the challenges are.
- BiPerm and ProdPerm completeness is stated for any commitment scheme whose
  honest openings verify (`openings_verify`) and that admits the instance.
  That premise is proved for `MockPcs`. For Hyrax it is proved for keys
  sharing their generators over which the multi-scalar multiplication is
  linear (`msm_linear`); that linearity, a fact of the group, is stated by
  the trusted `msm` wrapper of each call's result, but as a statement about
  all tables it stays a premise (see `lemma_biperm_complete_hyrax` and
  `lemma_prodperm_complete_hyrax`). Hyrax's `verify` itself proves, from the
  wrapper, that every honest opening is accepted.
- For a scheme whose honest openings verify, a changed sumcheck round makes
  BiPerm verification fail with that round's error, and a forged opened value
  makes BiPerm and ProdPerm verification fail with the opening-verification
  error when the scheme also refuses wrong values (`wrong_values_refused`,
  proved for both `MockPcs` and Hyrax). These hold whatever the challenges.
- Hyrax verification never fails with an error: wrong lengths and wrong
  values give `Ok(false)`.
