# pi_arctan

Search, check and benchmark Machin-type formulas

    pi/4 = c_1 arctan(1/d_1) + ... + c_k arctan(1/d_k)

as a verified library. The PSLQ search and the exhaustive search hand
their progress events to a caller's receiver through a log type
(`ReportLog`, `ExactLog`) whose contents their contracts describe; the
deflating search only promises that an input error leaves the receiver
untouched.

## Layout

- `src/bignum.rs`: `Int`, an arbitrary-precision integer held as sign and
  base-2^32 limbs; its arithmetic is done by `num-bigint` behind wrappers whose
  contracts state the result exactly.
- `src/formula.rs`: terms, Gaussian-integer arithmetic, the exact test of a
  formula (`exact_pi_over_four`), fixed-point arctangents, and the
  normalization of integer relations into formulas.
- `src/parse.rs`: the formula and denominator-list grammars, specified as
  functions on character sequences, and decimal text.
- `src/pslq.rs`: the PSLQ integer-relation search over fixed-point values.
- `src/machin.rs`: the deflating PSLQ search for formulas, its result pinned
  to a specification of the deflation loop over the PSLQ outcome.
- `src/exact.rs`: the exhaustive meet-in-the-middle search, with the proof
  that every formula it reports is exact and that its state count is the
  number of states it goes through.
- `src/space.rs`: the space of term lists the exhaustive search covers, and
  the proof that the search reports exactly the formulas of that space.
- `src/benchmark.rs`: pi to a number of digits from a formula's terms.
- `app/`: the command-line program and the browser entry points (I/O, JSON,
  threads, timing, and the floating-point estimate).
- `tests/`: tests of the library through its public functions.
