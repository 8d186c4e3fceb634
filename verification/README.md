# galette (equation optimizer)

The verified part of Galette, an assembler for GAL chips: the equation
optimizer and the rendering of equations in galasm syntax.

- `src/gal.rs`, `src/parser.rs`, `src/chips.rs`, `src/errors.rs`: pins,
  sum-of-products terms, equations and chips.
- `src/bool_expr.rs`: boolean expressions in the shape that the
  `quine-mc_cluskey` minimizer works on, and the trusted wrapper around
  `Bool::simplify`.
- `src/optimize.rs`: from terms to expressions and back, the choice between
  the input, its minimal form and the minimal form of its complement, and
  `optimize_term`, whose contract states that a suggestion is strictly
  smaller, uses no new pin, computes the same function (or its
  complement when the polarity is flipped) and has no more products than
  any sum of products over the term's pins with that function.
- `src/equivalence.rs`: the proofs that the conversions keep the logic.
- `src/interactive.rs`: the decisions of the interactive pass (suggestions,
  replies, which rewrites are kept, splicing them into the file's lines).
- `app/lib.rs`: the terminal and file handling of the interactive pass.
