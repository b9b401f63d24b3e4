# analyses

Encoders that turn the operations of a protocol's computation graph into
polynomial ideals, verified with Verus: each slot of a value becomes a
field variable, and each operation adds generators (polynomials that
vanish on honest executions) and definitions (`slot = polynomial`, kept
aside for inlining).

- `src/` — the verified library: slot layouts (`typ`, `var`), polynomials
  and their values (`poly`, `polyv`, `field`), operand sources
  (`poly_source`, `value`), the ideal and its namespace (`ideal`,
  `namespace`, `encode`), the operation encoders (`arith`, `dot`, `pow`,
  `div`, `equ`, `reduce`, `concat`, `record`, `fft`, `interp`, `eval`,
  `ops`), the canonical (multiplied-out) form of a polynomial
  (`formal`), inlining of definitions (`inline`), eliminating generators
  and definitions by variable or monomial (`eliminate`), combinatorics of the
  multivariate layouts (`combinatorics`), the special-soundness
  d-equations over transcript copies (`soundness`), the challenge rounds
  of a transcript (`rounds`), reachability with
  barrier nodes (`reach`) and the interpolation law of the multilinear
  lift (`mle_interp`). Field arithmetic on BLS12-381
  scalars is delegated to `ark-ff`/`ark-bls12-381` through a few trusted
  wrappers in `field`.
- `app/` — the graph-driven analyses around the library (building ideals
  from a graph, map bodies, qualifier and uniformity propagation,
  knowledge and special-soundness analyses); they need the Zippel
  workspace's graph IR and Gröbner backend.
- `tests/` — tests of the library.
