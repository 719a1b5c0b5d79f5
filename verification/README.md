# lau-approximation-theory

Approximation theory: polynomial and spline interpolation, least squares,
Chebyshev polynomials, Padé approximants, the Remez exchange algorithm, Fourier
truncation and error bounds, applied to agent behaviour modelling.

Layout:

- `src/` — the verified library: the exact, integer-valued logic of the toolkit
  with Verus contracts. `pade` holds binomial coefficients and factorials (with
  the closed form `C(n,k) k! (n-k)! = n!` and symmetry proved), `remez` the
  reference-point exchange (alternating-sign selection and its evenly spaced
  fallback), `agent_model` the moving-average windows and sample indices,
  `chebyshev` the basis type and the exact angles (as fractions of pi) of the
  Chebyshev nodes and extrema; `pade` also gives the index pattern of the Padé
  denominator system.
- `app/` — the floating-point algorithms (interpolation, splines, least
  squares with nalgebra, Padé, Remez iteration, Fourier series, Lebesgue
  constants, agent models) and the serde-enabled types; they call the library
  for the integer parts.
- `tests/` — tests of the library.
