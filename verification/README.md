# spline_relu

Verified parts of a spline-ReLU inverse-problem experiment.

- `src/splitmix.rs`: the SplitMix64 generator (counter, mixer, 53-bit uniform
  numerators, and the caching decision of the Box-Muller normal draw).
- `src/matrix.rs`: a row-major matrix store generic in its entry type.
- `src/ordering.rs`: the stable descending ranking of singular values by key.
- `app/main.rs`: the floating-point experiment itself (forward operator,
  Gram-Schmidt, Jacobi SVD, least squares, CSV and SVG output), built on the
  library.
