# witness_complex

Witness complexes for landmark-based topological data analysis, verified with
Verus.

- `src/order.rs`: order keys of distances, index sorting.
- `src/landmarks.rs`: pseudo-random and MaxMin landmark selection.
- `src/lcg_period.rs`: the full period of the pseudo-random generator, which
  bounds when the random selection ends.
- `src/witness.rs`: witnesses, the weak and the strong voting rules.
- `src/complex.rs`: the weak and strong witness complexes (the landmarks and
  the simplices that receive a witness's vote) and their laws.
- `app/lib.rs`: the floating-point front end: Euclidean distances, their
  order keys, and k-means++ selection.

Distances are never held as floats by the library. A non-negative distance
`d` is passed as `d.to_bits()` (`0` for zero), NaN as `UNDEFINED_DIST`; for
non-negative floats the bit patterns are ordered as the values are.
