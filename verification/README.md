# qpark

Canonical enumeration of maximal G-parking functions, written in Verus.
The search, the box partition and the counts carry contracts that Verus
proves; the algebraic companions (Smith form, Benson–Chakrabarty–Tetali
maps, Wilson's algorithm) are specified step by step, and some of their
mathematical theorems (Matrix-Tree, the bijection, the group order as a
tree count) are checked by the tests rather than proved.

For a connected multigraph G (root q = vertex 0) one search pass produces
every maximal G-parking function exactly once, the number of spanning trees,
the degree enumerator of parking functions (the Tutte coefficients
T_G(1,y)), and a canonical partition of all parking functions into boxes,
one box per maximal parking function.

## Layout

- `src/graph.rs` — multiplicity matrices, validation, connectivity, hypercubes.
- `src/dhar.rs` — Dhar's burning test, brute-force enumeration, domination maxima.
- `src/burn.rs` — the box search: states, depth-first enumeration, the
  parallel aggregate, and the proofs that the boxes partition the parking
  functions and that their tops are exactly the maximal ones.
- `src/exact.rs` — binomials, Stanley's hypercube formula, Matrix-Tree counts
  by Bareiss elimination.
- `src/bij.rs` — the Benson–Chakrabarty–Tetali maps between parking
  functions and spanning trees, Wilson's algorithm, hypercube spins.
- `src/analyze.rs` — Smith normal form of the reduced Laplacian (the
  sandpile group), class keys, the Möbius experiment, orbit census, box map.
- `src/smith.rs` — the elimination behind the Smith normal form as a state
  machine over integer matrices, which fixes when it stays within `i128`.
- `src/nonsingular.rs` — the reduced Laplacian of a connected multigraph has
  no nonzero kernel vector, so no invariant factor is 0.
- `src/input.rs`, `src/sample.rs` — graph arguments, a seeded generator and
  the random multigraphs drawn from it.
- `src/bits.rs`, `src/sums.rs`, `src/vecs.rs` — shared lemmas and helpers.
- `app/main.rs` — the command-line program (file input, printing).
- `tests/` — scenario tests on hypercubes, sample and random multigraphs.

## Usage

```
qpark count   q4          # counts + Matrix-Tree + Stanley checks
qpark hvector q4          # parking functions by degree, T(1,y)
qpark list-max q3 out.txt # catalog of maximal parking functions
qpark boxes   q3 out.txt  # the canonical box partition
qpark analyze q3          # sandpile SNF, Mobius, orbits, box map
qpark validate            # brute-force cross-checks
```

Graphs: `q1`..`q6` (hypercubes), or a file holding `n` followed by an
`n x n` symmetric multiplicity matrix.
