# tpt-mbd

Verified combinatorial core of a multibody-dynamics toolkit, written in
Verus.

## What is proved

- `contact::detection` — axis-aligned boxes on an integer grid: overlap,
  intersection, enclosing box, centre and half extents, each with an exact
  contract, and the laws that relate them (symmetry of overlap, monotonicity
  under enlargement, intersection as greatest common box, enclosing box as
  least upper bound).
- `contact::bvh` — a bounding-volume hierarchy stored in an arena. `build`
  produces a valid hierarchy (every node below the root, every object in
  exactly one leaf, tight boxes, parent links, median splits along the
  widest axis, ties kept in input order, each subtree stored just before
  its parent); `refit` recomputes, from the root, the box of every node it
  reaches and leaves the rest alone; `find_potential_pairs` and
  `bvh_broad_phase` return every pair of objects whose boxes overlap,
  exactly once; `narrow_phase_test` runs a distance query only on
  overlapping boxes, from the direction between their centres.
- `contact::gjk` — the support-map interface and the box support map, with
  its extremality law.
- `system::dofs` — the count of generalized coordinates of a system.
- `frame` — the topology of the frame tree (parents and ordered children);
  the transforms themselves are kept beside it in `app/`.
- `joints` — joint types, joint constraints, the minimal-coordinate
  formulation (coordinate count and joint-to-full mapping) and coordinate
  partitioning (an exact partition of the DOFs).
- `validation::report` — the column truncation used by the regression
  report tables.

## Coordinates

Positions are signed 64-bit grid units. Comparisons, minima and maxima are
exact on the grid, so the broad phase neither misses nor invents overlaps.
Real-valued positions are quantized onto the grid by the caller; `app/`
does this conservatively (minima rounded down, maxima rounded up).

## Layout

- `src/` — the verified library.
- `tests/` — executable tests of the library.
- `app/` — unverified code around it: the floating-point front end of the
  broad phase and the floating-point numerics (distance queries, constraint
  equations, stabilization) that run on top of the verified core.
