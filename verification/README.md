# iconic_ipm

Interior-point engines for convex quadratic and conic programs, written in Rust and verified with
Verus. The library is generic over the number type, a trait `Scalar` whose operations its users
provide.

## What it solves

- `qp_solve`: minimize `x'Px/2 + q'x` subject to `A_eq x = b_eq` and `A_in x <= b_in`. A problem is
  routed to a closed form, to its dual, to the dual simplex method, to the conic engine, or to a
  predictor-corrector run whose system is chosen by `qp_plan`.
- `conic_solve`: the same objective with the slacks in a product of nonnegative orthants,
  second-order cones and cones of positive semidefinite matrices. `conic_plan` chooses the backend.
- `lowrank_solve`: problems whose Hessian is a low-rank matrix plus a diagonal, rewritten as conic
  programs with a small second-order cone.
- `exp`, `genpow`: barriers, gradients, Hessians and steps of the exponential cone and of the
  generalized power cone. `generators` builds problems over them.

## How it is laid out

`src/` is the verified library. What it takes from outside (factorizations, orders of elimination,
the algebra of the curved cones, the simplex method, searches) enters as closures, and a contract says
what it asks of them and what it makes of their results. The assembly of the systems is in the modules
whose names end in `_kkt`, in `condensed` and in the `qp_` modules; the runs are in `conic_run` and
`qp_run`.

`factor` says which factorization is asked for, in which order, and with which tolerance of a pivot.

What the parts say of each other stands as laws. Those that hold of the numbers as they are stand beside
the functions, in `kkt_laws` among others. Those that hold where the operations are exact read the numbers
as real numbers, by `exact`: the condensed and the folded system are Schur complements (`schur_laws`,
`fold_laws`), the arrow form eliminates to the conic blocks (`arrow_laws`), dense and sparse systems have the same solutions (`system_laws`), the low-rank
reformulation answers the problem that it stands for (`lowrank_laws`), the capacitance matrix gives the
low-rank step (`woodbury_laws`), and a strictly convex program has one optimal point, wherever a run
starts (`optimum_laws`).

`tests/` runs the library in double precision. `app/` binds it to double precision: it names the
outside parts as a trait, `Outside`, tests what an implementation of it returns before the library sees
it, and keeps what searches for low-rank forms found.
