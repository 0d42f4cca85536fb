# Disjunctive edge finding, verified

A propagator for the disjunctive (unary resource) constraint: no two tasks, each a
start time and a duration, may run at the same time. The propagator applies the
edge-finding rule with a theta-lambda tree, once on the tasks (raising earliest
starts) and once on their mirror images (lowering latest starts), and explains every
bound it changes and every conflict it finds.

Everything is written in Verus and proved:

- `src/engine.rs`: a small store of integer domains, affine views over them, and
  explained lower-bound updates; and the registrations by which propagators hear of
  bound changes.
- `src/sorting.rs`: a stable ordering of indices by integer keys, and the fact that a
  stable order is unique.
- `src/tree_spec.rs`: what a theta-lambda tree means at its leaves: earliest
  completion time of theta, with at most one task of lambda added, and how two
  adjacent runs of leaves combine.
- `src/theta_lambda_trees.rs`: the tree itself, its construction in order of
  earliest start, and its queries and updates.
- `src/disjunctive.rs`: the constraint, the propagator, edge finding, and the
  explanations of conflicts and raised bounds.
- `src/soundness.rs`: no two tasks overlap exactly when at most one task runs at any
  time, for positive durations (the cumulative constraint with capacity one);
  propagation never removes a schedule, so a failure means the
  tasks cannot be scheduled within their bounds; once every task is fixed,
  propagation succeeds exactly when no two tasks overlap; a pass fails exactly when
  some theta is overloaded or the rule pushes a task past its latest start; and the
  explanations of raised bounds are valid: their literals hold when they are made,
  and, with no two tasks overlapping, they force the raised bound.
- Overload explanations are valid in the same sense (their literals hold, and no
  schedule without overlap meets them) except on the widened window, taken when the
  first kept task may start before zero and the upper end of the window lies above
  zero (see `window_exact` in `src/soundness.rs`). There the window runs from the
  first kept task's earliest start, less `lct` and the overrun, up to `2 * lct`
  (`overload_window` states it exactly), and it can be wider than the kept tasks' total
  duration: tasks `a` in `[-5, 0]` and `b` in `[-5, 2]`, both of duration 8, with
  `lct` 10, are explained by `a >= -15, a <= 12, b >= -15, b <= 12`, which the
  schedule `a = -15, b = -7` meets without overlap; and where `lct` is negative the
  literals need not hold when they are made.
- `src/agreement.rs`: propagation depends on the bounds alone: two propagations from
  the same bounds succeed or fail together and, on success, leave the same bounds, so
  `propagate` and `debug_propagate_from_scratch` agree.

The tests under `tests/` run the library on concrete instances.
