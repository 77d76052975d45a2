# clsat

A CDCL/DPLL SAT solver library written in Verus. Its functions carry contracts that Verus
proves; what the contracts state is what is proved. In particular:

- DPLL: a `Sat` answer is a model of every clause, and `Unsat` means that no assignment
  extending the one the step started from satisfies the clauses.
- CDCL: the steps keep the watch lists sound and report only false clauses as conflicts;
  propagation keeps a model agreeing with the assignment when there was one; a refutation before the first
  decision means that no assignment extending the given one satisfies the formula; a model handed
  back with every variable assigned and no false clause satisfies every clause. That a
  refutation after learning means unsatisfiability, and that the search only hands back
  complete assignments without a false clause, are not proved.
- Conflict analysis, for a history whose trail supports the walk back from the conflict,
  succeeds above level 0, stops at the first implication point that every path from the decision
  to the conflict passes through, and learns exactly the other-level literals of the clauses
  resolved on.
- BVA: each pass ends only when the search finds no rewrite, and each rewrite is the greedy
  grid of a start literal that saves at least as many clauses as the grid of any other start,
  with the counters moved by one literal and the deleted clauses.

- `src/formula`: literals, clauses, the assignment, the clause database with its watch and
  occurrence lists, two-watched-literal propagation, clause-database reduction and the
  unit/pure-literal simplifications.
- `src/history`: the decision levels, first-UIP conflict analysis with clause minimization,
  learning from dominating implication pairs (DIP), and the two-vertex bottlenecks of a conflict
  graph given by adjacency lists.
- `src/process`: subsumption, bounded variable elimination and bounded variable addition.
- `src/solver`: the CDCL state machine (decisions, learning, restarts) and DPLL steps.
- `src/heuristics`: the random branching heuristic (the draws come from `rand` behind trusted
  wrappers; the choice among the unassigned variables is verified).
- `src/drat`: DRAT proof lines; `src/bitset`: the `fastbit` bit set behind trusted wrappers.
- `app/`: the Python module (pyo3), the floating-point VSIDS heuristic, timing and the solving
  loops that drive the verified steps.
- `tests/`: the test suite.
