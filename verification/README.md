# verbum

Term rewriting over symbolic expressions, verified with Verus.

- `src/language`: symbols, expressions and their mathematical model (`Term`),
  languages, parsing and printing, positions (paths) in expressions.
- `src/rewriting`: pattern matching, unification (solving gives a most general
  unifier in solved form, and fails only when nothing unifies), direct and random rewriting, rules, dependency
  graphs of rule systems, reachability, abelianization, induced string
  rewriting, and e-graphs (union-find, classes, analyses, matchers,
  saturation and schedulers, extraction, drawing). Every operation that
  changes an e-graph keeps it congruence-closed and keeps, in the node list
  of each class, a node of every canonical form among its nodes; merging two
  classes merges no more than congruence forces; the bottom-up matcher finds
  every instance of a pattern in such an e-graph; extraction returns the
  expression of the cheapest nodes under costs that have reached a fixed
  point. Adding a term adds only nodes for its subterms, none whose canonical
  form is already present; adding one the e-graph already holds changes
  nothing, and the
  data of every class is what the analysis's `make` gave for a new class or
  its `merge` gave for merged ones.
- `tests/`: the tests of the library.
- `app/`: what stays outside the verified library: JSON files and the serde
  forms of the library's types, saving drawings, and integer linear programs
  built with `good_lp`.
