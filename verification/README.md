# nekolib

A library of algorithms and data structures for competitive programming,
written in Verus: every function of `src/` carries a contract, and Verus
proves the code against it.

- `src/` — the library: permutations, run-length encoding, bisection,
  extrema, inversions, Karatsuba multiplication, exact cover, cycle finding;
  bit sets, ordered multisets and bimaps, intervals with interval sets and
  maps, a removable heap, union-find, a set of lines for minimum queries, a
  rank/select dictionary and a wavelet matrix; Dijkstra's shortest paths,
  strongly connected components, maximum flow, functional graphs, lowest
  common ancestors, catamorphisms and rerooting over trees;
  and the logic of the bundler (which imports a program uses, which modules
  they need).
- `tests/` — tests that run the compiled library.
- `app/` — the bundler program: argument handling, file reading, parsing
  Rust source with `syn`, and printing, around the library's logic.

## Choices, and what is not here

- `scc` is here with the contract that its documentation gives (a
  vertex's component number; numbers shared exactly by vertices that reach
  each other; topological order), but it is computed from the reachability
  relation, breadth-first from every vertex, in O(n(n+m)) time rather than by
  the lowlink method in O(n+m): the lowlink invariants were not proved.
  Among the topological numberings it picks one by a stated rule (see
  `comp_id`), which on the documented example gives the documented result.
- `Tree::cata` is here with a contract stated over the closures' possible
  outcomes (each value is one the closures can give on the values computed
  before it), and it asks the closures to accept only the arguments that
  can arise. It computes each root's value on its own, in O(n^2) time
  rather than O(n): the two-pass rerooting invariants were not proved for
  it. `TreeCata::each_root` does rerooting in O(n). Its contract is stated
  through functions that the closures compute: `each_root_with` takes them
  as ghost arguments (`sm`, `sf`), asks that every outcome of the closures
  be what they give, that `sf` with `empty` be a monoid, as the
  documentation of the operations says, and that the closures accept the
  arguments that arise (values built from the tree's subtree values, folds
  of children and what the rest of the tree hands a vertex, with a few
  levels of `sm` and `sf`); `each_root` reads `sm` and `sf` off the
  closures.
- `Hld` is here with an exact contract for `lca` (the deepest vertex that
  reaches both, along the lists of children), but it answers by climbing
  parent links with the depths equalised, in time proportional to the
  depth, rather than along heavy paths in O(log n): the heavy-path
  invariants were not proved.
- `dinic` is here with the contract of a maximum flow: the residual graph
  it leaves is that of a flow of the value it returns, no augmenting path
  is left, the value is at most the capacity of every cut and equals the
  capacity of one. Each round computes the levels of a breadth-first search
  (`dual`) and then augments along one shortest path that the levels give
  (`primal`); the blocking flow of a full Dinic phase, with its current-arc
  pointers, was not proved, so the bound is that of Edmonds and Karp,
  O(|V||E|^2), rather than O(|V|^2|E|).
- `CuckooHashMap`: its hash functions are seeded at random and its insertion
  rehashes until placement succeeds, with no bound on the number of rounds;
  no termination measure exists for that loop.
- `DecrementalSet`: its operations are `todo!()`; there is no behaviour to
  state.
- `RangeTree`: its inner structure is a stub that answers no query.
- `VecSegtree`, `VecActSegtree`, `FoldableDeque`, `FoldableQueue`,
  `DisjointSparseTable`, `hilbert_mo` and `parallel_bisect`: they are
  written against the project's own helper crates (`binop`, `fold`,
  `push_pop`, `buf_range`, `act`, `action`, `elastic_slice`,
  `stateful_predicate`), whose sources are not part of this project.
- `extremum_float`: floating point, which Verus does not reason about.
- The rewriting half of the bundler's `polish` step (walking and printing a
  `syn` syntax tree) stays in `app/`: the syntax tree is opaque to the
  library. Its decisions (which attributes mark tests or documentation)
  and the parse of a file's `use` items are in `src/`.
