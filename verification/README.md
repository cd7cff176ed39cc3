# dep_graph_analyzer

Finds the locally installed packages of a pacman system that nothing needs.
A package is needed when it was installed explicitly, or when a needed
package requires it by a hard or an optional dependency; a dependency on a
virtual package counts for every package that provides it. Unneeded cycles
of dependencies are found too.

Layout:

- `src/` — the verified library (Verus).
  - `model.rs`: packages as plain values, what a dependency resolves to,
    what "needed" means, and the laws of that notion.
  - `graph.rs`: reachability in a directed graph, and its lemmas.
  - `common.rs`: `DepHash`, `PackageIndex`, and `ProviderList`.
  - `providers.rs`: the invariant of a map from name hashes to providers.
  - `fx.rs`: the `rustc_hash` map operations the search relies on.
  - `dep_analyzer.rs`: the depth-first search over the dependencies.
  - `dep_matrix.rs`: the dense dependency matrix and the search over it.
- `app/` — the program: reads the local database through `alpm`, hands
  the packages to the library and prints the unneeded ones.
- `tests/` — tests of the library on small package sets.
