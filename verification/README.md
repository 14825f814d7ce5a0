# rhai_db

The verified core of an analysis database for Rhai scripts: the logic that
the database's queries and incremental rebuilds are made of, each function
with a contract proved by Verus.

- `src/ty.rs`, `src/lattice.rs`: the type model and its join/meet lattice.
- `src/overload.rs`, `src/generics.rs`, `src/signatures.rs`, `src/calls.rs`:
  overload ranking, generic binding and call-target resolution.
- `src/inference.rs`, `src/expr_types.rs`, `src/flow.rs`, `src/narrowing.rs`,
  `src/expected.rs`, `src/seeds.rs`: type inference passes.
- `src/diagnostics.rs`: project diagnostics, ordered and without repeats.
- `src/changes.rs`, `src/cache.rs`, `src/stats.rs`: change batches,
  revisions, the query-support cache and its budget, file statistics.
- `src/auto_import.rs`, `src/paths.rs`, `src/module_completions.rs`,
  `src/query_support.rs`, `src/symbols.rs`, `src/workspace.rs`: workspace
  symbols, imports, completions and navigation.
- `tests/`: tests of the library on concrete values.

The file store, the parser and the lowering to HIR are not part of this
crate: the functions here take what those steps produce as plain values.
The `law_*` proof functions state properties that hold across calls.
