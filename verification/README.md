# lethe

Records snapshots of NixOS systems (their full closures) in a local SQLite
database, to list, inspect and compare them later.

Layout:

- `src/` — the verified library (Verus):
  - `text.rs`: lexicographic order of texts, sorted insertion, trimming,
    reading and writing port numbers;
  - `nix.rs`: SSH targets, the command lines that reach them, and the
    reading of `nix path-info` and `hostname` output;
  - `diff.rs`: package names and versions of store paths, grouping of a
    closure into packages, and the per-package difference of two closures,
    with its laws (a closure against itself or a reordering of itself,
    reversal, sizes adding up, grouping independent of path order);
  - `cli.rs`: labels and sizes for display, and what recording a
    deployment checks and stores.
- `app/` — the command-line program: argument parsing, running commands,
  the database, JSON parsing and table output.
- `tests/` — tests of the library.
