# hugr

Extension requirements of hierarchical graphs, and a pass that orders dataflow
regions, written in Verus.

- `src/hugr.rs`: graphs, and the model (`HugrModel`) that contracts speak of.
- `src/extension_set.rs`, `src/locations.rs`: sets of extensions, and maps from
  the sides of nodes.
- `src/infer/`: inference of open extension requirements by unification.
  `problem.rs` says what problem a graph poses, `run.rs` which steps solving may
  take, `main_loop.rs` what it ends in, `laws.rs` what follows for the graph, and
  `wires.rs` which mismatches are told of its edges.
- `src/validate.rs`: comparison of declared requirements along edges and between
  a region and its input and output nodes.
- `src/force_order/`: topological walks that prefer nodes of low rank
  (`walk.rs`), order edges that fix such a walk (`mod.rs`), and what holds of
  them (`laws.rs`).
- `src/dump.rs`: which files serialized extensions are written to.
- `src/graphs.rs`: what is relied on about the `petgraph` crate.
- `tests/`: tests of the library, with `petgraph` linked.
- `app/`: command line, files, error messages, and traits of other crates.
