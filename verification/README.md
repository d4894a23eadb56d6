# reconverge

Static reconvergence analysis for Rust GPU kernels: it finds barriers and
warp collectives that threads may reach under divergent control, reports
them as `findings.v1` documents, and gates CI on them through a reviewed
baseline.

The library in `src/` is written in Verus; every function carries a
contract and is proved against it.

- `model`, `graph`, `analysis`, `inline`, `dialect`, `oxide`: the kernel
  model, control-flow graphs and dominators, the uniformity engine, call
  inlining, and the cuda-oxide dialect (paths, SIMT classification,
  compute-capability limits).
- `emit`: what the engine's results become in the artifacts (uniformity
  map, coverage notes, finding order), the static RC001/RC002 findings,
  RC003 (`&mut [T]` parameters), RC004 (static shared memory over the
  limit) and RC005 (launch contract against index formulas), and what a
  witness replay's answer does to a finding.
- `artifacts`: the artifact records (`findings.v1`, `baseline.v1`,
  `unimap.v1`, `witness.v1`), schema checking, and baseline maintenance.
- `cli`: the command line's rules: argument reading, the review that
  decides what is shown and what gates the exit code, text and SARIF
  rendering, and the small decisions of each subcommand.
- `conformance`: the conformance toolkit: extracting an example's device
  side (parsing it with `syn`), finding mutation sites from a parser's
  walk of a source file, making each site into its mutants, class names,
  manifests, mutant naming and labels, and scoring a run into the
  precision/recall report.

Laws of the library are public proof functions beside the code they
speak of (baseline read-back, idempotence and one entry per suppressed
finding, normalization depending on the entries alone, dominance and the
dominator tree, the dataflow rules, counts and exit code agreeing,
rendered source lines free of terminal controls, the finding order and
its stability, the uniformity lattice).

`app/` is the `cargo reconverge` binary: argument dispatch, running cargo
and the viewer, and reading and writing the artifact files; every decision
it acts on is the library's. `app/syntax_walk.rs` parses a kernel file
with `syn` and reports its syntax tree to the library's site collector;
`app/conformance.rs` is the file side of the conformance toolkit, which
the binary runs when invoked as `conformance-extractor`.
`tests/` exercises the library.
