# order_analysis

Decides which modules a bundler has to wrap so that the emitted chunks evaluate them in source
order, and which `init_*` functions a static import of a wrapped module has to call. The library is
written in Verus: what each function returns is stated in its contract and proved.

- `src/link.rs`, `src/chunks.rs`, `src/wrap_state.rs`, `src/stage.rs`: the data that the analyses
  work on, and what they ask of a single module. `src/consistency.rs` checks data from outside.
- `src/source_order.rs`, `src/actual_order.rs`, `src/at_risk.rs`: the order in which the source asks
  for modules, the order in which the chunks would evaluate them, and where the two differ.
- `src/wrap_all.rs`, `src/members.rs`, `src/wrap_plan.rs`: the plan that wraps everything, and the
  smallest plan that holds given modules and whatever they force.
- `src/init_targets.rs`, `src/init_questions.rs`, `src/post_lowering.rs`: the `init_*` calls of
  imports, what they ask of the caller, and the imports between chunks that these calls cause.
- `src/chunk_cycles.rs`, `src/analysis.rs`: cycles of chunks, and the whole analysis.
- `src/dfs.rs`, `src/reach.rs`, `src/visit.rs`, `src/seqs.rs`, `src/indices.rs`: depth-first walks,
  reachability and facts about sequences and sets.
- `src/*_laws.rs`: what holds across functions.
- `app/`: the analysis with typed indices, a debug trace and logging.

What is not proved is stated next to the calls into `rustc-hash`, `itertools`, `petgraph` and the
standard library: in `src/fx.rs`, `src/chunk_cycles.rs` and `src/actual_order.rs`.
