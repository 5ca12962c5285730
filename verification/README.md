# rmc

A Markov-chain Monte Carlo framework whose core is verified with Verus.

`src/` is the verified library:

- `random`: per-chain seeding (`SeedSource`, SplitMix-style `mix64`) and uniform
  index draws.
- `philox`: the Philox-4x32-10 counter-based generator and the `PhiloxRng` stream
  built on it.
- `mc`: the Metropolis bookkeeping (`step_update`, update statistics), the run loop
  (`run_typed`, `SimulationParams`, `SimulationStats`), named measurements and the
  reduction of independent chains (`reduce_chains`).
- `merge`, `laws`: the `Merge` trait and the laws the reductions obey.
- `flat`, `arcs`, `gpu_state`: the fixed-capacity topology of a diagram (vertices
  chained in time order, phonon arcs, phonon counts), its invariants, and the
  packing of many chains into shared arrays.
- `batched`, `minimal`, `config`, `spike`: small pieces of the example programs.

`app/` holds what is left outside the verified library: floating-point acceptance
tests and samplers, weighted update selection, the thread pool that runs chains,
result sinks, progress bars and the serde-backed configuration.

`tests/` exercises the library on concrete values.
