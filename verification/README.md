# tracejit

The core of a tracing just-in-time compiler for GPU kernels, verified with
Verus.

- `src/trace.rs`: the traced variables (`Ir`), their types and operations,
  dependency traversal, and the bookkeeping of an evaluation (which variables
  still need device buffers, and retiring evaluated variables).
- `src/graph.rs`: reachability in the dependency DAG.
- `src/deps.rs`: a variable's dependency list, a `smallvec::SmallVec`.
- `src/jit.rs`: the just-in-time compiler: one pass per scheduled variable in
  dependency order, passes merged where sizes and dependencies allow, one
  kernel per remaining pass through a code generation `Backend`, and the
  evaluation that allocates buffers, runs the kernels and retires the
  evaluated variables. The backend is reached through `Recorded`, which keeps
  the history of the calls made to it; the contracts of `Jit::compile` and
  `Jit::eval` state that history exactly.
- `src/schedule.rs`, `src/codegen.rs`: the schedule of one kernel and the PTX
  assembly of its OptiX entry point.
- `src/text.rs`: decimal rendering.

`app/` holds what runs on the device: device buffers (through `cust`), the
process-wide tracing state, and a small driver.
