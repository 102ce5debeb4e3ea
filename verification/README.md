# oqci

A quantum circuit compiler core with machine-checked contracts. A program
comes in through a frontend (OpenQASM 3 text, or a Qiskit circuit reduced to
plain facts), becomes a validated circuit IR, is optimized by a pipeline of
passes, is analyzed, and is mapped onto a device's qubits.

## Layout

- `src/` — the library, written in Verus. Its functions carry `requires`
  and `ensures` clauses that Verus proves against their bodies. The few
  calls into `petgraph` and into std's Unicode character classes go through
  trusted wrappers whose contracts are believed, not proved.
  - `ir/` — the circuit IR (`qc`), its dependency graph (`qco`, on
    `petgraph`), and the conversion between them.
  - `frontend/` — the OpenQASM 3 tokenizer, the statement-by-statement
    translation into the IR (register layout, operand broadcast, gate-name
    mapping), and the Qiskit frontend.
  - `pass/` — canonicalization, gate cancellation, rotation-merge planning,
    scheduling, and the step function of the pass pipeline.
  - `analysis/` — resource reports and circuit diffs.
  - `lowering/` — layouts, shortest-walk routing, orientation repair,
    classical-operation checks, and `lower_onto`, which chains layout,
    routing and repair onto a device (basis decomposition is not part of
    it).
  - `backend/` — executable artifacts, run settings, provenance, histograms.
  - `cli/` — pass selection and the dependency-graph view.
  - `replay.rs` — recovering the SWAP trajectory of a routed circuit.
- `tests/` — tests of the library, run against the compiled crate.
- `app/` — the `oqci` command: file input, the OpenQASM parser (its
  diagnostics print numeric literals as `f64` values) and the parameter
  arithmetic in `f64`, the timed pass manager, and the text and JSON
  renderings.
