# venturi

A DAG-native language runtime: `.vt` files are lexed, parsed, checked and
compiled to bytecode, wired into a DAG that refuses cycles, and run node by
node; compiled chassis are packed into `.vcbin` containers sealed with a
SHA-256 hash, and pits hold versioned chassis that can be updated and rolled
back.

The library in `src/` is verified with Verus: each public function states
what it returns over a mathematical model of its types, and the laws that
hold across functions (the DAG stays acyclic, a decoded container gives back
the encoded sections, a pit update invalidates exactly what depends on the
pit, ...) are proof functions.

- `src/` — the library: `lexer`, `parser`, `ast`, `compiler`, `bytecode`,
  `vm` (one step of the machine, and runs of steps), `graph` (the DAG, kept
  in a `petgraph` graph), `order` (Kahn's order of named files), `vcbin`
  (the container format), `chassis` (packing files into a chassis), `pits`,
  `permissions`, `validator`, `codegen` (XML and HTML; the `react` format is refused with the
  unknown-format error, whose text still lists it, because the React
  emitter's source is not part of this project), `runtime`, `gui`
  (the card window's state), `error`, `text`, `chars`.
- `app/` — the `venturi` command: argument parsing, files, JSON, float
  arithmetic and printing for the machine, and the two GUI backends.
- `tests/` — tests run against the compiled library.
