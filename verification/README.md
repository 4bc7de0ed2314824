# rspack_split_chunks

Code splitting and worker/URL scanning for a JavaScript bundler, verified with Verus.

- `src/split_chunks.rs` builds chunks from the entries of a compilation: each entry gets a
  chunk and an entrypoint, every dynamic import whose chunk name is new starts a chunk of
  its own (one whose name is taken joins the chunk that holds it), modules are
  numbered as the queue visits them, modules that a related chunk holds are taken out, and
  the chunks of entrypoints get their runtimes. Its contract states what the chunks hold in
  terms of what their roots reach along static imports (`split_outcome`): where the chunk
  names of dynamic imports are new, an entry's chunk holds exactly what its modules reach, and
  a split chunk what its module reaches less what the importing chunk reaches. It also states
  the run that produced them, step by step (`split_run`).
- `src/split_steps.rs` states what each step of that run does: entering, processing and
  leaving a module, adding it to a chunk, and preparing the entrypoints.
- `src/compilation.rs` holds the compilation, its chunks, chunk groups and chunk graph;
  `src/reach.rs` says what a chunk reaches.
- `src/worker_scanner.rs` and `src/url_scanner.rs` find
  `new Worker(new URL("..", import.meta.url))` and `new URL("..", import.meta.url)` in an
  expression tree (`src/ast.rs`) and record dependencies; `src/hash.rs` names the runtime of
  each worker after a hash of the module and the worker's index.
- `src/worker_plugin.rs` enables the chunk loading of workers; `src/raw_entry.rs` is an entry
  as the bindings hand it over.
- `app/lib.rs` walks `swc` programs with the scanners and reads entries through serde and napi.
