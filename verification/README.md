# ferro_pipeit

The verified core of a data-lineage-aware pipeline orchestrator. A pipeline is a set of
named tasks; each task runs a command, waits for the tasks it depends on, and declares
the files it reads (`inputs`) and writes (`outputs`).

Layout:

- `src/models.rs` — tasks, pipelines, and `StringMap`, an insertion-ordered map with
  distinct keys.
- `src/graph.rs` — the petgraph graph behind the DAG, with the contracts its calls rely on.
- `src/dag.rs` — building and validating the dependency graph, the ready-task query, and
  the proof that a valid DAG never stalls.
- `src/cache/` — task fingerprints (SHA-256 over command, script and inputs), cache keys
  and the fingerprint store.
- `src/engine.rs` — file-system access and the command plan of a task (program,
  arguments, `TASK_NAME`, `IN_<NAME>`, `OUT_<NAME>`).
- `src/runner.rs` — the decisions of the run loop: cache hits, missing inputs, retries,
  and the run state with its invariant.
- `src/text.rs` — byte order of strings, whitespace splitting.
- `app/` — the command-line program: YAML and JSON files, processes, the async run loop.
