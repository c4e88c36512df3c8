# reverse_rusty

The decision logic of a clustered percolator, verified with Verus:

- **Control document** (`document`, `control`, `move_intent`, `wire`, with their laws in
  `control_laws`): membership, the shard-to-node map, and durable move intents. Every transition
  is a function of the document; move commands are idempotent by operation and conditional on the
  complete predicate that they were planned against.
- **Data moves** (`intent`, `reassign`, `rebalance`, `recovery`, with `reassign_laws`,
  `rebalance_laws` and `recovery_laws`): planning an intent, the steps of a live reassignment, the sweep of a
  rebalance, and the resolution of what a crash left behind. Each is a machine that asks for one
  action at a time and decides on its answer.
- **Logical-id enumeration** (`logical_id_scan`, `logical_id_wire`, `logical_id_stream`,
  `logical_id_directory`, `cancel`): a cancellable in-place radix sort, the framed snapshot
  protocol on both sides, and the union of every physical copy.
- **Write locks** (`write_locks`): the registry behind per-id exclusion and its bulk barrier.
- **Segment skipping** (`tag_summary`, `tagbench`): tag summaries that skip a segment only where
  no row can match, and the deterministic parts of the benchmark.

`keyed`, `text`, `fnv` and `error` are what these share.

Contracts are stated over views: each type has an abstract value in which vectors are sequences
and strings are sequences of characters. The only trusted items are thin wrappers around functions
of the standard library; each says in its doc comment what is taken from it.

`tests/` runs the library on concrete values. `app/` is the runtime around it: threads and locks,
remote calls, persistence, and the floating-point parts of the benchmark.
