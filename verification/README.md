# plugmem_core

The engine of an embedded memory for agents: facts with validity intervals,
entities and versioned edges between them, tags, a lexical index, an optional
quantized vector pool with a proximity graph, a write-ahead journal and
checksummed snapshots. The library is written in Verus: every function under
`src/` carries a contract, and the contracts are proved.

## Layout

- `src/memory/state.rs` holds the engine's state as a mathematical value and
  what each verb does to it; `src/memory/mod.rs` is the engine, and
  `history.rs`, `indexing.rs`, `tagging.rs` and `timeline.rs` state what its
  verbs mean for readers and for the indexes.
- `src/memory/recall/` gathers the candidates of a query, fuses rankings and
  renders the answer. Scores are floating-point numbers and come from the host.
- `src/memory/maintain.rs`, `disk_first.rs` and `reembed.rs` rebuild a state;
  `compaction.rs` states what readers see of that. A pass is prepared, its graph
  linked by the host, and committed.
- `src/memory/persist.rs`, `load.rs` and `open.rs` write and read snapshots;
  `links.rs` and `whole.rs` state what every verb keeps so that a saved state
  loads back, `accepted.rs` that what loads is saved and loaded again, and `reopen.rs` that a
  run of calls is opened again as it was.
- `src/index/insertion.rs` walks and links the proximity graph; it asks the
  host for similarities, which are floating-point numbers. `in_range.rs` states
  that no walk leaves the graph.
- `src/index/`, `src/tokenizer/`, `src/table.rs`, `src/heap.rs` and
  `src/interner.rs` are the structures below.
- `app/` is the host's side: scoring, vector arithmetic, messages and wire
  types.

Calls into other crates (Unicode tables, XXH3, a hash map) stand behind
wrappers in `src/tokenizer/unicode.rs`, `src/hash.rs`, `src/text.rs` and
`src/memory/recall/fuse.rs`, and the debug text of a failed storage behind one
in `src/memory/mod.rs`; their contracts are believed, not proved.
