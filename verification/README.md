# Salamander

An embedded event log with streams, branches, projections and retention.

Events are appended in batches to named streams. A branch forks the history at
a batch boundary and sees its ancestors' events up to there. Projections fold
the log into rows, keep snapshots, and heal partition by partition. A retention
floor lets old segments go once an anchor covers what they held.

The library in `src/` decides and computes on plain values; it is
verified with Verus, but for the few outside calls named below. The program in `app/` reads and writes the files, runs
the engine's thread and serves the demonstrations.

| Path | What it holds |
| --- | --- |
| `src/format/` | frames, envelopes, identities, metadata and payload codecs |
| `src/log/` | segments, recovery, sidecars, selections and streaming reads |
| `src/branch.rs`, `src/timeline.rs` | lineages and where timelines part |
| `src/stream.rs`, `src/places.rs`, `src/append.rs` | streams and how a batch is appended |
| `src/db/` | the engine: opening, appending, forking, reading, retention |
| `src/projection.rs`, `src/agent/`, `src/json.rs` | projections, and two kinds of payloads |
| `src/facade/` | the service boundary: pages, feeds, queries, healing, the sequencer |
| `src/snapshot.rs`, `src/retention.rs`, `src/sealed.rs` | snapshot and anchor files |
| `src/migration/` | imports of older databases |
| `src/demo/` | what the demonstrations compute |
| `tests/` | tests of the library from outside |
| `app/` | the program |

What the library takes from outside crates stands in a few small functions whose
contracts are stated, not proved: checksums (`checksum.rs`), UTF-8 and quoting
(`text.rs`), binary pieces (`binary.rs`) and JSON (`facade/json.rs`,
`migration/marker.rs`, `demo/http.rs`).
