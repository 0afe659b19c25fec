# keel

The verified core of a replicated key-value store: its log, its wire format, its
host loop, its client, and the tools that break it and measure it on purpose.

Everything under `src/` is written in Verus. Every public function says in its
`requires` and `ensures` what it takes and what it gives back, and the properties
that span functions stand beside them as proof functions whose names begin with
`law_`.

## Layout

- `src/log/`: records, segments, recovery, and the journal over them. The journal
  asks for effects on a directory and a host carries them out;
  `log/durability.rs` proves what that leaves on disk, through crashes and
  compaction.
- `src/api.rs`, `src/raft.rs`, `src/wire.rs`: what is said between nodes and
  clients, and its encoding.
- `src/net/`: framing, the transport seam, and the suite every transport is held
  to.
- `src/node/`: the host loop, persist first and send after, and snapshots.
- `src/client/`: sessions, retries, pipelines and histories.
- `src/chaos/`: schedules of faults, the proxies that cut links, clocks that jump,
  and what is concluded from a run.
- `src/bench/`: histograms, workloads, campaigns, and what may be published.
- `src/maelstrom.rs`: the same store behind Maelstrom's messages.
- `src/fuzz/`: the parsers and what is pointed at them.
- `app/`: the command line: sockets, processes, files and clocks.
- `tests/`: the library from outside.

## What is trusted

Proofs rest on a few declarations about code that is not verified here: the
integers of `postcard`, the checksum of `crc32c`, the JSON of `serde_json`, and three
functions of the standard library. Each is marked where it stands and says what is
claimed of it.
