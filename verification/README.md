# nbd-server

A Network Block Device server whose logic is verified with Verus.

- `src/` is the library: the wire protocol and its negotiation, request admission, the lifecycle of
  export runtimes, the registry of open exports, the storage engines (memory, overwritten chunks,
  a log over a copy-on-write tree), the read cache and overlay, compaction, key and path rules, and
  the health checks. It does no I/O. Where work needs a socket, a file or the catalog, the library
  says what to do next and is told what came of it.
- `tests/` runs the library on concrete values.
- `app/` is the program around it: command line, configuration, sockets, files, S3, logs.

What holds of several functions together stands in the library as a public proof function whose
name starts with `law_`.

The program keeps its catalog and its write logs in memory. Exports are configured in
`[export.NAME]` sections with `engine` (`memory`, `simple_durable`, `wal_durable`), `size_bytes` and
`block_size`; what was published to the catalog or appended to a log ends with the process, so no
export outlives it, although the blobs of its chunks stay on disk.

Trusted without proof are the calls of `bytes` (`src/shared_bytes.rs`), of `uuid`
(`src/identity.rs`) and of `String::from_utf8` (`src/protocol.rs`).
