# redis_clone

A Redis-compatible key-value server whose nodes replicate writes with Raft.
The library under `src/` is verified with Verus; `app/` is the server around it.

## Layout

- `src/frame.rs`: RESP values and their mathematical model.
- `src/num.rs`, `src/text.rs`, `src/buffer.rs`: decimal text, UTF-8 text and
  the `bytes` buffer the codec reads and writes.
- `src/codec.rs`: the RESP decoder and encoder, specified byte by byte;
  `src/codec_laws.rs` proves that decoding gives back what encoding wrote and
  that a partial frame waits for more bytes.
- `src/cache.rs`: the `lru` cache the shards keep their values in.
- `src/db.rs`: the sharded store with expiring keys and the records it writes
  to the append-only file; `src/db_laws.rs` proves what reads give back after
  writes, deletes, expiries and purges.
- `src/recovery.rs`: replaying the append-only file, and the proof that a
  restart redoes every recorded write.
- `src/cmd.rs`: commands parsed from frames and carried out on the store, and
  the payload that carries a write through the replicated log, with the proof
  that it reads back as the same command.
- `src/raft_node.rs`: the Raft node as a state machine that answers requests
  and hands out effects (persist, truncate, apply, reset the timer, start
  heartbeats); `src/raft_laws.rs` proves its safety properties, among them
  that a follower that takes a heartbeat agrees with the leader's log.
- `src/raft_storage.rs`: where a node keeps its term, vote and log.
- `app/`: the TCP and gRPC servers, the timers, the files on disk and the
  command line.
- `tests/`: the test suite, run against the compiled library.
