# coordkit

Building blocks of small coordination services, verified with Verus.

| Module  | What it is |
|---------|------------|
| `locks` | a lock service over a line protocol: framing, protocol, lock table, and the decisions of an event-loop server and of a server with one thread per connection |
| `wal`   | a crash-safe key-value store on a write-ahead log: records, frames, replay, compaction, and the commands of its shell |
| `gfs`   | a file system of replicated chunks: the master, chunk servers, the client, the data plane's messages, and the commands of its shell |
| `spsc`  | a bounded channel from one producer to one consumer |

`ordmap`, `wire`, `text` and `bytes` are shared by them.

## Layout

- `src/` is the library. Its functions have contracts over mathematical models of
  the data; without one are only those wrappers of outside calls of whose results
  nothing can be promised. What holds of the services as a
  whole stands in public proof functions whose names start with `law_`:
  `locks/safety.rs`, `locks/worker.rs`, `locks/framer.rs`, `wal/log.rs`,
  `gfs/rules.rs`, `gfs/transfer.rs` and next to the functions that they are about.
- `app/` is one program for all services: sockets, files, timers, threads and RPC
  around the library.
- `tests/` runs the library on concrete values, with sockets and logs in memory,
  and the channel across threads.

## What is trusted

Calls into other crates and into the parts of the standard library that have no
specification stand behind small wrappers, each with a comment that says what is
claimed of the call: `postcard` in `wire.rs`, `crc32fast` in `wal/log.rs`, streams
and `String::from_utf8` in `locks/framer.rs`, and the lock and the bell of the
channel in `spsc.rs`.
