//! Building blocks of small coordination services, with proofs.
//!
//! * [`locks`]: a lock service over a line protocol, as an event loop and with
//!   one thread per connection.
//! * [`wal`]: a crash-safe key-value store on a write-ahead log.
//! * [`gfs`]: a file system of replicated chunks with one master.
//! * [`spsc`]: a bounded channel from one producer to one consumer.
//!
//! The rest is shared: [`ordmap`] is an ordered map, [`wire`] writes values as
//! bytes and reads them back, [`text`] and [`bytes`] work on characters and
//! buffers.
//!
//! The library decides and computes. Sockets, files, clocks and threads belong to
//! its callers, which hand in what has arrived and carry out what is decided.

pub mod bytes;
pub mod gfs;
pub mod locks;
pub mod ordmap;
pub mod spsc;
pub mod text;
pub mod wal;
pub mod wire;
