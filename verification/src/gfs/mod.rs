//! A simplified distributed file system: a master that places chunks on chunk
//! servers, the chunk servers that hold them, and the client.
//!
//! Metadata travels over a control plane and chunk bytes over a data plane.
//! Connections, timers and tasks live outside; what is decided lives here.

pub mod chunk;
pub mod client;
pub mod data;
pub mod master;
pub mod repl;
pub mod rules;
pub mod store;
pub mod transfer;
pub mod types;
