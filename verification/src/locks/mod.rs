//! A lock service: named locks that clients acquire, wait for and release over
//! a line protocol.

pub mod calls;
pub mod event;
pub mod framer;
pub mod intake;
pub mod protocol;
pub mod safety;
pub mod table;
pub mod worker;
