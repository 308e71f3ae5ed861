//! Core of a Real-Time Publish-Subscribe middleware: identifiers, wire forms,
//! the shared sample cache and the reader, writer and discovery state machines.
//!
//! The crate is verified, but for a handful of calls into other crates, each
//! with its contract stated where the call is made. Time, sockets, threads
//! and channels are left to the program built around it, which hands in
//! plain values.

pub mod serialization;
pub mod structure;
pub mod messages;
pub mod dds;
pub mod test;
pub mod network;
pub mod discovery;
