//! A persistent key/value store built on a log-structured storage engine.
//!
//! The engine keeps the contents of every log generation as an in-memory
//! sequence of characters, the exact text that belongs on disk.  Every
//! mutation appends a self-delimiting record to the current generation and
//! reports the file-system work it implies as a list of effects, which an
//! unverified shell applies to the real directory.  Reading a key decodes
//! the record span the index points at; recovery replays whole generations
//! in ascending order; compaction rewrites the live records into a fresh
//! generation and discards the rest.

pub mod client;
pub mod codec;
pub mod digits;
pub mod index;
pub mod kv;
pub mod laws;
pub mod replay;
pub mod server;
pub mod wire;

pub use codec::Command;
pub use kv::KvStore;
pub use kv::KvsEngine;
pub use kv::KvsError;
pub use wire::Request;
pub use wire::Response;
