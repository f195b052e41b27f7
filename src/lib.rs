//! A log-structured key/value store: the verified core of its storage engine
//! and of its framed wire protocol.
//!
//! The engine keeps, for each live key, the place of its latest record in a
//! set of append-only log files. `KvStoreCore` decides where records go,
//! maintains the index and the count of garbage bytes, and plans compaction;
//! the caller moves the bytes between memory and the files.

pub mod buffer;
pub mod command;
pub mod engines;
pub mod error;
pub mod generations;
pub mod index;
pub mod laws;
pub mod le_bytes;
pub mod log_pointer;
pub mod protocol;
pub mod reader;
pub mod record;
pub mod store;
pub mod writer;

pub use command::Command;
pub use engines::KvsEngine;
pub use error::KvsError;
pub use log_pointer::LogPointer;
pub use protocol::{KvsDecoder, KvsEncoder, Request, Response};
pub use store::{CompactionPlan, KvStoreCore};
pub use writer::LogWriter;
