//! A persistent key-value store built on a log-structured storage engine.
//!
//! Every mutation is appended to the log of the active segment; an in-memory index maps
//! each live key to the byte offset of its latest write. The store keeps the data
//! directory in step through file actions that the caller performs.

pub mod codec;
pub mod command;
pub mod engine;
pub mod error;
pub mod hint;
pub mod index;
pub mod naming;
pub mod resp;
pub mod segment;
pub mod store;

pub use codec::Entry;
pub use command::KvsCmd;
pub use engine::KvsEngine;
pub use error::{Error, ErrorKind, Result};
pub use hint::Hint;
pub use index::Index;
pub use naming::NameGen;
pub use resp::Resp;
pub use segment::{Pointer, Segment};
pub use store::{FileOp, KvStore};
