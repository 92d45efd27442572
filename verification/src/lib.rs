//! A log-structured key-value storage engine.
//!
//! The engine keeps an append-only command log, split into segments, and an
//! in-memory index that maps every live key to the place of its latest `Put`
//! record in that log. The log is the only durable state: the index is
//! rebuilt from it whenever a store is opened.
//!
//! The engine itself performs no input or output. It works on the byte image
//! of the segments: a host program reads the segment files from its medium
//! and hands them to [`KvStore::open`]. After each mutation it asks
//! [`KvStore::sync_steps`] what to do to the files, and does it.
//!
//! What a log means is defined in [`log`]: the entries that a scan of its
//! segments finds, and the index and the contents that replaying them
//! leaves. The operations of [`KvStore`] are specified by what they do to
//! the log, and [`laws`] states what follows for the values that `get`
//! finds: after writes, after compaction, after reopening, and after a
//! crash.
pub mod command;
pub mod compaction;
pub mod error;
pub mod laws;
pub mod log;
pub mod medium;
pub mod naming;
pub mod recovery;
pub mod store;

pub use crate::command::Command;
pub use crate::error::KvsError;
pub use crate::log::{LogPointer, Segment};
pub use crate::store::{Config, KvStore};
