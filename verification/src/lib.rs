//! A write-ahead log with checkpointing and crash recovery.
//!
//! Entries carry monotonically increasing sequence numbers; a checkpoint
//! marks the point up to which the log is persisted, and recovery replays
//! the entries that follow the last checkpoint.

pub mod checkpoint;
pub mod entry;
pub mod log;
pub mod recovery;
pub mod sequence;

pub use log::Wal;
