//! The extent store: byte-packed extents, a mutable index and checkpoints.

pub mod config;
pub mod course;
pub mod format;
pub mod history;
pub mod operation;
pub mod stats;
pub mod pool;
pub mod batch;
pub mod read;
pub mod reclaim;
pub mod overlay;
pub mod index;
pub mod checkpoint;
pub mod engine;
