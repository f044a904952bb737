//! The segment engine: a slot allocator with one reserve segment.

pub mod config;
pub mod course;
pub mod format;
pub mod history;
pub mod state;
pub mod operation;
pub mod stats;
pub mod store;
pub mod batch;
pub mod read;
pub mod recovery;
pub mod engine;
pub mod io;
