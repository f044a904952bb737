//! Configuration of the segment engine.

use vstd::prelude::*;

use crate::format::DEFAULT_SLOT_SIZE;

verus! {

pub const DEFAULT_SEGMENT_SIZE: usize = 0x400_0000;

pub const DEFAULT_READ_RUN_SIZE: usize = DEFAULT_SLOT_SIZE;

pub const DEFAULT_WRITE_RUN_SIZE: usize = 0x10_0000;

pub const DEFAULT_INDEX_WRITE_BUFFER_SIZE: usize = 0x400_0000;

pub const DEFAULT_INDEX_CACHE_SIZE: usize = 0x2000_0000;

/// Tuning of the segment engine.
#[derive(Debug, Clone, Copy, PartialEq, Eq, Structural)]
pub struct SegmentEngineOptions {
    pub segment_size: usize,
    pub write_concurrency: usize,
    pub read_run_size: usize,
    pub write_run_size: usize,
    pub index_write_buffer_size: usize,
    pub index_cache_size: usize,
    pub checkpoint_changes: usize,
    pub hot_frequency: u8,
    pub low_hot_frequency: u8,
    pub direct_io: bool,
}

/// The tuning used where nothing else is asked for.
pub open spec fn default_options() -> SegmentEngineOptions {
    SegmentEngineOptions {
        segment_size: DEFAULT_SEGMENT_SIZE,
        write_concurrency: 1,
        read_run_size: DEFAULT_READ_RUN_SIZE,
        write_run_size: DEFAULT_WRITE_RUN_SIZE,
        index_write_buffer_size: DEFAULT_INDEX_WRITE_BUFFER_SIZE,
        index_cache_size: DEFAULT_INDEX_CACHE_SIZE,
        checkpoint_changes: 4096,
        hot_frequency: 2,
        low_hot_frequency: 2,
        direct_io: false,
    }
}

impl Default for SegmentEngineOptions {
    fn default() -> (options: SegmentEngineOptions)
        ensures
            options == default_options(),
    {
        SegmentEngineOptions {
            segment_size: DEFAULT_SEGMENT_SIZE,
            write_concurrency: 1,
            read_run_size: DEFAULT_READ_RUN_SIZE,
            write_run_size: DEFAULT_WRITE_RUN_SIZE,
            index_write_buffer_size: DEFAULT_INDEX_WRITE_BUFFER_SIZE,
            index_cache_size: DEFAULT_INDEX_CACHE_SIZE,
            checkpoint_changes: 4096,
            hot_frequency: 2,
            low_hot_frequency: 2,
            direct_io: false,
        }
    }
}

impl SegmentEngineOptions {
    /// The same tuning with another `segment_size`.
    pub fn with_segment_size(self, segment_size: usize) -> (options: SegmentEngineOptions)
        ensures
            options == (SegmentEngineOptions { segment_size, ..self }),
    {
        SegmentEngineOptions { segment_size, ..self }
    }

    /// The same tuning with another `read_run_size`.
    pub fn with_read_run_size(self, size: usize) -> (options: SegmentEngineOptions)
        ensures
            options == (SegmentEngineOptions { read_run_size: size, ..self }),
    {
        SegmentEngineOptions { read_run_size: size, ..self }
    }

    /// The same tuning with another `index_write_buffer_size`.
    pub fn with_index_write_buffer_size(self, size: usize) -> (options: SegmentEngineOptions)
        ensures
            options == (SegmentEngineOptions { index_write_buffer_size: size, ..self }),
    {
        SegmentEngineOptions { index_write_buffer_size: size, ..self }
    }

    /// The same tuning with another `index_cache_size`.
    pub fn with_index_cache_size(self, size: usize) -> (options: SegmentEngineOptions)
        ensures
            options == (SegmentEngineOptions { index_cache_size: size, ..self }),
    {
        SegmentEngineOptions { index_cache_size: size, ..self }
    }

    /// The same tuning with another `checkpoint_changes`.
    pub fn with_checkpoint_changes(self, changes: usize) -> (options: SegmentEngineOptions)
        ensures
            options == (SegmentEngineOptions { checkpoint_changes: changes, ..self }),
    {
        SegmentEngineOptions { checkpoint_changes: changes, ..self }
    }

    /// The same tuning with another `hot_frequency`.
    pub fn with_hot_frequency(self, frequency: u8) -> (options: SegmentEngineOptions)
        ensures
            options == (SegmentEngineOptions { hot_frequency: frequency, ..self }),
    {
        SegmentEngineOptions { hot_frequency: frequency, ..self }
    }

    /// The same tuning with another `low_hot_frequency`.
    pub fn with_low_hot_frequency(self, frequency: u8) -> (options: SegmentEngineOptions)
        ensures
            options == (SegmentEngineOptions { low_hot_frequency: frequency, ..self }),
    {
        SegmentEngineOptions { low_hot_frequency: frequency, ..self }
    }

    /// The same tuning with another `direct_io`.
    pub fn with_direct_io(self, direct_io: bool) -> (options: SegmentEngineOptions)
        ensures
            options == (SegmentEngineOptions { direct_io, ..self }),
    {
        SegmentEngineOptions { direct_io, ..self }
    }
}

/// Capacity, slot size and tuning of the segment engine.
#[derive(Debug, Clone, Copy, PartialEq, Eq, Structural)]
pub struct SegmentEngineConfig {
    pub capacity_bytes: u64,
    pub slot_size: usize,
    pub options: SegmentEngineOptions,
}

impl SegmentEngineConfig {
    /// A configuration with the default slot size and tuning.
    pub fn new(capacity_bytes: u64) -> (config: SegmentEngineConfig)
        ensures
            config == (SegmentEngineConfig { capacity_bytes, slot_size: DEFAULT_SLOT_SIZE, options: default_options() }),
    {
        SegmentEngineConfig { capacity_bytes, slot_size: DEFAULT_SLOT_SIZE, options: SegmentEngineOptions::default() }
    }

    /// The same configuration with another slot size.
    pub fn with_slot_size(self, slot_size: usize) -> (config: SegmentEngineConfig)
        ensures
            config == (SegmentEngineConfig { slot_size, ..self }),
    {
        SegmentEngineConfig { slot_size, ..self }
    }

    /// The same configuration with other tuning.
    pub fn with_options(self, options: SegmentEngineOptions) -> (config: SegmentEngineConfig)
        ensures
            config == (SegmentEngineConfig { options, ..self }),
    {
        SegmentEngineConfig { options, ..self }
    }
}

} // verus!
