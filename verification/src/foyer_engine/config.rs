//! Configuration of the engine.

use vstd::prelude::*;

use crate::counter::{product_size, saturating_mul_size};
use crate::format::DEFAULT_SLOT_SIZE;
use crate::store::config::{default_options, ExtentStoreConfig, ExtentStoreOptions, PriorityCapacityFloors};

verus! {

pub const DEFAULT_QUEUE_CAPACITY_BYTES: usize = 0x1000_0000;

pub const DEFAULT_QUEUE_CAPACITY_ENTRIES: usize = 65_536;

pub const DEFAULT_WRITE_BATCH_BYTES: usize = 0x800_0000;

pub const DEFAULT_WRITE_BATCH_ENTRIES: usize = 4_096;

pub const DEFAULT_READ_BUSY_WRITE_BATCH_BYTES: usize = 0x80_0000;

pub const DEFAULT_CHECKPOINT_INTERVAL_NANOS: u128 = 1_000_000_000;

/// What kind of failure the cache reports.
#[derive(Debug, Clone, Copy, PartialEq, Eq, Structural)]
pub enum EngineErrorKind {
    Config,
    External,
    Closed,
}

/// A failure at the engine boundary.
#[derive(Debug)]
pub struct EngineError {
    pub kind: EngineErrorKind,
    pub message: String,
}

/// `error` has exactly this kind and message.
pub open spec fn engine_error(error: EngineError, kind: EngineErrorKind, message: Seq<char>) -> bool {
    error.kind == kind && error.message@ == message
}

pub(crate) fn failure(kind: EngineErrorKind, message: &str) -> (error: EngineError)
    ensures
        engine_error(error, kind, message@),
{
    EngineError { kind, message: message.to_owned() }
}

/// Configuration of the engine. Durations are in nanoseconds.
///
/// The layout is checked when a store is reopened. Queue, batching, I/O, checkpoint,
/// frequency and index-cache settings are runtime tuning and may change across reopens.
#[derive(Debug, Clone, Copy, PartialEq, Eq, Structural)]
pub struct ExtentEngineConfig {
    pub store: ExtentStoreConfig,
    pub checkpoint_bytes: usize,
    pub queue_capacity_bytes: usize,
    pub queue_capacity_entries: usize,
    pub write_batch_bytes: usize,
    pub write_batch_entries: usize,
    pub read_busy_write_batch_bytes: usize,
    pub read_concurrency: usize,
    pub checkpoint_interval_nanos: u128,
}

/// What is wrong with a configuration, if anything is. The first fault counts.
pub open spec fn config_fault(config: ExtentEngineConfig) -> Option<Seq<char>> {
    if config.queue_capacity_bytes == 0 {
        Some("extent queue byte capacity must be positive"@)
    } else if config.queue_capacity_entries == 0 {
        Some("extent queue entry capacity must be positive"@)
    } else if !(0 < config.write_batch_bytes <= config.queue_capacity_bytes) {
        Some("extent write batch bytes must be positive and no larger than the queue"@)
    } else if !(0 < config.write_batch_entries <= config.queue_capacity_entries) {
        Some("extent write batch entries must be positive and no larger than the queue"@)
    } else if config.read_busy_write_batch_bytes == 0 {
        Some("extent read-busy write batch bytes must be positive"@)
    } else if config.read_concurrency == 0 {
        Some("extent read concurrency must be positive"@)
    } else if config.checkpoint_interval_nanos == 0 {
        Some("extent checkpoint interval must be positive"@)
    } else {
        None
    }
}

/// Two reads for each thread that can run at once, or two where that is not known.
pub open spec fn default_read_concurrency(parallelism: Option<usize>) -> usize {
    match parallelism {
        Some(threads) => product_size(threads, 2),
        None => 2,
    }
}

impl ExtentEngineConfig {
    /// A configuration with balanced static defaults. `parallelism` is the number of
    /// threads that can run at once; `checkpoint_bytes` the published bytes between
    /// background checkpoint requests.
    pub fn new(capacity_bytes: u64, parallelism: Option<usize>, checkpoint_bytes: usize) -> (config: ExtentEngineConfig)
        ensures
            config == (ExtentEngineConfig {
                store: ExtentStoreConfig {
                    capacity_bytes,
                    slot_size: DEFAULT_SLOT_SIZE,
                    options: default_options(),
                },
                checkpoint_bytes,
                queue_capacity_bytes: DEFAULT_QUEUE_CAPACITY_BYTES,
                queue_capacity_entries: DEFAULT_QUEUE_CAPACITY_ENTRIES,
                write_batch_bytes: DEFAULT_WRITE_BATCH_BYTES,
                write_batch_entries: DEFAULT_WRITE_BATCH_ENTRIES,
                read_busy_write_batch_bytes: DEFAULT_READ_BUSY_WRITE_BATCH_BYTES,
                read_concurrency: default_read_concurrency(parallelism),
                checkpoint_interval_nanos: DEFAULT_CHECKPOINT_INTERVAL_NANOS,
            }),
    {
        let read_concurrency: usize = match parallelism {
            Some(threads) => saturating_mul_size(threads, 2),
            None => 2,
        };
        ExtentEngineConfig {
            store: ExtentStoreConfig::new(capacity_bytes),
            checkpoint_bytes,
            queue_capacity_bytes: DEFAULT_QUEUE_CAPACITY_BYTES,
            queue_capacity_entries: DEFAULT_QUEUE_CAPACITY_ENTRIES,
            write_batch_bytes: DEFAULT_WRITE_BATCH_BYTES,
            write_batch_entries: DEFAULT_WRITE_BATCH_ENTRIES,
            read_busy_write_batch_bytes: DEFAULT_READ_BUSY_WRITE_BATCH_BYTES,
            read_concurrency,
            checkpoint_interval_nanos: DEFAULT_CHECKPOINT_INTERVAL_NANOS,
        }
    }

    /// The same configuration with another layout, for tests and benchmarks.
    pub fn with_test_layout(self, entry_charge: usize, extent_size: usize) -> (config: ExtentEngineConfig)
        ensures
            config.store.slot_size == entry_charge,
            config.store.options.extent_size == extent_size,
            config == (ExtentEngineConfig { store: config.store, ..self }),
            config.store == (ExtentStoreConfig {
                slot_size: entry_charge,
                options: config.store.options,
                ..self.store
            }),
            config.store.options == (ExtentStoreOptions {
                extent_size,
                ..self.store.options
            }),
    {
        let mut config = self;
        config.store.slot_size = entry_charge;
        config.store.options.extent_size = extent_size;
        config
    }

    /// The same configuration with another number of concurrent data-file write runs.
    pub fn with_write_concurrency(self, concurrency: usize) -> (config: ExtentEngineConfig)
        ensures
            config == (ExtentEngineConfig {
                store: ExtentStoreConfig {
                    options: ExtentStoreOptions { write_concurrency: concurrency, ..self.store.options },
                    ..self.store
                },
                ..self
            }),
    {
        let mut config = self;
        config.store.options.write_concurrency = concurrency;
        config
    }

    /// The same configuration with another time for which writes yield to active reads.
    pub fn with_io_read_priority_duration(self, nanos: u128) -> (config: ExtentEngineConfig)
        ensures
            config == (ExtentEngineConfig {
                store: ExtentStoreConfig {
                    options: ExtentStoreOptions { io_read_priority_nanos: nanos, ..self.store.options },
                    ..self.store
                },
                ..self
            }),
    {
        let mut config = self;
        config.store.options.io_read_priority_nanos = nanos;
        config
    }

    /// The same configuration with another bound on one coalesced data read.
    pub fn with_read_run_size(self, bytes: usize) -> (config: ExtentEngineConfig)
        ensures
            config == (ExtentEngineConfig {
                store: ExtentStoreConfig {
                    options: ExtentStoreOptions { read_run_size: bytes, ..self.store.options },
                    ..self.store
                },
                ..self
            }),
    {
        let mut config = self;
        config.store.options.read_run_size = bytes;
        config
    }

    /// The same configuration with another bound on one coalesced data write.
    pub fn with_write_run_size(self, bytes: usize) -> (config: ExtentEngineConfig)
        ensures
            config == (ExtentEngineConfig {
                store: ExtentStoreConfig {
                    options: ExtentStoreOptions { write_run_size: bytes, ..self.store.options },
                    ..self.store
                },
                ..self
            }),
    {
        let mut config = self;
        config.store.options.write_run_size = bytes;
        config
    }

    /// The same configuration with another index write-buffer budget.
    pub fn with_index_write_buffer_size(self, bytes: usize) -> (config: ExtentEngineConfig)
        ensures
            config == (ExtentEngineConfig {
                store: ExtentStoreConfig {
                    options: ExtentStoreOptions { index_write_buffer_size: bytes, ..self.store.options },
                    ..self.store
                },
                ..self
            }),
    {
        let mut config = self;
        config.store.options.index_write_buffer_size = bytes;
        config
    }

    /// The same configuration with another index page-cache budget.
    pub fn with_index_cache_size(self, bytes: usize) -> (config: ExtentEngineConfig)
        ensures
            config == (ExtentEngineConfig {
                store: ExtentStoreConfig {
                    options: ExtentStoreOptions { index_cache_size: bytes, ..self.store.options },
                    ..self.store
                },
                ..self
            }),
    {
        let mut config = self;
        config.store.options.index_cache_size = bytes;
        config
    }

    /// The same configuration with another reuse frequency that promotes normal and high
    /// entries.
    pub fn with_hot_frequency(self, frequency: u8) -> (config: ExtentEngineConfig)
        ensures
            config == (ExtentEngineConfig {
                store: ExtentStoreConfig {
                    options: ExtentStoreOptions { hot_frequency: frequency, ..self.store.options },
                    ..self.store
                },
                ..self
            }),
    {
        let mut config = self;
        config.store.options.hot_frequency = frequency;
        config
    }

    /// The same configuration with another reuse frequency that promotes low entries.
    pub fn with_low_hot_frequency(self, frequency: u8) -> (config: ExtentEngineConfig)
        ensures
            config == (ExtentEngineConfig {
                store: ExtentStoreConfig {
                    options: ExtentStoreOptions { low_hot_frequency: frequency, ..self.store.options },
                    ..self.store
                },
                ..self
            }),
    {
        let mut config = self;
        config.store.options.low_hot_frequency = frequency;
        config
    }

    /// The same configuration with or without direct data-file I/O.
    pub fn with_direct_io(self, direct_io: bool) -> (config: ExtentEngineConfig)
        ensures
            config == (ExtentEngineConfig {
                store: ExtentStoreConfig {
                    options: ExtentStoreOptions { direct_io, ..self.store.options },
                    ..self.store
                },
                ..self
            }),
    {
        let mut config = self;
        config.store.options.direct_io = direct_io;
        config
    }

    /// The same configuration with other shares of the usable extents protected for high
    /// and normal entries.
    pub fn with_priority_capacity_floors(self, high_percent: u8, normal_percent: u8) -> (config: ExtentEngineConfig)
        ensures
            config.store.options.priority_capacity_floors.high() == high_percent,
            config.store.options.priority_capacity_floors.normal() == normal_percent,
            config == (ExtentEngineConfig {
                store: ExtentStoreConfig {
                    options: ExtentStoreOptions {
                        priority_capacity_floors: config.store.options.priority_capacity_floors,
                        ..self.store.options
                    },
                    ..self.store
                },
                ..self
            }),
    {
        let mut config = self;
        config.store.options.priority_capacity_floors = PriorityCapacityFloors::new(high_percent, normal_percent);
        config
    }

    /// The same configuration with another number of published bytes between background
    /// checkpoint requests.
    pub fn with_checkpoint_bytes(self, bytes: usize) -> (config: ExtentEngineConfig)
        ensures
            config == (ExtentEngineConfig { checkpoint_bytes: bytes, ..self }),
    {
        ExtentEngineConfig { checkpoint_bytes: bytes, ..self }
    }

    /// The same configuration with another longest interval between checkpoint requests.
    pub fn with_checkpoint_interval(self, nanos: u128) -> (config: ExtentEngineConfig)
        ensures
            config == (ExtentEngineConfig { checkpoint_interval_nanos: nanos, ..self }),
    {
        ExtentEngineConfig { checkpoint_interval_nanos: nanos, ..self }
    }

    /// The same configuration with another hard byte limit for pending commands.
    pub fn with_queue_capacity_bytes(self, capacity: usize) -> (config: ExtentEngineConfig)
        ensures
            config == (ExtentEngineConfig { queue_capacity_bytes: capacity, ..self }),
    {
        ExtentEngineConfig { queue_capacity_bytes: capacity, ..self }
    }

    /// The same configuration with another hard entry limit for pending commands.
    pub fn with_queue_capacity_entries(self, capacity: usize) -> (config: ExtentEngineConfig)
        ensures
            config == (ExtentEngineConfig { queue_capacity_entries: capacity, ..self }),
    {
        ExtentEngineConfig { queue_capacity_entries: capacity, ..self }
    }

    /// The same configuration with another byte target of one storage batch. A single entry
    /// above the target is still written, as one batch.
    pub fn with_write_batch_bytes(self, bytes: usize) -> (config: ExtentEngineConfig)
        ensures
            config == (ExtentEngineConfig { write_batch_bytes: bytes, ..self }),
    {
        ExtentEngineConfig { write_batch_bytes: bytes, ..self }
    }

    /// The same configuration with another bound on the commands of one storage batch.
    pub fn with_write_batch_entries(self, entries: usize) -> (config: ExtentEngineConfig)
        ensures
            config == (ExtentEngineConfig { write_batch_entries: entries, ..self }),
    {
        ExtentEngineConfig { write_batch_entries: entries, ..self }
    }

    /// The same configuration with another bound on a write batch while reads are active.
    pub fn with_read_busy_write_batch_bytes(self, bytes: usize) -> (config: ExtentEngineConfig)
        ensures
            config == (ExtentEngineConfig { read_busy_write_batch_bytes: bytes, ..self }),
    {
        ExtentEngineConfig { read_busy_write_batch_bytes: bytes, ..self }
    }

    /// The same configuration with another hard number of concurrent physical reads.
    pub fn with_read_concurrency(self, concurrency: usize) -> (config: ExtentEngineConfig)
        ensures
            config == (ExtentEngineConfig { read_concurrency: concurrency, ..self }),
    {
        ExtentEngineConfig { read_concurrency: concurrency, ..self }
    }

    /// Checks the configuration before anything is opened.
    pub fn validate(&self) -> (result: Result<(), EngineError>)
        ensures
            match result {
                Ok(_) => config_fault(*self) is None,
                Err(error) => config_fault(*self) is Some && engine_error(
                    error,
                    EngineErrorKind::Config,
                    config_fault(*self)->0,
                ),
            },
    {
        if self.queue_capacity_bytes == 0 {
            return Err(failure(EngineErrorKind::Config, "extent queue byte capacity must be positive"));
        }
        if self.queue_capacity_entries == 0 {
            return Err(failure(EngineErrorKind::Config, "extent queue entry capacity must be positive"));
        }
        if self.write_batch_bytes == 0 || self.write_batch_bytes > self.queue_capacity_bytes {
            return Err(failure(EngineErrorKind::Config, "extent write batch bytes must be positive and no larger than the queue"));
        }
        if self.write_batch_entries == 0 || self.write_batch_entries > self.queue_capacity_entries {
            return Err(failure(EngineErrorKind::Config, "extent write batch entries must be positive and no larger than the queue"));
        }
        if self.read_busy_write_batch_bytes == 0 {
            return Err(failure(EngineErrorKind::Config, "extent read-busy write batch bytes must be positive"));
        }
        if self.read_concurrency == 0 {
            return Err(failure(EngineErrorKind::Config, "extent read concurrency must be positive"));
        }
        if self.checkpoint_interval_nanos == 0 {
            return Err(failure(EngineErrorKind::Config, "extent checkpoint interval must be positive"));
        }
        Ok(())
    }

    /// The configured capacity as a size in memory.
    pub fn capacity(&self) -> (result: Result<usize, EngineError>)
        ensures
            match result {
                Ok(capacity) => capacity == self.store.capacity_bytes,
                Err(error) => self.store.capacity_bytes > usize::MAX && engine_error(
                    error,
                    EngineErrorKind::Config,
                    "extent capacity does not fit usize"@,
                ),
            },
    {
        if self.store.capacity_bytes > usize::MAX as u64 {
            return Err(failure(EngineErrorKind::Config, "extent capacity does not fit usize"));
        }
        Ok(self.store.capacity_bytes as usize)
    }
}

/// A configuration is accepted exactly where every bound is positive and a batch fits the
/// queue.
pub proof fn law_configurations_are_accepted_within_their_bounds(config: ExtentEngineConfig)
    ensures
        config_fault(config) is None <==> {
            &&& config.queue_capacity_bytes >= 1
            &&& config.queue_capacity_entries >= 1
            &&& 1 <= config.write_batch_bytes <= config.queue_capacity_bytes
            &&& 1 <= config.write_batch_entries <= config.queue_capacity_entries
            &&& config.read_busy_write_batch_bytes >= 1
            &&& config.read_concurrency >= 1
            &&& config.checkpoint_interval_nanos >= 1
        },
{
}

} // verus!
