//! The hybrid cache: its builder, what entries weigh, and how they are hinted.

use vstd::prelude::*;

use crate::error::{config_error, invalid_config, Error};
use crate::model::{valid_key, CachePriority, EntryKey};
use crate::shared::{bytes_as_slice, bytes_copied, contents};
use crate::entry::EngineValue;

verus! {

pub const CACHE_ENTRY_META_SIZE: usize = 64;

/// How a store that exists already is treated when the cache is opened.
#[derive(Debug, Clone, Copy, PartialEq, Eq, Structural)]
pub enum RecoverMode {
    /// It is not looked at.
    Skip,
    /// It is used if it is good, and replaced if it is not.
    Quiet,
    /// It is used, or the open fails.
    Strict,
}

/// How the memory tier treats an entry.
#[derive(Debug, Clone, Copy, PartialEq, Eq, Structural)]
pub enum MemoryHint {
    Normal,
    Low,
}

/// The hint for a priority.
pub open spec fn hint_for(priority: CachePriority) -> MemoryHint {
    if priority == CachePriority::Low {
        MemoryHint::Low
    } else {
        MemoryHint::Normal
    }
}

/// The hint for a priority: only low entries are hinted low.
pub fn memory_hint(priority: CachePriority) -> (hint: MemoryHint)
    ensures
        hint == hint_for(priority),
{
    match priority {
        CachePriority::Low => MemoryHint::Low,
        CachePriority::Normal | CachePriority::High => MemoryHint::Normal,
    }
}

/// What an entry weighs in the memory tier: its key, its value and a fixed overhead.
pub fn entry_weight(key: &bytes::Bytes, value: &EngineValue) -> (weight: usize)
    ensures
        weight == (if contents(*key).len() + value.value_bytes().len() + 64 > usize::MAX {
            usize::MAX as nat
        } else {
            contents(*key).len() + value.value_bytes().len() + 64
        }),
{
    let key_len = bytes_as_slice(key).len();
    let value_len = bytes_as_slice(value.value()).len();
    key_len.saturating_add(value_len).saturating_add(CACHE_ENTRY_META_SIZE)
}

/// The key of a lookup or a deletion. One of an invalid length names no entry.
pub fn request_key(key: &[u8]) -> (request: Option<bytes::Bytes>)
    ensures
        match request {
            Some(handle) => valid_key(key@) && contents(handle) == key@,
            None => !valid_key(key@),
        },
{
    match EntryKey::validate(key) {
        Ok(_) => Some(bytes_copied(key)),
        Err(_) => None,
    }
}

/// Builder for the hybrid cache.
#[derive(Debug)]
pub struct CacheBuilder {
    pub name: String,
    pub memory_capacity: usize,
    pub memory_shards: Option<usize>,
    pub recover_mode: RecoverMode,
}

impl CacheBuilder {
    /// A cache named `extent`, opened quietly.
    pub fn new(memory_capacity: usize) -> (builder: CacheBuilder)
        ensures
            builder.name@ == "extent"@,
            builder.memory_capacity == memory_capacity,
            builder.memory_shards is None,
            builder.recover_mode == RecoverMode::Quiet,
    {
        CacheBuilder {
            name: "extent".to_owned(),
            memory_capacity,
            memory_shards: None,
            recover_mode: RecoverMode::Quiet,
        }
    }

    /// The same cache under another name.
    pub fn with_name(self, name: String) -> (builder: CacheBuilder)
        ensures
            builder == (CacheBuilder { name, ..self }),
    {
        CacheBuilder { name, ..self }
    }

    /// The same cache with another number of memory shards.
    pub fn with_memory_shards(self, shards: usize) -> (builder: CacheBuilder)
        ensures
            builder == (CacheBuilder { memory_shards: Some(shards), ..self }),
    {
        CacheBuilder { memory_shards: Some(shards), ..self }
    }

    /// The same cache, opened in another way.
    pub fn with_recover_mode(self, recover_mode: RecoverMode) -> (builder: CacheBuilder)
        ensures
            builder == (CacheBuilder { recover_mode, ..self }),
    {
        CacheBuilder { recover_mode, ..self }
    }

    /// Checks the memory tier before it is built.
    pub fn validate(&self) -> (result: Result<(), Error>)
        ensures
            match result {
                Ok(_) => self.memory_capacity > 0 && self.memory_shards != Some(0usize),
                Err(error) => {
                    ||| self.memory_capacity == 0 && config_error(
                        error,
                        "memory cache capacity must be positive"@,
                    )
                    ||| self.memory_capacity > 0 && self.memory_shards == Some(0usize) && config_error(
                        error,
                        "memory cache shard count must be positive"@,
                    )
                },
            },
    {
        if self.memory_capacity == 0 {
            return Err(invalid_config("memory cache capacity must be positive"));
        }
        if let Some(shards) = self.memory_shards {
            if shards == 0 {
                return Err(invalid_config("memory cache shard count must be positive"));
            }
        }
        Ok(())
    }
}

/// Low entries, and no others, are the first to leave memory.
pub proof fn law_only_low_entries_are_hinted_low(priority: CachePriority)
    ensures
        hint_for(priority) is Low <==> priority is Low,
{
}

} // verus!
