//! Requests and results of the extent store.

use vstd::prelude::*;

use crate::model::{CachePriority, EntryKey};
use crate::store::stats::ReclaimStats;

verus! {

/// What became of an insert.
#[derive(Debug, Clone, Copy, PartialEq, Eq, Structural)]
pub enum InsertOutcome {
    Inserted,
    Updated,
    Rejected,
}

/// What a lookup found, and the payload reads that it took.
#[derive(Debug, PartialEq, Eq)]
pub struct GetResult {
    pub value: Option<Vec<u8>>,
    pub priority: Option<CachePriority>,
    pub data_frames: usize,
    pub data_runs: usize,
    pub data_bytes: usize,
}

impl Default for GetResult {
    fn default() -> (result: GetResult)
        ensures
            result.value is None,
            result.priority is None,
            result.data_frames == 0,
            result.data_runs == 0,
            result.data_bytes == 0,
    {
        GetResult { value: None, priority: None, data_frames: 0, data_runs: 0, data_bytes: 0 }
    }
}

/// One entry to insert.
#[derive(Debug, Clone, Copy)]
pub struct EntryInsert<'a> {
    pub key: &'a EntryKey,
    pub value: &'a [u8],
    pub priority: CachePriority,
}

impl<'a> EntryInsert<'a> {
    /// An insert of `value` under `key`.
    pub fn new(key: &'a EntryKey, value: &'a [u8], priority: CachePriority) -> (insert: EntryInsert<'a>)
        ensures
            insert.key == key,
            insert.value == value,
            insert.priority == priority,
    {
        EntryInsert { key, value, priority }
    }
}

/// What became of a batch of inserts.
#[derive(Debug, PartialEq, Eq)]
pub struct BatchInsertResult {
    pub outcomes: Vec<InsertOutcome>,
    /// Physical write calls after adjacent ranges were merged.
    pub write_runs: usize,
    /// Bytes submitted by the batch writer.
    pub written_bytes: usize,
    pub reclaim: ReclaimStats,
}

impl Default for BatchInsertResult {
    fn default() -> (result: BatchInsertResult)
        ensures
            result.outcomes@.len() == 0,
            result.write_runs == 0,
            result.written_bytes == 0,
            result.reclaim.is_zero(),
    {
        BatchInsertResult { outcomes: Vec::new(), write_runs: 0, written_bytes: 0, reclaim: ReclaimStats::default() }
    }
}

} // verus!
