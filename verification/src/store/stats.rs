//! Counters and point-in-time views of the extent store.

use vstd::prelude::*;

use crate::counter::{sum64, sum_of_three, sum_size};
use crate::model::{rank, CachePriority};

verus! {

/// Capacity and cardinality decisions for one layout. `planned_file_bytes` is the hard
/// space inside the configured capacity; the index target is soft and may be
/// overcommitted without rejecting a write.
#[derive(Debug, Clone, Copy, PartialEq, Eq, Structural)]
pub struct ExtentLayoutStats {
    pub configured_capacity_bytes: u64,
    pub planned_file_bytes: u64,
    pub data_file_bytes: u64,
    pub usable_payload_bytes: u64,
    pub index_soft_capacity_bytes: u64,
    pub extent_size_bytes: u64,
    pub physical_extents: u64,
    pub usable_extents: u64,
    pub entry_charge_bytes: u64,
    pub planned_live_entries: u64,
    pub maximum_live_entries: u64,
}

impl Default for ExtentLayoutStats {
    fn default() -> (stats: ExtentLayoutStats)
        ensures
            stats.configured_capacity_bytes == 0,
            stats.planned_file_bytes == 0,
            stats.data_file_bytes == 0,
            stats.usable_payload_bytes == 0,
            stats.index_soft_capacity_bytes == 0,
            stats.extent_size_bytes == 0,
            stats.physical_extents == 0,
            stats.usable_extents == 0,
            stats.entry_charge_bytes == 0,
            stats.planned_live_entries == 0,
            stats.maximum_live_entries == 0,
    {
        ExtentLayoutStats {
            configured_capacity_bytes: 0,
            planned_file_bytes: 0,
            data_file_bytes: 0,
            usable_payload_bytes: 0,
            index_soft_capacity_bytes: 0,
            extent_size_bytes: 0,
            physical_extents: 0,
            usable_extents: 0,
            entry_charge_bytes: 0,
            planned_live_entries: 0,
            maximum_live_entries: 0,
        }
    }
}

/// A point-in-time view of physical extent ownership by cache priority.
#[derive(Debug, Clone, Copy, PartialEq, Eq)]
pub struct ExtentOccupancy {
    pub usable_extents: u32,
    pub entries_per_extent: u32,
    pub occupied_extents: [u32; 3],
    pub used_entries: [u64; 3],
    pub used_bytes: [u64; 3],
    pub capacity_floor_extents: [u32; 3],
}

/// How far `occupied` goes beyond `floor`.
pub open spec fn beyond(occupied: u32, floor: u32) -> int {
    if occupied > floor {
        occupied - floor
    } else {
        0
    }
}

impl ExtentOccupancy {
    /// A view with the given counts.
    pub fn new(
        usable_extents: u32,
        entries_per_extent: u32,
        occupied_extents: [u32; 3],
        used_entries: [u64; 3],
        used_bytes: [u64; 3],
        capacity_floor_extents: [u32; 3],
    ) -> (occupancy: ExtentOccupancy)
        ensures
            occupancy == (ExtentOccupancy { usable_extents, entries_per_extent, occupied_extents, used_entries, used_bytes, capacity_floor_extents }),
    {
        ExtentOccupancy { usable_extents, entries_per_extent, occupied_extents, used_entries, used_bytes, capacity_floor_extents }
    }

    /// `usable_extents`.
    pub fn usable_extents(self) -> (count: u32)
        ensures
            count == self.usable_extents,
    {
        self.usable_extents
    }

    /// `entries_per_extent`.
    pub fn entries_per_extent(self) -> (count: u32)
        ensures
            count == self.entries_per_extent,
    {
        self.entries_per_extent
    }

    /// `occupied_extents` of one priority.
    pub fn occupied_extents(self, priority: CachePriority) -> (count: u32)
        ensures
            count == self.occupied_extents@[rank(priority)],
    {
        self.occupied_extents[priority.index()]
    }

    /// `used_entries` of one priority.
    pub fn used_entries(self, priority: CachePriority) -> (count: u64)
        ensures
            count == self.used_entries@[rank(priority)],
    {
        self.used_entries[priority.index()]
    }

    /// `used_bytes` of one priority.
    pub fn used_bytes(self, priority: CachePriority) -> (count: u64)
        ensures
            count == self.used_bytes@[rank(priority)],
    {
        self.used_bytes[priority.index()]
    }

    /// `capacity_floor_extents` of one priority.
    pub fn capacity_floor_extents(self, priority: CachePriority) -> (count: u32)
        ensures
            count == self.capacity_floor_extents@[rank(priority)],
    {
        self.capacity_floor_extents[priority.index()]
    }

    /// The extents of one priority beyond its floor.
    pub fn borrowed_extents(self, priority: CachePriority) -> (count: u32)
        ensures
            count == beyond(self.occupied_extents@[rank(priority)], self.capacity_floor_extents@[rank(priority)]),
    {
        self.occupied_extents(priority).saturating_sub(self.capacity_floor_extents(priority))
    }
}

/// Cumulative physical writes issued after creation or reopen: write calls and bytes,
/// not filesystem writeback.
#[derive(Debug, Clone, Copy, PartialEq, Eq, Structural)]
pub struct PhysicalWriteStats {
    pub data_runs: u64,
    pub data_bytes: u64,
    pub data_syncs: u64,
    pub index_runs: u64,
    pub index_bytes: u64,
    pub index_syncs: u64,
    pub index_wal_runs: u64,
    pub index_wal_bytes: u64,
    pub index_wal_syncs: u64,
    pub index_sst_runs: u64,
    pub index_sst_bytes: u64,
    pub index_sst_syncs: u64,
    pub index_manifest_runs: u64,
    pub index_manifest_bytes: u64,
    pub index_manifest_syncs: u64,
    pub index_flushes: u64,
    pub index_compactions: u64,
    pub index_compaction_input_bytes: u64,
    pub index_compaction_output_bytes: u64,
    pub allocator_runs: u64,
    pub allocator_bytes: u64,
    pub allocator_syncs: u64,
}

/// The counters before anything was counted.
pub open spec fn no_writes() -> PhysicalWriteStats {
    PhysicalWriteStats {
        data_runs: 0,
        data_bytes: 0,
        data_syncs: 0,
        index_runs: 0,
        index_bytes: 0,
        index_syncs: 0,
        index_wal_runs: 0,
        index_wal_bytes: 0,
        index_wal_syncs: 0,
        index_sst_runs: 0,
        index_sst_bytes: 0,
        index_sst_syncs: 0,
        index_manifest_runs: 0,
        index_manifest_bytes: 0,
        index_manifest_syncs: 0,
        index_flushes: 0,
        index_compactions: 0,
        index_compaction_input_bytes: 0,
        index_compaction_output_bytes: 0,
        allocator_runs: 0,
        allocator_bytes: 0,
        allocator_syncs: 0,
    }
}

impl Default for PhysicalWriteStats {
    fn default() -> (stats: PhysicalWriteStats)
        ensures
            stats == no_writes(),
    {
        PhysicalWriteStats {
            data_runs: 0,
            data_bytes: 0,
            data_syncs: 0,
            index_runs: 0,
            index_bytes: 0,
            index_syncs: 0,
            index_wal_runs: 0,
            index_wal_bytes: 0,
            index_wal_syncs: 0,
            index_sst_runs: 0,
            index_sst_bytes: 0,
            index_sst_syncs: 0,
            index_manifest_runs: 0,
            index_manifest_bytes: 0,
            index_manifest_syncs: 0,
            index_flushes: 0,
            index_compactions: 0,
            index_compaction_input_bytes: 0,
            index_compaction_output_bytes: 0,
            allocator_runs: 0,
            allocator_bytes: 0,
            allocator_syncs: 0,
        }
    }
}

impl PhysicalWriteStats {
    /// Both sets of counters together.
    pub open spec fn merged(self, other: PhysicalWriteStats) -> PhysicalWriteStats {
        PhysicalWriteStats {
            data_runs: sum64(self.data_runs, other.data_runs),
            data_bytes: sum64(self.data_bytes, other.data_bytes),
            data_syncs: sum64(self.data_syncs, other.data_syncs),
            index_runs: sum64(self.index_runs, other.index_runs),
            index_bytes: sum64(self.index_bytes, other.index_bytes),
            index_syncs: sum64(self.index_syncs, other.index_syncs),
            index_wal_runs: sum64(self.index_wal_runs, other.index_wal_runs),
            index_wal_bytes: sum64(self.index_wal_bytes, other.index_wal_bytes),
            index_wal_syncs: sum64(self.index_wal_syncs, other.index_wal_syncs),
            index_sst_runs: sum64(self.index_sst_runs, other.index_sst_runs),
            index_sst_bytes: sum64(self.index_sst_bytes, other.index_sst_bytes),
            index_sst_syncs: sum64(self.index_sst_syncs, other.index_sst_syncs),
            index_manifest_runs: sum64(self.index_manifest_runs, other.index_manifest_runs),
            index_manifest_bytes: sum64(self.index_manifest_bytes, other.index_manifest_bytes),
            index_manifest_syncs: sum64(self.index_manifest_syncs, other.index_manifest_syncs),
            index_flushes: sum64(self.index_flushes, other.index_flushes),
            index_compactions: sum64(self.index_compactions, other.index_compactions),
            index_compaction_input_bytes: sum64(self.index_compaction_input_bytes, other.index_compaction_input_bytes),
            index_compaction_output_bytes: sum64(self.index_compaction_output_bytes, other.index_compaction_output_bytes),
            allocator_runs: sum64(self.allocator_runs, other.allocator_runs),
            allocator_bytes: sum64(self.allocator_bytes, other.allocator_bytes),
            allocator_syncs: sum64(self.allocator_syncs, other.allocator_syncs),
        }
    }

    /// All write calls together.
    pub fn total_runs(self) -> (total: u64)
        ensures
            total == sum64(sum64(self.data_runs, self.index_runs), self.allocator_runs),
    {
        self.data_runs.saturating_add(self.index_runs).saturating_add(self.allocator_runs)
    }

    /// All bytes together.
    pub fn total_bytes(self) -> (total: u64)
        ensures
            total == sum64(sum64(self.data_bytes, self.index_bytes), self.allocator_bytes),
    {
        self.data_bytes.saturating_add(self.index_bytes).saturating_add(self.allocator_bytes)
    }

    /// All sync calls together.
    pub fn total_syncs(self) -> (total: u64)
        ensures
            total == sum64(sum64(self.data_syncs, self.index_syncs), self.allocator_syncs),
    {
        self.data_syncs.saturating_add(self.index_syncs).saturating_add(self.allocator_syncs)
    }

    /// Adds other counters to these.
    pub fn merge(&mut self, other: PhysicalWriteStats)
        ensures
            *final(self) == old(self).merged(other),
    {
        self.data_runs = self.data_runs.saturating_add(other.data_runs);
        self.data_bytes = self.data_bytes.saturating_add(other.data_bytes);
        self.data_syncs = self.data_syncs.saturating_add(other.data_syncs);
        self.index_runs = self.index_runs.saturating_add(other.index_runs);
        self.index_bytes = self.index_bytes.saturating_add(other.index_bytes);
        self.index_syncs = self.index_syncs.saturating_add(other.index_syncs);
        self.index_wal_runs = self.index_wal_runs.saturating_add(other.index_wal_runs);
        self.index_wal_bytes = self.index_wal_bytes.saturating_add(other.index_wal_bytes);
        self.index_wal_syncs = self.index_wal_syncs.saturating_add(other.index_wal_syncs);
        self.index_sst_runs = self.index_sst_runs.saturating_add(other.index_sst_runs);
        self.index_sst_bytes = self.index_sst_bytes.saturating_add(other.index_sst_bytes);
        self.index_sst_syncs = self.index_sst_syncs.saturating_add(other.index_sst_syncs);
        self.index_manifest_runs = self.index_manifest_runs.saturating_add(other.index_manifest_runs);
        self.index_manifest_bytes = self.index_manifest_bytes.saturating_add(other.index_manifest_bytes);
        self.index_manifest_syncs = self.index_manifest_syncs.saturating_add(other.index_manifest_syncs);
        self.index_flushes = self.index_flushes.saturating_add(other.index_flushes);
        self.index_compactions = self.index_compactions.saturating_add(other.index_compactions);
        self.index_compaction_input_bytes = self.index_compaction_input_bytes.saturating_add(other.index_compaction_input_bytes);
        self.index_compaction_output_bytes = self.index_compaction_output_bytes.saturating_add(other.index_compaction_output_bytes);
        self.allocator_runs = self.allocator_runs.saturating_add(other.allocator_runs);
        self.allocator_bytes = self.allocator_bytes.saturating_add(other.allocator_bytes);
        self.allocator_syncs = self.allocator_syncs.saturating_add(other.allocator_syncs);
    }
}

/// The order in which counters are merged does not matter.
pub proof fn law_write_stats_merge_in_any_order(a: PhysicalWriteStats, b: PhysicalWriteStats, c: PhysicalWriteStats)
    ensures
        a.merged(b) == b.merged(a),
        a.merged(b).merged(c) == a.merged(b.merged(c)),
        no_writes().merged(a) == a,
{
}

/// What reclaim has done, by priority.
#[derive(Debug, Clone, Copy, PartialEq, Eq)]
pub struct ReclaimStats {
    pub reclaimed_extents: [usize; 3],
    pub invalidated_entries: [usize; 3],
    pub invalidated_bytes: [usize; 3],
    pub checkpoint_wait_nanos: u64,
    pub generation_invalidation_nanos: u64,
    pub total_nanos: u64,
}

/// Three counters added pairwise.
pub open spec fn added(a: Seq<usize>, b: Seq<usize>) -> Seq<usize> {
    seq![sum_size(a[0], b[0]), sum_size(a[1], b[1]), sum_size(a[2], b[2])]
}

impl Default for ReclaimStats {
    fn default() -> (stats: ReclaimStats)
        ensures
            stats.is_zero(),
    {
        ReclaimStats {
            reclaimed_extents: [0, 0, 0],
            invalidated_entries: [0, 0, 0],
            invalidated_bytes: [0, 0, 0],
            checkpoint_wait_nanos: 0,
            generation_invalidation_nanos: 0,
            total_nanos: 0,
        }
    }
}

fn sum_priority_counts(values: [usize; 3]) -> (sum: usize)
    ensures
        sum == sum_of_three(values@),
{
    values[0].saturating_add(values[1]).saturating_add(values[2])
}

fn add_priority_counts(values: [usize; 3], other: [usize; 3]) -> (sums: [usize; 3])
    ensures
        sums@ == added(values@, other@),
{
    let sums = [
        values[0].saturating_add(other[0]),
        values[1].saturating_add(other[1]),
        values[2].saturating_add(other[2]),
    ];
    assert(sums@ =~= added(values@, other@));
    sums
}

fn add_at(values: [usize; 3], priority: CachePriority, amount: usize) -> (sums: [usize; 3])
    ensures
        sums@ == values@.update(rank(priority), sum_size(values@[rank(priority)], amount)),
{
    let at = priority.index();
    let mut sums = values;
    sums[at] = values[at].saturating_add(amount);
    sums
}

impl ReclaimStats {
    /// Nothing was reclaimed.
    pub open spec fn is_zero(self) -> bool {
        &&& self.reclaimed_extents@ == seq![0usize, 0usize, 0usize]
        &&& self.invalidated_entries@ == seq![0usize, 0usize, 0usize]
        &&& self.invalidated_bytes@ == seq![0usize, 0usize, 0usize]
        &&& self.checkpoint_wait_nanos == 0
        &&& self.generation_invalidation_nanos == 0
        &&& self.total_nanos == 0
    }

    /// `self` holds the counters of `a` and `b` together.
    pub open spec fn is_merge_of(self, a: ReclaimStats, b: ReclaimStats) -> bool {
        &&& self.reclaimed_extents@ == added(a.reclaimed_extents@, b.reclaimed_extents@)
        &&& self.invalidated_entries@ == added(a.invalidated_entries@, b.invalidated_entries@)
        &&& self.invalidated_bytes@ == added(a.invalidated_bytes@, b.invalidated_bytes@)
        &&& self.checkpoint_wait_nanos == sum64(a.checkpoint_wait_nanos, b.checkpoint_wait_nanos)
        &&& self.generation_invalidation_nanos == sum64(a.generation_invalidation_nanos, b.generation_invalidation_nanos)
        &&& self.total_nanos == sum64(a.total_nanos, b.total_nanos)
    }

    /// `reclaimed_extents` of one priority.
    pub fn reclaimed_extents(self, priority: CachePriority) -> (count: usize)
        ensures
            count == self.reclaimed_extents@[rank(priority)],
    {
        self.reclaimed_extents[priority.index()]
    }

    /// `invalidated_entries` of one priority.
    pub fn invalidated_entries(self, priority: CachePriority) -> (count: usize)
        ensures
            count == self.invalidated_entries@[rank(priority)],
    {
        self.invalidated_entries[priority.index()]
    }

    /// `invalidated_bytes` of one priority.
    pub fn invalidated_bytes(self, priority: CachePriority) -> (count: usize)
        ensures
            count == self.invalidated_bytes@[rank(priority)],
    {
        self.invalidated_bytes[priority.index()]
    }

    /// `reclaimed_extents` of all priorities.
    pub fn total_reclaimed_extents(self) -> (count: usize)
        ensures
            count == sum_of_three(self.reclaimed_extents@),
    {
        sum_priority_counts(self.reclaimed_extents)
    }

    /// `invalidated_entries` of all priorities.
    pub fn total_invalidated_entries(self) -> (count: usize)
        ensures
            count == sum_of_three(self.invalidated_entries@),
    {
        sum_priority_counts(self.invalidated_entries)
    }

    /// `invalidated_bytes` of all priorities.
    pub fn total_invalidated_bytes(self) -> (count: usize)
        ensures
            count == sum_of_three(self.invalidated_bytes@),
    {
        sum_priority_counts(self.invalidated_bytes)
    }

    /// `checkpoint_wait_nanos` so far.
    pub fn checkpoint_wait_nanos(self) -> (nanos: u64)
        ensures
            nanos == self.checkpoint_wait_nanos,
    {
        self.checkpoint_wait_nanos
    }

    /// `generation_invalidation_nanos` so far.
    pub fn generation_invalidation_nanos(self) -> (nanos: u64)
        ensures
            nanos == self.generation_invalidation_nanos,
    {
        self.generation_invalidation_nanos
    }

    /// `total_nanos` so far.
    pub fn total_nanos(self) -> (nanos: u64)
        ensures
            nanos == self.total_nanos,
    {
        self.total_nanos
    }

    /// Counts one reclaimed extent of a priority.
    pub fn record(&mut self, priority: CachePriority, invalidated_entries: usize, invalidated_bytes: usize)
        ensures
            final(self).reclaimed_extents@ == old(self).reclaimed_extents@.update(
                rank(priority),
                sum_size(old(self).reclaimed_extents@[rank(priority)], 1),
            ),
            final(self).invalidated_entries@ == old(self).invalidated_entries@.update(
                rank(priority),
                sum_size(old(self).invalidated_entries@[rank(priority)], invalidated_entries),
            ),
            final(self).invalidated_bytes@ == old(self).invalidated_bytes@.update(
                rank(priority),
                sum_size(old(self).invalidated_bytes@[rank(priority)], invalidated_bytes),
            ),
            final(self).checkpoint_wait_nanos == old(self).checkpoint_wait_nanos,
            final(self).generation_invalidation_nanos == old(self).generation_invalidation_nanos,
            final(self).total_nanos == old(self).total_nanos,
    {
        self.reclaimed_extents = add_at(self.reclaimed_extents, priority, 1);
        self.invalidated_entries = add_at(self.invalidated_entries, priority, invalidated_entries);
        self.invalidated_bytes = add_at(self.invalidated_bytes, priority, invalidated_bytes);
    }

    /// Counts the time that one reclaim took.
    pub fn record_work(&mut self, checkpoint_wait_nanos: u64, invalidation_nanos: u64, total_nanos: u64)
        ensures
            *final(self) == (ReclaimStats {
                checkpoint_wait_nanos: sum64(old(self).checkpoint_wait_nanos, checkpoint_wait_nanos),
                generation_invalidation_nanos: sum64(old(self).generation_invalidation_nanos, invalidation_nanos),
                total_nanos: sum64(old(self).total_nanos, total_nanos),
                ..*old(self)
            }),
    {
        self.checkpoint_wait_nanos = self.checkpoint_wait_nanos.saturating_add(checkpoint_wait_nanos);
        self.generation_invalidation_nanos = self.generation_invalidation_nanos.saturating_add(invalidation_nanos);
        self.total_nanos = self.total_nanos.saturating_add(total_nanos);
    }

    /// Adds other counters to these.
    pub fn merge(&mut self, other: ReclaimStats)
        ensures
            final(self).is_merge_of(*old(self), other),
    {
        self.reclaimed_extents = add_priority_counts(self.reclaimed_extents, other.reclaimed_extents);
        self.invalidated_entries = add_priority_counts(self.invalidated_entries, other.invalidated_entries);
        self.invalidated_bytes = add_priority_counts(self.invalidated_bytes, other.invalidated_bytes);
        self.checkpoint_wait_nanos = self.checkpoint_wait_nanos.saturating_add(other.checkpoint_wait_nanos);
        self.generation_invalidation_nanos = self.generation_invalidation_nanos.saturating_add(other.generation_invalidation_nanos);
        self.total_nanos = self.total_nanos.saturating_add(other.total_nanos);
    }
}

/// Merging adds every counter to its like, and to no other; a counter stops at its largest
/// value.
pub proof fn law_merging_write_stats_adds_them(a: PhysicalWriteStats, b: PhysicalWriteStats)
    ensures
        ({
            let both = a.merged(b);
            let adds = |x: u64, y: u64, sum: u64| sum == if x + y > u64::MAX {
                u64::MAX as int
            } else {
                x + y
            };
            &&& adds(a.data_runs, b.data_runs, both.data_runs)
            &&& adds(a.data_bytes, b.data_bytes, both.data_bytes)
            &&& adds(a.data_syncs, b.data_syncs, both.data_syncs)
            &&& adds(a.index_runs, b.index_runs, both.index_runs)
            &&& adds(a.index_bytes, b.index_bytes, both.index_bytes)
            &&& adds(a.index_syncs, b.index_syncs, both.index_syncs)
            &&& adds(a.index_wal_runs, b.index_wal_runs, both.index_wal_runs)
            &&& adds(a.index_wal_bytes, b.index_wal_bytes, both.index_wal_bytes)
            &&& adds(a.index_wal_syncs, b.index_wal_syncs, both.index_wal_syncs)
            &&& adds(a.index_sst_runs, b.index_sst_runs, both.index_sst_runs)
            &&& adds(a.index_sst_bytes, b.index_sst_bytes, both.index_sst_bytes)
            &&& adds(a.index_sst_syncs, b.index_sst_syncs, both.index_sst_syncs)
            &&& adds(a.index_manifest_runs, b.index_manifest_runs, both.index_manifest_runs)
            &&& adds(a.index_manifest_bytes, b.index_manifest_bytes, both.index_manifest_bytes)
            &&& adds(a.index_manifest_syncs, b.index_manifest_syncs, both.index_manifest_syncs)
            &&& adds(a.index_flushes, b.index_flushes, both.index_flushes)
            &&& adds(a.index_compactions, b.index_compactions, both.index_compactions)
            &&& adds(a.index_compaction_input_bytes, b.index_compaction_input_bytes, both.index_compaction_input_bytes)
            &&& adds(a.index_compaction_output_bytes, b.index_compaction_output_bytes, both.index_compaction_output_bytes)
            &&& adds(a.allocator_runs, b.allocator_runs, both.allocator_runs)
            &&& adds(a.allocator_bytes, b.allocator_bytes, both.allocator_bytes)
            &&& adds(a.allocator_syncs, b.allocator_syncs, both.allocator_syncs)
        }),
{
}

/// Merging reclaim work adds it up, priority by priority.
pub proof fn law_merging_reclaim_stats_adds_them(a: ReclaimStats, b: ReclaimStats, both: ReclaimStats, p: int)
    requires
        both.is_merge_of(a, b),
        0 <= p < 3,
    ensures
        ({
            let adds = |x: int, y: int, sum: int, most: int| sum == if x + y > most {
                most
            } else {
                x + y
            };
            &&& adds(a.reclaimed_extents@[p] as int, b.reclaimed_extents@[p] as int, both.reclaimed_extents@[p] as int, usize::MAX as int)
            &&& adds(a.invalidated_entries@[p] as int, b.invalidated_entries@[p] as int, both.invalidated_entries@[p] as int, usize::MAX as int)
            &&& adds(a.invalidated_bytes@[p] as int, b.invalidated_bytes@[p] as int, both.invalidated_bytes@[p] as int, usize::MAX as int)
            &&& adds(a.checkpoint_wait_nanos as int, b.checkpoint_wait_nanos as int, both.checkpoint_wait_nanos as int, u64::MAX as int)
            &&& adds(a.generation_invalidation_nanos as int, b.generation_invalidation_nanos as int, both.generation_invalidation_nanos as int, u64::MAX as int)
            &&& adds(a.total_nanos as int, b.total_nanos as int, both.total_nanos as int, u64::MAX as int)
        }),
{
}

/// A priority borrows what it occupies beyond its floor: with that much less it is within
/// its floor, and within it nothing is borrowed.
pub proof fn law_only_what_is_beyond_the_floor_is_borrowed(occupied: u32, floor: u32)
    ensures
        occupied <= floor ==> beyond(occupied, floor) == 0,
        occupied >= floor ==> occupied - beyond(occupied, floor) == floor,
{
}

} // verus!
