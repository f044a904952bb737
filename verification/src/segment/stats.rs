//! Counters and point-in-time views of the segment engine.

use vstd::prelude::*;

use crate::counter::{product64, saturating_mul64, sum64, sum_of_three, sum_size};
use crate::model::{rank, CachePriority};

verus! {

/// A point-in-time view of physical segment ownership by cache priority.
#[derive(Debug, Clone, Copy, PartialEq, Eq)]
pub struct PriorityOccupancy {
    pub usable_segments: u32,
    pub slots_per_segment: u32,
    pub slot_size: usize,
    pub occupied_segments: [u32; 3],
    pub used_slots: [u64; 3],
    pub capacity_floor_segments: [u32; 3],
}

/// How far `occupied` goes beyond `floor`.
pub open spec fn beyond(occupied: u32, floor: u32) -> int {
    if occupied > floor {
        occupied - floor
    } else {
        0
    }
}

impl PriorityOccupancy {
    /// A view with the given counts.
    pub fn new(
        usable_segments: u32,
        slots_per_segment: u32,
        slot_size: usize,
        occupied_segments: [u32; 3],
        used_slots: [u64; 3],
        capacity_floor_segments: [u32; 3],
    ) -> (occupancy: PriorityOccupancy)
        ensures
            occupancy == (PriorityOccupancy { usable_segments, slots_per_segment, slot_size, occupied_segments, used_slots, capacity_floor_segments }),
    {
        PriorityOccupancy { usable_segments, slots_per_segment, slot_size, occupied_segments, used_slots, capacity_floor_segments }
    }

    /// `usable_segments`.
    pub fn usable_segments(self) -> (count: u32)
        ensures
            count == self.usable_segments,
    {
        self.usable_segments
    }

    /// `slots_per_segment`.
    pub fn slots_per_segment(self) -> (count: u32)
        ensures
            count == self.slots_per_segment,
    {
        self.slots_per_segment
    }

    /// `occupied_segments` of one priority.
    pub fn occupied_segments(self, priority: CachePriority) -> (count: u32)
        ensures
            count == self.occupied_segments@[rank(priority)],
    {
        self.occupied_segments[priority.index()]
    }

    /// `used_slots` of one priority.
    pub fn used_slots(self, priority: CachePriority) -> (count: u64)
        ensures
            count == self.used_slots@[rank(priority)],
    {
        self.used_slots[priority.index()]
    }

    /// `capacity_floor_segments` of one priority.
    pub fn capacity_floor_segments(self, priority: CachePriority) -> (count: u32)
        ensures
            count == self.capacity_floor_segments@[rank(priority)],
    {
        self.capacity_floor_segments[priority.index()]
    }

    /// The bytes of the used slots of one priority.
    pub fn used_bytes(self, priority: CachePriority) -> (bytes: u64)
        ensures
            bytes == product64(self.used_slots@[rank(priority)], self.slot_size as u64),
    {
        saturating_mul64(self.used_slots(priority), self.slot_size as u64)
    }

    /// The segments of one priority beyond its floor.
    pub fn borrowed_segments(self, priority: CachePriority) -> (count: u32)
        ensures
            count == beyond(self.occupied_segments@[rank(priority)], self.capacity_floor_segments@[rank(priority)]),
    {
        self.occupied_segments(priority).saturating_sub(self.capacity_floor_segments(priority))
    }
}

/// Cumulative physical writes issued after creation or reopen: write calls and bytes,
/// not filesystem writeback.
#[derive(Debug, Clone, Copy, PartialEq, Eq, Structural)]
pub struct PhysicalWriteStats {
    pub data_runs: u64,
    pub data_bytes: u64,
    pub owner_runs: u64,
    pub owner_bytes: u64,
    pub index_runs: u64,
    pub index_bytes: u64,
    pub allocator_runs: u64,
    pub allocator_bytes: u64,
}

/// The counters before anything was counted.
pub open spec fn no_writes() -> PhysicalWriteStats {
    PhysicalWriteStats {
        data_runs: 0,
        data_bytes: 0,
        owner_runs: 0,
        owner_bytes: 0,
        index_runs: 0,
        index_bytes: 0,
        allocator_runs: 0,
        allocator_bytes: 0,
    }
}

impl Default for PhysicalWriteStats {
    fn default() -> (stats: PhysicalWriteStats)
        ensures
            stats == no_writes(),
    {
        PhysicalWriteStats {
            data_runs: 0,
            data_bytes: 0,
            owner_runs: 0,
            owner_bytes: 0,
            index_runs: 0,
            index_bytes: 0,
            allocator_runs: 0,
            allocator_bytes: 0,
        }
    }
}

impl PhysicalWriteStats {
    /// Both sets of counters together.
    pub open spec fn merged(self, other: PhysicalWriteStats) -> PhysicalWriteStats {
        PhysicalWriteStats {
            data_runs: sum64(self.data_runs, other.data_runs),
            data_bytes: sum64(self.data_bytes, other.data_bytes),
            owner_runs: sum64(self.owner_runs, other.owner_runs),
            owner_bytes: sum64(self.owner_bytes, other.owner_bytes),
            index_runs: sum64(self.index_runs, other.index_runs),
            index_bytes: sum64(self.index_bytes, other.index_bytes),
            allocator_runs: sum64(self.allocator_runs, other.allocator_runs),
            allocator_bytes: sum64(self.allocator_bytes, other.allocator_bytes),
        }
    }

    /// All write calls together.
    pub fn total_runs(self) -> (total: u64)
        ensures
            total == sum64(sum64(sum64(self.data_runs, self.owner_runs), self.index_runs), self.allocator_runs),
    {
        self.data_runs.saturating_add(self.owner_runs).saturating_add(self.index_runs).saturating_add(self.allocator_runs)
    }

    /// All bytes together.
    pub fn total_bytes(self) -> (total: u64)
        ensures
            total == sum64(sum64(sum64(self.data_bytes, self.owner_bytes), self.index_bytes), self.allocator_bytes),
    {
        self.data_bytes.saturating_add(self.owner_bytes).saturating_add(self.index_bytes).saturating_add(self.allocator_bytes)
    }

    /// Adds other counters to these.
    pub fn merge(&mut self, other: PhysicalWriteStats)
        ensures
            *final(self) == old(self).merged(other),
    {
        self.data_runs = self.data_runs.saturating_add(other.data_runs);
        self.data_bytes = self.data_bytes.saturating_add(other.data_bytes);
        self.owner_runs = self.owner_runs.saturating_add(other.owner_runs);
        self.owner_bytes = self.owner_bytes.saturating_add(other.owner_bytes);
        self.index_runs = self.index_runs.saturating_add(other.index_runs);
        self.index_bytes = self.index_bytes.saturating_add(other.index_bytes);
        self.allocator_runs = self.allocator_runs.saturating_add(other.allocator_runs);
        self.allocator_bytes = self.allocator_bytes.saturating_add(other.allocator_bytes);
    }
}

/// The order in which counters are merged does not matter.
pub proof fn law_write_stats_merge_in_any_order(a: PhysicalWriteStats, b: PhysicalWriteStats, c: PhysicalWriteStats)
    ensures
        a.merged(b) == b.merged(a),
        a.merged(b).merged(c) == a.merged(b.merged(c)),
        no_writes().merged(a) == a,
{
}

/// What reclaim has done, by priority.
#[derive(Debug, Clone, Copy, PartialEq, Eq)]
pub struct ReclaimStats {
    pub reclaimed_segments: [usize; 3],
    pub evicted_entries: [usize; 3],
    pub promoted_entries: [usize; 3],
    pub evicted_bytes: [usize; 3],
    pub promoted_bytes: [usize; 3],
}

/// Three counters added pairwise.
pub open spec fn added(a: Seq<usize>, b: Seq<usize>) -> Seq<usize> {
    seq![sum_size(a[0], b[0]), sum_size(a[1], b[1]), sum_size(a[2], b[2])]
}

impl Default for ReclaimStats {
    fn default() -> (stats: ReclaimStats)
        ensures
            stats.is_zero(),
    {
        ReclaimStats {
            reclaimed_segments: [0, 0, 0],
            evicted_entries: [0, 0, 0],
            promoted_entries: [0, 0, 0],
            evicted_bytes: [0, 0, 0],
            promoted_bytes: [0, 0, 0],
        }
    }
}

fn sum_priority_counts(values: [usize; 3]) -> (sum: usize)
    ensures
        sum == sum_of_three(values@),
{
    values[0].saturating_add(values[1]).saturating_add(values[2])
}

fn add_priority_counts(values: [usize; 3], other: [usize; 3]) -> (sums: [usize; 3])
    ensures
        sums@ == added(values@, other@),
{
    let sums = [
        values[0].saturating_add(other[0]),
        values[1].saturating_add(other[1]),
        values[2].saturating_add(other[2]),
    ];
    assert(sums@ =~= added(values@, other@));
    sums
}

fn add_at(values: [usize; 3], priority: CachePriority, amount: usize) -> (sums: [usize; 3])
    ensures
        sums@ == values@.update(rank(priority), sum_size(values@[rank(priority)], amount)),
{
    let at = priority.index();
    let mut sums = values;
    sums[at] = values[at].saturating_add(amount);
    sums
}

impl ReclaimStats {
    /// Nothing was reclaimed.
    pub open spec fn is_zero(self) -> bool {
        &&& self.reclaimed_segments@ == seq![0usize, 0usize, 0usize]
        &&& self.evicted_entries@ == seq![0usize, 0usize, 0usize]
        &&& self.promoted_entries@ == seq![0usize, 0usize, 0usize]
        &&& self.evicted_bytes@ == seq![0usize, 0usize, 0usize]
        &&& self.promoted_bytes@ == seq![0usize, 0usize, 0usize]
    }

    /// `self` holds the counters of `a` and `b` together.
    pub open spec fn is_merge_of(self, a: ReclaimStats, b: ReclaimStats) -> bool {
        &&& self.reclaimed_segments@ == added(a.reclaimed_segments@, b.reclaimed_segments@)
        &&& self.evicted_entries@ == added(a.evicted_entries@, b.evicted_entries@)
        &&& self.promoted_entries@ == added(a.promoted_entries@, b.promoted_entries@)
        &&& self.evicted_bytes@ == added(a.evicted_bytes@, b.evicted_bytes@)
        &&& self.promoted_bytes@ == added(a.promoted_bytes@, b.promoted_bytes@)
    }

    /// `reclaimed_segments` of one priority.
    pub fn reclaimed_segments(self, priority: CachePriority) -> (count: usize)
        ensures
            count == self.reclaimed_segments@[rank(priority)],
    {
        self.reclaimed_segments[priority.index()]
    }

    /// `evicted_entries` of one priority.
    pub fn evicted_entries(self, priority: CachePriority) -> (count: usize)
        ensures
            count == self.evicted_entries@[rank(priority)],
    {
        self.evicted_entries[priority.index()]
    }

    /// `promoted_entries` of one priority.
    pub fn promoted_entries(self, priority: CachePriority) -> (count: usize)
        ensures
            count == self.promoted_entries@[rank(priority)],
    {
        self.promoted_entries[priority.index()]
    }

    /// `evicted_bytes` of one priority.
    pub fn evicted_bytes(self, priority: CachePriority) -> (count: usize)
        ensures
            count == self.evicted_bytes@[rank(priority)],
    {
        self.evicted_bytes[priority.index()]
    }

    /// `promoted_bytes` of one priority.
    pub fn promoted_bytes(self, priority: CachePriority) -> (count: usize)
        ensures
            count == self.promoted_bytes@[rank(priority)],
    {
        self.promoted_bytes[priority.index()]
    }

    /// `reclaimed_segments` of all priorities.
    pub fn total_reclaimed_segments(self) -> (count: usize)
        ensures
            count == sum_of_three(self.reclaimed_segments@),
    {
        sum_priority_counts(self.reclaimed_segments)
    }

    /// `evicted_entries` of all priorities.
    pub fn total_evicted_entries(self) -> (count: usize)
        ensures
            count == sum_of_three(self.evicted_entries@),
    {
        sum_priority_counts(self.evicted_entries)
    }

    /// `promoted_entries` of all priorities.
    pub fn total_promoted_entries(self) -> (count: usize)
        ensures
            count == sum_of_three(self.promoted_entries@),
    {
        sum_priority_counts(self.promoted_entries)
    }

    /// `evicted_bytes` of all priorities.
    pub fn total_evicted_bytes(self) -> (count: usize)
        ensures
            count == sum_of_three(self.evicted_bytes@),
    {
        sum_priority_counts(self.evicted_bytes)
    }

    /// `promoted_bytes` of all priorities.
    pub fn total_promoted_bytes(self) -> (count: usize)
        ensures
            count == sum_of_three(self.promoted_bytes@),
    {
        sum_priority_counts(self.promoted_bytes)
    }

    /// Counts one reclaimed segment of a priority.
    pub fn record(&mut self, priority: CachePriority, evicted_entries: usize, promoted_entries: usize, evicted_bytes: usize, promoted_bytes: usize)
        ensures
            final(self).reclaimed_segments@ == old(self).reclaimed_segments@.update(
                rank(priority),
                sum_size(old(self).reclaimed_segments@[rank(priority)], 1),
            ),
            final(self).evicted_entries@ == old(self).evicted_entries@.update(
                rank(priority),
                sum_size(old(self).evicted_entries@[rank(priority)], evicted_entries),
            ),
            final(self).promoted_entries@ == old(self).promoted_entries@.update(
                rank(priority),
                sum_size(old(self).promoted_entries@[rank(priority)], promoted_entries),
            ),
            final(self).evicted_bytes@ == old(self).evicted_bytes@.update(
                rank(priority),
                sum_size(old(self).evicted_bytes@[rank(priority)], evicted_bytes),
            ),
            final(self).promoted_bytes@ == old(self).promoted_bytes@.update(
                rank(priority),
                sum_size(old(self).promoted_bytes@[rank(priority)], promoted_bytes),
            ),
    {
        self.reclaimed_segments = add_at(self.reclaimed_segments, priority, 1);
        self.evicted_entries = add_at(self.evicted_entries, priority, evicted_entries);
        self.promoted_entries = add_at(self.promoted_entries, priority, promoted_entries);
        self.evicted_bytes = add_at(self.evicted_bytes, priority, evicted_bytes);
        self.promoted_bytes = add_at(self.promoted_bytes, priority, promoted_bytes);
    }

    /// Adds other counters to these.
    pub fn merge(&mut self, other: ReclaimStats)
        ensures
            final(self).is_merge_of(*old(self), other),
    {
        self.reclaimed_segments = add_priority_counts(self.reclaimed_segments, other.reclaimed_segments);
        self.evicted_entries = add_priority_counts(self.evicted_entries, other.evicted_entries);
        self.promoted_entries = add_priority_counts(self.promoted_entries, other.promoted_entries);
        self.evicted_bytes = add_priority_counts(self.evicted_bytes, other.evicted_bytes);
        self.promoted_bytes = add_priority_counts(self.promoted_bytes, other.promoted_bytes);
    }
}

/// Merging adds every counter to its like, and to no other; a counter stops at its largest
/// value.
pub proof fn law_merging_write_stats_adds_them(a: PhysicalWriteStats, b: PhysicalWriteStats)
    ensures
        ({
            let both = a.merged(b);
            let adds = |x: u64, y: u64, sum: u64| sum == if x + y > u64::MAX {
                u64::MAX as int
            } else {
                x + y
            };
            &&& adds(a.data_runs, b.data_runs, both.data_runs)
            &&& adds(a.data_bytes, b.data_bytes, both.data_bytes)
            &&& adds(a.owner_runs, b.owner_runs, both.owner_runs)
            &&& adds(a.owner_bytes, b.owner_bytes, both.owner_bytes)
            &&& adds(a.index_runs, b.index_runs, both.index_runs)
            &&& adds(a.index_bytes, b.index_bytes, both.index_bytes)
            &&& adds(a.allocator_runs, b.allocator_runs, both.allocator_runs)
            &&& adds(a.allocator_bytes, b.allocator_bytes, both.allocator_bytes)
        }),
{
}

/// Merging reclaim work adds it up, priority by priority.
pub proof fn law_merging_reclaim_stats_adds_them(a: ReclaimStats, b: ReclaimStats, both: ReclaimStats, p: int)
    requires
        both.is_merge_of(a, b),
        0 <= p < 3,
    ensures
        ({
            let adds = |x: int, y: int, sum: int, most: int| sum == if x + y > most {
                most
            } else {
                x + y
            };
            &&& adds(a.reclaimed_segments@[p] as int, b.reclaimed_segments@[p] as int, both.reclaimed_segments@[p] as int, usize::MAX as int)
            &&& adds(a.evicted_entries@[p] as int, b.evicted_entries@[p] as int, both.evicted_entries@[p] as int, usize::MAX as int)
            &&& adds(a.promoted_entries@[p] as int, b.promoted_entries@[p] as int, both.promoted_entries@[p] as int, usize::MAX as int)
            &&& adds(a.evicted_bytes@[p] as int, b.evicted_bytes@[p] as int, both.evicted_bytes@[p] as int, usize::MAX as int)
            &&& adds(a.promoted_bytes@[p] as int, b.promoted_bytes@[p] as int, both.promoted_bytes@[p] as int, usize::MAX as int)
        }),
{
}

/// A priority borrows what it occupies beyond its floor: with that much less it is within
/// its floor, and within it nothing is borrowed.
pub proof fn law_only_what_is_beyond_the_floor_is_borrowed(occupied: u32, floor: u32)
    ensures
        occupied <= floor ==> beyond(occupied, floor) == 0,
        occupied >= floor ==> occupied - beyond(occupied, floor) == floor,
{
}

} // verus!
