//! Counters and occupancy.

use foyer_extent::counter::{div_ceil, saturating_mul64, saturating_mul_size};
use foyer_extent::model::CachePriority;
use foyer_extent::segment::stats::{
    PhysicalWriteStats as SegmentWriteStats, PriorityOccupancy, ReclaimStats as SegmentReclaimStats,
};
use foyer_extent::store::config::PriorityCapacityFloors;
use foyer_extent::store::pool::ExtentVictim;
use foyer_extent::store::reclaim::{duration_nanos, reclaimed, ReclaimResult};
use foyer_extent::store::stats::{ExtentLayoutStats, ExtentOccupancy, PhysicalWriteStats, ReclaimStats};
use foyer_extent::text::push_decimal;
use foyer_extent::wire::{get_u128, get_u16, is_zero_range, put_u16, same_bytes};

#[test]
fn arithmetic_is_held_at_the_limits() {
    assert_eq!(saturating_mul64(u64::MAX, 2), u64::MAX);
    assert_eq!(saturating_mul64(3, 4), 12);
    assert_eq!(saturating_mul_size(usize::MAX, 2), usize::MAX);
    assert_eq!((div_ceil(0, 3), div_ceil(6, 3), div_ceil(7, 3)), (0, 2, 3));
    assert_eq!(duration_nanos(u128::MAX), u64::MAX);
    let mut text = String::from("n=");
    push_decimal(&mut text, 10_203);
    push_decimal(&mut text, 0);
    assert_eq!(text, "n=102030");
}

#[test]
fn integers_are_little_endian() {
    let mut bytes = vec![0; 18];
    put_u16(&mut bytes, 1, 0x0102);
    assert_eq!((bytes[1], bytes[2], get_u16(&bytes, 1)), (2, 1, 0x0102));
    bytes[17] = 1;
    assert_eq!(get_u128(&bytes, 2), 1 << 120 | 1);
    assert!(is_zero_range(&bytes, 3, 17));
    assert!(!is_zero_range(&bytes, 3, 18));
    assert!(same_bytes(&bytes[3..5], &[0, 0]));
    assert!(!same_bytes(&bytes[3..5], &[0]));
}

#[test]
fn segment_occupancy_and_reclaim_totals() {
    let occupancy = PriorityOccupancy::new(9, 8, 4096, [1, 5, 3], [8, 40, 17], [0, 4, 4]);
    assert_eq!(occupancy.usable_segments(), 9);
    assert_eq!(occupancy.slots_per_segment(), 8);
    assert_eq!(occupancy.used_slots(CachePriority::Normal), 40);
    assert_eq!(occupancy.used_bytes(CachePriority::High), 17 * 4096);
    assert_eq!(occupancy.borrowed_segments(CachePriority::Normal), 1);
    assert_eq!(occupancy.borrowed_segments(CachePriority::High), 0);
    assert_eq!(occupancy.capacity_floor_segments(CachePriority::Low), 0);

    let mut stats = SegmentReclaimStats::default();
    stats.record(CachePriority::Low, 7, 1, 70, 10);
    stats.record(CachePriority::High, 2, 3, 20, 30);
    let once = stats;
    stats.merge(once);
    assert_eq!(stats.reclaimed_segments(CachePriority::Low), 2);
    assert_eq!(stats.evicted_entries(CachePriority::Low), 14);
    assert_eq!(stats.promoted_entries(CachePriority::High), 6);
    assert_eq!(stats.evicted_bytes(CachePriority::High), 40);
    assert_eq!(stats.promoted_bytes(CachePriority::Low), 20);
    assert_eq!(
        (stats.total_reclaimed_segments(), stats.total_evicted_entries(), stats.total_promoted_entries()),
        (4, 18, 8)
    );
    assert_eq!((stats.total_evicted_bytes(), stats.total_promoted_bytes()), (180, 80));

    let mut writes = SegmentWriteStats { data_runs: 1, owner_bytes: 2, ..SegmentWriteStats::default() };
    let other = SegmentWriteStats { data_runs: u64::MAX, index_bytes: 3, ..SegmentWriteStats::default() };
    let mut swapped = other;
    swapped.merge(writes);
    writes.merge(other);
    assert_eq!(writes, swapped);
    assert_eq!((writes.data_runs, writes.total_bytes(), writes.total_runs()), (u64::MAX, 5, u64::MAX));
}

#[test]
fn extent_occupancy_and_reclaim_totals() {
    let occupancy = ExtentOccupancy::new(9, 8, [1, 5, 3], [8, 40, 17], [80, 400, 170], [0, 4, 4]);
    assert_eq!((occupancy.usable_extents(), occupancy.entries_per_extent()), (9, 8));
    assert_eq!(occupancy.occupied_extents(CachePriority::Normal), 5);
    assert_eq!(occupancy.used_entries(CachePriority::High), 17);
    assert_eq!(occupancy.used_bytes(CachePriority::Low), 80);
    assert_eq!(occupancy.borrowed_extents(CachePriority::Normal), 1);
    assert_eq!(occupancy.borrowed_extents(CachePriority::High), 0);
    assert_eq!(ExtentLayoutStats::default().usable_extents, 0);

    let victim = ExtentVictim {
        extent: 3,
        generation: 1,
        used_bytes: 4096,
        entries: 5,
        priority: CachePriority::Normal,
        activation_sequence: 9,
    };
    let mut total = ReclaimResult::default();
    total.merge(reclaimed(victim, 1, 2, 3));
    total.merge(reclaimed(victim, 10, 20, 30));
    let stats: ReclaimStats = total.stats;
    assert_eq!(stats.reclaimed_extents(CachePriority::Normal), 2);
    assert_eq!(stats.invalidated_entries(CachePriority::Normal), 10);
    assert_eq!(stats.invalidated_bytes(CachePriority::Low), 0);
    assert_eq!((stats.total_invalidated_entries(), stats.total_invalidated_bytes()), (10, 8192));
    assert_eq!(
        (stats.checkpoint_wait_nanos(), stats.generation_invalidation_nanos(), stats.total_nanos()),
        (11, 22, 33)
    );

    let mut writes = PhysicalWriteStats { data_runs: 1, index_syncs: 2, ..PhysicalWriteStats::default() };
    let other = PhysicalWriteStats { data_runs: u64::MAX, allocator_bytes: 3, ..PhysicalWriteStats::default() };
    let mut swapped = other;
    swapped.merge(writes);
    writes.merge(other);
    assert_eq!(writes, swapped);
    assert_eq!((writes.data_runs, writes.total_bytes(), writes.total_syncs()), (u64::MAX, 3, 2));
}

#[test]
fn floors_stay_within_the_extents() {
    for extents in [1, 2, 7, 100] {
        let floors = PriorityCapacityFloors::new(100, 1).extent_floors(extents);
        assert_eq!(floors, [0, (extents + 99) / 100, extents]);
    }
    assert_eq!(PriorityCapacityFloors::default().extent_floors(10), [0, 7, 1]);
}
