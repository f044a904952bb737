//! Layouts, allocator states, records, stored entries and values.

use foyer_extent::cache::{entry_weight, memory_hint, request_key, CacheBuilder, MemoryHint, RecoverMode};
use foyer_extent::entry::{EngineValue, EngineValueError, Entry};
use foyer_extent::error::{Error, IoFailure, IoFailureKind};
use foyer_extent::file::aligned_start;
use foyer_extent::format::{
    copy_stored_entry_range, decode_entry_value, decode_stored_entry, encoded_entry_value_digest, stored_entry,
    stored_entry_checksum, stored_entry_len, value_checksum, value_digest, PAGE_SIZE,
};
use foyer_extent::frequency::{decode, encode, FrequencySketch, MAX_COUNT};
use foyer_extent::layout::{fit_units, index_capacity_for_entries, plan_units, STATE_HEADER_SIZE};
use foyer_extent::model::{CachePriority, EntryKey, KeyDigest};
use foyer_extent::segment::config::{SegmentEngineConfig, SegmentEngineOptions};
use foyer_extent::segment::format::{AllocatorState, OwnerRecord, SegmentLayout, SegmentLocation};
use foyer_extent::store::config::{ExtentStoreConfig, ExtentStoreOptions, PriorityCapacityFloors};
use foyer_extent::store::format::{EntryLocation, ExtentPoolState, SlotOwner, StoreLayout};

fn segment_layout() -> SegmentLayout {
    let options = SegmentEngineOptions::default().with_segment_size(PAGE_SIZE * 64);
    SegmentLayout::create(
        SegmentEngineConfig::new(16 * 1024 * 1024).with_slot_size(PAGE_SIZE).with_options(options),
    )
    .unwrap()
}

fn store_layout() -> StoreLayout {
    let options = ExtentStoreOptions::default().with_extent_size(PAGE_SIZE * 64);
    StoreLayout::create(ExtentStoreConfig::new(16 * 1024 * 1024).with_slot_size(PAGE_SIZE).with_options(options))
        .unwrap()
}

fn key(index: u64) -> EntryKey {
    let mut bytes = [index as u8; 24];
    bytes[16..].copy_from_slice(&index.to_le_bytes());
    EntryKey::new(&bytes).unwrap()
}

#[test]
fn layout_reserves_one_segment_and_fits_the_capacity() {
    let layout = segment_layout();
    assert!(layout.segment_count >= 5);
    assert_eq!(layout.slots_per_segment, 64);
    assert_eq!(layout.usable_entries, u64::from(layout.segment_count - 1) * 64);
    assert!(layout.total_file_size <= 16 * 1024 * 1024);
    assert_eq!(layout.index_capacity_bytes, index_capacity_for_entries(layout.usable_entries).unwrap());
    assert_eq!(layout.segment_for_slot(65), Some((1, 1)));
    assert_eq!(layout.physical_slot(1, 1), Some(65));
}

#[test]
fn layout_reserves_one_extent_and_fits_the_capacity() {
    let layout = store_layout();
    assert!(layout.extent_count >= 5);
    assert_eq!(layout.slots_per_extent, 64);
    assert_eq!(layout.max_entries, u64::from(layout.extent_count - 1) * 64);
    assert!(layout.total_file_size <= 16 * 1024 * 1024);
    assert_eq!(layout.index_capacity_bytes, index_capacity_for_entries(layout.max_entries).unwrap());
    assert_eq!(layout.locate_slot(65), Some((1, 1)));
    assert_eq!(layout.slot_index(1, 1), Some(65));
}

#[test]
fn fixed_index_capacity_is_page_aligned_and_checks_rounding_overflow() {
    let capacity = index_capacity_for_entries(1).unwrap();
    assert_eq!(capacity % PAGE_SIZE as u64, 0);
    assert!(index_capacity_for_entries(u64::MAX).is_err());
}

#[test]
fn format_fixed_index_capacity_is_page_aligned_and_checks_rounding_overflow() {
    let capacity = index_capacity_for_entries(1).unwrap();
    assert_eq!(capacity % PAGE_SIZE as u64, 0);
    assert!(index_capacity_for_entries(u64::MAX).is_err());
}

#[test]
fn allocator_state_roundtrips_and_rejects_corruption() {
    let layout = segment_layout();
    let state = AllocatorState::empty(layout);
    let mut encoded = state.encode(layout).unwrap();
    assert_eq!(AllocatorState::decode(&encoded, layout, 0), Some(state));
    assert_eq!(
        SegmentLayout::discover(
            &encoded,
            layout.data_file_size,
            layout.owner_file_size,
            (layout.state_copy_size * 2) as u64,
        ),
        Some(layout)
    );
    encoded[STATE_HEADER_SIZE + 3] ^= 0xff;
    assert!(AllocatorState::decode(&encoded, layout, 0).is_none());
}

#[test]
fn every_changed_byte_of_a_state_is_noticed() {
    let (segments, extents) = (segment_layout(), store_layout());
    let mut segment_image = AllocatorState::empty(segments).encode(segments).unwrap();
    for at in 0..segment_image.len() {
        for change in [1, 0x80, 0xff] {
            segment_image[at] ^= change;
            assert!(AllocatorState::decode(&segment_image, segments, 0).is_none());
            segment_image[at] ^= change;
        }
    }
    assert!(AllocatorState::decode(&segment_image, segments, 0).unwrap().encode(segments).is_ok());
    let mut extent_image = ExtentPoolState::empty(extents).encode(extents).unwrap();
    for at in 0..extent_image.len() {
        for change in [1, 0x80, 0xff] {
            extent_image[at] ^= change;
            assert!(ExtentPoolState::decode(&extent_image, extents, 0).is_none());
            extent_image[at] ^= change;
        }
    }
    assert!(ExtentPoolState::decode(&extent_image, extents, 0).unwrap().encode(extents).is_ok());
}

#[test]
fn format_allocator_state_roundtrips_and_rejects_corruption() {
    let layout = store_layout();
    let state = ExtentPoolState::empty(layout);
    let mut encoded = state.encode(layout).unwrap();
    assert_eq!(ExtentPoolState::decode(&encoded, layout, 0), Some(state));
    assert_eq!(
        StoreLayout::discover(
            &encoded,
            layout.data_file_size,
            layout.slot_owner_file_size,
            (layout.state_copy_size * 2) as u64,
        ),
        Some(layout)
    );
    encoded[STATE_HEADER_SIZE + 3] ^= 0xff;
    assert!(ExtentPoolState::decode(&encoded, layout, 0).is_none());
}

#[test]
fn owner_and_location_records_roundtrip() {
    let mut key_bytes = [7; 24];
    key_bytes[16..].copy_from_slice(&42_u64.to_le_bytes());
    let key = EntryKey::new(&key_bytes).unwrap();

    let location = SegmentLocation {
        physical_slot: 99,
        segment_generation: 3,
        stored_len: 4_096,
        checksum: 123,
        priority: CachePriority::High,
    };
    assert_eq!(SegmentLocation::decode(&location.encode()), Some(location));
    let owner = OwnerRecord {
        key_digest: KeyDigest::for_key(&key),
        segment_generation: 3,
        stored_len: 4_096,
        value_len: 4_000,
        checksum: 123,
        priority: CachePriority::High,
        sequence: 88,
    };
    assert_eq!(OwnerRecord::decode(&owner.encode()), Some(owner));
}

#[test]
fn format_owner_and_location_records_roundtrip() {
    let mut key_bytes = [7; 24];
    key_bytes[16..].copy_from_slice(&42_u64.to_le_bytes());
    let key = EntryKey::new(&key_bytes).unwrap();

    let location = EntryLocation {
        first_slot: 99,
        extent_generation: 3,
        stored_len: 4_096,
        checksum: 123,
        priority: CachePriority::High,
    };
    assert_eq!(EntryLocation::decode(&location.encode()), Some(location));
    let owner = SlotOwner {
        key_digest: KeyDigest::for_key(&key),
        extent_generation: 3,
        stored_len: 4_096,
        value_len: 4_000,
        checksum: 123,
        priority: CachePriority::High,
        sequence: 88,
    };
    assert_eq!(SlotOwner::decode(&owner.encode()), Some(owner));
}

#[test]
fn corrupt_records_are_rejected() {
    let location = SegmentLocation {
        physical_slot: 1,
        segment_generation: 1,
        stored_len: 17,
        checksum: 5,
        priority: CachePriority::Low,
    };
    let good = location.encode();
    for position in 0..good.len() {
        let mut bad = good.clone();
        bad[position] ^= 0xff;
        assert_ne!(SegmentLocation::decode(&bad), Some(location), "byte {position}");
    }
    assert_eq!(SegmentLocation::decode(&good[1..]), None);
    let owner = OwnerRecord {
        key_digest: KeyDigest::new([3; 24]),
        segment_generation: 1,
        stored_len: 40,
        value_len: 8,
        checksum: 5,
        priority: CachePriority::Low,
        sequence: 2,
    };
    let good = owner.encode();
    for position in 0..60 {
        let mut bad = good.clone();
        bad[position] ^= 0xff;
        assert_ne!(OwnerRecord::decode(&bad), Some(owner), "byte {position}");
    }
}

#[test]
fn layouts_refuse_bad_sizes() {
    let base = SegmentEngineConfig::new(16 * 1024 * 1024).with_slot_size(PAGE_SIZE);
    let unaligned = base.with_slot_size(PAGE_SIZE + 1);
    assert_eq!(
        SegmentLayout::create(unaligned).unwrap_err().message(),
        "invalid Extent config: segment slot_size must be a positive multiple of 4096 bytes"
    );
    let ragged = base.with_options(SegmentEngineOptions::default().with_segment_size(PAGE_SIZE + 1));
    assert!(matches!(SegmentLayout::create(ragged), Err(Error::InvalidConfig(_))));
    let small = SegmentEngineConfig::new(PAGE_SIZE as u64)
        .with_slot_size(PAGE_SIZE)
        .with_options(SegmentEngineOptions::default().with_segment_size(PAGE_SIZE * 8));
    assert!(matches!(SegmentLayout::create(small), Err(Error::InvalidConfig(_))));
}

#[test]
fn more_units_take_more_space() {
    let four = plan_units(PAGE_SIZE, 8, 4).unwrap();
    let five = plan_units(PAGE_SIZE, 8, 5).unwrap();
    assert!(four.total_file_size < five.total_file_size);
    assert_eq!(four.usable_entries, 24);
    assert_eq!(four.data_file_size, 4 * 8 * PAGE_SIZE as u64);
    let (units, plan) = fit_units(five.total_file_size, PAGE_SIZE, 8, 100).unwrap();
    assert_eq!((units, plan), (5, five));
}

#[test]
fn records_frequency_and_ages_old_samples() {
    let mut sketch = FrequencySketch::new(16);
    let hash = 42;
    for _ in 0..8 {
        sketch.record(hash);
    }
    assert_eq!(sketch.estimate(hash), 8);

    sketch.epoch += 1;
    assert_eq!(sketch.estimate(hash), 4);
}

#[test]
fn frequency_remains_valid_after_a_32_bit_epoch() {
    let mut sketch = FrequencySketch::new(16);
    let hash = 42;
    sketch.epoch = u32::MAX as u64 + 1;

    sketch.record(hash);

    assert_eq!(sketch.estimate(hash), 1);
}

#[test]
fn stale_frequency_expires_without_an_overshift() {
    assert_eq!(decode(encode(1, MAX_COUNT), 9), 0);
}

#[test]
fn frequency_saturates_and_opens_an_epoch_after_each_window() {
    let mut sketch = FrequencySketch::new(4);
    assert_eq!(sketch.counters(), 4);
    assert_eq!(sketch.sample_window(), 40);
    for _ in 0..39 {
        sketch.record(7);
    }
    assert_eq!(sketch.estimate(7), MAX_COUNT);
    assert_eq!(sketch.epoch, 0);
    sketch.record(7);
    assert_eq!(sketch.epoch, 1);
    assert_eq!(sketch.estimate(7), 8);
    assert_eq!(decode(encode(5, 9), 7), 2);
}

#[test]
fn priority_capacity_rounds_up_to_reclaim_units() {
    assert_eq!(PriorityCapacityFloors::new(10, 70).extent_floors(5), [0, 4, 1]);
    assert_eq!(PriorityCapacityFloors::new(0, 100).extent_floors(5), [0, 5, 0]);
}

#[test]
fn keys_have_bounded_lengths() {
    assert!(matches!(EntryKey::new(&[]), Err(Error::EmptyKey)));
    assert!(matches!(
        EntryKey::new(&[1; 1025]),
        Err(Error::KeyTooLarge { len: 1025, maximum: 1024 })
    ));
    let key = EntryKey::new(&[1; 1024]).unwrap();
    assert_eq!((key.len(), key.as_bytes()), (1024, [1u8; 1024].as_slice()));
    assert_eq!(EntryKey::default().len(), 0);
}

#[test]
fn error_messages() {
    assert_eq!(Error::EmptyKey.message(), "entry key must not be empty");
    assert_eq!(
        Error::KeyTooLarge { len: 1025, maximum: 1024 }.message(),
        "entry key is too large: len=1025, maximum=1024"
    );
    assert_eq!(Error::InvalidConfig("x".to_string()).message(), "invalid Extent config: x");
    assert_eq!(Error::InvalidSuperblock("x".to_string()).message(), "invalid ExtentStore superblock: x");
    assert_eq!(Error::Index("x".to_string()).message(), "EntryIndex error: x");
    assert_eq!(Error::CheckpointFailed("x".to_string()).message(), "ExtentStore checkpoint failed: x");
    assert_eq!(
        Error::StoredEntryTooLarge { len: 0, maximum: 10 }.message(),
        "stored entry is too large: len=0, maximum=10"
    );
    assert_eq!(Error::EmptyValue.message(), "entry value must not be empty");
    let full = IoFailure { kind: IoFailureKind::Other, message: "disk full".to_string() };
    assert_eq!(Error::io("sync", full).message(), "Extent I/O error (sync): disk full");
    assert_eq!(Error::foyer("build", "closed").message(), "extent cache error (build): closed");
}

#[test]
fn priorities_round_trip() {
    for (byte, priority) in
        [(0, CachePriority::Low), (1, CachePriority::Normal), (2, CachePriority::High)]
    {
        assert_eq!(priority.to_byte(), byte);
        assert_eq!(priority.index(), byte as usize);
        assert_eq!(CachePriority::from_byte(byte), Some(priority));
    }
    assert_eq!(CachePriority::from_byte(3), None);
}

#[test]
fn key_digest_is_the_head_of_the_hash() {
    let key = EntryKey::new(b"abc").unwrap();
    let hash = blake3::hash(b"abc");
    assert_eq!(KeyDigest::for_key(&key).as_bytes().as_slice(), &hash.as_bytes()[..24]);
    assert!(KeyDigest::for_key(&key).same(&KeyDigest::for_key(&key)));
    assert!(!KeyDigest::for_key(&key).same(&KeyDigest::new([0; 24])));
}

#[test]
fn checksums_are_the_published_algorithms() {
    assert_eq!(value_checksum(b"123456789"), 0xcbf4_3926);
    let key = EntryKey::new(b"k").unwrap();
    let stored = stored_entry(&key, b"value");
    assert_eq!(
        u64::from(stored_entry_checksum(&key, b"value")),
        crc_fast::checksum(crc_fast::CrcAlgorithm::Crc32IsoHdlc, &stored)
    );
    let hash = blake3::hash(b"value");
    let mut head = [0u8; 16];
    head.copy_from_slice(&hash.as_bytes()[..16]);
    assert_eq!(value_digest(b"value").word, u128::from_le_bytes(head));
}

#[test]
fn stored_entries_round_trip() {
    let key = key(7);
    let value = vec![9u8; 300];
    let stored = stored_entry(&key, &value);
    assert_eq!(stored_entry_len(&key, &value), Some(16 + 24 + 300));
    assert_eq!(stored.len(), 16 + 24 + 300);
    assert_eq!(decode_entry_value(stored.clone(), &key), Some(value.clone()));
    assert_eq!(decode_entry_value(stored.clone(), &self::key(8)), None);
    let (found, bytes) = decode_stored_entry(stored.clone()).unwrap();
    assert_eq!((found, bytes), (key.clone(), value.clone()));
    assert_eq!(decode_stored_entry(stored[1..].to_vec()), None);
    assert_eq!(encoded_entry_value_digest(&stored), Some(value_digest(&value)));
    assert_eq!(encoded_entry_value_digest(&stored[..20]), None);

    let mut copied = vec![0u8; 50];
    assert!(copy_stored_entry_range(&key, &value, 10, &mut copied, 5, 40));
    assert_eq!(&copied[5..45], &stored[10..50]);
    assert_eq!(&copied[..5], &[0; 5]);
    assert!(!copy_stored_entry_range(&key, &value, 330, &mut copied, 0, 50));
}

#[test]
fn entries_and_engine_values() {
    let key = bytes::Bytes::from_static(b"key");
    let value = bytes::Bytes::from_static(b"value");
    let entry = Entry::new(key.clone(), value.clone(), CachePriority::High).unwrap();
    assert_eq!((entry.key(), entry.value(), entry.priority()), (&key, &value, CachePriority::High));
    let (engine_key, engine_value) = entry.into_engine();
    assert_eq!(entry_weight(&engine_key, &engine_value), 3 + 5 + 64);
    let encoded = engine_value.encode();
    assert_eq!(encoded.len(), engine_value.estimated_size());
    assert_eq!(encoded, [2, 5, 0, 0, 0, 0, 0, 0, 0, b'v', b'a', b'l', b'u', b'e']);
    assert_eq!(EngineValue::decode(&encoded).unwrap(), engine_value);
    let entry = Entry::from_engine(engine_key, engine_value);
    assert_eq!(entry.into_parts(), (key.clone(), value.clone(), CachePriority::High));

    assert!(matches!(
        Entry::new(bytes::Bytes::new(), value.clone(), CachePriority::Low),
        Err(Error::EmptyKey)
    ));
    assert!(matches!(
        Entry::new(key.clone(), bytes::Bytes::new(), CachePriority::Low),
        Err(Error::EmptyValue)
    ));
    assert!(matches!(
        EngineValue::new(bytes::Bytes::new(), CachePriority::Low),
        Err(Error::EmptyValue)
    ));
    assert_eq!(EngineValue::decode(&encoded[..8]), Err(EngineValueError::UnexpectedEnd));
    assert_eq!(EngineValue::decode(&encoded[..10]), Err(EngineValueError::UnexpectedEnd));
    let mut bad = encoded.clone();
    bad[0] = 9;
    assert_eq!(EngineValue::decode(&bad), Err(EngineValueError::InvalidPriority));
    assert_eq!(
        EngineValue::decode(&[0, 0, 0, 0, 0, 0, 0, 0, 0]),
        Err(EngineValueError::EmptyValue)
    );
    assert_eq!(EngineValueError::TooLarge.message(), "extent value is too large");
}

#[test]
fn cache_builder_checks_its_memory_tier() {
    assert_eq!(CacheBuilder::new(0).validate().unwrap_err().message(), "invalid Extent config: memory cache capacity must be positive");
    assert!(CacheBuilder::new(1).with_memory_shards(0).validate().is_err());
    let builder = CacheBuilder::new(1)
        .with_memory_shards(4)
        .with_name("named".to_string())
        .with_recover_mode(RecoverMode::Strict);
    assert!(builder.validate().is_ok());
    assert_eq!((builder.name.as_str(), builder.recover_mode), ("named", RecoverMode::Strict));
    assert_eq!(request_key(b"k").unwrap(), bytes::Bytes::from_static(b"k"));
    assert_eq!(request_key(b""), None);
    assert_eq!(memory_hint(CachePriority::Low), MemoryHint::Low);
    assert_eq!(memory_hint(CachePriority::High), MemoryHint::Normal);
    assert_eq!(aligned_start(4095), 1);
    assert_eq!(aligned_start(4096), 0);
}
