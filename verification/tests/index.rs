//! The entry index over a durable base, and the admission of checkpoints.

use std::collections::BTreeMap;

use foyer_extent::error::{Error, IoFailure, IoFailureKind};
use foyer_extent::format::{ContentDigest, PAGE_SIZE};
use foyer_extent::model::{CachePriority, KeyDigest};
use foyer_extent::store::checkpoint::{after_allocator, CheckpointCoordinator, EpochStep, WorkerStep};
use foyer_extent::store::engine::publish;
use foyer_extent::store::index::{
    base_error, io_read_stats, physical_write_stats, read_stats, BaseFailure, BaseLookup, BaseStats, EntryIndex,
    EntryIndexMemoryLookup, EntryIndexReadStats, IndexCheckpoint, LookupStep,
};
use foyer_extent::store::operation::InsertOutcome;
use foyer_extent::store::overlay::{Mutation, Overlay};
use foyer_extent::store::pool::PackedLocation;
use foyer_extent::store::stats::PhysicalWriteStats;

fn key(index: u64) -> KeyDigest {
    let mut bytes = [index as u8; 24];
    bytes[16..].copy_from_slice(&index.to_le_bytes());
    KeyDigest::new(bytes)
}

fn location(index: u64) -> PackedLocation {
    PackedLocation {
        data_offset: index,
        extent_generation: 1,
        stored_len: PAGE_SIZE as u32,
        content_digest: ContentDigest { word: u128::from_le_bytes([index as u8; 16]) },
        priority: CachePriority::Normal,
    }
}

/// A durable base: its newest records are in memory, the flushed ones in tables that are
/// read only for a key within their range.
struct Base {
    memory: BTreeMap<[u8; 24], Option<PackedLocation>>,
    tables: BTreeMap<[u8; 24], PackedLocation>,
    indexed: u64,
}

impl Base {
    fn lookup(&self, digest: &KeyDigest) -> BaseLookup {
        match self.memory.get(digest.as_bytes()) {
            Some(Some(location)) => return BaseLookup::Location(*location),
            Some(None) => return BaseLookup::Miss,
            None => {}
        }
        let covered = match (self.tables.keys().next(), self.tables.keys().next_back()) {
            (Some(first), Some(last)) => first <= digest.as_bytes() && digest.as_bytes() <= last,
            _ => false,
        };
        if covered {
            BaseLookup::Unknown
        } else {
            BaseLookup::Miss
        }
    }

    fn read(&self, digest: &KeyDigest) -> BaseLookup {
        match self.lookup(digest) {
            BaseLookup::Unknown => match self.tables.get(digest.as_bytes()) {
                Some(location) => BaseLookup::Location(*location),
                None => BaseLookup::Miss,
            },
            known => known,
        }
    }

    fn known(&self, digest: &KeyDigest) -> EntryIndexMemoryLookup {
        match self.lookup(digest) {
            BaseLookup::Location(location) => EntryIndexMemoryLookup::Location(location),
            BaseLookup::Unknown => EntryIndexMemoryLookup::Unknown,
            _ => EntryIndexMemoryLookup::Miss,
        }
    }

    fn flush(&mut self) {
        for (digest, location) in std::mem::take(&mut self.memory) {
            match location {
                Some(location) => {
                    self.tables.insert(digest, location);
                }
                None => {
                    self.tables.remove(&digest);
                }
            }
        }
    }
}

struct Index {
    index: EntryIndex,
    base: Base,
}

impl Index {
    fn create() -> Index {
        let base = Base { memory: BTreeMap::new(), tables: BTreeMap::new(), indexed: 0 };
        Index { index: EntryIndex::new(0), base }
    }

    fn reopen(self) -> Index {
        Index { index: EntryIndex::new(self.base.indexed), base: self.base }
    }

    fn insert_batch(&mut self, inserts: &[(KeyDigest, PackedLocation)]) -> Vec<InsertOutcome> {
        let base: Vec<_> = inserts.iter().map(|(digest, _)| self.base.known(digest)).collect();
        self.index.insert_batch(inserts, &base).outcomes
    }

    fn remove_batch(&mut self, keys: &[KeyDigest]) -> usize {
        let base: Vec<_> = keys.iter().map(|digest| self.base.known(digest)).collect();
        self.index.remove_batch(keys, &base)
    }

    fn lookup_memory(&self, digest: KeyDigest) -> EntryIndexMemoryLookup {
        match self.index.begin_lookup(&digest) {
            LookupStep::Known(mutation) => match mutation.location {
                Some(location) => EntryIndexMemoryLookup::Location(location),
                None => EntryIndexMemoryLookup::Miss,
            },
            LookupStep::ReadBase(revision) => {
                self.index.resolve(&digest, revision, self.base.lookup(&digest)).unwrap().unwrap()
            }
        }
    }

    fn peek(&self, digest: KeyDigest) -> Option<PackedLocation> {
        match self.index.begin_lookup(&digest) {
            LookupStep::Known(mutation) => mutation.location,
            LookupStep::ReadBase(revision) => {
                match self.index.resolve(&digest, revision, self.base.read(&digest)).unwrap().unwrap() {
                    EntryIndexMemoryLookup::Location(location) => Some(location),
                    _ => None,
                }
            }
        }
    }

    fn persist(&mut self, checkpoint: IndexCheckpoint) {
        for at in 0..checkpoint.frozen.len() {
            let (digest, mutation) = checkpoint.frozen.entry(at);
            self.base.memory.insert(*digest.as_bytes(), mutation.location);
        }
        self.base.indexed = checkpoint.indexed_count;
        self.index.persist_checkpoint(checkpoint);
    }

    fn checkpoint(&mut self) {
        if let Some(checkpoint) = self.index.prepare_checkpoint() {
            self.persist(checkpoint);
        }
    }

    fn upper_bound(&self) -> u64 {
        self.index.stats(&BaseStats::default()).indexed_entries_upper_bound
    }
}

#[test]
fn checkpoint_reopens_without_scanning_live_keys() {
    let mut index = Index::create();
    let inserts = (0..32).map(|entry| (key(entry), location(entry))).collect::<Vec<_>>();
    index.insert_batch(&inserts);
    index.checkpoint();
    assert_eq!(index.upper_bound(), 32);

    let index = index.reopen();
    assert_eq!(index.upper_bound(), 32);
    for entry in 0..32 {
        assert_eq!(index.peek(key(entry)), Some(location(entry)));
    }
}

#[test]
fn memory_lookup_returns_locations_misses_and_unknown_sst_ranges() {
    let mut index = Index::create();
    assert_eq!(index.lookup_memory(key(1)), EntryIndexMemoryLookup::Miss);

    index.insert_batch(&[(key(1), location(1))]);
    assert_eq!(index.lookup_memory(key(1)), EntryIndexMemoryLookup::Location(location(1)));
    index.checkpoint();
    assert_eq!(index.lookup_memory(key(1)), EntryIndexMemoryLookup::Location(location(1)));

    index.base.flush();
    assert_eq!(index.lookup_memory(key(1)), EntryIndexMemoryLookup::Unknown);
    assert_eq!(index.lookup_memory(key(127)), EntryIndexMemoryLookup::Miss);
}

#[test]
fn sst_mutations_keep_cardinality_soft_without_point_reads() {
    let mut index = Index::create();
    index.insert_batch(&[(key(1), location(1)), (key(2), location(2))]);
    index.checkpoint();
    index.base.flush();
    assert_eq!(index.lookup_memory(key(1)), EntryIndexMemoryLookup::Unknown);
    assert_eq!(index.lookup_memory(key(2)), EntryIndexMemoryLookup::Unknown);

    let newer = PackedLocation { extent_generation: 2, ..location(1) };
    assert_eq!(index.insert_batch(&[(key(1), newer)]), vec![InsertOutcome::Inserted]);
    assert_eq!(index.remove_batch(&[key(2)]), 1);
    assert_eq!(index.upper_bound(), 3);
    assert_eq!(index.peek(key(1)), Some(newer));
    assert_eq!(index.peek(key(2)), None);
}

#[test]
fn active_mutation_wins_over_inflight_checkpoint() {
    let mut index = Index::create();
    index.insert_batch(&[(key(1), location(1))]);
    let checkpoint = index.index.prepare_checkpoint().unwrap();
    let newer = PackedLocation { extent_generation: 2, ..location(1) };
    index.insert_batch(&[(key(1), newer)]);
    index.persist(checkpoint);
    assert_eq!(index.peek(key(1)), Some(newer));
    index.checkpoint();

    let index = index.reopen();
    assert_eq!(index.peek(key(1)), Some(newer));
}

#[test]
fn lookup_retries_if_an_overlay_is_persisted_during_the_base_read() {
    let mut index = Index::create();
    let expected = location(1);
    let LookupStep::ReadBase(revision) = index.index.begin_lookup(&key(1)) else {
        panic!("nothing is known of the key");
    };
    let early = index.base.read(&key(1));
    index.insert_batch(&[(key(1), expected)]);
    index.checkpoint();
    assert_eq!(index.index.resolve(&key(1), revision, early).unwrap(), None);

    assert_eq!(index.peek(key(1)), Some(expected));
}

#[test]
fn abort_restores_only_older_mutations() {
    let mut index = Index::create();
    index.insert_batch(&[(key(1), location(1)), (key(2), location(2))]);
    let checkpoint = index.index.prepare_checkpoint().unwrap();
    let newer = PackedLocation { extent_generation: 2, ..location(1) };
    index.insert_batch(&[(key(1), newer)]);
    index.index.abort_checkpoint(checkpoint);
    assert_eq!(index.peek(key(1)), Some(newer));
    assert_eq!(index.peek(key(2)), Some(location(2)));
    index.checkpoint();
    assert!(index.index.prepare_checkpoint().is_none());
}

#[test]
fn nothing_is_prepared_while_nothing_is_active() {
    let mut index = Index::create();
    assert!(index.index.prepare_checkpoint().is_none());
    index.insert_batch(&[(key(1), location(1))]);
    let checkpoint = index.index.prepare_checkpoint().unwrap();
    assert!(index.index.prepare_checkpoint().is_none());
    assert_eq!(index.peek(key(1)), Some(location(1)));
    index.persist(checkpoint);
    assert_eq!(index.peek(key(1)), Some(location(1)));
}

#[test]
fn lookups_see_later_mutations_and_refuse_invalid_records() {
    let mut index = Index::create();
    let LookupStep::ReadBase(revision) = index.index.begin_lookup(&key(1)) else {
        panic!("nothing is known of the key");
    };
    assert!(matches!(
        index.index.resolve(&key(1), revision, BaseLookup::Invalid),
        Err(Error::InvalidSuperblock(message)) if message == "EntryIndex contains an invalid EntryLocation"
    ));
    index.insert_batch(&[(key(1), location(1))]);
    assert_eq!(
        index.index.resolve(&key(1), revision, BaseLookup::Miss).unwrap(),
        Some(EntryIndexMemoryLookup::Location(location(1)))
    );
    assert_eq!(index.remove_batch(&[key(1), key(1), key(9)]), 1);
    assert_eq!(index.lookup_memory(key(1)), EntryIndexMemoryLookup::Miss);
    assert_eq!(index.upper_bound(), 0);
}

#[test]
fn overlays_are_ordered_maps() {
    let mut overlay = Overlay::new();
    assert!(overlay.is_empty());
    overlay.set(key(3), Mutation::insert(location(3)));
    overlay.set(key(1), Mutation::remove());
    overlay.set(key(3), Mutation::insert(location(4)));
    assert_eq!(overlay.len(), 2);
    assert_eq!(overlay.get(&key(3)).unwrap().location, Some(location(4)));
    assert_eq!(overlay.get(&key(1)).unwrap().location, None);
    assert!(overlay.get(&key(2)).is_none());
    assert!(overlay.entry(0).0.as_bytes() < overlay.entry(1).0.as_bytes());
    let mut older = Overlay::new();
    older.set(key(3), Mutation::remove());
    older.set(key(5), Mutation::remove());
    overlay.fill_from(&older);
    assert_eq!(overlay.len(), 3);
    assert_eq!(overlay.get(&key(3)).unwrap().location, Some(location(4)));
}

#[test]
fn base_reports_are_translated() {
    let base = BaseStats {
        wal_write_operations: 1,
        wal_write_bytes: 10,
        wal_sync_operations: 2,
        table_write_operations: 3,
        table_write_bytes: 30,
        table_sync_operations: 4,
        manifest_write_operations: 5,
        manifest_write_bytes: 50,
        manifest_sync_operations: 6,
        cache_hits: 7,
        table_read_operations: 8,
        table_read_bytes: 80,
        ..BaseStats::default()
    };
    let writes = physical_write_stats(&base);
    assert_eq!((writes.index_runs, writes.index_bytes, writes.index_syncs), (9, 90, 12));
    assert_eq!((writes.index_wal_runs, writes.index_sst_runs, writes.index_manifest_runs), (1, 3, 5));
    let reads = read_stats(&base);
    assert_eq!((reads.cache_hits, reads.read_operations, reads.read_bytes), (7, 8, 80));
    assert_eq!(
        io_read_stats(2, 20),
        EntryIndexReadStats { read_operations: 2, read_bytes: 20, ..EntryIndexReadStats::default() }
    );
    let mut sum = PhysicalWriteStats::default();
    sum.merge(writes);
    sum.merge(writes);
    assert_eq!((sum.total_runs(), sum.total_bytes(), sum.total_syncs()), (18, 180, 24));

    assert!(matches!(
        base_error("open", BaseFailure::InvalidOptions("bad".to_string())),
        Error::InvalidConfig(_)
    ));
    assert!(matches!(
        base_error("open", BaseFailure::Corruption { path: "p".to_string(), reason: "r".to_string() }),
        Error::InvalidSuperblock(_)
    ));
    let missing = base_error("open", BaseFailure::MissingDatabase("cache/index".to_string()));
    assert_eq!(missing.message(), "Extent I/O error (open): FixedRecordLSM does not exist at cache/index");
    assert!(matches!(missing, Error::Io { source, .. } if source.kind == IoFailureKind::NotFound));
    let source = IoFailure { kind: IoFailureKind::Other, message: "disk full".to_string() };
    let failed = base_error("persist checkpoint", BaseFailure::Io { context: "sync log".to_string(), source });
    assert_eq!(failed.message(), "Extent I/O error (sync log): disk full");
    assert_eq!(
        base_error("open", BaseFailure::Other("r".to_string())).message(),
        "EntryIndex error: fixed LSM open: r"
    );
}

#[test]
fn checkpoints_cover_what_was_published_before_their_capture() {
    let mut checkpoints = CheckpointCoordinator::new();
    publish(&mut checkpoints, 10, 100).unwrap();
    assert_eq!(checkpoints.worker_step(), WorkerStep::Wait);
    publish(&mut checkpoints, 90, 100).unwrap();
    assert_eq!(checkpoints.worker_step(), WorkerStep::Capture);
    let epoch = checkpoints.begin_capture().unwrap();
    checkpoints.captured();
    assert_eq!((epoch, checkpoints.dirty_bytes()), (2, 0));
    publish(&mut checkpoints, 5, 100).unwrap();
    assert!(checkpoints.begin_capture().is_none());
    checkpoints.complete(epoch, Ok(())).unwrap();
    assert!(checkpoints.poll_durable(2).unwrap());
    assert!(!checkpoints.poll_durable(3).unwrap());
    checkpoints.request_shutdown();
    assert_eq!(checkpoints.worker_step(), WorkerStep::Exit);
    assert_eq!(after_allocator(true, false), EpochStep::Done);
    assert_eq!(after_allocator(true, true), EpochStep::PersistIndex);
    assert_eq!(after_allocator(false, true), EpochStep::AbortIndex);
}

#[test]
fn failed_checkpoints_are_retained() {
    let mut checkpoints = CheckpointCoordinator::new();
    let epoch = checkpoints.record_publication(1).unwrap();
    assert_eq!(checkpoints.record_publication(0).unwrap(), epoch);
    checkpoints.begin_capture().unwrap();
    let failed = checkpoints.complete(epoch, Err(Error::EmptyKey.message())).unwrap_err();
    assert_eq!(failed.message(), "ExtentStore checkpoint failed: entry key must not be empty");
    assert!(matches!(checkpoints.record_publication(1), Err(Error::CheckpointFailed(_))));
    assert!(matches!(checkpoints.request_background(epoch), Err(Error::CheckpointFailed(_))));
    assert!(matches!(checkpoints.poll_idle(), Err(Error::CheckpointFailed(_))));
    assert!(checkpoints.begin_capture().is_none());
    assert_eq!(checkpoints.worker_step(), WorkerStep::Exit);
    assert!(checkpoints.stats().failed);
}
