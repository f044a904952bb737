//! The extent store, run in memory: a byte vector is the data file, a map the durable
//! index, and two slots hold the copies of the allocator state.

use std::collections::BTreeMap;

use foyer_extent::error::Error;
use foyer_extent::format::{stored_entry_checksum, stored_entry_len, value_digest, PAGE_SIZE};
use foyer_extent::model::{CachePriority, EntryKey, KeyDigest};
use foyer_extent::store::batch::{align_down, align_up, EntryWrite, EntryWriteResult};
use foyer_extent::store::checkpoint::{after_allocator, CheckpointCoordinator, EpochStep, WorkerStep};
use foyer_extent::store::config::{ExtentStoreConfig, ExtentStoreOptions};
use foyer_extent::store::engine::{
    allocated_size, layout_stats, prepare_get, priority_capacity_floors, publish, removal_bytes, resolve_prepared,
    validate_entry, validate_layout_options, validate_options, BatchAction, InsertBatch, PreparedGet,
};
use foyer_extent::store::format::StoreLayout;
use foyer_extent::store::index::{
    checkpoint_mutations, physical_write_stats, should_discard, BaseLookup, BaseStats, EntryIndex,
    EntryIndexMemoryLookup, LookupStep,
};
use foyer_extent::store::operation::{BatchInsertResult, EntryInsert, GetResult, InsertOutcome};
use foyer_extent::store::pool::{
    decode_liveness, encode_liveness, AllocationResult, EntryAllocation, ExtentPool, ExtentPoolCheckpoint,
    ExtentVictim, PackedLocation, PackedState, PoolLayout,
};
use foyer_extent::store::read::{get_result, read_entry, EntryReadPlan, StoredEntryRead};
use foyer_extent::store::reclaim::{reclaimed, select_victim};
use foyer_extent::store::stats::{ExtentOccupancy, PhysicalWriteStats};

/// A digest, a location and a tag.
const LOGGED_RECORD_SIZE: usize = 64;

fn key(index: u64) -> EntryKey {
    let mut bytes = [index as u8; 24];
    bytes[16..].copy_from_slice(&index.to_le_bytes());
    EntryKey::new(&bytes).unwrap()
}

fn full_frame_value(byte: u8) -> Vec<u8> {
    vec![byte; PAGE_SIZE - stored_entry_len(&key(0), &[]).unwrap()]
}

fn options() -> ExtentStoreOptions {
    ExtentStoreOptions::default()
        .with_extent_size(PAGE_SIZE * 8)
        .with_index_write_buffer_size(PAGE_SIZE * 4)
        .with_index_cache_size(1024 * 1024)
}

fn config(capacity: u64) -> ExtentStoreConfig {
    ExtentStoreConfig::new(capacity).with_slot_size(PAGE_SIZE).with_options(options())
}

fn pool_layout(layout: StoreLayout) -> PoolLayout {
    PoolLayout::for_store(layout).unwrap()
}

fn copy_state(state: &PackedState) -> PackedState {
    PackedState { extents: state.extents.clone(), ..*state }
}

/// What outlives a process.
struct Disk {
    data: Vec<u8>,
    copies: [Option<PackedState>; 2],
    index: BTreeMap<[u8; 24], PackedLocation>,
    indexed: u64,
}

impl Disk {
    fn read(&self, plan: &EntryReadPlan) -> Vec<u8> {
        let mut bytes = Vec::new();
        for run in &plan.runs {
            let raw = &self.data[run.offset as usize..run.offset as usize + run.len];
            bytes.extend_from_slice(&raw[run.skip..run.skip + run.take]);
        }
        bytes
    }
}

struct Pool {
    pool: ExtentPool,
    disk: Disk,
}

impl Pool {
    fn create(layout: PoolLayout, read_run_size: usize, write_run_size: usize) -> Pool {
        let pool = ExtentPool::create(layout, false, read_run_size, write_run_size);
        let disk = Disk {
            data: vec![0; layout.extent_size * layout.extent_count as usize],
            copies: [Some(copy_state(&pool.state)), None],
            index: BTreeMap::new(),
            indexed: 0,
        };
        Pool { pool, disk }
    }

    fn reopen(self, read_run_size: usize, write_run_size: usize) -> Result<Pool, Error> {
        let layout = self.pool.layout();
        let copy = |page: usize| self.disk.copies[page].as_ref().map(|state| (layout, copy_state(state)));
        let pool = ExtentPool::open(copy(0), copy(1), self.pool.direct_io, read_run_size, write_run_size)?;
        Ok(Pool { pool, disk: self.disk })
    }

    fn write_batch(&mut self, writes: &[EntryWrite]) -> Result<EntryWriteResult, Error> {
        let plan = self.pool.write_batch(writes)?;
        for run in &plan.data_runs {
            let bytes = self.pool.data_run_bytes(writes, run);
            let offset = run.data_offset as usize;
            self.disk.data[offset..offset + bytes.len()].copy_from_slice(&bytes);
            self.pool.data_run_written(bytes.len());
        }
        self.pool.seal_write_frames(writes);
        Ok(plan.result)
    }

    fn sync_payload(&mut self) {
        if self.pool.payload_is_dirty() {
            self.pool.payload_synced();
        }
    }

    fn persist(&mut self, checkpoint: &ExtentPoolCheckpoint) -> Result<(), Error> {
        let image_bytes = self.pool.layout().state_copy_size as u64;
        assert_eq!(
            self.pool.checkpoint_offset(checkpoint),
            u64::from(checkpoint.next_page) * image_bytes
        );
        self.disk.copies[checkpoint.next_page as usize] = Some(copy_state(&checkpoint.image));
        self.pool.persist_checkpoint_state(checkpoint, image_bytes)
    }

    fn checkpoint_state(&mut self) -> Result<(), Error> {
        let checkpoint = self.pool.prepare_checkpoint_state()?;
        self.persist(&checkpoint)
    }

    fn release(&mut self, victim: ExtentVictim) -> Result<(), Error> {
        let checkpoint = self.pool.release(victim)?;
        let image_bytes = self.pool.layout().state_copy_size as u64;
        self.disk.copies[checkpoint.next_page as usize] = Some(copy_state(&checkpoint.image));
        self.pool.released(victim, checkpoint, image_bytes);
        Ok(())
    }

    fn read_stored(&self, location: PackedLocation) -> StoredEntryRead {
        match self.pool.read_plan(location) {
            Some(plan) => self.pool.finish_read(location, &plan, self.disk.read(&plan)),
            None => StoredEntryRead { value: None, data_frames: 0, data_runs: 0, data_bytes: 0 },
        }
    }

    fn read_entry(&self, key: &EntryKey, location: PackedLocation) -> StoredEntryRead {
        read_entry(key, self.read_stored(location))
    }

    fn allocate(&mut self, priority: CachePriority, len: usize) -> EntryAllocation {
        match self.pool.allocate(priority, len).unwrap() {
            AllocationResult::Allocated(allocation) => allocation,
            AllocationResult::ReclaimRequired => panic!("test allocation needs reclaim"),
        }
    }
}

/// A store with its mutation lock held: mutations and the checkpoint worker take turns.
struct Store {
    pool: Pool,
    index: EntryIndex,
    checkpoints: CheckpointCoordinator,
    layout: StoreLayout,
    options: ExtentStoreOptions,
    checkpoint_bytes: usize,
    base: BaseStats,
    paused: bool,
    fail_after_capture: bool,
    captured: Option<Captured>,
}

/// An epoch in flight.
struct Captured {
    epoch: u64,
    allocator: ExtentPoolCheckpoint,
    index: Option<foyer_extent::store::index::IndexCheckpoint>,
}

impl Store {
    fn create(config: ExtentStoreConfig, checkpoint_bytes: usize) -> Result<Store, Error> {
        validate_options(config.options, checkpoint_bytes, true)?;
        let layout = StoreLayout::create(config)?;
        validate_layout_options(layout.extent_size, layout.extent_count, config.options)?;
        let mut pool =
            Pool::create(pool_layout(layout), config.options.read_run_size, config.options.write_run_size);
        pool.pool.direct_io = config.options.direct_io;
        Ok(Store::start(pool, layout, config.options, checkpoint_bytes, 0))
    }

    fn start(
        pool: Pool,
        layout: StoreLayout,
        options: ExtentStoreOptions,
        checkpoint_bytes: usize,
        indexed: u64,
    ) -> Store {
        Store {
            pool,
            index: EntryIndex::new(indexed),
            checkpoints: CheckpointCoordinator::new(),
            layout,
            options,
            checkpoint_bytes,
            base: BaseStats::default(),
            paused: false,
            fail_after_capture: false,
            captured: None,
        }
    }

    fn reopen(self, options: ExtentStoreOptions) -> Result<Store, Error> {
        validate_options(options, self.checkpoint_bytes, true)?;
        let indexed = self.pool.disk.indexed;
        let pool = self.pool.reopen(options.read_run_size, options.write_run_size)?;
        let layout = pool.pool.layout();
        validate_layout_options(layout.extent_size, layout.extent_count, options)?;
        Ok(Store::start(pool, self.layout, options, self.checkpoint_bytes, indexed))
    }

    fn planned_max_entries(&self) -> u64 {
        u64::from(self.layout.extent_count - 1) * u64::from(self.layout.slots_per_extent)
    }

    fn floors(&self) -> [u32; 3] {
        priority_capacity_floors(self.options, self.layout.extent_count)
    }

    fn extent_occupancy(&self) -> ExtentOccupancy {
        self.pool.pool.extent_occupancy(self.floors())
    }

    fn physical_write_stats(&self) -> PhysicalWriteStats {
        let mut stats = self.pool.pool.physical_write_stats();
        stats.merge(physical_write_stats(&self.base));
        stats
    }

    fn base(&self, digest: &KeyDigest) -> BaseLookup {
        match self.pool.disk.index.get(digest.as_bytes()) {
            Some(location) => BaseLookup::Location(*location),
            None => BaseLookup::Miss,
        }
    }

    fn lookup(&self, digest: KeyDigest) -> Result<EntryIndexMemoryLookup, Error> {
        match self.index.begin_lookup(&digest) {
            LookupStep::Known(mutation) => Ok(match mutation.location {
                Some(location) => EntryIndexMemoryLookup::Location(location),
                None => EntryIndexMemoryLookup::Miss,
            }),
            LookupStep::ReadBase(revision) => {
                Ok(self.index.resolve(&digest, revision, self.base(&digest))?.expect("nothing ran meanwhile"))
            }
        }
    }

    fn peek(&self, digest: KeyDigest) -> Option<PackedLocation> {
        match self.lookup(digest).unwrap() {
            EntryIndexMemoryLookup::Location(location) => Some(location),
            _ => None,
        }
    }

    fn prepare_get(&self, key: &EntryKey) -> Result<PreparedGet, Error> {
        Ok(prepare_get(key, self.lookup(KeyDigest::for_key(key))?))
    }

    fn get_prepared(&self, key: &EntryKey, prepared: PreparedGet) -> GetResult {
        match resolve_prepared(prepared, None) {
            Some(location) => get_result(location, self.pool.read_entry(key, location)),
            None => GetResult::default(),
        }
    }

    fn get_with_stats(&self, key: &EntryKey) -> Result<GetResult, Error> {
        Ok(self.get_prepared(key, self.prepare_get(key)?))
    }

    fn get(&self, key: &EntryKey) -> Result<Option<Vec<u8>>, Error> {
        Ok(self.get_with_stats(key)?.value)
    }

    fn insert(&mut self, key: &EntryKey, value: &[u8], priority: CachePriority) -> Result<InsertOutcome, Error> {
        Ok(self.insert_batch_with_stats(&[EntryInsert::new(key, value, priority)])?.outcomes[0])
    }

    fn insert_batch_with_stats(&mut self, inserts: &[EntryInsert]) -> Result<BatchInsertResult, Error> {
        let mut batch = InsertBatch::new(inserts.to_vec(), self.layout.extent_size)?;
        if inserts.is_empty() {
            return Ok(BatchInsertResult::default());
        }
        self.checkpoints.ensure_healthy()?;
        let floors = self.floors();
        loop {
            let mut action = batch.next(&self.index, &self.pool.pool);
            if let BatchAction::LookUp { key_digest, base_revision } = action {
                let lookup = self
                    .index
                    .resolve(&key_digest, base_revision, self.base(&key_digest))?
                    .expect("nothing ran meanwhile");
                action = batch.looked_up(&self.pool.pool, lookup);
            }
            while action == BatchAction::Allocate {
                action = batch.allocate(&mut self.pool.pool, floors)?;
                if let BatchAction::Reclaim(victim) = action {
                    batch.reclaimed(self.reclaim(victim)?);
                    action = BatchAction::Allocate;
                }
            }
            match action {
                BatchAction::Publish => {
                    let writes = batch.writes();
                    let physical = self.pool.write_batch(&writes)?;
                    let index_inserts = batch.index_inserts(&physical);
                    let base: Vec<EntryIndexMemoryLookup> =
                        index_inserts.iter().map(|(digest, _)| self.memory(digest)).collect();
                    let indexed = self.index.insert_batch(&index_inserts, &base);
                    batch.published(&physical, &indexed);
                }
                BatchAction::Finish => break,
                _ => {}
            }
        }
        let (published_bytes, result) = batch.finish();
        publish(&mut self.checkpoints, published_bytes, self.checkpoint_bytes)?;
        self.run_worker();
        Ok(result)
    }

    fn memory(&self, digest: &KeyDigest) -> EntryIndexMemoryLookup {
        match self.base(digest) {
            BaseLookup::Location(location) => EntryIndexMemoryLookup::Location(location),
            _ => EntryIndexMemoryLookup::Miss,
        }
    }

    fn reclaim(&mut self, victim: ExtentVictim) -> Result<foyer_extent::store::reclaim::ReclaimResult, Error> {
        if !self.checkpoints.poll_idle()? {
            self.write_epoch();
            assert!(self.checkpoints.poll_idle()?);
        }
        self.pool.release(victim)?;
        Ok(reclaimed(victim, 1, 2, 3))
    }

    fn remove(&mut self, key: &EntryKey) -> Result<bool, Error> {
        self.checkpoints.ensure_healthy()?;
        let digest = KeyDigest::for_key(key);
        let base = [self.memory(&digest)];
        let removed = self.index.remove_batch(&[digest], &base);
        let bytes = removal_bytes(removed, self.layout.slot_size);
        publish(&mut self.checkpoints, bytes, self.checkpoint_bytes)?;
        self.run_worker();
        Ok(removed == 1)
    }

    /// What the checkpoint worker does as long as there is something to do.
    fn run_worker(&mut self) {
        while self.checkpoints.worker_step() == WorkerStep::Capture && self.captured.is_none() {
            let Some(epoch) = self.checkpoints.begin_capture() else {
                break;
            };
            let allocator = self.pool.pool.prepare_checkpoint_state().unwrap();
            let index = self.index.prepare_checkpoint();
            self.checkpoints.captured();
            self.captured = Some(Captured { epoch, allocator, index });
            if self.paused {
                return;
            }
            self.write_epoch();
        }
    }

    fn write_epoch(&mut self) {
        let Captured { epoch, allocator, index } = self.captured.take().expect("an epoch is in flight");
        let outcome = if self.fail_after_capture {
            Err(Error::Index("injected".to_string()))
        } else {
            self.pool.sync_payload();
            self.pool.persist(&allocator)
        };
        match (after_allocator(outcome.is_ok(), index.is_some()), index) {
            (EpochStep::PersistIndex, Some(index)) => {
                let records = checkpoint_mutations(&index, &self.pool.pool);
                self.apply(&records, index.indexed_count);
                self.index.persist_checkpoint(index);
            }
            (EpochStep::AbortIndex, Some(index)) => self.index.abort_checkpoint(index),
            _ => {}
        }
        let _ = self.checkpoints.complete(epoch, outcome.map_err(|error| error.message()));
    }

    /// What the durable base does: it logs the records in one synced write.
    fn apply(&mut self, records: &[(KeyDigest, Option<PackedLocation>)], indexed: u64) {
        for (digest, record) in records {
            match record {
                Some(location) => self.pool.disk.index.insert(*digest.as_bytes(), *location),
                None => self.pool.disk.index.remove(digest.as_bytes()),
            };
        }
        self.pool.disk.indexed = indexed;
        self.base.wal_write_operations += 1;
        self.base.wal_write_bytes += (records.len() * LOGGED_RECORD_SIZE) as u64;
        self.base.wal_sync_operations += 1;
    }

    fn resume(&mut self) {
        self.paused = false;
        if self.captured.is_some() {
            self.write_epoch();
        }
        self.run_worker();
    }

    fn sync(&mut self) -> Result<(), Error> {
        let target = self.checkpoints.published_epoch();
        self.checkpoints.request_background(target)?;
        self.resume();
        assert!(self.checkpoints.poll_durable(target)?);
        Ok(())
    }
}

fn store(capacity: u64) -> Store {
    Store::create(config(capacity), usize::MAX).unwrap()
}

#[test]
fn core_insert_get_update_remove_and_reopen() {
    let mut store = store(4 * 1024 * 1024);
    assert_eq!(store.insert(&key(1), &[1; 100], CachePriority::Normal).unwrap(), InsertOutcome::Inserted);
    assert_eq!(store.get(&key(1)).unwrap(), Some(vec![1; 100]));
    assert_eq!(store.insert(&key(1), &[2; 200], CachePriority::High).unwrap(), InsertOutcome::Updated);
    assert_eq!(store.get(&key(1)).unwrap(), Some(vec![2; 200]));
    store.insert(&key(2), &[3; 50], CachePriority::Low).unwrap();
    assert!(store.remove(&key(2)).unwrap());
    store.sync().unwrap();
    let layout = store.pool.pool.layout();

    let reopened = store.reopen(options()).unwrap();
    assert_eq!(reopened.pool.pool.layout(), layout);
    assert_eq!(reopened.get(&key(1)).unwrap(), Some(vec![2; 200]));
    assert!(reopened.get(&key(2)).unwrap().is_none());
}

#[test]
fn crc_collision_does_not_suppress_a_value_update() {
    let mut store = store(4 * 1024 * 1024);
    let first_key = key(1);
    let batched_key = key(2);
    let old = vec![0x11; 512];
    let mut replacement = vec![0x22; 512];
    replacement[508..].copy_from_slice(&[0xce, 0xe0, 0x15, 0xb2]);
    assert_ne!(old, replacement);
    assert_eq!(stored_entry_checksum(&first_key, &old), stored_entry_checksum(&first_key, &replacement));
    assert_eq!(stored_entry_checksum(&batched_key, &old), stored_entry_checksum(&batched_key, &replacement));
    assert_ne!(value_digest(&old), value_digest(&replacement));

    store.insert(&first_key, &old, CachePriority::Normal).unwrap();
    store.insert(&first_key, &replacement, CachePriority::Normal).unwrap();
    store
        .insert_batch_with_stats(&[
            EntryInsert::new(&batched_key, &old, CachePriority::Normal),
            EntryInsert::new(&batched_key, &replacement, CachePriority::Normal),
        ])
        .unwrap();
    assert_eq!(store.get(&first_key).unwrap(), Some(replacement.clone()));
    assert_eq!(store.get(&batched_key).unwrap(), Some(replacement.clone()));
    store.sync().unwrap();

    let reopened = store.reopen(options()).unwrap();
    assert_eq!(reopened.get(&first_key).unwrap(), Some(replacement.clone()));
    assert_eq!(reopened.get(&batched_key).unwrap(), Some(replacement));
}

#[test]
fn prepared_get_reuses_memory_lookup_and_returns_definitive_misses() {
    let mut store = store(4 * 1024 * 1024);
    let entry_key = key(7);
    assert_eq!(store.prepare_get(&entry_key).unwrap(), PreparedGet::Miss);

    store.insert(&entry_key, &[7; 128], CachePriority::Normal).unwrap();
    let prepared = store.prepare_get(&entry_key).unwrap();
    assert!(matches!(prepared, PreparedGet::Location(_)));
    assert_eq!(store.get_prepared(&entry_key, prepared).value, Some(vec![7; 128]));

    assert!(store.remove(&entry_key).unwrap());
    assert_eq!(store.prepare_get(&entry_key).unwrap(), PreparedGet::Miss);
}

#[test]
fn reopen_rejects_a_different_extent_size() {
    let mut store = store(4 * 1024 * 1024);
    store.sync().unwrap();
    let error = store.reopen(options().with_extent_size(PAGE_SIZE * 16)).err().unwrap();
    assert!(matches!(error, Error::InvalidConfig(_)));
}

#[test]
fn index_preserves_extent_publication_and_reopens() {
    let mut store = store(32 * 1024 * 1024);
    assert_eq!(store.insert(&key(1), &[1; 100], CachePriority::Normal).unwrap(), InsertOutcome::Inserted);
    assert_eq!(
        store.insert(&key(2), &[2; PAGE_SIZE + 17], CachePriority::High).unwrap(),
        InsertOutcome::Inserted
    );
    store.sync().unwrap();
    assert_eq!(store.index.stats(&BaseStats::default()).indexed_entries_upper_bound, 2);

    let mut store = store.reopen(options()).unwrap();
    assert_eq!(store.get(&key(1)).unwrap(), Some(vec![1; 100]));
    assert_eq!(store.get(&key(2)).unwrap(), Some(vec![2; PAGE_SIZE + 17]));
    assert!(store.remove(&key(1)).unwrap());
    store.sync().unwrap();
    assert_eq!(store.index.stats(&BaseStats::default()).indexed_entries_upper_bound, 1);

    let store = store.reopen(options()).unwrap();
    assert_eq!(store.get(&key(1)).unwrap(), None);
    assert_eq!(store.get(&key(2)).unwrap(), Some(vec![2; PAGE_SIZE + 17]));
}

#[test]
fn multi_frame_entry_respects_read_run_limit_and_reopens() {
    let options = options().with_read_run_size(PAGE_SIZE);
    let mut store = Store::create(config(4 * 1024 * 1024).with_options(options), usize::MAX).unwrap();
    let value = (0..PAGE_SIZE * 3 + 17).map(|offset| (offset % 251) as u8).collect::<Vec<_>>();

    assert_eq!(store.insert(&key(7), &value, CachePriority::High).unwrap(), InsertOutcome::Inserted);
    let stats = store.physical_write_stats();
    assert_eq!(stats.data_bytes, (PAGE_SIZE * 4) as u64);
    let read = store.get_with_stats(&key(7)).unwrap();
    assert_eq!(read.value, Some(value.clone()));
    assert_eq!(read.data_frames, 4);
    assert_eq!(read.data_runs, 4);

    store.sync().unwrap();
    let reopened = store.reopen(options).unwrap();
    assert_eq!(reopened.get(&key(7)).unwrap(), Some(value));
}

#[test]
fn small_entries_share_a_write_frame() {
    let mut store = store(4 * 1024 * 1024);
    let keys = (0..8).map(key).collect::<Vec<_>>();
    let values = (0..8).map(|index| vec![index as u8; 100]).collect::<Vec<_>>();
    let inserts = keys
        .iter()
        .zip(&values)
        .map(|(key, value)| EntryInsert::new(key, value, CachePriority::Normal))
        .collect::<Vec<_>>();

    let result = store.insert_batch_with_stats(&inserts).unwrap();
    assert!(result.outcomes.iter().all(|outcome| *outcome == InsertOutcome::Inserted));
    let writes = store.physical_write_stats();
    assert_eq!(writes.data_runs, 1);
    assert_eq!(writes.data_bytes, PAGE_SIZE as u64);
    let occupancy = store.extent_occupancy();
    assert_eq!(occupancy.used_entries(CachePriority::Normal), keys.len() as u64);
    assert_eq!(occupancy.used_bytes(CachePriority::Normal), PAGE_SIZE as u64);

    let locations = keys.iter().map(|key| store.peek(KeyDigest::for_key(key)).unwrap()).collect::<Vec<_>>();
    for pair in locations.windows(2) {
        assert_eq!(pair[1].data_offset, pair[0].data_offset + u64::from(pair[0].stored_len));
    }
    for (key, value) in keys.iter().zip(values) {
        assert_eq!(store.get(key).unwrap(), Some(value));
    }
}

#[test]
fn checkpoint_threshold_counts_published_stored_bytes() {
    let first_key = key(1);
    let second_key = key(2);
    let first_value = vec![1; 700];
    let second_value = vec![2; 1_300];
    let first_bytes = stored_entry_len(&first_key, &first_value).unwrap();
    let second_bytes = stored_entry_len(&second_key, &second_value).unwrap();
    let mut store = Store::create(config(4 * 1024 * 1024), first_bytes + second_bytes).unwrap();
    store.paused = true;

    store.insert(&first_key, &first_value, CachePriority::Normal).unwrap();
    assert_eq!(store.checkpoints.stats().dirty_bytes, first_bytes);
    assert_eq!(store.checkpoints.stats().requested_epoch, 0);

    store.insert(&second_key, &second_value, CachePriority::Normal).unwrap();
    assert!(store.captured.is_some());
    let checkpoint = store.checkpoints.stats();
    assert_eq!(checkpoint.published_epoch, 2);
    assert_eq!(checkpoint.requested_epoch, 2);
    store.resume();
    store.sync().unwrap();
}

#[test]
fn core_checkpoint_epoch_does_not_block_later_publication() {
    let mut store = Store::create(config(4 * 1024 * 1024), 1).unwrap();
    store.paused = true;
    store.insert(&key(1), &[1; PAGE_SIZE], CachePriority::Normal).unwrap();
    assert!(store.captured.is_some());

    assert_ne!(
        store.insert(&key(2), &[2; PAGE_SIZE], CachePriority::Normal).unwrap(),
        InsertOutcome::Rejected
    );
    assert!(store.captured.is_some());
    assert_eq!(store.get(&key(2)).unwrap(), Some(vec![2; PAGE_SIZE]));
    store.resume();
    store.sync().unwrap();

    let reopened = store.reopen(options()).unwrap();
    assert_eq!(reopened.get(&key(1)).unwrap(), Some(vec![1; PAGE_SIZE]));
    assert_eq!(reopened.get(&key(2)).unwrap(), Some(vec![2; PAGE_SIZE]));
}

#[test]
fn core_reclaim_waits_for_an_in_flight_epoch_before_generation_reuse() {
    let mut store = store(2 * 1024 * 1024);
    let entries = store.planned_max_entries();
    let initial = full_frame_value(7);
    for index in 0..entries - 1 {
        assert_ne!(store.insert(&key(index), &initial, CachePriority::Low).unwrap(), InsertOutcome::Rejected);
    }
    store.sync().unwrap();

    store.paused = true;
    let updated = full_frame_value(8);
    assert_ne!(store.insert(&key(0), &updated, CachePriority::Low).unwrap(), InsertOutcome::Rejected);
    let target = store.checkpoints.published_epoch();
    store.checkpoints.request_background(target).unwrap();
    store.run_worker();
    assert!(store.captured.is_some());
    assert!(!store.checkpoints.poll_idle().unwrap());

    // The insert below needs an extent: its reclaim lets the epoch become durable first.
    assert_ne!(
        store.insert(&key(100_000), &full_frame_value(9), CachePriority::High).unwrap(),
        InsertOutcome::Rejected
    );
    assert!(store.captured.is_none());
    assert!(store.checkpoints.poll_durable(target).unwrap());
    store.sync().unwrap();
    assert_eq!(store.get(&key(100_000)).unwrap(), Some(full_frame_value(9)));
}

#[test]
fn core_checkpoint_failure_is_retained_and_rejects_later_mutations() {
    let mut store = Store::create(config(4 * 1024 * 1024), 1).unwrap();
    store.fail_after_capture = true;
    store.insert(&key(1), &[1; PAGE_SIZE], CachePriority::Normal).unwrap();
    assert!(matches!(store.sync(), Err(Error::CheckpointFailed(_))));
    assert_eq!(store.get(&key(1)).unwrap(), Some(vec![1; PAGE_SIZE]));
    assert!(matches!(
        store.insert(&key(2), &[2; PAGE_SIZE], CachePriority::Normal),
        Err(Error::CheckpointFailed(_))
    ));
    assert!(store.checkpoints.stats().failed);

    let reopened = store.reopen(options()).unwrap();
    assert!(reopened.get(&key(1)).unwrap().is_none());
}

#[test]
fn core_physical_write_stats_separate_payload_and_metadata() {
    let mut store = store(4 * 1024 * 1024);
    let values = [full_frame_value(1), full_frame_value(2)];
    store
        .insert_batch_with_stats(&[
            EntryInsert::new(&key(1), &values[0], CachePriority::Normal),
            EntryInsert::new(&key(2), &values[1], CachePriority::Normal),
        ])
        .unwrap();

    let before_checkpoint = store.physical_write_stats();
    assert_eq!(before_checkpoint.data_runs, 1);
    assert_eq!(before_checkpoint.data_bytes, (PAGE_SIZE * 2) as u64);
    assert_eq!(before_checkpoint.data_syncs, 0);
    assert_eq!(before_checkpoint.index_runs, 0);
    assert_eq!(before_checkpoint.index_syncs, 0);
    assert_eq!(before_checkpoint.allocator_runs, 0);
    assert_eq!(before_checkpoint.allocator_syncs, 0);

    store.sync().unwrap();
    let after_checkpoint = store.physical_write_stats();
    assert!(after_checkpoint.index_runs > 0);
    assert!(after_checkpoint.index_bytes > 0);
    assert_eq!(after_checkpoint.index_syncs, 1);
    assert_eq!(after_checkpoint.index_wal_runs, 1);
    assert!(after_checkpoint.index_wal_bytes > 0);
    assert_eq!(after_checkpoint.index_wal_syncs, 1);
    assert_eq!(after_checkpoint.index_sst_runs, 0);
    assert_eq!(after_checkpoint.index_manifest_runs, 0);
    assert_eq!(after_checkpoint.allocator_runs, 1);
    assert_eq!(after_checkpoint.allocator_syncs, 1);
    assert_eq!(after_checkpoint.allocator_bytes, store.pool.pool.layout().state_copy_size as u64);
    assert_eq!(
        after_checkpoint.total_bytes(),
        after_checkpoint.data_bytes + after_checkpoint.index_bytes + after_checkpoint.allocator_bytes
    );
    assert_eq!(after_checkpoint.data_syncs, 1);
    assert_eq!(after_checkpoint.total_syncs(), 3);
}

#[test]
fn a_checkpoint_writes_tombstones_for_reclaimed_locations() {
    let mut store = store(4 * 1024 * 1024);
    store.insert(&key(1), &full_frame_value(1), CachePriority::Low).unwrap();
    store.insert(&key(2), &full_frame_value(2), CachePriority::High).unwrap();
    store.remove(&key(3)).unwrap();
    let low = store.peek(KeyDigest::for_key(&key(1))).unwrap();
    let high = store.peek(KeyDigest::for_key(&key(2))).unwrap();
    let checkpoint = store.index.prepare_checkpoint().unwrap();
    assert!(store.index.prepare_checkpoint().is_none());

    let mut records = checkpoint_mutations(&checkpoint, &store.pool.pool);
    assert_eq!(records.len(), checkpoint.frozen.len());
    assert_eq!(records.iter().filter(|record| record.1 == Some(low)).count(), 1);
    assert_eq!(records.iter().filter(|record| record.1 == Some(high)).count(), 1);

    let candidates = store.pool.pool.reclaim_candidates();
    let (victim, _) = candidates.oldest(CachePriority::Low).unwrap();
    let victim = store.pool.pool.seal_current(victim).unwrap();
    store.pool.release(victim).unwrap();
    records = checkpoint_mutations(&checkpoint, &store.pool.pool);
    let of = |index: u64| records.iter().find(|record| record.0 == KeyDigest::for_key(&key(index)));
    assert!(should_discard(&store.pool.pool, Some(low)) && !should_discard(&store.pool.pool, Some(high)));
    assert_eq!(of(1).unwrap().1, None);
    assert_eq!(of(2).unwrap().1, Some(high));
    assert_eq!(store.get(&key(1)).unwrap(), None);
    assert_eq!(store.get(&key(2)).unwrap(), Some(full_frame_value(2)));
}

/// Runs a history and compares every lookup with the last value of its key: through
/// overwritten and repeated keys, removals, checkpoints that are under way, releases of
/// extents and reopenings.
#[test]
fn a_hit_is_what_was_last_inserted_after_any_history() {
    let mut store = Store::create(config(512 * 1024), usize::MAX).unwrap();
    let mut contents: BTreeMap<u64, Vec<u8>> = BTreeMap::new();
    let mut durable = contents.clone();
    let mut hits = 0;
    for step in 0..600_u64 {
        let (first, second) = (step * 7 % 23, step * 11 % 29);
        let values = [step, step + 1, step + 2].map(|seed| vec![seed as u8; 300 + (seed % 9) as usize * 400]);
        let result = store
            .insert_batch_with_stats(&[
                EntryInsert::new(&key(first), &values[0], CachePriority::Normal),
                EntryInsert::new(&key(second), &values[1], CachePriority::High),
                EntryInsert::new(&key(first), &values[2], CachePriority::Normal),
            ])
            .unwrap();
        for (outcome, (index, value)) in
            result.outcomes.iter().zip([(first, &values[0]), (second, &values[1]), (first, &values[2])])
        {
            if *outcome != InsertOutcome::Rejected {
                contents.insert(index, value.clone());
            }
        }
        if step % 5 == 0 {
            store.remove(&key(step % 23)).unwrap();
            contents.remove(&(step % 23));
        }
        if step % 17 == 0 {
            store.sync().unwrap();
            durable = contents.clone();
        }
        if step % 83 == 82 {
            store = store.reopen(options()).unwrap();
            contents = durable.clone();
        }
        for index in 0..32 {
            if let Some(found) = store.get(&key(index)).unwrap() {
                assert_eq!(Some(&found), contents.get(&index));
                hits += 1;
            }
        }
    }
    assert!(hits > 600);
}

#[test]
fn extent_sizes_are_checked_before_shares() {
    let options = options().with_priority_capacity_floors(255, 255);
    let error = validate_layout_options(PAGE_SIZE, u32::MAX, options).unwrap_err();
    assert!(error.message().contains("does not match the stored layout"));
}

#[test]
fn direct_io_handles_partial_frames_and_reopens() {
    let options = options().with_direct_io(true);
    let mut store = Store::create(config(2 * 1024 * 1024).with_options(options), usize::MAX).unwrap();
    let value = vec![9; PAGE_SIZE / 2 + 17];
    let full = full_frame_value(8);
    let result = store
        .insert_batch_with_stats(&[
            EntryInsert::new(&key(1), &value, CachePriority::Normal),
            EntryInsert::new(&key(2), &full, CachePriority::Normal),
        ])
        .unwrap();
    assert!(result.outcomes.iter().all(|outcome| *outcome == InsertOutcome::Inserted));
    let partial_read = store.get_with_stats(&key(1)).unwrap();
    assert_eq!(partial_read.value, Some(value.clone()));
    assert_eq!(partial_read.data_frames, 1);
    assert_eq!(partial_read.data_runs, 1);
    assert_eq!(partial_read.data_bytes, PAGE_SIZE);
    let full_read = store.get_with_stats(&key(2)).unwrap();
    assert_eq!(full_read.value, Some(full.clone()));
    assert_eq!(full_read.data_frames, 2);
    assert_eq!(full_read.data_runs, 1);
    assert_eq!(full_read.data_bytes, PAGE_SIZE * 2);
    store.sync().unwrap();

    let store = store.reopen(options).unwrap();
    assert_eq!(store.get(&key(1)).unwrap(), Some(value));
    assert_eq!(store.get(&key(2)).unwrap(), Some(full));
}

#[test]
fn core_batch_is_sequential_and_preserves_same_key_order() {
    let mut store = store(4 * 1024 * 1024);
    let first = vec![1; 256];
    let second = vec![2; 512];
    let third = vec![3; 768];
    let result = store
        .insert_batch_with_stats(&[
            EntryInsert::new(&key(1), &first, CachePriority::Low),
            EntryInsert::new(&key(2), &second, CachePriority::Normal),
            EntryInsert::new(&key(1), &third, CachePriority::High),
        ])
        .unwrap();
    assert_eq!(result.outcomes.len(), 3);
    assert_eq!(store.get(&key(1)).unwrap(), Some(third));
    assert_eq!(store.get(&key(2)).unwrap(), Some(second));
    assert!(result.write_runs <= 8);
}

fn tiny_batch(store: &mut Store, keys: &[EntryKey], values: &[Vec<u8>]) -> BatchInsertResult {
    let batch = values
        .iter()
        .zip(keys)
        .map(|(value, key)| EntryInsert::new(key, value, CachePriority::Normal))
        .collect::<Vec<_>>();
    store.insert_batch_with_stats(&batch).unwrap()
}

#[test]
fn batch_larger_than_capacity_never_reuses_an_unpublished_extent() {
    let mut store = store(2 * 1024 * 1024);
    let inserts = store.planned_max_entries() as usize * 2;
    let values = (0..inserts).map(|index| vec![(index % 251) as u8; 16]).collect::<Vec<_>>();
    let keys = (0..inserts).map(|index| key(index as u64)).collect::<Vec<_>>();

    let result = tiny_batch(&mut store, &keys, &values);
    assert_eq!(result.outcomes.len(), inserts);
    for (index, expected) in values.iter().enumerate() {
        if let Some(value) = store.get(&key(index as u64)).unwrap() {
            assert_eq!(&value, expected);
        }
    }
}

#[test]
fn checkpoint_turns_reclaimed_overlay_locations_into_tombstones() {
    let mut store = store(2 * 1024 * 1024);
    let inserts = store.planned_max_entries() as usize * 2;
    let values = (0..inserts).map(|index| vec![(index % 251) as u8; 16]).collect::<Vec<_>>();
    let keys = (0..inserts).map(|index| key(index as u64)).collect::<Vec<_>>();
    tiny_batch(&mut store, &keys, &values);
    store.sync().unwrap();

    let reopened = store.reopen(options()).unwrap();
    for key in &keys {
        if let Some(location) = reopened.peek(KeyDigest::for_key(key)) {
            assert!(
                reopened.pool.pool.location_is_live(location),
                "checkpoint persisted a reclaimed overlay location for {key:?}"
            );
        }
    }
}

#[test]
fn reclaim_does_not_force_a_payload_sync() {
    let mut store = store(2 * 1024 * 1024);
    let entries = store.planned_max_entries() as usize;
    let keys = (0..entries).map(|index| key(index as u64)).collect::<Vec<_>>();
    let value = full_frame_value(7);
    let batch = keys.iter().map(|key| EntryInsert::new(key, &value, CachePriority::Low)).collect::<Vec<_>>();
    let populated = store.insert_batch_with_stats(&batch).unwrap();
    assert!(populated.outcomes.iter().all(|outcome| *outcome == InsertOutcome::Inserted));

    let before = store.physical_write_stats();
    let incoming_key = key(entries as u64 + 1);
    let result = store
        .insert_batch_with_stats(&[EntryInsert::new(&incoming_key, &value, CachePriority::High)])
        .unwrap();
    assert_eq!(result.reclaim.total_reclaimed_extents(), 1);
    assert_eq!(result.outcomes, vec![InsertOutcome::Inserted]);
    let after = store.physical_write_stats();
    assert_eq!(after.data_syncs - before.data_syncs, 0);
    assert_eq!(store.get(&incoming_key).unwrap(), Some(value));
    store.sync().unwrap();
    let checkpointed = store.physical_write_stats();
    assert_eq!(checkpointed.data_syncs - after.data_syncs, 1);
}

#[test]
fn core_hot_update_batch_larger_than_capacity_preserves_fifo_values() {
    let mut store = store(512 * 1024);
    let entries = store.planned_max_entries() as usize;
    for index in 0..entries {
        store.insert(&key(index as u64), &[7; 16], CachePriority::Normal).unwrap();
    }
    for index in 0..entries {
        for _ in 0..3 {
            assert_eq!(store.get(&key(index as u64)).unwrap(), Some(vec![7; 16]));
        }
    }

    let values = (0..entries * 2).map(|index| vec![(index / entries + 1) as u8; 16]).collect::<Vec<_>>();
    let keys = (0..entries).map(|index| key(index as u64)).collect::<Vec<_>>();
    let batch = values
        .iter()
        .enumerate()
        .map(|(index, value)| EntryInsert::new(&keys[index % entries], value, CachePriority::Normal))
        .collect::<Vec<_>>();
    let result = store.insert_batch_with_stats(&batch).unwrap();
    assert_eq!(result.outcomes.len(), batch.len());

    for index in 0..entries {
        if let Some(value) = store.get(&key(index as u64)).unwrap() {
            assert_eq!(value, vec![2; 16]);
        }
    }
}

fn random(state: &mut u64) -> u64 {
    let mut value = *state;
    value ^= value << 13;
    value ^= value >> 7;
    value ^= value << 17;
    *state = value;
    value
}

fn assert_valid_hit(store: &Store, model: &[Option<Vec<u8>>], index: usize) {
    if let Some(actual) = store.get(&key(index as u64)).unwrap() {
        let expected = model[index].as_ref().expect("a removed or never-inserted key returned a value");
        assert_eq!(&actual, expected, "key {index} returned a stale value");
    }
}

#[test]
fn randomized_churn_never_returns_a_stale_or_wrong_value() {
    let key_count = 64;
    let operations = 384;
    let mut store = store(512 * 1024);
    let mut model = vec![None; key_count];
    let mut rng = 0x243f_6a88_85a3_08d3_u64;

    for operation in 0..operations {
        if operation == operations / 2 {
            store.sync().unwrap();
            store = store.reopen(options()).unwrap();
        }

        let index = random(&mut rng) as usize % key_count;
        match random(&mut rng) % 10 {
            0..=6 => {
                let len = 16 + random(&mut rng) as usize % (PAGE_SIZE * 2);
                let mut value = vec![random(&mut rng) as u8; len];
                value[..8].copy_from_slice(&(operation as u64).to_le_bytes());
                let priority = match random(&mut rng) % 10 {
                    0 => CachePriority::High,
                    1..=6 => CachePriority::Normal,
                    _ => CachePriority::Low,
                };
                if store.insert(&key(index as u64), &value, priority).unwrap() != InsertOutcome::Rejected {
                    model[index] = Some(value);
                }
            }
            7 => {
                store.remove(&key(index as u64)).unwrap();
                model[index] = None;
            }
            _ => assert_valid_hit(&store, &model, index),
        }

        assert_valid_hit(&store, &model, index);
        assert_valid_hit(&store, &model, random(&mut rng) as usize % key_count);
        if operation % 48 == 47 {
            store.sync().unwrap();
        }
    }

    store.sync().unwrap();
    for index in 0..key_count {
        assert_valid_hit(&store, &model, index);
    }
}

#[test]
fn core_low_priority_cannot_reclaim_protected_data() {
    let mut store = store(2 * 1024 * 1024);
    let entries = store.planned_max_entries() as usize;
    for index in 0..entries {
        store.insert(&key(index as u64), &[1; 16], CachePriority::High).unwrap();
    }
    assert_eq!(store.insert(&key(10_000), &[2; 16], CachePriority::Low).unwrap(), InsertOutcome::Rejected);
    assert!(store.get(&key(0)).unwrap().is_some());
    assert_ne!(store.insert(&key(10_001), &[3; 16], CachePriority::High).unwrap(), InsertOutcome::Rejected);
}

#[test]
fn priority_floors_prevent_starvation_and_shared_capacity_prefers_high() {
    let floored = config(2 * 1024 * 1024).with_options(options().with_priority_capacity_floors(25, 50));
    let mut store = Store::create(floored, usize::MAX).unwrap();
    let layout = store.pool.pool.layout();
    let usable_extents = layout.extent_count - 1;
    let value = vec![1; layout.extent_size - stored_entry_len(&key(0), &[]).unwrap()];
    let high_floor = store.extent_occupancy().capacity_floor_extents(CachePriority::High);
    let normal_floor = store.extent_occupancy().capacity_floor_extents(CachePriority::Normal);

    for index in 0..usable_extents as usize {
        assert_ne!(store.insert(&key(index as u64), &value, CachePriority::High).unwrap(), InsertOutcome::Rejected);
    }
    assert_eq!(store.extent_occupancy().occupied_extents(CachePriority::High), usable_extents);

    for index in 0..normal_floor as usize {
        assert_ne!(
            store.insert(&key(100_000 + index as u64), &value, CachePriority::Normal).unwrap(),
            InsertOutcome::Rejected
        );
    }
    let occupancy = store.extent_occupancy();
    assert_eq!(occupancy.occupied_extents(CachePriority::Normal), normal_floor);
    assert_eq!(occupancy.occupied_extents(CachePriority::High), usable_extents - normal_floor);

    assert_ne!(store.insert(&key(300_000), &value, CachePriority::Normal).unwrap(), InsertOutcome::Rejected);
    let occupancy = store.extent_occupancy();
    assert_eq!(occupancy.occupied_extents(CachePriority::Normal), normal_floor);
    assert_eq!(occupancy.occupied_extents(CachePriority::High), usable_extents - normal_floor);

    let mut store = Store::create(floored, usize::MAX).unwrap();
    for index in 0..usable_extents as usize {
        assert_ne!(
            store.insert(&key(400_000 + index as u64), &value, CachePriority::Normal).unwrap(),
            InsertOutcome::Rejected
        );
    }
    for index in 0..(usable_extents - normal_floor) as usize {
        assert_ne!(
            store.insert(&key(500_000 + index as u64), &value, CachePriority::High).unwrap(),
            InsertOutcome::Rejected
        );
    }
    let occupancy = store.extent_occupancy();
    assert_eq!(occupancy.occupied_extents(CachePriority::Normal), normal_floor);
    assert_eq!(occupancy.occupied_extents(CachePriority::High), usable_extents - normal_floor);
    assert!(high_floor <= occupancy.occupied_extents(CachePriority::High));
}

#[test]
fn core_invalid_priority_capacity_is_rejected() {
    let invalid = config(2 * 1024 * 1024).with_options(options().with_priority_capacity_floors(40, 61));
    let error = Store::create(invalid, usize::MAX).err().unwrap();
    assert!(matches!(error, Error::InvalidConfig(_)));
}

#[test]
fn core_lower_priority_current_is_reclaimed_before_sealed_normal_data() {
    let mut store = store(512 * 1024);
    let layout = store.pool.pool.layout();
    store.insert(&key(0), &[1; 16], CachePriority::Low).unwrap();

    let normal_entries =
        (layout.extent_count as usize - 2).saturating_mul(layout.planned_entries_per_extent as usize);
    for index in 0..normal_entries {
        assert_ne!(
            store.insert(&key(index as u64 + 1), &[2; 16], CachePriority::Normal).unwrap(),
            InsertOutcome::Rejected
        );
    }

    let result = store
        .insert_batch_with_stats(&[
            EntryInsert::new(&key(0), &[9; 16], CachePriority::Low),
            EntryInsert::new(&key(100_000), &[3; 16], CachePriority::Normal),
        ])
        .unwrap();
    assert!(result.outcomes.iter().all(|outcome| *outcome != InsertOutcome::Rejected));
    assert_eq!(result.reclaim.reclaimed_extents(CachePriority::Low), 1);
    assert!(result.reclaim.invalidated_entries(CachePriority::Low) >= 1);
    assert!(result.reclaim.invalidated_bytes(CachePriority::Low) >= PAGE_SIZE);
    assert_eq!(store.get(&key(0)).unwrap(), None);
    assert_eq!(store.get(&key(1)).unwrap(), Some(vec![2; 16]));
}

#[test]
fn reclaim_invalidates_a_whole_extent_without_reading_or_copying_it() {
    let mut store = store(2 * 1024 * 1024);
    let layout = store.pool.pool.layout();
    let entries = store.planned_max_entries() as usize;
    for index in 0..entries {
        assert_ne!(
            store.insert(&key(index as u64), &[5; 16], CachePriority::Normal).unwrap(),
            InsertOutcome::Rejected
        );
    }
    for _ in 0..3 {
        assert_eq!(store.get(&key(0)).unwrap(), Some(vec![5; 16]));
    }

    let writes_before = store.physical_write_stats();
    let incoming = key(entries as u64);
    let result = store
        .insert_batch_with_stats(&[EntryInsert::new(&incoming, &[6; 16], CachePriority::Normal)])
        .unwrap();
    let writes_after = store.physical_write_stats();

    assert_ne!(result.outcomes[0], InsertOutcome::Rejected);
    assert_eq!(result.reclaim.total_reclaimed_extents(), 1);
    assert_eq!(result.reclaim.total_invalidated_entries(), layout.planned_entries_per_extent as usize);
    assert_eq!(result.reclaim.total_invalidated_bytes(), layout.extent_size);
    assert_eq!(writes_after.allocator_runs - writes_before.allocator_runs, 1);
    assert_eq!(writes_after.allocator_syncs - writes_before.allocator_syncs, 1);
    assert_eq!(writes_after.index_runs - writes_before.index_runs, 0);
    assert_eq!(store.get(&key(0)).unwrap(), None);
    assert_eq!(store.get(&incoming).unwrap(), Some(vec![6; 16]));
}

#[test]
fn store_totals_and_layout_stats() {
    assert_eq!(allocated_size(5, 6).unwrap(), 11);
    assert!(matches!(allocated_size(u64::MAX, 1), Err(Error::InvalidConfig(_))));
    let layout = StoreLayout::create(config(4 * 1024 * 1024)).unwrap();
    let stats = layout_stats(layout, 4 * 1024 * 1024, 77);
    assert_eq!(stats.configured_capacity_bytes, 4 * 1024 * 1024);
    assert_eq!(stats.usable_payload_bytes, u64::from(layout.extent_count - 1) * layout.extent_size as u64);
    assert_eq!((stats.maximum_live_entries, stats.planned_live_entries), (77, layout.max_entries));
    assert!(matches!(validate_entry(&key(1), &[], 100), Err(Error::EmptyValue)));
    assert!(matches!(
        validate_entry(&key(1), &[0; 61], 100),
        Err(Error::StoredEntryTooLarge { len: 101, maximum: 100 })
    ));
    assert!(validate_entry(&key(1), &[0; 60], 100).is_ok());
}

fn create_pool_with_extent(extent_size: usize, capacity: u64) -> Pool {
    let options = ExtentStoreOptions::default().with_extent_size(extent_size);
    let layout = StoreLayout::create(
        ExtentStoreConfig::new(capacity).with_slot_size(PAGE_SIZE).with_options(options),
    )
    .unwrap();
    Pool::create(pool_layout(layout), PAGE_SIZE * 4, PAGE_SIZE * 4)
}

fn create_pool() -> Pool {
    create_pool_with_extent(PAGE_SIZE * 8, 4 * 1024 * 1024)
}

#[test]
fn activation_sequence_advances_once_per_extent() {
    let mut pool = create_pool();
    let first = pool.allocate(CachePriority::Normal, 1);
    let second = pool.allocate(CachePriority::Normal, 1);

    assert_eq!(second.extent, first.extent);
    assert_eq!(pool.pool.state.extents[first.extent as usize].activation_sequence, 1);
    assert_eq!(pool.pool.state.next_activation_sequence, 2);
}

#[test]
fn pool_batch_write_read_checkpoint_and_reopen() {
    let mut pool = create_pool();
    let values = (0..12).map(|index| vec![index as u8; 100 + index]).collect::<Vec<_>>();
    let keys = (0..values.len()).map(|index| key(index as u64)).collect::<Vec<_>>();
    let allocations = values
        .iter()
        .zip(&keys)
        .map(|(value, key)| pool.allocate(CachePriority::Normal, stored_entry_len(key, value).unwrap()))
        .collect::<Vec<_>>();
    let writes = values
        .iter()
        .enumerate()
        .map(|(index, value)| EntryWrite {
            allocation: allocations[index],
            key: &keys[index],
            value,
            content_digest: value_digest(value),
        })
        .collect::<Vec<_>>();
    let result = pool.write_batch(&writes).unwrap();
    assert!(writes.len() > pool.pool.layout().planned_entries_per_extent as usize);
    assert_eq!(result.data_runs, 1);
    assert_eq!(result.data_bytes, PAGE_SIZE);
    assert!(pool.pool.payload_is_dirty());
    let expected = |index: usize| StoredEntryRead {
        value: Some(values[index].clone()),
        data_frames: 1,
        data_runs: 1,
        data_bytes: stored_entry_len(&keys[index], &values[index]).unwrap(),
    };
    for (index, location) in result.locations.iter().enumerate() {
        assert_eq!(pool.read_entry(&keys[index], *location), expected(index));
    }
    pool.sync_payload();
    assert!(!pool.pool.payload_is_dirty());
    pool.checkpoint_state().unwrap();
    let layout = pool.pool.layout();

    let reopened = pool.reopen(PAGE_SIZE * 4, PAGE_SIZE * 4).unwrap();
    assert_eq!(reopened.pool.layout(), layout);
    for (index, location) in result.locations.iter().enumerate() {
        assert_eq!(reopened.read_entry(&keys[index], *location), expected(index));
    }
}

#[test]
fn random_small_writes_can_exceed_planned_cardinality() {
    let mut pool = create_pool_with_extent(PAGE_SIZE * 64, 16 * 1024 * 1024);
    let entry_count = 1_100;
    let keys = (0..entry_count).map(|index| key(index as u64)).collect::<Vec<_>>();
    let values = (0..entry_count)
        .map(|index| {
            let mixed = (index as u64).wrapping_add(0x9e37_79b9_7f4a_7c15).wrapping_mul(0xbf58_476d_1ce4_e5b9);
            vec![mixed as u8; 1 + (mixed as usize % 128)]
        })
        .collect::<Vec<_>>();
    let allocations = values
        .iter()
        .zip(&keys)
        .map(|(value, key)| pool.allocate(CachePriority::Normal, stored_entry_len(key, value).unwrap()))
        .collect::<Vec<_>>();
    let writes = values
        .iter()
        .enumerate()
        .map(|(index, value)| EntryWrite {
            allocation: allocations[index],
            key: &keys[index],
            value,
            content_digest: value_digest(value),
        })
        .collect::<Vec<_>>();
    let result = pool.write_batch(&writes).unwrap();
    assert!(entry_count > pool.pool.layout().planned_entries_per_extent as usize);
    assert_eq!(result.locations.len(), entry_count);
    pool.sync_payload();
}

#[test]
fn pool_point_read_rechecks_generation_after_payload_io() {
    let mut pool = create_pool();
    let old_value = vec![0x11; 512];
    let mut replacement = vec![0x22; 512];
    replacement[508..].copy_from_slice(&[0xce, 0xe0, 0x15, 0xb2]);
    let key = key(1);
    let checksum = stored_entry_checksum(&key, &old_value);
    assert_ne!(old_value, replacement);
    assert_eq!(stored_entry_checksum(&key, &replacement), checksum);

    let stored_len = stored_entry_len(&key, &old_value).unwrap();
    let allocation = pool.allocate(CachePriority::Normal, stored_len);
    let location = pool
        .write_batch(&[EntryWrite {
            allocation,
            key: &key,
            value: &old_value,
            content_digest: value_digest(&old_value),
        }])
        .unwrap()
        .locations[0];
    let (victim, is_current) = pool.pool.reclaim_candidates().oldest(CachePriority::Normal).unwrap();
    assert!(is_current);
    let victim = pool.pool.seal_current(victim).unwrap();

    let plan = pool.pool.read_plan(location).unwrap();
    let early = pool.disk.read(&plan);
    pool.release(victim).unwrap();
    let replacement_allocation = pool.allocate(CachePriority::Normal, stored_len);
    assert_eq!(replacement_allocation.data_offset, allocation.data_offset);
    pool.write_batch(&[EntryWrite {
        allocation: replacement_allocation,
        key: &key,
        value: &replacement,
        content_digest: value_digest(&replacement),
    }])
    .unwrap();

    for bytes in [early, pool.disk.read(&plan)] {
        let value = pool.pool.finish_read(location, &plan, bytes);
        assert_eq!(value.value, None);
        assert_eq!(value.data_runs, 1);
        assert_eq!(value.data_frames, 1);
        assert_eq!(value.data_bytes, stored_entry_len(&key, &old_value).unwrap());
    }
    assert!(pool.pool.read_plan(location).is_none());
}

#[test]
fn aligned_read_covers_an_unaligned_packed_entry() {
    let mut pool = create_pool();
    pool.pool.direct_io = true;
    let keys = [key(1), key(2)];
    let values = [vec![1; 2_000], vec![2; 3_000]];
    let mut allocations = Vec::new();
    for index in 0..2 {
        let len = stored_entry_len(&keys[index], &values[index]).unwrap();
        allocations.push(pool.allocate(CachePriority::Normal, len));
    }
    let writes: [EntryWrite<'_>; 2] = std::array::from_fn(|index| EntryWrite {
        allocation: allocations[index],
        key: &keys[index],
        value: &values[index],
        content_digest: value_digest(&values[index]),
    });
    let locations = pool.write_batch(&writes).unwrap().locations;

    assert!(locations[1].data_offset % PAGE_SIZE as u64 != 0);
    let loaded = pool.read_entry(&keys[1], locations[1]);
    assert_eq!(loaded.value, Some(values[1].clone()));
    assert_eq!(loaded.data_frames, 2);
    assert_eq!(loaded.data_runs, 1);
    assert_eq!(loaded.data_bytes, PAGE_SIZE * 2);
}

#[test]
fn default_read_run_coalesces_one_mib_value() {
    let extent_size = 2 * 1024 * 1024;
    let options = ExtentStoreOptions::default().with_extent_size(extent_size);
    let layout = StoreLayout::create(
        ExtentStoreConfig::new(64 * 1024 * 1024).with_slot_size(PAGE_SIZE).with_options(options),
    )
    .unwrap();
    let mut pool = Pool::create(pool_layout(layout), options.read_run_size, options.write_run_size);
    pool.pool.direct_io = true;

    let key = key(1);
    let value = vec![0x5a; 1024 * 1024];
    let allocation = pool.allocate(CachePriority::Normal, stored_entry_len(&key, &value).unwrap());
    let location = pool
        .write_batch(&[EntryWrite {
            allocation,
            key: &key,
            value: &value,
            content_digest: value_digest(&value),
        }])
        .unwrap()
        .locations[0];

    let loaded = pool.read_entry(&key, location);
    assert_eq!(loaded.value, Some(value));
    assert_eq!(loaded.data_runs, 1);
    assert!(loaded.data_frames > 1);
}

#[test]
fn reopen_discards_uncheckpointed_current_tail() {
    let mut pool = create_pool();
    let value = vec![9; 512];
    let first_key = key(1);
    let stored_len = stored_entry_len(&first_key, &value).unwrap();
    let first = pool.allocate(CachePriority::High, stored_len);
    pool.write_batch(&[EntryWrite {
        allocation: first,
        key: &first_key,
        value: &value,
        content_digest: value_digest(&value),
    }])
    .unwrap();
    pool.sync_payload();
    pool.checkpoint_state().unwrap();

    let tail_key = key(2);
    let tail = pool.allocate(CachePriority::High, stored_len);
    pool.write_batch(&[EntryWrite {
        allocation: tail,
        key: &tail_key,
        value: &value,
        content_digest: value_digest(&value),
    }])
    .unwrap();
    pool.sync_payload();

    let mut reopened = pool.reopen(PAGE_SIZE * 4, PAGE_SIZE * 4).unwrap();
    let next = reopened.allocate(CachePriority::High, stored_len);
    assert_eq!(next.extent, tail.extent);
    assert_eq!(next.extent_offset, tail.extent_offset);
}

#[test]
fn pool_falls_back_to_the_older_valid_state_copy() {
    let mut pool = create_pool();
    pool.checkpoint_state().unwrap();
    let state = copy_state(&pool.pool.state);
    pool.disk.copies[state.active_page as usize] = None;

    let reopened = pool.reopen(PAGE_SIZE * 4, PAGE_SIZE * 4).unwrap();
    assert!(reopened.pool.state.state_generation < state.state_generation);

    let mut reopened = reopened;
    reopened.disk.copies = [None, None];
    assert!(matches!(reopened.reopen(PAGE_SIZE, PAGE_SIZE), Err(Error::InvalidSuperblock(_))));
}

#[test]
fn liveness_words_and_alignment() {
    assert_eq!(encode_liveness(3, 5), 3 << 32 | 5);
    assert_eq!(decode_liveness(encode_liveness(u32::MAX, 7)), (u32::MAX, 7));
    assert_eq!((align_down(4097), align_up(4097), align_up(4096)), (4096, Some(8192), Some(4096)));
    assert_eq!(align_up(u64::MAX), None);
    let layout = create_pool().pool.layout();
    let offset = layout.data_offset(2, 100).unwrap();
    assert_eq!(offset, 2 * layout.extent_size as u64 + 100);
    assert_eq!(layout.locate_data_offset(offset), Some((2, 100)));
    assert_eq!(layout.data_offset(layout.extent_count, 0), None);
    assert_eq!(select_victim(create_pool().pool.reclaim_candidates(), CachePriority::High, [0, 0, 0]), None);
}

#[test]
fn stale_victims_are_refused() {
    let mut pool = create_pool();
    pool.allocate(CachePriority::Normal, 10);
    let (victim, _) = pool.pool.reclaim_candidates().oldest(CachePriority::Normal).unwrap();
    let sealed = pool.pool.seal_current(victim).unwrap();
    pool.release(sealed).unwrap();
    assert!(pool.release(sealed).is_err());
    assert!(pool.pool.seal_current(victim).is_err());
}

#[test]
fn a_batch_is_written_in_the_order_of_its_places() {
    let mut pool = create_pool();
    let keys = [key(1), key(2), key(3)];
    let values = [vec![1; 3_000], vec![2; 3_000], vec![3; 100]];
    let allocations: Vec<EntryAllocation> = (0..3)
        .map(|index| pool.allocate(CachePriority::Normal, stored_entry_len(&keys[index], &values[index]).unwrap()))
        .collect();
    let writes: Vec<EntryWrite> = [2, 0, 1]
        .iter()
        .map(|index| EntryWrite {
            allocation: allocations[*index],
            key: &keys[*index],
            value: &values[*index],
            content_digest: value_digest(&values[*index]),
        })
        .collect();
    let result = pool.write_batch(&writes).unwrap();
    assert_eq!((result.data_runs, result.data_bytes), (1, PAGE_SIZE * 2));
    for (write, location) in writes.iter().zip(&result.locations) {
        assert_eq!(pool.read_entry(write.key, *location).value.as_deref(), Some(write.value));
    }

    let next = pool.allocate(CachePriority::Normal, 10);
    assert_eq!(next.extent_offset as usize, PAGE_SIZE * 2);
}
