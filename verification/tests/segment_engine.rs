//! The segment engine, run in memory: byte vectors are the files and a map is the index.

use std::collections::BTreeMap;

use foyer_extent::error::{Error, IoFailureKind};
use foyer_extent::format::{stored_entry_checksum, stored_entry_len, PAGE_SIZE};
use foyer_extent::model::{CachePriority, EntryKey, KeyDigest};
use foyer_extent::segment::batch::{SegmentWrite, SegmentWriteResult};
use foyer_extent::segment::config::{SegmentEngineConfig, SegmentEngineOptions};
use foyer_extent::segment::engine::{
    allocated_size, checkpoint_due, get_result, validate_blob, validate_index_size, validate_layout_options,
    validate_options, AllocationDecision, BatchAction, IndexInsertResult, InsertBatch, ReclaimResult,
};
use foyer_extent::segment::format::{OwnerRecord, SegmentLayout, SegmentLocation, SegmentRole, OWNER_RECORD_SIZE};
use foyer_extent::segment::io::{SegmentIoScheduler, WriteStep};
use foyer_extent::segment::operation::{BatchInsertResult, BlobInsert, GetResult, InsertOutcome};
use foyer_extent::segment::read::{get_blob, get_stored_blob, SegmentBlobReadResult, SegmentReadPlan};
use foyer_extent::segment::recovery::state_copy_len;
use foyer_extent::segment::store::{
    AllocatorCheckpoint, SegmentAllocation, SegmentAllocationResult, SegmentStore, SegmentVictim,
};
use foyer_extent::store::config::PriorityCapacityFloors;

fn key(index: u64) -> EntryKey {
    let mut bytes = [index as u8; 24];
    bytes[16..].copy_from_slice(&index.to_le_bytes());
    EntryKey::new(&bytes).unwrap()
}

fn full_slot_value(byte: u8) -> Vec<u8> {
    vec![byte; PAGE_SIZE - stored_entry_len(&key(0), &[]).unwrap()]
}

fn options() -> SegmentEngineOptions {
    SegmentEngineOptions::default()
        .with_segment_size(PAGE_SIZE * 8)
        .with_index_write_buffer_size(PAGE_SIZE * 4)
        .with_index_cache_size(1024 * 1024)
        .with_checkpoint_changes(usize::MAX)
}

fn config(capacity: u64) -> SegmentEngineConfig {
    SegmentEngineConfig::new(capacity).with_slot_size(PAGE_SIZE).with_options(options())
}

/// What outlives a process.
struct Files {
    data: Vec<u8>,
    owners: Vec<u8>,
    state: [Vec<u8>; 2],
}

struct Store {
    store: SegmentStore,
    files: Files,
}

impl Store {
    fn create(config: SegmentEngineConfig, read_run_size: usize, write_run_size: usize) -> Result<Store, Error> {
        let layout = SegmentLayout::create(config)?;
        let (store, image) =
            SegmentStore::create(layout, config.options.direct_io, read_run_size, write_run_size)?;
        let files = Files {
            data: vec![0; layout.data_file_size as usize],
            owners: vec![0; layout.owner_file_size as usize],
            state: [image, vec![0; layout.state_copy_size]],
        };
        Ok(Store { store, files })
    }

    fn reopen(self, direct_io: bool, read_run_size: usize, write_run_size: usize) -> Result<Store, Error> {
        let state_size = (self.files.state[0].len() + self.files.state[1].len()) as u64;
        assert_eq!(state_copy_len(state_size)?, self.files.state[0].len());
        let mut store = SegmentStore::open(
            &self.files.state[0],
            &self.files.state[1],
            self.files.data.len() as u64,
            self.files.owners.len() as u64,
            state_size,
            direct_io,
            read_run_size,
            write_run_size,
        )?;
        let tails = store.recovery_tails();
        let layout = store.layout();
        let owners: Vec<Vec<Option<OwnerRecord>>> = tails
            .iter()
            .map(|(segment, _)| {
                let used = store.state.segments[*segment as usize].used;
                (used..layout.slots_per_segment)
                    .map(|slot| {
                        let at = layout.physical_slot(*segment, slot).unwrap() as usize * OWNER_RECORD_SIZE;
                        OwnerRecord::decode(&self.files.owners[at..at + OWNER_RECORD_SIZE])
                    })
                    .collect()
            })
            .collect();
        store.recover_current_tails(&tails, &owners);
        Ok(Store { store, files: self.files })
    }

    fn write_batch(&mut self, writes: &[SegmentWrite]) -> Result<SegmentWriteResult, Error> {
        let plan = self.store.write_batch(writes)?;
        for run in &plan.data_runs {
            let (offset, bytes) = self.store.data_run_bytes(writes, run)?;
            self.files.data[offset as usize..offset as usize + bytes.len()].copy_from_slice(&bytes);
            self.store.data_run_written(bytes.len());
        }
        for run in &plan.owner_runs {
            let (offset, bytes) = self.store.owner_run_bytes(writes, run)?;
            self.files.owners[offset as usize..offset as usize + bytes.len()].copy_from_slice(&bytes);
            self.store.owner_run_written(bytes.len());
        }
        Ok(plan.result)
    }

    fn persist(&mut self, checkpoint: &AllocatorCheckpoint) -> Result<(), Error> {
        let at = self.store.checkpoint_offset(checkpoint) as usize / self.files.state[0].len();
        assert_eq!(at, checkpoint.next_page as usize);
        self.files.state[at] = checkpoint.encoded.clone();
        self.store.persist_checkpoint_state(checkpoint)
    }

    fn checkpoint_state(&mut self) -> Result<(), Error> {
        let checkpoint = self.store.prepare_checkpoint_state()?;
        self.persist(&checkpoint)
    }

    fn release(&mut self, victim: SegmentVictim) -> Result<(), Error> {
        let checkpoint = self.store.release(victim)?;
        self.persist(&checkpoint)
    }

    fn read_bytes(&self, plan: &SegmentReadPlan) -> Vec<u8> {
        let mut bytes = Vec::new();
        for run in &plan.runs {
            let raw = &self.files.data[run.offset as usize..run.offset as usize + run.physical_len];
            bytes.extend_from_slice(&raw[..run.logical_len]);
        }
        bytes
    }

    fn get_blob(&self, key: &EntryKey, location: SegmentLocation) -> SegmentBlobReadResult {
        match self.store.read_plan(location) {
            Some(plan) => get_blob(key, self.store.finish_read(location, &plan, self.read_bytes(&plan))),
            None => SegmentBlobReadResult { value: None, data_slots: 0, data_runs: 0, data_bytes: 0 },
        }
    }

    fn allocate(&mut self, priority: CachePriority, slots: u32) -> SegmentAllocation {
        match self.store.allocate(priority, slots).unwrap() {
            SegmentAllocationResult::Allocated(allocation) => allocation,
            SegmentAllocationResult::ReclaimRequired => panic!("test allocation needs reclaim"),
        }
    }
}

fn create_store() -> Store {
    Store::create(config(4 * 1024 * 1024), PAGE_SIZE * 4, PAGE_SIZE * 4).unwrap()
}

fn write<'a>(allocation: SegmentAllocation, key: &'a EntryKey, value: &'a [u8]) -> SegmentWrite<'a> {
    SegmentWrite {
        allocation,
        key,
        key_digest: KeyDigest::for_key(key),
        value,
        checksum: stored_entry_checksum(key, value),
    }
}

#[test]
fn store_batch_write_read_checkpoint_and_reopen() {
    let mut store = create_store();
    let values = (0..12).map(|index| vec![index as u8; 100 + index]).collect::<Vec<_>>();
    let allocations = (0..values.len()).map(|_| store.allocate(CachePriority::Normal, 1)).collect::<Vec<_>>();
    let keys = (0..values.len()).map(|index| key(index as u64)).collect::<Vec<_>>();
    let writes = values
        .iter()
        .enumerate()
        .map(|(index, value)| write(allocations[index], &keys[index], value))
        .collect::<Vec<_>>();
    let result = store.write_batch(&writes).unwrap();
    assert_eq!(result.data_runs, 3);
    assert_eq!(result.owner_runs, 1);
    let expected = |index: usize| SegmentBlobReadResult {
        value: Some(values[index].clone()),
        data_slots: 1,
        data_runs: 1,
        data_bytes: stored_entry_len(&keys[index], &values[index]).unwrap(),
    };
    for (index, location) in result.locations.iter().enumerate() {
        assert_eq!(store.get_blob(&keys[index], *location), expected(index));
    }
    store.checkpoint_state().unwrap();
    let layout = store.store.layout();

    let reopened = store.reopen(false, PAGE_SIZE * 4, PAGE_SIZE * 4).unwrap();
    assert_eq!(reopened.store.layout(), layout);
    for (index, location) in result.locations.iter().enumerate() {
        assert_eq!(reopened.get_blob(&keys[index], *location), expected(index));
    }
    let plan = reopened.store.read_plan(result.locations[3]).unwrap();
    let read = reopened.store.finish_read(result.locations[3], &plan, reopened.read_bytes(&plan));
    assert_eq!(get_stored_blob(read), Some((keys[3].clone(), values[3].clone())));
}

#[test]
fn store_point_read_rechecks_generation_after_payload_io() {
    let mut store = create_store();
    let old_value = vec![0x11; 512];
    let mut replacement = vec![0x22; 512];
    replacement[508..].copy_from_slice(&[0xce, 0xe0, 0x15, 0xb2]);
    let key = key(1);
    let checksum = stored_entry_checksum(&key, &old_value);
    assert_ne!(old_value, replacement);
    assert_eq!(stored_entry_checksum(&key, &replacement), checksum);

    let allocation = store.allocate(CachePriority::Normal, 1);
    let location = store.write_batch(&[write(allocation, &key, &old_value)]).unwrap().locations[0];
    let (victim, is_current) = store.store.reclaim_candidates().oldest(CachePriority::Normal).unwrap();
    assert!(is_current);
    let victim = store.store.seal_current(victim).unwrap();

    let plan = store.store.read_plan(location).unwrap();
    store.release(victim).unwrap();
    let replacement_allocation = store.allocate(CachePriority::Normal, 1);
    assert_eq!(replacement_allocation.physical_slot, allocation.physical_slot);
    store.write_batch(&[write(replacement_allocation, &key, &replacement)]).unwrap();

    let value = store.store.finish_read(location, &plan, store.read_bytes(&plan));
    assert_eq!(value.value, None);
    assert!(store.store.read_plan(location).is_none());
}

#[test]
fn reopen_recovers_uncheckpointed_current_tail() {
    let mut store = create_store();
    let allocation = store.allocate(CachePriority::High, 1);
    store.checkpoint_state().unwrap();
    let value = vec![9; 512];
    store.write_batch(&[write(allocation, &key(1), &value)]).unwrap();

    let mut reopened = store.reopen(false, PAGE_SIZE * 4, PAGE_SIZE * 4).unwrap();
    let next = reopened.allocate(CachePriority::High, 1);
    assert_eq!(next.segment, allocation.segment);
    assert_eq!(next.slot, allocation.slot + 1);
}

#[test]
fn reopen_accepts_owners_past_the_checkpointed_tail() {
    let mut store = create_store();
    let first = store.allocate(CachePriority::High, 1);
    store.write_batch(&[write(first, &key(1), &[1; 10])]).unwrap();
    store.checkpoint_state().unwrap();
    let second = store.allocate(CachePriority::High, 2);
    let value = vec![2; PAGE_SIZE + 5];
    let location = store.write_batch(&[write(second, &key(2), &value)]).unwrap().locations[0];

    let mut reopened = store.reopen(false, PAGE_SIZE * 4, PAGE_SIZE * 4).unwrap();
    assert_eq!(reopened.get_blob(&key(2), location).value, Some(value));
    let next = reopened.allocate(CachePriority::High, 1);
    assert_eq!((next.segment, next.slot), (second.segment, second.slot + 2));
    assert!(next.sequence > second.sequence);
}

#[test]
fn store_falls_back_to_the_older_valid_state_copy() {
    let mut store = create_store();
    store.checkpoint_state().unwrap();
    let generation = store.store.state.generation;
    let active_page = store.store.state.active_page as usize;
    store.files.state[active_page][0] = 0xff;

    let mut reopened = store.reopen(false, PAGE_SIZE * 4, PAGE_SIZE * 4).unwrap();
    assert!(reopened.store.state.generation < generation);

    reopened.files.state[0][0] = 0xff;
    reopened.files.state[1][0] = 0xff;
    assert!(matches!(reopened.reopen(false, PAGE_SIZE, PAGE_SIZE), Err(Error::InvalidSuperblock(_))));
    assert!(state_copy_len(0).is_err());
    assert!(state_copy_len(3).is_err());
}

#[test]
fn an_interrupted_reclaim_is_found_again_and_completed() {
    let mut store = create_store();
    let slots = store.store.layout().slots_per_segment;
    store.allocate(CachePriority::Normal, slots);
    store.checkpoint_state().unwrap();
    let (victim, is_current) = store.store.reclaim_candidates().oldest(CachePriority::Normal).unwrap();
    assert!(is_current);
    let victim = store.store.seal_current(victim).unwrap();
    let (transaction, image) = store.store.begin_reclaim(victim).unwrap();
    store.persist(&image).unwrap();
    assert_eq!(store.store.pending_reclaim(), Some(transaction));

    let mut reopened = store.reopen(false, PAGE_SIZE, PAGE_SIZE).unwrap();
    let pending = reopened.store.pending_reclaim().unwrap();
    assert_eq!((pending.source.segment, pending.target), (victim.segment, transaction.target));
    let moved = reopened.store.allocate_reclaim_target(pending, 1).unwrap().unwrap();
    assert_eq!((moved.segment, moved.slot), (transaction.target, 0));
    let image = reopened.store.finish_reclaim(pending).unwrap();
    reopened.persist(&image).unwrap();
    assert!(reopened.store.pending_reclaim().is_none());
    assert_eq!(reopened.store.state.segments[victim.segment as usize].role, SegmentRole::Reserve);
}

/// The engine: the index is a map that becomes durable with a checkpoint.
struct Engine {
    store: Store,
    options: SegmentEngineOptions,
    index: BTreeMap<[u8; 24], SegmentLocation>,
    durable: BTreeMap<[u8; 24], SegmentLocation>,
    index_writes: u64,
}

impl Engine {
    fn create(config: SegmentEngineConfig, floors: PriorityCapacityFloors) -> Result<Engine, Error> {
        validate_options(config.options, floors, true)?;
        let layout = SegmentLayout::create(config)?;
        validate_layout_options(layout, config.options, floors)?;
        Ok(Engine {
            store: Store::create(config, config.options.read_run_size, config.options.write_run_size)?,
            options: config.options,
            index: BTreeMap::new(),
            durable: BTreeMap::new(),
            index_writes: 0,
        })
    }

    fn reopen(self, options: SegmentEngineOptions) -> Result<Engine, Error> {
        validate_options(options, PriorityCapacityFloors::default(), true)?;
        let mut store = self.store.reopen(options.direct_io, options.read_run_size, options.write_run_size)?;
        if let Some(transaction) = store.store.pending_reclaim() {
            let image = store.store.finish_reclaim(transaction)?;
            store.persist(&image)?;
        }
        validate_layout_options(store.store.layout(), options, PriorityCapacityFloors::default())?;
        Ok(Engine { store, options, index: self.durable.clone(), durable: self.durable, index_writes: 0 })
    }

    fn get_with_stats(&self, key: &EntryKey) -> GetResult {
        match self.index.get(KeyDigest::for_key(key).as_bytes()) {
            Some(location) => get_result(*location, self.store.get_blob(key, *location)),
            None => GetResult::default(),
        }
    }

    fn get(&self, key: &EntryKey) -> Option<Vec<u8>> {
        self.get_with_stats(key).value
    }

    fn insert(&mut self, key: &EntryKey, value: &[u8], priority: CachePriority) -> Result<InsertOutcome, Error> {
        Ok(self.insert_batch_with_stats(&[BlobInsert::new(key, value, priority)])?.outcomes[0])
    }

    fn insert_batch_with_stats(&mut self, inserts: &[BlobInsert]) -> Result<BatchInsertResult, Error> {
        let mut batch = InsertBatch::new(inserts.to_vec(), self.store.store.layout())?;
        loop {
            let mut action = batch.next();
            if let BatchAction::Probe { key_digest, .. } = action {
                action = batch.probed(self.index.get(key_digest.as_bytes()).copied(), true);
            }
            if let BatchAction::Allocate { priority, slots } = action {
                let decision = self.decide(priority, slots, !batch.pending.is_empty())?;
                action = batch.allocated(decision);
            }
            match action {
                BatchAction::Publish => {
                    let writes = batch.writes();
                    let physical = self.store.write_batch(&writes)?;
                    let inserts = batch.index_inserts(&physical);
                    assert_eq!(inserts.len(), writes.len());
                    let outcomes = inserts
                        .iter()
                        .map(|(digest, location)| match self.index.insert(*digest.as_bytes(), *location) {
                            Some(_) => InsertOutcome::Updated,
                            None => InsertOutcome::Inserted,
                        })
                        .collect();
                    batch.published(&physical, &IndexInsertResult { outcomes, write_runs: 0, written_bytes: 0 });
                }
                BatchAction::Finish => break,
                _ => {}
            }
        }
        let (published, result) = batch.finish();
        if checkpoint_due(published, self.options.checkpoint_changes) {
            self.sync()?;
        }
        Ok(result)
    }

    fn decide(&mut self, priority: CachePriority, slots: u32, pending: bool) -> Result<AllocationDecision, Error> {
        loop {
            match self.store.store.allocate(priority, slots)? {
                SegmentAllocationResult::Allocated(allocation) => {
                    return Ok(AllocationDecision::Allocated(allocation, ReclaimResult::default()));
                }
                SegmentAllocationResult::ReclaimRequired if pending => {
                    return Ok(AllocationDecision::FlushRequired(ReclaimResult::default()));
                }
                SegmentAllocationResult::ReclaimRequired => {
                    let Some((victim, is_current)) = self.store.store.reclaim_candidates().oldest(priority) else {
                        return Ok(AllocationDecision::Rejected(ReclaimResult::default()));
                    };
                    let victim = if is_current { self.store.store.seal_current(victim)? } else { victim };
                    self.store.release(victim)?;
                }
            }
        }
    }

    fn remove(&mut self, key: &EntryKey) -> bool {
        self.index.remove(KeyDigest::for_key(key).as_bytes()).is_some()
    }

    fn sync(&mut self) -> Result<(), Error> {
        self.store.checkpoint_state()?;
        self.durable = self.index.clone();
        self.index_writes += 1;
        Ok(())
    }
}

fn engine(capacity: u64) -> Engine {
    Engine::create(config(capacity), PriorityCapacityFloors::default()).unwrap()
}

#[test]
fn engine_insert_get_update_remove_and_reopen() {
    let mut engine = engine(4 * 1024 * 1024);
    assert_eq!(engine.insert(&key(1), &[1; 100], CachePriority::Normal).unwrap(), InsertOutcome::Inserted);
    assert_eq!(engine.get(&key(1)), Some(vec![1; 100]));
    assert_eq!(engine.insert(&key(1), &[2; 200], CachePriority::High).unwrap(), InsertOutcome::Updated);
    assert_eq!(engine.get(&key(1)), Some(vec![2; 200]));
    engine.insert(&key(2), &[3; 50], CachePriority::Low).unwrap();
    assert!(engine.remove(&key(2)));
    engine.sync().unwrap();
    let layout = engine.store.store.layout();

    let reopened = engine.reopen(options()).unwrap();
    assert_eq!(reopened.store.store.layout(), layout);
    assert_eq!(reopened.get(&key(1)), Some(vec![2; 200]));
    assert!(reopened.get(&key(2)).is_none());
}

/// Runs a history and compares every lookup with the last value of its key: through
/// overwritten and repeated keys, removals and segments that are given back.
#[test]
fn a_segment_hit_is_what_was_last_inserted_after_any_history() {
    let mut engine = engine(1024 * 1024);
    let mut contents: BTreeMap<u64, Vec<u8>> = BTreeMap::new();
    let mut hits = 0;
    for step in 0..400_u64 {
        let (first, second) = (step * 7 % 23, step * 11 % 29);
        let values = [step, step + 1, step + 2].map(|seed| vec![seed as u8; 300 + (seed % 9) as usize * 700]);
        let result = engine
            .insert_batch_with_stats(&[
                BlobInsert::new(&key(first), &values[0], CachePriority::Normal),
                BlobInsert::new(&key(second), &values[1], CachePriority::High),
                BlobInsert::new(&key(first), &values[2], CachePriority::Normal),
            ])
            .unwrap();
        for (outcome, (index, value)) in
            result.outcomes.iter().zip([(first, &values[0]), (second, &values[1]), (first, &values[2])])
        {
            if *outcome != InsertOutcome::Rejected {
                contents.insert(index, value.clone());
            }
        }
        if step % 5 == 0 {
            engine.remove(&key(step % 23));
            contents.remove(&(step % 23));
            assert!(engine.get(&key(step % 23)).is_none());
        }
        for index in 0..32 {
            if let Some(found) = engine.get(&key(index)) {
                assert_eq!(Some(&found), contents.get(&index));
                hits += 1;
            }
        }
    }
    assert!(hits > 400);
}

#[test]
fn reopen_rejects_a_different_segment_size() {
    let mut engine = engine(4 * 1024 * 1024);
    engine.sync().unwrap();
    let error = engine.reopen(options().with_segment_size(PAGE_SIZE * 16)).err().unwrap();
    assert!(matches!(error, Error::InvalidConfig(_)));
}

#[test]
fn index_preserves_segment_publication_and_reopens() {
    let mut engine = engine(32 * 1024 * 1024);
    assert_eq!(engine.insert(&key(1), &[1; 100], CachePriority::Normal).unwrap(), InsertOutcome::Inserted);
    assert_eq!(
        engine.insert(&key(2), &[2; PAGE_SIZE + 17], CachePriority::High).unwrap(),
        InsertOutcome::Inserted
    );
    engine.sync().unwrap();

    let mut engine = engine.reopen(options()).unwrap();
    assert_eq!(engine.get(&key(1)), Some(vec![1; 100]));
    assert_eq!(engine.get(&key(2)), Some(vec![2; PAGE_SIZE + 17]));
    assert!(engine.remove(&key(1)));
    engine.sync().unwrap();

    let engine = engine.reopen(options()).unwrap();
    assert_eq!(engine.get(&key(1)), None);
    assert_eq!(engine.get(&key(2)), Some(vec![2; PAGE_SIZE + 17]));
}

#[test]
fn multi_slot_blob_respects_read_run_limit_and_reopens() {
    let options = options().with_read_run_size(PAGE_SIZE);
    let mut engine =
        Engine::create(config(4 * 1024 * 1024).with_options(options), PriorityCapacityFloors::default()).unwrap();
    let value = (0..PAGE_SIZE * 3 + 17).map(|offset| (offset % 251) as u8).collect::<Vec<_>>();

    assert_eq!(engine.insert(&key(7), &value, CachePriority::High).unwrap(), InsertOutcome::Inserted);
    let stats = engine.store.store.physical_write_stats();
    assert_eq!(stats.data_bytes, (PAGE_SIZE * 4) as u64);
    assert_eq!(stats.owner_bytes, (OWNER_RECORD_SIZE * 4) as u64);
    let read = engine.get_with_stats(&key(7));
    assert_eq!(read.value, Some(value.clone()));
    assert_eq!(read.data_slots, 4);
    assert_eq!(read.data_runs, 4);

    engine.sync().unwrap();
    let reopened = engine.reopen(options).unwrap();
    assert_eq!(reopened.get(&key(7)), Some(value));
}

#[test]
fn engine_physical_write_stats_separate_payload_and_metadata() {
    let mut engine = engine(4 * 1024 * 1024);
    let values = [full_slot_value(1), full_slot_value(2)];
    engine
        .insert_batch_with_stats(&[
            BlobInsert::new(&key(1), &values[0], CachePriority::Normal),
            BlobInsert::new(&key(2), &values[1], CachePriority::Normal),
        ])
        .unwrap();

    let before_checkpoint = engine.store.store.physical_write_stats();
    assert_eq!(before_checkpoint.data_runs, 1);
    assert_eq!(before_checkpoint.data_bytes, (PAGE_SIZE * 2) as u64);
    assert_eq!(before_checkpoint.owner_runs, 1);
    assert_eq!(before_checkpoint.owner_bytes, (OWNER_RECORD_SIZE * 2) as u64);
    assert_eq!(before_checkpoint.index_runs, 0);
    assert_eq!(before_checkpoint.allocator_runs, 0);

    engine.sync().unwrap();
    let after_checkpoint = engine.store.store.physical_write_stats();
    assert!(engine.index_writes > 0);
    assert_eq!(after_checkpoint.allocator_runs, 1);
    assert_eq!(after_checkpoint.allocator_bytes, engine.store.store.layout().state_copy_size as u64);
    assert_eq!(
        after_checkpoint.total_bytes(),
        after_checkpoint.data_bytes
            + after_checkpoint.owner_bytes
            + after_checkpoint.index_bytes
            + after_checkpoint.allocator_bytes
    );
}

#[test]
fn direct_io_handles_partial_slots_and_reopens() {
    let options = options().with_direct_io(true);
    let mut engine =
        Engine::create(config(2 * 1024 * 1024).with_options(options), PriorityCapacityFloors::default()).unwrap();
    assert!(engine.store.store.direct_io);
    let value = vec![9; PAGE_SIZE / 2 + 17];
    let full = full_slot_value(8);
    engine.insert(&key(1), &value, CachePriority::Normal).unwrap();
    engine.insert(&key(2), &full, CachePriority::Normal).unwrap();
    let partial_read = engine.get_with_stats(&key(1));
    assert_eq!(partial_read.value, Some(value.clone()));
    assert_eq!(partial_read.data_slots, 1);
    assert_eq!(partial_read.data_runs, 1);
    assert_eq!(partial_read.data_bytes, PAGE_SIZE);
    let full_read = engine.get_with_stats(&key(2));
    assert_eq!(full_read.value, Some(full.clone()));
    assert_eq!(full_read.data_slots, 1);
    assert_eq!(full_read.data_runs, 1);
    assert_eq!(full_read.data_bytes, PAGE_SIZE);
    engine.sync().unwrap();

    let engine = engine.reopen(options).unwrap();
    assert_eq!(engine.get(&key(1)), Some(value));
    assert_eq!(engine.get(&key(2)), Some(full));
}

#[test]
fn engine_batch_is_sequential_and_preserves_same_key_order() {
    let mut engine = engine(4 * 1024 * 1024);
    let first = vec![1; 256];
    let second = vec![2; 512];
    let third = vec![3; 768];
    let result = engine
        .insert_batch_with_stats(&[
            BlobInsert::new(&key(1), &first, CachePriority::Low),
            BlobInsert::new(&key(2), &second, CachePriority::Normal),
            BlobInsert::new(&key(1), &third, CachePriority::High),
        ])
        .unwrap();
    assert_eq!(result.outcomes.len(), 3);
    assert_eq!(engine.get(&key(1)), Some(third));
    assert_eq!(engine.get(&key(2)), Some(second));
    assert!(result.write_runs <= 8);
}

#[test]
fn batch_larger_than_capacity_never_reuses_an_unpublished_segment() {
    let mut engine = engine(2 * 1024 * 1024);
    let inserts = engine.store.store.layout().usable_entries as usize * 2;
    let values = (0..inserts).map(|index| vec![(index % 251) as u8; 16]).collect::<Vec<_>>();
    let keys = (0..inserts).map(|index| key(index as u64)).collect::<Vec<_>>();
    let batch = values
        .iter()
        .zip(&keys)
        .map(|(value, key)| BlobInsert::new(key, value, CachePriority::Normal))
        .collect::<Vec<_>>();

    let result = engine.insert_batch_with_stats(&batch).unwrap();
    assert_eq!(result.outcomes.len(), inserts);
    for (index, expected) in values.iter().enumerate() {
        if let Some(value) = engine.get(&key(index as u64)) {
            assert_eq!(&value, expected);
        }
    }
}

#[test]
fn engine_hot_update_batch_larger_than_capacity_preserves_fifo_values() {
    let mut engine = engine(512 * 1024);
    let entries = engine.store.store.layout().usable_entries as usize;
    for index in 0..entries {
        engine.insert(&key(index as u64), &[7; 16], CachePriority::Normal).unwrap();
    }
    for index in 0..entries {
        for _ in 0..3 {
            assert_eq!(engine.get(&key(index as u64)), Some(vec![7; 16]));
        }
    }

    let values = (0..entries * 2).map(|index| vec![(index / entries + 1) as u8; 16]).collect::<Vec<_>>();
    let keys = (0..entries).map(|index| key(index as u64)).collect::<Vec<_>>();
    let batch = values
        .iter()
        .enumerate()
        .map(|(index, value)| BlobInsert::new(&keys[index % entries], value, CachePriority::Normal))
        .collect::<Vec<_>>();
    let result = engine.insert_batch_with_stats(&batch).unwrap();
    assert_eq!(result.outcomes.len(), batch.len());

    for index in 0..entries {
        if let Some(value) = engine.get(&key(index as u64)) {
            assert_eq!(value, vec![2; 16]);
        }
    }
}

#[test]
fn engine_reopen_completes_an_interrupted_reclaim_transaction() {
    let mut engine = engine(2 * 1024 * 1024);
    let entries = engine.store.store.layout().usable_entries as usize;
    for index in 0..entries {
        assert_ne!(
            engine.insert(&key(index as u64), &[7; 16], CachePriority::Normal).unwrap(),
            InsertOutcome::Rejected
        );
    }
    engine.sync().unwrap();
    assert_eq!(
        engine.store.store.allocate(CachePriority::Normal, 1).unwrap(),
        SegmentAllocationResult::ReclaimRequired
    );
    let (victim, is_current) = engine.store.store.reclaim_candidates().oldest(CachePriority::Normal).unwrap();
    assert!(!is_current);
    let (_, image) = engine.store.store.begin_reclaim(victim).unwrap();
    engine.store.persist(&image).unwrap();
    assert!(engine.store.store.pending_reclaim().is_some());

    let mut reopened = engine.reopen(options()).unwrap();
    assert!(reopened.store.store.pending_reclaim().is_none());
    assert_ne!(
        reopened.insert(&key(100_000), &[8; 16], CachePriority::Normal).unwrap(),
        InsertOutcome::Rejected
    );
    reopened.sync().unwrap();
    assert_eq!(reopened.get(&key(100_000)), Some(vec![8; 16]));
}

#[test]
fn engine_invalid_priority_capacity_is_rejected() {
    let error = Engine::create(config(2 * 1024 * 1024), PriorityCapacityFloors::new(40, 61)).err().unwrap();
    assert!(matches!(error, Error::InvalidConfig(_)));
}

#[test]
fn equal_inserts_are_left_alone_and_refusals_reported() {
    let mut engine = engine(4 * 1024 * 1024);
    let layout = engine.store.store.layout();
    engine.insert(&key(1), &[1; 100], CachePriority::Normal).unwrap();
    let before = engine.store.store.physical_write_stats();
    assert_eq!(engine.insert(&key(1), &[1; 100], CachePriority::Normal).unwrap(), InsertOutcome::Updated);
    assert_eq!(engine.store.store.physical_write_stats(), before);

    let unknown = key(2);
    let mut batch =
        InsertBatch::new(vec![BlobInsert::new(&unknown, &[1], CachePriority::Low)], layout).unwrap();
    assert!(matches!(batch.next(), BatchAction::Probe { priority: CachePriority::Low, .. }));
    assert_eq!(batch.probed(None, false), BatchAction::Proceed);
    assert_eq!(batch.next(), BatchAction::Finish);
    assert_eq!(batch.finish().1.outcomes, vec![InsertOutcome::Rejected]);

    assert!(matches!(validate_blob(&key(1), &[], 100), Err(Error::EmptyValue)));
    assert!(matches!(
        validate_blob(&key(1), &[0; 61], 100),
        Err(Error::StoredEntryTooLarge { len: 101, maximum: 100 })
    ));
    assert!(matches!(allocated_size(u64::MAX, 1), Err(Error::InvalidConfig(_))));
    assert_eq!(allocated_size(2, 3).unwrap(), 5);
    assert!(validate_index_size(layout.index_capacity_bytes, layout).is_ok());
    assert!(validate_index_size(layout.index_capacity_bytes + 1, layout).is_err());
}

#[test]
fn zero_read_priority_bypasses_admission() {
    let mut scheduler = SegmentIoScheduler::new(1, 0).unwrap();
    scheduler.acquire_read();
    assert_eq!(scheduler.stats().active_reads, 0);
    scheduler.release_read();
    scheduler.read(|| Ok::<_, std::io::Error>(())).unwrap();
    assert!(scheduler.request_write().is_none());
    assert_eq!(scheduler.stats().active_writes, 0);
    scheduler.write(|| Ok::<_, std::io::Error>(())).unwrap();
    assert!(!scheduler.stats().enabled());
    assert_eq!(scheduler.stats().write_operations, 0);
}

#[test]
fn writes_yield_to_reads_but_not_for_ever() {
    let mut scheduler = SegmentIoScheduler::new(1, 100).unwrap();
    scheduler.acquire_read();
    let mut ticket = scheduler.request_write().unwrap();
    assert_eq!(scheduler.poll_write(&mut ticket, 30), WriteStep::WaitAtMost(70));
    assert_eq!(scheduler.poll_write(&mut ticket, 100), WriteStep::Admitted);
    scheduler.record_wait(100, ticket);
    let mut second = scheduler.request_write().unwrap();
    assert_eq!(scheduler.poll_write(&mut second, 500), WriteStep::Wait);
    assert_eq!(scheduler.stats().waiting_writes, 1);
    scheduler.release_write();
    assert!(scheduler.release_read());
    assert_eq!(scheduler.poll_write(&mut second, 600), WriteStep::Admitted);
    scheduler.record_wait(600, second);
    scheduler.release_write();
    let stats = scheduler.stats();
    assert_eq!((stats.write_operations, stats.read_priority_waits, stats.write_limit_waits), (2, 1, 1));
    assert_eq!((stats.total_write_wait_nanos, stats.maximum_write_wait_nanos), (700, 600));
    let failure = SegmentIoScheduler::new(0, 1).unwrap_err();
    assert_eq!(failure.kind, IoFailureKind::InvalidInput);
    assert_eq!(failure.message, "Extent write I/O concurrency must be positive");
    assert_eq!(
        Error::io("configure segment I/O scheduler", failure).message(),
        "Extent I/O error (configure segment I/O scheduler): Extent write I/O concurrency must be positive"
    );
}

#[test]
fn batches_that_overlap_or_end_past_all_slots_are_refused() {
    let mut store = create_store();
    let allocation = store.allocate(CachePriority::Normal, 2);
    let value = vec![7; PAGE_SIZE + 1];
    let at = |physical_slot: u64| SegmentAllocation { physical_slot, ..allocation };
    let (first, second) = (key(1), key(2));
    let refused = |writes: &[SegmentWrite]| store.store.write_batch(writes).err().unwrap().message();
    assert_eq!(
        refused(&[write(at(u64::MAX), &first, &value), write(at(u64::MAX), &second, &value)]),
        "invalid ExtentStore superblock: segment state: segment allocation end overflows u64"
    );
    assert_eq!(
        refused(&[write(at(5), &first, &value), write(at(4), &second, &value)]),
        "invalid ExtentStore superblock: segment state: segment batch allocations overlap"
    );
    assert_eq!(
        refused(&[write(at(u64::MAX), &first, &[])]),
        "entry value must not be empty"
    );
}

#[test]
fn sizes_are_checked_before_shares() {
    let floors = PriorityCapacityFloors::new(255, 255);
    let layout = SegmentLayout::create(config(4 * 1024 * 1024)).unwrap();
    let layout = SegmentLayout { segment_count: u32::MAX, ..layout };
    let error = validate_layout_options(layout, options().with_segment_size(PAGE_SIZE), floors).unwrap_err();
    assert!(error.message().contains("does not match the stored layout"));
}

#[test]
fn a_batch_is_written_in_the_order_of_its_slots() {
    let mut store = create_store();
    let keys = [key(1), key(2), key(3)];
    let values = [vec![1; 100], vec![2; PAGE_SIZE + 1], vec![3; 7]];
    let allocations =
        [store.allocate(CachePriority::Low, 1), store.allocate(CachePriority::Low, 2), store.allocate(CachePriority::Low, 1)];
    let writes: Vec<SegmentWrite> =
        [2, 0, 1].iter().map(|index| write(allocations[*index], &keys[*index], &values[*index])).collect();
    let result = store.write_batch(&writes).unwrap();
    assert_eq!((result.data_runs, result.owner_runs, result.data_bytes), (1, 1, PAGE_SIZE * 4));
    for (write, location) in writes.iter().zip(&result.locations) {
        assert_eq!(store.get_blob(write.key, *location).value.as_deref(), Some(write.value));
    }
}
