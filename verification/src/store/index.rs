//! The entry index: recent mutations over a durable base.
//!
//! The newest mutations are active. A checkpoint freezes them while they are written to
//! the base. Whoever owns the base reads it and writes to it; the index says what is
//! visible, and when a lookup of the base must be repeated.

use vstd::prelude::*;

use crate::counter::sum64;
use crate::error::{config_error, index_error, io_failure, superblock_error, Error, IoFailure, IoFailureKind};
use crate::model::KeyDigest;
use crate::store::operation::{BatchInsertResult, InsertOutcome};
use crate::store::overlay::{comes_before, has_entry, is_entry, lemma_entry, Mutation, Overlay};
use crate::store::pool::{ExtentPool, PackedLocation, PackedModel, PoolLayout};
use crate::store::read::is_live;
use crate::store::stats::{no_writes, PhysicalWriteStats};

verus! {

/// Counts of the index and its base.
#[derive(Debug, Clone, Copy, PartialEq, Eq, Structural)]
pub struct EntryIndexStats {
    pub manifest_generation: u64,
    pub last_sequence: u64,
    pub indexed_entries_upper_bound: u64,
    pub pending_changes: u64,
    pub disk_capacity_bytes: u64,
    pub disk_used_bytes: u64,
    pub wal_bytes: u64,
    pub sst_files: u64,
    pub sst_bytes: u64,
    pub mutable_entries: u64,
    pub immutable_memtables: u64,
    pub cache_resident_bytes: u64,
    pub stale_location_checks: u64,
    pub stale_location_discards: u64,
    pub background_running: bool,
    pub background_failed: bool,
}

/// Reads of the index's base.
#[derive(Debug, Clone, Copy, PartialEq, Eq, Structural)]
pub struct EntryIndexReadStats {
    pub cache_hits: u64,
    pub cache_misses: u64,
    pub read_operations: u64,
    pub read_bytes: u64,
    pub filter_checks: u64,
    pub filter_positives: u64,
    pub false_positives: u64,
    pub data_reads: u64,
}

impl Default for EntryIndexReadStats {
    fn default() -> (stats: EntryIndexReadStats)
        ensures
            stats == (EntryIndexReadStats {
                cache_hits: 0,
                cache_misses: 0,
                read_operations: 0,
                read_bytes: 0,
                filter_checks: 0,
                filter_positives: 0,
                false_positives: 0,
                data_reads: 0,
            }),
    {
        EntryIndexReadStats {
            cache_hits: 0,
            cache_misses: 0,
            read_operations: 0,
            read_bytes: 0,
            filter_checks: 0,
            filter_positives: 0,
            false_positives: 0,
            data_reads: 0,
        }
    }
}

/// What the durable base reports of itself.
#[derive(Debug, Clone, Copy, PartialEq, Eq, Structural, Default)]
pub struct BaseStats {
    pub manifest_generation: u64,
    pub next_sequence: u64,
    pub disk_capacity_bytes: u64,
    pub disk_used_bytes: u64,
    pub wal_bytes: u64,
    pub table_files: u64,
    pub table_bytes: u64,
    pub mutable_entries: u64,
    pub immutable_memtables: u64,
    pub cache_resident_bytes: u64,
    pub compaction_filter_checks: u64,
    pub compaction_filter_discards: u64,
    pub background_running: bool,
    pub background_failed: bool,
    pub wal_write_operations: u64,
    pub wal_write_bytes: u64,
    pub wal_sync_operations: u64,
    pub table_write_operations: u64,
    pub table_write_bytes: u64,
    pub table_sync_operations: u64,
    pub manifest_write_operations: u64,
    pub manifest_write_bytes: u64,
    pub manifest_sync_operations: u64,
    pub flush_operations: u64,
    pub compaction_operations: u64,
    pub compaction_input_bytes: u64,
    pub compaction_output_bytes: u64,
    pub cache_hits: u64,
    pub cache_misses: u64,
    pub table_read_operations: u64,
    pub table_read_bytes: u64,
    pub point_filter_checks: u64,
    pub point_filter_positives: u64,
    pub point_false_positives: u64,
    pub point_data_reads: u64,
}

/// The writes of the base: its log, its tables and its manifest, and all three together.
pub fn physical_write_stats(base: &BaseStats) -> (stats: PhysicalWriteStats)
    ensures
        stats == (PhysicalWriteStats {
            index_runs: sum64(
                sum64(base.wal_write_operations, base.table_write_operations),
                base.manifest_write_operations,
            ),
            index_bytes: sum64(
                sum64(base.wal_write_bytes, base.table_write_bytes),
                base.manifest_write_bytes,
            ),
            index_syncs: sum64(
                sum64(base.wal_sync_operations, base.table_sync_operations),
                base.manifest_sync_operations,
            ),
            index_wal_runs: base.wal_write_operations,
            index_wal_bytes: base.wal_write_bytes,
            index_wal_syncs: base.wal_sync_operations,
            index_sst_runs: base.table_write_operations,
            index_sst_bytes: base.table_write_bytes,
            index_sst_syncs: base.table_sync_operations,
            index_manifest_runs: base.manifest_write_operations,
            index_manifest_bytes: base.manifest_write_bytes,
            index_manifest_syncs: base.manifest_sync_operations,
            index_flushes: base.flush_operations,
            index_compactions: base.compaction_operations,
            index_compaction_input_bytes: base.compaction_input_bytes,
            index_compaction_output_bytes: base.compaction_output_bytes,
            ..no_writes()
        }),
{
    let mut stats = PhysicalWriteStats::default();
    stats.index_runs = base.wal_write_operations.saturating_add(base.table_write_operations).saturating_add(
        base.manifest_write_operations,
    );
    stats.index_bytes = base.wal_write_bytes.saturating_add(base.table_write_bytes).saturating_add(
        base.manifest_write_bytes,
    );
    stats.index_syncs = base.wal_sync_operations.saturating_add(base.table_sync_operations).saturating_add(
        base.manifest_sync_operations,
    );
    stats.index_wal_runs = base.wal_write_operations;
    stats.index_wal_bytes = base.wal_write_bytes;
    stats.index_wal_syncs = base.wal_sync_operations;
    stats.index_sst_runs = base.table_write_operations;
    stats.index_sst_bytes = base.table_write_bytes;
    stats.index_sst_syncs = base.table_sync_operations;
    stats.index_manifest_runs = base.manifest_write_operations;
    stats.index_manifest_bytes = base.manifest_write_bytes;
    stats.index_manifest_syncs = base.manifest_sync_operations;
    stats.index_flushes = base.flush_operations;
    stats.index_compactions = base.compaction_operations;
    stats.index_compaction_input_bytes = base.compaction_input_bytes;
    stats.index_compaction_output_bytes = base.compaction_output_bytes;
    stats
}

/// The reads of the base.
pub fn read_stats(base: &BaseStats) -> (stats: EntryIndexReadStats)
    ensures
        stats == (EntryIndexReadStats {
            cache_hits: base.cache_hits,
            cache_misses: base.cache_misses,
            read_operations: base.table_read_operations,
            read_bytes: base.table_read_bytes,
            filter_checks: base.point_filter_checks,
            filter_positives: base.point_filter_positives,
            false_positives: base.point_false_positives,
            data_reads: base.point_data_reads,
        }),
{
    EntryIndexReadStats {
        cache_hits: base.cache_hits,
        cache_misses: base.cache_misses,
        read_operations: base.table_read_operations,
        read_bytes: base.table_read_bytes,
        filter_checks: base.point_filter_checks,
        filter_positives: base.point_filter_positives,
        false_positives: base.point_false_positives,
        data_reads: base.point_data_reads,
    }
}

/// Just the read calls and bytes of the base.
pub fn io_read_stats(read_operations: u64, read_bytes: u64) -> (stats: EntryIndexReadStats)
    ensures
        stats == (EntryIndexReadStats {
            cache_hits: 0,
            cache_misses: 0,
            read_operations,
            read_bytes,
            filter_checks: 0,
            filter_positives: 0,
            false_positives: 0,
            data_reads: 0,
        }),
{
    let mut stats = EntryIndexReadStats::default();
    stats.read_operations = read_operations;
    stats.read_bytes = read_bytes;
    stats
}

/// What can be said of a key without reading tables.
#[derive(Debug, Clone, Copy, PartialEq, Eq, Structural)]
pub enum EntryIndexMemoryLookup {
    Location(PackedLocation),
    Miss,
    /// A table may hold the key.
    Unknown,
}

/// What the base returned for a key.
#[derive(Debug, Clone, Copy, PartialEq, Eq, Structural)]
pub enum BaseLookup {
    Location(PackedLocation),
    Miss,
    /// A table may hold the key, and was not read.
    Unknown,
    /// The record is no location.
    Invalid,
}

/// The first half of a lookup.
#[derive(Debug, Clone, Copy, PartialEq, Eq, Structural)]
pub enum LookupStep {
    /// A mutation answers.
    Known(Mutation),
    /// Read the base, and come back with this revision.
    ReadBase(u64),
}

/// The mutations of the index.
#[derive(Debug)]
pub struct EntryIndex {
    pub active: Overlay,
    pub frozen: Option<Overlay>,
    pub indexed_count: u64,
    pub base_revision: u64,
}

/// Mutations that are being written to the base, and the count that goes with them.
#[derive(Debug)]
pub struct IndexCheckpoint {
    pub frozen: Overlay,
    pub indexed_count: u64,
}

/// The contents of the index.
#[verifier::ext_equal]
pub struct IndexModel {
    pub active: Map<Seq<u8>, Mutation>,
    pub frozen: Option<Map<Seq<u8>, Mutation>>,
    pub indexed_count: u64,
    pub base_revision: u64,
}

impl View for EntryIndex {
    type V = IndexModel;

    open spec fn view(&self) -> IndexModel {
        IndexModel {
            active: self.active@,
            frozen: match self.frozen {
                Some(frozen) => Some(frozen@),
                None => None,
            },
            indexed_count: self.indexed_count,
            base_revision: self.base_revision,
        }
    }
}

impl IndexModel {
    /// The mutation that is visible for a key: the active one, else the frozen one.
    pub open spec fn mutation(self, key: Seq<u8>) -> Option<Mutation> {
        if self.active.contains_key(key) {
            Some(self.active[key])
        } else {
            match self.frozen {
                Some(frozen) => if frozen.contains_key(key) {
                    Some(frozen[key])
                } else {
                    None
                },
                None => None,
            }
        }
    }

    /// What is visible for a key over a base.
    pub open spec fn visible(self, base: Map<Seq<u8>, PackedLocation>, key: Seq<u8>) -> Option<PackedLocation> {
        match self.mutation(key) {
            Some(mutation) => mutation.location,
            None => if base.contains_key(key) {
                Some(base[key])
            } else {
                None
            },
        }
    }

    /// What is known of a key without reading tables, given what the base says.
    pub open spec fn known(self, key: Seq<u8>, base: EntryIndexMemoryLookup) -> EntryIndexMemoryLookup {
        match self.mutation(key) {
            Some(mutation) => match mutation.location {
                Some(location) => EntryIndexMemoryLookup::Location(location),
                None => EntryIndexMemoryLookup::Miss,
            },
            None => base,
        }
    }

    /// The index once a location was inserted for a key. Nothing changes where it is there
    /// already; a key that may be new is counted.
    pub open spec fn inserted(
        self,
        key: Seq<u8>,
        location: PackedLocation,
        base: EntryIndexMemoryLookup,
    ) -> IndexModel {
        let existing = self.known(key, base);
        if existing == EntryIndexMemoryLookup::Location(location) {
            self
        } else {
            IndexModel {
                active: self.active.insert(key, Mutation { location: Some(location) }),
                indexed_count: if existing is Location {
                    self.indexed_count
                } else {
                    self.indexed_count.saturating_add(1)
                },
                ..self
            }
        }
    }

    /// The outcome of that insert.
    pub open spec fn insert_outcome(self, key: Seq<u8>, base: EntryIndexMemoryLookup) -> InsertOutcome {
        if self.known(key, base) is Location {
            InsertOutcome::Updated
        } else {
            InsertOutcome::Inserted
        }
    }

    /// The index once a key was removed. A key that is known to be absent stays as it is;
    /// one that may be in a table is hidden without being uncounted.
    pub open spec fn removed(self, key: Seq<u8>, base: EntryIndexMemoryLookup) -> IndexModel {
        let existing = self.known(key, base);
        if existing is Miss {
            self
        } else {
            IndexModel {
                active: self.active.insert(key, Mutation { location: None }),
                indexed_count: if existing is Location {
                    self.indexed_count.saturating_sub(1)
                } else {
                    self.indexed_count
                },
                ..self
            }
        }
    }

    /// The index once the first `n` inserts of a batch were made.
    pub open spec fn batch_inserted(
        self,
        inserts: Seq<(KeyDigest, PackedLocation)>,
        base: Seq<EntryIndexMemoryLookup>,
        n: nat,
    ) -> IndexModel
        decreases n,
    {
        if n == 0 {
            self
        } else {
            self.batch_inserted(inserts, base, (n - 1) as nat).inserted(
                inserts[n - 1].0@,
                inserts[n - 1].1,
                base[n - 1],
            )
        }
    }

    /// The index once the first `n` keys of a batch were removed.
    pub open spec fn batch_removed(
        self,
        keys: Seq<KeyDigest>,
        base: Seq<EntryIndexMemoryLookup>,
        n: nat,
    ) -> IndexModel
        decreases n,
    {
        if n == 0 {
            self
        } else {
            self.batch_removed(keys, base, (n - 1) as nat).removed(keys[n - 1]@, base[n - 1])
        }
    }

    /// How many of the first `n` keys were not known to be absent.
    pub open spec fn removed_count(
        self,
        keys: Seq<KeyDigest>,
        base: Seq<EntryIndexMemoryLookup>,
        n: nat,
    ) -> nat
        decreases n,
    {
        if n == 0 {
            0
        } else {
            let before = self.batch_removed(keys, base, (n - 1) as nat);
            self.removed_count(keys, base, (n - 1) as nat) + if before.known(keys[n - 1]@, base[n - 1]) is Miss {
                0nat
            } else {
                1nat
            }
        }
    }
}

/// What a lookup that read the base, when it was of this revision, comes to now.
pub open spec fn resolves(
    index: IndexModel,
    key: Seq<u8>,
    base_revision: u64,
    base: BaseLookup,
    result: Result<Option<EntryIndexMemoryLookup>, Error>,
) -> bool {
    match index.mutation(key) {
        Some(mutation) => result == Ok::<Option<EntryIndexMemoryLookup>, Error>(
            Some(
                match mutation.location {
                    Some(location) => EntryIndexMemoryLookup::Location(location),
                    None => EntryIndexMemoryLookup::Miss,
                },
            ),
        ),
        None => if index.base_revision != base_revision {
            result == Ok::<Option<EntryIndexMemoryLookup>, Error>(None)
        } else {
            match base {
                BaseLookup::Location(location) => result == Ok::<Option<EntryIndexMemoryLookup>, Error>(
                    Some(EntryIndexMemoryLookup::Location(location)),
                ),
                BaseLookup::Miss => result == Ok::<Option<EntryIndexMemoryLookup>, Error>(
                    Some(EntryIndexMemoryLookup::Miss),
                ),
                BaseLookup::Unknown => result == Ok::<Option<EntryIndexMemoryLookup>, Error>(
                    Some(EntryIndexMemoryLookup::Unknown),
                ),
                BaseLookup::Invalid => result matches Err(error) && superblock_error(
                    error,
                    "EntryIndex contains an invalid EntryLocation"@,
                ),
            }
        },
    }
}

impl EntryIndex {
    /// An index without mutations, over a base that holds at most `indexed_count` keys.
    pub fn new(indexed_count: u64) -> (index: EntryIndex)
        ensures
            index@ == (IndexModel {
                active: Map::empty(),
                frozen: None,
                indexed_count,
                base_revision: 0,
            }),
    {
        EntryIndex { active: Overlay::new(), frozen: None, indexed_count, base_revision: 0 }
    }

    /// The mutation that is visible for a key.
    pub fn overlay_mutation(&self, key: &KeyDigest) -> (mutation: Option<Mutation>)
        ensures
            mutation == self@.mutation(key@),
    {
        match self.active.get(key) {
            Some(mutation) => Some(mutation),
            None => match &self.frozen {
                Some(frozen) => frozen.get(key),
                None => None,
            },
        }
    }

    /// Begins a lookup.
    pub fn begin_lookup(&self, key: &KeyDigest) -> (step: LookupStep)
        ensures
            step == (match self@.mutation(key@) {
                Some(mutation) => LookupStep::Known(mutation),
                None => LookupStep::ReadBase(self.base_revision),
            }),
    {
        match self.overlay_mutation(key) {
            Some(mutation) => LookupStep::Known(mutation),
            None => LookupStep::ReadBase(self.base_revision),
        }
    }

    /// Ends a lookup that read the base. A mutation that came in meanwhile answers; a base
    /// that took over mutations meanwhile must be read again, for which there is no answer.
    pub fn resolve(&self, key: &KeyDigest, base_revision: u64, base: BaseLookup) -> (result: Result<
        Option<EntryIndexMemoryLookup>,
        Error,
    >)
        ensures
            resolves(self@, key@, base_revision, base, result),
    {
        if let Some(mutation) = self.overlay_mutation(key) {
            return Ok(
                Some(
                    match mutation.location {
                        Some(location) => EntryIndexMemoryLookup::Location(location),
                        None => EntryIndexMemoryLookup::Miss,
                    },
                ),
            );
        }
        if self.base_revision != base_revision {
            return Ok(None);
        }
        match base {
            BaseLookup::Location(location) => Ok(Some(EntryIndexMemoryLookup::Location(location))),
            BaseLookup::Miss => Ok(Some(EntryIndexMemoryLookup::Miss)),
            BaseLookup::Unknown => Ok(Some(EntryIndexMemoryLookup::Unknown)),
            BaseLookup::Invalid => Err(
                crate::error::invalid_superblock("EntryIndex contains an invalid EntryLocation"),
            ),
        }
    }

    fn known(&self, key: &KeyDigest, base: EntryIndexMemoryLookup) -> (existing: EntryIndexMemoryLookup)
        ensures
            existing == self@.known(key@, base),
    {
        match self.overlay_mutation(key) {
            Some(mutation) => match mutation.location {
                Some(location) => EntryIndexMemoryLookup::Location(location),
                None => EntryIndexMemoryLookup::Miss,
            },
            None => base,
        }
    }

    /// Inserts locations. `base[i]` is what the base says of key `i` without reading tables;
    /// it counts where no mutation is visible.
    pub fn insert_batch(
        &mut self,
        inserts: &[(KeyDigest, PackedLocation)],
        base: &[EntryIndexMemoryLookup],
    ) -> (result: BatchInsertResult)
        requires
            base@.len() == inserts@.len(),
        ensures
            final(self)@ == old(self)@.batch_inserted(inserts@, base@, inserts@.len()),
            result.outcomes@ == Seq::new(
                inserts@.len(),
                |i: int|
                    old(self)@.batch_inserted(inserts@, base@, i as nat).insert_outcome(inserts@[i].0@, base@[i]),
            ),
            result.write_runs == 0,
            result.written_bytes == 0,
            result.reclaim.is_zero(),
    {
        let ghost before = self@;
        let mut result = BatchInsertResult::default();
        let mut i: usize = 0;
        while i < inserts.len()
            invariant
                i <= inserts@.len(),
                base@.len() == inserts@.len(),
                self@ == before.batch_inserted(inserts@, base@, i as nat),
                result.outcomes@ == Seq::new(
                    i as nat,
                    |k: int| before.batch_inserted(inserts@, base@, k as nat).insert_outcome(
                        inserts@[k].0@,
                        base@[k],
                    ),
                ),
                result.write_runs == 0,
                result.written_bytes == 0,
                result.reclaim.is_zero(),
            decreases inserts@.len() - i,
        {
            let (key, location) = inserts[i];
            let ghost now = self@;
            let existing = self.known(&key, base[i]);
            let known = match existing {
                EntryIndexMemoryLookup::Location(_) => true,
                _ => false,
            };
            let same = match existing {
                EntryIndexMemoryLookup::Location(found) => found == location,
                _ => false,
            };
            if !same {
                self.active.set(key, Mutation::insert(location));
                if !known {
                    self.indexed_count = self.indexed_count.saturating_add(1);
                }
            }
            assert(self@ =~= now.inserted(key@, location, base@[i as int]));
            if known {
                result.outcomes.push(InsertOutcome::Updated);
            } else {
                result.outcomes.push(InsertOutcome::Inserted);
            }
            assert(result.outcomes@ =~= Seq::new(
                (i + 1) as nat,
                |k: int| before.batch_inserted(inserts@, base@, k as nat).insert_outcome(inserts@[k].0@, base@[k]),
            ));
            i = i + 1;
        }
        result
    }

    /// Removes keys, and says how many were not known to be absent. `base[i]` is what the
    /// base says of key `i` without reading tables.
    pub fn remove_batch(&mut self, keys: &[KeyDigest], base: &[EntryIndexMemoryLookup]) -> (removed: usize)
        requires
            base@.len() == keys@.len(),
        ensures
            final(self)@ == old(self)@.batch_removed(keys@, base@, keys@.len()),
            removed == old(self)@.removed_count(keys@, base@, keys@.len()),
    {
        let ghost before = self@;
        let mut removed: usize = 0;
        let mut i: usize = 0;
        while i < keys.len()
            invariant
                i <= keys@.len(),
                base@.len() == keys@.len(),
                self@ == before.batch_removed(keys@, base@, i as nat),
                removed == before.removed_count(keys@, base@, i as nat),
                removed <= i,
            decreases keys@.len() - i,
        {
            let key = keys[i];
            let ghost now = self@;
            match self.known(&key, base[i]) {
                EntryIndexMemoryLookup::Miss => {},
                EntryIndexMemoryLookup::Location(_) => {
                    self.active.set(key, Mutation::remove());
                    self.indexed_count = self.indexed_count.saturating_sub(1);
                    removed = removed + 1;
                },
                EntryIndexMemoryLookup::Unknown => {
                    self.active.set(key, Mutation::remove());
                    removed = removed + 1;
                },
            }
            assert(self@ =~= now.removed(key@, base@[i as int]));
            i = i + 1;
        }
        removed
    }

    /// Freezes the active mutations, if there are any, to be written to the base.
    pub fn prepare_checkpoint(&mut self) -> (checkpoint: Option<IndexCheckpoint>)
        requires
            old(self)@.active != Map::<Seq<u8>, Mutation>::empty() ==> old(self).frozen is None,
        ensures
            match checkpoint {
                Some(checkpoint) => {
                    &&& old(self)@.active != Map::<Seq<u8>, Mutation>::empty()
                    &&& checkpoint.frozen@ == old(self)@.active
                    &&& checkpoint.indexed_count == old(self).indexed_count
                    &&& final(self)@ == (IndexModel {
                        active: Map::empty(),
                        frozen: Some(old(self)@.active),
                        ..old(self)@
                    })
                },
                None => old(self)@.active == Map::<Seq<u8>, Mutation>::empty() && final(self)@ == old(self)@,
            },
    {
        if self.active.is_empty() {
            return None;
        }
        let mut taken = Overlay::new();
        std::mem::swap(&mut taken, &mut self.active);
        let frozen = taken.clone();
        self.frozen = Some(taken);
        Some(IndexCheckpoint { frozen, indexed_count: self.indexed_count })
    }

    /// Drops the frozen mutations once the base holds them. The revision of the base moves
    /// on, so that a lookup that read the old base is repeated.
    pub fn persist_checkpoint(&mut self, checkpoint: IndexCheckpoint)
        requires
            old(self)@.frozen == Some(checkpoint.frozen@),
            old(self).base_revision < u64::MAX,
        ensures
            final(self)@ == (IndexModel {
                frozen: None,
                base_revision: (old(self).base_revision + 1) as u64,
                ..old(self)@
            }),
    {
        self.frozen = None;
        self.base_revision = self.base_revision + 1;
    }

    /// Takes the frozen mutations back where no newer one is active.
    pub fn abort_checkpoint(&mut self, checkpoint: IndexCheckpoint)
        requires
            old(self)@.frozen == Some(checkpoint.frozen@),
        ensures
            final(self)@ == (IndexModel {
                active: checkpoint.frozen@.union_prefer_right(old(self)@.active),
                frozen: None,
                ..old(self)@
            }),
    {
        self.frozen = None;
        self.active.fill_from(&checkpoint.frozen);
    }

    /// The counts of the index over what its base reports.
    pub fn stats(&self, base: &BaseStats) -> (stats: EntryIndexStats)
        ensures
            stats == (EntryIndexStats {
                manifest_generation: base.manifest_generation,
                last_sequence: base.next_sequence.saturating_sub(1),
                indexed_entries_upper_bound: self.indexed_count,
                pending_changes: self.pending() as u64,
                disk_capacity_bytes: base.disk_capacity_bytes,
                disk_used_bytes: base.disk_used_bytes,
                wal_bytes: base.wal_bytes,
                sst_files: base.table_files,
                sst_bytes: base.table_bytes,
                mutable_entries: base.mutable_entries,
                immutable_memtables: base.immutable_memtables,
                cache_resident_bytes: base.cache_resident_bytes,
                stale_location_checks: base.compaction_filter_checks,
                stale_location_discards: base.compaction_filter_discards,
                background_running: base.background_running,
                background_failed: base.background_failed,
            }),
    {
        let frozen = match &self.frozen {
            Some(frozen) => frozen.len(),
            None => 0,
        };
        EntryIndexStats {
            manifest_generation: base.manifest_generation,
            last_sequence: base.next_sequence.saturating_sub(1),
            indexed_entries_upper_bound: self.indexed_count,
            pending_changes: self.active.len().saturating_add(frozen) as u64,
            disk_capacity_bytes: base.disk_capacity_bytes,
            disk_used_bytes: base.disk_used_bytes,
            wal_bytes: base.wal_bytes,
            sst_files: base.table_files,
            sst_bytes: base.table_bytes,
            mutable_entries: base.mutable_entries,
            immutable_memtables: base.immutable_memtables,
            cache_resident_bytes: base.cache_resident_bytes,
            stale_location_checks: base.compaction_filter_checks,
            stale_location_discards: base.compaction_filter_discards,
            background_running: base.background_running,
            background_failed: base.background_failed,
        }
    }

    /// The mutations that the base does not hold yet, held at the largest `usize`.
    pub open spec fn pending(self) -> int {
        let frozen = match self.frozen {
            Some(frozen) => frozen.count(),
            None => 0,
        };
        if self.active.count() + frozen > usize::MAX {
            usize::MAX as int
        } else {
            (self.active.count() + frozen) as int
        }
    }
}

/// Whether compaction of the base may drop a record: it is a location, and no longer a
/// live one.
pub fn should_discard(pool: &ExtentPool, location: Option<PackedLocation>) -> (discard: bool)
    requires
        pool.wf(),
    ensures
        discard == (location matches Some(found) && !is_live(pool.state@, pool.layout, found)),
{
    match location {
        Some(found) => !pool.location_is_live(found),
        None => false,
    }
}

/// What is written to the base for a mutation: a location that is still live, and for any
/// other a tombstone.
pub open spec fn kept(model: PackedModel, layout: PoolLayout, mutation: Mutation) -> Option<PackedLocation> {
    match mutation.location {
        Some(location) => if is_live(model, layout, location) {
            Some(location)
        } else {
            None
        },
        None => None,
    }
}

/// The mutations as they are written to the base, with tombstones for reclaimed locations.
pub open spec fn persisted(
    mutations: Map<Seq<u8>, Mutation>,
    model: PackedModel,
    layout: PoolLayout,
) -> Map<Seq<u8>, Mutation> {
    Map::new(
        |key: Seq<u8>| mutations.contains_key(key),
        |key: Seq<u8>| Mutation { location: kept(model, layout, mutations[key]) },
    )
}

/// The records list the mutations, each once, in ascending order of their keys.
pub open spec fn lists_mutations(
    records: Seq<(KeyDigest, Option<PackedLocation>)>,
    mutations: Map<Seq<u8>, Mutation>,
) -> bool {
    &&& forall|i: int, j: int|
        0 <= i < j < records.len() ==> comes_before((#[trigger] records[i]).0@, (#[trigger] records[j]).0@)
    &&& forall|i: int|
        0 <= i < records.len() ==> mutations.contains_key((#[trigger] records[i]).0@) && mutations[records[i].0@]
            == (Mutation { location: records[i].1 })
    &&& forall|key: Seq<u8>|
        #![trigger mutations.contains_key(key)]
        mutations.contains_key(key) ==> exists|i: int| 0 <= i < records.len() && (#[trigger] records[i]).0@ == key
}

/// The records that a checkpoint writes to the base. A location that was reclaimed since
/// it went into the index becomes a tombstone.
pub fn checkpoint_mutations(checkpoint: &IndexCheckpoint, pool: &ExtentPool) -> (records: Vec<
    (KeyDigest, Option<PackedLocation>),
>)
    requires
        pool.wf(),
    ensures
        records@.len() == checkpoint.frozen.count(),
        forall|i: int|
            0 <= i < records@.len() ==> (#[trigger] records@[i]).0 == checkpoint.frozen.list()[i].0 && records@[i].1
                == kept(pool.state@, pool.layout, checkpoint.frozen.list()[i].1),
        lists_mutations(records@, persisted(checkpoint.frozen@, pool.state@, pool.layout)),
{
    let entries = checkpoint.frozen.to_vec();
    let mut records: Vec<(KeyDigest, Option<PackedLocation>)> = Vec::new();
    let mut i: usize = 0;
    while i < entries.len()
        invariant
            pool.wf(),
            i <= entries@.len(),
            records@.len() == i,
            forall|k: int|
                0 <= k < i ==> (#[trigger] records@[k]).0 == entries@[k].0 && records@[k].1 == kept(
                    pool.state@,
                    pool.layout,
                    entries@[k].1,
                ),
        decreases entries@.len() - i,
    {
        let (key, mutation) = entries[i];
        let record = if should_discard(pool, mutation.location) {
            None
        } else {
            mutation.location
        };
        records.push((key, record));
        i = i + 1;
    }
    proof {
        let mutations = persisted(checkpoint.frozen@, pool.state@, pool.layout);
        assert forall|k: int| 0 <= k < records@.len() implies mutations.contains_key((#[trigger] records@[k]).0@)
            && mutations[records@[k].0@] == (Mutation { location: records@[k].1 }) by {
            lemma_entry(entries@, k);
        }
        assert forall|k: int, j: int| 0 <= k < j < records@.len() implies comes_before(
            (#[trigger] records@[k]).0@,
            (#[trigger] records@[j]).0@,
        ) by {
            assert(comes_before(entries@[k].0@, entries@[j].0@));
        }
        assert forall|key: Seq<u8>|
            #![trigger mutations.contains_key(key)]
            mutations.contains_key(key) implies exists|k: int|
            0 <= k < records@.len() && (#[trigger] records@[k]).0@ == key by {
            assert(has_entry(entries@, key));
            let k = choose|k: int| #[trigger] is_entry(entries@, key, k);
            assert(records@[k].0@ == key);
        }
    }
    records
}

/// Why the base failed.
#[derive(Debug)]
pub enum BaseFailure {
    InvalidOptions(String),
    /// There is no database at the path.
    MissingDatabase(String),
    Corruption { path: String, reason: String },
    /// An operation on one of its files failed.
    Io { context: String, source: IoFailure },
    Other(String),
}

/// The error of a failed base. A failed operation on a file keeps the context that the base
/// gave it.
pub fn base_error(context: &str, failure: BaseFailure) -> (error: Error)
    ensures
        match failure {
            BaseFailure::InvalidOptions(reason) => config_error(
                error,
                "fixed LSM "@ + context@ + ": "@ + reason@,
            ),
            BaseFailure::MissingDatabase(path) => error matches Error::Io { context: c, source } && c@ == context@
                && io_failure(source, IoFailureKind::NotFound, "FixedRecordLSM does not exist at "@ + path@),
            BaseFailure::Corruption { path, reason } => superblock_error(
                error,
                "fixed LSM "@ + context@ + ": corrupt "@ + path@ + ": "@ + reason@,
            ),
            BaseFailure::Io { context: c, source } => error == (Error::Io { context: c, source }),
            BaseFailure::Other(reason) => index_error(error, "fixed LSM "@ + context@ + ": "@ + reason@),
        },
{
    let mut text = "fixed LSM ".to_owned();
    text.append(context);
    match failure {
        BaseFailure::InvalidOptions(reason) => {
            text.append(": ");
            text.append(reason.as_str());
            Error::InvalidConfig(text)
        },
        BaseFailure::MissingDatabase(path) => {
            let mut message = "FixedRecordLSM does not exist at ".to_owned();
            message.append(path.as_str());
            Error::io(context, IoFailure { kind: IoFailureKind::NotFound, message })
        },
        BaseFailure::Corruption { path, reason } => {
            text.append(": corrupt ");
            text.append(path.as_str());
            text.append(": ");
            text.append(reason.as_str());
            Error::InvalidSuperblock(text)
        },
        BaseFailure::Io { context: io_context, source } => Error::Io { context: io_context, source },
        BaseFailure::Other(reason) => {
            text.append(": ");
            text.append(reason.as_str());
            Error::Index(text)
        },
    }
}

/// The base once mutations were written to it.
pub open spec fn base_after(
    base: Map<Seq<u8>, PackedLocation>,
    mutations: Map<Seq<u8>, Mutation>,
) -> Map<Seq<u8>, PackedLocation> {
    Map::new(
        |key: Seq<u8>|
            if mutations.contains_key(key) {
                mutations[key].location is Some
            } else {
                base.contains_key(key)
            },
        |key: Seq<u8>|
            if mutations.contains_key(key) {
                mutations[key].location->0
            } else {
                base[key]
            },
    )
}

/// An active mutation hides a frozen one.
pub proof fn law_active_mutation_wins(index: IndexModel, key: Seq<u8>)
    requires
        index.active.contains_key(key),
    ensures
        index.mutation(key) == Some(index.active[key]),
{
}

/// Freezing mutations changes nothing that is visible.
pub proof fn law_preparing_a_checkpoint_keeps_every_lookup(
    before: IndexModel,
    base: Map<Seq<u8>, PackedLocation>,
    key: Seq<u8>,
)
    requires
        before.frozen is None,
    ensures
        (IndexModel { active: Map::empty(), frozen: Some(before.active), ..before }).visible(base, key)
            == before.visible(base, key),
{
}

/// A checkpoint writes no dead location to the base.
pub proof fn law_no_dead_location_is_persisted(
    frozen: Map<Seq<u8>, Mutation>,
    model: PackedModel,
    layout: PoolLayout,
    base: Map<Seq<u8>, PackedLocation>,
    key: Seq<u8>,
)
    requires
        frozen.contains_key(key),
        base_after(base, persisted(frozen, model, layout)).contains_key(key),
    ensures
        is_live(model, layout, base_after(base, persisted(frozen, model, layout))[key]),
        frozen[key].location == Some(base_after(base, persisted(frozen, model, layout))[key]),
{
}

/// Dropping the frozen mutations once the base holds what is kept of them changes no
/// lookup but of a dead location, which is found no more.
pub proof fn law_persisting_a_checkpoint_keeps_every_live_lookup(
    before: IndexModel,
    frozen: Map<Seq<u8>, Mutation>,
    base: Map<Seq<u8>, PackedLocation>,
    model: PackedModel,
    layout: PoolLayout,
    key: Seq<u8>,
)
    requires
        before.frozen == Some(frozen),
    ensures
        ({
            let after = IndexModel { frozen: None, base_revision: (before.base_revision + 1) as u64, ..before };
            let found = after.visible(base_after(base, persisted(frozen, model, layout)), key);
            ||| found == before.visible(base, key)
            ||| found is None && before.visible(base, key) is Some && !before.active.contains_key(key)
                && frozen.contains_key(key) && frozen[key].location == before.visible(base, key) && !is_live(
                model,
                layout,
                before.visible(base, key)->0,
            )
        }),
{
}

/// Taking frozen mutations back changes nothing that is visible, and no newer mutation is
/// lost.
pub proof fn law_aborting_a_checkpoint_keeps_every_lookup(
    before: IndexModel,
    frozen: Map<Seq<u8>, Mutation>,
    base: Map<Seq<u8>, PackedLocation>,
    key: Seq<u8>,
)
    requires
        before.frozen == Some(frozen),
    ensures
        (IndexModel { active: frozen.union_prefer_right(before.active), frozen: None, ..before }).visible(base, key)
            == before.visible(base, key),
        before.active.contains_key(key) ==> frozen.union_prefer_right(before.active)[key] == before.active[key],
{
}

/// What the base says of a key is true of its contents.
pub open spec fn honest(
    base: Map<Seq<u8>, PackedLocation>,
    key: Seq<u8>,
    said: EntryIndexMemoryLookup,
) -> bool {
    match said {
        EntryIndexMemoryLookup::Location(location) => base.contains_key(key) && base[key] == location,
        EntryIndexMemoryLookup::Miss => !base.contains_key(key),
        EntryIndexMemoryLookup::Unknown => true,
    }
}

/// `keys` are the keys that have a location.
pub open spec fn is_key_set(index: IndexModel, base: Map<Seq<u8>, PackedLocation>, keys: Set<Seq<u8>>) -> bool {
    forall|key: Seq<u8>| #[trigger] keys.contains(key) <==> index.visible(base, key) is Some
}

/// An inserted location is what a lookup finds, and no other key is affected.
pub proof fn law_insert_is_visible(
    before: IndexModel,
    base: Map<Seq<u8>, PackedLocation>,
    key: Seq<u8>,
    location: PackedLocation,
    said: EntryIndexMemoryLookup,
    other: Seq<u8>,
)
    requires
        honest(base, key, said),
    ensures
        before.inserted(key, location, said).visible(base, key) == Some(location),
        other != key ==> before.inserted(key, location, said).visible(base, other) == before.visible(base, other),
{
}

/// A removed key is not found, and no other key is affected.
pub proof fn law_removed_key_is_not_visible(
    before: IndexModel,
    base: Map<Seq<u8>, PackedLocation>,
    key: Seq<u8>,
    said: EntryIndexMemoryLookup,
    other: Seq<u8>,
)
    requires
        honest(base, key, said),
    ensures
        before.removed(key, said).visible(base, key) is None,
        other != key ==> before.removed(key, said).visible(base, other) == before.visible(base, other),
{
}

/// The count stays an upper bound on the keys that have a location, over an insert and
/// over a removal.
pub proof fn law_indexed_count_is_an_upper_bound(
    before: IndexModel,
    base: Map<Seq<u8>, PackedLocation>,
    keys: Set<Seq<u8>>,
    key: Seq<u8>,
    location: PackedLocation,
    said: EntryIndexMemoryLookup,
)
    requires
        honest(base, key, said),
        keys.finite(),
        is_key_set(before, base, keys),
        keys.len() <= before.indexed_count,
        before.indexed_count < u64::MAX,
    ensures
        is_key_set(before.inserted(key, location, said), base, keys.insert(key)),
        keys.insert(key).len() <= before.inserted(key, location, said).indexed_count,
        is_key_set(before.removed(key, said), base, keys.remove(key)),
        keys.remove(key).len() <= before.removed(key, said).indexed_count,
{
    let after_insert = before.inserted(key, location, said);
    let after_remove = before.removed(key, said);
    assert forall|k: Seq<u8>| #[trigger] keys.insert(key).contains(k) <==> after_insert.visible(base, k) is Some by {
        law_insert_is_visible(before, base, key, location, said, k);
        assert(keys.contains(k) <==> before.visible(base, k) is Some);
    }
    assert forall|k: Seq<u8>| #[trigger] keys.remove(key).contains(k) <==> after_remove.visible(base, k) is Some by {
        law_removed_key_is_not_visible(before, base, key, said, k);
        assert(keys.contains(k) <==> before.visible(base, k) is Some);
    }
    assert(keys.contains(key) <==> before.visible(base, key) is Some);
    if before.known(key, said) is Location {
        assert(keys.contains(key));
    }
}

/// The digests among the first `n` keys under which something is found.
pub open spec fn found_among(
    index: IndexModel,
    base: Map<Seq<u8>, PackedLocation>,
    keys: Seq<KeyDigest>,
    n: nat,
) -> Set<Seq<u8>> {
    Set::new(
        |digest: Seq<u8>|
            index.visible(base, digest) is Some && exists|i: int| 0 <= i < n && (#[trigger] keys[i])@ == digest,
    )
}

/// The positions among the first `n` at which the key was not known to be absent just
/// before its removal.
pub open spec fn removed_at(
    index: IndexModel,
    keys: Seq<KeyDigest>,
    said: Seq<EntryIndexMemoryLookup>,
    n: nat,
) -> Set<int> {
    Set::new(
        |i: int|
            0 <= i < n && !(index.batch_removed(keys, said, i as nat).known(keys[i]@, said[i]) is Miss),
    )
}

/// The result of a removal is the number of positions at which the key was not known to be
/// absent.
pub proof fn law_a_removal_counts_every_position(
    index: IndexModel,
    keys: Seq<KeyDigest>,
    said: Seq<EntryIndexMemoryLookup>,
    n: nat,
)
    ensures
        removed_at(index, keys, said, n).finite(),
        removed_at(index, keys, said, n).len() == index.removed_count(keys, said, n),
    decreases n,
{
    let now = removed_at(index, keys, said, n);
    if n == 0 {
        assert(now =~= Set::empty());
    } else {
        let m = (n - 1) as nat;
        law_a_removal_counts_every_position(index, keys, said, m);
        let before = removed_at(index, keys, said, m);
        if index.batch_removed(keys, said, m).known(keys[m as int]@, said[m as int]) is Miss {
            assert(now =~= before);
        } else {
            assert(now =~= before.insert(m as int));
        }
    }
}

/// Where the base answers for every key, a removal takes every key away that was there,
/// leaves every other alone, and says how many different keys were there.
pub proof fn law_a_removal_counts_what_was_there(
    index: IndexModel,
    base: Map<Seq<u8>, PackedLocation>,
    keys: Seq<KeyDigest>,
    said: Seq<EntryIndexMemoryLookup>,
    n: nat,
)
    requires
        n <= keys.len(),
        said.len() == keys.len(),
        forall|i: int| 0 <= i < keys.len() ==> honest(base, (#[trigger] keys[i])@, said[i]) && !(said[i] is Unknown),
    ensures
        found_among(index, base, keys, n).finite(),
        index.removed_count(keys, said, n) == found_among(index, base, keys, n).len(),
        forall|digest: Seq<u8>| #[trigger]
            index.batch_removed(keys, said, n).visible(base, digest) == if exists|i: int|
                0 <= i < n && (#[trigger] keys[i])@ == digest {
                None
            } else {
                index.visible(base, digest)
            },
    decreases n,
{
    let now = found_among(index, base, keys, n);
    if n == 0 {
        assert(now =~= Set::empty());
    } else {
        let m = (n - 1) as nat;
        law_a_removal_counts_what_was_there(index, base, keys, said, m);
        let before = found_among(index, base, keys, m);
        let key = keys[m as int]@;
        let model = index.batch_removed(keys, said, m);
        assert(honest(base, keys[m as int]@, said[m as int]));
        assert forall|digest: Seq<u8>| #[trigger]
            index.batch_removed(keys, said, n).visible(base, digest) == if exists|i: int|
                0 <= i < n && (#[trigger] keys[i])@ == digest {
                None
            } else {
                index.visible(base, digest)
            } by {
            law_removed_key_is_not_visible(model, base, key, said[m as int], digest);
            assert(model.visible(base, digest) == if exists|i: int| 0 <= i < m && (#[trigger] keys[i])@ == digest {
                None
            } else {
                index.visible(base, digest)
            });
            if digest == key {
                assert(keys[m as int]@ == digest);
            } else if exists|i: int| 0 <= i < n && (#[trigger] keys[i])@ == digest {
                let i = choose|i: int| 0 <= i < n && (#[trigger] keys[i])@ == digest;
                assert(i < m);
            }
        }
        assert(model.visible(base, key) == if exists|i: int| 0 <= i < m && (#[trigger] keys[i])@ == key {
            None
        } else {
            index.visible(base, key)
        });
        assert forall|digest: Seq<u8>| now.contains(digest) <==> (before.contains(digest) || digest == key
            && index.visible(base, key) is Some) by {
            if now.contains(digest) && digest != key {
                let i = choose|i: int| 0 <= i < n && (#[trigger] keys[i])@ == digest;
                assert(i < m);
            }
            if before.contains(digest) {
                let i = choose|i: int| 0 <= i < m && (#[trigger] keys[i])@ == digest;
                assert(0 <= i < n);
            }
            if digest == key {
                assert(keys[m as int]@ == digest);
            }
        }
        if model.known(key, said[m as int]) is Miss {
            assert(model.visible(base, key) is None);
            assert(now =~= before);
        } else {
            assert(model.visible(base, key) is Some);
            assert(!before.contains(key));
            assert(now =~= before.insert(key));
        }
    }
}

/// Removing different keys that are all there counts all of them.
pub proof fn law_removing_keys_that_are_there_counts_all(
    index: IndexModel,
    base: Map<Seq<u8>, PackedLocation>,
    keys: Seq<KeyDigest>,
    said: Seq<EntryIndexMemoryLookup>,
    n: nat,
)
    requires
        n <= keys.len(),
        said.len() == keys.len(),
        forall|i: int| 0 <= i < keys.len() ==> honest(base, (#[trigger] keys[i])@, said[i]),
        forall|i: int| 0 <= i < keys.len() ==> index.visible(base, (#[trigger] keys[i])@) is Some,
        forall|i: int, j: int| 0 <= i < j < keys.len() ==> (#[trigger] keys[i])@ != (#[trigger] keys[j])@,
    ensures
        index.removed_count(keys, said, n) == n,
        forall|i: int| n <= i < keys.len() ==> index.batch_removed(keys, said, n).visible(base, (#[trigger] keys[i])@)
            is Some,
    decreases n,
{
    if n > 0 {
        let m = (n - 1) as nat;
        law_removing_keys_that_are_there_counts_all(index, base, keys, said, m);
        let model = index.batch_removed(keys, said, m);
        assert(model.visible(base, keys[m as int]@) is Some);
        assert(honest(base, keys[m as int]@, said[m as int]));
        assert forall|i: int| n <= i < keys.len() implies index.batch_removed(keys, said, n).visible(
            base,
            (#[trigger] keys[i])@,
        ) is Some by {
            assert(keys[m as int]@ != keys[i]@);
            law_removed_key_is_not_visible(model, base, keys[m as int]@, said[m as int], keys[i]@);
        }
    }
}

/// Where the base answers for the key, an insert says whether the key was there, and the
/// count of keys stays exact, over an insert and over a removal.
pub proof fn law_outcomes_and_counts_are_exact(
    before: IndexModel,
    base: Map<Seq<u8>, PackedLocation>,
    keys: Set<Seq<u8>>,
    key: Seq<u8>,
    location: PackedLocation,
    said: EntryIndexMemoryLookup,
)
    requires
        honest(base, key, said),
        !(said is Unknown),
        keys.finite(),
        is_key_set(before, base, keys),
        keys.len() == before.indexed_count,
        before.indexed_count < u64::MAX,
    ensures
        before.insert_outcome(key, said) == if keys.contains(key) {
            InsertOutcome::Updated
        } else {
            InsertOutcome::Inserted
        },
        is_key_set(before.inserted(key, location, said), base, keys.insert(key)),
        keys.insert(key).len() == before.inserted(key, location, said).indexed_count,
        is_key_set(before.removed(key, said), base, keys.remove(key)),
        keys.remove(key).len() == before.removed(key, said).indexed_count,
{
    law_indexed_count_is_an_upper_bound(before, base, keys, key, location, said);
    assert(keys.contains(key) <==> before.visible(base, key) is Some);
}

/// A lookup answers with what is visible: a location that it gives is the visible one, and
/// a miss means that there is none, as long as the base that was read is the one of its
/// revision. It never answers from a base that took over mutations since, and always
/// answers where it can.
pub proof fn law_a_lookup_answers_with_what_is_visible(
    index: IndexModel,
    contents: Map<Seq<u8>, PackedLocation>,
    key: Seq<u8>,
    base_revision: u64,
    base: BaseLookup,
    result: Result<Option<EntryIndexMemoryLookup>, Error>,
)
    requires
        resolves(index, key, base_revision, base, result),
        base_revision == index.base_revision ==> match base {
            BaseLookup::Location(location) => contents.contains_key(key) && contents[key] == location,
            BaseLookup::Miss => !contents.contains_key(key),
            _ => true,
        },
    ensures
        result matches Ok(Some(EntryIndexMemoryLookup::Location(location))) ==> index.visible(contents, key) == Some(
            location,
        ),
        result matches Ok(Some(EntryIndexMemoryLookup::Miss)) ==> index.visible(contents, key) is None,
        result matches Ok(Some(EntryIndexMemoryLookup::Unknown)) ==> base is Unknown && base_revision
            == index.base_revision,
        result matches Ok(None) ==> base_revision != index.base_revision,
        base_revision != index.base_revision && !index.active.contains_key(key) && (index.frozen matches Some(frozen)
            ==> !frozen.contains_key(key)) ==> (result matches Ok(None)),
        result is Err ==> base is Invalid,
        base_revision == index.base_revision && !(base is Invalid) ==> (result matches Ok(Some(_))),
{
}

/// A mutation answers whatever the base holds, the active one first.
pub proof fn law_mutations_answer_before_the_base(
    index: IndexModel,
    key: Seq<u8>,
    base_revision: u64,
    base: BaseLookup,
    result: Result<Option<EntryIndexMemoryLookup>, Error>,
)
    requires
        resolves(index, key, base_revision, base, result),
        index.active.contains_key(key),
    ensures
        index.active[key].location matches Some(location) ==> (result matches Ok(
            Some(EntryIndexMemoryLookup::Location(found)),
        ) && found == location),
        index.active[key].location is None ==> (result matches Ok(Some(EntryIndexMemoryLookup::Miss))),
{
}

} // verus!
