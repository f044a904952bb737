//! The extent store: options, and the course of a batch of inserts.
//!
//! A batch of inserts alternates between decisions, which are made here, and lookups in
//! the durable index, extent releases and file writes, which whoever runs the batch
//! performs and reports back.

use vstd::prelude::*;

use crate::counter::{product_size, saturating_mul_size, sum_size};
use crate::error::{config_error, invalid_config, Error};
use crate::format::{
    content_digest, is_stored_entry, stored_entry_len, stored_len, value_digest, ContentDigest, PAGE_SIZE,
};
use crate::model::{digest_of, EntryKey, KeyDigest, MAX_KEY_SIZE};
use crate::segment::engine::{INDEX_KEY_SIZE, INDEX_VALUE_SIZE};
use crate::store::batch::{holds_at, EntryWrite, EntryWriteResult};
use crate::store::checkpoint::{reports, CheckpointCoordinator};
use crate::store::config::{share, ExtentStoreOptions};
use crate::store::index::{
    honest, law_insert_is_visible, EntryIndex, EntryIndexMemoryLookup, IndexModel, LookupStep,
};
use crate::store::operation::{BatchInsertResult, EntryInsert, InsertOutcome};
use crate::store::pool::{EntryAllocation, ExtentPool, ExtentVictim, PackedLocation, PackedModel};
use crate::store::format::StoreLayout;
use crate::store::read::{
    bytes_found, entry_decodes, is_live, law_read_returns_what_was_written, read_finishes, reads_range,
    EntryReadPlan, StoredEntryRead,
};
use crate::store::reclaim::{allocation_step, steps, AllocationStep, ReclaimResult};
use crate::store::stats::ExtentLayoutStats;
use crate::text::{decimal, push_decimal};
use crate::wire::same_bytes;

verus! {

/// What is wrong with the options, if anything: the first of these that holds.
pub open spec fn options_fault(
    options: ExtentStoreOptions,
    checkpoint_bytes: usize,
    direct_io_supported: bool,
) -> Option<Seq<char>> {
    let floors = options.priority_capacity_floors;
    if !(1 <= options.write_concurrency <= 64) {
        Some("extent write_concurrency must be between 1 and 64"@)
    } else if options.read_run_size == 0 {
        Some("extent read_run_size must be greater than zero"@)
    } else if options.write_run_size == 0 {
        Some("extent write_run_size must be greater than zero"@)
    } else if checkpoint_bytes == 0 {
        Some("extent checkpoint_bytes must be greater than zero"@)
    } else if options.index_write_buffer_size < 64 {
        Some("extent index_write_buffer_size must fit one fixed-LSM record"@)
    } else if options.index_cache_size == 0 {
        Some("extent index_cache_size must be greater than zero"@)
    } else if floors.high() + floors.normal() > 100 {
        Some(
            "extent high and normal priority capacity floors must each be at most 100 percent and sum to at most 100"@,
        )
    } else if options.direct_io && !direct_io_supported {
        Some("direct I/O is only supported on Linux"@)
    } else {
        None
    }
}

/// Checks the options.
pub fn validate_options(options: ExtentStoreOptions, checkpoint_bytes: usize, direct_io_supported: bool) -> (result: Result<
    (),
    Error,
>)
    ensures
        match result {
            Ok(_) => options_fault(options, checkpoint_bytes, direct_io_supported) is None,
            Err(error) => options_fault(options, checkpoint_bytes, direct_io_supported) matches Some(text)
                && config_error(error, text),
        },
{
    if options.write_concurrency < 1 || options.write_concurrency > 64 {
        return Err(invalid_config("extent write_concurrency must be between 1 and 64"));
    }
    if options.read_run_size == 0 {
        return Err(invalid_config("extent read_run_size must be greater than zero"));
    }
    if options.write_run_size == 0 {
        return Err(invalid_config("extent write_run_size must be greater than zero"));
    }
    if checkpoint_bytes == 0 {
        return Err(invalid_config("extent checkpoint_bytes must be greater than zero"));
    }
    if options.index_write_buffer_size < INDEX_KEY_SIZE + INDEX_VALUE_SIZE + 8 {
        return Err(invalid_config("extent index_write_buffer_size must fit one fixed-LSM record"));
    }
    if options.index_cache_size == 0 {
        return Err(invalid_config("extent index_cache_size must be greater than zero"));
    }
    let high = options.priority_capacity_floors.high_percent();
    let normal = options.priority_capacity_floors.normal_percent();
    if high > 100 || normal > 100 || high as u16 + normal as u16 > 100 {
        return Err(
            invalid_config(
                "extent high and normal priority capacity floors must each be at most 100 percent and sum to at most 100",
            ),
        );
    }
    if options.direct_io && !direct_io_supported {
        return Err(invalid_config("direct I/O is only supported on Linux"));
    }
    Ok(())
}

/// The number of extents besides one.
pub open spec fn usable(count: u32) -> nat {
    if count == 0 {
        0
    } else {
        (count - 1) as nat
    }
}

/// What is wrong between the sizes in the options and that of the extents, if anything.
pub open spec fn size_fault(extent_size: usize, options: ExtentStoreOptions) -> Option<Seq<char>> {
    if options.extent_size != extent_size {
        Some(
            "configured extent_size ("@ + decimal(options.extent_size as nat) + ") does not match the stored layout ("@
                + decimal(extent_size as nat) + ")"@,
        )
    } else if options.read_run_size % 4096 != 0 {
        Some("extent read_run_size must be a multiple of page size (4096)"@)
    } else if options.write_run_size % 4096 != 0 {
        Some("extent write_run_size must be a multiple of page size (4096)"@)
    } else {
        None
    }
}

/// What is wrong between the options and the layout, if anything.
pub open spec fn layout_fault(extent_size: usize, extent_count: u32, options: ExtentStoreOptions) -> Option<Seq<char>> {
    let extents = usable(extent_count);
    let floors = options.priority_capacity_floors;
    if size_fault(extent_size, options) is Some {
        size_fault(extent_size, options)
    } else if share(extents, floors.normal() as nat) + share(extents, floors.high() as nat) > extents {
        Some("extent priority capacity floors exceed usable extent capacity"@)
    } else {
        None
    }
}

/// Checks the options against the layout.
pub fn validate_layout_options(extent_size: usize, extent_count: u32, options: ExtentStoreOptions) -> (result: Result<
    (),
    Error,
>)
    requires
        size_fault(extent_size, options) is None ==> share(
            usable(extent_count),
            options.priority_capacity_floors.high() as nat,
        ) <= u32::MAX && share(usable(extent_count), options.priority_capacity_floors.normal() as nat) <= u32::MAX,
    ensures
        match result {
            Ok(_) => layout_fault(extent_size, extent_count, options) is None,
            Err(error) => layout_fault(extent_size, extent_count, options) matches Some(text) && config_error(
                error,
                text,
            ),
        },
{
    if options.extent_size != extent_size {
        let mut text = "configured extent_size (".to_owned();
        push_decimal(&mut text, options.extent_size as u64);
        text.append(") does not match the stored layout (");
        push_decimal(&mut text, extent_size as u64);
        text.append(")");
        return Err(Error::InvalidConfig(text));
    }
    if options.read_run_size % PAGE_SIZE != 0 {
        return Err(invalid_config("extent read_run_size must be a multiple of page size (4096)"));
    }
    if options.write_run_size % PAGE_SIZE != 0 {
        return Err(invalid_config("extent write_run_size must be a multiple of page size (4096)"));
    }
    let extents = extent_count.saturating_sub(1);
    let kept = priority_capacity_floors(options, extent_count);
    if kept[0] as u64 + kept[1] as u64 + kept[2] as u64 > extents as u64 {
        return Err(invalid_config("extent priority capacity floors exceed usable extent capacity"));
    }
    Ok(())
}

/// The extents that each priority keeps.
pub fn priority_capacity_floors(options: ExtentStoreOptions, extent_count: u32) -> (floors: [u32; 3])
    requires
        share(usable(extent_count), options.priority_capacity_floors.high() as nat) <= u32::MAX,
        share(usable(extent_count), options.priority_capacity_floors.normal() as nat) <= u32::MAX,
    ensures
        forall|i: int|
            0 <= i < 3 ==> floors@[i] == options.priority_capacity_floors.floors(usable(extent_count))[i],
{
    let extents = extent_count.saturating_sub(1);
    options.priority_capacity_floors.extent_floors(extents)
}

/// The bytes of the index and the pool together.
pub fn allocated_size(index: u64, pool: u64) -> (result: Result<u64, Error>)
    ensures
        match result {
            Ok(size) => size == index + pool,
            Err(error) => index + pool > u64::MAX && config_error(
                error,
                "extent store allocated size overflows u64"@,
            ),
        },
{
    match index.checked_add(pool) {
        Some(size) => Ok(size),
        None => Err(invalid_config("extent store allocated size overflows u64")),
    }
}

/// The capacity decisions of a layout, for the capacity that was configured.
pub fn layout_stats(
    layout: StoreLayout,
    configured_capacity_bytes: u64,
    maximum_live_entries: u64,
) -> (stats: ExtentLayoutStats)
    requires
        layout.wf(),
    ensures
        stats == (ExtentLayoutStats {
            configured_capacity_bytes,
            planned_file_bytes: layout.total_file_size,
            data_file_bytes: layout.data_file_size,
            usable_payload_bytes: ((layout.extent_count - 1) * layout.extent_size) as u64,
            index_soft_capacity_bytes: layout.index_capacity_bytes,
            extent_size_bytes: layout.extent_size as u64,
            physical_extents: layout.extent_count as u64,
            usable_extents: (layout.extent_count - 1) as u64,
            entry_charge_bytes: layout.slot_size as u64,
            planned_live_entries: layout.max_entries,
            maximum_live_entries,
        }),
        stats.usable_payload_bytes == (layout.extent_count - 1) * layout.extent_size,
{
    let usable_extents = layout.extent_count as u64 - 1;
    proof {
        let n = layout.extent_count as int;
        let slots = layout.slots_per_extent as int;
        let slot = layout.slot_size as int;
        let size = layout.extent_size as int;
        assert((n - 1) * size <= n * slots * slot) by (nonlinear_arith)
            requires
                size == slot * slots,
                n >= 1,
                slots >= 0,
                slot >= 0,
        ;
    }
    ExtentLayoutStats {
        configured_capacity_bytes,
        planned_file_bytes: layout.total_file_size,
        data_file_bytes: layout.data_file_size,
        usable_payload_bytes: usable_extents * layout.extent_size as u64,
        index_soft_capacity_bytes: layout.index_capacity_bytes,
        extent_size_bytes: layout.extent_size as u64,
        physical_extents: layout.extent_count as u64,
        usable_extents,
        entry_charge_bytes: layout.slot_size as u64,
        planned_live_entries: layout.max_entries,
        maximum_live_entries,
    }
}

/// A lookup that has looked at memory.
#[derive(Debug, Clone, Copy, PartialEq, Eq)]
pub enum PreparedGet {
    Location(PackedLocation),
    Miss,
    Unknown(KeyDigest),
}

/// What a lookup of memory makes of a get.
pub open spec fn prepares(key: Seq<u8>, lookup: EntryIndexMemoryLookup, prepared: PreparedGet) -> bool {
    match lookup {
        EntryIndexMemoryLookup::Location(location) => prepared == PreparedGet::Location(location),
        EntryIndexMemoryLookup::Miss => prepared == PreparedGet::Miss,
        EntryIndexMemoryLookup::Unknown => prepared matches PreparedGet::Unknown(digest) && digest@ == digest_of(key),
    }
}

/// The location that a get reads, given what the durable index found where it was asked.
pub open spec fn location_of(prepared: PreparedGet, found: Option<PackedLocation>) -> Option<PackedLocation> {
    match prepared {
        PreparedGet::Location(location) => Some(location),
        PreparedGet::Miss => None,
        PreparedGet::Unknown(_) => found,
    }
}

/// What a lookup of memory leaves to be done.
pub fn prepare_get(key: &EntryKey, lookup: EntryIndexMemoryLookup) -> (prepared: PreparedGet)
    ensures
        prepares(key@, lookup, prepared),
{
    match lookup {
        EntryIndexMemoryLookup::Location(location) => PreparedGet::Location(location),
        EntryIndexMemoryLookup::Miss => PreparedGet::Miss,
        EntryIndexMemoryLookup::Unknown => PreparedGet::Unknown(KeyDigest::for_key(key)),
    }
}

/// What a prepared lookup comes to. `found` is what the index says of the key, where
/// memory left that open.
pub fn resolve_prepared(prepared: PreparedGet, found: Option<PackedLocation>) -> (location: Option<PackedLocation>)
    ensures
        location == location_of(prepared, found),
{
    match prepared {
        PreparedGet::Location(location) => Some(location),
        PreparedGet::Miss => None,
        PreparedGet::Unknown(_) => found,
    }
}

/// What recording a publication does, with a checkpoint asked for once enough is dirty.
pub open spec fn publishes_and_asks(
    before: CheckpointCoordinator,
    bytes: usize,
    threshold: usize,
    after: CheckpointCoordinator,
    result: Result<(), Error>,
) -> bool {
    match before.error {
        Some(message) => {
            &&& after == before
            &&& if bytes > 0 || before.dirty_bytes >= threshold {
                reports(result, message@)
            } else {
                result is Ok
            }
        },
        None => if bytes > 0 && before.published_epoch == u64::MAX {
            reports(result, "publication epoch is exhausted"@) && after == before
        } else {
            let published = if bytes > 0 {
                (before.published_epoch + 1) as u64
            } else {
                before.published_epoch
            };
            let dirty = if bytes > 0 {
                before.dirty_bytes.wrapping_add(bytes)
            } else {
                before.dirty_bytes
            };
            &&& result is Ok
            &&& after == (CheckpointCoordinator {
                published_epoch: published,
                dirty_bytes: dirty,
                requested_epoch: if dirty >= threshold {
                    published
                } else {
                    before.requested_epoch
                },
                ..before
            })
        },
    }
}

/// Records the publication of `bytes` bytes, if there are any, and asks for a checkpoint
/// once `threshold` bytes are dirty.
pub fn publish(checkpoints: &mut CheckpointCoordinator, bytes: usize, threshold: usize) -> (result: Result<(), Error>)
    requires
        old(checkpoints).wf(),
    ensures
        final(checkpoints).wf(),
        publishes_and_asks(*old(checkpoints), bytes, threshold, *final(checkpoints), result),
{
    if bytes > 0 {
        match checkpoints.record_publication(bytes) {
            Ok(_) => {},
            Err(error) => return Err(error),
        }
    }
    let target = checkpoints.published_epoch();
    if checkpoints.dirty_bytes() >= threshold {
        return checkpoints.request_background(target);
    }
    Ok(())
}

/// The bytes that a number of removals count for.
pub fn removal_bytes(removed: usize, entry_charge: usize) -> (bytes: usize)
    ensures
        bytes == product_size(removed, entry_charge),
{
    saturating_mul_size(removed, entry_charge)
}

/// What an entry must be to be stored.
pub open spec fn storable(key: Seq<u8>, value: Seq<u8>, maximum: nat) -> bool {
    value.len() > 0 && (stored_len(key.len(), value.len()) matches Some(len) && len <= maximum)
}

/// The outcome of checking that an entry can be stored.
pub open spec fn entry_validation(key: Seq<u8>, value: Seq<u8>, extent_size: usize, result: Result<(), Error>) -> bool {
    match result {
        Ok(_) => storable(key, value, extent_size as nat),
        Err(Error::EmptyValue) => value.len() == 0,
        Err(Error::StoredEntryTooLarge { len, maximum }) => {
            &&& value.len() > 0
            &&& maximum == extent_size
            &&& match stored_len(key.len(), value.len()) {
                Some(stored) => len == stored && stored > extent_size,
                None => len == usize::MAX,
            }
        },
        Err(_) => false,
    }
}

/// Checks that an entry can be stored in an extent.
pub fn validate_entry(key: &EntryKey, value: &[u8], extent_size: usize) -> (result: Result<(), Error>)
    ensures
        entry_validation(key@, value@, extent_size, result),
{
    if value.len() == 0 {
        return Err(Error::EmptyValue);
    }
    match stored_entry_len(key, value) {
        Some(len) => {
            if len > extent_size {
                return Err(Error::StoredEntryTooLarge { len, maximum: extent_size });
            }
            Ok(())
        },
        None => Err(Error::StoredEntryTooLarge { len: usize::MAX, maximum: extent_size }),
    }
}

/// An entry that has bytes and waits to be published.
#[derive(Debug, Clone, Copy)]
pub struct PendingInsert<'a> {
    pub input_index: usize,
    pub allocation: EntryAllocation,
    pub key: &'a EntryKey,
    pub key_digest: KeyDigest,
    pub value: &'a [u8],
    pub content_digest: ContentDigest,
}

/// What a batch needs next.
#[derive(Debug, Clone, Copy, PartialEq, Eq)]
pub enum BatchAction {
    /// Look the key up in the durable base, and come back with this revision.
    LookUp { key_digest: KeyDigest, base_revision: u64 },
    /// Find bytes.
    Allocate,
    /// Release this extent, and find bytes again.
    Reclaim(ExtentVictim),
    /// Write the pending entries and insert them in the index.
    Publish,
    /// Nothing: the insert is settled, or waits among the pending ones.
    Proceed,
    /// Nothing is left to do.
    Finish,
}

/// A batch of inserts in progress.
#[derive(Debug)]
pub struct InsertBatch<'a> {
    pub inserts: Vec<EntryInsert<'a>>,
    pub extent_size: usize,
    pub outcomes: Vec<Option<InsertOutcome>>,
    pub reclaim: ReclaimResult,
    pub write_runs: usize,
    pub written_bytes: usize,
    pub published_bytes: usize,
    pub input_index: usize,
    pub pending: Vec<PendingInsert<'a>>,
}

/// `location` holds the contents of the insert: same length, same digest, same priority.
pub open spec fn holds_already(location: PackedLocation, insert: EntryInsert) -> bool {
    &&& stored_len(insert.key@.len(), insert.value@.len()) == Some(location.stored_len as nat)
    &&& location.content_digest == content_digest(insert.value@)
    &&& location.priority == insert.priority
}

/// Some pending entry is the one of input `i`.
pub open spec fn is_pending(pending: Seq<PendingInsert>, i: int) -> bool {
    exists|k: int| 0 <= k < pending.len() && (#[trigger] pending[k]).input_index == i
}

/// Entry `k` is the last pending one with the digest.
pub open spec fn last_pending(pending: Seq<PendingInsert>, digest: Seq<u8>, k: int) -> bool {
    &&& 0 <= k < pending.len()
    &&& pending[k].key_digest@ == digest
    &&& forall|j: int| k < j < pending.len() ==> (#[trigger] pending[j]).key_digest@ != digest
}

/// No pending entry has the digest.
pub open spec fn none_pending(pending: Seq<PendingInsert>, digest: Seq<u8>) -> bool {
    forall|j: int| 0 <= j < pending.len() ==> (#[trigger] pending[j]).key_digest@ != digest
}

impl<'a> PendingInsert<'a> {
    /// Where the entry will be found.
    pub open spec fn location(self) -> PackedLocation {
        self.write().location()
    }

    /// The write of the entry.
    pub open spec fn write(self) -> EntryWrite<'a> {
        EntryWrite {
            allocation: self.allocation,
            key: self.key,
            value: self.value,
            content_digest: self.content_digest,
        }
    }
}

/// The write runs of a batch once pending entries were written and published.
pub open spec fn runs_after(before: usize, physical: EntryWriteResult, indexed: BatchInsertResult) -> usize {
    sum_size(sum_size(before, physical.data_runs), indexed.write_runs)
}

/// The bytes that a batch wrote once pending entries were written and published.
pub open spec fn bytes_after(before: usize, physical: EntryWriteResult, indexed: BatchInsertResult) -> usize {
    sum_size(sum_size(before, physical.data_bytes), indexed.written_bytes)
}

impl<'a> InsertBatch<'a> {
    /// The pending entry `k` is that of its input, with the digests and as many bytes as it
    /// needs.
    pub open spec fn pending_ok(self, k: int) -> bool {
        let entry = self.pending@[k];
        let insert = self.inserts@[entry.input_index as int];
        &&& entry.input_index < self.input_index
        &&& entry.key == insert.key
        &&& entry.value == insert.value
        &&& entry.allocation.priority == insert.priority
        &&& entry.key_digest@ == digest_of(insert.key@)
        &&& entry.content_digest == content_digest(insert.value@)
        &&& Some(entry.allocation.stored_len as nat) == stored_len(insert.key@.len(), insert.value@.len())
    }

    /// Every input up to `input_index` has an outcome or is pending, in order; no other
    /// has.
    pub open spec fn wf(self) -> bool {
        &&& self.input_index <= self.inserts@.len()
        &&& self.outcomes@.len() == self.inserts@.len()
        &&& forall|i: int|
            0 <= i < self.inserts@.len() ==> storable(
                (#[trigger] self.inserts@[i]).key@,
                self.inserts@[i].value@,
                self.extent_size as nat,
            )
        &&& forall|k: int| 0 <= k < self.pending@.len() ==> #[trigger] self.pending_ok(k)
        &&& forall|j: int, k: int|
            0 <= j < k < self.pending@.len() ==> (#[trigger] self.pending@[j]).input_index < (
            #[trigger] self.pending@[k]).input_index
        &&& forall|i: int|
            0 <= i < self.inserts@.len() ==> ((#[trigger] self.outcomes@[i]) is Some <==> i < self.input_index
                && !is_pending(self.pending@, i))
    }

    /// The inserts and the limit are the same.
    pub open spec fn same_frame(self, other: InsertBatch<'a>) -> bool {
        &&& self.inserts == other.inserts
        &&& self.extent_size == other.extent_size
    }

    /// The counters are the same.
    pub open spec fn same_counts(self, other: InsertBatch<'a>) -> bool {
        &&& self.write_runs == other.write_runs
        &&& self.written_bytes == other.written_bytes
        &&& self.published_bytes == other.published_bytes
    }

    /// The insert at the position of `before` got `outcome`, and the position moved on.
    pub open spec fn settled(self, before: InsertBatch<'a>, outcome: InsertOutcome) -> bool {
        &&& self.same_frame(before)
        &&& self.same_counts(before)
        &&& self.reclaim == before.reclaim
        &&& self.pending == before.pending
        &&& self.outcomes@ == before.outcomes@.update(before.input_index as int, Some(outcome))
        &&& self.input_index == before.input_index + 1
    }

    /// The insert at the position.
    pub open spec fn insert(self) -> EntryInsert<'a> {
        self.inserts@[self.input_index as int]
    }

    /// A batch of inserts, if each of them can be stored.
    pub fn new(inserts: Vec<EntryInsert<'a>>, extent_size: usize) -> (result: Result<InsertBatch<'a>, Error>)
        ensures
            match result {
                Ok(batch) => {
                    &&& batch.wf()
                    &&& batch.inserts == inserts
                    &&& batch.extent_size == extent_size
                    &&& batch.input_index == 0
                    &&& batch.pending@.len() == 0
                    &&& batch.reclaim.is_zero()
                    &&& batch.write_runs == 0
                    &&& batch.written_bytes == 0
                    &&& batch.published_bytes == 0
                },
                Err(error) => exists|i: int|
                    {
                        &&& 0 <= i < inserts@.len()
                        &&& !storable((#[trigger] inserts@[i]).key@, inserts@[i].value@, extent_size as nat)
                        &&& forall|j: int|
                            0 <= j < i ==> storable(
                                (#[trigger] inserts@[j]).key@,
                                inserts@[j].value@,
                                extent_size as nat,
                            )
                        &&& entry_validation(inserts@[i].key@, inserts@[i].value@, extent_size, Err(error))
                    },
            },
    {
        let mut outcomes: Vec<Option<InsertOutcome>> = Vec::new();
        let mut i: usize = 0;
        while i < inserts.len()
            invariant
                i <= inserts@.len(),
                outcomes@ == Seq::new(i as nat, |k: int| None::<InsertOutcome>),
                forall|j: int|
                    0 <= j < i ==> storable(
                        (#[trigger] inserts@[j]).key@,
                        inserts@[j].value@,
                        extent_size as nat,
                    ),
            decreases inserts@.len() - i,
        {
            let insert = inserts[i];
            match validate_entry(insert.key, insert.value, extent_size) {
                Ok(_) => {},
                Err(error) => {
                    assert(!storable(inserts@[i as int].key@, inserts@[i as int].value@, extent_size as nat));
                    return Err(error);
                },
            }
            outcomes.push(None);
            assert(outcomes@ =~= Seq::new((i + 1) as nat, |k: int| None::<InsertOutcome>));
            i = i + 1;
        }
        Ok(
            InsertBatch {
                inserts,
                extent_size,
                outcomes,
                reclaim: ReclaimResult::default(),
                write_runs: 0,
                written_bytes: 0,
                published_bytes: 0,
                input_index: 0,
                pending: Vec::new(),
            },
        )
    }

    /// Gives the insert at the position an outcome.
    fn settle(&mut self, outcome: InsertOutcome)
        requires
            old(self).wf(),
            old(self).input_index < old(self).inserts@.len(),
        ensures
            final(self).wf(),
            final(self).settled(*old(self), outcome),
    {
        assert(self.inserts.len() == self.inserts@.len());
        let at = self.input_index;
        let ghost before = *self;
        self.outcomes[at] = Some(outcome);
        self.input_index = at + 1;
        proof {
            assert forall|k: int| 0 <= k < self.pending@.len() implies #[trigger] self.pending_ok(k) by {
                assert(before.pending_ok(k));
            }
            assert forall|i: int| 0 <= i < self.inserts@.len() implies ((#[trigger] self.outcomes@[i]) is Some <==> i
                < self.input_index && !is_pending(self.pending@, i)) by {
                assert(before.outcomes@[i] is Some <==> i < before.input_index && !is_pending(before.pending@, i));
                if i == at {
                    if is_pending(self.pending@, i) {
                        let k = choose|k: int|
                            0 <= k < self.pending@.len() && (#[trigger] self.pending@[k]).input_index == i;
                        assert(before.pending_ok(k));
                    }
                }
            }
        }
    }

    /// The place of the last pending entry with the digest.
    fn pending_place(&self, digest: &KeyDigest) -> (place: Option<usize>)
        ensures
            match place {
                Some(k) => last_pending(self.pending@, digest@, k as int),
                None => none_pending(self.pending@, digest@),
            },
    {
        let mut k: usize = self.pending.len();
        while k > 0
            invariant
                k <= self.pending@.len(),
                forall|j: int| k <= j < self.pending@.len() ==> (#[trigger] self.pending@[j]).key_digest@ != digest@,
            decreases k,
        {
            k = k - 1;
            if self.pending[k].key_digest.same(digest) {
                return Some(k);
            }
        }
        None
    }

    /// Whether `location` holds the contents of the insert at the position.
    fn is_held_at(&self, location: PackedLocation) -> (held: bool)
        requires
            self.wf(),
            self.input_index < self.inserts@.len(),
        ensures
            held == holds_already(location, self.insert()),
    {
        let insert = self.inserts[self.input_index];
        let len = match stored_entry_len(insert.key, insert.value) {
            Some(len) => len,
            None => 0,
        };
        location.stored_len as usize == len && location.content_digest == value_digest(insert.value)
            && insert.priority == location.priority
    }

    /// What a mutation in the index says of the insert at the position: an entry that is
    /// live and has its contents already is left alone, and any other needs bytes.
    pub open spec fn answered(
        self,
        after: InsertBatch<'a>,
        pool: ExtentPool,
        lookup: EntryIndexMemoryLookup,
        action: BatchAction,
    ) -> bool {
        let held = lookup matches EntryIndexMemoryLookup::Location(location) && is_live(
            pool.state@,
            pool.layout,
            location,
        ) && holds_already(location, self.insert());
        if held {
            action == BatchAction::Proceed && after.settled(self, InsertOutcome::Updated)
        } else {
            action == BatchAction::Allocate && after == self
        }
    }

    /// What a batch does next, given the index and the pool.
    pub open spec fn proceeds(
        self,
        after: InsertBatch<'a>,
        index: IndexModel,
        pool: ExtentPool,
        action: BatchAction,
    ) -> bool {
        let digest = digest_of(self.insert().key@);
        if self.input_index == self.inserts@.len() {
            &&& after == self
            &&& action == if self.pending@.len() == 0 {
                BatchAction::Finish
            } else {
                BatchAction::Publish
            }
        } else {
            ||| exists|k: int|
                {
                    &&& #[trigger] last_pending(self.pending@, digest, k)
                    &&& if holds_already(self.pending@[k].location(), self.insert()) && self.pending@[k].key@
                        == self.insert().key@ {
                        action == BatchAction::Proceed && after.settled(self, InsertOutcome::Updated)
                    } else {
                        action == BatchAction::Allocate && after == self
                    }
                }
            ||| none_pending(self.pending@, digest) && match index.mutation(digest) {
                Some(mutation) => self.answered(
                    after,
                    pool,
                    match mutation.location {
                        Some(location) => EntryIndexMemoryLookup::Location(location),
                        None => EntryIndexMemoryLookup::Miss,
                    },
                    action,
                ),
                None => {
                    &&& action matches BatchAction::LookUp { key_digest, base_revision } && key_digest@ == digest
                        && base_revision == index.base_revision
                    &&& after == self
                },
            }
        }
    }

    /// What is needed next. An insert that a pending entry of the same key already makes
    /// good is settled at once, and one that a mutation in the index answers needs no
    /// lookup in the durable base.
    pub fn next(&mut self, index: &EntryIndex, pool: &ExtentPool) -> (action: BatchAction)
        requires
            old(self).wf(),
            pool.wf(),
        ensures
            final(self).wf(),
            old(self).proceeds(*final(self), index@, *pool, action),
    {
        if self.input_index == self.inserts.len() {
            return if self.pending.len() == 0 {
                BatchAction::Finish
            } else {
                BatchAction::Publish
            };
        }
        let insert = self.inserts[self.input_index];
        let key_digest = KeyDigest::for_key(insert.key);
        if let Some(k) = self.pending_place(&key_digest) {
            let entry = self.pending[k];
            assert(self.pending_ok(k as int));
            let len = match stored_entry_len(entry.key, entry.value) {
                Some(len) => len,
                None => 0,
            };
            let location = PackedLocation {
                data_offset: entry.allocation.data_offset,
                extent_generation: entry.allocation.extent_generation,
                stored_len: len as u32,
                content_digest: entry.content_digest,
                priority: entry.allocation.priority,
            };
            assert(location == self.pending@[k as int].location());
            if self.is_held_at(location) && same_bytes(entry.key.as_bytes(), insert.key.as_bytes()) {
                self.settle(InsertOutcome::Updated);
                return BatchAction::Proceed;
            }
            return BatchAction::Allocate;
        }
        match index.begin_lookup(&key_digest) {
            LookupStep::Known(mutation) => {
                let lookup = match mutation.location {
                    Some(location) => EntryIndexMemoryLookup::Location(location),
                    None => EntryIndexMemoryLookup::Miss,
                };
                self.looked_up(pool, lookup)
            },
            LookupStep::ReadBase(base_revision) => BatchAction::LookUp { key_digest, base_revision },
        }
    }

    /// Takes what the index says of the key.
    pub fn looked_up(&mut self, pool: &ExtentPool, lookup: EntryIndexMemoryLookup) -> (action: BatchAction)
        requires
            old(self).wf(),
            old(self).input_index < old(self).inserts@.len(),
            pool.wf(),
        ensures
            final(self).wf(),
            old(self).answered(*final(self), *pool, lookup, action),
    {
        if let EntryIndexMemoryLookup::Location(location) = lookup {
            if pool.location_is_live(location) && self.is_held_at(location) {
                self.settle(InsertOutcome::Updated);
                return BatchAction::Proceed;
            }
        }
        BatchAction::Allocate
    }

    /// What a batch makes of an attempt to find bytes for the insert at the position: an
    /// entry with bytes joins the pending ones, and one that gets none is rejected.
    pub open spec fn follows(
        self,
        after: InsertBatch<'a>,
        step: Result<AllocationStep, Error>,
        result: Result<BatchAction, Error>,
    ) -> bool {
        match step {
            Ok(AllocationStep::Allocated(allocation)) => {
                let entry = after.pending@.last();
                &&& result == Ok::<BatchAction, Error>(BatchAction::Proceed)
                &&& after.same_frame(self)
                &&& after.same_counts(self)
                &&& after.reclaim == self.reclaim
                &&& after.outcomes == self.outcomes
                &&& after.input_index == self.input_index + 1
                &&& after.pending@ == self.pending@.push(entry)
                &&& entry.input_index == self.input_index
                &&& entry.allocation == allocation
                &&& entry.key == self.insert().key
                &&& entry.value == self.insert().value
            },
            Ok(AllocationStep::FlushRequired) => {
                &&& result == Ok::<BatchAction, Error>(BatchAction::Publish)
                &&& after == self
            },
            Ok(AllocationStep::Rejected) => {
                &&& result == Ok::<BatchAction, Error>(BatchAction::Proceed)
                &&& after.settled(self, InsertOutcome::Rejected)
            },
            Ok(AllocationStep::Reclaim(victim)) => {
                &&& result == Ok::<BatchAction, Error>(BatchAction::Reclaim(victim))
                &&& after == self
            },
            Err(error) => {
                &&& result == Err::<BatchAction, Error>(error)
                &&& after == self
            },
        }
    }

    /// Tries to find bytes for the insert at the position. An entry with bytes joins the
    /// pending ones.
    pub fn allocate(&mut self, pool: &mut ExtentPool, capacity_floors: [u32; 3]) -> (result: Result<BatchAction, Error>)
        requires
            old(self).wf(),
            old(self).input_index < old(self).inserts@.len(),
            old(pool).wf(),
        ensures
            final(self).wf(),
            final(pool).wf(),
            final(pool).same_but_state(*old(pool)),
            old(pool).state@.grows_into(final(pool).state@),
            exists|step: Result<AllocationStep, Error>|
                {
                    &&& steps(
                        old(pool).state@,
                        final(pool).state@,
                        old(pool).layout,
                        old(self).insert().priority,
                        stored_len(old(self).insert().key@.len(), old(self).insert().value@.len())->0 as usize,
                        old(self).pending@.len() > 0,
                        capacity_floors@,
                        step,
                    )
                    &&& #[trigger] old(self).follows(*final(self), step, result)
                },
    {
        assert(self.inserts.len() == self.inserts@.len());
        let ghost before = *self;
        let at = self.input_index;
        let insert = self.inserts[at];
        let len = match stored_entry_len(insert.key, insert.value) {
            Some(len) => len,
            None => 0,
        };
        let entries_pending = self.pending.len() > 0;
        let step = allocation_step(pool, insert.priority, len, entries_pending, capacity_floors);
        let ghost attempt = step;
        let result = match step {
            Ok(AllocationStep::Allocated(allocation)) => {
                let entry = PendingInsert {
                    input_index: at,
                    allocation,
                    key: insert.key,
                    key_digest: KeyDigest::for_key(insert.key),
                    value: insert.value,
                    content_digest: value_digest(insert.value),
                };
                self.pending.push(entry);
                self.input_index = at + 1;
                proof {
                    assert(allocation.priority == insert.priority && allocation.stored_len == len);
                    assert forall|k: int| 0 <= k < self.pending@.len() implies #[trigger] self.pending_ok(k) by {
                        if k < before.pending@.len() {
                            assert(before.pending_ok(k));
                        }
                    }
                    assert forall|j: int, k: int| 0 <= j < k < self.pending@.len() implies (
                    #[trigger] self.pending@[j]).input_index < (#[trigger] self.pending@[k]).input_index by {
                        assert(before.pending_ok(j));
                    }
                    assert forall|i: int| 0 <= i < self.inserts@.len() implies ((#[trigger] self.outcomes@[i]) is Some
                        <==> i < self.input_index && !is_pending(self.pending@, i)) by {
                        assert(before.outcomes@[i] is Some <==> i < before.input_index && !is_pending(
                            before.pending@,
                            i,
                        ));
                        if is_pending(before.pending@, i) {
                            let k = choose|k: int|
                                0 <= k < before.pending@.len() && (#[trigger] before.pending@[k]).input_index == i;
                            assert(self.pending@[k].input_index == i);
                        }
                        if i == at {
                            assert(self.pending@[self.pending@.len() - 1].input_index == i);
                        }
                        if is_pending(self.pending@, i) && i < at {
                            let k = choose|k: int|
                                0 <= k < self.pending@.len() && (#[trigger] self.pending@[k]).input_index == i;
                            assert(before.pending@[k].input_index == i);
                        }
                    }
                }
                Ok(BatchAction::Proceed)
            },
            Ok(AllocationStep::FlushRequired) => Ok(BatchAction::Publish),
            Ok(AllocationStep::Rejected) => {
                self.settle(InsertOutcome::Rejected);
                Ok(BatchAction::Proceed)
            },
            Ok(AllocationStep::Reclaim(victim)) => Ok(BatchAction::Reclaim(victim)),
            Err(error) => Err(error),
        };
        assert(before.follows(*self, attempt, result));
        result
    }

    /// Adds the work of one reclaim.
    pub fn reclaimed(&mut self, work: ReclaimResult)
        requires
            old(self).wf(),
        ensures
            final(self).wf(),
            final(self).reclaim.is_merge_of(old(self).reclaim, work),
            *final(self) == (InsertBatch { reclaim: final(self).reclaim, ..*old(self) }),
    {
        let ghost before = *self;
        self.reclaim.merge(work);
        assert forall|k: int| 0 <= k < self.pending@.len() implies #[trigger] self.pending_ok(k) by {
            assert(before.pending_ok(k));
        }
    }

    /// The writes of the pending entries, in order.
    pub fn writes(&self) -> (writes: Vec<EntryWrite<'a>>)
        requires
            self.wf(),
        ensures
            writes@ == Seq::new(self.pending@.len(), |k: int| self.pending@[k].write()),
            forall|k: int| 0 <= k < writes@.len() ==> (#[trigger] writes@[k]).size() is Some,
            forall|k: int|
                0 <= k < writes@.len() ==> (#[trigger] writes@[k]).content_digest == content_digest(writes@[k].value@),
    {
        let mut writes: Vec<EntryWrite<'a>> = Vec::new();
        let mut k: usize = 0;
        while k < self.pending.len()
            invariant
                k <= self.pending@.len(),
                writes@ == Seq::new(k as nat, |j: int| self.pending@[j].write()),
            decreases self.pending@.len() - k,
        {
            let entry = self.pending[k];
            writes.push(
                EntryWrite {
                    allocation: entry.allocation,
                    key: entry.key,
                    value: entry.value,
                    content_digest: entry.content_digest,
                },
            );
            assert(writes@ =~= Seq::new((k + 1) as nat, |j: int| self.pending@[j].write()));
            k = k + 1;
        }
        proof {
            assert forall|k: int| 0 <= k < writes@.len() implies (#[trigger] writes@[k]).size() is Some by {
                assert(self.pending_ok(k));
            }
            assert forall|k: int| 0 <= k < writes@.len() implies (#[trigger] writes@[k]).content_digest
                == content_digest(writes@[k].value@) by {
                assert(self.pending_ok(k));
            }
        }
        writes
    }

    /// The digest of each pending entry with its location.
    pub open spec fn located(self, locations: Seq<PackedLocation>) -> Seq<(KeyDigest, PackedLocation)> {
        Seq::new(self.pending@.len(), |k: int| (self.pending@[k].key_digest, locations[k]))
    }

    /// What goes into the index for the pending entries, once they are written.
    pub fn index_inserts(&self, physical: &EntryWriteResult) -> (inserts: Vec<(KeyDigest, PackedLocation)>)
        requires
            physical.locations@.len() == self.pending@.len(),
        ensures
            inserts@ == self.located(physical.locations@),
    {
        let mut inserts: Vec<(KeyDigest, PackedLocation)> = Vec::new();
        let mut k: usize = 0;
        while k < self.pending.len()
            invariant
                k <= self.pending@.len(),
                physical.locations@.len() == self.pending@.len(),
                inserts@ == Seq::new(k as nat, |j: int| (self.pending@[j].key_digest, physical.locations@[j])),
            decreases self.pending@.len() - k,
        {
            inserts.push((self.pending[k].key_digest, physical.locations[k]));
            assert(inserts@ =~= Seq::new(
                (k + 1) as nat,
                |j: int| (self.pending@[j].key_digest, physical.locations@[j]),
            ));
            k = k + 1;
        }
        inserts
    }

    /// Takes what the writes and the index did with the pending entries. Each gets the
    /// outcome that the index gave it, and nothing is pending any more.
    pub fn published(&mut self, physical: &EntryWriteResult, indexed: &BatchInsertResult)
        requires
            old(self).wf(),
            indexed.outcomes@.len() == old(self).pending@.len(),
        ensures
            final(self).wf(),
            final(self).same_frame(*old(self)),
            final(self).reclaim == old(self).reclaim,
            final(self).input_index == old(self).input_index,
            final(self).pending@.len() == 0,
            forall|k: int|
                0 <= k < old(self).pending@.len() ==> final(self).outcomes@[(
                #[trigger] old(self).pending@[k]).input_index as int] == Some(indexed.outcomes@[k]),
            forall|i: int|
                0 <= i < old(self).outcomes@.len() && !is_pending(old(self).pending@, i)
                    ==> #[trigger] final(self).outcomes@[i] == old(self).outcomes@[i],
            final(self).write_runs == runs_after(old(self).write_runs, *physical, *indexed),
            final(self).written_bytes == bytes_after(old(self).written_bytes, *physical, *indexed),
            final(self).published_bytes == stored_bytes(
                old(self).published_bytes,
                old(self).pending@,
                old(self).pending@.len(),
            ),
    {
        let ghost before = *self;
        let mut published = self.published_bytes;
        let mut k: usize = 0;
        while k < self.pending.len()
            invariant
                before.wf(),
                k <= self.pending@.len(),
                self.pending == before.pending,
                self.inserts == before.inserts,
                self.input_index == before.input_index,
                self.same_frame(before),
                self.same_counts(before),
                self.reclaim == before.reclaim,
                self.outcomes@.len() == before.outcomes@.len(),
                before.outcomes@.len() == before.inserts@.len(),
                indexed.outcomes@.len() == before.pending@.len(),
                published == stored_bytes(before.published_bytes, before.pending@, k as nat),
                forall|j: int|
                    0 <= j < k ==> self.outcomes@[(#[trigger] before.pending@[j]).input_index as int] == Some(
                        indexed.outcomes@[j],
                    ),
                forall|i: int|
                    0 <= i < before.outcomes@.len() && !is_pending(before.pending@, i)
                        ==> #[trigger] self.outcomes@[i] == before.outcomes@[i],
            decreases self.pending@.len() - k,
        {
            let entry = self.pending[k];
            let outcome = indexed.outcomes[k];
            assert(before.pending_ok(k as int));
            published = published.saturating_add(entry.allocation.stored_len as usize);
            assert(is_pending(before.pending@, entry.input_index as int)) by {
                assert(before.pending@[k as int].input_index == entry.input_index);
            }
            self.outcomes[entry.input_index] = Some(outcome);
            k = k + 1;
        }
        self.pending.clear();
        self.published_bytes = published;
        self.write_runs = self.write_runs.saturating_add(physical.data_runs).saturating_add(indexed.write_runs);
        self.written_bytes = self.written_bytes.saturating_add(physical.data_bytes).saturating_add(
            indexed.written_bytes,
        );
        proof {
            assert forall|i: int| 0 <= i < self.inserts@.len() implies ((#[trigger] self.outcomes@[i]) is Some <==> i
                < self.input_index && !is_pending(self.pending@, i)) by {
                assert(before.outcomes@[i] is Some <==> i < before.input_index && !is_pending(before.pending@, i));
                assert(!is_pending(self.pending@, i));
                if is_pending(before.pending@, i) {
                    let k = choose|k: int|
                        0 <= k < before.pending@.len() && (#[trigger] before.pending@[k]).input_index == i;
                    assert(before.pending_ok(k));
                }
            }
        }
    }

    /// The result of the batch, once every insert is settled, and how many bytes were
    /// published.
    pub fn finish(self) -> (summary: (usize, BatchInsertResult))
        requires
            self.wf(),
            self.input_index == self.inserts@.len(),
            self.pending@.len() == 0,
        ensures
            summary.0 == self.published_bytes,
            summary.1.outcomes@.len() == self.inserts@.len(),
            forall|i: int|
                0 <= i < self.inserts@.len() ==> self.outcomes@[i] == Some(#[trigger] summary.1.outcomes@[i]),
            summary.1.write_runs == sum_size(self.write_runs, self.reclaim.write_runs),
            summary.1.written_bytes == sum_size(self.written_bytes, self.reclaim.written_bytes),
            summary.1.reclaim == self.reclaim.stats,
    {
        let mut outcomes: Vec<InsertOutcome> = Vec::new();
        let mut i: usize = 0;
        while i < self.outcomes.len()
            invariant
                self.wf(),
                self.input_index == self.inserts@.len(),
                self.pending@.len() == 0,
                i <= self.outcomes@.len(),
                outcomes@.len() == i,
                forall|j: int| 0 <= j < i ==> self.outcomes@[j] == Some(#[trigger] outcomes@[j]),
            decreases self.outcomes@.len() - i,
        {
            assert(self.outcomes@[i as int] is Some) by {
                assert(!is_pending(self.pending@, i as int));
            }
            if let Some(outcome) = self.outcomes[i] {
                outcomes.push(outcome);
            }
            i = i + 1;
        }
        (
            self.published_bytes,
            BatchInsertResult {
                outcomes,
                write_runs: self.write_runs.saturating_add(self.reclaim.write_runs),
                written_bytes: self.written_bytes.saturating_add(self.reclaim.written_bytes),
                reclaim: self.reclaim.stats,
            },
        )
    }
}

/// The bytes of the first `n` pending entries on top of `start`.
pub open spec fn stored_bytes(start: usize, pending: Seq<PendingInsert>, n: nat) -> usize
    decreases n,
{
    if n == 0 {
        start
    } else {
        sum_size(
            stored_bytes(start, pending, (n - 1) as nat),
            pending[n - 1].allocation.stored_len as usize,
        )
    }
}

/// When a batch is done every insert has an outcome.
pub proof fn law_every_insert_has_an_outcome(batch: InsertBatch)
    requires
        batch.wf(),
        batch.input_index == batch.inserts@.len(),
        batch.pending@.len() == 0,
    ensures
        forall|i: int| 0 <= i < batch.inserts@.len() ==> (#[trigger] batch.outcomes@[i]) is Some,
{
    assert forall|i: int| 0 <= i < batch.inserts@.len() implies (#[trigger] batch.outcomes@[i]) is Some by {
        assert(!is_pending(batch.pending@, i));
    }
}

/// What was inserted under a key is what a get of the key returns, until the key is
/// changed or the extent reclaimed: the index finds the location of the insert, and the
/// read of that location gives the value back. `said` is what the durable index said of
/// the key at the insert, `read` what a finished read of the data file hands out and
/// `result` what is decoded from that.
pub proof fn law_a_get_returns_what_was_inserted(
    before: IndexModel,
    base: Map<Seq<u8>, PackedLocation>,
    said: EntryIndexMemoryLookup,
    write: EntryWrite,
    stored: Seq<u8>,
    file: Seq<u8>,
    plan: EntryReadPlan,
    run_size: nat,
    direct: bool,
    model: PackedModel,
    read: StoredEntryRead,
    result: StoredEntryRead,
)
    requires
        honest(base, digest_of(write.key@), said),
        write.size() is Some,
        is_stored_entry(stored, write.key@, write.value@),
        write.value@.len() > 0,
        write.key@.len() <= MAX_KEY_SIZE,
        write.content_digest == content_digest(write.value@),
        holds_at(file, write.allocation.data_offset as int, stored),
        reads_range(
            plan.runs@,
            write.location().data_offset as nat,
            write.location().stored_len as nat,
            run_size,
            direct,
        ),
        model.extents[plan.extent as int].generation == write.location().extent_generation,
        read_finishes(
            model,
            write.location(),
            plan,
            bytes_found(file, plan.runs@, plan.runs@.len() as int),
            read,
        ),
        entry_decodes(write.key@, read, result),
    ensures
        before.inserted(digest_of(write.key@), write.location(), said).visible(base, digest_of(write.key@)) == Some(
            write.location(),
        ),
        result.value matches Some(value) && value@ == write.value@,
{
    law_insert_is_visible(before, base, digest_of(write.key@), write.location(), said, digest_of(write.key@));
    law_read_returns_what_was_written(write, stored, file, plan, run_size, direct, model, read, result);
}

/// A publication is recorded under a number of its own, what is dirty grows by it, and a
/// checkpoint of everything published is asked for exactly once the dirty bytes reach the
/// threshold.
pub proof fn law_a_checkpoint_is_asked_for_at_the_threshold(
    before: CheckpointCoordinator,
    bytes: usize,
    threshold: usize,
    after: CheckpointCoordinator,
    result: Result<(), Error>,
)
    requires
        before.wf(),
        before.error is None,
        before.published_epoch < u64::MAX,
        before.dirty_bytes + bytes <= usize::MAX,
        publishes_and_asks(before, bytes, threshold, after, result),
    ensures
        result is Ok,
        bytes > 0 ==> after.published_epoch == before.published_epoch + 1,
        bytes == 0 ==> after.published_epoch == before.published_epoch,
        after.dirty_bytes == before.dirty_bytes + bytes,
        before.dirty_bytes + bytes >= threshold ==> after.requested_epoch == after.published_epoch,
        before.dirty_bytes + bytes < threshold ==> after.requested_epoch == before.requested_epoch,
        after.durable_epoch == before.durable_epoch,
        after.in_flight_epoch == before.in_flight_epoch,
        after.shutdown == before.shutdown,
        after.error is None,
{
}

/// The options are accepted exactly within their bounds.
pub proof fn law_options_are_accepted_within_their_bounds(
    options: ExtentStoreOptions,
    checkpoint_bytes: usize,
    direct_io_supported: bool,
)
    ensures
        options_fault(options, checkpoint_bytes, direct_io_supported) is None <==> {
            &&& 1 <= options.write_concurrency <= 64
            &&& options.read_run_size >= 1
            &&& options.write_run_size >= 1
            &&& checkpoint_bytes >= 1
            &&& options.index_write_buffer_size >= 64
            &&& options.index_cache_size >= 1
            &&& options.priority_capacity_floors.high() + options.priority_capacity_floors.normal() <= 100
            &&& options.direct_io ==> direct_io_supported
        },
{
}

/// The options are accepted for a layout exactly where they name its extent size, the runs
/// are whole pages and the floors leave no priority more than there is.
pub proof fn law_options_are_accepted_for_their_layout(extent_size: usize, extent_count: u32, options: ExtentStoreOptions)
    requires
        extent_count > 0,
    ensures
        layout_fault(extent_size, extent_count, options) is None <==> {
            &&& options.extent_size == extent_size
            &&& options.read_run_size % 4096 == 0
            &&& options.write_run_size % 4096 == 0
            &&& share((extent_count - 1) as nat, options.priority_capacity_floors.normal() as nat) + share(
                (extent_count - 1) as nat,
                options.priority_capacity_floors.high() as nat,
            ) <= extent_count - 1
        },
{
}

/// An entry can be stored exactly where its value holds something and its stored form fits
/// an extent.
pub proof fn law_entries_that_fit_can_be_stored(key: Seq<u8>, value: Seq<u8>, maximum: nat)
    requires
        key.len() <= 1024,
    ensures
        storable(key, value, maximum) <==> value.len() >= 1 && 16 + key.len() + value.len() <= maximum && 16
            + key.len() + value.len() <= 0xffff_ffff,
{
}

/// An insert of what is already there is left alone: where the location that answers is
/// live and has the length, the digest and the priority of the insert, nothing is written,
/// nothing waits and the insert is done. Where any of these differs, it is written.
pub proof fn law_only_an_exact_match_is_left_alone<'a>(
    before: InsertBatch<'a>,
    after: InsertBatch<'a>,
    pool: ExtentPool,
    lookup: EntryIndexMemoryLookup,
    action: BatchAction,
)
    requires
        before.wf(),
        before.input_index < before.inserts@.len(),
        before.answered(after, pool, lookup, action),
    ensures
        ({
            let insert = before.inserts@[before.input_index as int];
            let exact = lookup matches EntryIndexMemoryLookup::Location(location) && is_live(
                pool.state@,
                pool.layout,
                location,
            ) && location.stored_len == 16 + insert.key@.len() + insert.value@.len() && location.content_digest
                == content_digest(insert.value@) && location.priority == insert.priority;
            &&& after.pending@ == before.pending@
            &&& exact ==> action == BatchAction::Proceed && after.input_index == before.input_index + 1
                && after.outcomes@[before.input_index as int] == Some(InsertOutcome::Updated)
            &&& !exact ==> action == BatchAction::Allocate && after.input_index == before.input_index && after.outcomes@
                == before.outcomes@
            &&& forall|i: int|
                0 <= i < before.outcomes@.len() && i != before.input_index ==> #[trigger] after.outcomes@[i]
                    == before.outcomes@[i]
        }),
{
    let insert = before.inserts@[before.input_index as int];
    assert(storable(insert.key@, insert.value@, before.extent_size as nat));
}

/// An insert whose last pending entry is of the same key is left alone exactly where that
/// has its length, its digest and its priority.
pub proof fn law_only_an_exact_pending_match_is_left_alone<'a>(
    before: InsertBatch<'a>,
    after: InsertBatch<'a>,
    index: IndexModel,
    pool: ExtentPool,
    action: BatchAction,
    k: int,
)
    requires
        before.wf(),
        before.input_index < before.inserts@.len(),
        before.proceeds(after, index, pool, action),
        last_pending(before.pending@, digest_of(before.insert().key@), k),
    ensures
        ({
            let insert = before.inserts@[before.input_index as int];
            let entry = before.pending@[k];
            let exact = entry.key@ == insert.key@ && entry.value@.len() == insert.value@.len() && content_digest(
                entry.value@,
            ) == content_digest(insert.value@) && entry.allocation.priority == insert.priority;
            &&& after.pending@ == before.pending@
            &&& exact ==> action == BatchAction::Proceed && after.input_index == before.input_index + 1
                && after.outcomes@[before.input_index as int] == Some(InsertOutcome::Updated)
            &&& !exact ==> action == BatchAction::Allocate && after.input_index == before.input_index && after.outcomes@
                == before.outcomes@
        }),
{
    let insert = before.inserts@[before.input_index as int];
    let digest = digest_of(insert.key@);
    assert(storable(insert.key@, insert.value@, before.extent_size as nat));
    assert(before.pending_ok(k));
    assert(before.pending@[k].key_digest@ == digest);
    assert(!none_pending(before.pending@, digest));
    assert forall|j: int| #[trigger] last_pending(before.pending@, digest, j) implies j == k by {
        if j < k {
            assert(before.pending@[k].key_digest@ != digest);
        } else if k < j {
            assert(before.pending@[j].key_digest@ != digest);
        }
    }
    let entry = before.pending@[k];
    let source = before.inserts@[entry.input_index as int];
    assert(storable(source.key@, source.value@, before.extent_size as nat));
}

/// Every entry that is published adds its own bytes to what was published.
pub proof fn law_published_bytes_add_up(start: usize, pending: Seq<PendingInsert>, n: nat)
    requires
        n < pending.len(),
        stored_bytes(start, pending, n) + pending[n as int].allocation.stored_len <= usize::MAX,
    ensures
        stored_bytes(start, pending, 0) == start,
        stored_bytes(start, pending, n + 1) == stored_bytes(start, pending, n)
            + pending[n as int].allocation.stored_len,
{
}

/// A get reads the location that is visible for its key, and nothing where there is none,
/// whether memory knows of it or the durable index has to be asked; and that is asked for
/// the digest of the key.
pub proof fn law_a_get_reads_what_is_visible(
    index: IndexModel,
    base: Map<Seq<u8>, PackedLocation>,
    key: Seq<u8>,
    lookup: EntryIndexMemoryLookup,
    prepared: PreparedGet,
    found: Option<PackedLocation>,
)
    requires
        prepares(key, lookup, prepared),
        lookup matches EntryIndexMemoryLookup::Location(location) ==> index.visible(base, digest_of(key)) == Some(
            location,
        ),
        lookup is Miss ==> index.visible(base, digest_of(key)) is None,
        lookup is Unknown ==> found == index.visible(base, digest_of(key)),
    ensures
        location_of(prepared, found) == index.visible(base, digest_of(key)),
        prepared is Unknown <==> lookup is Unknown,
        prepared matches PreparedGet::Unknown(digest) ==> digest@ == digest_of(key),
{
}

/// An entry is accepted exactly where it has a value and fits a whole extent; one without a
/// value is told apart from one that is too long, and that is refused with what it takes.
pub proof fn law_entries_are_refused_for_what_is_wrong(
    key: Seq<u8>,
    value: Seq<u8>,
    extent_size: usize,
    result: Result<(), Error>,
)
    requires
        key.len() <= 1024,
        entry_validation(key, value, extent_size, result),
    ensures
        result is Ok <==> value.len() >= 1 && 16 + key.len() + value.len() <= extent_size && 16 + key.len()
            + value.len() <= 0xffff_ffff,
        result matches Err(error) ==> (error is EmptyValue <==> value.len() == 0),
        result matches Err(error) ==> (value.len() > 0 ==> error is StoredEntryTooLarge
            && error->StoredEntryTooLarge_maximum == extent_size),
        result matches Err(error) ==> (value.len() > 0 && 16 + key.len() + value.len() <= 0xffff_ffff ==>
            error->StoredEntryTooLarge_len == 16 + key.len() + value.len()),
{
}

/// A batch reports every run and every byte that was written for it, of the data and of the
/// index, wherever that many can be counted.
pub proof fn law_a_batch_reports_all_that_it_wrote(
    runs: usize,
    bytes: usize,
    physical: EntryWriteResult,
    indexed: BatchInsertResult,
)
    ensures
        runs + physical.data_runs + indexed.write_runs <= usize::MAX ==> runs_after(runs, physical, indexed) == runs
            + physical.data_runs + indexed.write_runs,
        bytes + physical.data_bytes + indexed.written_bytes <= usize::MAX ==> bytes_after(bytes, physical, indexed)
            == bytes + physical.data_bytes + indexed.written_bytes,
        runs_after(runs, physical, indexed) >= runs,
        bytes_after(bytes, physical, indexed) >= bytes,
{
}

} // verus!
