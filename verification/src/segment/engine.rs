//! The segment engine: options, and the course of a batch of inserts.
//!
//! A batch of inserts alternates between decisions, which are made here, and lookups,
//! reclaim and file writes, which whoever runs the batch performs and reports back.

use vstd::prelude::*;

use crate::checksum::crc32_iso_hdlc;
use crate::counter::{ceil_div, div_ceil, divides, is_multiple_of, sum_size};
use crate::error::{config_error, invalid_config, superblock_error, Error};
use crate::format::{is_stored_entry, stored_entry_checksum, stored_entry_len, stored_len};
use crate::model::{digest_of, CachePriority, EntryKey, KeyDigest};
use crate::segment::batch::{SegmentWrite, SegmentWriteResult};
use crate::segment::config::SegmentEngineOptions;
use crate::segment::format::{SegmentLayout, SegmentLocation};
use crate::segment::operation::{BatchInsertResult, BlobInsert, GetResult, InsertOutcome};
use crate::segment::read::SegmentBlobReadResult;
use crate::segment::stats::ReclaimStats;
use crate::segment::store::SegmentAllocation;
use crate::store::config::{share, PriorityCapacityFloors};
use crate::text::{decimal, push_decimal};

verus! {

/// The key size of the persistent index.
pub const INDEX_KEY_SIZE: usize = 24;

/// The value size of the persistent index.
pub const INDEX_VALUE_SIZE: usize = 32;

/// What is wrong with the options, if anything: the first of these that holds.
pub open spec fn options_fault(
    options: SegmentEngineOptions,
    floors: PriorityCapacityFloors,
    direct_io_supported: bool,
) -> Option<Seq<char>> {
    if !(1 <= options.write_concurrency <= 64) {
        Some("segment write_concurrency must be between 1 and 64"@)
    } else if options.read_run_size == 0 {
        Some("segment read_run_size must be greater than zero"@)
    } else if options.write_run_size == 0 {
        Some("segment write_run_size must be greater than zero"@)
    } else if options.checkpoint_changes == 0 {
        Some("segment checkpoint_changes must be greater than zero"@)
    } else if options.index_write_buffer_size < 64 {
        Some("segment index_write_buffer_size must fit one fixed-LSM record"@)
    } else if options.index_cache_size == 0 {
        Some("segment index_cache_size must be greater than zero"@)
    } else if !(1 <= options.hot_frequency <= 15) {
        Some("segment hot_frequency must be between 1 and 15"@)
    } else if !(1 <= options.low_hot_frequency <= 15) {
        Some("segment low_hot_frequency must be between 1 and 15"@)
    } else if floors.high() + floors.normal() > 100 {
        Some(
            "segment high and normal priority capacity floors must each be at most 100 percent and sum to at most 100"@,
        )
    } else if options.direct_io && !direct_io_supported {
        Some("direct I/O is only supported on Linux"@)
    } else {
        None
    }
}

/// Checks the options.
pub fn validate_options(
    options: SegmentEngineOptions,
    floors: PriorityCapacityFloors,
    direct_io_supported: bool,
) -> (result: Result<(), Error>)
    ensures
        match result {
            Ok(_) => options_fault(options, floors, direct_io_supported) is None,
            Err(error) => options_fault(options, floors, direct_io_supported) matches Some(text) && config_error(
                error,
                text,
            ),
        },
{
    if options.write_concurrency < 1 || options.write_concurrency > 64 {
        return Err(invalid_config("segment write_concurrency must be between 1 and 64"));
    }
    if options.read_run_size == 0 {
        return Err(invalid_config("segment read_run_size must be greater than zero"));
    }
    if options.write_run_size == 0 {
        return Err(invalid_config("segment write_run_size must be greater than zero"));
    }
    if options.checkpoint_changes == 0 {
        return Err(invalid_config("segment checkpoint_changes must be greater than zero"));
    }
    if options.index_write_buffer_size < INDEX_KEY_SIZE + INDEX_VALUE_SIZE + 8 {
        return Err(invalid_config("segment index_write_buffer_size must fit one fixed-LSM record"));
    }
    if options.index_cache_size == 0 {
        return Err(invalid_config("segment index_cache_size must be greater than zero"));
    }
    if options.hot_frequency < 1 || options.hot_frequency > 15 {
        return Err(invalid_config("segment hot_frequency must be between 1 and 15"));
    }
    if options.low_hot_frequency < 1 || options.low_hot_frequency > 15 {
        return Err(invalid_config("segment low_hot_frequency must be between 1 and 15"));
    }
    let high = floors.high_percent();
    let normal = floors.normal_percent();
    if high > 100 || normal > 100 || high as u16 + normal as u16 > 100 {
        return Err(
            invalid_config(
                "segment high and normal priority capacity floors must each be at most 100 percent and sum to at most 100",
            ),
        );
    }
    if options.direct_io && !direct_io_supported {
        return Err(invalid_config("direct I/O is only supported on Linux"));
    }
    Ok(())
}

/// The number of segments besides the reserve.
pub open spec fn usable(count: u32) -> nat {
    if count == 0 {
        0
    } else {
        (count - 1) as nat
    }
}

/// What is wrong between the sizes in the options and those of the layout, if anything.
pub open spec fn size_fault(layout: SegmentLayout, options: SegmentEngineOptions) -> Option<Seq<char>> {
    if options.segment_size != layout.segment_size {
        Some(
            "configured segment_size ("@ + decimal(options.segment_size as nat) + ") does not match the stored layout ("@
                + decimal(layout.segment_size as nat) + ")"@,
        )
    } else if !divides(layout.slot_size as nat, options.read_run_size as nat) {
        Some("segment read_run_size must be a multiple of slot_size ("@ + decimal(layout.slot_size as nat) + ")"@)
    } else if !divides(layout.slot_size as nat, options.write_run_size as nat) {
        Some("segment write_run_size must be a multiple of slot_size ("@ + decimal(layout.slot_size as nat) + ")"@)
    } else {
        None
    }
}

/// What is wrong between the options and the layout, if anything.
pub open spec fn layout_fault(
    layout: SegmentLayout,
    options: SegmentEngineOptions,
    floors: PriorityCapacityFloors,
) -> Option<Seq<char>> {
    let segments = usable(layout.segment_count);
    if size_fault(layout, options) is Some {
        size_fault(layout, options)
    } else if share(segments, floors.normal() as nat) + share(segments, floors.high() as nat) > segments {
        Some("segment priority capacity floors exceed usable segment capacity"@)
    } else {
        None
    }
}

/// Checks the options against the layout.
pub fn validate_layout_options(
    layout: SegmentLayout,
    options: SegmentEngineOptions,
    floors: PriorityCapacityFloors,
) -> (result: Result<(), Error>)
    requires
        size_fault(layout, options) is None ==> share(usable(layout.segment_count), floors.high() as nat) <= u32::MAX
            && share(usable(layout.segment_count), floors.normal() as nat) <= u32::MAX,
    ensures
        match result {
            Ok(_) => layout_fault(layout, options, floors) is None,
            Err(error) => layout_fault(layout, options, floors) matches Some(text) && config_error(error, text),
        },
{
    if options.segment_size != layout.segment_size {
        let mut text = "configured segment_size (".to_owned();
        push_decimal(&mut text, options.segment_size as u64);
        text.append(") does not match the stored layout (");
        push_decimal(&mut text, layout.segment_size as u64);
        text.append(")");
        return Err(Error::InvalidConfig(text));
    }
    if !is_multiple_of(options.read_run_size, layout.slot_size) {
        let mut text = "segment read_run_size must be a multiple of slot_size (".to_owned();
        push_decimal(&mut text, layout.slot_size as u64);
        text.append(")");
        return Err(Error::InvalidConfig(text));
    }
    if !is_multiple_of(options.write_run_size, layout.slot_size) {
        let mut text = "segment write_run_size must be a multiple of slot_size (".to_owned();
        push_decimal(&mut text, layout.slot_size as u64);
        text.append(")");
        return Err(Error::InvalidConfig(text));
    }
    let segments = layout.segment_count.saturating_sub(1);
    let kept = floors.extent_floors(segments);
    if kept[0] as u64 + kept[1] as u64 + kept[2] as u64 > segments as u64 {
        return Err(invalid_config("segment priority capacity floors exceed usable segment capacity"));
    }
    Ok(())
}

/// Checks that the index has the size that the layout gives it.
pub fn validate_index_size(index_size: u64, layout: SegmentLayout) -> (result: Result<(), Error>)
    ensures
        match result {
            Ok(_) => index_size == layout.index_capacity_bytes,
            Err(error) => index_size != layout.index_capacity_bytes && superblock_error(
                error,
                "segment index layout does not match allocator state"@,
            ),
        },
{
    if index_size != layout.index_capacity_bytes {
        return Err(crate::error::invalid_superblock("segment index layout does not match allocator state"));
    }
    Ok(())
}

/// The bytes of the index and the store together.
pub fn allocated_size(index: u64, store: u64) -> (result: Result<u64, Error>)
    ensures
        match result {
            Ok(size) => size == index + store,
            Err(error) => index + store > u64::MAX && config_error(
                error,
                "segment engine allocated size overflows u64"@,
            ),
        },
{
    match index.checked_add(store) {
        Some(size) => Ok(size),
        None => Err(invalid_config("segment engine allocated size overflows u64")),
    }
}

/// Whether the changes since the last checkpoint call for another.
pub fn checkpoint_due(dirty: usize, threshold: usize) -> (due: bool)
    ensures
        due == (dirty >= threshold),
{
    dirty >= threshold
}

/// What a lookup hands out of what was read at a location.
pub open spec fn hands_out(location: SegmentLocation, read: SegmentBlobReadResult, result: GetResult) -> bool {
    &&& result.value == read.value
    &&& result.priority == (if read.value is Some {
        Some(location.priority)
    } else {
        None
    })
    &&& result.data_slots == read.data_slots
    &&& result.data_runs == read.data_runs
    &&& result.data_bytes == read.data_bytes
}

/// What a lookup returns once the payload was read. The priority is known only where the
/// value is.
pub fn get_result(location: SegmentLocation, read: SegmentBlobReadResult) -> (result: GetResult)
    ensures
        hands_out(location, read, result),
{
    let priority = if read.value.is_some() {
        Some(location.priority)
    } else {
        None
    };
    GetResult {
        value: read.value,
        priority,
        data_slots: read.data_slots,
        data_runs: read.data_runs,
        data_bytes: read.data_bytes,
    }
}

/// What an entry must be to be stored.
pub open spec fn storable(key: Seq<u8>, value: Seq<u8>, maximum: nat) -> bool {
    value.len() > 0 && (stored_len(key.len(), value.len()) matches Some(len) && len <= maximum)
}

/// The outcome of checking that an entry can be stored.
pub open spec fn blob_validation(key: Seq<u8>, value: Seq<u8>, segment_size: usize, result: Result<(), Error>) -> bool {
    match result {
        Ok(_) => storable(key, value, segment_size as nat),
        Err(Error::EmptyValue) => value.len() == 0,
        Err(Error::StoredEntryTooLarge { len, maximum }) => {
            &&& value.len() > 0
            &&& maximum == segment_size
            &&& match stored_len(key.len(), value.len()) {
                Some(stored) => len == stored && stored > segment_size,
                None => len == usize::MAX,
            }
        },
        Err(_) => false,
    }
}

/// Checks that an entry can be stored in a segment.
pub fn validate_blob(key: &EntryKey, value: &[u8], segment_size: usize) -> (result: Result<(), Error>)
    ensures
        blob_validation(key@, value@, segment_size, result),
{
    if value.len() == 0 {
        return Err(Error::EmptyValue);
    }
    match stored_entry_len(key, value) {
        Some(len) => {
            if len > segment_size {
                return Err(Error::StoredEntryTooLarge { len, maximum: segment_size });
            }
            Ok(())
        },
        None => Err(Error::StoredEntryTooLarge { len: usize::MAX, maximum: segment_size }),
    }
}

/// What reclaim did while room was made for an entry.
#[derive(Debug, Clone, Copy)]
pub struct ReclaimResult {
    pub stats: ReclaimStats,
    pub write_runs: usize,
    pub written_bytes: usize,
}

impl Default for ReclaimResult {
    fn default() -> (result: ReclaimResult)
        ensures
            result.stats.is_zero(),
            result.write_runs == 0,
            result.written_bytes == 0,
    {
        ReclaimResult { stats: ReclaimStats::default(), write_runs: 0, written_bytes: 0 }
    }
}

impl ReclaimResult {
    /// `self` holds the work of `a` and `b` together.
    pub open spec fn is_merge_of(self, a: ReclaimResult, b: ReclaimResult) -> bool {
        &&& self.stats.is_merge_of(a.stats, b.stats)
        &&& self.write_runs == sum_size(a.write_runs, b.write_runs)
        &&& self.written_bytes == sum_size(a.written_bytes, b.written_bytes)
    }

    /// Adds other work to this.
    pub fn merge(&mut self, other: ReclaimResult)
        ensures
            final(self).is_merge_of(*old(self), other),
    {
        self.stats.merge(other.stats);
        self.write_runs = self.write_runs.saturating_add(other.write_runs);
        self.written_bytes = self.written_bytes.saturating_add(other.written_bytes);
    }
}

/// What became of a request for slots.
#[derive(Debug, Clone, Copy)]
pub enum AllocationDecision {
    Allocated(SegmentAllocation, ReclaimResult),
    /// Room can be made only once the pending entries are published.
    FlushRequired(ReclaimResult),
    Rejected(ReclaimResult),
}

/// What the index did with the entries of a publication.
#[derive(Debug)]
pub struct IndexInsertResult {
    pub outcomes: Vec<InsertOutcome>,
    pub write_runs: usize,
    pub written_bytes: usize,
}

/// An entry that has slots and waits to be published.
#[derive(Debug, Clone, Copy)]
pub struct PendingInsert<'a> {
    pub input_index: usize,
    pub allocation: SegmentAllocation,
    pub key: &'a EntryKey,
    pub key_digest: KeyDigest,
    pub value: &'a [u8],
    pub checksum: u32,
}

/// What a batch needs next.
#[derive(Debug, Clone, Copy, PartialEq, Eq)]
pub enum BatchAction {
    /// Look the key up in the index, and ask whether it would be admitted.
    Probe { key_digest: KeyDigest, priority: CachePriority },
    /// Find slots.
    Allocate { priority: CachePriority, slots: u32 },
    /// Write the pending entries and insert them in the index.
    Publish,
    /// Nothing: the insert is settled, or waits among the pending ones.
    Proceed,
    /// Nothing is left to do.
    Finish,
}

/// A batch of inserts in progress.
#[derive(Debug)]
pub struct InsertBatch<'a> {
    pub inserts: Vec<BlobInsert<'a>>,
    pub slot_size: usize,
    pub segment_size: usize,
    pub outcomes: Vec<Option<InsertOutcome>>,
    pub reclaim: ReclaimResult,
    pub write_runs: usize,
    pub written_bytes: usize,
    pub published_changes: usize,
    pub input_index: usize,
    pub pending: Vec<PendingInsert<'a>>,
}

/// The slots that an entry takes.
pub open spec fn slots_of(key: Seq<u8>, value: Seq<u8>, slot_size: nat) -> nat {
    ceil_div(stored_len(key.len(), value.len())->0, slot_size)
}

/// `checksum` is that of the stored form of the entry.
pub open spec fn is_checksum_of(checksum: u32, key: Seq<u8>, value: Seq<u8>) -> bool {
    forall|stored: Seq<u8>| #[trigger] is_stored_entry(stored, key, value) ==> checksum == crc32_iso_hdlc(stored)
}

/// `location` already holds the insert: same length, same checksum, same priority.
pub open spec fn holds_already(location: SegmentLocation, insert: BlobInsert, checksum: u32) -> bool {
    &&& stored_len(insert.key@.len(), insert.value@.len()) == Some(location.stored_len as nat)
    &&& location.checksum == checksum
    &&& location.priority == insert.priority
}

/// Some pending entry is the one of input `i`.
pub open spec fn is_pending(pending: Seq<PendingInsert>, i: int) -> bool {
    exists|k: int| 0 <= k < pending.len() && (#[trigger] pending[k]).input_index == i
}

/// Entry `k` is the last pending one with the digest.
pub open spec fn last_pending(pending: Seq<PendingInsert>, digest: Seq<u8>, k: int) -> bool {
    &&& 0 <= k < pending.len()
    &&& pending[k].key_digest@ == digest
    &&& forall|j: int| k < j < pending.len() ==> (#[trigger] pending[j]).key_digest@ != digest
}

/// No pending entry has the digest.
pub open spec fn none_pending(pending: Seq<PendingInsert>, digest: Seq<u8>) -> bool {
    forall|j: int| 0 <= j < pending.len() ==> (#[trigger] pending[j]).key_digest@ != digest
}

impl<'a> PendingInsert<'a> {
    /// Where the entry will be found.
    pub open spec fn location(self) -> SegmentLocation {
        self.write().location()
    }

    /// The write of the entry.
    pub open spec fn write(self) -> SegmentWrite<'a> {
        SegmentWrite {
            allocation: self.allocation,
            key: self.key,
            key_digest: self.key_digest,
            value: self.value,
            checksum: self.checksum,
        }
    }
}

/// The write runs of a batch once pending entries were written and published.
pub open spec fn runs_after(before: usize, physical: SegmentWriteResult, indexed: IndexInsertResult) -> usize {
    sum_size(sum_size(sum_size(before, physical.data_runs), physical.owner_runs), indexed.write_runs)
}

/// The bytes that a batch wrote once pending entries were written and published.
pub open spec fn bytes_after(before: usize, physical: SegmentWriteResult, indexed: IndexInsertResult) -> usize {
    sum_size(sum_size(sum_size(before, physical.data_bytes), physical.owner_bytes), indexed.written_bytes)
}

impl<'a> InsertBatch<'a> {
    /// The pending entry `k` is that of its input, with the digest, the checksum and as
    /// many slots as it needs.
    pub open spec fn pending_ok(self, k: int) -> bool {
        let entry = self.pending@[k];
        let insert = self.inserts@[entry.input_index as int];
        &&& entry.input_index < self.input_index
        &&& entry.key == insert.key
        &&& entry.value == insert.value
        &&& entry.allocation.priority == insert.priority
        &&& entry.key_digest@ == digest_of(insert.key@)
        &&& is_checksum_of(entry.checksum, insert.key@, insert.value@)
        &&& entry.allocation.slots == slots_of(insert.key@, insert.value@, self.slot_size as nat)
    }

    /// Every input up to `input_index` has an outcome or is pending, in order; no other
    /// has.
    pub open spec fn wf(self) -> bool {
        &&& self.slot_size > 0
        &&& self.input_index <= self.inserts@.len()
        &&& self.outcomes@.len() == self.inserts@.len()
        &&& forall|i: int|
            0 <= i < self.inserts@.len() ==> storable(
                (#[trigger] self.inserts@[i]).key@,
                self.inserts@[i].value@,
                self.segment_size as nat,
            ) && slots_of(self.inserts@[i].key@, self.inserts@[i].value@, self.slot_size as nat) <= u32::MAX
        &&& forall|k: int| 0 <= k < self.pending@.len() ==> #[trigger] self.pending_ok(k)
        &&& forall|j: int, k: int|
            0 <= j < k < self.pending@.len() ==> (#[trigger] self.pending@[j]).input_index < (
            #[trigger] self.pending@[k]).input_index
        &&& forall|i: int|
            0 <= i < self.inserts@.len() ==> ((#[trigger] self.outcomes@[i]) is Some <==> i < self.input_index
                && !is_pending(self.pending@, i))
    }

    /// Everything but outcomes, position, pending entries and reclaim work is the same.
    pub open spec fn same_frame(self, other: InsertBatch<'a>) -> bool {
        &&& self.inserts == other.inserts
        &&& self.slot_size == other.slot_size
        &&& self.segment_size == other.segment_size
    }

    /// The counters are the same.
    pub open spec fn same_counts(self, other: InsertBatch<'a>) -> bool {
        &&& self.write_runs == other.write_runs
        &&& self.written_bytes == other.written_bytes
        &&& self.published_changes == other.published_changes
    }

    /// The insert at the position of `before` got `outcome`, and the position moved on.
    pub open spec fn settled(self, before: InsertBatch<'a>, outcome: InsertOutcome) -> bool {
        &&& self.same_frame(before)
        &&& self.same_counts(before)
        &&& self.pending == before.pending
        &&& self.outcomes@ == before.outcomes@.update(before.input_index as int, Some(outcome))
        &&& self.input_index == before.input_index + 1
    }

    /// The insert at the position.
    pub open spec fn insert(self) -> BlobInsert<'a> {
        self.inserts@[self.input_index as int]
    }

    /// A batch of inserts, if each of them can be stored.
    pub fn new(inserts: Vec<BlobInsert<'a>>, layout: SegmentLayout) -> (result: Result<InsertBatch<'a>, Error>)
        requires
            layout.slot_size > 0,
            layout.segment_size <= layout.slot_size * u32::MAX,
        ensures
            match result {
                Ok(batch) => {
                    &&& batch.wf()
                    &&& batch.inserts == inserts
                    &&& batch.slot_size == layout.slot_size
                    &&& batch.segment_size == layout.segment_size
                    &&& batch.input_index == 0
                    &&& batch.pending@.len() == 0
                    &&& batch.reclaim.stats.is_zero()
                    &&& batch.reclaim.write_runs == 0
                    &&& batch.reclaim.written_bytes == 0
                    &&& batch.write_runs == 0
                    &&& batch.written_bytes == 0
                    &&& batch.published_changes == 0
                },
                Err(error) => exists|i: int|
                    {
                        &&& 0 <= i < inserts@.len()
                        &&& !storable(
                            (#[trigger] inserts@[i]).key@,
                            inserts@[i].value@,
                            layout.segment_size as nat,
                        )
                        &&& forall|j: int|
                            0 <= j < i ==> storable(
                                (#[trigger] inserts@[j]).key@,
                                inserts@[j].value@,
                                layout.segment_size as nat,
                            )
                        &&& blob_validation(inserts@[i].key@, inserts@[i].value@, layout.segment_size, Err(error))
                    },
            },
    {
        let mut outcomes: Vec<Option<InsertOutcome>> = Vec::new();
        let mut i: usize = 0;
        while i < inserts.len()
            invariant
                i <= inserts@.len(),
                layout.slot_size > 0,
                layout.segment_size <= layout.slot_size * u32::MAX,
                outcomes@ == Seq::new(i as nat, |k: int| None::<InsertOutcome>),
                forall|j: int|
                    0 <= j < i ==> storable(
                        (#[trigger] inserts@[j]).key@,
                        inserts@[j].value@,
                        layout.segment_size as nat,
                    ) && slots_of(inserts@[j].key@, inserts@[j].value@, layout.slot_size as nat) <= u32::MAX,
            decreases inserts@.len() - i,
        {
            let insert = inserts[i];
            match validate_blob(insert.key, insert.value, layout.segment_size) {
                Ok(_) => {},
                Err(error) => {
                    assert(!storable(inserts@[i as int].key@, inserts@[i as int].value@, layout.segment_size as nat));
                    return Err(error);
                },
            }
            proof {
                let len = stored_len(insert.key@.len(), insert.value@.len())->0;
                lemma_slots_bound(len as int, layout.slot_size as int);
            }
            outcomes.push(None);
            assert(outcomes@ =~= Seq::new((i + 1) as nat, |k: int| None::<InsertOutcome>));
            i = i + 1;
        }
        Ok(
            InsertBatch {
                inserts,
                slot_size: layout.slot_size,
                segment_size: layout.segment_size,
                outcomes,
                reclaim: ReclaimResult::default(),
                write_runs: 0,
                written_bytes: 0,
                published_changes: 0,
                input_index: 0,
                pending: Vec::new(),
            },
        )
    }

    /// Gives the insert at the position an outcome.
    fn settle(&mut self, outcome: InsertOutcome)
        requires
            old(self).wf(),
            old(self).input_index < old(self).inserts@.len(),
        ensures
            final(self).wf(),
            final(self).settled(*old(self), outcome),
            final(self).reclaim == old(self).reclaim,
    {
        assert(self.inserts.len() == self.inserts@.len());
        let at = self.input_index;
        let ghost before = *self;
        self.outcomes[at] = Some(outcome);
        self.input_index = at + 1;
        proof {
            assert forall|k: int| 0 <= k < self.pending@.len() implies #[trigger] self.pending_ok(k) by {
                assert(before.pending_ok(k));
            }
            assert forall|i: int| 0 <= i < self.inserts@.len() implies ((#[trigger] self.outcomes@[i]) is Some <==> i
                < self.input_index && !is_pending(self.pending@, i)) by {
                assert(before.outcomes@[i] is Some <==> i < before.input_index && !is_pending(before.pending@, i));
                if i == at {
                    if is_pending(self.pending@, i) {
                        let k = choose|k: int|
                            0 <= k < self.pending@.len() && (#[trigger] self.pending@[k]).input_index == i;
                        assert(before.pending_ok(k));
                    }
                }
            }
        }
    }

    /// Where the last pending entry with the digest will be found.
    fn pending_location(&self, digest: &KeyDigest) -> (found: Option<SegmentLocation>)
        requires
            self.wf(),
        ensures
            match found {
                Some(location) => exists|k: int| #[trigger]
                    last_pending(self.pending@, digest@, k) && location == self.pending@[k].location(),
                None => none_pending(self.pending@, digest@),
            },
    {
        let mut k: usize = self.pending.len();
        while k > 0
            invariant
                self.wf(),
                k <= self.pending@.len(),
                forall|j: int| k <= j < self.pending@.len() ==> (#[trigger] self.pending@[j]).key_digest@ != digest@,
            decreases k,
        {
            k = k - 1;
            let entry = self.pending[k];
            if entry.key_digest.same(digest) {
                assert(self.pending_ok(k as int));
                let len = match stored_entry_len(entry.key, entry.value) {
                    Some(len) => len,
                    None => 0,
                };
                let location = SegmentLocation {
                    physical_slot: entry.allocation.physical_slot,
                    segment_generation: entry.allocation.segment_generation,
                    stored_len: len as u32,
                    checksum: entry.checksum,
                    priority: entry.allocation.priority,
                };
                assert(last_pending(self.pending@, digest@, k as int));
                assert(location == self.pending@[k as int].location());
                return Some(location);
            }
        }
        None
    }

    /// Whether `location` already holds the insert at the position.
    fn is_held_at(&self, location: SegmentLocation) -> (held: bool)
        requires
            self.wf(),
            self.input_index < self.inserts@.len(),
        ensures
            exists|checksum: u32|
                #![trigger holds_already(location, self.insert(), checksum)]
                is_checksum_of(checksum, self.insert().key@, self.insert().value@) && held == holds_already(
                    location,
                    self.insert(),
                    checksum,
                ),
    {
        let insert = self.inserts[self.input_index];
        let len = match stored_entry_len(insert.key, insert.value) {
            Some(len) => len,
            None => 0,
        };
        let checksum = stored_entry_checksum(insert.key, insert.value);
        let held = location.stored_len as usize == len && location.checksum == checksum && insert.priority
            == location.priority;
        assert(is_checksum_of(checksum, self.insert().key@, self.insert().value@));
        assert(held == holds_already(location, self.insert(), checksum));
        held
    }

    /// The request for the slots of the insert at the position.
    pub open spec fn wants_slots(self, action: BatchAction) -> bool {
        action == (BatchAction::Allocate {
            priority: self.insert().priority,
            slots: slots_of(self.insert().key@, self.insert().value@, self.slot_size as nat) as u32,
        })
    }

    fn slots_for_insert(&self) -> (slots: u32)
        requires
            self.wf(),
            self.input_index < self.inserts@.len(),
        ensures
            slots == slots_of(self.insert().key@, self.insert().value@, self.slot_size as nat),
    {
        let insert = self.inserts[self.input_index];
        let len = match stored_entry_len(insert.key, insert.value) {
            Some(len) => len,
            None => 0,
        };
        div_ceil(len, self.slot_size) as u32
    }

    /// What a batch does next.
    pub open spec fn proceeds(self, after: InsertBatch<'a>, action: BatchAction) -> bool {
        let digest = digest_of(self.insert().key@);
        &&& after.reclaim == self.reclaim
        &&& if self.input_index == self.inserts@.len() {
            &&& after == self
            &&& action == if self.pending@.len() == 0 {
                BatchAction::Finish
            } else {
                BatchAction::Publish
            }
        } else {
            ||| {
                &&& none_pending(self.pending@, digest)
                &&& action matches BatchAction::Probe { key_digest, priority } && key_digest@ == digest && priority
                    == self.insert().priority
                &&& after == self
            }
            ||| exists|k: int, checksum: u32|
                #![trigger last_pending(self.pending@, digest, k), is_checksum_of(checksum, self.insert().key@, self.insert().value@)]
                {
                    &&& last_pending(self.pending@, digest, k)
                    &&& is_checksum_of(checksum, self.insert().key@, self.insert().value@)
                    &&& if holds_already(self.pending@[k].location(), self.insert(), checksum) {
                        action == BatchAction::Proceed && after.settled(self, InsertOutcome::Updated)
                    } else {
                        self.wants_slots(action) && after == self
                    }
                }
        }
    }

    /// What is needed next. An insert that a pending entry of the same key already makes
    /// good is settled at once.
    pub fn next(&mut self) -> (action: BatchAction)
        requires
            old(self).wf(),
        ensures
            final(self).wf(),
            old(self).proceeds(*final(self), action),
    {
        if self.input_index == self.inserts.len() {
            return if self.pending.len() == 0 {
                BatchAction::Finish
            } else {
                BatchAction::Publish
            };
        }
        let insert = self.inserts[self.input_index];
        let key_digest = KeyDigest::for_key(insert.key);
        match self.pending_location(&key_digest) {
            Some(location) => {
                let ghost before = *self;
                if self.is_held_at(location) {
                    self.settle(InsertOutcome::Updated);
                    BatchAction::Proceed
                } else {
                    BatchAction::Allocate { priority: insert.priority, slots: self.slots_for_insert() }
                }
            },
            None => BatchAction::Probe { key_digest, priority: insert.priority },
        }
    }

    /// What the answer of the index does to the insert at the position.
    pub open spec fn answered(
        self,
        after: InsertBatch<'a>,
        found: Option<SegmentLocation>,
        would_admit: bool,
        action: BatchAction,
    ) -> bool {
        &&& after.reclaim == self.reclaim
        &&& match found {
            Some(location) => exists|checksum: u32|
                #![trigger is_checksum_of(checksum, self.insert().key@, self.insert().value@)]
                is_checksum_of(checksum, self.insert().key@, self.insert().value@) && if holds_already(
                    location,
                    self.insert(),
                    checksum,
                ) {
                    action == BatchAction::Proceed && after.settled(self, InsertOutcome::Updated)
                } else {
                    self.wants_slots(action) && after == self
                },
            None => if would_admit {
                self.wants_slots(action) && after == self
            } else {
                action == BatchAction::Proceed && after.settled(self, InsertOutcome::Rejected)
            },
        }
    }

    /// Takes the answer of the index: where the key is now, and whether a new key would be
    /// admitted. An entry that is already there is left alone, a key that is neither there
    /// nor admitted is rejected, and any other entry needs slots.
    pub fn probed(&mut self, found: Option<SegmentLocation>, would_admit: bool) -> (action: BatchAction)
        requires
            old(self).wf(),
            old(self).input_index < old(self).inserts@.len(),
        ensures
            final(self).wf(),
            old(self).answered(*final(self), found, would_admit, action),
    {
        let priority = self.inserts[self.input_index].priority;
        match found {
            Some(location) => {
                if self.is_held_at(location) {
                    self.settle(InsertOutcome::Updated);
                    return BatchAction::Proceed;
                }
            },
            None => {
                if !would_admit {
                    self.settle(InsertOutcome::Rejected);
                    return BatchAction::Proceed;
                }
            },
        }
        BatchAction::Allocate { priority, slots: self.slots_for_insert() }
    }

    /// What the outcome of an allocation does to the insert at the position: an entry with
    /// slots joins the pending ones, and one that gets none is rejected.
    pub open spec fn follows(self, after: InsertBatch<'a>, decision: AllocationDecision, action: BatchAction) -> bool {
        match decision {
            AllocationDecision::Allocated(allocation, reclaimed) => {
                let entry = after.pending@.last();
                &&& action == BatchAction::Proceed
                &&& after.reclaim.is_merge_of(self.reclaim, reclaimed)
                &&& after.same_frame(self)
                &&& after.same_counts(self)
                &&& after.outcomes == self.outcomes
                &&& after.input_index == self.input_index + 1
                &&& after.pending@ == self.pending@.push(entry)
                &&& entry.input_index == self.input_index
                &&& entry.allocation == allocation
            },
            AllocationDecision::FlushRequired(reclaimed) => {
                &&& action == BatchAction::Publish
                &&& after.reclaim.is_merge_of(self.reclaim, reclaimed)
                &&& after == (InsertBatch { reclaim: after.reclaim, ..self })
            },
            AllocationDecision::Rejected(reclaimed) => {
                &&& action == BatchAction::Proceed
                &&& after.reclaim.is_merge_of(self.reclaim, reclaimed)
                &&& after.settled(self, InsertOutcome::Rejected)
            },
        }
    }

    /// Takes the answer of the allocator. An entry with slots joins the pending ones.
    pub fn allocated(&mut self, decision: AllocationDecision) -> (action: BatchAction)
        requires
            old(self).wf(),
            old(self).input_index < old(self).inserts@.len(),
            decision is FlushRequired ==> old(self).pending@.len() > 0,
            decision matches AllocationDecision::Allocated(allocation, _) ==> allocation.priority
                == old(self).insert().priority && allocation.slots == slots_of(
                old(self).insert().key@,
                old(self).insert().value@,
                old(self).slot_size as nat,
            ),
        ensures
            final(self).wf(),
            old(self).follows(*final(self), decision, action),
    {
        let ghost before = *self;
        assert(self.inserts.len() == self.inserts@.len());
        match decision {
            AllocationDecision::Allocated(allocation, reclaimed) => {
                let at = self.input_index;
                let insert = self.inserts[at];
                self.reclaim.merge(reclaimed);
                let entry = PendingInsert {
                    input_index: at,
                    allocation,
                    key: insert.key,
                    key_digest: KeyDigest::for_key(insert.key),
                    value: insert.value,
                    checksum: stored_entry_checksum(insert.key, insert.value),
                };
                self.pending.push(entry);
                self.input_index = at + 1;
                proof {
                    assert forall|k: int| 0 <= k < self.pending@.len() implies #[trigger] self.pending_ok(k) by {
                        if k < before.pending@.len() {
                            assert(before.pending_ok(k));
                        }
                    }
                    assert forall|j: int, k: int| 0 <= j < k < self.pending@.len() implies (
                    #[trigger] self.pending@[j]).input_index < (#[trigger] self.pending@[k]).input_index by {
                        assert(before.pending_ok(j));
                    }
                    assert forall|i: int| 0 <= i < self.inserts@.len() implies ((#[trigger] self.outcomes@[i]) is Some
                        <==> i < self.input_index && !is_pending(self.pending@, i)) by {
                        assert(before.outcomes@[i] is Some <==> i < before.input_index && !is_pending(
                            before.pending@,
                            i,
                        ));
                        if is_pending(before.pending@, i) {
                            let k = choose|k: int|
                                0 <= k < before.pending@.len() && (#[trigger] before.pending@[k]).input_index == i;
                            assert(self.pending@[k].input_index == i);
                        }
                        if i == at {
                            assert(self.pending@[self.pending@.len() - 1].input_index == i);
                        }
                        if is_pending(self.pending@, i) && i < at {
                            let k = choose|k: int|
                                0 <= k < self.pending@.len() && (#[trigger] self.pending@[k]).input_index == i;
                            assert(before.pending@[k].input_index == i);
                        }
                    }
                }
                BatchAction::Proceed
            },
            AllocationDecision::FlushRequired(reclaimed) => {
                self.reclaim.merge(reclaimed);
                assert forall|k: int| 0 <= k < self.pending@.len() implies #[trigger] self.pending_ok(k) by {
                    assert(before.pending_ok(k));
                }
                BatchAction::Publish
            },
            AllocationDecision::Rejected(reclaimed) => {
                self.reclaim.merge(reclaimed);
                assert forall|k: int| 0 <= k < self.pending@.len() implies #[trigger] self.pending_ok(k) by {
                    assert(before.pending_ok(k));
                }
                self.settle(InsertOutcome::Rejected);
                BatchAction::Proceed
            },
        }
    }

    /// The writes of the pending entries, in order.
    pub fn writes(&self) -> (writes: Vec<SegmentWrite<'a>>)
        requires
            self.wf(),
        ensures
            writes@ == Seq::new(self.pending@.len(), |k: int| self.pending@[k].write()),
            forall|k: int| 0 <= k < writes@.len() ==> (#[trigger] writes@[k]).size() is Some,
            forall|k: int, layout: SegmentLayout|
                0 <= k < writes@.len() && layout.slot_size == self.slot_size && layout.segment_size
                    == self.segment_size ==> #[trigger] writes@[k].fits(layout),
    {
        let mut writes: Vec<SegmentWrite<'a>> = Vec::new();
        let mut k: usize = 0;
        while k < self.pending.len()
            invariant
                k <= self.pending@.len(),
                writes@ == Seq::new(k as nat, |j: int| self.pending@[j].write()),
            decreases self.pending@.len() - k,
        {
            let entry = self.pending[k];
            writes.push(
                SegmentWrite {
                    allocation: entry.allocation,
                    key: entry.key,
                    key_digest: entry.key_digest,
                    value: entry.value,
                    checksum: entry.checksum,
                },
            );
            assert(writes@ =~= Seq::new((k + 1) as nat, |j: int| self.pending@[j].write()));
            k = k + 1;
        }
        proof {
            assert forall|k: int| 0 <= k < writes@.len() implies (#[trigger] writes@[k]).size() is Some by {
                assert(self.pending_ok(k));
                let insert = self.inserts@[self.pending@[k].input_index as int];
            }
            assert forall|k: int, layout: SegmentLayout|
                0 <= k < writes@.len() && layout.slot_size == self.slot_size && layout.segment_size
                    == self.segment_size implies #[trigger] writes@[k].fits(layout) by {
                assert(self.pending_ok(k));
                let insert = self.inserts@[self.pending@[k].input_index as int];
            }
        }
        writes
    }

    /// The digest of each pending entry with its location.
    pub open spec fn located(self, locations: Seq<SegmentLocation>) -> Seq<(KeyDigest, SegmentLocation)> {
        Seq::new(self.pending@.len(), |k: int| (self.pending@[k].key_digest, locations[k]))
    }

    /// What goes into the index for the pending entries, once they are written.
    pub fn index_inserts(&self, physical: &SegmentWriteResult) -> (inserts: Vec<(KeyDigest, SegmentLocation)>)
        requires
            physical.locations@.len() == self.pending@.len(),
        ensures
            inserts@ == self.located(physical.locations@),
    {
        let mut inserts: Vec<(KeyDigest, SegmentLocation)> = Vec::new();
        let mut k: usize = 0;
        while k < self.pending.len()
            invariant
                k <= self.pending@.len(),
                physical.locations@.len() == self.pending@.len(),
                inserts@ == Seq::new(k as nat, |j: int| (self.pending@[j].key_digest, physical.locations@[j])),
            decreases self.pending@.len() - k,
        {
            inserts.push((self.pending[k].key_digest, physical.locations[k]));
            assert(inserts@ =~= Seq::new(
                (k + 1) as nat,
                |j: int| (self.pending@[j].key_digest, physical.locations@[j]),
            ));
            k = k + 1;
        }
        inserts
    }

    /// Takes what the writes and the index did with the pending entries. Each gets the
    /// outcome that the index gave it, and nothing is pending any more.
    pub fn published(&mut self, physical: &SegmentWriteResult, indexed: &IndexInsertResult)
        requires
            old(self).wf(),
            indexed.outcomes@.len() == old(self).pending@.len(),
        ensures
            final(self).wf(),
            final(self).same_frame(*old(self)),
            final(self).reclaim == old(self).reclaim,
            final(self).input_index == old(self).input_index,
            final(self).pending@.len() == 0,
            forall|k: int|
                0 <= k < old(self).pending@.len() ==> final(self).outcomes@[(
                #[trigger] old(self).pending@[k]).input_index as int] == Some(indexed.outcomes@[k]),
            forall|i: int|
                0 <= i < old(self).outcomes@.len() && !is_pending(old(self).pending@, i)
                    ==> #[trigger] final(self).outcomes@[i] == old(self).outcomes@[i],
            final(self).write_runs == runs_after(old(self).write_runs, *physical, *indexed),
            final(self).written_bytes == bytes_after(old(self).written_bytes, *physical, *indexed),
            final(self).published_changes == sum_size(
                old(self).published_changes,
                changed_slots(old(self).pending@, indexed.outcomes@, old(self).pending@.len()),
            ),
    {
        let ghost before = *self;
        let mut changed: usize = 0;
        let mut k: usize = 0;
        while k < self.pending.len()
            invariant
                before.wf(),
                k <= self.pending@.len(),
                self.pending == before.pending,
                self.inserts == before.inserts,
                self.input_index == before.input_index,
                self.same_frame(before),
                self.same_counts(before),
                self.reclaim == before.reclaim,
                self.outcomes@.len() == before.outcomes@.len(),
                before.outcomes@.len() == before.inserts@.len(),
                indexed.outcomes@.len() == before.pending@.len(),
                changed == changed_slots(before.pending@, indexed.outcomes@, k as nat),
                forall|j: int|
                    0 <= j < k ==> self.outcomes@[(#[trigger] before.pending@[j]).input_index as int] == Some(
                        indexed.outcomes@[j],
                    ),
                forall|i: int|
                    0 <= i < before.outcomes@.len() && !is_pending(before.pending@, i)
                        ==> #[trigger] self.outcomes@[i] == before.outcomes@[i],
            decreases self.pending@.len() - k,
        {
            let entry = self.pending[k];
            let outcome = indexed.outcomes[k];
            assert(before.pending_ok(k as int));
            if outcome != InsertOutcome::Rejected {
                changed = changed.saturating_add(entry.allocation.slots as usize);
            }
            assert(is_pending(before.pending@, entry.input_index as int)) by {
                assert(before.pending@[k as int].input_index == entry.input_index);
            }
            self.outcomes[entry.input_index] = Some(outcome);
            k = k + 1;
        }
        self.pending.clear();
        self.published_changes = self.published_changes.saturating_add(changed);
        self.write_runs = self.write_runs.saturating_add(physical.data_runs).saturating_add(
            physical.owner_runs,
        ).saturating_add(indexed.write_runs);
        self.written_bytes = self.written_bytes.saturating_add(physical.data_bytes).saturating_add(
            physical.owner_bytes,
        ).saturating_add(indexed.written_bytes);
        proof {
            assert forall|i: int| 0 <= i < self.inserts@.len() implies ((#[trigger] self.outcomes@[i]) is Some <==> i
                < self.input_index && !is_pending(self.pending@, i)) by {
                assert(before.outcomes@[i] is Some <==> i < before.input_index && !is_pending(before.pending@, i));
                assert(!is_pending(self.pending@, i));
                if is_pending(before.pending@, i) {
                    let k = choose|k: int|
                        0 <= k < before.pending@.len() && (#[trigger] before.pending@[k]).input_index == i;
                    assert(before.pending_ok(k));
                }
            }
        }
    }

    /// The result of the batch, once every insert is settled, and how many slots of changes
    /// were published.
    pub fn finish(self) -> (summary: (usize, BatchInsertResult))
        requires
            self.wf(),
            self.input_index == self.inserts@.len(),
            self.pending@.len() == 0,
        ensures
            summary.0 == self.published_changes,
            summary.1.outcomes@.len() == self.inserts@.len(),
            forall|i: int|
                0 <= i < self.inserts@.len() ==> self.outcomes@[i] == Some(#[trigger] summary.1.outcomes@[i]),
            summary.1.write_runs == sum_size(self.write_runs, self.reclaim.write_runs),
            summary.1.written_bytes == sum_size(self.written_bytes, self.reclaim.written_bytes),
            summary.1.reclaim == self.reclaim.stats,
    {
        let mut outcomes: Vec<InsertOutcome> = Vec::new();
        let mut i: usize = 0;
        while i < self.outcomes.len()
            invariant
                self.wf(),
                self.input_index == self.inserts@.len(),
                self.pending@.len() == 0,
                i <= self.outcomes@.len(),
                outcomes@.len() == i,
                forall|j: int| 0 <= j < i ==> self.outcomes@[j] == Some(#[trigger] outcomes@[j]),
            decreases self.outcomes@.len() - i,
        {
            assert(self.outcomes@[i as int] is Some) by {
                assert(!is_pending(self.pending@, i as int));
            }
            if let Some(outcome) = self.outcomes[i] {
                outcomes.push(outcome);
            }
            i = i + 1;
        }
        (
            self.published_changes,
            BatchInsertResult {
                outcomes,
                write_runs: self.write_runs.saturating_add(self.reclaim.write_runs),
                written_bytes: self.written_bytes.saturating_add(self.reclaim.written_bytes),
                reclaim: self.reclaim.stats,
            },
        )
    }
}

/// The slots of the first `n` entries that the index did not reject.
pub open spec fn changed_slots(pending: Seq<PendingInsert>, outcomes: Seq<InsertOutcome>, n: nat) -> usize
    decreases n,
{
    if n == 0 {
        0
    } else {
        let before = changed_slots(pending, outcomes, (n - 1) as nat);
        if outcomes[n - 1] == InsertOutcome::Rejected {
            before
        } else {
            sum_size(before, pending[n - 1].allocation.slots as usize)
        }
    }
}

proof fn lemma_slots_bound(len: int, slot_size: int)
    requires
        0 <= len <= slot_size * u32::MAX,
        slot_size > 0,
    ensures
        ceil_div(len as nat, slot_size as nat) <= u32::MAX,
{
    vstd::arithmetic::div_mod::lemma_fundamental_div_mod(len, slot_size);
    let q = len / slot_size;
    let r = len % slot_size;
    assert(q <= u32::MAX && (r != 0 ==> q < u32::MAX)) by (nonlinear_arith)
        requires
            len == slot_size * q + r,
            0 <= r < slot_size,
            len <= slot_size * u32::MAX,
            slot_size > 0,
    ;
}

/// When a batch is done every insert has an outcome.
pub proof fn law_every_insert_has_an_outcome(batch: InsertBatch)
    requires
        batch.wf(),
        batch.input_index == batch.inserts@.len(),
        batch.pending@.len() == 0,
    ensures
        forall|i: int| 0 <= i < batch.inserts@.len() ==> (#[trigger] batch.outcomes@[i]) is Some,
{
    assert forall|i: int| 0 <= i < batch.inserts@.len() implies (#[trigger] batch.outcomes@[i]) is Some by {
        assert(!is_pending(batch.pending@, i));
    }
}

/// The options are accepted for a layout exactly where they name its segment size, the
/// runs are whole slots and the floors leave no priority more than there is.
pub proof fn law_options_are_accepted_for_their_layout(
    layout: SegmentLayout,
    options: SegmentEngineOptions,
    floors: PriorityCapacityFloors,
)
    requires
        layout.segment_count > 0,
        layout.slot_size > 0,
    ensures
        layout_fault(layout, options, floors) is None <==> {
            &&& options.segment_size == layout.segment_size
            &&& options.read_run_size as nat % layout.slot_size as nat == 0
            &&& options.write_run_size as nat % layout.slot_size as nat == 0
            &&& share((layout.segment_count - 1) as nat, floors.normal() as nat) + share(
                (layout.segment_count - 1) as nat,
                floors.high() as nat,
            ) <= layout.segment_count - 1
        },
{
}

/// An entry can be stored exactly where its value holds something and its stored form fits
/// a segment.
pub proof fn law_entries_that_fit_can_be_stored(key: Seq<u8>, value: Seq<u8>, maximum: nat)
    requires
        key.len() <= 1024,
    ensures
        storable(key, value, maximum) <==> value.len() >= 1 && 16 + key.len() + value.len() <= maximum && 16
            + key.len() + value.len() <= 0xffff_ffff,
{
}

/// An insert of what is already there is left alone: where the index holds a location with
/// the length, the checksum and the priority of the insert, nothing is written and the
/// insert is done. One that is neither there nor admitted is rejected, and any other is
/// written.
pub proof fn law_only_an_exact_match_is_left_alone<'a>(
    before: InsertBatch<'a>,
    after: InsertBatch<'a>,
    found: Option<SegmentLocation>,
    would_admit: bool,
    action: BatchAction,
    stored: Seq<u8>,
)
    requires
        before.wf(),
        before.input_index < before.inserts@.len(),
        before.answered(after, found, would_admit, action),
        is_stored_entry(stored, before.insert().key@, before.insert().value@),
    ensures
        ({
            let insert = before.inserts@[before.input_index as int];
            let exact = found matches Some(location) && location.stored_len == stored.len() && location.checksum
                == crc32_iso_hdlc(stored) && location.priority == insert.priority;
            let outcome = after.outcomes@[before.input_index as int];
            &&& after.pending@ == before.pending@
            &&& exact ==> action == BatchAction::Proceed && outcome == Some(InsertOutcome::Updated)
            &&& found is None && !would_admit ==> action == BatchAction::Proceed && outcome == Some(
                InsertOutcome::Rejected,
            )
            &&& !exact && (found is Some || would_admit) ==> action is Allocate && after.outcomes@ == before.outcomes@
                && after.input_index == before.input_index
            &&& action == BatchAction::Proceed ==> after.input_index == before.input_index + 1
        }),
{
    let insert = before.inserts@[before.input_index as int];
    assert(storable(insert.key@, insert.value@, before.segment_size as nat));
}

/// An entry asks for just as many slots as its stored form takes, under its own priority.
pub proof fn law_entries_ask_for_the_slots_they_take<'a>(batch: InsertBatch<'a>, action: BatchAction)
    requires
        batch.wf(),
        batch.input_index < batch.inserts@.len(),
        batch.slot_size > 0,
        batch.wants_slots(action),
        slots_of(batch.insert().key@, batch.insert().value@, batch.slot_size as nat) <= u32::MAX,
    ensures
        ({
            let len = 16 + batch.insert().key@.len() + batch.insert().value@.len();
            action matches BatchAction::Allocate { priority, slots } && priority == batch.insert().priority && slots
                * batch.slot_size >= len && (slots - 1) * batch.slot_size < len
        }),
{
    let insert = batch.inserts@[batch.input_index as int];
    assert(storable(insert.key@, insert.value@, batch.segment_size as nat));
    let len = (16 + insert.key@.len() + insert.value@.len()) as int;
    let size = batch.slot_size as int;
    vstd::arithmetic::div_mod::lemma_fundamental_div_mod(len, size);
    let q = len / size;
    assert((q + 1) * size == q * size + size) by (nonlinear_arith);
    assert((q - 1) * size == q * size - size) by (nonlinear_arith);
    assert(size * q == q * size) by (nonlinear_arith);
}

/// Every published entry that the index took adds its own slots to the changes, and a
/// rejected one adds none.
pub proof fn law_changes_count_what_the_index_took(pending: Seq<PendingInsert>, outcomes: Seq<InsertOutcome>, n: nat)
    requires
        n < pending.len(),
        changed_slots(pending, outcomes, n) + pending[n as int].allocation.slots <= usize::MAX,
    ensures
        changed_slots(pending, outcomes, 0) == 0,
        changed_slots(pending, outcomes, n + 1) == changed_slots(pending, outcomes, n) + (if outcomes[n as int]
            == InsertOutcome::Rejected {
            0int
        } else {
            pending[n as int].allocation.slots as int
        }),
{
}

/// The options are accepted exactly within their bounds.
pub proof fn law_options_are_accepted_within_their_bounds(
    options: SegmentEngineOptions,
    floors: PriorityCapacityFloors,
    direct_io_supported: bool,
)
    ensures
        options_fault(options, floors, direct_io_supported) is None <==> {
            &&& 1 <= options.write_concurrency <= 64
            &&& options.read_run_size >= 1
            &&& options.write_run_size >= 1
            &&& options.checkpoint_changes >= 1
            &&& options.index_write_buffer_size >= 64
            &&& options.index_cache_size >= 1
            &&& 1 <= options.hot_frequency <= 15
            &&& 1 <= options.low_hot_frequency <= 15
            &&& floors.high() + floors.normal() <= 100
            &&& options.direct_io ==> direct_io_supported
        },
{
}

/// An entry is accepted exactly where it has a value and fits a whole segment; one without a
/// value is told apart from one that is too long, and that is refused with what it takes.
pub proof fn law_entries_are_refused_for_what_is_wrong(
    key: Seq<u8>,
    value: Seq<u8>,
    segment_size: usize,
    result: Result<(), Error>,
)
    requires
        key.len() <= 1024,
        blob_validation(key, value, segment_size, result),
    ensures
        result is Ok <==> value.len() >= 1 && 16 + key.len() + value.len() <= segment_size && 16 + key.len()
            + value.len() <= 0xffff_ffff,
        result matches Err(error) ==> (error is EmptyValue <==> value.len() == 0),
        result matches Err(error) ==> (value.len() > 0 ==> error is StoredEntryTooLarge
            && error->StoredEntryTooLarge_maximum == segment_size),
        result matches Err(error) ==> (value.len() > 0 && 16 + key.len() + value.len() <= 0xffff_ffff ==>
            error->StoredEntryTooLarge_len == 16 + key.len() + value.len()),
{
}

/// A batch reports every run and every byte that was written for it, of the data, of the
/// owner records and of the index, wherever that many can be counted.
pub proof fn law_a_batch_reports_all_that_it_wrote(
    runs: usize,
    bytes: usize,
    physical: SegmentWriteResult,
    indexed: IndexInsertResult,
)
    ensures
        runs + physical.data_runs + physical.owner_runs + indexed.write_runs <= usize::MAX ==> runs_after(
            runs,
            physical,
            indexed,
        ) == runs + physical.data_runs + physical.owner_runs + indexed.write_runs,
        bytes + physical.data_bytes + physical.owner_bytes + indexed.written_bytes <= usize::MAX ==> bytes_after(
            bytes,
            physical,
            indexed,
        ) == bytes + physical.data_bytes + physical.owner_bytes + indexed.written_bytes,
        runs_after(runs, physical, indexed) >= runs,
        bytes_after(bytes, physical, indexed) >= bytes,
{
}

} // verus!
