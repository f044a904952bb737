//! The extent pool: byte-packed allocation, liveness, reclaim candidates and
//! checkpoints.
//!
//! The pool holds the allocator state and decides what is written where. Whoever owns
//! the files performs the reads and writes, and reports back.

use vstd::prelude::*;

use crate::error::{superblock_error, Error};
use crate::format::{ContentDigest, PAGE_SIZE};
use crate::model::{rank, CachePriority};
use crate::store::format::StoreLayout;
use crate::store::stats::{no_writes, ExtentOccupancy, PhysicalWriteStats};

verus! {

/// The message of a state error.
pub open spec fn state_text(message: Seq<char>) -> Seq<char> {
    "extent state: "@ + message
}

/// A state error with the given message.
pub(crate) fn invalid_state(message: &str) -> (error: Error)
    ensures
        superblock_error(error, state_text(message@)),
{
    let mut text = "extent state: ".to_owned();
    text.append(message);
    Error::InvalidSuperblock(text)
}

/// `result` fails with the given state error.
pub open spec fn fails<T>(result: Result<T, Error>, message: Seq<char>) -> bool {
    result matches Err(error) && superblock_error(error, state_text(message))
}

/// The shape of a pool.
#[derive(Debug, Clone, Copy, PartialEq, Eq, Structural)]
pub struct PoolLayout {
    pub extent_size: usize,
    pub extent_count: u32,
    pub planned_entries_per_extent: u32,
    pub maximum_entries_per_extent: u32,
    pub state_copy_size: usize,
}

/// The bytes of the smallest stored entry: its header, a key and a value of one byte each.
pub const SMALLEST_ENTRY_SIZE: usize = 18;

/// The shape of the pool of a store: it plans for an entry in each slot, and takes as many
/// entries as fit.
pub open spec fn pool_shape(layout: StoreLayout) -> PoolLayout {
    PoolLayout {
        extent_size: layout.extent_size,
        extent_count: layout.extent_count,
        planned_entries_per_extent: layout.slots_per_extent,
        maximum_entries_per_extent: if layout.extent_size / SMALLEST_ENTRY_SIZE <= u32::MAX {
            (layout.extent_size / SMALLEST_ENTRY_SIZE) as u32
        } else {
            u32::MAX
        },
        state_copy_size: layout.state_copy_size,
    }
}

impl PoolLayout {
    /// The shape of the pool of a store, if the store's extents can be packed.
    pub fn for_store(layout: StoreLayout) -> (pool: Option<PoolLayout>)
        ensures
            pool == (if pool_shape(layout).wf() {
                Some(pool_shape(layout))
            } else {
                None
            }),
    {
        let entries: usize = layout.extent_size / SMALLEST_ENTRY_SIZE;
        let pool = PoolLayout {
            extent_size: layout.extent_size,
            extent_count: layout.extent_count,
            planned_entries_per_extent: layout.slots_per_extent,
            maximum_entries_per_extent: if entries as u64 <= u32::MAX as u64 {
                entries as u32
            } else {
                u32::MAX
            },
            state_copy_size: layout.state_copy_size,
        };
        if pool.is_valid() {
            Some(pool)
        } else {
            None
        }
    }

    /// Extents are whole pages, every offset fits its type, and an extent can hold an entry.
    pub open spec fn wf(self) -> bool {
        &&& 0 < self.extent_size <= u32::MAX
        &&& self.extent_size % 4096 == 0
        &&& self.extent_count > 0
        &&& self.extent_count * self.extent_size <= u64::MAX - 4096
        &&& self.maximum_entries_per_extent > 0
    }

    /// Whether the layout is well formed.
    pub fn is_valid(self) -> (valid: bool)
        ensures
            valid == self.wf(),
    {
        if self.extent_size == 0 || self.extent_size as u64 > u32::MAX as u64 || self.extent_size % PAGE_SIZE != 0 {
            return false;
        }
        if self.extent_count == 0 || self.maximum_entries_per_extent == 0 {
            return false;
        }
        match (self.extent_count as u64).checked_mul(self.extent_size as u64) {
            Some(bytes) => bytes <= u64::MAX - 4096,
            None => false,
        }
    }

    /// The offset of a byte of an extent in the data file.
    pub open spec fn offset_of(self, extent: nat, offset: nat) -> nat {
        extent * self.extent_size as nat + offset
    }

    /// The place of a byte of an extent in the data file.
    pub fn data_offset(self, extent: u32, extent_offset: u32) -> (offset: Option<u64>)
        requires
            self.wf(),
        ensures
            match offset {
                Some(found) => extent < self.extent_count && extent_offset < self.extent_size && found
                    == self.offset_of(extent as nat, extent_offset as nat),
                None => extent >= self.extent_count || extent_offset >= self.extent_size,
            },
    {
        if extent < self.extent_count && (extent_offset as usize) < self.extent_size {
            assert(extent * self.extent_size + self.extent_size <= self.extent_count * self.extent_size)
                by (nonlinear_arith)
                requires
                    extent + 1 <= self.extent_count,
            ;
            Some(extent as u64 * self.extent_size as u64 + extent_offset as u64)
        } else {
            None
        }
    }

    /// The extent that holds a byte of the data file, and the byte's offset in it.
    pub fn locate_data_offset(self, data_offset: u64) -> (place: Option<(u32, u32)>)
        requires
            self.wf(),
        ensures
            match place {
                Some((extent, offset)) => extent < self.extent_count && offset < self.extent_size && data_offset
                    == self.offset_of(extent as nat, offset as nat),
                None => data_offset >= self.extent_count * self.extent_size,
            },
    {
        let size = self.extent_size as u64;
        let extent = data_offset / size;
        let offset = data_offset % size;
        proof {
            vstd::arithmetic::div_mod::lemma_fundamental_div_mod(data_offset as int, size as int);
            assert(size * extent == extent * size) by (nonlinear_arith);
        }
        if extent < self.extent_count as u64 {
            Some((extent as u32, offset as u32))
        } else {
            assert(extent * size >= self.extent_count * size) by (nonlinear_arith)
                requires
                    extent >= self.extent_count,
                    size > 0,
            ;
            None
        }
    }
}

/// Placing a byte and locating it undo each other.
pub proof fn law_data_offsets_round_trip(
    layout: PoolLayout,
    extent: nat,
    offset: nat,
    other_extent: nat,
    other_offset: nat,
)
    requires
        offset < layout.extent_size,
        other_offset < layout.extent_size,
        layout.offset_of(extent, offset) == layout.offset_of(other_extent, other_offset),
    ensures
        extent == other_extent,
        offset == other_offset,
{
    let d = layout.extent_size as int;
    let n = layout.offset_of(extent, offset) as int;
    vstd::arithmetic::div_mod::lemma_fundamental_div_mod_converse(n, d, extent as int, offset as int);
    vstd::arithmetic::div_mod::lemma_fundamental_div_mod_converse(n, d, other_extent as int, other_offset as int);
}

/// What the allocator knows of one extent.
#[derive(Debug, Clone, Copy, PartialEq, Eq, Structural)]
pub struct PackedExtent {
    pub generation: u32,
    pub used_bytes: u32,
    pub entries: u32,
    /// When the extent was put to use; zero while it is free.
    pub activation_sequence: u64,
    pub priority: CachePriority,
}

impl PackedExtent {
    /// Whether the extent is not in use.
    pub open spec fn free(self) -> bool {
        self.activation_sequence == 0
    }

    /// Whether the extent is not in use.
    pub fn is_free(self) -> (free: bool)
        ensures
            free == self.free(),
    {
        self.activation_sequence == 0
    }
}

/// An extent that was never used.
pub open spec fn free_extent() -> PackedExtent {
    PackedExtent {
        generation: 1,
        used_bytes: 0,
        entries: 0,
        activation_sequence: 0,
        priority: CachePriority::Low,
    }
}

/// The state of the extent allocator.
#[derive(Debug)]
pub struct PackedState {
    pub state_generation: u64,
    pub next_activation_sequence: u64,
    pub current: [Option<u32>; 3],
    pub extents: Vec<PackedExtent>,
    pub active_page: u8,
}

/// The contents of an allocator state.
#[verifier::ext_equal]
pub struct PackedModel {
    pub state_generation: u64,
    pub next_activation_sequence: u64,
    pub current: Seq<Option<u32>>,
    pub extents: Seq<PackedExtent>,
    pub active_page: u8,
}

impl View for PackedState {
    type V = PackedModel;

    open spec fn view(&self) -> PackedModel {
        PackedModel {
            state_generation: self.state_generation,
            next_activation_sequence: self.next_activation_sequence,
            current: self.current@,
            extents: self.extents@,
            active_page: self.active_page,
        }
    }
}

impl Clone for PackedState {
    fn clone(&self) -> (copy: PackedState)
        ensures
            copy@ == self@,
    {
        let mut extents: Vec<PackedExtent> = Vec::new();
        let mut i: usize = 0;
        while i < self.extents.len()
            invariant
                i <= self.extents@.len(),
                extents@ == self.extents@.take(i as int),
            decreases self.extents@.len() - i,
        {
            extents.push(self.extents[i]);
            assert(extents@ =~= self.extents@.take(i + 1));
            i = i + 1;
        }
        assert(extents@ =~= self.extents@);
        PackedState {
            state_generation: self.state_generation,
            next_activation_sequence: self.next_activation_sequence,
            current: self.current,
            extents,
            active_page: self.active_page,
        }
    }
}

impl PackedModel {
    /// One extent replaced.
    pub open spec fn with_extent(self, i: int, state: PackedExtent) -> PackedModel {
        PackedModel { extents: self.extents.update(i, state), ..self }
    }

    /// The current extent of one priority replaced.
    pub open spec fn with_current(self, priority: CachePriority, extent: Option<u32>) -> PackedModel {
        PackedModel { current: self.current.update(rank(priority), extent), ..self }
    }

    /// A free extent becomes the current one of a priority.
    pub open spec fn activated(self, priority: CachePriority, extent: u32) -> PackedModel {
        PackedModel {
            next_activation_sequence: (self.next_activation_sequence + 1) as u64,
            ..self.with_extent(
                extent as int,
                (PackedExtent {
                    used_bytes: 0,
                    entries: 0,
                    activation_sequence: self.next_activation_sequence,
                    priority,
                    ..self.extents[extent as int]
                }),
            ).with_current(priority, Some(extent))
        }
    }

    /// The next bytes of an extent are taken for one entry.
    pub open spec fn bytes_taken(self, extent: int, len: u32) -> PackedModel {
        self.with_extent(
            extent,
            (PackedExtent {
                used_bytes: (self.extents[extent].used_bytes + len) as u32,
                entries: (self.extents[extent].entries + 1) as u32,
                ..self.extents[extent]
            }),
        )
    }

    /// An extent given back: its generation moves on and it holds nothing.
    pub open spec fn extent_reset(self, extent: int) -> PackedModel {
        self.with_extent(
            extent,
            (PackedExtent {
                generation: (self.extents[extent].generation + 1) as u32,
                used_bytes: 0,
                entries: 0,
                activation_sequence: 0,
                priority: CachePriority::Low,
            }),
        )
    }

    /// The cursor names another generation and the other page.
    pub open spec fn cursor_moved(self, generation: u64, page: u8) -> PackedModel {
        PackedModel { state_generation: generation, active_page: page, ..self }
    }

    /// `i` is the first free extent, and not the only one.
    pub open spec fn first_spare(self, i: int) -> bool {
        &&& 0 <= i < self.extents.len()
        &&& self.extents[i].free()
        &&& forall|k: int| 0 <= k < i ==> !(#[trigger] self.extents[k]).free()
        &&& exists|k: int| i < k < self.extents.len() && (#[trigger] self.extents[k]).free()
    }

    /// At most one extent is free. That one stays in reserve.
    pub open spec fn none_spare(self) -> bool {
        forall|i: int, k: int|
            0 <= i < k < self.extents.len() ==> !(#[trigger] self.extents[i]).free() || !(
            #[trigger] self.extents[k]).free()
    }

    /// One extent obeys its limits; a free one holds nothing.
    pub open spec fn extent_ok(self, layout: PoolLayout, i: int) -> bool {
        let extent = self.extents[i];
        &&& extent.used_bytes <= layout.extent_size
        &&& extent.entries <= layout.maximum_entries_per_extent
        &&& extent.activation_sequence < self.next_activation_sequence
        &&& extent.free() ==> extent.used_bytes == 0 && extent.entries == 0
    }

    /// The current pointer of one priority names an extent of that priority in use.
    pub open spec fn pointer_ok(self, priority: int) -> bool {
        self.current[priority] matches Some(extent) ==> {
            &&& extent < self.extents.len()
            &&& !self.extents[extent as int].free()
            &&& rank(self.extents[extent as int].priority) == priority
        }
    }

    /// The state is consistent.
    pub open spec fn consistent(self, layout: PoolLayout) -> bool {
        &&& self.current.len() == 3
        &&& self.extents.len() == layout.extent_count
        &&& self.active_page <= 1
        &&& self.next_activation_sequence > 0
        &&& forall|i: int| 0 <= i < self.extents.len() ==> #[trigger] self.extent_ok(layout, i)
        &&& self.pointer_ok(0)
        &&& self.pointer_ok(1)
        &&& self.pointer_ok(2)
    }

    /// From `self` to `later` every extent kept its generation and its used bytes, or took
    /// more, or moved on to a later generation.
    pub open spec fn grows_into(self, later: PackedModel) -> bool {
        &&& later.extents.len() == self.extents.len()
        &&& forall|i: int|
            0 <= i < self.extents.len() ==> {
                let before = #[trigger] self.extents[i];
                let after = later.extents[i];
                ||| before.generation < after.generation
                ||| before.generation == after.generation && before.used_bytes <= after.used_bytes
            }
    }
}

/// Growth is transitive.
pub proof fn lemma_growth_is_transitive(a: PackedModel, b: PackedModel, c: PackedModel)
    requires
        a.grows_into(b),
        b.grows_into(c),
    ensures
        a.grows_into(c),
{
    assert forall|i: int| 0 <= i < a.extents.len() implies {
        let before = #[trigger] a.extents[i];
        let after = c.extents[i];
        ||| before.generation < after.generation
        ||| before.generation == after.generation && before.used_bytes <= after.used_bytes
    } by {
        let middle = b.extents[i];
    }
}

/// Bytes of an extent taken for one entry.
#[derive(Debug, Clone, Copy, PartialEq, Eq, Structural)]
pub struct EntryAllocation {
    pub data_offset: u64,
    pub extent: u32,
    pub extent_offset: u32,
    pub stored_len: u32,
    pub extent_generation: u32,
    pub priority: CachePriority,
}

/// What an allocation came to.
#[derive(Debug, Clone, Copy, PartialEq, Eq, Structural)]
pub enum AllocationResult {
    Allocated(EntryAllocation),
    ReclaimRequired,
}

/// Where an entry is stored.
#[derive(Debug, Clone, Copy, PartialEq, Eq, Structural)]
pub struct PackedLocation {
    pub data_offset: u64,
    pub extent_generation: u32,
    pub stored_len: u32,
    pub content_digest: ContentDigest,
    pub priority: CachePriority,
}

/// An extent chosen for reclaim, as it was when it was chosen.
#[derive(Debug, Clone, Copy, PartialEq, Eq, Structural)]
pub struct ExtentVictim {
    pub extent: u32,
    pub generation: u32,
    pub used_bytes: u32,
    pub entries: u32,
    pub priority: CachePriority,
    pub activation_sequence: u64,
}

/// The extents that could be reclaimed, by priority.
#[derive(Debug, Clone, Copy)]
pub struct ReclaimCandidates {
    pub occupied_extents: [u32; 3],
    pub sealed: [Option<ExtentVictim>; 3],
    pub current: [Option<ExtentVictim>; 3],
}

/// `a` was put to use before `b`.
pub open spec fn older(a: ExtentVictim, b: ExtentVictim) -> bool {
    a.activation_sequence < b.activation_sequence || a.activation_sequence == b.activation_sequence && a.extent
        < b.extent
}

fn is_older(a: ExtentVictim, b: ExtentVictim) -> (result: bool)
    ensures
        result == older(a, b),
{
    a.activation_sequence < b.activation_sequence || (a.activation_sequence == b.activation_sequence && a.extent
        < b.extent)
}

impl ReclaimCandidates {
    /// The older of the sealed and the current candidate of a priority, and whether it is
    /// the current one.
    pub open spec fn oldest_of(self, priority: CachePriority) -> Option<(ExtentVictim, bool)> {
        match (self.sealed@[rank(priority)], self.current@[rank(priority)]) {
            (Some(sealed), Some(current)) => if older(current, sealed) {
                Some((current, true))
            } else {
                Some((sealed, false))
            },
            (Some(sealed), None) => Some((sealed, false)),
            (None, Some(current)) => Some((current, true)),
            (None, None) => None,
        }
    }

    /// The number of extents that a priority occupies.
    pub fn occupied_extents(self, priority: CachePriority) -> (count: u32)
        ensures
            count == self.occupied_extents@[rank(priority)],
    {
        self.occupied_extents[priority.index()]
    }

    /// The oldest candidate of a priority.
    pub fn oldest(self, priority: CachePriority) -> (candidate: Option<(ExtentVictim, bool)>)
        ensures
            candidate == self.oldest_of(priority),
    {
        let at = priority.index();
        match (self.sealed[at], self.current[at]) {
            (Some(sealed), Some(current)) => if is_older(current, sealed) {
                Some((current, true))
            } else {
                Some((sealed, false))
            },
            (Some(sealed), None) => Some((sealed, false)),
            (None, Some(current)) => Some((current, true)),
            (None, None) => None,
        }
    }
}

/// An allocator image captured at one publication boundary.
///
/// Allocations may go on after the capture. Only the cursor is installed in the live
/// allocator once this image has reached durable storage.
#[derive(Debug)]
pub struct ExtentPoolCheckpoint {
    pub base_state_generation: u64,
    pub base_page: u8,
    pub next_state_generation: u64,
    pub next_page: u8,
    pub image: PackedState,
}

impl ExtentPoolCheckpoint {
    /// The checkpoint holds `model` under the cursor that follows `base`.
    pub open spec fn captures(self, base: PackedModel, model: PackedModel) -> bool {
        &&& self.base_state_generation == base.state_generation
        &&& self.base_page == base.active_page
        &&& self.next_state_generation == base.state_generation + 1
        &&& self.next_page == 1 - base.active_page
        &&& self.image@ == model.cursor_moved(self.next_state_generation, self.next_page)
    }
}

/// One word for a generation and the used bytes.
pub open spec fn liveness_word(generation: u32, used_bytes: u32) -> u64 {
    (generation * 0x1_0000_0000 + used_bytes) as u64
}

/// Packs a generation and the used bytes into one word.
pub fn encode_liveness(generation: u32, used_bytes: u32) -> (word: u64)
    ensures
        word == liveness_word(generation, used_bytes),
{
    generation as u64 * 0x1_0000_0000 + used_bytes as u64
}

/// Unpacks a generation and the used bytes.
pub fn decode_liveness(word: u64) -> (parts: (u32, u32))
    ensures
        word == liveness_word(parts.0, parts.1),
{
    ((word / 0x1_0000_0000) as u32, (word % 0x1_0000_0000) as u32)
}

/// A liveness word holds one generation and one count of used bytes.
pub proof fn law_liveness_word_round_trip(generation: u32, used_bytes: u32, other_generation: u32, other_used: u32)
    requires
        liveness_word(generation, used_bytes) == liveness_word(other_generation, other_used),
    ensures
        generation == other_generation,
        used_bytes == other_used,
{
}

/// The extent pool.
#[derive(Debug)]
pub struct ExtentPool {
    pub layout: PoolLayout,
    pub direct_io: bool,
    pub read_run_size: usize,
    pub write_run_size: usize,
    pub payload_dirty: bool,
    pub state: PackedState,
    /// One word per extent, for readers that do not look at the state.
    pub liveness: Vec<u64>,
    pub writes: PhysicalWriteStats,
}

/// The words agree with the state.
pub open spec fn liveness_matches(liveness: Seq<u64>, extents: Seq<PackedExtent>) -> bool {
    &&& liveness.len() == extents.len()
    &&& forall|i: int|
        0 <= i < extents.len() ==> #[trigger] liveness[i] == liveness_word(
            extents[i].generation,
            extents[i].used_bytes,
        )
}

/// The allocation of `len` bytes at the end of what `extent` has used.
pub open spec fn allocation_at(
    model: PackedModel,
    layout: PoolLayout,
    extent: u32,
    len: u32,
    priority: CachePriority,
) -> EntryAllocation {
    let state = model.extents[extent as int];
    EntryAllocation {
        data_offset: layout.offset_of(extent as nat, state.used_bytes as nat) as u64,
        extent,
        extent_offset: state.used_bytes,
        stored_len: len,
        extent_generation: state.generation,
        priority,
    }
}

/// Whether an extent can take another entry.
pub open spec fn has_room(extent: PackedExtent, layout: PoolLayout, len: nat) -> bool {
    extent.used_bytes + len <= layout.extent_size && extent.entries < layout.maximum_entries_per_extent
}

/// The outcome of taking bytes from an extent that has room for them.
pub open spec fn takes(
    before: PackedModel,
    after: PackedModel,
    layout: PoolLayout,
    extent: u32,
    len: u32,
    priority: CachePriority,
    result: Result<AllocationResult, Error>,
) -> bool {
    &&& result == Ok::<AllocationResult, Error>(
        AllocationResult::Allocated(allocation_at(before, layout, extent, len, priority)),
    )
    &&& after == before.bytes_taken(extent as int, len)
}

/// The outcome of an allocation: it comes from the current extent of the priority if that
/// has room, else from the first free extent, and else a reclaim is needed. The last free
/// extent stays in reserve. A current extent without room is current no longer.
pub open spec fn allocates(
    before: PackedModel,
    after: PackedModel,
    layout: PoolLayout,
    priority: CachePriority,
    len: usize,
    result: Result<AllocationResult, Error>,
) -> bool {
    let current = before.current[rank(priority)];
    if len == 0 || len > layout.extent_size {
        &&& fails(result, "extent allocation must fit completely within one extent"@)
        &&& after == before
    } else if current is Some && has_room(before.extents[current->0 as int], layout, len as nat) {
        takes(before, after, layout, current->0, len as u32, priority, result)
    } else {
        let dropped = before.with_current(priority, None);
        ||| {
            &&& dropped.none_spare()
            &&& result == Ok::<AllocationResult, Error>(AllocationResult::ReclaimRequired)
            &&& after == dropped
        }
        ||| exists|free: u32|
            {
                &&& #[trigger] dropped.first_spare(free as int)
                &&& if dropped.next_activation_sequence == u64::MAX {
                    fails(result, "extent activation sequence is exhausted"@) && after == dropped
                } else {
                    takes(dropped.activated(priority, free), after, layout, free, len as u32, priority, result)
                }
            }
    }
}

/// The victim that describes extent `i`.
pub open spec fn victim_at(extents: Seq<PackedExtent>, i: int) -> ExtentVictim {
    ExtentVictim {
        extent: i as u32,
        generation: extents[i].generation,
        used_bytes: extents[i].used_bytes,
        entries: extents[i].entries,
        priority: extents[i].priority,
        activation_sequence: extents[i].activation_sequence,
    }
}

/// `victim` still describes its extent, which is in use.
pub open spec fn still_holds(model: PackedModel, victim: ExtentVictim) -> bool {
    &&& !model.extents[victim.extent as int].free()
    &&& victim_at(model.extents, victim.extent as int) == victim
}

/// Extent `i` is in use, of `priority`, and current or not.
pub open spec fn in_class(model: PackedModel, i: int, priority: int, is_current: bool) -> bool {
    &&& !model.extents[i].free()
    &&& rank(model.extents[i].priority) == priority
    &&& is_current == (model.current[priority] == Some(i as u32))
}

/// `candidate` is the oldest among the first `n` extents of a class.
pub open spec fn oldest_in_class(
    model: PackedModel,
    n: int,
    priority: int,
    is_current: bool,
    candidate: Option<ExtentVictim>,
) -> bool {
    match candidate {
        Some(victim) => {
            &&& victim.extent < n
            &&& in_class(model, victim.extent as int, priority, is_current)
            &&& victim == victim_at(model.extents, victim.extent as int)
            &&& forall|i: int|
                0 <= i < n && #[trigger] in_class(model, i, priority, is_current) && i != victim.extent ==> older(
                    victim,
                    victim_at(model.extents, i),
                )
        },
        None => forall|i: int| 0 <= i < n ==> !(#[trigger] in_class(model, i, priority, is_current)),
    }
}

/// What the pool says of the extents that could be given up.
pub open spec fn candidates_of(model: PackedModel, candidates: ReclaimCandidates) -> bool {
    forall|p: int|
        0 <= p < 3 ==> {
            &&& candidates.occupied_extents@[p] == occupied_count(model.extents, p)
            &&& oldest_in_class(model, model.extents.len() as int, p, false, #[trigger] candidates.sealed@[p])
            &&& oldest_in_class(model, model.extents.len() as int, p, true, candidates.current@[p])
        }
}

/// The number of extents of a priority in use.
pub open spec fn occupied_count(extents: Seq<PackedExtent>, priority: int) -> nat
    decreases extents.len(),
{
    if extents.len() == 0 {
        0
    } else {
        occupied_count(extents.drop_last(), priority) + if !extents.last().free() && rank(extents.last().priority)
            == priority {
            1nat
        } else {
            0nat
        }
    }
}

/// The entries in the extents of a priority in use.
pub open spec fn entry_count(extents: Seq<PackedExtent>, priority: int) -> nat
    decreases extents.len(),
{
    if extents.len() == 0 {
        0
    } else {
        entry_count(extents.drop_last(), priority) + if !extents.last().free() && rank(extents.last().priority)
            == priority {
            extents.last().entries as nat
        } else {
            0nat
        }
    }
}

/// The used bytes of the extents of a priority in use.
pub open spec fn byte_count(extents: Seq<PackedExtent>, priority: int) -> nat
    decreases extents.len(),
{
    if extents.len() == 0 {
        0
    } else {
        byte_count(extents.drop_last(), priority) + if !extents.last().free() && rank(extents.last().priority)
            == priority {
            extents.last().used_bytes as nat
        } else {
            0nat
        }
    }
}

proof fn lemma_count_bounds(extents: Seq<PackedExtent>, priority: int)
    ensures
        occupied_count(extents, priority) <= extents.len(),
        entry_count(extents, priority) <= extents.len() * u32::MAX,
        byte_count(extents, priority) <= extents.len() * u32::MAX,
    decreases extents.len(),
{
    if extents.len() > 0 {
        lemma_count_bounds(extents.drop_last(), priority);
    }
}

proof fn lemma_consistent_change(before: PackedModel, after: PackedModel, layout: PoolLayout, at: int)
    requires
        before.consistent(layout),
        0 <= at < before.extents.len(),
        after.extents == before.extents.update(at, after.extents[at]),
        after.current.len() == 3,
        after.active_page <= 1,
        after.next_activation_sequence >= before.next_activation_sequence,
        after.extent_ok(layout, at),
        after.pointer_ok(0),
        after.pointer_ok(1),
        after.pointer_ok(2),
    ensures
        after.consistent(layout),
{
    assert forall|i: int| 0 <= i < after.extents.len() implies #[trigger] after.extent_ok(layout, i) by {
        assert(before.extent_ok(layout, i));
    }
}

proof fn lemma_numbers_keep(before: PackedModel, after: PackedModel, layout: PoolLayout)
    requires
        before.consistent(layout),
        after.extents == before.extents,
        after.next_activation_sequence == before.next_activation_sequence,
        after.active_page <= 1,
        after.current.len() == 3,
        forall|p: int| 0 <= p < 3 ==> after.current[p] == before.current[p] || after.current[p] is None,
    ensures
        after.consistent(layout),
        before.grows_into(after),
{
    assert forall|i: int| 0 <= i < after.extents.len() implies #[trigger] after.extent_ok(layout, i) by {
        assert(before.extent_ok(layout, i));
    }
    assert(before.pointer_ok(0) && before.pointer_ok(1) && before.pointer_ok(2));
    assert(after.current[0] == before.current[0] || after.current[0] is None);
    assert(after.current[1] == before.current[1] || after.current[1] is None);
    assert(after.current[2] == before.current[2] || after.current[2] is None);
}

/// The size of one state copy in a state file of the given size.
pub fn state_copy_len(state_size: u64) -> (result: Result<usize, Error>)
    ensures
        match result {
            Ok(len) => state_size > 0 && state_size % 2 == 0 && len == state_size / 2,
            Err(_) => if state_size == 0 || state_size % 2 != 0 {
                fails(result, "state file does not contain two equal copies"@)
            } else {
                state_size / 2 > usize::MAX && fails(result, "state copy does not fit address space"@)
            },
        },
{
    if state_size == 0 || state_size % 2 != 0 {
        return Err(invalid_state("state file does not contain two equal copies"));
    }
    if state_size / 2 > usize::MAX as u64 {
        return Err(invalid_state("state copy does not fit address space"));
    }
    Ok((state_size / 2) as usize)
}

/// The liveness words of a state.
pub fn liveness_table(state: &PackedState) -> (table: Vec<u64>)
    ensures
        liveness_matches(table@, state.extents@),
{
    let mut table: Vec<u64> = Vec::new();
    let mut i: usize = 0;
    while i < state.extents.len()
        invariant
            i <= state.extents@.len(),
            table@.len() == i,
            forall|k: int|
                0 <= k < i ==> #[trigger] table@[k] == liveness_word(
                    state.extents@[k].generation,
                    state.extents@[k].used_bytes,
                ),
        decreases state.extents@.len() - i,
    {
        let extent = state.extents[i];
        table.push(encode_liveness(extent.generation, extent.used_bytes));
        i = i + 1;
    }
    table
}

impl PackedState {
    fn pointer_is_ok(&self, priority: usize) -> (ok: bool)
        requires
            priority < 3,
        ensures
            ok == self@.pointer_ok(priority as int),
    {
        match self.current[priority] {
            Some(extent) => {
                if extent as usize >= self.extents.len() {
                    return false;
                }
                let state = self.extents[extent as usize];
                !state.is_free() && state.priority.index() == priority
            },
            None => true,
        }
    }

    /// Whether the state is consistent.
    pub fn is_consistent(&self, layout: PoolLayout) -> (ok: bool)
        ensures
            ok == self@.consistent(layout),
    {
        if self.extents.len() as u64 != layout.extent_count as u64 || self.active_page > 1
            || self.next_activation_sequence == 0 {
            return false;
        }
        let mut i: usize = 0;
        while i < self.extents.len()
            invariant
                i <= self.extents@.len(),
                forall|k: int| 0 <= k < i ==> #[trigger] self@.extent_ok(layout, k),
            decreases self.extents@.len() - i,
        {
            let extent = self.extents[i];
            if extent.used_bytes as u64 > layout.extent_size as u64 || extent.entries
                > layout.maximum_entries_per_extent || extent.activation_sequence >= self.next_activation_sequence
                || extent.is_free() && (extent.used_bytes != 0 || extent.entries != 0) {
                assert(!self@.extent_ok(layout, i as int));
                return false;
            }
            assert(self@.extent_ok(layout, i as int));
            i = i + 1;
        }
        self.pointer_is_ok(0) && self.pointer_is_ok(1) && self.pointer_is_ok(2)
    }
}

/// A decoded state copy, unless it is none of a page: its layout is not well formed, its
/// state not consistent, or it belongs to the other page.
pub open spec fn good_copy(copy: Option<(PoolLayout, PackedState)>, page: u8) -> Option<(PoolLayout, PackedState)> {
    match copy {
        Some((layout, state)) => if layout.wf() && state@.consistent(layout) && state.active_page == page {
            copy
        } else {
            None
        },
        None => None,
    }
}

fn checked_copy(copy: Option<(PoolLayout, PackedState)>, page: u8) -> (good: Option<(PoolLayout, PackedState)>)
    ensures
        good == good_copy(copy, page),
{
    match copy {
        Some((layout, state)) => if layout.is_valid() && state.is_consistent(layout) && state.active_page == page {
            Some((layout, state))
        } else {
            None
        },
        None => None,
    }
}

/// What opening two decoded state copies comes to: the newer of those that are good,
/// unless they disagree on the layout.
pub open spec fn reopens(
    first: Option<(PoolLayout, PackedState)>,
    second: Option<(PoolLayout, PackedState)>,
    result: Result<ExtentPool, Error>,
) -> bool {
    match (first, second) {
        (Some((a, s)), Some((b, t))) => if a != b {
            fails(result, "valid state copies disagree on the layout"@)
        } else {
            let newest = if s.state_generation > t.state_generation {
                s
            } else {
                t
            };
            result matches Ok(pool) && pool.layout == a && pool.state == newest
        },
        (Some((a, s)), None) => result matches Ok(pool) && pool.layout == a && pool.state == s,
        (None, Some((b, t))) => result matches Ok(pool) && pool.layout == b && pool.state == t,
        (None, None) => fails(result, "both allocator state copies are invalid"@),
    }
}

/// What comes of the cursor once the image of a checkpoint was written.
pub open spec fn cursor_written(
    before: PackedModel,
    checkpoint: ExtentPoolCheckpoint,
    after: PackedModel,
    result: Result<(), Error>,
) -> bool {
    if before.state_generation == checkpoint.base_state_generation && before.active_page == checkpoint.base_page {
        &&& result is Ok
        &&& after == before.cursor_moved(checkpoint.next_state_generation, checkpoint.next_page)
    } else {
        &&& fails(result, "allocator checkpoint cursor changed while persistence was in flight"@)
        &&& after == before
    }
}

/// What comes of sealing a current extent.
pub open spec fn seals(
    before: PackedModel,
    victim: ExtentVictim,
    after: PackedModel,
    result: Result<ExtentVictim, Error>,
) -> bool {
    if victim.extent >= before.extents.len() {
        fails(result, "current reclaim victim is out of range"@) && after == before
    } else if still_holds(before, victim) && before.current[rank(victim.priority)] == Some(victim.extent) {
        result == Ok::<ExtentVictim, Error>(victim) && after == before.with_current(victim.priority, None)
    } else {
        fails(result, "current reclaim victim changed before seal"@) && after == before
    }
}

/// What comes of giving an extent up.
pub open spec fn releases(
    before: PackedModel,
    layout: PoolLayout,
    victim: ExtentVictim,
    result: Result<ExtentPoolCheckpoint, Error>,
) -> bool {
    let current = before.current[rank(before.extents[victim.extent as int].priority)];
    if !still_holds(before, victim) || current == Some(victim.extent) {
        fails(result, "extent victim changed during reclamation"@)
    } else if victim.generation == u32::MAX {
        fails(result, "extent generation is exhausted"@)
    } else if before.state_generation == u64::MAX {
        fails(result, "allocator state generation is exhausted"@)
    } else {
        result matches Ok(checkpoint) && checkpoint.captures(before, before.extent_reset(victim.extent as int))
            && checkpoint.image@.consistent(layout) && before.grows_into(checkpoint.image@)
    }
}

impl ExtentPool {
    /// The layout is well formed, the state is consistent, and the liveness words agree
    /// with it.
    pub open spec fn wf(self) -> bool {
        &&& self.layout.wf()
        &&& self.state@.consistent(self.layout)
        &&& liveness_matches(self.liveness@, self.state.extents@)
        &&& self.read_run_size > 0
        &&& self.read_run_size % 4096 == 0
        &&& self.write_run_size > 0
        &&& self.write_run_size % 4096 == 0
    }

    /// Only the allocator state and the liveness words differ.
    pub open spec fn same_but_state(self, other: ExtentPool) -> bool {
        &&& self.layout == other.layout
        &&& self.direct_io == other.direct_io
        &&& self.read_run_size == other.read_run_size
        &&& self.write_run_size == other.write_run_size
        &&& self.payload_dirty == other.payload_dirty
        &&& self.writes == other.writes
    }

    /// A pool with nothing in it.
    pub fn create(layout: PoolLayout, direct_io: bool, read_run_size: usize, write_run_size: usize) -> (pool: ExtentPool)
        requires
            layout.wf(),
            read_run_size > 0,
            read_run_size % 4096 == 0,
            write_run_size > 0,
            write_run_size % 4096 == 0,
        ensures
            pool.wf(),
            pool.layout == layout,
            pool.direct_io == direct_io,
            pool.read_run_size == read_run_size,
            pool.write_run_size == write_run_size,
            !pool.payload_dirty,
            pool.writes == no_writes(),
            pool.state@ == (PackedModel {
                state_generation: 1,
                next_activation_sequence: 1,
                current: seq![None::<u32>, None::<u32>, None::<u32>],
                extents: Seq::new(layout.extent_count as nat, |i: int| free_extent()),
                active_page: 0,
            }),
    {
        let mut extents: Vec<PackedExtent> = Vec::new();
        let mut i: u32 = 0;
        while i < layout.extent_count
            invariant
                i <= layout.extent_count,
                extents@ == Seq::new(i as nat, |k: int| free_extent()),
            decreases layout.extent_count - i,
        {
            extents.push(
                PackedExtent {
                    generation: 1,
                    used_bytes: 0,
                    entries: 0,
                    activation_sequence: 0,
                    priority: CachePriority::Low,
                },
            );
            assert(extents@ =~= Seq::new((i + 1) as nat, |k: int| free_extent()));
            i = i + 1;
        }
        let state = PackedState {
            state_generation: 1,
            next_activation_sequence: 1,
            current: [None, None, None],
            extents,
            active_page: 0,
        };
        assert(state.current@ =~= seq![None::<u32>, None::<u32>, None::<u32>]);
        let liveness = liveness_table(&state);
        ExtentPool {
            layout,
            direct_io,
            read_run_size,
            write_run_size,
            payload_dirty: false,
            state,
            liveness,
            writes: PhysicalWriteStats::default(),
        }
    }

    /// The pool that two decoded state copies describe: the newer of those that are good.
    pub fn open(
        first: Option<(PoolLayout, PackedState)>,
        second: Option<(PoolLayout, PackedState)>,
        direct_io: bool,
        read_run_size: usize,
        write_run_size: usize,
    ) -> (result: Result<ExtentPool, Error>)
        requires
            read_run_size > 0,
            read_run_size % 4096 == 0,
            write_run_size > 0,
            write_run_size % 4096 == 0,
        ensures
            reopens(good_copy(first, 0), good_copy(second, 1), result),
            result matches Ok(pool) ==> pool.wf() && pool.direct_io == direct_io && pool.read_run_size
                == read_run_size && pool.write_run_size == write_run_size && !pool.payload_dirty && pool.writes
                == no_writes(),
    {
        let (layout, state) = match (checked_copy(first, 0), checked_copy(second, 1)) {
            (Some((a, s)), Some((b, t))) => {
                if a != b {
                    return Err(invalid_state("valid state copies disagree on the layout"));
                }
                if s.state_generation > t.state_generation {
                    (a, s)
                } else {
                    (b, t)
                }
            },
            (Some((a, s)), None) => (a, s),
            (None, Some((b, t))) => (b, t),
            (None, None) => return Err(invalid_state("both allocator state copies are invalid")),
        };
        let liveness = liveness_table(&state);
        Ok(
            ExtentPool {
                layout,
                direct_io,
                read_run_size,
                write_run_size,
                payload_dirty: false,
                state,
                liveness,
                writes: PhysicalWriteStats::default(),
            },
        )
    }

    /// The pool's layout.
    pub fn layout(&self) -> (layout: PoolLayout)
        ensures
            layout == self.layout,
    {
        self.layout
    }

    /// The writes so far.
    pub fn physical_write_stats(&self) -> (stats: PhysicalWriteStats)
        ensures
            stats == self.writes,
    {
        self.writes
    }

    /// Whether payload was written since the last sync.
    pub fn payload_is_dirty(&self) -> (dirty: bool)
        ensures
            dirty == self.payload_dirty,
    {
        self.payload_dirty
    }

    /// Records that the payload was synced.
    pub fn payload_synced(&mut self)
        ensures
            *final(self) == (ExtentPool {
                payload_dirty: false,
                writes: PhysicalWriteStats {
                    data_syncs: old(self).writes.data_syncs.wrapping_add(1),
                    ..old(self).writes
                },
                ..*old(self)
            }),
    {
        self.writes.data_syncs = self.writes.data_syncs.wrapping_add(1);
        self.payload_dirty = false;
    }

    fn publish_liveness(&mut self, extent: u32)
        requires
            extent < old(self).state.extents@.len(),
            old(self).liveness@.len() == old(self).state.extents@.len(),
            forall|i: int|
                0 <= i < old(self).liveness@.len() && i != extent ==> #[trigger] old(self).liveness@[i]
                    == liveness_word(
                    old(self).state.extents@[i].generation,
                    old(self).state.extents@[i].used_bytes,
                ),
        ensures
            *final(self) == (ExtentPool { liveness: final(self).liveness, ..*old(self) }),
            liveness_matches(final(self).liveness@, final(self).state.extents@),
    {
        let state = self.state.extents[extent as usize];
        self.liveness[extent as usize] = encode_liveness(state.generation, state.used_bytes);
    }

    /// Takes `len` bytes from an extent that has room for them.
    fn take_bytes(&mut self, extent: u32, len: u32, priority: CachePriority) -> (result: Result<
        AllocationResult,
        Error,
    >)
        requires
            old(self).wf(),
            extent < old(self).state.extents@.len(),
            !old(self).state.extents@[extent as int].free(),
            has_room(old(self).state.extents@[extent as int], old(self).layout, len as nat),
            len > 0,
        ensures
            final(self).wf(),
            final(self).same_but_state(*old(self)),
            takes(old(self).state@, final(self).state@, old(self).layout, extent, len, priority, result),
            old(self).state@.grows_into(final(self).state@),
    {
        let ghost before = self.state@;
        assert(before.pointer_ok(0) && before.pointer_ok(1) && before.pointer_ok(2));
        assert(before.extent_ok(self.layout, extent as int));
        let mut state = self.state.extents[extent as usize];
        let extent_offset = state.used_bytes;
        let extent_generation = state.generation;
        state.used_bytes = state.used_bytes + len;
        state.entries = state.entries + 1;
        self.state.extents[extent as usize] = state;
        proof {
            let after = self.state@;
            assert(after =~= before.bytes_taken(extent as int, len));
            assert(after.pointer_ok(0) && after.pointer_ok(1) && after.pointer_ok(2));
            lemma_consistent_change(before, after, self.layout, extent as int);
        }
        self.publish_liveness(extent);
        let data_offset = match self.layout.data_offset(extent, extent_offset) {
            Some(offset) => offset,
            None => 0,
        };
        Ok(
            AllocationResult::Allocated(
                EntryAllocation { data_offset, extent, extent_offset, stored_len: len, extent_generation, priority },
            ),
        )
    }

    /// The first free extent, if another one stays in reserve.
    fn find_spare(&self) -> (index: Option<u32>)
        requires
            self.state.extents@.len() <= u32::MAX,
        ensures
            match index {
                Some(i) => self.state@.first_spare(i as int),
                None => self.state@.none_spare(),
            },
    {
        let mut first: usize = 0;
        while first < self.state.extents.len() && !self.state.extents[first].is_free()
            invariant
                first <= self.state.extents@.len() <= u32::MAX,
                forall|k: int| 0 <= k < first ==> !(#[trigger] self.state.extents@[k]).free(),
            decreases self.state.extents@.len() - first,
        {
            first = first + 1;
        }
        if first == self.state.extents.len() {
            return None;
        }
        let mut other: usize = first + 1;
        while other < self.state.extents.len()
            invariant
                first < other <= self.state.extents@.len() <= u32::MAX,
                self.state.extents@[first as int].free(),
                forall|k: int| 0 <= k < first ==> !(#[trigger] self.state.extents@[k]).free(),
                forall|k: int| first < k < other ==> !(#[trigger] self.state.extents@[k]).free(),
            decreases self.state.extents@.len() - other,
        {
            if self.state.extents[other].is_free() {
                assert(self.state@.extents[other as int].free());
                return Some(first as u32);
            }
            other = other + 1;
        }
        None
    }

    /// Takes bytes for an entry of a priority.
    pub fn allocate(&mut self, priority: CachePriority, stored_len: usize) -> (result: Result<AllocationResult, Error>)
        requires
            old(self).wf(),
        ensures
            final(self).wf(),
            final(self).same_but_state(*old(self)),
            allocates(old(self).state@, final(self).state@, old(self).layout, priority, stored_len, result),
            old(self).state@.grows_into(final(self).state@),
    {
        let ghost before = self.state@;
        if stored_len == 0 || stored_len > self.layout.extent_size {
            return Err(invalid_state("extent allocation must fit completely within one extent"));
        }
        let len = stored_len as u32;
        let at = priority.index();
        assert(before.pointer_ok(rank(priority)));
        if let Some(extent) = self.state.current[at] {
            assert(before.extent_ok(self.layout, extent as int));
            let state = self.state.extents[extent as usize];
            if self.layout.extent_size as u32 - state.used_bytes >= len && state.entries
                < self.layout.maximum_entries_per_extent {
                return self.take_bytes(extent, len, priority);
            }
        }
        self.state.current[at] = None;
        let ghost dropped = self.state@;
        proof {
            assert(dropped =~= before.with_current(priority, None));
            lemma_numbers_keep(before, dropped, self.layout);
        }
        let extent = match self.find_spare() {
            Some(extent) => extent,
            None => return Ok(AllocationResult::ReclaimRequired),
        };
        assert(dropped.first_spare(extent as int));
        let activation_sequence = self.state.next_activation_sequence;
        match activation_sequence.checked_add(1) {
            Some(next) => {
                self.state.next_activation_sequence = next;
            },
            None => return Err(invalid_state("extent activation sequence is exhausted")),
        }
        let mut state = self.state.extents[extent as usize];
        assert(dropped.extent_ok(self.layout, extent as int));
        state.used_bytes = 0;
        state.entries = 0;
        state.activation_sequence = activation_sequence;
        state.priority = priority;
        self.state.extents[extent as usize] = state;
        self.state.current[at] = Some(extent);
        proof {
            let active = self.state@;
            assert(active =~= dropped.activated(priority, extent));
            assert forall|p: int| 0 <= p < 3 implies #[trigger] active.pointer_ok(p) by {
                assert(dropped.pointer_ok(p));
            }
            assert(active.pointer_ok(0) && active.pointer_ok(1) && active.pointer_ok(2));
            lemma_consistent_change(dropped, active, self.layout, extent as int);
            assert(before.grows_into(active));
            assert forall|i: int| 0 <= i < self.liveness@.len() implies #[trigger] self.liveness@[i] == liveness_word(
                self.state.extents@[i].generation,
                self.state.extents@[i].used_bytes,
            ) by {
                assert(self.liveness@[i] == liveness_word(
                    before.extents[i].generation,
                    before.extents[i].used_bytes,
                ));
            }
        }
        let ghost active = self.state@;
        let result = self.take_bytes(extent, len, priority);
        proof {
            lemma_growth_is_transitive(before, active, self.state@);
        }
        result
    }

    /// The extents that could be reclaimed, and how many each priority occupies.
    pub fn reclaim_candidates(&self) -> (candidates: ReclaimCandidates)
        requires
            self.state.extents@.len() <= u32::MAX,
        ensures
            candidates_of(self.state@, candidates),
    {
        let mut occupied_extents: [u32; 3] = [0, 0, 0];
        let mut sealed: [Option<ExtentVictim>; 3] = [None, None, None];
        let mut current: [Option<ExtentVictim>; 3] = [None, None, None];
        let mut i: usize = 0;
        let ghost all = self.state.extents@;
        let ghost model = self.state@;
        while i < self.state.extents.len()
            invariant
                i <= all.len() <= u32::MAX,
                all == self.state.extents@,
                model == self.state@,
                forall|p: int|
                    0 <= p < 3 ==> {
                        &&& #[trigger] occupied_extents@[p] == occupied_count(all.take(i as int), p)
                        &&& oldest_in_class(model, i as int, p, false, sealed@[p])
                        &&& oldest_in_class(model, i as int, p, true, current@[p])
                    },
            decreases all.len() - i,
        {
            let extent = self.state.extents[i];
            let at = extent.priority.index();
            let ghost old_sealed = sealed@;
            let ghost old_current = current@;
            let ghost old_occupied = occupied_extents@;
            proof {
                assert(all.take(i + 1).drop_last() =~= all.take(i as int));
                assert(all.take(i + 1).last() == extent);
                lemma_count_bounds(all.take(i as int), at as int);
                assert(old_occupied[at as int] == occupied_count(all.take(i as int), at as int));
            }
            let victim = ExtentVictim {
                extent: i as u32,
                generation: extent.generation,
                used_bytes: extent.used_bytes,
                entries: extent.entries,
                priority: extent.priority,
                activation_sequence: extent.activation_sequence,
            };
            if !extent.is_free() {
                occupied_extents[at] = occupied_extents[at].saturating_add(1);
                let is_current = match self.state.current[at] {
                    Some(named) => named == i as u32,
                    None => false,
                };
                if is_current {
                    let replace = match current[at] {
                        Some(known) => is_older(victim, known),
                        None => true,
                    };
                    if replace {
                        current[at] = Some(victim);
                    }
                } else {
                    let replace = match sealed[at] {
                        Some(known) => is_older(victim, known),
                        None => true,
                    };
                    if replace {
                        sealed[at] = Some(victim);
                    }
                }
            }
            proof {
                assert forall|p: int| 0 <= p < 3 implies {
                    &&& #[trigger] occupied_extents@[p] == occupied_count(all.take(i + 1), p)
                    &&& oldest_in_class(model, i + 1, p, false, sealed@[p])
                    &&& oldest_in_class(model, i + 1, p, true, current@[p])
                } by {
                    assert(old_occupied[p] == occupied_count(all.take(i as int), p));
                    lemma_candidate_step(model, i as int, p, false, old_sealed[p], sealed@[p], victim);
                    lemma_candidate_step(model, i as int, p, true, old_current[p], current@[p], victim);
                }
            }
            i = i + 1;
        }
        assert(all.take(i as int) =~= all);
        let candidates = ReclaimCandidates { occupied_extents, sealed, current };
        assert forall|p: int| 0 <= p < 3 implies {
            &&& candidates.occupied_extents@[p] == occupied_count(model.extents, p)
            &&& oldest_in_class(model, model.extents.len() as int, p, false, #[trigger] candidates.sealed@[p])
            &&& oldest_in_class(model, model.extents.len() as int, p, true, candidates.current@[p])
        } by {
            assert(occupied_extents@[p] == occupied_count(all.take(i as int), p));
        }
        candidates
    }

    /// Who occupies how much.
    pub fn extent_occupancy(&self, capacity_floor_extents: [u32; 3]) -> (occupancy: ExtentOccupancy)
        requires
            self.state.extents@.len() <= u32::MAX,
        ensures
            occupancy.usable_extents == self.layout.extent_count,
            occupancy.entries_per_extent == self.layout.planned_entries_per_extent,
            occupancy.capacity_floor_extents == capacity_floor_extents,
            forall|p: int|
                0 <= p < 3 ==> #[trigger] occupancy.occupied_extents@[p] == occupied_count(self.state.extents@, p),
            forall|p: int|
                0 <= p < 3 ==> #[trigger] occupancy.used_entries@[p] == entry_count(self.state.extents@, p),
            forall|p: int|
                0 <= p < 3 ==> #[trigger] occupancy.used_bytes@[p] == byte_count(self.state.extents@, p),
    {
        let mut occupied_extents: [u32; 3] = [0, 0, 0];
        let mut used_entries: [u64; 3] = [0, 0, 0];
        let mut used_bytes: [u64; 3] = [0, 0, 0];
        let mut i: usize = 0;
        let ghost all = self.state.extents@;
        while i < self.state.extents.len()
            invariant
                i <= all.len() <= u32::MAX,
                all == self.state.extents@,
                forall|p: int|
                    0 <= p < 3 ==> {
                        &&& #[trigger] occupied_extents@[p] == occupied_count(all.take(i as int), p)
                        &&& used_entries@[p] == entry_count(all.take(i as int), p)
                        &&& used_bytes@[p] == byte_count(all.take(i as int), p)
                    },
            decreases all.len() - i,
        {
            let extent = self.state.extents[i];
            let at = extent.priority.index();
            let ghost before = occupied_extents@;
            let ghost entries_before = used_entries@;
            let ghost bytes_before = used_bytes@;
            proof {
                let next = all.take(i + 1);
                assert(next.drop_last() =~= all.take(i as int));
                assert(next.last() == extent);
                lemma_count_bounds(next, at as int);
                assert(before[at as int] == occupied_count(all.take(i as int), at as int));
            }
            if !extent.is_free() {
                occupied_extents[at] = occupied_extents[at].saturating_add(1);
                used_entries[at] = used_entries[at].saturating_add(extent.entries as u64);
                used_bytes[at] = used_bytes[at].saturating_add(extent.used_bytes as u64);
            }
            proof {
                let next = all.take(i + 1);
                assert forall|p: int| 0 <= p < 3 implies {
                    &&& #[trigger] occupied_extents@[p] == occupied_count(next, p)
                    &&& used_entries@[p] == entry_count(next, p)
                    &&& used_bytes@[p] == byte_count(next, p)
                } by {
                    assert(before[p] == occupied_count(all.take(i as int), p));
                }
            }
            i = i + 1;
        }
        assert(all.take(i as int) =~= all);
        let occupancy = ExtentOccupancy::new(
            self.layout.extent_count,
            self.layout.planned_entries_per_extent,
            occupied_extents,
            used_entries,
            used_bytes,
            capacity_floor_extents,
        );
        assert forall|p: int| 0 <= p < 3 implies #[trigger] used_entries@[p] == entry_count(all, p) by {
            assert(occupied_extents@[p] == occupied_count(all.take(i as int), p));
        }
        assert forall|p: int| 0 <= p < 3 implies #[trigger] used_bytes@[p] == byte_count(all, p) by {
            assert(occupied_extents@[p] == occupied_count(all.take(i as int), p));
        }
        occupancy
    }

    /// Makes the current extent that `victim` describes current no longer.
    pub fn seal_current(&mut self, victim: ExtentVictim) -> (result: Result<ExtentVictim, Error>)
        requires
            old(self).wf(),
        ensures
            final(self).wf(),
            final(self).same_but_state(*old(self)),
            final(self).liveness == old(self).liveness,
            seals(old(self).state@, victim, final(self).state@, result),
            old(self).state@.grows_into(final(self).state@),
    {
        let ghost before = self.state@;
        if victim.extent as usize >= self.state.extents.len() {
            return Err(invalid_state("current reclaim victim is out of range"));
        }
        let extent = self.state.extents[victim.extent as usize];
        let at = victim.priority.index();
        let named = match self.state.current[at] {
            Some(current) => current == victim.extent,
            None => false,
        };
        if extent.is_free() || extent.generation != victim.generation || extent.used_bytes != victim.used_bytes
            || extent.entries != victim.entries || extent.priority != victim.priority || extent.activation_sequence
            != victim.activation_sequence || !named {
            return Err(invalid_state("current reclaim victim changed before seal"));
        }
        self.state.current[at] = None;
        proof {
            assert(self.state@ =~= before.with_current(victim.priority, None));
            lemma_numbers_keep(before, self.state@, self.layout);
        }
        Ok(victim)
    }

    /// The image of the state in which an extent is given back: its generation moves on,
    /// so that every location in it is stale. It takes effect with `released`.
    pub fn release(&self, victim: ExtentVictim) -> (result: Result<ExtentPoolCheckpoint, Error>)
        requires
            self.wf(),
            victim.extent < self.state.extents@.len(),
        ensures
            releases(self.state@, self.layout, victim, result),
    {
        let ghost before = self.state@;
        let mut extent = self.state.extents[victim.extent as usize];
        let named = match self.state.current[extent.priority.index()] {
            Some(current) => current == victim.extent,
            None => false,
        };
        if extent.is_free() || named || extent.generation != victim.generation || extent.used_bytes
            != victim.used_bytes || extent.entries != victim.entries || extent.priority != victim.priority
            || extent.activation_sequence != victim.activation_sequence {
            return Err(invalid_state("extent victim changed during reclamation"));
        }
        match extent.generation.checked_add(1) {
            Some(generation) => {
                extent.generation = generation;
            },
            None => return Err(invalid_state("extent generation is exhausted")),
        }
        extent.used_bytes = 0;
        extent.entries = 0;
        extent.activation_sequence = 0;
        extent.priority = CachePriority::Low;
        let next_state_generation = match self.state.state_generation.checked_add(1) {
            Some(generation) => generation,
            None => return Err(invalid_state("allocator state generation is exhausted")),
        };
        let next_page = 1 - self.state.active_page;
        let mut image = self.state.clone();
        image.extents[victim.extent as usize] = extent;
        image.state_generation = next_state_generation;
        image.active_page = next_page;
        proof {
            let after = image@;
            assert(after =~= before.extent_reset(victim.extent as int).cursor_moved(
                next_state_generation,
                next_page,
            ));
            assert forall|p: int| 0 <= p < 3 implies #[trigger] after.pointer_ok(p) by {
                assert(before.pointer_ok(p));
            }
            assert(after.pointer_ok(0) && after.pointer_ok(1) && after.pointer_ok(2));
            lemma_consistent_change(before, after, self.layout, victim.extent as int);
        }
        Ok(
            ExtentPoolCheckpoint {
                base_state_generation: self.state.state_generation,
                base_page: self.state.active_page,
                next_state_generation,
                next_page,
                image,
            },
        )
    }

    /// Installs the image of a release once it was written and synced.
    pub fn released(&mut self, victim: ExtentVictim, checkpoint: ExtentPoolCheckpoint, image_bytes: u64)
        requires
            old(self).wf(),
            victim.extent < old(self).state.extents@.len(),
            checkpoint.captures(old(self).state@, old(self).state@.extent_reset(victim.extent as int)),
            checkpoint.image@.consistent(old(self).layout),
        ensures
            final(self).wf(),
            final(self).state == checkpoint.image,
            final(self).writes == image_written(old(self).writes, image_bytes),
            final(self).same_but_state((ExtentPool { writes: final(self).writes, ..*old(self) })),
    {
        self.writes.allocator_runs = self.writes.allocator_runs.wrapping_add(1);
        self.writes.allocator_bytes = self.writes.allocator_bytes.wrapping_add(image_bytes);
        self.writes.allocator_syncs = self.writes.allocator_syncs.wrapping_add(1);
        let ghost before = self.state@;
        self.state = checkpoint.image;
        proof {
            assert forall|i: int|
                0 <= i < self.liveness@.len() && i != victim.extent implies #[trigger] self.liveness@[i]
                == liveness_word(self.state.extents@[i].generation, self.state.extents@[i].used_bytes) by {
                assert(self.liveness@[i] == liveness_word(
                    before.extents[i].generation,
                    before.extents[i].used_bytes,
                ));
            }
        }
        self.publish_liveness(victim.extent);
    }

    /// The image of the state under the cursor that follows it.
    pub fn prepare_checkpoint_state(&self) -> (result: Result<ExtentPoolCheckpoint, Error>)
        requires
            self.wf(),
        ensures
            match result {
                Ok(checkpoint) => self.state.state_generation < u64::MAX && checkpoint.captures(
                    self.state@,
                    self.state@,
                ) && checkpoint.image@.consistent(self.layout),
                Err(_) => self.state.state_generation == u64::MAX && fails(
                    result,
                    "allocator state generation is exhausted"@,
                ),
            },
    {
        let next_state_generation = match self.state.state_generation.checked_add(1) {
            Some(generation) => generation,
            None => return Err(invalid_state("allocator state generation is exhausted")),
        };
        let next_page = 1 - self.state.active_page;
        let mut image = self.state.clone();
        image.state_generation = next_state_generation;
        image.active_page = next_page;
        proof {
            assert(image@ =~= self.state@.cursor_moved(next_state_generation, next_page));
            lemma_numbers_keep(self.state@, image@, self.layout);
        }
        Ok(
            ExtentPoolCheckpoint {
                base_state_generation: self.state.state_generation,
                base_page: self.state.active_page,
                next_state_generation,
                next_page,
                image,
            },
        )
    }

    /// Where the image of a checkpoint goes in the state file.
    pub fn checkpoint_offset(&self, checkpoint: &ExtentPoolCheckpoint) -> (offset: u64)
        requires
            checkpoint.next_page <= 1,
        ensures
            offset == checkpoint.next_page * self.layout.state_copy_size,
    {
        if checkpoint.next_page == 0 {
            0
        } else {
            self.layout.state_copy_size as u64
        }
    }

    /// Records that the image of a checkpoint was written and synced, and moves the cursor
    /// to it unless another image came first.
    pub fn persist_checkpoint_state(&mut self, checkpoint: &ExtentPoolCheckpoint, image_bytes: u64) -> (result: Result<
        (),
        Error,
    >)
        requires
            old(self).wf(),
            checkpoint.next_page <= 1,
        ensures
            final(self).wf(),
            final(self).writes == image_written(old(self).writes, image_bytes),
            final(self).same_but_state((ExtentPool { writes: final(self).writes, ..*old(self) })),
            cursor_written(old(self).state@, *checkpoint, final(self).state@, result),
            old(self).state@.grows_into(final(self).state@),
    {
        let ghost before = self.state@;
        self.writes.allocator_runs = self.writes.allocator_runs.wrapping_add(1);
        self.writes.allocator_bytes = self.writes.allocator_bytes.wrapping_add(image_bytes);
        self.writes.allocator_syncs = self.writes.allocator_syncs.wrapping_add(1);
        if self.state.state_generation != checkpoint.base_state_generation || self.state.active_page
            != checkpoint.base_page {
            return Err(invalid_state("allocator checkpoint cursor changed while persistence was in flight"));
        }
        self.state.state_generation = checkpoint.next_state_generation;
        self.state.active_page = checkpoint.next_page;
        proof {
            assert(self.state@ =~= before.cursor_moved(checkpoint.next_state_generation, checkpoint.next_page));
            lemma_numbers_keep(before, self.state@, self.layout);
        }
        Ok(())
    }
}

/// The write counters once an allocator image of `bytes` bytes was written and synced.
pub open spec fn image_written(writes: PhysicalWriteStats, bytes: u64) -> PhysicalWriteStats {
    PhysicalWriteStats {
        allocator_runs: writes.allocator_runs.wrapping_add(1),
        allocator_bytes: writes.allocator_bytes.wrapping_add(bytes),
        allocator_syncs: writes.allocator_syncs.wrapping_add(1),
        ..writes
    }
}

proof fn lemma_candidate_step(
    model: PackedModel,
    n: int,
    priority: int,
    is_current: bool,
    before: Option<ExtentVictim>,
    after: Option<ExtentVictim>,
    victim: ExtentVictim,
)
    requires
        0 <= n < model.extents.len() <= u32::MAX,
        victim == victim_at(model.extents, n),
        oldest_in_class(model, n, priority, is_current, before),
        after == (if in_class(model, n, priority, is_current) && match before {
            Some(known) => older(victim, known),
            None => true,
        } {
            Some(victim)
        } else {
            before
        }),
    ensures
        oldest_in_class(model, n + 1, priority, is_current, after),
{
    match after {
        Some(chosen) => {
            assert forall|i: int|
                0 <= i < n + 1 && #[trigger] in_class(model, i, priority, is_current) && i
                    != chosen.extent implies older(chosen, victim_at(model.extents, i)) by {}
        },
        None => {},
    }
}

/// An allocation begins where the used bytes of its extent end, and adds its own to them.
pub proof fn law_allocations_continue_the_used_bytes(
    before: PackedModel,
    after: PackedModel,
    layout: PoolLayout,
    priority: CachePriority,
    len: usize,
    allocation: EntryAllocation,
)
    requires
        layout.wf(),
        before.consistent(layout),
        allocates(before, after, layout, priority, len, Ok(AllocationResult::Allocated(allocation))),
    ensures
        allocation.extent < before.extents.len(),
        allocation.stored_len == len,
        allocation.priority == priority,
        allocation.extent_offset == before.extents[allocation.extent as int].used_bytes,
        allocation.extent_generation == before.extents[allocation.extent as int].generation,
        after.extents.len() == before.extents.len(),
        after.extents[allocation.extent as int].used_bytes == allocation.extent_offset + len,
        after.extents[allocation.extent as int].generation == allocation.extent_generation,
        allocation.extent_offset + len <= layout.extent_size,
{
    assert(before.pointer_ok(rank(priority)));
    let current = before.current[rank(priority)];
    if current is Some && has_room(before.extents[current->0 as int], layout, len as nat) {
        assert(before.extent_ok(layout, current->0 as int));
    } else {
        let dropped = before.with_current(priority, None);
        assert(dropped.extents == before.extents);
        let free = choose|free: u32| #[trigger] dropped.first_spare(free as int) && takes(
            dropped.activated(priority, free),
            after,
            layout,
            free,
            len as u32,
            priority,
            Ok(AllocationResult::Allocated(allocation)),
        );
        assert(before.extent_ok(layout, free as int));
    }
}

/// Two allocations never share a byte: of two taken one after the other from the same
/// generation of the same extent, the later begins where the earlier ends, or beyond.
pub proof fn law_allocations_never_overlap(
    layout: PoolLayout,
    first_before: PackedModel,
    first_after: PackedModel,
    first_priority: CachePriority,
    first_len: usize,
    first: EntryAllocation,
    second_before: PackedModel,
    second_after: PackedModel,
    second_priority: CachePriority,
    second_len: usize,
    second: EntryAllocation,
)
    requires
        layout.wf(),
        first_before.consistent(layout),
        allocates(
            first_before,
            first_after,
            layout,
            first_priority,
            first_len,
            Ok(AllocationResult::Allocated(first)),
        ),
        first_after.grows_into(second_before),
        second_before.consistent(layout),
        allocates(
            second_before,
            second_after,
            layout,
            second_priority,
            second_len,
            Ok(AllocationResult::Allocated(second)),
        ),
        first.extent == second.extent,
        first.extent_generation == second.extent_generation,
    ensures
        first.extent_offset + first.stored_len <= second.extent_offset,
{
    law_allocations_continue_the_used_bytes(first_before, first_after, layout, first_priority, first_len, first);
    law_allocations_continue_the_used_bytes(
        second_before,
        second_after,
        layout,
        second_priority,
        second_len,
        second,
    );
    assert(first_after.extents[first.extent as int].used_bytes == first.extent_offset + first.stored_len);
}

/// Some extent is free.
pub open spec fn has_reserve(model: PackedModel) -> bool {
    exists|k: int| 0 <= k < model.extents.len() && (#[trigger] model.extents[k]).free()
}

/// An allocation never takes the last free extent.
pub proof fn law_one_extent_stays_in_reserve(
    before: PackedModel,
    after: PackedModel,
    layout: PoolLayout,
    priority: CachePriority,
    len: usize,
    result: Result<AllocationResult, Error>,
)
    requires
        before.consistent(layout),
        allocates(before, after, layout, priority, len, result),
        has_reserve(before),
    ensures
        has_reserve(after),
{
    let spare = choose|k: int| 0 <= k < before.extents.len() && (#[trigger] before.extents[k]).free();
    let current = before.current[rank(priority)];
    assert(before.pointer_ok(rank(priority)));
    let dropped = before.with_current(priority, None);
    assert(dropped.extents == before.extents);
    if len == 0 || len > layout.extent_size {
    } else if current is Some && has_room(before.extents[current->0 as int], layout, len as nat) {
        assert(after.extents[spare].free());
    } else if after == dropped {
        assert(after.extents[spare].free());
    } else {
        let free = choose|free: u32| #[trigger] dropped.first_spare(free as int) && takes(
            dropped.activated(priority, free),
            after,
            layout,
            free,
            len as u32,
            priority,
            result,
        );
        let other = choose|k: int| free < k < dropped.extents.len() && (#[trigger] dropped.extents[k]).free();
        assert(after.extents[other].free());
    }
}

/// A pool is reopened from its last complete checkpoint: from the new image once that was
/// written, and from the one before as long as it was not.
pub proof fn law_the_last_complete_checkpoint_is_reopened(
    layout: PoolLayout,
    base: PackedState,
    model: PackedModel,
    checkpoint: ExtentPoolCheckpoint,
    written: bool,
    result: Result<ExtentPool, Error>,
)
    requires
        layout.wf(),
        base@.consistent(layout),
        model.consistent(layout),
        checkpoint.captures(base@, model),
        ({
            let image = if written {
                Some((layout, checkpoint.image))
            } else {
                None
            };
            if base.active_page == 0 {
                reopens(good_copy(Some((layout, base)), 0), good_copy(image, 1), result)
            } else {
                reopens(good_copy(image, 0), good_copy(Some((layout, base)), 1), result)
            }
        }),
    ensures
        result matches Ok(pool) && pool.layout == layout && pool.state@ == if written {
            model.cursor_moved(checkpoint.next_state_generation, checkpoint.next_page)
        } else {
            base@
        },
{
    lemma_numbers_keep(model, checkpoint.image@, layout);
    assert(checkpoint.image@.active_page == checkpoint.image.active_page);
}

/// An entry goes where its priority belongs: into the current extent of its priority while
/// that has room, and else into an extent that was free and becomes the newest one of that
/// priority. Nothing else moves. Bytes are refused for want of room only where the current
/// extent has none and no two extents are free, and never given to an entry that could not
/// fit an extent.
pub proof fn law_entries_are_placed_by_priority(
    before: PackedModel,
    after: PackedModel,
    layout: PoolLayout,
    priority: CachePriority,
    len: usize,
    result: Result<AllocationResult, Error>,
)
    requires
        layout.wf(),
        before.consistent(layout),
        allocates(before, after, layout, priority, len, result),
    ensures
        ({
            let p = rank(priority);
            let fits = 0 < len <= layout.extent_size;
            let room = before.current[p] matches Some(e) && before.extents[e as int].used_bytes + len
                <= layout.extent_size && before.extents[e as int].entries < layout.maximum_entries_per_extent;
            let spare = exists|i: int, k: int|
                0 <= i < k < before.extents.len() && (#[trigger] before.extents[i]).activation_sequence == 0 && (
                #[trigger] before.extents[k]).activation_sequence == 0;
            &&& result matches Ok(AllocationResult::Allocated(a)) ==> {
                let e = a.extent as int;
                &&& fits
                &&& a.priority == priority
                &&& a.stored_len == len
                &&& 0 <= e < before.extents.len()
                &&& after.extents.len() == before.extents.len()
                &&& after.extents[e].priority == priority
                &&& after.extents[e].activation_sequence != 0
                &&& after.extents[e].generation == before.extents[e].generation
                &&& after.extents[e].used_bytes == before.extents[e].used_bytes + len
                &&& after.extents[e].entries == before.extents[e].entries + 1
                &&& after.current[p] == Some(a.extent)
                &&& forall|i: int|
                    0 <= i < before.extents.len() && i != e ==> #[trigger] after.extents[i] == before.extents[i]
                &&& forall|q: int| 0 <= q < 3 && q != p ==> #[trigger] after.current[q] == before.current[q]
                &&& room ==> before.current[p] == Some(a.extent) && after.extents[e].activation_sequence
                    == before.extents[e].activation_sequence
                &&& !room ==> before.extents[e].activation_sequence == 0 && (forall|i: int|
                    0 <= i < before.extents.len() ==> (#[trigger] before.extents[i]).activation_sequence
                        < after.extents[e].activation_sequence) && (forall|i: int|
                    0 <= i < e ==> (#[trigger] before.extents[i]).activation_sequence != 0)
            }
            &&& result matches Ok(AllocationResult::ReclaimRequired) ==> fits && !room && !spare && after.extents
                == before.extents && after.current[p] is None
            &&& fits && room ==> (result matches Ok(AllocationResult::Allocated(_)))
            &&& fits && spare && before.next_activation_sequence < u64::MAX ==> (result matches Ok(
                AllocationResult::Allocated(_),
            ))
            &&& result is Err ==> !fits || !room && before.next_activation_sequence == u64::MAX
            &&& result is Err ==> after.extents == before.extents
        }),
{
    let p = rank(priority);
    let current = before.current[p];
    assert(before.pointer_ok(p));
    if len == 0 || len > layout.extent_size {
    } else if current is Some && has_room(before.extents[current->0 as int], layout, len as nat) {
        let e = current->0 as int;
        assert(before.extent_ok(layout, e));
        assert(before.extents[e].used_bytes + len <= u32::MAX);
        assert(after.extents =~= before.extents.update(e, after.extents[e]));
    } else {
        let dropped = before.with_current(priority, None);
        assert(dropped.extents == before.extents);
        if dropped.none_spare() && result == Ok::<AllocationResult, Error>(AllocationResult::ReclaimRequired) && after
            == dropped {
            assert forall|i: int, k: int|
                0 <= i < k < before.extents.len() && (#[trigger] before.extents[i]).activation_sequence == 0 && (
                #[trigger] before.extents[k]).activation_sequence == 0 implies false by {
                assert(!dropped.extents[i].free() || !dropped.extents[k].free());
            }
        } else {
            let free = choose|free: u32|
                {
                    &&& #[trigger] dropped.first_spare(free as int)
                    &&& if dropped.next_activation_sequence == u64::MAX {
                        fails(result, "extent activation sequence is exhausted"@) && after == dropped
                    } else {
                        takes(
                            dropped.activated(priority, free),
                            after,
                            layout,
                            free,
                            len as u32,
                            priority,
                            result,
                        )
                    }
                };
            let e = free as int;
            assert(before.extent_ok(layout, e));
            if dropped.next_activation_sequence < u64::MAX {
                assert(after.extents =~= before.extents.update(e, after.extents[e]));
                assert forall|i: int| 0 <= i < before.extents.len() implies (
                #[trigger] before.extents[i]).activation_sequence < after.extents[e].activation_sequence by {
                    assert(before.extent_ok(layout, i));
                }
            }
        }
    }
}

/// What one extent adds to the occupancy of a priority: itself, its entries and its bytes.
pub open spec fn share_of(extent: PackedExtent, priority: CachePriority) -> (int, int, int) {
    if extent.activation_sequence != 0 && extent.priority == priority {
        (1, extent.entries as int, extent.used_bytes as int)
    } else {
        (0, 0, 0)
    }
}

/// A change of one extent changes the occupancy by exactly its own part.
pub proof fn law_occupancy_follows_every_change(
    extents: Seq<PackedExtent>,
    i: int,
    changed: PackedExtent,
    priority: CachePriority,
)
    requires
        0 <= i < extents.len(),
    ensures
        ({
            let after = extents.update(i, changed);
            let p = rank(priority);
            let was = share_of(extents[i], priority);
            let is = share_of(changed, priority);
            &&& occupied_count(after, p) == occupied_count(extents, p) - was.0 + is.0
            &&& entry_count(after, p) == entry_count(extents, p) - was.1 + is.1
            &&& byte_count(after, p) == byte_count(extents, p) - was.2 + is.2
        }),
    decreases extents.len(),
{
    let after = extents.update(i, changed);
    let n = extents.len() - 1;
    if i < n {
        law_occupancy_follows_every_change(extents.drop_last(), i, changed, priority);
        assert(after.drop_last() =~= extents.drop_last().update(i, changed));
    } else {
        assert(after.drop_last() =~= extents.drop_last());
    }
}

/// A pool in which nothing is in use is empty in every respect.
pub proof fn law_unused_extents_occupy_nothing(extents: Seq<PackedExtent>, priority: CachePriority)
    requires
        forall|i: int| 0 <= i < extents.len() ==> (#[trigger] extents[i]).activation_sequence == 0,
    ensures
        occupied_count(extents, rank(priority)) == 0,
        entry_count(extents, rank(priority)) == 0,
        byte_count(extents, rank(priority)) == 0,
    decreases extents.len(),
{
    if extents.len() > 0 {
        assert(extents[extents.len() - 1].activation_sequence == 0);
        assert forall|i: int| 0 <= i < extents.drop_last().len() implies (
        #[trigger] extents.drop_last()[i]).activation_sequence == 0 by {
            assert(extents[i].activation_sequence == 0);
        }
        law_unused_extents_occupy_nothing(extents.drop_last(), priority);
    }
}

/// A released extent is free, of a new generation and holds nothing; every other extent
/// and every current one stays.
pub proof fn law_a_released_extent_is_free(model: PackedModel, extent: int)
    requires
        0 <= extent < model.extents.len(),
        model.extents[extent].generation < u32::MAX,
    ensures
        ({
            let after = model.extent_reset(extent);
            &&& after.extents[extent].activation_sequence == 0
            &&& after.extents[extent].used_bytes == 0
            &&& after.extents[extent].entries == 0
            &&& after.extents[extent].generation == model.extents[extent].generation + 1
            &&& after.extents.len() == model.extents.len()
            &&& forall|i: int| 0 <= i < model.extents.len() && i != extent ==> #[trigger] after.extents[i]
                == model.extents[i]
            &&& after.current == model.current
            &&& after.next_activation_sequence == model.next_activation_sequence
        }),
{
}

/// A pool is found again while one of its copies is good, whichever that is; where both
/// are, the one that was written last counts; and where none is, it is refused.
pub proof fn law_one_good_copy_is_enough(
    layout: PoolLayout,
    state: PackedState,
    other: Option<(PoolLayout, PackedState)>,
    first: bool,
    result: Result<ExtentPool, Error>,
)
    requires
        if first {
            reopens(Some((layout, state)), other, result)
        } else {
            reopens(other, Some((layout, state)), result)
        },
    ensures
        match other {
            None => result matches Ok(pool) && pool.layout == layout && pool.state == state,
            Some((other_layout, other_state)) => if other_layout != layout {
                result is Err
            } else {
                &&& result matches Ok(pool) && pool.layout == layout && (pool.state == state || pool.state
                    == other_state) && pool.state.state_generation >= state.state_generation
                    && pool.state.state_generation >= other_state.state_generation
            },
        },
{
}

/// Where no copy is good, nothing is opened.
pub proof fn law_no_good_copy_is_refused(result: Result<ExtentPool, Error>)
    requires
        reopens(None, None, result),
    ensures
        result is Err,
{
}

/// A copy counts only where it is consistent, of a layout that is well formed, and in the
/// place that it names; and then it does.
pub proof fn law_only_consistent_copies_count(layout: PoolLayout, state: PackedState, page: u8)
    ensures
        good_copy(Some((layout, state)), page) == if layout.wf() && state@.consistent(layout) && state.active_page
            == page {
            Some((layout, state))
        } else {
            None
        },
        good_copy(None, page) is None,
{
}

/// A victim is given up only as it was chosen: an extent in use whose generation, bytes,
/// entries, priority and age are all as they were.
pub proof fn law_a_changed_victim_is_not_given_up(model: PackedModel, victim: ExtentVictim)
    requires
        victim.extent < model.extents.len(),
    ensures
        ({
            let extent = model.extents[victim.extent as int];
            still_holds(model, victim) <==> extent.activation_sequence != 0 && extent.generation == victim.generation
                && extent.used_bytes == victim.used_bytes && extent.entries == victim.entries && extent.priority
                == victim.priority && extent.activation_sequence == victim.activation_sequence
        }),
{
}

/// An extent is planned for the entries of the store's plan, and holds as many as could be
/// in it at the most: no more of the shortest ones fit.
pub proof fn law_an_extent_holds_as_many_entries_as_fit(layout: StoreLayout, n: nat)
    requires
        18 * n <= layout.extent_size,
        n <= u32::MAX,
    ensures
        n <= pool_shape(layout).maximum_entries_per_extent,
        18 * pool_shape(layout).maximum_entries_per_extent <= layout.extent_size,
        pool_shape(layout).extent_size == layout.extent_size,
        pool_shape(layout).extent_count == layout.extent_count,
        pool_shape(layout).planned_entries_per_extent == layout.slots_per_extent,
        pool_shape(layout).state_copy_size == layout.state_copy_size,
{
}

/// Writing an image counts as one run and one sync of the allocator with its bytes, and as
/// nothing else.
pub proof fn law_an_image_is_counted_once(writes: PhysicalWriteStats, bytes: u64)
    requires
        writes.allocator_runs < u64::MAX,
        writes.allocator_syncs < u64::MAX,
        writes.allocator_bytes + bytes <= u64::MAX,
    ensures
        ({
            let after = image_written(writes, bytes);
            &&& after.allocator_runs == writes.allocator_runs + 1
            &&& after.allocator_syncs == writes.allocator_syncs + 1
            &&& after.allocator_bytes == writes.allocator_bytes + bytes
            &&& after.data_runs == writes.data_runs
            &&& after.data_bytes == writes.data_bytes
            &&& after.data_syncs == writes.data_syncs
            &&& after.index_runs == writes.index_runs
            &&& after.index_bytes == writes.index_bytes
            &&& after.index_syncs == writes.index_syncs
        }),
{
}

/// Of two checkpoints that were taken of the same image, only the one that is written first
/// moves the cursor, to its own image; the other one is refused and changes nothing.
pub proof fn law_one_of_two_checkpoints_moves_the_cursor(
    base: PackedModel,
    models: (PackedModel, PackedModel),
    checkpoints: (ExtentPoolCheckpoint, ExtentPoolCheckpoint),
    before: PackedModel,
    between: PackedModel,
    after: PackedModel,
    results: (Result<(), Error>, Result<(), Error>),
)
    requires
        checkpoints.0.captures(base, models.0),
        checkpoints.1.captures(base, models.1),
        before.state_generation == base.state_generation,
        before.active_page == base.active_page,
        cursor_written(before, checkpoints.0, between, results.0),
        cursor_written(between, checkpoints.1, after, results.1),
    ensures
        results.0 is Ok,
        results.1 is Err,
        between.state_generation == base.state_generation + 1,
        between.active_page == 1 - base.active_page,
        between.extents == before.extents,
        between.current == before.current,
        after == between,
{
}

/// An extent is sealed exactly where it is the current one of its priority and is as it was
/// chosen. Its priority is then without a current extent, and nothing else changes.
pub proof fn law_only_an_unchanged_current_extent_is_sealed(
    before: PackedModel,
    victim: ExtentVictim,
    after: PackedModel,
    result: Result<ExtentVictim, Error>,
)
    requires
        before.current.len() == 3,
        seals(before, victim, after, result),
    ensures
        result is Ok <==> {
            let extent = before.extents[victim.extent as int];
            victim.extent < before.extents.len() && before.current[rank(victim.priority)] == Some(victim.extent)
                && extent.activation_sequence != 0 && extent.generation == victim.generation && extent.used_bytes
                == victim.used_bytes && extent.entries == victim.entries && extent.priority == victim.priority
                && extent.activation_sequence == victim.activation_sequence
        },
        result matches Ok(sealed) ==> sealed == victim && after.current[rank(victim.priority)] is None,
        after.extents == before.extents,
        forall|p: int|
            0 <= p < 3 && p != rank(victim.priority) ==> #[trigger] after.current[p] == before.current[p],
        result is Err ==> after == before,
{
}

/// An extent is given up exactly where it is as it was chosen, is no current one and can
/// have another generation. The checkpoint then holds it free and of the next generation,
/// and every other extent as it is.
pub proof fn law_only_an_unchanged_sealed_extent_is_released(
    before: PackedModel,
    layout: PoolLayout,
    victim: ExtentVictim,
    result: Result<ExtentPoolCheckpoint, Error>,
)
    requires
        victim.extent < before.extents.len(),
        before.state_generation < u64::MAX,
        releases(before, layout, victim, result),
    ensures
        ({
            let extent = before.extents[victim.extent as int];
            result is Ok <==> extent.activation_sequence != 0 && extent.generation == victim.generation
                && extent.used_bytes == victim.used_bytes && extent.entries == victim.entries && extent.priority
                == victim.priority && extent.activation_sequence == victim.activation_sequence
                && before.current[rank(victim.priority)] != Some(victim.extent) && victim.generation < u32::MAX
        }),
        result matches Ok(checkpoint) ==> {
            let image = checkpoint.image@;
            let freed = image.extents[victim.extent as int];
            &&& freed.free()
            &&& freed.generation == victim.generation + 1
            &&& freed.used_bytes == 0
            &&& image.extents.len() == before.extents.len()
            &&& forall|i: int|
                0 <= i < before.extents.len() && i != victim.extent ==> #[trigger] image.extents[i] == before.extents[i]
            &&& image.current == before.current
            &&& image.state_generation == before.state_generation + 1
        },
{
}

} // verus!
