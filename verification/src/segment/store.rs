//! The segment store: allocation, reclaim transactions, checkpoints and recovery.
//!
//! The store holds the allocator state and decides what is written where. Whoever owns
//! the files performs the reads and writes, and reports back.

use vstd::prelude::*;

use crate::error::{superblock_error, Error};
use crate::model::{rank, CachePriority};
use crate::segment::format::{AllocatorState, SegmentLayout, SegmentRole, SegmentState};
use crate::segment::state::{
    lemma_activate_keeps, lemma_begin_keeps, lemma_finish_keeps, lemma_growth_is_transitive, lemma_numbers_keep,
    lemma_release_keeps, lemma_seal_keeps, lemma_take_keeps, lemma_valid_is_consistent, occupied, reclaim_begun,
    reclaim_finished, AllocatorModel,
};
use crate::segment::stats::{PhysicalWriteStats, PriorityOccupancy};

verus! {

/// The message of a state error.
pub open spec fn state_text(message: Seq<char>) -> Seq<char> {
    "segment state: "@ + message
}

/// A state error with the given message.
pub(crate) fn invalid_state(message: &str) -> (error: Error)
    ensures
        superblock_error(error, state_text(message@)),
{
    let mut text = "segment state: ".to_owned();
    text.append(message);
    Error::InvalidSuperblock(text)
}

/// `result` fails with the given state error.
pub open spec fn fails<T>(result: Result<T, Error>, message: Seq<char>) -> bool {
    result matches Err(error) && superblock_error(error, state_text(message))
}

/// A run of slots taken for one entry.
#[derive(Debug, Clone, Copy, PartialEq, Eq, Structural)]
pub struct SegmentAllocation {
    pub physical_slot: u64,
    pub segment: u32,
    pub slot: u32,
    pub slots: u32,
    pub segment_generation: u32,
    pub priority: CachePriority,
    pub sequence: u64,
}

/// What an allocation came to.
#[derive(Debug, Clone, Copy, PartialEq, Eq, Structural)]
pub enum SegmentAllocationResult {
    Allocated(SegmentAllocation),
    ReclaimRequired,
}

/// A segment chosen for reclaim, as it was when it was chosen.
#[derive(Debug, Clone, Copy, PartialEq, Eq, Structural)]
pub struct SegmentVictim {
    pub segment: u32,
    pub generation: u32,
    pub used: u32,
    pub priority: CachePriority,
    pub sequence: u64,
}

/// The segments that could be reclaimed, by priority.
#[derive(Debug, Clone, Copy)]
pub struct ReclaimCandidates {
    pub occupied_segments: [u32; 3],
    pub sealed: [Option<SegmentVictim>; 3],
    pub current: [Option<SegmentVictim>; 3],
}

/// `a` was put to use before `b`.
pub open spec fn older(a: SegmentVictim, b: SegmentVictim) -> bool {
    a.sequence < b.sequence || a.sequence == b.sequence && a.segment < b.segment
}

fn is_older(a: SegmentVictim, b: SegmentVictim) -> (result: bool)
    ensures
        result == older(a, b),
{
    a.sequence < b.sequence || (a.sequence == b.sequence && a.segment < b.segment)
}

impl ReclaimCandidates {
    /// The older of the sealed and the current candidate of a priority, and whether it
    /// is the current one.
    pub open spec fn oldest_of(self, priority: CachePriority) -> Option<(SegmentVictim, bool)> {
        match (self.sealed@[rank(priority)], self.current@[rank(priority)]) {
            (Some(sealed), Some(current)) => if older(current, sealed) {
                Some((current, true))
            } else {
                Some((sealed, false))
            },
            (Some(sealed), None) => Some((sealed, false)),
            (None, Some(current)) => Some((current, true)),
            (None, None) => None,
        }
    }

    /// The number of segments that a priority occupies.
    pub fn occupied_segments(self, priority: CachePriority) -> (count: u32)
        ensures
            count == self.occupied_segments@[rank(priority)],
    {
        self.occupied_segments[priority.index()]
    }

    /// The oldest candidate of a priority.
    pub fn oldest(self, priority: CachePriority) -> (candidate: Option<(SegmentVictim, bool)>)
        ensures
            candidate == self.oldest_of(priority),
    {
        let at = priority.index();
        match (self.sealed[at], self.current[at]) {
            (Some(sealed), Some(current)) => if is_older(current, sealed) {
                Some((current, true))
            } else {
                Some((sealed, false))
            },
            (Some(sealed), None) => Some((sealed, false)),
            (None, Some(current)) => Some((current, true)),
            (None, None) => None,
        }
    }
}

/// A reclaim in progress: the live entries of `source` are copied into `target`.
#[derive(Debug, Clone, Copy, PartialEq, Eq, Structural)]
pub struct ReclaimTransaction {
    pub source: SegmentVictim,
    pub target: u32,
    pub target_generation: u32,
    pub priority: CachePriority,
}

/// An allocator image captured at one publication boundary.
///
/// Allocations may go on after the capture. Only the cursor is installed in the live
/// allocator once this image has reached durable storage.
#[derive(Debug)]
pub struct AllocatorCheckpoint {
    pub base_generation: u64,
    pub base_page: u8,
    pub next_generation: u64,
    pub next_page: u8,
    pub encoded: Vec<u8>,
}

/// `image` encodes the state `model`.
pub open spec fn image_of(image: Seq<u8>, model: AllocatorModel, layout: SegmentLayout) -> bool {
    exists|state: AllocatorState| state@ == model && #[trigger] state.is_encoded_as(image, layout)
}

impl AllocatorCheckpoint {
    /// The checkpoint holds the image of `model` under the cursor that follows it.
    pub open spec fn captures(self, model: AllocatorModel, layout: SegmentLayout) -> bool {
        &&& self.base_generation == model.generation
        &&& self.base_page == model.active_page
        &&& self.next_generation == model.generation + 1
        &&& self.next_page == 1 - model.active_page
        &&& image_of(self.encoded@, model.cursor_moved(self.next_generation, self.next_page), layout)
    }
}

impl Clone for AllocatorState {
    fn clone(&self) -> (copy: AllocatorState)
        ensures
            copy@ == self@,
    {
        let mut segments: Vec<SegmentState> = Vec::new();
        let mut i: usize = 0;
        while i < self.segments.len()
            invariant
                i <= self.segments@.len(),
                segments@ == self.segments@.take(i as int),
            decreases self.segments@.len() - i,
        {
            segments.push(self.segments[i]);
            assert(segments@ =~= self.segments@.take(i + 1));
            i = i + 1;
        }
        assert(segments@ =~= self.segments@);
        AllocatorState {
            generation: self.generation,
            next_sequence: self.next_sequence,
            current: self.current,
            reserve: self.reserve,
            segments,
            active_page: self.active_page,
        }
    }
}

/// The segment store.
#[derive(Debug)]
pub struct SegmentStore {
    pub layout: SegmentLayout,
    pub direct_io: bool,
    pub read_run_slots: usize,
    pub write_run_slots: usize,
    pub allocated_size: u64,
    pub state: AllocatorState,
    pub writes: PhysicalWriteStats,
}

/// The allocation of `slots` slots at the end of what `segment` has used.
pub open spec fn allocation_at(
    model: AllocatorModel,
    layout: SegmentLayout,
    segment: u32,
    slots: u32,
    priority: CachePriority,
) -> SegmentAllocation {
    let state = model.segments[segment as int];
    SegmentAllocation {
        physical_slot: (segment * layout.slots_per_segment + state.used) as u64,
        segment,
        slot: state.used,
        slots,
        segment_generation: state.generation,
        priority,
        sequence: model.next_sequence,
    }
}

/// The outcome of taking slots from a segment that has room for them.
pub open spec fn takes(
    before: AllocatorModel,
    after: AllocatorModel,
    layout: SegmentLayout,
    segment: u32,
    slots: u32,
    priority: CachePriority,
    result: Result<SegmentAllocationResult, Error>,
) -> bool {
    if before.next_sequence == u64::MAX {
        &&& fails(result, "segment allocation sequence is exhausted"@)
        &&& after == before.slots_taken(segment as int, slots)
    } else {
        &&& result == Ok::<SegmentAllocationResult, Error>(
            SegmentAllocationResult::Allocated(allocation_at(before, layout, segment, slots, priority)),
        )
        &&& after == before.slots_taken(segment as int, slots).sequence_advanced()
    }
}

/// The outcome of an allocation: it comes from the current segment of the priority if
/// that has room, else from the first free segment, and else a reclaim is needed. A
/// current segment without room is sealed.
pub open spec fn allocates(
    before: AllocatorModel,
    after: AllocatorModel,
    layout: SegmentLayout,
    priority: CachePriority,
    slots: u32,
    result: Result<SegmentAllocationResult, Error>,
) -> bool {
    let current = before.current[rank(priority)];
    if slots == 0 || slots > layout.slots_per_segment {
        &&& fails(result, "segment allocation must fit completely within one segment"@)
        &&& after == before
    } else if current is Some && before.segments[current->0 as int].used + slots <= layout.slots_per_segment {
        takes(before, after, layout, current->0, slots, priority, result)
    } else {
        let sealed = before.current_sealed(priority);
        ||| {
            &&& sealed.none_free()
            &&& result == Ok::<SegmentAllocationResult, Error>(SegmentAllocationResult::ReclaimRequired)
            &&& after == sealed
        }
        ||| exists|free: u32|
            {
                &&& #[trigger] sealed.first_free(free as int)
                &&& takes(sealed.activated(priority, free), after, layout, free, slots, priority, result)
            }
    }
}

/// The state after a successful seal, or the reason why there is none.
pub open spec fn seals(
    before: AllocatorModel,
    after: AllocatorModel,
    victim: SegmentVictim,
    result: Result<SegmentVictim, Error>,
) -> bool {
    if victim.segment >= before.segments.len() {
        fails(result, "current reclaim victim is out of range"@) && after == before
    } else if before.segments[victim.segment as int] == (SegmentState {
        generation: victim.generation,
        used: victim.used,
        sequence: victim.sequence,
        priority: victim.priority,
        role: SegmentRole::Current,
    }) && before.current[rank(victim.priority)] == Some(victim.segment) {
        result == Ok::<SegmentVictim, Error>(victim) && after == before.current_sealed(victim.priority)
    } else {
        fails(result, "current reclaim victim changed before seal"@) && after == before
    }
}

/// Whether `victim` still describes a sealed segment whose priority has no current one.
pub open spec fn stable_source(model: AllocatorModel, victim: SegmentVictim) -> bool {
    let source = model.segments[victim.segment as int];
    &&& source.role == SegmentRole::Sealed
    &&& source.generation == victim.generation
    &&& source.used == victim.used
    &&& source.priority == victim.priority
    &&& model.current[rank(victim.priority)] is None
}

/// Whether `victim` still describes a sealed segment.
pub open spec fn releasable(model: AllocatorModel, victim: SegmentVictim) -> bool {
    let segment = model.segments[victim.segment as int];
    &&& segment.role == SegmentRole::Sealed
    &&& segment.generation == victim.generation
    &&& segment.used == victim.used
}

/// Whether `transaction` still describes the reclaim in progress.
pub open spec fn transaction_holds(model: AllocatorModel, transaction: ReclaimTransaction) -> bool {
    let source = model.segments[transaction.source.segment as int];
    let target = model.segments[transaction.target as int];
    &&& source.role == SegmentRole::ReclaimSource
    &&& source.generation == transaction.source.generation
    &&& target.role == SegmentRole::ReclaimTarget
    &&& target.generation == transaction.target_generation
    &&& target.priority == transaction.priority
}

/// The victim that describes segment `i`.
pub open spec fn victim_at(segments: Seq<SegmentState>, i: int) -> SegmentVictim {
    SegmentVictim {
        segment: i as u32,
        generation: segments[i].generation,
        used: segments[i].used,
        priority: segments[i].priority,
        sequence: segments[i].sequence,
    }
}

/// Segment `i` is in `role` and of `priority`.
pub open spec fn in_class(segments: Seq<SegmentState>, i: int, role: SegmentRole, priority: int) -> bool {
    segments[i].role == role && rank(segments[i].priority) == priority
}

/// `candidate` is the oldest segment in a role and of a priority.
pub open spec fn oldest_in_class(
    segments: Seq<SegmentState>,
    role: SegmentRole,
    priority: int,
    candidate: Option<SegmentVictim>,
) -> bool {
    match candidate {
        Some(victim) => {
            &&& victim.segment < segments.len()
            &&& in_class(segments, victim.segment as int, role, priority)
            &&& victim == victim_at(segments, victim.segment as int)
            &&& forall|i: int|
                0 <= i < segments.len() && #[trigger] in_class(segments, i, role, priority) && i != victim.segment
                    ==> older(victim, victim_at(segments, i))
        },
        None => forall|i: int|
            0 <= i < segments.len() ==> !(#[trigger] in_class(segments, i, role, priority)),
    }
}

/// The number of occupied segments of a priority.
pub open spec fn occupied_count(segments: Seq<SegmentState>, priority: int) -> nat
    decreases segments.len(),
{
    if segments.len() == 0 {
        0
    } else {
        occupied_count(segments.drop_last(), priority) + if occupied(segments.last().role) && rank(
            segments.last().priority,
        ) == priority {
            1nat
        } else {
            0nat
        }
    }
}

/// The used slots of the occupied segments of a priority.
pub open spec fn used_count(segments: Seq<SegmentState>, priority: int) -> nat
    decreases segments.len(),
{
    if segments.len() == 0 {
        0
    } else {
        used_count(segments.drop_last(), priority) + if occupied(segments.last().role) && rank(
            segments.last().priority,
        ) == priority {
            segments.last().used as nat
        } else {
            0nat
        }
    }
}

fn role_is_occupied(role: SegmentRole) -> (result: bool)
    ensures
        result == occupied(role),
{
    match role {
        SegmentRole::Current | SegmentRole::Sealed | SegmentRole::ReclaimSource => true,
        _ => false,
    }
}

proof fn lemma_occupied_count_bound(segments: Seq<SegmentState>, priority: int)
    ensures
        occupied_count(segments, priority) <= segments.len(),
        used_count(segments, priority) <= segments.len() * u32::MAX,
    decreases segments.len(),
{
    if segments.len() > 0 {
        lemma_occupied_count_bound(segments.drop_last(), priority);
    }
}

/// `index` is the first segment in a role.
pub open spec fn first_in_role(segments: Seq<SegmentState>, role: SegmentRole, index: Option<u32>) -> bool {
    match index {
        Some(i) => {
            &&& i < segments.len()
            &&& segments[i as int].role == role
            &&& forall|k: int| 0 <= k < i ==> (#[trigger] segments[k]).role != role
        },
        None => forall|k: int| 0 <= k < segments.len() ==> (#[trigger] segments[k]).role != role,
    }
}

/// What comes of the cursor once the copy of a checkpoint was written.
pub open spec fn cursor_written(
    before: AllocatorModel,
    checkpoint: AllocatorCheckpoint,
    after: AllocatorModel,
    result: Result<(), Error>,
) -> bool {
    if before.generation == checkpoint.base_generation && before.active_page == checkpoint.base_page {
        &&& result is Ok
        &&& after == before.cursor_moved(checkpoint.next_generation, checkpoint.next_page)
    } else {
        &&& fails(result, "allocator checkpoint cursor changed while persistence was in flight"@)
        &&& after == before
    }
}

/// What comes of giving a segment back.
pub open spec fn releases(
    before: AllocatorModel,
    layout: SegmentLayout,
    victim: SegmentVictim,
    after: AllocatorModel,
    result: Result<AllocatorCheckpoint, Error>,
) -> bool {
    if !releasable(before, victim) {
        &&& fails(result, "segment victim changed during reclamation"@)
        &&& after == before
    } else if victim.generation == u32::MAX {
        &&& fails(result, "segment generation is exhausted"@)
        &&& after == before
    } else {
        &&& after == before.segment_reset(victim.segment as int, SegmentRole::Free)
        &&& if before.generation == u64::MAX {
            fails(result, "allocator state generation is exhausted"@)
        } else {
            result matches Ok(checkpoint) && checkpoint.captures(after, layout) && checkpoint.encoded@.len()
                == layout.state_copy_size
        }
    }
}

/// What comes of finishing a reclaim.
pub open spec fn finishes(
    before: AllocatorModel,
    layout: SegmentLayout,
    transaction: ReclaimTransaction,
    after: AllocatorModel,
    result: Result<AllocatorCheckpoint, Error>,
) -> bool {
    if !transaction_holds(before, transaction) {
        &&& fails(result, "reclaim transaction changed before commit"@)
        &&& after == before
    } else if transaction.source.generation == u32::MAX {
        &&& fails(result, "segment generation is exhausted"@)
        &&& after == before
    } else {
        &&& after == reclaim_finished(
            before,
            layout,
            transaction.source.segment,
            transaction.target,
            transaction.priority,
        )
        &&& before.current[rank(transaction.priority)] is None || before.segments[transaction.target as int].used
            >= layout.slots_per_segment ==> after.consistent(layout)
        &&& if before.generation == u64::MAX {
            fails(result, "allocator state generation is exhausted"@)
        } else if after.consistent(layout) {
            result matches Ok(checkpoint) && checkpoint.captures(after, layout) && checkpoint.encoded@.len()
                == layout.state_copy_size
        } else {
            result matches Err(error) && error is InvalidConfig
        }
    }
}

/// What comes of asking the target of a reclaim for slots.
pub open spec fn target_gives(
    before: AllocatorModel,
    layout: SegmentLayout,
    transaction: ReclaimTransaction,
    slots: u32,
    after: AllocatorModel,
    result: Result<Option<SegmentAllocation>, Error>,
) -> bool {
    let target = before.segments[transaction.target as int];
    if slots == 0 || slots > layout.slots_per_segment {
        fails(result, "reclaim allocation must fit completely within one segment"@) && after == before
    } else if target.role != SegmentRole::ReclaimTarget || target.generation != transaction.target_generation
        || target.priority != transaction.priority {
        fails(result, "reclaim target changed during compaction"@) && after == before
    } else if target.used + slots > layout.slots_per_segment {
        result == Ok::<Option<SegmentAllocation>, Error>(None) && after == before
    } else if before.next_sequence == u64::MAX {
        &&& fails(result, "segment allocation sequence is exhausted"@)
        &&& after == before.slots_taken(transaction.target as int, slots)
    } else {
        &&& result == Ok::<Option<SegmentAllocation>, Error>(
            Some(allocation_at(before, layout, transaction.target, slots, transaction.priority)),
        )
        &&& after == before.slots_taken(transaction.target as int, slots).sequence_advanced()
    }
}

impl SegmentStore {
    /// The layout is well formed, the state is consistent, and the runs are not empty.
    pub open spec fn wf(self) -> bool {
        &&& self.layout.wf()
        &&& self.layout.state_fits()
        &&& self.layout.slot_size <= u32::MAX
        &&& self.state@.consistent(self.layout)
        &&& self.state.active_page <= 1
        &&& self.read_run_slots > 0
        &&& self.write_run_slots > 0
    }

    /// Only the allocator state differs.
    pub open spec fn same_but_state(self, other: SegmentStore) -> bool {
        &&& self.layout == other.layout
        &&& self.direct_io == other.direct_io
        &&& self.read_run_slots == other.read_run_slots
        &&& self.write_run_slots == other.write_run_slots
        &&& self.allocated_size == other.allocated_size
        &&& self.writes == other.writes
    }

    /// The store's layout.
    pub fn layout(&self) -> (layout: SegmentLayout)
        ensures
            layout == self.layout,
    {
        self.layout
    }

    /// The bytes set aside for everything but the index.
    pub fn allocated_size(&self) -> (size: u64)
        ensures
            size == self.allocated_size,
    {
        self.allocated_size
    }

    /// The writes so far.
    pub fn physical_write_stats(&self) -> (stats: PhysicalWriteStats)
        ensures
            stats == self.writes,
    {
        self.writes
    }

    /// The first segment in a role.
    fn find_role(&self, role: SegmentRole) -> (index: Option<u32>)
        requires
            self.state.segments@.len() <= u32::MAX,
        ensures
            first_in_role(self.state.segments@, role, index),
    {
        let mut i: usize = 0;
        while i < self.state.segments.len()
            invariant
                i <= self.state.segments@.len() <= u32::MAX,
                forall|k: int| 0 <= k < i ==> (#[trigger] self.state.segments@[k]).role != role,
            decreases self.state.segments@.len() - i,
        {
            if self.state.segments[i].role == role {
                return Some(i as u32);
            }
            i = i + 1;
        }
        None
    }

    /// Takes `slots` slots from a segment that has room for them.
    fn take_slots(&mut self, segment: u32, slots: u32, priority: CachePriority) -> (result: Result<
        SegmentAllocationResult,
        Error,
    >)
        requires
            old(self).wf(),
            segment < old(self).state.segments@.len(),
            old(self).state.segments@[segment as int].used + slots <= old(self).layout.slots_per_segment,
            old(self).state.segments@[segment as int].role == SegmentRole::Current,
            slots > 0,
        ensures
            final(self).wf(),
            final(self).same_but_state(*old(self)),
            takes(old(self).state@, final(self).state@, old(self).layout, segment, slots, priority, result),
            old(self).state@.idle_is_empty() ==> final(self).state@.idle_is_empty(),
            old(self).state@.grows_into(final(self).state@),
    {
        let ghost before = self.state@;
        let mut segment_state = self.state.segments[segment as usize];
        let slot = segment_state.used;
        let segment_generation = segment_state.generation;
        segment_state.used = slot + slots;
        self.state.segments[segment as usize] = segment_state;
        proof {
            lemma_take_keeps(before, self.layout, segment as int, slots);
            assert(self.state@ =~= before.slots_taken(segment as int, slots));
        }
        let ghost taken = self.state@;
        let sequence = self.state.next_sequence;
        match sequence.checked_add(1) {
            Some(next) => {
                self.state.next_sequence = next;
            },
            None => return Err(invalid_state("segment allocation sequence is exhausted")),
        }
        proof {
            assert(self.state@ =~= taken.sequence_advanced());
            lemma_numbers_keep(taken, self.state@, self.layout);
            lemma_growth_is_transitive(before, taken, self.state@);
        }
        assert(segment * self.layout.slots_per_segment <= 0xffff_fffe * 0xffff_ffff) by (nonlinear_arith)
            requires
                segment < 0xffff_ffff,
                self.layout.slots_per_segment <= 0xffff_ffff,
        ;
        let physical_slot = segment as u64 * self.layout.slots_per_segment as u64 + slot as u64;
        Ok(
            SegmentAllocationResult::Allocated(
                SegmentAllocation {
                    physical_slot,
                    segment,
                    slot,
                    slots,
                    segment_generation,
                    priority,
                    sequence,
                },
            ),
        )
    }

    /// Takes `slots` adjacent slots for an entry of a priority.
    pub fn allocate(&mut self, priority: CachePriority, slots: u32) -> (result: Result<SegmentAllocationResult, Error>)
        requires
            old(self).wf(),
        ensures
            final(self).wf(),
            final(self).same_but_state(*old(self)),
            allocates(old(self).state@, final(self).state@, old(self).layout, priority, slots, result),
            old(self).state@.idle_is_empty() ==> final(self).state@.idle_is_empty() && old(self).state@.grows_into(
                final(self).state@,
            ),
    {
        if slots == 0 || slots > self.layout.slots_per_segment {
            proof {
                lemma_numbers_keep(self.state@, self.state@, self.layout);
            }
            return Err(invalid_state("segment allocation must fit completely within one segment"));
        }
        let at = priority.index();
        let ghost before = self.state@;
        proof {
            assert(before.pointer_ok(rank(priority)));
            lemma_seal_keeps(before, self.layout, priority);
        }
        if let Some(segment) = self.state.current[at] {
            assert(before.segment_ok(self.layout, segment as int));
            let mut segment_state = self.state.segments[segment as usize];
            if self.layout.slots_per_segment - segment_state.used >= slots {
                return self.take_slots(segment, slots, priority);
            }
            segment_state.role = SegmentRole::Sealed;
            self.state.segments[segment as usize] = segment_state;
            self.state.current[at] = None;
        }
        let ghost sealed = self.state@;
        assert(sealed =~= before.current_sealed(priority));
        let segment = match self.find_role(SegmentRole::Free) {
            Some(segment) => segment,
            None => return Ok(SegmentAllocationResult::ReclaimRequired),
        };
        assert(sealed.first_free(segment as int));
        let mut segment_state = self.state.segments[segment as usize];
        segment_state.used = 0;
        segment_state.sequence = self.state.next_sequence;
        segment_state.priority = priority;
        segment_state.role = SegmentRole::Current;
        self.state.segments[segment as usize] = segment_state;
        self.state.current[at] = Some(segment);
        proof {
            assert(self.state@ =~= sealed.activated(priority, segment));
            lemma_activate_keeps(sealed, self.layout, priority, segment);
        }
        let ghost activated = self.state@;
        let result = self.take_slots(segment, slots, priority);
        proof {
            if before.idle_is_empty() {
                lemma_growth_is_transitive(before, sealed, activated);
                lemma_growth_is_transitive(before, activated, self.state@);
            }
        }
        result
    }

    /// Seals the current segment that `victim` describes.
    pub fn seal_current(&mut self, victim: SegmentVictim) -> (result: Result<SegmentVictim, Error>)
        requires
            old(self).wf(),
        ensures
            final(self).wf(),
            final(self).same_but_state(*old(self)),
            seals(old(self).state@, final(self).state@, victim, result),
            old(self).state@.idle_is_empty() ==> final(self).state@.idle_is_empty(),
            old(self).state@.grows_into(final(self).state@),
    {
        let ghost before = self.state@;
        proof {
            lemma_numbers_keep(before, before, self.layout);
            lemma_seal_keeps(before, self.layout, victim.priority);
        }
        if victim.segment as usize >= self.state.segments.len() {
            return Err(invalid_state("current reclaim victim is out of range"));
        }
        let mut segment = self.state.segments[victim.segment as usize];
        let at = victim.priority.index();
        let named = match self.state.current[at] {
            Some(current) => current == victim.segment,
            None => false,
        };
        if segment.role != SegmentRole::Current || segment.generation != victim.generation || segment.used
            != victim.used || segment.priority != victim.priority || segment.sequence != victim.sequence || !named {
            return Err(invalid_state("current reclaim victim changed before seal"));
        }
        segment.role = SegmentRole::Sealed;
        self.state.segments[victim.segment as usize] = segment;
        self.state.current[at] = None;
        assert(self.state@ =~= before.current_sealed(victim.priority));
        Ok(victim)
    }

    /// The image of the state under the cursor that follows it.
    pub fn prepare_checkpoint_state(&self) -> (result: Result<AllocatorCheckpoint, Error>)
        requires
            self.layout.state_fits(),
            self.layout.slot_size <= u32::MAX,
            self.state.active_page <= 1,
        ensures
            match result {
                Ok(checkpoint) => self.state.generation < u64::MAX && self.state@.cursor_moved(
                    checkpoint.next_generation,
                    checkpoint.next_page,
                ).consistent(self.layout) && checkpoint.captures(self.state@, self.layout)
                    && checkpoint.encoded@.len() == self.layout.state_copy_size,
                Err(error) => {
                    ||| self.state.generation == u64::MAX && superblock_error(
                        error,
                        state_text("allocator state generation is exhausted"@),
                    )
                    ||| self.state.generation < u64::MAX && error is InvalidConfig && !self.state@.cursor_moved(
                        (self.state.generation + 1) as u64,
                        (1 - self.state.active_page) as u8,
                    ).consistent(self.layout)
                },
            },
    {
        let next_generation = match self.state.generation.checked_add(1) {
            Some(generation) => generation,
            None => return Err(invalid_state("allocator state generation is exhausted")),
        };
        let next_page = 1 - self.state.active_page;
        let mut snapshot = self.state.clone();
        snapshot.generation = next_generation;
        snapshot.active_page = next_page;
        assert(snapshot@ =~= self.state@.cursor_moved(next_generation, next_page));
        proof {
            lemma_valid_is_consistent(snapshot, self.layout);
        }
        match snapshot.encode(self.layout) {
            Ok(encoded) => {
                assert(snapshot.is_encoded_as(encoded@, self.layout));
                Ok(
                    AllocatorCheckpoint {
                        base_generation: self.state.generation,
                        base_page: self.state.active_page,
                        next_generation,
                        next_page,
                        encoded,
                    },
                )
            },
            Err(error) => Err(error),
        }
    }

    /// Where the image of a checkpoint goes in the state file.
    pub fn checkpoint_offset(&self, checkpoint: &AllocatorCheckpoint) -> (offset: u64)
        requires
            self.wf(),
            checkpoint.next_page <= 1,
        ensures
            offset == checkpoint.next_page * self.layout.state_copy_size,
    {
        if checkpoint.next_page == 0 {
            0
        } else {
            self.layout.state_copy_size as u64
        }
    }

    /// Records that the image of a checkpoint was written, and moves the cursor to it
    /// unless another image came first.
    pub fn persist_checkpoint_state(&mut self, checkpoint: &AllocatorCheckpoint) -> (result: Result<(), Error>)
        requires
            old(self).wf(),
            checkpoint.next_page <= 1,
            checkpoint.next_generation > 0,
        ensures
            final(self).wf(),
            final(self).writes == (PhysicalWriteStats {
                allocator_runs: old(self).writes.allocator_runs.wrapping_add(1),
                allocator_bytes: old(self).writes.allocator_bytes.wrapping_add(checkpoint.encoded@.len() as u64),
                ..old(self).writes
            }),
            final(self).same_but_state((SegmentStore { writes: final(self).writes, ..*old(self) })),
            cursor_written(old(self).state@, *checkpoint, final(self).state@, result),
            old(self).state@.idle_is_empty() ==> final(self).state@.idle_is_empty(),
            old(self).state@.grows_into(final(self).state@),
    {
        let ghost before = self.state@;
        self.writes.allocator_runs = self.writes.allocator_runs.wrapping_add(1);
        self.writes.allocator_bytes = self.writes.allocator_bytes.wrapping_add(checkpoint.encoded.len() as u64);
        proof {
            lemma_numbers_keep(before, before, self.layout);
        }
        if self.state.generation != checkpoint.base_generation || self.state.active_page != checkpoint.base_page {
            return Err(invalid_state("allocator checkpoint cursor changed while persistence was in flight"));
        }
        self.state.generation = checkpoint.next_generation;
        self.state.active_page = checkpoint.next_page;
        proof {
            assert(self.state@ =~= before.cursor_moved(checkpoint.next_generation, checkpoint.next_page));
            lemma_numbers_keep(before, self.state@, self.layout);
        }
        Ok(())
    }

    /// Gives back a sealed segment. Its generation moves on, so that every location in it
    /// is stale. The image to persist comes with the result.
    pub fn release(&mut self, victim: SegmentVictim) -> (result: Result<AllocatorCheckpoint, Error>)
        requires
            old(self).wf(),
            victim.segment < old(self).state.segments@.len(),
        ensures
            final(self).wf(),
            final(self).same_but_state(*old(self)),
            releases(old(self).state@, old(self).layout, victim, final(self).state@, result),
            old(self).state@.idle_is_empty() ==> final(self).state@.idle_is_empty(),
            old(self).state@.grows_into(final(self).state@),
    {
        let ghost before = self.state@;
        proof {
            lemma_numbers_keep(before, before, self.layout);
        }
        let mut segment = self.state.segments[victim.segment as usize];
        if segment.role != SegmentRole::Sealed || segment.generation != victim.generation || segment.used
            != victim.used {
            return Err(invalid_state("segment victim changed during reclamation"));
        }
        match segment.generation.checked_add(1) {
            Some(generation) => {
                segment.generation = generation;
            },
            None => return Err(invalid_state("segment generation is exhausted")),
        }
        segment.used = 0;
        segment.sequence = 0;
        segment.priority = CachePriority::Low;
        segment.role = SegmentRole::Free;
        self.state.segments[victim.segment as usize] = segment;
        proof {
            assert(self.state@ =~= before.segment_reset(victim.segment as int, SegmentRole::Free));
            lemma_release_keeps(before, self.layout, victim.segment as int);
            if self.state.generation < u64::MAX {
                let moved = self.state@.cursor_moved(
                    (self.state.generation + 1) as u64,
                    (1 - self.state.active_page) as u8,
                );
                lemma_numbers_keep(self.state@, moved, self.layout);
            }
        }
        self.prepare_checkpoint_state()
    }

    /// Begins to copy a sealed segment into the reserve. The image to persist comes with the
    /// transaction.
    pub fn begin_reclaim(&mut self, victim: SegmentVictim) -> (result: Result<
        (ReclaimTransaction, AllocatorCheckpoint),
        Error,
    >)
        requires
            old(self).wf(),
        ensures
            final(self).wf(),
            final(self).same_but_state(*old(self)),
            ({
                let before = old(self).state@;
                let target = before.reserve;
                if victim.segment >= before.segments.len() {
                    fails(result, "reclaim source is out of range"@) && final(self).state@ == before
                } else if !stable_source(before, victim) {
                    fails(result, "reclaim source is not a stable sealed segment"@) && final(self).state@ == before
                } else if before.segments[target as int].role != SegmentRole::Reserve {
                    fails(result, "reclaim target reserve is invalid"@) && final(self).state@ == before
                } else {
                    &&& final(self).state@ == reclaim_begun(before, victim.segment as int, victim.priority)
                    &&& if before.generation == u64::MAX {
                        fails(result, "allocator state generation is exhausted"@)
                    } else {
                        result matches Ok((transaction, checkpoint)) && transaction == (ReclaimTransaction {
                            source: victim,
                            target,
                            target_generation: before.segments[target as int].generation,
                            priority: victim.priority,
                        }) && checkpoint.captures(final(self).state@, final(self).layout)
                            && checkpoint.encoded@.len() == final(self).layout.state_copy_size
                    }
                }
            }),
            old(self).state@.idle_is_empty() ==> final(self).state@.idle_is_empty() && old(self).state@.grows_into(
                final(self).state@,
            ),
    {
        let ghost before = self.state@;
        proof {
            lemma_numbers_keep(before, before, self.layout);
        }
        if victim.segment as usize >= self.state.segments.len() {
            return Err(invalid_state("reclaim source is out of range"));
        }
        let mut source = self.state.segments[victim.segment as usize];
        if source.role != SegmentRole::Sealed || source.generation != victim.generation || source.used != victim.used
            || source.priority != victim.priority || self.state.current[victim.priority.index()].is_some() {
            return Err(invalid_state("reclaim source is not a stable sealed segment"));
        }
        let target = self.state.reserve;
        let mut target_state = self.state.segments[target as usize];
        if target_state.role != SegmentRole::Reserve || target == victim.segment {
            return Err(invalid_state("reclaim target reserve is invalid"));
        }
        source.role = SegmentRole::ReclaimSource;
        self.state.segments[victim.segment as usize] = source;
        target_state.used = 0;
        target_state.sequence = self.state.next_sequence;
        target_state.priority = victim.priority;
        target_state.role = SegmentRole::ReclaimTarget;
        self.state.segments[target as usize] = target_state;
        proof {
            assert(self.state@ =~= reclaim_begun(before, victim.segment as int, victim.priority));
            lemma_begin_keeps(before, self.layout, victim.segment as int, victim.priority);
            if self.state.generation < u64::MAX {
                let moved = self.state@.cursor_moved(
                    (self.state.generation + 1) as u64,
                    (1 - self.state.active_page) as u8,
                );
                lemma_numbers_keep(self.state@, moved, self.layout);
            }
        }
        match self.prepare_checkpoint_state() {
            Ok(checkpoint) => Ok(
                (
                    ReclaimTransaction {
                        source: victim,
                        target,
                        target_generation: target_state.generation,
                        priority: victim.priority,
                    },
                    checkpoint,
                ),
            ),
            Err(error) => Err(error),
        }
    }

    /// The reclaim in progress, if there is one.
    pub fn pending_reclaim(&self) -> (pending: Option<ReclaimTransaction>)
        requires
            self.wf(),
        ensures
            match pending {
                Some(transaction) => {
                    &&& first_in_role(
                        self.state.segments@,
                        SegmentRole::ReclaimSource,
                        Some(transaction.source.segment),
                    )
                    &&& first_in_role(self.state.segments@, SegmentRole::ReclaimTarget, Some(transaction.target))
                    &&& transaction.source == victim_at(self.state.segments@, transaction.source.segment as int)
                    &&& transaction.target_generation
                        == self.state.segments@[transaction.target as int].generation
                    &&& transaction.priority == self.state.segments@[transaction.target as int].priority
                    &&& transaction_holds(self.state@, transaction)
                },
                None => first_in_role(self.state.segments@, SegmentRole::ReclaimSource, None) || first_in_role(
                    self.state.segments@,
                    SegmentRole::ReclaimTarget,
                    None,
                ),
            },
    {
        let source = match self.find_role(SegmentRole::ReclaimSource) {
            Some(source) => source,
            None => return None,
        };
        let target = match self.find_role(SegmentRole::ReclaimTarget) {
            Some(target) => target,
            None => return None,
        };
        let source_state = self.state.segments[source as usize];
        let target_state = self.state.segments[target as usize];
        Some(
            ReclaimTransaction {
                source: SegmentVictim {
                    segment: source,
                    generation: source_state.generation,
                    used: source_state.used,
                    priority: source_state.priority,
                    sequence: source_state.sequence,
                },
                target,
                target_generation: target_state.generation,
                priority: target_state.priority,
            },
        )
    }

    /// Takes slots of the segment that a reclaim copies into.
    pub fn allocate_reclaim_target(&mut self, transaction: ReclaimTransaction, slots: u32) -> (result: Result<
        Option<SegmentAllocation>,
        Error,
    >)
        requires
            old(self).wf(),
            transaction.target < old(self).state.segments@.len(),
        ensures
            final(self).wf(),
            final(self).same_but_state(*old(self)),
            target_gives(old(self).state@, old(self).layout, transaction, slots, final(self).state@, result),
            old(self).state@.idle_is_empty() ==> final(self).state@.idle_is_empty(),
            old(self).state@.grows_into(final(self).state@),
    {
        let ghost before = self.state@;
        proof {
            lemma_numbers_keep(before, before, self.layout);
        }
        if slots == 0 || slots > self.layout.slots_per_segment {
            return Err(invalid_state("reclaim allocation must fit completely within one segment"));
        }
        let mut target = self.state.segments[transaction.target as usize];
        if target.role != SegmentRole::ReclaimTarget || target.generation != transaction.target_generation
            || target.priority != transaction.priority {
            return Err(invalid_state("reclaim target changed during compaction"));
        }
        assert(before.segment_ok(self.layout, transaction.target as int));
        if self.layout.slots_per_segment - target.used < slots {
            return Ok(None);
        }
        let slot = target.used;
        target.used = slot + slots;
        self.state.segments[transaction.target as usize] = target;
        proof {
            assert(self.state@ =~= before.slots_taken(transaction.target as int, slots));
            lemma_take_keeps(before, self.layout, transaction.target as int, slots);
        }
        let ghost taken = self.state@;
        let sequence = self.state.next_sequence;
        match sequence.checked_add(1) {
            Some(next) => {
                self.state.next_sequence = next;
            },
            None => return Err(invalid_state("segment allocation sequence is exhausted")),
        }
        proof {
            assert(self.state@ =~= taken.sequence_advanced());
            lemma_numbers_keep(taken, self.state@, self.layout);
            lemma_growth_is_transitive(before, taken, self.state@);
        }
        assert(transaction.target * self.layout.slots_per_segment <= 0xffff_fffe * 0xffff_ffff) by (nonlinear_arith)
            requires
                transaction.target < 0xffff_ffff,
                self.layout.slots_per_segment <= 0xffff_ffff,
        ;
        Ok(
            Some(
                SegmentAllocation {
                    physical_slot: transaction.target as u64 * self.layout.slots_per_segment as u64 + slot as u64,
                    segment: transaction.target,
                    slot,
                    slots,
                    segment_generation: transaction.target_generation,
                    priority: transaction.priority,
                    sequence,
                },
            ),
        )
    }

    /// Ends a reclaim: the source becomes the reserve, and the target takes its place. The
    /// image to persist comes with the result. Where the priority has a current segment
    /// again and the target has room, the new state is inconsistent and no image of it
    /// exists.
    pub fn finish_reclaim(&mut self, transaction: ReclaimTransaction) -> (result: Result<AllocatorCheckpoint, Error>)
        requires
            old(self).wf(),
            transaction.source.segment < old(self).state.segments@.len(),
            transaction.target < old(self).state.segments@.len(),
        ensures
            final(self).same_but_state(*old(self)),
            finishes(old(self).state@, old(self).layout, transaction, final(self).state@, result),
            old(self).state@.idle_is_empty() && final(self).state@.consistent(final(self).layout)
                ==> final(self).state@.idle_is_empty(),
            final(self).state.active_page == old(self).state.active_page,
    {
        let ghost before = self.state@;
        let mut source = self.state.segments[transaction.source.segment as usize];
        let mut target = self.state.segments[transaction.target as usize];
        if source.role != SegmentRole::ReclaimSource || source.generation != transaction.source.generation
            || target.role != SegmentRole::ReclaimTarget || target.generation != transaction.target_generation
            || target.priority != transaction.priority {
            return Err(invalid_state("reclaim transaction changed before commit"));
        }
        match source.generation.checked_add(1) {
            Some(generation) => {
                source.generation = generation;
            },
            None => return Err(invalid_state("segment generation is exhausted")),
        }
        source.used = 0;
        source.sequence = 0;
        source.priority = CachePriority::Low;
        source.role = SegmentRole::Reserve;
        self.state.segments[transaction.source.segment as usize] = source;
        self.state.reserve = transaction.source.segment;
        if target.used < self.layout.slots_per_segment {
            target.role = SegmentRole::Current;
            self.state.current[transaction.priority.index()] = Some(transaction.target);
        } else {
            target.role = SegmentRole::Sealed;
        }
        self.state.segments[transaction.target as usize] = target;
        proof {
            let after = reclaim_finished(
                before,
                self.layout,
                transaction.source.segment,
                transaction.target,
                transaction.priority,
            );
            assert(self.state@ =~= after);
            if before.current[rank(transaction.priority)] is None
                || before.segments[transaction.target as int].used >= self.layout.slots_per_segment {
                lemma_finish_keeps(
                    before,
                    self.layout,
                    transaction.source.segment,
                    transaction.target,
                    transaction.priority,
                );
            }
            if self.state.generation < u64::MAX {
                let moved = self.state@.cursor_moved(
                    (self.state.generation + 1) as u64,
                    (1 - self.state.active_page) as u8,
                );
                if self.state@.consistent(self.layout) {
                    lemma_numbers_keep(self.state@, moved, self.layout);
                }
                if moved.consistent(self.layout) {
                    lemma_numbers_keep(moved, self.state@, self.layout);
                }
            }
        }
        self.prepare_checkpoint_state()
    }

    /// The segments that could be reclaimed, and how many each priority occupies.
    pub fn reclaim_candidates(&self) -> (candidates: ReclaimCandidates)
        requires
            self.state.segments@.len() <= u32::MAX,
        ensures
            forall|p: int|
                0 <= p < 3 ==> {
                    &&& candidates.occupied_segments@[p] == occupied_count(self.state.segments@, p)
                    &&& oldest_in_class(
                        self.state.segments@,
                        SegmentRole::Sealed,
                        p,
                        #[trigger] candidates.sealed@[p],
                    )
                    &&& oldest_in_class(self.state.segments@, SegmentRole::Current, p, candidates.current@[p])
                },
    {
        let mut occupied_segments: [u32; 3] = [0, 0, 0];
        let mut sealed: [Option<SegmentVictim>; 3] = [None, None, None];
        let mut current: [Option<SegmentVictim>; 3] = [None, None, None];
        let mut i: usize = 0;
        let ghost all = self.state.segments@;
        while i < self.state.segments.len()
            invariant
                i <= all.len() <= u32::MAX,
                all == self.state.segments@,
                forall|p: int|
                    0 <= p < 3 ==> {
                        &&& #[trigger] occupied_segments@[p] == occupied_count(all.take(i as int), p)
                        &&& oldest_in_class(all.take(i as int), SegmentRole::Sealed, p, sealed@[p])
                        &&& oldest_in_class(all.take(i as int), SegmentRole::Current, p, current@[p])
                    },
            decreases all.len() - i,
        {
            let segment = self.state.segments[i];
            let at = segment.priority.index();
            let ghost seen = all.take(i as int);
            let ghost next = all.take(i + 1);
            proof {
                assert(next.drop_last() =~= seen);
                assert(next.last() == segment);
                assert forall|p: int| 0 <= p < 3 implies #[trigger] occupied_count(next, p) <= next.len() by {
                    lemma_occupied_count_bound(next, p);
                }
                assert(occupied_count(next, at as int) <= next.len());
                assert(forall|k: int| 0 <= k < i ==> next[k] == seen[k]);
            }
            let ghost old_sealed = sealed@;
            let ghost old_current = current@;
            let ghost old_occupied = occupied_segments@;
            if role_is_occupied(segment.role) {
                occupied_segments[at] = occupied_segments[at].saturating_add(1);
            }
            let victim = SegmentVictim {
                segment: i as u32,
                generation: segment.generation,
                used: segment.used,
                priority: segment.priority,
                sequence: segment.sequence,
            };
            if segment.role == SegmentRole::Current {
                let replace = match current[at] {
                    Some(known) => is_older(victim, known),
                    None => true,
                };
                if replace {
                    current[at] = Some(victim);
                }
            } else if segment.role == SegmentRole::Sealed {
                let replace = match sealed[at] {
                    Some(known) => is_older(victim, known),
                    None => true,
                };
                if replace {
                    sealed[at] = Some(victim);
                }
            }
            proof {
                assert forall|p: int| 0 <= p < 3 implies {
                    &&& #[trigger] occupied_segments@[p] == occupied_count(next, p)
                    &&& oldest_in_class(next, SegmentRole::Sealed, p, sealed@[p])
                    &&& oldest_in_class(next, SegmentRole::Current, p, current@[p])
                } by {
                    assert(old_occupied[p] == occupied_count(seen, p));
                    lemma_candidate_step(seen, next, SegmentRole::Sealed, p, old_sealed[p], sealed@[p], victim);
                    lemma_candidate_step(seen, next, SegmentRole::Current, p, old_current[p], current@[p], victim);
                }
            }
            i = i + 1;
        }
        assert(all.take(i as int) =~= all);
        ReclaimCandidates { occupied_segments, sealed, current }
    }

    /// Who occupies how much.
    pub fn priority_occupancy(&self, capacity_floor_segments: [u32; 3]) -> (occupancy: PriorityOccupancy)
        requires
            self.state.segments@.len() <= u32::MAX,
        ensures
            occupancy.usable_segments == self.layout.segment_count.saturating_sub(1),
            occupancy.slots_per_segment == self.layout.slots_per_segment,
            occupancy.slot_size == self.layout.slot_size,
            occupancy.capacity_floor_segments == capacity_floor_segments,
            forall|p: int|
                0 <= p < 3 ==> #[trigger] occupancy.occupied_segments@[p] == occupied_count(
                    self.state.segments@,
                    p,
                ) && occupancy.used_slots@[p] == used_count(self.state.segments@, p),
    {
        let mut occupied_segments: [u32; 3] = [0, 0, 0];
        let mut used_slots: [u64; 3] = [0, 0, 0];
        let mut i: usize = 0;
        let ghost all = self.state.segments@;
        while i < self.state.segments.len()
            invariant
                i <= all.len() <= u32::MAX,
                all == self.state.segments@,
                forall|p: int|
                    0 <= p < 3 ==> #[trigger] occupied_segments@[p] == occupied_count(all.take(i as int), p)
                        && used_slots@[p] == used_count(all.take(i as int), p),
            decreases all.len() - i,
        {
            let segment = self.state.segments[i];
            let at = segment.priority.index();
            let ghost before = occupied_segments@;
            let ghost used_before = used_slots@;
            proof {
                let next = all.take(i + 1);
                assert(next.drop_last() =~= all.take(i as int));
                assert(next.last() == segment);
                lemma_occupied_count_bound(next, at as int);
                assert(before[at as int] == occupied_count(all.take(i as int), at as int));
            }
            if role_is_occupied(segment.role) {
                occupied_segments[at] = occupied_segments[at].saturating_add(1);
                used_slots[at] = used_slots[at].saturating_add(segment.used as u64);
            }
            proof {
                let next = all.take(i + 1);
                assert forall|p: int| 0 <= p < 3 implies #[trigger] occupied_segments@[p] == occupied_count(next, p)
                    && used_slots@[p] == used_count(next, p) by {
                    assert(before[p] == occupied_count(all.take(i as int), p));
                }
            }
            i = i + 1;
        }
        assert(all.take(i as int) =~= all);
        PriorityOccupancy::new(
            self.layout.segment_count.saturating_sub(1),
            self.layout.slots_per_segment,
            self.layout.slot_size,
            occupied_segments,
            used_slots,
            capacity_floor_segments,
        )
    }
}

proof fn lemma_candidate_step(
    seen: Seq<SegmentState>,
    next: Seq<SegmentState>,
    role: SegmentRole,
    priority: int,
    before: Option<SegmentVictim>,
    after: Option<SegmentVictim>,
    victim: SegmentVictim,
)
    requires
        next.len() == seen.len() + 1,
        next.len() <= u32::MAX,
        forall|k: int| 0 <= k < seen.len() ==> next[k] == seen[k],
        victim == victim_at(next, seen.len() as int),
        oldest_in_class(seen, role, priority, before),
        after == (if in_class(next, seen.len() as int, role, priority) && match before {
            Some(known) => older(victim, known),
            None => true,
        } {
            Some(victim)
        } else {
            before
        }),
    ensures
        oldest_in_class(next, role, priority, after),
{
    let last = seen.len() as int;
    assert forall|i: int| 0 <= i < last implies in_class(next, i, role, priority) == in_class(
        seen,
        i,
        role,
        priority,
    ) && victim_at(next, i) == victim_at(seen, i) by {}
    match after {
        Some(chosen) => {
            assert forall|i: int|
                0 <= i < next.len() && #[trigger] in_class(next, i, role, priority) && i
                    != chosen.segment implies older(chosen, victim_at(next, i)) by {
                if i < last {
                    assert(in_class(seen, i, role, priority));
                }
            }
        },
        None => {
            assert forall|i: int| 0 <= i < next.len() implies !(#[trigger] in_class(next, i, role, priority)) by {
                if i < last {
                    assert(!in_class(seen, i, role, priority));
                }
            }
        },
    }
}

/// An allocation begins where the used slots of its segment end, and adds its own to them.
pub proof fn law_allocations_continue_the_used_slots(
    before: AllocatorModel,
    after: AllocatorModel,
    layout: SegmentLayout,
    priority: CachePriority,
    slots: u32,
    allocation: SegmentAllocation,
)
    requires
        before.consistent(layout),
        before.idle_is_empty(),
        allocates(before, after, layout, priority, slots, Ok(SegmentAllocationResult::Allocated(allocation))),
    ensures
        allocation.segment < before.segments.len(),
        allocation.slots == slots,
        allocation.priority == priority,
        allocation.slot == before.segments[allocation.segment as int].used,
        allocation.segment_generation == before.segments[allocation.segment as int].generation,
        after.segments.len() == before.segments.len(),
        after.segments[allocation.segment as int].used == allocation.slot + slots,
        after.segments[allocation.segment as int].generation == allocation.segment_generation,
        allocation.slot + slots <= layout.slots_per_segment,
{
    assert(before.pointer_ok(rank(priority)));
    let current = before.current[rank(priority)];
    if current is Some && before.segments[current->0 as int].used + slots <= layout.slots_per_segment {
        assert(before.segment_ok(layout, current->0 as int));
    } else {
        let sealed = before.current_sealed(priority);
        let free = choose|free: u32| #[trigger] sealed.first_free(free as int) && takes(
            sealed.activated(priority, free),
            after,
            layout,
            free,
            slots,
            priority,
            Ok(SegmentAllocationResult::Allocated(allocation)),
        );
        assert(sealed.segments[free as int].role == SegmentRole::Free);
        assert(before.segments[free as int].role == SegmentRole::Free);
        assert(before.segments[free as int].used == 0);
    }
}

/// Two allocations never share a slot: of two taken one after the other from the same
/// generation of the same segment, the later begins where the earlier ends, or beyond.
pub proof fn law_allocations_never_overlap(
    layout: SegmentLayout,
    first_before: AllocatorModel,
    first_after: AllocatorModel,
    first_priority: CachePriority,
    first: SegmentAllocation,
    second_before: AllocatorModel,
    second_after: AllocatorModel,
    second_priority: CachePriority,
    second: SegmentAllocation,
)
    requires
        first_before.consistent(layout),
        first_before.idle_is_empty(),
        allocates(
            first_before,
            first_after,
            layout,
            first_priority,
            first.slots,
            Ok(SegmentAllocationResult::Allocated(first)),
        ),
        first_after.grows_into(second_before),
        second_before.consistent(layout),
        second_before.idle_is_empty(),
        allocates(
            second_before,
            second_after,
            layout,
            second_priority,
            second.slots,
            Ok(SegmentAllocationResult::Allocated(second)),
        ),
        first.segment == second.segment,
        first.segment_generation == second.segment_generation,
    ensures
        first.slot + first.slots <= second.slot,
{
    law_allocations_continue_the_used_slots(first_before, first_after, layout, first_priority, first.slots, first);
    law_allocations_continue_the_used_slots(
        second_before,
        second_after,
        layout,
        second_priority,
        second.slots,
        second,
    );
    assert(first_after.segments[first.segment as int].used == first.slot + first.slots);
}

/// An entry goes where its priority belongs: into the current segment of its priority while
/// that has room, and else into a free segment that becomes the current one of that
/// priority, the one before being sealed. Nothing else moves. Slots are refused for want of
/// room only where the current segment has none and no segment is free.
pub proof fn law_entries_are_placed_by_priority(
    before: AllocatorModel,
    after: AllocatorModel,
    layout: SegmentLayout,
    priority: CachePriority,
    slots: u32,
    result: Result<SegmentAllocationResult, Error>,
)
    requires
        before.consistent(layout),
        before.idle_is_empty(),
        allocates(before, after, layout, priority, slots, result),
    ensures
        ({
            let p = rank(priority);
            let fits = 0 < slots <= layout.slots_per_segment;
            let room = before.current[p] matches Some(s) && before.segments[s as int].used + slots
                <= layout.slots_per_segment;
            let free = exists|i: int|
                0 <= i < before.segments.len() && (#[trigger] before.segments[i]).role == SegmentRole::Free;
            &&& result matches Ok(SegmentAllocationResult::Allocated(a)) ==> {
                let s = a.segment as int;
                &&& fits
                &&& a.priority == priority
                &&& a.slots == slots
                &&& 0 <= s < before.segments.len()
                &&& after.segments.len() == before.segments.len()
                &&& after.segments[s].priority == priority
                &&& after.segments[s].role == SegmentRole::Current
                &&& after.segments[s].generation == before.segments[s].generation
                &&& after.segments[s].used == before.segments[s].used + slots
                &&& after.current[p] == Some(a.segment)
                &&& a.sequence == before.next_sequence
                &&& after.next_sequence == before.next_sequence + 1
                &&& forall|i: int|
                    0 <= i < before.segments.len() && i != s ==> (#[trigger] after.segments[i]).generation
                        == before.segments[i].generation && after.segments[i].used == before.segments[i].used
                        && after.segments[i].priority == before.segments[i].priority
                &&& forall|i: int|
                    0 <= i < before.segments.len() && i != s && before.current[p] != Some(i as u32) ==> #[trigger]
                        after.segments[i] == before.segments[i]
                &&& forall|q: int| 0 <= q < 3 && q != p ==> #[trigger] after.current[q] == before.current[q]
                &&& room ==> before.current[p] == Some(a.segment)
                &&& !room ==> before.segments[s].role == SegmentRole::Free && (before.current[p] matches Some(old_one)
                    ==> after.segments[old_one as int].role == SegmentRole::Sealed)
                &&& !room ==> forall|i: int|
                    0 <= i < s ==> (#[trigger] before.segments[i]).role != SegmentRole::Free
            }
            &&& result matches Ok(SegmentAllocationResult::ReclaimRequired) ==> fits && !room && !free
                && after.current[p] is None
            &&& fits && (room || free) && before.next_sequence < u64::MAX ==> (result matches Ok(
                SegmentAllocationResult::Allocated(_),
            ))
            &&& result is Err ==> !fits || before.next_sequence == u64::MAX
        }),
{
    let p = rank(priority);
    let current = before.current[p];
    assert(before.pointer_ok(p));
    if slots == 0 || slots > layout.slots_per_segment {
    } else if current is Some && before.segments[current->0 as int].used + slots <= layout.slots_per_segment {
        let s = current->0 as int;
        assert(before.segment_ok(layout, s));
        assert(rank(before.segments[s].priority) == p);
    } else {
        let sealed = before.current_sealed(priority);
        if current is Some {
            assert(before.segment_ok(layout, current->0 as int));
        }
        if sealed.none_free() && result == Ok::<SegmentAllocationResult, Error>(
            SegmentAllocationResult::ReclaimRequired,
        ) && after == sealed {
            assert forall|i: int|
                0 <= i < before.segments.len() && (#[trigger] before.segments[i]).role == SegmentRole::Free implies false by {
                assert(sealed.segments[i].role != SegmentRole::Free);
            }
        } else {
            let free = choose|free: u32| #[trigger] sealed.first_free(free as int) && takes(
                sealed.activated(priority, free),
                after,
                layout,
                free,
                slots,
                priority,
                result,
            );
            assert(sealed.segments[free as int].role == SegmentRole::Free);
            assert(before.segments[free as int].role == SegmentRole::Free);
            assert(before.segments[free as int].used == 0);
            assert(before.segment_ok(layout, free as int));
            assert forall|i: int| 0 <= i < free implies (#[trigger] before.segments[i]).role != SegmentRole::Free by {
                assert(sealed.segments[i].role != SegmentRole::Free);
            }
        }
    }
}

/// What one segment adds to the occupancy of a priority: itself and its used slots.
pub open spec fn share_of(segment: SegmentState, priority: CachePriority) -> (int, int) {
    let holds = segment.role == SegmentRole::Current || segment.role == SegmentRole::Sealed || segment.role
        == SegmentRole::ReclaimSource;
    if holds && segment.priority == priority {
        (1, segment.used as int)
    } else {
        (0, 0)
    }
}

/// A change of one segment changes the occupancy by exactly its own part.
pub proof fn law_occupancy_follows_every_change(
    segments: Seq<SegmentState>,
    i: int,
    changed: SegmentState,
    priority: CachePriority,
)
    requires
        0 <= i < segments.len(),
    ensures
        ({
            let after = segments.update(i, changed);
            let p = rank(priority);
            let was = share_of(segments[i], priority);
            let now = share_of(changed, priority);
            &&& occupied_count(after, p) == occupied_count(segments, p) - was.0 + now.0
            &&& used_count(after, p) == used_count(segments, p) - was.1 + now.1
        }),
    decreases segments.len(),
{
    let after = segments.update(i, changed);
    let n = segments.len() - 1;
    if i < n {
        law_occupancy_follows_every_change(segments.drop_last(), i, changed, priority);
        assert(after.drop_last() =~= segments.drop_last().update(i, changed));
    } else {
        assert(after.drop_last() =~= segments.drop_last());
    }
}

/// No segments occupy nothing.
pub proof fn law_no_segments_occupy_nothing(priority: CachePriority)
    ensures
        occupied_count(Seq::<SegmentState>::empty(), rank(priority)) == 0,
        used_count(Seq::<SegmentState>::empty(), rank(priority)) == 0,
{
}

/// The oldest candidate of a priority is a sealed or current segment of that priority that
/// was put to use before every other one, and there is one where there is any such segment.
pub proof fn law_the_oldest_segment_is_the_candidate(
    segments: Seq<SegmentState>,
    candidates: ReclaimCandidates,
    priority: CachePriority,
    i: int,
)
    requires
        segments.len() <= u32::MAX,
        oldest_in_class(segments, SegmentRole::Sealed, rank(priority), candidates.sealed@[rank(priority)]),
        oldest_in_class(segments, SegmentRole::Current, rank(priority), candidates.current@[rank(priority)]),
        0 <= i < segments.len(),
    ensures
        ({
            let candidate = candidates.oldest_of(priority);
            let among = segments[i].priority == priority && (segments[i].role == SegmentRole::Sealed
                || segments[i].role == SegmentRole::Current);
            &&& among ==> candidate is Some
            &&& candidate matches Some((victim, is_current)) ==> {
                let chosen = segments[victim.segment as int];
                &&& victim.segment < segments.len()
                &&& chosen.priority == priority
                &&& victim.generation == chosen.generation
                &&& victim.used == chosen.used
                &&& victim.sequence == chosen.sequence
                &&& is_current ==> chosen.role == SegmentRole::Current
                &&& !is_current ==> chosen.role == SegmentRole::Sealed
                &&& among ==> victim.sequence <= segments[i].sequence
            }
        }),
{
    let p = rank(priority);
    if segments[i].priority == priority {
        assert(segments[i].role == SegmentRole::Sealed ==> in_class(segments, i, SegmentRole::Sealed, p));
        assert(segments[i].role == SegmentRole::Current ==> in_class(segments, i, SegmentRole::Current, p));
        assert(victim_at(segments, i).sequence == segments[i].sequence);
    }
}

/// A reclaim loses nothing that was copied: once it is done the target holds what it held,
/// in the same generation, the source holds nothing and is of a new generation, it is the
/// reserve, and no other segment has changed.
pub proof fn law_a_finished_reclaim_keeps_what_was_copied(
    model: AllocatorModel,
    layout: SegmentLayout,
    source: u32,
    target: u32,
    priority: CachePriority,
)
    requires
        source < model.segments.len(),
        target < model.segments.len(),
        source != target,
        model.segments[source as int].generation < u32::MAX,
        model.current.len() == 3,
    ensures
        ({
            let after = reclaim_finished(model, layout, source, target, priority);
            let s = source as int;
            let t = target as int;
            &&& after.segments[s].generation == model.segments[s].generation + 1
            &&& after.segments[s].used == 0
            &&& after.segments[s].role == SegmentRole::Reserve
            &&& after.reserve == source
            &&& after.segments[t].generation == model.segments[t].generation
            &&& after.segments[t].used == model.segments[t].used
            &&& after.segments[t].sequence == model.segments[t].sequence
            &&& after.segments[t].priority == model.segments[t].priority
            &&& model.segments[t].used < layout.slots_per_segment ==> after.segments[t].role == SegmentRole::Current
                && after.current[rank(priority)] == Some(target)
            &&& model.segments[t].used >= layout.slots_per_segment ==> after.segments[t].role == SegmentRole::Sealed
                && after.current == model.current
            &&& forall|i: int|
                0 <= i < model.segments.len() && i != s && i != t ==> #[trigger] after.segments[i] == model.segments[i]
        }),
{
}

/// A reclaim that begins copies nothing yet: its source keeps what it holds, and its target
/// is the empty reserve.
pub proof fn law_a_reclaim_begins_with_everything_in_place(
    model: AllocatorModel,
    source: int,
    priority: CachePriority,
)
    requires
        0 <= source < model.segments.len(),
        model.reserve < model.segments.len(),
        source != model.reserve,
    ensures
        ({
            let after = reclaim_begun(model, source, priority);
            let t = model.reserve as int;
            &&& after.segments[source].role == SegmentRole::ReclaimSource
            &&& after.segments[source].generation == model.segments[source].generation
            &&& after.segments[source].used == model.segments[source].used
            &&& after.segments[source].priority == model.segments[source].priority
            &&& after.segments[t].role == SegmentRole::ReclaimTarget
            &&& after.segments[t].used == 0
            &&& after.segments[t].priority == priority
            &&& after.segments[t].generation == model.segments[t].generation
            &&& forall|i: int|
                0 <= i < model.segments.len() && i != source && i != t ==> #[trigger] after.segments[i]
                    == model.segments[i]
            &&& after.current == model.current
        }),
{
}

/// A segment that is given back holds nothing, is of a new generation and takes the role
/// that it is given; every other segment and every current one stays.
pub proof fn law_a_segment_given_back_is_empty(model: AllocatorModel, segment: int, role: SegmentRole)
    requires
        0 <= segment < model.segments.len(),
        model.segments[segment].generation < u32::MAX,
    ensures
        ({
            let after = model.segment_reset(segment, role);
            &&& after.segments[segment].generation == model.segments[segment].generation + 1
            &&& after.segments[segment].used == 0
            &&& after.segments[segment].role == role
            &&& after.segments.len() == model.segments.len()
            &&& forall|i: int|
                0 <= i < model.segments.len() && i != segment ==> #[trigger] after.segments[i] == model.segments[i]
            &&& after.current == model.current
            &&& after.next_sequence == model.next_sequence
        }),
{
}

/// A current segment is sealed only as it was chosen: it is the current one of its priority
/// and its generation, its slots and its age are as they were. It then keeps all it holds.
pub proof fn law_only_an_unchanged_segment_is_sealed(
    before: AllocatorModel,
    after: AllocatorModel,
    victim: SegmentVictim,
    result: Result<SegmentVictim, Error>,
)
    requires
        before.current.len() == 3,
        seals(before, after, victim, result),
    ensures
        result is Ok <==> {
            let s = victim.segment as int;
            &&& s < before.segments.len()
            &&& before.segments[s].role == SegmentRole::Current
            &&& before.segments[s].generation == victim.generation
            &&& before.segments[s].used == victim.used
            &&& before.segments[s].sequence == victim.sequence
            &&& before.segments[s].priority == victim.priority
            &&& before.current[rank(victim.priority)] == Some(victim.segment)
        },
        result matches Ok(sealed) ==> {
            let s = victim.segment as int;
            &&& sealed == victim
            &&& after.segments[s].role == SegmentRole::Sealed
            &&& after.segments[s].generation == victim.generation
            &&& after.segments[s].used == victim.used
            &&& after.current[rank(victim.priority)] is None
        },
        result is Err ==> after == before,
        forall|i: int|
            0 <= i < before.segments.len() && i != victim.segment ==> #[trigger] after.segments[i] == before.segments[i],
{
}

/// Only a sealed segment that has not changed since it was chosen is released.
pub proof fn law_only_an_unchanged_segment_is_released(model: AllocatorModel, victim: SegmentVictim)
    ensures
        releasable(model, victim) <==> {
            let s = model.segments[victim.segment as int];
            s.role == SegmentRole::Sealed && s.generation == victim.generation && s.used == victim.used
        },
{
}

/// Only a sealed segment that has not changed since it was chosen, of a priority without a
/// current segment, is reclaimed; and the reclaim that then begins is the one that holds.
pub proof fn law_a_reclaim_that_begins_holds(model: AllocatorModel, victim: SegmentVictim)
    requires
        victim.segment < model.segments.len(),
        model.reserve < model.segments.len(),
        model.segments[model.reserve as int].role == SegmentRole::Reserve,
    ensures
        stable_source(model, victim) <==> {
            let source = model.segments[victim.segment as int];
            source.role == SegmentRole::Sealed && source.generation == victim.generation && source.used == victim.used
                && source.priority == victim.priority && model.current[rank(victim.priority)] is None
        },
        stable_source(model, victim) ==> transaction_holds(
            reclaim_begun(model, victim.segment as int, victim.priority),
            ReclaimTransaction {
                source: victim,
                target: model.reserve,
                target_generation: model.segments[model.reserve as int].generation,
                priority: victim.priority,
            },
        ),
{
}

/// A reclaim holds only while both its segments are in their roles and of the generations
/// with which it began, and the target is of its priority.
pub proof fn law_a_reclaim_holds_only_for_its_own_segments(model: AllocatorModel, transaction: ReclaimTransaction)
    ensures
        transaction_holds(model, transaction) <==> {
            let source = model.segments[transaction.source.segment as int];
            let target = model.segments[transaction.target as int];
            source.role == SegmentRole::ReclaimSource && source.generation == transaction.source.generation && target.role
                == SegmentRole::ReclaimTarget && target.generation == transaction.target_generation && target.priority
                == transaction.priority
        },
{
}

/// Of two checkpoints that were taken of the same cursor, only the one that is written first
/// moves it; the other one is refused and changes nothing.
pub proof fn law_one_of_two_checkpoints_moves_the_cursor(
    models: (AllocatorModel, AllocatorModel),
    layout: SegmentLayout,
    checkpoints: (AllocatorCheckpoint, AllocatorCheckpoint),
    before: AllocatorModel,
    between: AllocatorModel,
    after: AllocatorModel,
    results: (Result<(), Error>, Result<(), Error>),
)
    requires
        checkpoints.0.captures(models.0, layout),
        checkpoints.1.captures(models.1, layout),
        models.0.generation == before.generation,
        models.0.active_page == before.active_page,
        models.1.generation == before.generation,
        models.1.active_page == before.active_page,
        cursor_written(before, checkpoints.0, between, results.0),
        cursor_written(between, checkpoints.1, after, results.1),
    ensures
        results.0 is Ok,
        results.1 is Err,
        between.generation == before.generation + 1,
        between.active_page == 1 - before.active_page,
        between.segments == before.segments,
        between.current == before.current,
        after == between,
{
}

/// A segment is given back exactly where it is sealed, is as it was chosen and can have
/// another generation. It is then free and empty, and every other segment stays.
pub proof fn law_a_released_segment_is_free(
    before: AllocatorModel,
    layout: SegmentLayout,
    victim: SegmentVictim,
    after: AllocatorModel,
    result: Result<AllocatorCheckpoint, Error>,
)
    requires
        victim.segment < before.segments.len(),
        before.generation < u64::MAX,
        releases(before, layout, victim, after, result),
    ensures
        ({
            let segment = before.segments[victim.segment as int];
            result is Ok <==> segment.role == SegmentRole::Sealed && segment.generation == victim.generation
                && segment.used == victim.used && victim.generation < u32::MAX
        }),
        result is Err ==> after == before,
        result matches Ok(checkpoint) ==> {
            let freed = after.segments[victim.segment as int];
            &&& freed.role == SegmentRole::Free
            &&& freed.used == 0
            &&& freed.generation == victim.generation + 1
            &&& checkpoint.captures(after, layout)
            &&& forall|i: int|
                0 <= i < before.segments.len() && i != victim.segment ==> #[trigger] after.segments[i]
                    == before.segments[i]
        },
{
}

/// The target of a reclaim gives slots exactly while it is the target that the reclaim began
/// with, and as long as they fit behind the ones that it gave before; a full target is no
/// failure.
pub proof fn law_a_reclaim_target_is_filled_from_the_front(
    before: AllocatorModel,
    layout: SegmentLayout,
    transaction: ReclaimTransaction,
    slots: u32,
    after: AllocatorModel,
    result: Result<Option<SegmentAllocation>, Error>,
)
    requires
        transaction.target < before.segments.len(),
        1 <= slots <= layout.slots_per_segment,
        before.next_sequence < u64::MAX,
        target_gives(before, layout, transaction, slots, after, result),
    ensures
        ({
            let target = before.segments[transaction.target as int];
            &&& result is Ok <==> target.role == SegmentRole::ReclaimTarget && target.generation
                == transaction.target_generation && target.priority == transaction.priority
            &&& result matches Ok(given) ==> (given is Some <==> target.used + slots <= layout.slots_per_segment)
            &&& result matches Ok(Some(given)) ==> {
                &&& given.segment == transaction.target
                &&& given.slot == target.used
                &&& given.slots == slots
                &&& given.segment_generation == transaction.target_generation
                &&& given.priority == transaction.priority
                &&& given.sequence == before.next_sequence
                &&& after.segments[transaction.target as int].used == target.used + slots
                &&& after.next_sequence == before.next_sequence + 1
            }
            &&& !(result matches Ok(Some(_))) ==> after == before
        }),
        forall|i: int|
            0 <= i < before.segments.len() && i != transaction.target ==> #[trigger] after.segments[i]
                == before.segments[i],
{
}

/// A reclaim is finished exactly while it holds: one whose segments have changed is refused
/// and changes nothing, and one of a priority without a current segment is written down.
pub proof fn law_only_a_reclaim_that_holds_is_finished(
    before: AllocatorModel,
    layout: SegmentLayout,
    transaction: ReclaimTransaction,
    after: AllocatorModel,
    result: Result<AllocatorCheckpoint, Error>,
)
    requires
        transaction.source.generation < u32::MAX,
        before.generation < u64::MAX,
        before.current[rank(transaction.priority)] is None,
        finishes(before, layout, transaction, after, result),
    ensures
        ({
            let source = before.segments[transaction.source.segment as int];
            let target = before.segments[transaction.target as int];
            result is Ok <==> source.role == SegmentRole::ReclaimSource && source.generation
                == transaction.source.generation && target.role == SegmentRole::ReclaimTarget && target.generation
                == transaction.target_generation && target.priority == transaction.priority
        }),
        result is Err ==> after == before,
        result matches Ok(checkpoint) ==> checkpoint.captures(after, layout),
{
}

} // verus!
