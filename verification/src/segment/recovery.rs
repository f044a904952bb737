//! Creating a segment store, and opening one again.

use vstd::prelude::*;

use crate::counter::{ceil_div, div_ceil};
use crate::error::{superblock_error, Error};
use crate::model::{priority_of, rank, CachePriority};
use crate::segment::format::{AllocatorState, OwnerRecord, SegmentLayout, SegmentRole};
use crate::segment::state::{lemma_valid_is_consistent, AllocatorModel};
use crate::segment::stats::{no_writes, PhysicalWriteStats};
use crate::segment::store::{first_in_role, invalid_state, state_text, SegmentStore, SegmentVictim};

verus! {

/// A state copy that describes a layout and decodes to a state.
pub open spec fn copy_holds(
    image: Seq<u8>,
    data_size: u64,
    owner_size: u64,
    state_size: u64,
    layout: SegmentLayout,
    state: AllocatorState,
) -> bool {
    &&& SegmentLayout::describes(image, data_size, owner_size, state_size, layout)
    &&& AllocatorState::decodes_as(image, layout, state)
}

/// A state copy that describes no layout, or decodes to no state.
pub open spec fn copy_is_bad(image: Seq<u8>, data_size: u64, owner_size: u64, state_size: u64) -> bool {
    forall|layout: SegmentLayout, state: AllocatorState|
        !(#[trigger] copy_holds(image, data_size, owner_size, state_size, layout, state))
}

/// `state`, read from `page`, is at least as new as `other`, read from the other page.
pub open spec fn newer(state: AllocatorState, page: int, other: AllocatorState, other_page: int) -> bool {
    state.generation > other.generation || state.generation == other.generation && page > other_page
}

/// `store` holds what `good`, the copy in `page`, says, and any good copy in the other page
/// agrees on the layout and is no newer.
pub open spec fn holds_newest(
    good: Seq<u8>,
    other: Seq<u8>,
    page: int,
    data_size: u64,
    owner_size: u64,
    state_size: u64,
    store: SegmentStore,
) -> bool {
    &&& store.state.active_page == page
    &&& copy_holds(good, data_size, owner_size, state_size, store.layout, store.state)
    &&& forall|layout: SegmentLayout, state: AllocatorState| #[trigger]
        copy_holds(other, data_size, owner_size, state_size, layout, state) ==> layout == store.layout && newer(
            store.state,
            page,
            state,
            1 - page,
        )
}

/// What opening two state copies comes to: the newer of those that are good, unless they
/// disagree on the layout.
pub open spec fn opens(
    first: Seq<u8>,
    second: Seq<u8>,
    data_size: u64,
    owner_size: u64,
    state_size: u64,
    result: Result<SegmentStore, Error>,
) -> bool {
    match result {
        Ok(store) => {
            ||| holds_newest(first, second, 0, data_size, owner_size, state_size, store)
            ||| holds_newest(second, first, 1, data_size, owner_size, state_size, store)
        },
        Err(error) => {
            ||| {
                &&& copy_is_bad(first, data_size, owner_size, state_size)
                &&& copy_is_bad(second, data_size, owner_size, state_size)
                &&& superblock_error(error, state_text("both allocator state copies are invalid"@))
            }
            ||| {
                &&& superblock_error(error, state_text("valid state copies disagree on the layout"@))
                &&& exists|a: SegmentLayout, s: AllocatorState, b: SegmentLayout, t: AllocatorState|
                    #[trigger] copy_holds(first, data_size, owner_size, state_size, a, s) && #[trigger] copy_holds(
                        second,
                        data_size,
                        owner_size,
                        state_size,
                        b,
                        t,
                    ) && a != b
            }
        },
    }
}

/// The size of one state copy in a state file of the given size.
pub fn state_copy_len(state_size: u64) -> (result: Result<usize, Error>)
    ensures
        match result {
            Ok(len) => state_size > 0 && state_size % 2 == 0 && len == state_size / 2,
            Err(error) => {
                ||| (state_size == 0 || state_size % 2 != 0) && superblock_error(
                    error,
                    state_text("state file does not contain two equal copies"@),
                )
                ||| state_size > 0 && state_size % 2 == 0 && state_size / 2 > usize::MAX && superblock_error(
                    error,
                    state_text("state copy does not fit address space"@),
                )
            },
        },
{
    if state_size == 0 || state_size % 2 != 0 {
        return Err(invalid_state("state file does not contain two equal copies"));
    }
    if state_size / 2 > usize::MAX as u64 {
        return Err(invalid_state("state copy does not fit address space"));
    }
    Ok((state_size / 2) as usize)
}

/// The layout and state that a state copy holds.
fn read_copy(image: &[u8], data_size: u64, owner_size: u64, state_size: u64, page: u8) -> (found: Option<
    (SegmentLayout, AllocatorState),
>)
    ensures
        match found {
            Some((layout, state)) => copy_holds(image@, data_size, owner_size, state_size, layout, state)
                && state.active_page == page && layout.state_fits(),
            None => copy_is_bad(image@, data_size, owner_size, state_size),
        },
{
    let layout = match SegmentLayout::discover(image, data_size, owner_size, state_size) {
        Some(layout) => layout,
        None => return None,
    };
    match AllocatorState::decode(image, layout, page) {
        Some(state) => Some((layout, state)),
        None => {
            proof {
                assert forall|other: SegmentLayout, state: AllocatorState| !(#[trigger] copy_holds(
                    image@,
                    data_size,
                    owner_size,
                    state_size,
                    other,
                    state,
                )) by {
                    if SegmentLayout::describes(image@, data_size, owner_size, state_size, other) {
                        assert(other == layout);
                    }
                }
            }
            None
        },
    }
}

/// An owner record that continues a segment in use.
pub open spec fn continues(
    owner: Option<OwnerRecord>,
    generation: u32,
    priority: CachePriority,
    layout: SegmentLayout,
) -> bool {
    owner matches Some(record) && record.segment_generation == generation && record.priority == priority
        && record.stored_len != 0 && record.stored_len <= layout.segment_size
}

/// How many records, from the first on, continue a segment in use.
pub open spec fn continued(
    owners: Seq<Option<OwnerRecord>>,
    generation: u32,
    priority: CachePriority,
    layout: SegmentLayout,
) -> nat
    decreases owners.len(),
{
    if owners.len() == 0 || !continues(owners[0], generation, priority, layout) {
        0
    } else {
        1 + continued(owners.skip(1), generation, priority, layout)
    }
}

/// The next sequence once `n` records were accepted.
pub open spec fn sequence_after(start: u64, owners: Seq<Option<OwnerRecord>>, n: nat) -> u64
    decreases n,
{
    if n == 0 {
        start
    } else {
        let before = sequence_after(start, owners, (n - 1) as nat);
        let next = owners[n - 1]->0.sequence.saturating_add(1);
        if next > before {
            next
        } else {
            before
        }
    }
}

/// The state once the tail of one segment was recovered from the owner records that
/// follow its used slots.
pub open spec fn tail_recovered(
    model: AllocatorModel,
    layout: SegmentLayout,
    segment: u32,
    priority: CachePriority,
    owners: Seq<Option<OwnerRecord>>,
) -> AllocatorModel {
    let state = model.segments[segment as int];
    let n = continued(owners, state.generation, priority, layout);
    AllocatorModel {
        next_sequence: sequence_after(model.next_sequence, owners, n),
        ..model.slots_taken(segment as int, n as u32)
    }
}

/// The state once the first `n` tails were recovered.
pub open spec fn tails_recovered(
    model: AllocatorModel,
    layout: SegmentLayout,
    tails: Seq<(u32, CachePriority)>,
    owners: Seq<Seq<Option<OwnerRecord>>>,
    n: nat,
) -> AllocatorModel
    decreases n,
{
    if n == 0 {
        model
    } else {
        tail_recovered(
            tails_recovered(model, layout, tails, owners, (n - 1) as nat),
            layout,
            tails[n - 1].0,
            tails[n - 1].1,
            owners[n - 1],
        )
    }
}

/// The tails of the first `p` priorities.
pub open spec fn current_tails(model: AllocatorModel, p: int) -> Seq<(u32, CachePriority)>
    decreases p,
{
    if p <= 0 {
        Seq::empty()
    } else {
        match model.current[p - 1] {
            Some(segment) => current_tails(model, p - 1).push((segment, priority_of((p - 1) as nat)->0)),
            None => current_tails(model, p - 1),
        }
    }
}

/// The segments whose tails may have grown since the last checkpoint: the current ones,
/// from low to high, and then the target of a reclaim.
pub open spec fn is_tail_list(model: AllocatorModel, tails: Seq<(u32, CachePriority)>) -> bool {
    ||| first_in_role(model.segments, SegmentRole::ReclaimTarget, None) && tails == current_tails(model, 3)
    ||| exists|target: u32|
        {
            &&& #[trigger] first_in_role(model.segments, SegmentRole::ReclaimTarget, Some(target))
            &&& tails == current_tails(model, 3).push((target, model.segments[target as int].priority))
        }
}

proof fn lemma_continued(
    owners: Seq<Option<OwnerRecord>>,
    generation: u32,
    priority: CachePriority,
    layout: SegmentLayout,
    n: nat,
)
    requires
        n <= owners.len(),
        forall|k: int| 0 <= k < n ==> continues(#[trigger] owners[k], generation, priority, layout),
        n < owners.len() ==> !continues(owners[n as int], generation, priority, layout),
    ensures
        continued(owners, generation, priority, layout) == n,
    decreases owners.len(),
{
    if n > 0 {
        let rest = owners.skip(1);
        assert(continues(owners[0], generation, priority, layout));
        assert forall|k: int| 0 <= k < n - 1 implies continues(#[trigger] rest[k], generation, priority, layout) by {
            assert(rest[k] == owners[k + 1]);
        }
        lemma_continued(rest, generation, priority, layout, (n - 1) as nat);
    }
}

impl SegmentStore {
    /// A store with nothing in it, and the state copy to write first.
    pub fn create(layout: SegmentLayout, direct_io: bool, read_run_size: usize, write_run_size: usize) -> (result: Result<
        (SegmentStore, Vec<u8>),
        Error,
    >)
        requires
            layout.wf(),
            layout.state_fits(),
            read_run_size > 0,
            write_run_size > 0,
        ensures
            match result {
                Ok((store, image)) => {
                    &&& layout.slot_size <= u32::MAX
                    &&& store.wf()
                    &&& store.state@.idle_is_empty()
                    &&& store.layout == layout
                    &&& store.direct_io == direct_io
                    &&& store.read_run_slots == ceil_div(read_run_size as nat, layout.slot_size as nat)
                    &&& store.write_run_slots == ceil_div(write_run_size as nat, layout.slot_size as nat)
                    &&& store.allocated_size == layout.total_file_size - layout.index_capacity_bytes
                    &&& store.writes == no_writes()
                    &&& store.state.is_encoded_as(image@, layout)
                    &&& store.state.generation == 1
                    &&& store.state.active_page == 0
                },
                Err(error) => layout.slot_size > u32::MAX && error is InvalidConfig,
            },
    {
        let state = AllocatorState::empty(layout);
        let image = match state.encode(layout) {
            Ok(image) => image,
            Err(error) => return Err(error),
        };
        proof {
            lemma_valid_is_consistent(state, layout);
        }
        let read_run_slots = div_ceil(read_run_size, layout.slot_size);
        let write_run_slots = div_ceil(write_run_size, layout.slot_size);
        proof {
            lemma_positive_quotient(read_run_size as int, layout.slot_size as int, read_run_slots as int);
            lemma_positive_quotient(write_run_size as int, layout.slot_size as int, write_run_slots as int);
        }
        let store = SegmentStore {
            layout,
            direct_io,
            read_run_slots,
            write_run_slots,
            allocated_size: layout.total_file_size - layout.index_capacity_bytes,
            state,
            writes: PhysicalWriteStats::default(),
        };
        Ok((store, image))
    }

    /// The store that the files hold: the newer of the two state copies that are good.
    pub fn open(
        first: &[u8],
        second: &[u8],
        data_size: u64,
        owner_size: u64,
        state_size: u64,
        direct_io: bool,
        read_run_size: usize,
        write_run_size: usize,
    ) -> (result: Result<SegmentStore, Error>)
        requires
            read_run_size > 0,
            write_run_size > 0,
        ensures
            opens(first@, second@, data_size, owner_size, state_size, result),
            result matches Ok(store) ==> {
                &&& store.wf()
                &&& store.direct_io == direct_io
                &&& store.read_run_slots == ceil_div(read_run_size as nat, store.layout.slot_size as nat)
                &&& store.write_run_slots == ceil_div(write_run_size as nat, store.layout.slot_size as nat)
                &&& store.allocated_size == store.layout.total_file_size - store.layout.index_capacity_bytes
                &&& store.writes == no_writes()
            },
    {
        let left = read_copy(first, data_size, owner_size, state_size, 0);
        let right = read_copy(second, data_size, owner_size, state_size, 1);
        let (layout, state) = match (left, right) {
            (Some((a, s)), Some((b, t))) => {
                if a != b {
                    return Err(invalid_state("valid state copies disagree on the layout"));
                }
                proof {
                    lemma_copy_is_unique(first@, data_size, owner_size, state_size, a, s);
                    lemma_copy_is_unique(second@, data_size, owner_size, state_size, b, t);
                }
                if s.generation > t.generation {
                    (a, s)
                } else {
                    (b, t)
                }
            },
            (Some((a, s)), None) => (a, s),
            (None, Some((b, t))) => (b, t),
            (None, None) => return Err(invalid_state("both allocator state copies are invalid")),
        };
        proof {
            lemma_valid_is_consistent(state, layout);
        }
        let read_run_slots = div_ceil(read_run_size, layout.slot_size);
        let write_run_slots = div_ceil(write_run_size, layout.slot_size);
        proof {
            lemma_positive_quotient(read_run_size as int, layout.slot_size as int, read_run_slots as int);
            lemma_positive_quotient(write_run_size as int, layout.slot_size as int, write_run_slots as int);
        }
        Ok(
            SegmentStore {
                layout,
                direct_io,
                read_run_slots,
                write_run_slots,
                allocated_size: layout.total_file_size - layout.index_capacity_bytes,
                state,
                writes: PhysicalWriteStats::default(),
            },
        )
    }

    /// The segments whose tails may have grown since the last checkpoint.
    pub fn recovery_tails(&self) -> (tails: Vec<(u32, CachePriority)>)
        requires
            self.wf(),
        ensures
            is_tail_list(self.state@, tails@),
            forall|k: int| 0 <= k < tails@.len() ==> (#[trigger] tails@[k]).0 < self.state.segments@.len(),
    {
        let mut tails: Vec<(u32, CachePriority)> = Vec::new();
        let mut p: u8 = 0;
        while p < 3
            invariant
                self.wf(),
                p <= 3,
                tails@ == current_tails(self.state@, p as int),
                forall|k: int| 0 <= k < tails@.len() ==> (#[trigger] tails@[k]).0 < self.state.segments@.len(),
            decreases 3 - p,
        {
            let priority = match CachePriority::from_byte(p) {
                Some(priority) => priority,
                None => CachePriority::Low,
            };
            assert(self.state@.pointer_ok(p as int));
            if let Some(segment) = self.state.current[p as usize] {
                tails.push((segment, priority));
            }
            p = p + 1;
        }
        let mut i: usize = 0;
        while i < self.state.segments.len()
            invariant
                self.wf(),
                i <= self.state.segments@.len(),
                tails@ == current_tails(self.state@, 3),
                forall|k: int| 0 <= k < tails@.len() ==> (#[trigger] tails@[k]).0 < self.state.segments@.len(),
                forall|k: int|
                    0 <= k < i ==> (#[trigger] self.state.segments@[k]).role != SegmentRole::ReclaimTarget,
            decreases self.state.segments@.len() - i,
        {
            if self.state.segments[i].role == SegmentRole::ReclaimTarget {
                let target = i as u32;
                tails.push((target, self.state.segments[i].priority));
                assert(first_in_role(self.state.segments@, SegmentRole::ReclaimTarget, Some(target)));
                return tails;
            }
            i = i + 1;
        }
        assert(first_in_role(self.state.segments@, SegmentRole::ReclaimTarget, None));
        tails
    }

    /// Recovers the tail of one segment from the owner records of the slots that follow
    /// what it has used.
    fn recover_tail(&mut self, segment: u32, priority: CachePriority, owners: &Vec<Option<OwnerRecord>>)
        requires
            segment < old(self).state.segments@.len(),
            old(self).state.segments@[segment as int].used + owners@.len() <= u32::MAX,
        ensures
            final(self).same_but_state(*old(self)),
            final(self).state@ == tail_recovered(
                old(self).state@,
                old(self).layout,
                segment,
                priority,
                owners@,
            ),
    {
        let ghost before = self.state@;
        let mut state = self.state.segments[segment as usize];
        let generation = state.generation;
        let start = state.used;
        let mut next_sequence = self.state.next_sequence;
        let mut k: usize = 0;
        let ghost layout = self.layout;
        while k < owners.len()
            invariant_except_break
                k <= owners@.len(),
                forall|j: int| 0 <= j < k ==> continues(#[trigger] owners@[j], generation, priority, layout),
                next_sequence == sequence_after(before.next_sequence, owners@, k as nat),
            invariant
                layout == self.layout,
                before.next_sequence == self.state.next_sequence,
                before == self.state@,
                self.same_but_state(*old(self)),
            ensures
                k <= owners@.len(),
                forall|j: int| 0 <= j < k ==> continues(#[trigger] owners@[j], generation, priority, layout),
                k < owners@.len() ==> !continues(owners@[k as int], generation, priority, layout),
                next_sequence == sequence_after(before.next_sequence, owners@, k as nat),
            decreases owners@.len() - k,
        {
            let accepted = match owners[k] {
                Some(owner) => owner.segment_generation == generation && owner.priority == priority
                    && owner.stored_len != 0 && owner.stored_len as usize <= self.layout.segment_size,
                None => false,
            };
            if !accepted {
                break ;
            }
            if let Some(owner) = owners[k] {
                let next = owner.sequence.saturating_add(1);
                if next > next_sequence {
                    next_sequence = next;
                }
            }
            k = k + 1;
        }
        proof {
            lemma_continued(owners@, generation, priority, self.layout, k as nat);
        }
        state.used = start + k as u32;
        self.state.segments[segment as usize] = state;
        self.state.next_sequence = next_sequence;
        assert(self.state@ =~= tail_recovered(before, self.layout, segment, priority, owners@));
    }

    /// Recovers the tails of the segments in use from their owner records. The records of
    /// tail `k` are those of the slots that follow what its segment has used, in order, as
    /// far as they were read.
    pub fn recover_current_tails(&mut self, tails: &Vec<(u32, CachePriority)>, owners: &Vec<Vec<Option<OwnerRecord>>>)
        requires
            old(self).wf(),
            is_tail_list(old(self).state@, tails@),
            owners@.len() == tails@.len(),
            forall|k: int|
                0 <= k < tails@.len() ==> old(self).state.segments@[(#[trigger] tails@[k]).0 as int].used
                    + owners@[k]@.len() <= old(self).layout.slots_per_segment,
        ensures
            final(self).same_but_state(*old(self)),
            final(self).state@ == tails_recovered(
                old(self).state@,
                old(self).layout,
                tails@,
                Seq::new(owners@.len(), |k: int| owners@[k]@),
                tails@.len(),
            ),
            final(self).wf(),
    {
        let ghost before = self.state@;
        let ghost records = Seq::new(owners@.len(), |k: int| owners@[k]@);
        proof {
            lemma_tails_are_distinct(before, self.layout, tails@);
        }
        let mut k: usize = 0;
        while k < tails.len()
            invariant
                k <= tails@.len(),
                owners@.len() == tails@.len(),
                records == Seq::new(owners@.len(), |j: int| owners@[j]@),
                self.same_but_state(*old(self)),
                before == old(self).state@,
                self.wf(),
                self.state@ == tails_recovered(before, self.layout, tails@, records, k as nat),
                self.state.segments@.len() == before.segments.len(),
                forall|j: int| 0 <= j < tails@.len() ==> (#[trigger] tails@[j]).0 < before.segments.len(),
                forall|j: int|
                    0 <= j < tails@.len() ==> {
                        let role = before.segments[(#[trigger] tails@[j]).0 as int].role;
                        role == SegmentRole::Current || role == SegmentRole::ReclaimTarget
                    },
                forall|i: int, j: int|
                    0 <= i < j < tails@.len() ==> (#[trigger] tails@[i]).0 != (#[trigger] tails@[j]).0,
                forall|i: int|
                    0 <= i < before.segments.len() ==> (#[trigger] self.state@.segments[i]).role
                        == before.segments[i].role,
                forall|j: int|
                    k <= j < tails@.len() ==> self.state@.segments[(#[trigger] tails@[j]).0 as int]
                        == before.segments[tails@[j].0 as int],
                forall|j: int|
                    0 <= j < tails@.len() ==> before.segments[(#[trigger] tails@[j]).0 as int].used
                        + owners@[j]@.len() <= self.layout.slots_per_segment,
            decreases tails@.len() - k,
        {
            let ghost now = self.state@;
            let (segment, priority) = tails[k];
            assert(tails@[k as int].0 == segment);
            proof {
                lemma_continued_bound(owners@[k as int]@, now.segments[segment as int].generation, priority, self.layout);
                lemma_tail_keeps(now, self.layout, segment, priority, owners@[k as int]@);
            }
            self.recover_tail(segment, priority, &owners[k]);
            assert(records[k as int] == owners@[k as int]@);
            k = k + 1;
        }
    }

    /// The live owner records of a segment, each with its slot. `records` are the records
    /// of the slots that the segment has used.
    pub fn owners(&self, victim: SegmentVictim, records: &Vec<Option<OwnerRecord>>) -> (owners: Vec<(u64, OwnerRecord)>)
        requires
            self.layout.wf(),
            victim.segment < self.layout.segment_count,
            victim.used <= self.layout.slots_per_segment,
            records@.len() == victim.used,
        ensures
            owners@ == owners_of(self.layout, victim, records@, victim.used as nat),
    {
        let mut owners: Vec<(u64, OwnerRecord)> = Vec::new();
        let mut slot: u32 = 0;
        while slot < victim.used
            invariant
                slot <= victim.used,
                self.layout.wf(),
                victim.segment < self.layout.segment_count,
                victim.used <= self.layout.slots_per_segment,
                records@.len() == victim.used,
                owners@ == owners_of(self.layout, victim, records@, slot as nat),
            decreases victim.used - slot,
        {
            if let Some(owner) = records[slot as usize] {
                if owner.segment_generation == victim.generation {
                    assert(victim.segment * self.layout.slots_per_segment <= 0xffff_fffe * 0xffff_ffff)
                        by (nonlinear_arith)
                        requires
                            victim.segment < self.layout.segment_count <= 0xffff_ffff,
                            self.layout.slots_per_segment <= 0xffff_ffff,
                    ;
                    let number = victim.segment as u64 * self.layout.slots_per_segment as u64 + slot as u64;
                    owners.push((number, owner));
                }
            }
            slot = slot + 1;
        }
        owners
    }
}

/// The records of the first `n` slots that belong to the victim's generation, each with
/// its slot number.
pub open spec fn owners_of(
    layout: SegmentLayout,
    victim: SegmentVictim,
    records: Seq<Option<OwnerRecord>>,
    n: nat,
) -> Seq<(u64, OwnerRecord)>
    decreases n,
{
    if n == 0 {
        Seq::empty()
    } else {
        let before = owners_of(layout, victim, records, (n - 1) as nat);
        match records[n - 1] {
            Some(owner) => if owner.segment_generation == victim.generation {
                before.push(((victim.segment * layout.slots_per_segment + (n - 1)) as u64, owner))
            } else {
                before
            },
            None => before,
        }
    }
}

proof fn lemma_positive_quotient(a: int, b: int, q: int)
    requires
        a > 0,
        b > 0,
        a <= q * b,
    ensures
        q > 0,
{
    assert(q > 0) by (nonlinear_arith)
        requires
            a > 0,
            b > 0,
            a <= q * b,
    ;
}

proof fn lemma_copy_is_unique(
    image: Seq<u8>,
    data_size: u64,
    owner_size: u64,
    state_size: u64,
    layout: SegmentLayout,
    state: AllocatorState,
)
    requires
        copy_holds(image, data_size, owner_size, state_size, layout, state),
    ensures
        forall|other: SegmentLayout, decoded: AllocatorState| #[trigger]
            copy_holds(image, data_size, owner_size, state_size, other, decoded) ==> other == layout
                && decoded.generation == state.generation,
{
}

proof fn lemma_continued_bound(
    owners: Seq<Option<OwnerRecord>>,
    generation: u32,
    priority: CachePriority,
    layout: SegmentLayout,
)
    ensures
        continued(owners, generation, priority, layout) <= owners.len(),
    decreases owners.len(),
{
    if owners.len() > 0 {
        lemma_continued_bound(owners.skip(1), generation, priority, layout);
    }
}

proof fn lemma_sequence_grows(start: u64, owners: Seq<Option<OwnerRecord>>, n: nat)
    ensures
        sequence_after(start, owners, n) >= start,
    decreases n,
{
    if n > 0 {
        lemma_sequence_grows(start, owners, (n - 1) as nat);
    }
}

proof fn lemma_tail_keeps(
    model: AllocatorModel,
    layout: SegmentLayout,
    segment: u32,
    priority: CachePriority,
    owners: Seq<Option<OwnerRecord>>,
)
    requires
        model.consistent(layout),
        segment < model.segments.len(),
        model.segments[segment as int].role != SegmentRole::Free,
        model.segments[segment as int].role != SegmentRole::Reserve,
        model.segments[segment as int].used + owners.len() <= layout.slots_per_segment,
    ensures
        tail_recovered(model, layout, segment, priority, owners).consistent(layout),
        model.grows_into(tail_recovered(model, layout, segment, priority, owners)),
{
    let n = continued(owners, model.segments[segment as int].generation, priority, layout);
    lemma_continued_bound(owners, model.segments[segment as int].generation, priority, layout);
    lemma_sequence_grows(model.next_sequence, owners, n);
    let taken = model.slots_taken(segment as int, n as u32);
    crate::segment::state::lemma_take_keeps(model, layout, segment as int, n as u32);
    let after = tail_recovered(model, layout, segment, priority, owners);
    crate::segment::state::lemma_numbers_keep(taken, after, layout);
    crate::segment::state::lemma_growth_is_transitive(model, taken, after);
}

proof fn lemma_current_tails(model: AllocatorModel, layout: SegmentLayout, p: int)
    requires
        model.consistent(layout),
        0 <= p <= 3,
    ensures
        current_tails(model, p).len() <= p,
        forall|k: int|
            0 <= k < current_tails(model, p).len() ==> {
                let tail = #[trigger] current_tails(model, p)[k];
                &&& tail.0 < model.segments.len()
                &&& model.segments[tail.0 as int].role == SegmentRole::Current
                &&& rank(model.segments[tail.0 as int].priority) < p
            },
        forall|i: int, j: int|
            0 <= i < j < current_tails(model, p).len() ==> (#[trigger] current_tails(model, p)[i]).0 != (
            #[trigger] current_tails(model, p)[j]).0,
    decreases p,
{
    if p > 0 {
        lemma_current_tails(model, layout, p - 1);
        assert(model.pointer_ok(p - 1));
    }
}

proof fn lemma_tails_are_distinct(model: AllocatorModel, layout: SegmentLayout, tails: Seq<(u32, CachePriority)>)
    requires
        model.consistent(layout),
        is_tail_list(model, tails),
    ensures
        forall|k: int| 0 <= k < tails.len() ==> (#[trigger] tails[k]).0 < model.segments.len(),
        forall|k: int|
            0 <= k < tails.len() ==> {
                let role = model.segments[(#[trigger] tails[k]).0 as int].role;
                role == SegmentRole::Current || role == SegmentRole::ReclaimTarget
            },
        forall|i: int, j: int| 0 <= i < j < tails.len() ==> (#[trigger] tails[i]).0 != (#[trigger] tails[j]).0,
{
    lemma_current_tails(model, layout, 3);
}

/// A store is reopened from its newest good state copy. `page` holds it; the other page
/// holds an older state of the same layout, or nothing good: a torn write of one page never
/// costs more than the checkpoint that it was to hold.
pub proof fn law_the_newest_good_copy_is_reopened(
    good: Seq<u8>,
    other: Seq<u8>,
    page: u8,
    data_size: u64,
    owner_size: u64,
    state_size: u64,
    layout: SegmentLayout,
    newest: AllocatorState,
    result: Result<SegmentStore, Error>,
)
    requires
        page <= 1,
        if page == 0 {
            opens(good, other, data_size, owner_size, state_size, result)
        } else {
            opens(other, good, data_size, owner_size, state_size, result)
        },
        copy_holds(good, data_size, owner_size, state_size, layout, newest),
        forall|found: SegmentLayout, older: AllocatorState| #[trigger]
            copy_holds(other, data_size, owner_size, state_size, found, older) ==> found == layout && older.generation
                < newest.generation,
    ensures
        result matches Ok(store) && {
            &&& store.layout == layout
            &&& store.state.active_page == page
            &&& store.state.generation == newest.generation
            &&& copy_holds(good, data_size, owner_size, state_size, store.layout, store.state)
        },
{
    lemma_copy_is_unique(good, data_size, owner_size, state_size, layout, newest);
    match result {
        Ok(store) => {
            if store.state.active_page != page {
                assert(newer(store.state, store.state.active_page as int, newest, page as int));
            }
        },
        Err(_) => {},
    }
}

/// A state is found again while one of its copies is good, whichever that is.
pub proof fn law_one_good_copy_is_enough(
    good: Seq<u8>,
    bad: Seq<u8>,
    page: u8,
    data_size: u64,
    owner_size: u64,
    state_size: u64,
    layout: SegmentLayout,
    state: AllocatorState,
    result: Result<SegmentStore, Error>,
)
    requires
        page <= 1,
        if page == 0 {
            opens(good, bad, data_size, owner_size, state_size, result)
        } else {
            opens(bad, good, data_size, owner_size, state_size, result)
        },
        copy_holds(good, data_size, owner_size, state_size, layout, state),
        copy_is_bad(bad, data_size, owner_size, state_size),
    ensures
        result matches Ok(store) && store.layout == layout && store.state.active_page == page
            && store.state.generation == state.generation && copy_holds(
            good,
            data_size,
            owner_size,
            state_size,
            store.layout,
            store.state,
        ),
{
    law_the_newest_good_copy_is_reopened(
        good,
        bad,
        page,
        data_size,
        owner_size,
        state_size,
        layout,
        state,
        result,
    );
}

/// The tail of a segment is what was written after the last checkpoint: its used slots grow
/// over exactly the records that follow without a break and are of its generation and its
/// priority and name an entry that fits a segment. The next sequence comes after all of
/// theirs, and nothing else changes.
pub proof fn law_a_tail_is_recovered_up_to_the_first_break(
    model: AllocatorModel,
    layout: SegmentLayout,
    segment: u32,
    priority: CachePriority,
    owners: Seq<Option<OwnerRecord>>,
    k: int,
)
    requires
        segment < model.segments.len(),
        model.segments[segment as int].used + owners.len() <= u32::MAX,
    ensures
        ({
            let state = model.segments[segment as int];
            let after = tail_recovered(model, layout, segment, priority, owners);
            let grown = after.segments[segment as int].used - state.used;
            &&& 0 <= grown <= owners.len()
            &&& 0 <= k < grown ==> (owners[k] matches Some(record) && record.segment_generation == state.generation
                && record.priority == priority && 0 < record.stored_len <= layout.segment_size)
            &&& 0 <= k < grown && owners[k]->0.sequence < u64::MAX ==> after.next_sequence > owners[k]->0.sequence
            &&& grown < owners.len() ==> !(owners[grown] matches Some(record) && record.segment_generation
                == state.generation && record.priority == priority && 0 < record.stored_len <= layout.segment_size)
            &&& after.next_sequence >= model.next_sequence
            &&& grown == 0 ==> after.next_sequence == model.next_sequence
            &&& after.segments[segment as int].generation == state.generation
            &&& after.segments[segment as int].role == state.role
            &&& forall|i: int|
                0 <= i < model.segments.len() && i != segment ==> #[trigger] after.segments[i] == model.segments[i]
            &&& after.current == model.current
        }),
{
    let state = model.segments[segment as int];
    let n = continued(owners, state.generation, priority, layout);
    lemma_continued_prefix(owners, state.generation, priority, layout);
    if 0 <= k < n {
        assert(continues(owners[k], state.generation, priority, layout));
    }
    lemma_sequence_after(model.next_sequence, owners, n);
}

proof fn lemma_continued_prefix(
    owners: Seq<Option<OwnerRecord>>,
    generation: u32,
    priority: CachePriority,
    layout: SegmentLayout,
)
    ensures
        ({
            let n = continued(owners, generation, priority, layout);
            &&& n <= owners.len()
            &&& forall|k: int| 0 <= k < n ==> continues(#[trigger] owners[k], generation, priority, layout)
            &&& n < owners.len() ==> !continues(owners[n as int], generation, priority, layout)
        }),
    decreases owners.len(),
{
    if owners.len() > 0 && continues(owners[0], generation, priority, layout) {
        let rest = owners.skip(1);
        lemma_continued_prefix(rest, generation, priority, layout);
        let n = continued(owners, generation, priority, layout);
        assert forall|k: int| 0 <= k < n implies continues(#[trigger] owners[k], generation, priority, layout) by {
            if k > 0 {
                assert(rest[k - 1] == owners[k]);
            }
        }
        if n < owners.len() {
            assert(rest[n - 1] == owners[n as int]);
        }
    }
}

proof fn lemma_sequence_after(start: u64, owners: Seq<Option<OwnerRecord>>, n: nat)
    ensures
        sequence_after(start, owners, n) >= start,
        forall|k: int|
            0 <= k < n && (#[trigger] owners[k])->0.sequence < u64::MAX ==> sequence_after(start, owners, n)
                > owners[k]->0.sequence,
    decreases n,
{
    if n > 0 {
        lemma_sequence_after(start, owners, (n - 1) as nat);
    }
}

/// The owners of a segment are those of its generation, each once, with the number of its
/// own slot, in ascending order.
pub proof fn law_owners_are_those_of_the_generation(
    layout: SegmentLayout,
    victim: SegmentVictim,
    records: Seq<Option<OwnerRecord>>,
    n: nat,
    slot: u64,
    owner: OwnerRecord,
)
    requires
        n <= records.len(),
        victim.segment * layout.slots_per_segment + n <= u64::MAX,
    ensures
        owners_of(layout, victim, records, n).contains((slot, owner)) <==> {
            let k = slot - victim.segment * layout.slots_per_segment;
            0 <= k < n && records[k] == Some(owner) && owner.segment_generation == victim.generation
        },
        forall|i: int, j: int|
            0 <= i < j < owners_of(layout, victim, records, n).len() ==> (#[trigger] owners_of(
                layout,
                victim,
                records,
                n,
            )[i]).0 < (#[trigger] owners_of(layout, victim, records, n)[j]).0,
        forall|i: int|
            0 <= i < owners_of(layout, victim, records, n).len() ==> (#[trigger] owners_of(
                layout,
                victim,
                records,
                n,
            )[i]).0 < victim.segment * layout.slots_per_segment + n,
    decreases n,
{
    let now = owners_of(layout, victim, records, n);
    let base = victim.segment * layout.slots_per_segment;
    assert(base >= 0) by (nonlinear_arith)
        requires
            base == victim.segment * layout.slots_per_segment,
    ;
    if n > 0 {
        let m = (n - 1) as nat;
        law_owners_are_those_of_the_generation(layout, victim, records, m, slot, owner);
        let before = owners_of(layout, victim, records, m);
        if now != before {
            let last = now.last();
            assert(now == before.push(last));
            assert(last.0 == base + m);
            if before.contains((slot, owner)) {
                let i = choose|i: int| 0 <= i < before.len() && before[i] == (slot, owner);
                assert(now[i] == (slot, owner));
            }
            if now.contains((slot, owner)) && !before.contains((slot, owner)) {
                let i = choose|i: int| 0 <= i < now.len() && now[i] == (slot, owner);
                assert(i == before.len());
            }
            if slot == base + m && records[m as int] == Some(owner) {
                assert(now[before.len() as int] == (slot, owner));
            }
        }
    }
}

/// The tail of every current segment is recovered, and that of the segment into which a
/// reclaim was copying; no other is.
pub proof fn law_every_open_segment_is_recovered(model: AllocatorModel, tails: Seq<(u32, CachePriority)>, priority: CachePriority)
    requires
        is_tail_list(model, tails),
    ensures
        model.current[rank(priority) as int] matches Some(segment) ==> tails.contains((segment, priority)),
        forall|k: int|
            0 <= k < tails.len() ==> {
                let tail = #[trigger] tails[k];
                model.current[rank(tail.1) as int] == Some(tail.0) || model.segments[tail.0 as int].role
                    == SegmentRole::ReclaimTarget
            },
        (forall|i: int| 0 <= i < model.segments.len() ==> (#[trigger] model.segments[i]).role
            != SegmentRole::ReclaimTarget) || exists|k: int|
            0 <= k < tails.len() && model.segments[(#[trigger] tails[k]).0 as int].role == SegmentRole::ReclaimTarget
                && tails[k].1 == model.segments[tails[k].0 as int].priority,
{
    let held = current_tails(model, 3);
    lemma_current_tails_listed(model, priority, 3);
    assert forall|k: int| 0 <= k < held.len() implies tails[k] == #[trigger] held[k] by {}
    if model.current[rank(priority) as int] is Some {
        let tail = (model.current[rank(priority) as int]->0, priority);
        let k = choose|k: int| 0 <= k < held.len() && #[trigger] held[k] == tail;
        assert(tails[k] == tail);
    }
    if !first_in_role(model.segments, SegmentRole::ReclaimTarget, None) {
        let last = tails.len() - 1;
        assert(model.segments[tails[last].0 as int].role == SegmentRole::ReclaimTarget);
    }
}

proof fn lemma_current_tails_listed(model: AllocatorModel, priority: CachePriority, p: int)
    requires
        0 <= p <= 3,
    ensures
        forall|k: int|
            0 <= k < current_tails(model, p).len() ==> {
                let tail = #[trigger] current_tails(model, p)[k];
                model.current[rank(tail.1) as int] == Some(tail.0)
            },
        rank(priority) < p && model.current[rank(priority) as int] is Some ==> exists|k: int|
            0 <= k < current_tails(model, p).len() && #[trigger] current_tails(model, p)[k] == (
                model.current[rank(priority) as int]->0,
                priority,
            ),
    decreases p,
{
    if p > 0 {
        lemma_current_tails_listed(model, priority, p - 1);
        let before = current_tails(model, p - 1);
        let after = current_tails(model, p);
        assert(forall|k: int| 0 <= k < before.len() ==> after[k] == #[trigger] before[k]);
        if rank(priority) < p && model.current[rank(priority) as int] is Some {
            let tail = (model.current[rank(priority) as int]->0, priority);
            if rank(priority) == p - 1 {
                assert(after[after.len() - 1] == tail);
            } else {
                let k = choose|k: int| 0 <= k < before.len() && #[trigger] before[k] == tail;
                assert(after[k] == tail);
            }
        }
    }
}

/// Every tail is recovered, each from its own records: what comes of its segment is what
/// comes of it where it is recovered alone. Segments without a tail stay as they are.
pub proof fn law_tails_are_recovered_each_on_its_own(
    model: AllocatorModel,
    layout: SegmentLayout,
    tails: Seq<(u32, CachePriority)>,
    owners: Seq<Seq<Option<OwnerRecord>>>,
    n: nat,
)
    requires
        n <= tails.len(),
        owners.len() == tails.len(),
        forall|k: int| 0 <= k < tails.len() ==> (#[trigger] tails[k]).0 < model.segments.len(),
        forall|i: int, j: int| 0 <= i < j < tails.len() ==> (#[trigger] tails[i]).0 != (#[trigger] tails[j]).0,
    ensures
        ({
            let after = tails_recovered(model, layout, tails, owners, n);
            &&& after.segments.len() == model.segments.len()
            &&& after.current == model.current
            &&& forall|k: int|
                0 <= k < n ==> after.segments[(#[trigger] tails[k]).0 as int] == tail_recovered(
                    model,
                    layout,
                    tails[k].0,
                    tails[k].1,
                    owners[k],
                ).segments[tails[k].0 as int]
            &&& forall|i: int|
                0 <= i < model.segments.len() && (forall|k: int| 0 <= k < n ==> (#[trigger] tails[k]).0 != i)
                    ==> #[trigger] after.segments[i] == model.segments[i]
        }),
    decreases n,
{
    if n > 0 {
        let m = (n - 1) as nat;
        law_tails_are_recovered_each_on_its_own(model, layout, tails, owners, m);
        let before = tails_recovered(model, layout, tails, owners, m);
        let after = tails_recovered(model, layout, tails, owners, n);
        let last = tails[n - 1];
        assert(before.segments[last.0 as int] == model.segments[last.0 as int]);
        assert(after == tail_recovered(before, layout, last.0, last.1, owners[n - 1]));
        assert forall|k: int| 0 <= k < n implies after.segments[(#[trigger] tails[k]).0 as int] == tail_recovered(
            model,
            layout,
            tails[k].0,
            tails[k].1,
            owners[k],
        ).segments[tails[k].0 as int] by {
            if k < n - 1 {
                assert(tails[k].0 != last.0);
                assert(after.segments[tails[k].0 as int] == before.segments[tails[k].0 as int]);
            }
        }
        assert forall|i: int|
            0 <= i < model.segments.len() && (forall|k: int| 0 <= k < n ==> (#[trigger] tails[k]).0 != i) implies
            #[trigger] after.segments[i] == model.segments[i] by {
            assert(last.0 != i);
            assert(before.segments[i] == model.segments[i]);
        }
    }
}

} // verus!
