//! Allocation under pressure: which extent is given up for an entry, and when.
//!
//! Reclaim never looks at entries. Priority decides where an entry goes and which extent
//! is given up; a released extent's generation makes every location in it stale.

use vstd::prelude::*;

use crate::counter::sum_size;
use crate::error::Error;
use crate::model::{rank, CachePriority};
use crate::store::pool::{
    allocates, candidates_of, in_class, occupied_count, oldest_in_class, still_holds, victim_at, AllocationResult,
    EntryAllocation, ExtentPool, ExtentVictim, PackedExtent, PackedLocation, PackedModel, PoolLayout, ReclaimCandidates,
};
use crate::store::read::{in_range, is_live, law_stale_locations_miss};
use crate::store::stats::ReclaimStats;

verus! {

/// What reclaim did while room was made for an entry.
#[derive(Debug, Clone, Copy)]
pub struct ReclaimResult {
    pub stats: ReclaimStats,
    pub write_runs: usize,
    pub written_bytes: usize,
}

impl Default for ReclaimResult {
    fn default() -> (result: ReclaimResult)
        ensures
            result.is_zero(),
    {
        ReclaimResult { stats: ReclaimStats::default(), write_runs: 0, written_bytes: 0 }
    }
}

impl ReclaimResult {
    /// Nothing was done.
    pub open spec fn is_zero(self) -> bool {
        self.stats.is_zero() && self.write_runs == 0 && self.written_bytes == 0
    }

    /// `self` holds the work of `a` and `b` together.
    pub open spec fn is_merge_of(self, a: ReclaimResult, b: ReclaimResult) -> bool {
        &&& self.stats.is_merge_of(a.stats, b.stats)
        &&& self.write_runs == sum_size(a.write_runs, b.write_runs)
        &&& self.written_bytes == sum_size(a.written_bytes, b.written_bytes)
    }

    /// Adds other work to this.
    pub fn merge(&mut self, other: ReclaimResult)
        ensures
            final(self).is_merge_of(*old(self), other),
    {
        self.stats.merge(other.stats);
        self.write_runs = self.write_runs.saturating_add(other.write_runs);
        self.written_bytes = self.written_bytes.saturating_add(other.written_bytes);
    }
}

/// A number of nanoseconds, held at the largest 64-bit value.
pub fn duration_nanos(nanos: u128) -> (held: u64)
    ensures
        held == (if nanos > u64::MAX {
            u64::MAX as int
        } else {
            nanos as int
        }),
{
    if nanos > u64::MAX as u128 {
        u64::MAX
    } else {
        nanos as u64
    }
}

/// What became of a request for bytes.
#[derive(Debug, Clone, Copy)]
pub enum AllocationDecision {
    Allocated(EntryAllocation, ReclaimResult),
    /// Room can be made only once the pending entries are published.
    FlushRequired(ReclaimResult),
    Rejected(ReclaimResult),
}

/// The oldest extent of a priority, if it holds more extents than its floor.
pub open spec fn borrowed(
    candidates: ReclaimCandidates,
    floors: Seq<u32>,
    priority: CachePriority,
) -> Option<(ExtentVictim, bool)> {
    if candidates.occupied_extents@[rank(priority)] > floors[rank(priority)] {
        candidates.oldest_of(priority)
    } else {
        None
    }
}

/// The extent to give up for an entry: a low one first. A normal entry takes back what
/// high entries borrowed only while normal ones hold less than their floor, and else an
/// extent of its own; a high entry takes what normal ones hold beyond their floor, and
/// else an extent of its own. A low entry takes only low ones.
pub open spec fn victim_for(
    candidates: ReclaimCandidates,
    incoming: CachePriority,
    floors: Seq<u32>,
) -> Option<(ExtentVictim, bool)> {
    let low = candidates.oldest_of(CachePriority::Low);
    if low is Some || incoming == CachePriority::Low {
        low
    } else if incoming == CachePriority::Normal {
        let high = borrowed(candidates, floors, CachePriority::High);
        if candidates.occupied_extents@[1] < floors[1] && high is Some {
            high
        } else {
            candidates.oldest_of(CachePriority::Normal)
        }
    } else {
        let normal = borrowed(candidates, floors, CachePriority::Normal);
        if normal is Some {
            normal
        } else {
            candidates.oldest_of(CachePriority::High)
        }
    }
}

fn borrowed_candidate(candidates: ReclaimCandidates, floors: [u32; 3], priority: CachePriority) -> (candidate: Option<
    (ExtentVictim, bool),
>)
    ensures
        candidate == borrowed(candidates, floors@, priority),
{
    if candidates.occupied_extents(priority) > floors[priority.index()] {
        candidates.oldest(priority)
    } else {
        None
    }
}

/// Chooses the extent to give up for an entry, and says whether it is a current one.
pub fn select_victim(candidates: ReclaimCandidates, incoming: CachePriority, capacity_floors: [u32; 3]) -> (victim: Option<
    (ExtentVictim, bool),
>)
    ensures
        victim == victim_for(candidates, incoming, capacity_floors@),
{
    let low = candidates.oldest(CachePriority::Low);
    if low.is_some() {
        return low;
    }
    match incoming {
        CachePriority::Low => low,
        CachePriority::Normal => {
            if candidates.occupied_extents(CachePriority::Normal) < capacity_floors[1] {
                let high = borrowed_candidate(candidates, capacity_floors, CachePriority::High);
                if high.is_some() {
                    return high;
                }
            }
            candidates.oldest(CachePriority::Normal)
        },
        CachePriority::High => {
            let normal = borrowed_candidate(candidates, capacity_floors, CachePriority::Normal);
            if normal.is_some() {
                return normal;
            }
            candidates.oldest(CachePriority::High)
        },
    }
}

/// What a request for bytes needs next.
#[derive(Debug, Clone, Copy, PartialEq, Eq, Structural)]
pub enum AllocationStep {
    Allocated(EntryAllocation),
    FlushRequired,
    Rejected,
    /// Release this extent, and then ask again.
    Reclaim(ExtentVictim),
}

/// The outcome of one attempt to find bytes for an entry.
pub open spec fn steps(
    before: PackedModel,
    after: PackedModel,
    layout: PoolLayout,
    priority: CachePriority,
    stored_len: usize,
    entries_pending: bool,
    floors: Seq<u32>,
    result: Result<AllocationStep, Error>,
) -> bool {
    match result {
        Ok(AllocationStep::Allocated(allocation)) => allocates(
            before,
            after,
            layout,
            priority,
            stored_len,
            Ok(AllocationResult::Allocated(allocation)),
        ),
        Ok(AllocationStep::FlushRequired) => entries_pending && allocates(
            before,
            after,
            layout,
            priority,
            stored_len,
            Ok(AllocationResult::ReclaimRequired),
        ),
        Ok(AllocationStep::Rejected) => {
            &&& !entries_pending
            &&& allocates(before, after, layout, priority, stored_len, Ok(AllocationResult::ReclaimRequired))
            &&& exists|candidates: ReclaimCandidates| #[trigger]
                candidates_of(after, candidates) && victim_for(candidates, priority, floors) is None
        },
        Ok(AllocationStep::Reclaim(victim)) => {
            &&& !entries_pending
            &&& exists|full: PackedModel, candidates: ReclaimCandidates, is_current: bool|
                #![trigger candidates_of(full, candidates), reclaims(candidates, priority, floors, victim, is_current)]
                {
                    &&& allocates(before, full, layout, priority, stored_len, Ok(AllocationResult::ReclaimRequired))
                    &&& candidates_of(full, candidates)
                    &&& reclaims(candidates, priority, floors, victim, is_current)
                    &&& after == if is_current {
                        full.with_current(victim.priority, None)
                    } else {
                        full
                    }
                }
            &&& victim.extent < after.extents.len()
            &&& still_holds(after, victim)
            &&& after.current[rank(victim.priority)] != Some(victim.extent)
        },
        Err(error) => allocates(before, after, layout, priority, stored_len, Err(error)),
    }
}

/// One attempt to find bytes for an entry. Where none are free and entries wait to be
/// published, those come first, because reclaim persists the allocator state. Otherwise an
/// extent is chosen to be given up; a current one is sealed.
pub fn allocation_step(
    pool: &mut ExtentPool,
    priority: CachePriority,
    stored_len: usize,
    entries_pending: bool,
    capacity_floors: [u32; 3],
) -> (result: Result<AllocationStep, Error>)
    requires
        old(pool).wf(),
    ensures
        final(pool).wf(),
        final(pool).same_but_state(*old(pool)),
        old(pool).state@.grows_into(final(pool).state@),
        steps(
            old(pool).state@,
            final(pool).state@,
            old(pool).layout,
            priority,
            stored_len,
            entries_pending,
            capacity_floors@,
            result,
        ),
{
    match pool.allocate(priority, stored_len) {
        Ok(AllocationResult::Allocated(allocation)) => return Ok(AllocationStep::Allocated(allocation)),
        Ok(AllocationResult::ReclaimRequired) => {
            if entries_pending {
                return Ok(AllocationStep::FlushRequired);
            }
        },
        Err(error) => return Err(error),
    }
    let ghost full = pool.state@;
    let candidates = pool.reclaim_candidates();
    assert(candidates_of(full, candidates));
    let (victim, is_current) = match select_victim(candidates, priority, capacity_floors) {
        Some(found) => found,
        None => return Ok(AllocationStep::Rejected),
    };
    assert(reclaims(candidates, priority, capacity_floors@, victim, is_current));
    proof {
        lemma_victim_holds(full, candidates, priority, capacity_floors@, victim, is_current);
    }
    if is_current {
        match pool.seal_current(victim) {
            Ok(_) => {},
            Err(error) => return Err(error),
        }
        proof {
            crate::store::pool::lemma_growth_is_transitive(old(pool).state@, full, pool.state@);
        }
    }
    Ok(AllocationStep::Reclaim(victim))
}

/// `victim` is the choice among the candidates.
pub open spec fn reclaims(
    candidates: ReclaimCandidates,
    priority: CachePriority,
    floors: Seq<u32>,
    victim: ExtentVictim,
    is_current: bool,
) -> bool {
    victim_for(candidates, priority, floors) == Some((victim, is_current))
}

proof fn lemma_victim_holds(
    model: PackedModel,
    candidates: ReclaimCandidates,
    priority: CachePriority,
    floors: Seq<u32>,
    victim: ExtentVictim,
    is_current: bool,
)
    requires
        candidates_of(model, candidates),
        reclaims(candidates, priority, floors, victim, is_current),
    ensures
        victim.extent < model.extents.len(),
        still_holds(model, victim),
        in_class(model, victim.extent as int, rank(victim.priority), is_current),
{
    assert(oldest_in_class(model, model.extents.len() as int, 0, false, candidates.sealed@[0]));
    assert(oldest_in_class(model, model.extents.len() as int, 1, false, candidates.sealed@[1]));
    assert(oldest_in_class(model, model.extents.len() as int, 2, false, candidates.sealed@[2]));
}

/// The statistics of one released extent.
pub fn reclaimed(victim: ExtentVictim, checkpoint_wait: u128, invalidation: u128, total: u128) -> (result: ReclaimResult)
    ensures
        result.write_runs == 0,
        result.written_bytes == 0,
        forall|p: int|
            0 <= p < 3 ==> #[trigger] result.stats.reclaimed_extents@[p] == (if p == rank(victim.priority) {
                1int
            } else {
                0int
            }),
        forall|p: int|
            0 <= p < 3 ==> #[trigger] result.stats.invalidated_entries@[p] == (if p == rank(victim.priority) {
                victim.entries as int
            } else {
                0int
            }),
        forall|p: int|
            0 <= p < 3 ==> #[trigger] result.stats.invalidated_bytes@[p] == (if p == rank(victim.priority) {
                victim.used_bytes as int
            } else {
                0int
            }),
        result.stats.checkpoint_wait_nanos == (if checkpoint_wait > u64::MAX {
            u64::MAX as int
        } else {
            checkpoint_wait as int
        }),
        result.stats.generation_invalidation_nanos == (if invalidation > u64::MAX {
            u64::MAX as int
        } else {
            invalidation as int
        }),
        result.stats.total_nanos == (if total > u64::MAX {
            u64::MAX as int
        } else {
            total as int
        }),
{
    let mut stats = ReclaimStats::default();
    stats.record(victim.priority, victim.entries as usize, victim.used_bytes as usize);
    stats.record_work(duration_nanos(checkpoint_wait), duration_nanos(invalidation), duration_nanos(total));
    ReclaimResult { stats, write_runs: 0, written_bytes: 0 }
}

/// A low entry never pushes out a higher one.
pub proof fn law_low_entries_take_only_low_extents(
    model: PackedModel,
    candidates: ReclaimCandidates,
    floors: Seq<u32>,
    victim: ExtentVictim,
    is_current: bool,
)
    requires
        candidates_of(model, candidates),
        victim_for(candidates, CachePriority::Low, floors) == Some((victim, is_current)),
    ensures
        victim.priority == CachePriority::Low,
{
    assert(oldest_in_class(model, model.extents.len() as int, 0, false, candidates.sealed@[0]));
}

/// A normal entry takes a high extent only while high entries hold more than their floor
/// and normal ones less than theirs, and no low extent is left.
pub proof fn law_normal_entries_respect_the_high_floor(
    model: PackedModel,
    candidates: ReclaimCandidates,
    floors: Seq<u32>,
    victim: ExtentVictim,
    is_current: bool,
)
    requires
        candidates_of(model, candidates),
        victim_for(candidates, CachePriority::Normal, floors) == Some((victim, is_current)),
        victim.priority == CachePriority::High,
    ensures
        occupied_count(model.extents, 2) > floors[2],
        occupied_count(model.extents, 1) < floors[1],
        forall|i: int|
            0 <= i < model.extents.len() ==> (#[trigger] model.extents[i]).free() || model.extents[i].priority
                != CachePriority::Low,
{
    assert(oldest_in_class(model, model.extents.len() as int, 0, false, candidates.sealed@[0]));
    assert(oldest_in_class(model, model.extents.len() as int, 1, false, candidates.sealed@[1]));
    assert(oldest_in_class(model, model.extents.len() as int, 2, false, candidates.sealed@[2]));
    assert forall|i: int| 0 <= i < model.extents.len() implies (#[trigger] model.extents[i]).free()
        || model.extents[i].priority != CachePriority::Low by {
        assert(!in_class(model, i, 0, false));
        assert(!in_class(model, i, 0, true));
    }
}

/// A high entry takes a normal extent only while normal entries hold more than their
/// floor, and no low extent is left.
pub proof fn law_high_entries_respect_the_normal_floor(
    model: PackedModel,
    candidates: ReclaimCandidates,
    floors: Seq<u32>,
    victim: ExtentVictim,
    is_current: bool,
)
    requires
        candidates_of(model, candidates),
        victim_for(candidates, CachePriority::High, floors) == Some((victim, is_current)),
        victim.priority == CachePriority::Normal,
    ensures
        occupied_count(model.extents, 1) > floors[1],
        forall|i: int|
            0 <= i < model.extents.len() ==> (#[trigger] model.extents[i]).free() || model.extents[i].priority
                != CachePriority::Low,
{
    assert(oldest_in_class(model, model.extents.len() as int, 0, false, candidates.sealed@[0]));
    assert(oldest_in_class(model, model.extents.len() as int, 1, false, candidates.sealed@[1]));
    assert(oldest_in_class(model, model.extents.len() as int, 2, false, candidates.sealed@[2]));
    assert forall|i: int| 0 <= i < model.extents.len() implies (#[trigger] model.extents[i]).free()
        || model.extents[i].priority != CachePriority::Low by {
        assert(!in_class(model, i, 0, false));
        assert(!in_class(model, i, 0, true));
    }
}

/// The extent given up is the one of its priority that was put to use first.
pub proof fn law_the_oldest_extent_is_given_up(
    model: PackedModel,
    candidates: ReclaimCandidates,
    incoming: CachePriority,
    floors: Seq<u32>,
    victim: ExtentVictim,
    is_current: bool,
    i: int,
)
    requires
        candidates_of(model, candidates),
        victim_for(candidates, incoming, floors) == Some((victim, is_current)),
        0 <= i < model.extents.len() <= u32::MAX,
        !model.extents[i].free(),
        model.extents[i].priority == victim.priority,
    ensures
        victim.activation_sequence <= model.extents[i].activation_sequence,
{
    assert(oldest_in_class(model, model.extents.len() as int, 0, false, candidates.sealed@[0]));
    assert(oldest_in_class(model, model.extents.len() as int, 1, false, candidates.sealed@[1]));
    assert(oldest_in_class(model, model.extents.len() as int, 2, false, candidates.sealed@[2]));
    let p = rank(victim.priority);
    assert(in_class(model, i, p, true) || in_class(model, i, p, false));
    assert(victim_at(model.extents, i).activation_sequence == model.extents[i].activation_sequence);
}

/// Releasing an extent makes every location in it stale.
pub proof fn law_release_invalidates_every_location(
    model: PackedModel,
    layout: PoolLayout,
    location: PackedLocation,
    extent: nat,
    offset: nat,
)
    requires
        layout.wf(),
        model.consistent(layout),
        in_range(layout, location, extent, offset),
        is_live(model, layout, location),
        model.extents[extent as int].generation < u32::MAX,
    ensures
        !is_live(model.extent_reset(extent as int), layout, location),
{
    if model.extents[extent as int].generation != location.extent_generation {
        law_stale_locations_miss(model, layout, location, extent, offset);
    }
    law_stale_locations_miss(model.extent_reset(extent as int), layout, location, extent, offset);
}

/// The extents in use of a priority.
pub open spec fn in_use(model: PackedModel, priority: CachePriority) -> Set<int> {
    Set::new(
        |i: int|
            0 <= i < model.extents.len() && model.extents[i].activation_sequence != 0 && model.extents[i].priority
                == priority,
    )
}

/// The count of the extents of a priority is the size of their set.
proof fn lemma_count_is_size(extents: Seq<PackedExtent>, priority: CachePriority)
    ensures
        ({
            let used = Set::new(
                |i: int| 0 <= i < extents.len() && extents[i].activation_sequence != 0 && extents[i].priority == priority,
            );
            used.finite() && used.len() == occupied_count(extents, rank(priority))
        }),
    decreases extents.len(),
{
    let used = Set::new(
        |i: int| 0 <= i < extents.len() && extents[i].activation_sequence != 0 && extents[i].priority == priority,
    );
    if extents.len() == 0 {
        assert(used =~= Set::empty());
    } else {
        let rest = extents.drop_last();
        let n = rest.len() as int;
        lemma_count_is_size(rest, priority);
        let before = Set::new(
            |i: int| 0 <= i < rest.len() && rest[i].activation_sequence != 0 && rest[i].priority == priority,
        );
        assert forall|i: int| 0 <= i < rest.len() implies rest[i] == extents[i] by {}
        if extents.last().activation_sequence != 0 && extents.last().priority == priority {
            assert(used =~= before.insert(n));
        } else {
            assert(used =~= before);
        }
    }
}

/// The oldest candidate of a priority is an extent in use of that priority, and there is
/// one where any extent of the priority is in use.
proof fn lemma_oldest_of(model: PackedModel, candidates: ReclaimCandidates, priority: CachePriority)
    requires
        candidates_of(model, candidates),
        model.extents.len() <= u32::MAX,
    ensures
        in_use(model, priority).finite(),
        candidates.occupied_extents@[rank(priority)] == in_use(model, priority).len(),
        match candidates.oldest_of(priority) {
            Some((victim, _)) => {
                &&& in_use(model, priority).contains(victim.extent as int)
                &&& victim.priority == priority
                &&& victim == victim_at(model.extents, victim.extent as int)
                &&& forall|i: int| #[trigger]
                    in_use(model, priority).contains(i) ==> victim.activation_sequence
                        <= model.extents[i].activation_sequence
            },
            None => in_use(model, priority) == Set::<int>::empty(),
        },
{
    let p = rank(priority);
    assert(0 <= p < 3);
    assert(oldest_in_class(model, model.extents.len() as int, p, false, candidates.sealed@[p]));
    lemma_count_is_size(model.extents, priority);
    let used = Set::new(
        |i: int|
            0 <= i < model.extents.len() && model.extents[i].activation_sequence != 0 && model.extents[i].priority
                == priority,
    );
    assert(used =~= in_use(model, priority));
    assert forall|i: int| #[trigger] in_use(model, priority).contains(i) implies in_class(model, i, p, true)
        || in_class(model, i, p, false) by {}
    match candidates.oldest_of(priority) {
        Some((victim, _)) => {
            assert forall|i: int| #[trigger] in_use(model, priority).contains(i) implies victim.activation_sequence
                <= model.extents[i].activation_sequence by {
                assert(in_class(model, i, p, true) || in_class(model, i, p, false));
                assert(victim_at(model.extents, i).activation_sequence == model.extents[i].activation_sequence);
            }
        },
        None => {
            assert forall|i: int| !in_use(model, priority).contains(i) by {
                if in_use(model, priority).contains(i) {
                    assert(in_class(model, i, p, true) || in_class(model, i, p, false));
                }
            }
            assert(in_use(model, priority) =~= Set::<int>::empty());
        },
    }
}

/// Under pressure the right extent is given up, the oldest of its priority. A low extent
/// goes first, whatever arrives. Where none is in use, a low entry is rejected; a normal one
/// takes a high extent while normal ones are below their floor and high ones above theirs,
/// and else one of its own; a high one takes a normal extent while those are above their
/// floor, and else one of its own. It is rejected only where there is none to take.
pub proof fn law_the_right_extent_is_given_up(
    before: PackedModel,
    after: PackedModel,
    layout: PoolLayout,
    incoming: CachePriority,
    stored_len: usize,
    floors: Seq<u32>,
    result: AllocationStep,
)
    requires
        before.extents.len() <= u32::MAX,
        steps(before, after, layout, incoming, stored_len, false, floors, Ok(result)),
    ensures
        ({
            let low = in_use(before, CachePriority::Low).len();
            let normal = in_use(before, CachePriority::Normal).len();
            let high = in_use(before, CachePriority::High).len();
            match result {
                AllocationStep::Reclaim(victim) => {
                    &&& in_use(before, victim.priority).contains(victim.extent as int)
                    &&& victim.generation == before.extents[victim.extent as int].generation
                    &&& forall|i: int| #[trigger]
                        in_use(before, victim.priority).contains(i) ==> victim.activation_sequence
                            <= before.extents[i].activation_sequence
                    &&& low > 0 || incoming == CachePriority::Low ==> victim.priority == CachePriority::Low
                    &&& low == 0 && incoming == CachePriority::Normal ==> victim.priority == if normal < floors[1] && high
                        > floors[2] {
                        CachePriority::High
                    } else {
                        CachePriority::Normal
                    }
                    &&& low == 0 && incoming == CachePriority::High ==> victim.priority == if normal > floors[1] {
                        CachePriority::Normal
                    } else {
                        CachePriority::High
                    }
                },
                AllocationStep::Rejected => {
                    &&& low == 0
                    &&& incoming == CachePriority::Normal ==> normal == 0 && !(normal < floors[1] && high > floors[2])
                    &&& incoming == CachePriority::High ==> high == 0 && normal <= floors[1]
                },
                AllocationStep::FlushRequired => false,
                AllocationStep::Allocated(_) => true,
            }
        }),
        result is Reclaim || result is Rejected ==> after.extents == before.extents,
{
    match result {
        AllocationStep::Reclaim(victim) => {
            let (full, candidates, is_current) = choose|full: PackedModel, candidates: ReclaimCandidates, is_current: bool|
                #![trigger candidates_of(full, candidates), reclaims(candidates, incoming, floors, victim, is_current)]
                {
                    &&& allocates(before, full, layout, incoming, stored_len, Ok(AllocationResult::ReclaimRequired))
                    &&& candidates_of(full, candidates)
                    &&& reclaims(candidates, incoming, floors, victim, is_current)
                    &&& after == if is_current {
                        full.with_current(victim.priority, None)
                    } else {
                        full
                    }
                };
            assert(full.extents == before.extents);
            lemma_victim_choice(before, full, candidates, incoming, floors);
        },
        AllocationStep::Rejected => {
            let candidates = choose|candidates: ReclaimCandidates| #[trigger]
                candidates_of(after, candidates) && victim_for(candidates, incoming, floors) is None;
            assert(after.extents == before.extents);
            lemma_victim_choice(before, after, candidates, incoming, floors);
        },
        _ => {},
    }
}

proof fn lemma_victim_choice(
    before: PackedModel,
    full: PackedModel,
    candidates: ReclaimCandidates,
    incoming: CachePriority,
    floors: Seq<u32>,
)
    requires
        full.extents == before.extents,
        full.extents.len() <= u32::MAX,
        candidates_of(full, candidates),
    ensures
        ({
            let low = in_use(before, CachePriority::Low).len();
            let normal = in_use(before, CachePriority::Normal).len();
            let high = in_use(before, CachePriority::High).len();
            match victim_for(candidates, incoming, floors) {
                Some((victim, _)) => {
                    &&& in_use(before, victim.priority).contains(victim.extent as int)
                    &&& victim == victim_at(before.extents, victim.extent as int)
                    &&& forall|i: int| #[trigger]
                        in_use(before, victim.priority).contains(i) ==> victim.activation_sequence
                            <= before.extents[i].activation_sequence
                    &&& low > 0 || incoming == CachePriority::Low ==> victim.priority == CachePriority::Low
                    &&& low == 0 && incoming == CachePriority::Normal ==> victim.priority == if normal < floors[1] && high
                        > floors[2] {
                        CachePriority::High
                    } else {
                        CachePriority::Normal
                    }
                    &&& low == 0 && incoming == CachePriority::High ==> victim.priority == if normal > floors[1] {
                        CachePriority::Normal
                    } else {
                        CachePriority::High
                    }
                },
                None => {
                    &&& low == 0
                    &&& incoming == CachePriority::Normal ==> normal == 0 && !(normal < floors[1] && high > floors[2])
                    &&& incoming == CachePriority::High ==> high == 0 && normal <= floors[1]
                },
            }
        }),
{
    lemma_oldest_of(full, candidates, CachePriority::Low);
    lemma_oldest_of(full, candidates, CachePriority::Normal);
    lemma_oldest_of(full, candidates, CachePriority::High);
    assert(in_use(full, CachePriority::Low) =~= in_use(before, CachePriority::Low));
    assert(in_use(full, CachePriority::Normal) =~= in_use(before, CachePriority::Normal));
    assert(in_use(full, CachePriority::High) =~= in_use(before, CachePriority::High));
    lemma_some_or_none(in_use(before, CachePriority::Low));
    lemma_some_or_none(in_use(before, CachePriority::Normal));
    lemma_some_or_none(in_use(before, CachePriority::High));
}

proof fn lemma_some_or_none(used: Set<int>)
    requires
        used.finite(),
    ensures
        used.len() == 0 <==> used == Set::<int>::empty(),
        forall|i: int| #[trigger] used.contains(i) ==> used.len() > 0,
{
    if used.len() == 0 {
        assert(used =~= Set::empty());
    }
    assert forall|i: int| #[trigger] used.contains(i) implies used.len() > 0 by {
        if used.len() == 0 {
            assert(used =~= Set::empty());
        }
    }
}

/// While entries wait to be published, no extent is given up and none is rejected: where
/// there is no room, those entries come first.
pub proof fn law_pending_entries_are_published_before_a_reclaim(
    before: PackedModel,
    after: PackedModel,
    layout: PoolLayout,
    incoming: CachePriority,
    stored_len: usize,
    floors: Seq<u32>,
    result: Result<AllocationStep, Error>,
)
    requires
        steps(before, after, layout, incoming, stored_len, true, floors, result),
    ensures
        !(result matches Ok(AllocationStep::Reclaim(_))),
        !(result matches Ok(AllocationStep::Rejected)),
        result matches Ok(AllocationStep::FlushRequired) ==> after.extents == before.extents,
{
}

} // verus!
