//! Transitions of the allocator state.

use vstd::prelude::*;

use crate::model::{rank, CachePriority};
use crate::segment::format::{
    count_role, lemma_count_role_update, lemma_count_role_zero, lemma_scan_clean, lemma_scan_is_clean,
    AllocatorState, SegmentLayout, SegmentRole, SegmentState,
};

verus! {

/// The contents of an allocator state.
#[verifier::ext_equal]
pub struct AllocatorModel {
    pub generation: u64,
    pub next_sequence: u64,
    pub current: Seq<Option<u32>>,
    pub reserve: u32,
    pub segments: Seq<SegmentState>,
    pub active_page: u8,
}

impl View for AllocatorState {
    type V = AllocatorModel;

    open spec fn view(&self) -> AllocatorModel {
        AllocatorModel {
            generation: self.generation,
            next_sequence: self.next_sequence,
            current: self.current@,
            reserve: self.reserve,
            segments: self.segments@,
            active_page: self.active_page,
        }
    }
}

/// Whether segments in this role hold entries.
pub open spec fn occupied(role: SegmentRole) -> bool {
    role == SegmentRole::Current || role == SegmentRole::Sealed || role == SegmentRole::ReclaimSource
}

impl AllocatorModel {
    /// One segment replaced.
    pub open spec fn with_segment(self, i: int, state: SegmentState) -> AllocatorModel {
        AllocatorModel { segments: self.segments.update(i, state), ..self }
    }

    /// The current segment of one priority replaced.
    pub open spec fn with_current(self, priority: CachePriority, segment: Option<u32>) -> AllocatorModel {
        AllocatorModel { current: self.current.update(rank(priority), segment), ..self }
    }

    /// The current segment of a priority, if there is one, is sealed.
    pub open spec fn current_sealed(self, priority: CachePriority) -> AllocatorModel {
        match self.current[rank(priority)] {
            Some(segment) => self.with_segment(
                segment as int,
                (SegmentState { role: SegmentRole::Sealed, ..self.segments[segment as int] }),
            ).with_current(priority, None),
            None => self,
        }
    }

    /// A free segment becomes the current one of a priority.
    pub open spec fn activated(self, priority: CachePriority, segment: u32) -> AllocatorModel {
        self.with_segment(
            segment as int,
            (SegmentState {
                used: 0,
                sequence: self.next_sequence,
                priority,
                role: SegmentRole::Current,
                ..self.segments[segment as int]
            }),
        ).with_current(priority, Some(segment))
    }

    /// The next `slots` slots of a segment are taken.
    pub open spec fn slots_taken(self, segment: int, slots: u32) -> AllocatorModel {
        self.with_segment(
            segment,
            (SegmentState {
                used: (self.segments[segment].used + slots) as u32,
                ..self.segments[segment]
            }),
        )
    }

    /// The allocation sequence moved on by one.
    pub open spec fn sequence_advanced(self) -> AllocatorModel {
        AllocatorModel { next_sequence: (self.next_sequence + 1) as u64, ..self }
    }

    /// A segment given back: its generation moves on and it holds nothing.
    pub open spec fn segment_reset(self, segment: int, role: SegmentRole) -> AllocatorModel {
        self.with_segment(
            segment,
            (SegmentState {
                generation: (self.segments[segment].generation + 1) as u32,
                used: 0,
                sequence: 0,
                priority: CachePriority::Low,
                role,
            }),
        )
    }

    /// The cursor names another generation and the other page.
    pub open spec fn cursor_moved(self, generation: u64, page: u8) -> AllocatorModel {
        AllocatorModel { generation, active_page: page, ..self }
    }

    /// `i` is the first free segment.
    pub open spec fn first_free(self, i: int) -> bool {
        &&& 0 <= i < self.segments.len()
        &&& self.segments[i].role == SegmentRole::Free
        &&& forall|k: int| 0 <= k < i ==> (#[trigger] self.segments[k]).role != SegmentRole::Free
    }

    /// No segment is free.
    pub open spec fn none_free(self) -> bool {
        forall|k: int| 0 <= k < self.segments.len() ==> (#[trigger] self.segments[k]).role != SegmentRole::Free
    }

    /// Free and reserve segments hold nothing.
    pub open spec fn idle_is_empty(self) -> bool {
        forall|i: int|
            0 <= i < self.segments.len() && ((#[trigger] self.segments[i]).role == SegmentRole::Free
                || self.segments[i].role == SegmentRole::Reserve) ==> self.segments[i].used == 0
    }

    /// One segment obeys its limits, and the current pointers know it if it is current.
    pub open spec fn segment_ok(self, layout: SegmentLayout, i: int) -> bool {
        let state = self.segments[i];
        &&& state.generation > 0
        &&& state.used <= layout.slots_per_segment
        &&& state.role == SegmentRole::Current ==> self.current[rank(state.priority)] == Some(i as u32)
    }

    /// The current pointer of one priority names a current segment of that priority.
    pub open spec fn pointer_ok(self, priority: int) -> bool {
        self.current[priority] matches Some(segment) ==> {
            &&& segment < self.segments.len()
            &&& self.segments[segment as int].role == SegmentRole::Current
            &&& rank(self.segments[segment as int].priority) == priority
        }
    }

    /// One reserve, at the reserve pointer, and no reclaim in progress.
    pub open spec fn normal(self) -> bool {
        &&& count_role(self.segments, SegmentRole::Reserve) == 1
        &&& count_role(self.segments, SegmentRole::ReclaimSource) == 0
        &&& count_role(self.segments, SegmentRole::ReclaimTarget) == 0
        &&& self.segments[self.reserve as int].role == SegmentRole::Reserve
    }

    /// One segment is being copied into the one at the reserve pointer.
    pub open spec fn reclaiming(self) -> bool {
        &&& count_role(self.segments, SegmentRole::Reserve) == 0
        &&& count_role(self.segments, SegmentRole::ReclaimSource) == 1
        &&& count_role(self.segments, SegmentRole::ReclaimTarget) == 1
        &&& self.segments[self.reserve as int].role == SegmentRole::ReclaimTarget
    }

    /// The state is consistent.
    pub open spec fn consistent(self, layout: SegmentLayout) -> bool {
        &&& self.generation > 0
        &&& self.next_sequence > 0
        &&& self.current.len() == 3
        &&& self.segments.len() == layout.segment_count
        &&& self.reserve < layout.segment_count
        &&& forall|i: int| 0 <= i < self.segments.len() ==> #[trigger] self.segment_ok(layout, i)
        &&& self.normal() || self.reclaiming()
        &&& self.pointer_ok(0)
        &&& self.pointer_ok(1)
        &&& self.pointer_ok(2)
    }

    /// From `self` to `later` every segment kept its generation and its used slots, or
    /// took more, or moved on to a later generation.
    pub open spec fn grows_into(self, later: AllocatorModel) -> bool {
        &&& later.segments.len() == self.segments.len()
        &&& forall|i: int|
            0 <= i < self.segments.len() ==> {
                let before = #[trigger] self.segments[i];
                let after = later.segments[i];
                ||| before.generation < after.generation
                ||| before.generation == after.generation && before.used <= after.used
            }
    }
}

/// Validity is consistency.
pub proof fn lemma_valid_is_consistent(state: AllocatorState, layout: SegmentLayout)
    ensures
        state.valid(layout) <==> state@.consistent(layout),
{
    let n = state.segments@.len();
    if state.valid(layout) {
        lemma_scan_is_clean(state, layout, n);
        assert forall|i: int| 0 <= i < n implies #[trigger] state@.segment_ok(layout, i) by {
            assert(state.segment_fault(layout, i) is None);
        }
        assert(state.pointer_fault(0) is None && state.pointer_fault(1) is None && state.pointer_fault(2) is None);
    }
    if state@.consistent(layout) {
        assert forall|i: int| 0 <= i < n implies (#[trigger] state.segment_fault(layout, i)) is None by {
            assert(state@.segment_ok(layout, i));
        }
        lemma_scan_clean(state, layout, n);
        assert(state.pointer_fault(0) is None && state.pointer_fault(1) is None && state.pointer_fault(2) is None);
    }
}

/// Replacing a segment by one with the same role keeps the counts.
proof fn lemma_same_role(segments: Seq<SegmentState>, i: int, new: SegmentState)
    requires
        0 <= i < segments.len(),
        new.role == segments[i].role,
    ensures
        forall|role: SegmentRole| #[trigger] count_role(segments.update(i, new), role) == count_role(segments, role),
{
    assert forall|role: SegmentRole| #[trigger]
        count_role(segments.update(i, new), role) == count_role(segments, role) by {
        lemma_count_role_update(segments, i, new, role);
    }
}

/// Replacing a segment that is neither reserve nor part of a reclaim by another such
/// segment keeps those counts.
proof fn lemma_plain_roles(segments: Seq<SegmentState>, i: int, new: SegmentState)
    requires
        0 <= i < segments.len(),
        segments[i].role != SegmentRole::Reserve,
        segments[i].role != SegmentRole::ReclaimSource,
        segments[i].role != SegmentRole::ReclaimTarget,
        new.role != SegmentRole::Reserve,
        new.role != SegmentRole::ReclaimSource,
        new.role != SegmentRole::ReclaimTarget,
    ensures
        count_role(segments.update(i, new), SegmentRole::Reserve) == count_role(segments, SegmentRole::Reserve),
        count_role(segments.update(i, new), SegmentRole::ReclaimSource) == count_role(
            segments,
            SegmentRole::ReclaimSource,
        ),
        count_role(segments.update(i, new), SegmentRole::ReclaimTarget) == count_role(
            segments,
            SegmentRole::ReclaimTarget,
        ),
{
    lemma_count_role_update(segments, i, new, SegmentRole::Reserve);
    lemma_count_role_update(segments, i, new, SegmentRole::ReclaimSource);
    lemma_count_role_update(segments, i, new, SegmentRole::ReclaimTarget);
}

/// Sealing a current segment keeps the state consistent.
pub proof fn lemma_seal_keeps(m: AllocatorModel, layout: SegmentLayout, priority: CachePriority)
    requires
        m.consistent(layout),
    ensures
        m.current_sealed(priority).consistent(layout),
        m.idle_is_empty() ==> m.current_sealed(priority).idle_is_empty(),
        m.grows_into(m.current_sealed(priority)),
        m.current_sealed(priority).current[rank(priority)] is None,
{
    let after = m.current_sealed(priority);
    if let Some(segment) = m.current[rank(priority)] {
        assert(m.pointer_ok(rank(priority)));
        let s = segment as int;
        let new = SegmentState { role: SegmentRole::Sealed, ..m.segments[s] };
        lemma_plain_roles(m.segments, s, new);
        assert forall|i: int| 0 <= i < after.segments.len() implies #[trigger] after.segment_ok(layout, i) by {
            assert(m.segment_ok(layout, i));
            assert(m.segment_ok(layout, s));
        }
        assert forall|p: int| 0 <= p < 3 implies #[trigger] after.pointer_ok(p) by {
            assert(m.pointer_ok(p));
        }
        assert(after.pointer_ok(0) && after.pointer_ok(1) && after.pointer_ok(2));
        if m.normal() {
            assert(s != m.reserve);
        }
    }
}

/// Making a free segment current keeps the state consistent.
pub proof fn lemma_activate_keeps(m: AllocatorModel, layout: SegmentLayout, priority: CachePriority, segment: u32)
    requires
        m.consistent(layout),
        m.current[rank(priority)] is None,
        segment < m.segments.len(),
        m.segments[segment as int].role == SegmentRole::Free,
    ensures
        m.activated(priority, segment).consistent(layout),
        m.idle_is_empty() ==> m.activated(priority, segment).idle_is_empty(),
        m.idle_is_empty() ==> m.grows_into(m.activated(priority, segment)),
{
    let after = m.activated(priority, segment);
    let s = segment as int;
    lemma_plain_roles(m.segments, s, after.segments[s]);
    assert(m.segment_ok(layout, s));
    assert forall|i: int| 0 <= i < after.segments.len() implies #[trigger] after.segment_ok(layout, i) by {
        assert(m.segment_ok(layout, i));
    }
    assert forall|p: int| 0 <= p < 3 implies #[trigger] after.pointer_ok(p) by {
        assert(m.pointer_ok(p));
    }
    assert(after.pointer_ok(0) && after.pointer_ok(1) && after.pointer_ok(2));
}

/// Taking slots that are there keeps the state consistent.
pub proof fn lemma_take_keeps(m: AllocatorModel, layout: SegmentLayout, segment: int, slots: u32)
    requires
        m.consistent(layout),
        0 <= segment < m.segments.len(),
        m.segments[segment].used + slots <= layout.slots_per_segment,
        m.segments[segment].role != SegmentRole::Free,
        m.segments[segment].role != SegmentRole::Reserve,
    ensures
        m.slots_taken(segment, slots).consistent(layout),
        m.idle_is_empty() ==> m.slots_taken(segment, slots).idle_is_empty(),
        m.grows_into(m.slots_taken(segment, slots)),
{
    let after = m.slots_taken(segment, slots);
    lemma_same_role(m.segments, segment, after.segments[segment]);
    assert forall|i: int| 0 <= i < after.segments.len() implies #[trigger] after.segment_ok(layout, i) by {
        assert(m.segment_ok(layout, i));
    }
    assert(after.pointer_ok(0) && after.pointer_ok(1) && after.pointer_ok(2));
}

/// Moving the sequence or the cursor keeps the state consistent.
pub proof fn lemma_numbers_keep(m: AllocatorModel, after: AllocatorModel, layout: SegmentLayout)
    requires
        m.consistent(layout),
        after.generation > 0,
        after.next_sequence > 0,
        after.segments == m.segments,
        after.current == m.current,
        after.reserve == m.reserve,
    ensures
        after.consistent(layout),
        m.idle_is_empty() ==> after.idle_is_empty(),
        m.grows_into(after),
{
    assert forall|i: int| 0 <= i < after.segments.len() implies #[trigger] after.segment_ok(layout, i) by {
        assert(m.segment_ok(layout, i));
    }
    assert(after.pointer_ok(0) && after.pointer_ok(1) && after.pointer_ok(2));
}

/// Growth is transitive.
pub proof fn lemma_growth_is_transitive(a: AllocatorModel, b: AllocatorModel, c: AllocatorModel)
    requires
        a.grows_into(b),
        b.grows_into(c),
    ensures
        a.grows_into(c),
{
    assert forall|i: int| 0 <= i < a.segments.len() implies {
        let before = #[trigger] a.segments[i];
        let after = c.segments[i];
        ||| before.generation < after.generation
        ||| before.generation == after.generation && before.used <= after.used
    } by {
        let x = a.segments[i];
        let y = b.segments[i];
    }
}

/// Giving back a sealed segment keeps the state consistent.
pub proof fn lemma_release_keeps(m: AllocatorModel, layout: SegmentLayout, segment: int)
    requires
        m.consistent(layout),
        0 <= segment < m.segments.len(),
        m.segments[segment].role == SegmentRole::Sealed,
        m.segments[segment].generation < u32::MAX,
    ensures
        m.segment_reset(segment, SegmentRole::Free).consistent(layout),
        m.idle_is_empty() ==> m.segment_reset(segment, SegmentRole::Free).idle_is_empty(),
        m.grows_into(m.segment_reset(segment, SegmentRole::Free)),
{
    let after = m.segment_reset(segment, SegmentRole::Free);
    lemma_plain_roles(m.segments, segment, after.segments[segment]);
    assert forall|i: int| 0 <= i < after.segments.len() implies #[trigger] after.segment_ok(layout, i) by {
        assert(m.segment_ok(layout, i));
    }
    assert forall|p: int| 0 <= p < 3 implies #[trigger] after.pointer_ok(p) by {
        assert(m.pointer_ok(p));
    }
    assert(after.pointer_ok(0) && after.pointer_ok(1) && after.pointer_ok(2));
}

/// The state once `source` is copied into the reserve.
pub open spec fn reclaim_begun(m: AllocatorModel, source: int, priority: CachePriority) -> AllocatorModel {
    let target = m.reserve as int;
    m.with_segment(source, (SegmentState { role: SegmentRole::ReclaimSource, ..m.segments[source] })).with_segment(
        target,
        (SegmentState {
            used: 0,
            sequence: m.next_sequence,
            priority,
            role: SegmentRole::ReclaimTarget,
            ..m.segments[target]
        }),
    )
}

/// Beginning a reclaim keeps the state consistent.
pub proof fn lemma_begin_keeps(m: AllocatorModel, layout: SegmentLayout, source: int, priority: CachePriority)
    requires
        m.consistent(layout),
        0 <= source < m.segments.len(),
        m.segments[source].role == SegmentRole::Sealed,
        m.segments[m.reserve as int].role == SegmentRole::Reserve,
    ensures
        reclaim_begun(m, source, priority).consistent(layout),
        m.idle_is_empty() ==> reclaim_begun(m, source, priority).idle_is_empty(),
        m.idle_is_empty() ==> m.grows_into(reclaim_begun(m, source, priority)),
{
    let after = reclaim_begun(m, source, priority);
    let target = m.reserve as int;
    lemma_count_role_zero(m.segments, SegmentRole::Reserve);
    assert(m.normal());
    let sealed = SegmentState { role: SegmentRole::ReclaimSource, ..m.segments[source] };
    let middle = m.segments.update(source, sealed);
    lemma_count_role_update(m.segments, source, sealed, SegmentRole::Reserve);
    lemma_count_role_update(m.segments, source, sealed, SegmentRole::ReclaimSource);
    lemma_count_role_update(m.segments, source, sealed, SegmentRole::ReclaimTarget);
    lemma_count_role_update(middle, target, after.segments[target], SegmentRole::Reserve);
    lemma_count_role_update(middle, target, after.segments[target], SegmentRole::ReclaimSource);
    lemma_count_role_update(middle, target, after.segments[target], SegmentRole::ReclaimTarget);
    assert(m.segment_ok(layout, target) && m.segment_ok(layout, source));
    assert forall|i: int| 0 <= i < after.segments.len() implies #[trigger] after.segment_ok(layout, i) by {
        assert(m.segment_ok(layout, i));
    }
    assert forall|p: int| 0 <= p < 3 implies #[trigger] after.pointer_ok(p) by {
        assert(m.pointer_ok(p));
    }
    assert(after.pointer_ok(0) && after.pointer_ok(1) && after.pointer_ok(2));
}

/// The state once a reclaim is done: the source becomes the reserve and the target
/// the current segment of its priority, or a sealed one if it is full.
pub open spec fn reclaim_finished(
    m: AllocatorModel,
    layout: SegmentLayout,
    source: u32,
    target: u32,
    priority: CachePriority,
) -> AllocatorModel {
    let freed = AllocatorModel { reserve: source, ..m.segment_reset(source as int, SegmentRole::Reserve) };
    let copied = freed.segments[target as int];
    if copied.used < layout.slots_per_segment {
        freed.with_segment(target as int, (SegmentState { role: SegmentRole::Current, ..copied })).with_current(
            priority,
            Some(target),
        )
    } else {
        freed.with_segment(target as int, (SegmentState { role: SegmentRole::Sealed, ..copied }))
    }
}

/// Finishing a reclaim keeps the state consistent, unless a full current segment would
/// lose its pointer.
pub proof fn lemma_finish_keeps(
    m: AllocatorModel,
    layout: SegmentLayout,
    source: u32,
    target: u32,
    priority: CachePriority,
)
    requires
        m.consistent(layout),
        source < m.segments.len(),
        target < m.segments.len(),
        m.segments[source as int].role == SegmentRole::ReclaimSource,
        m.segments[target as int].role == SegmentRole::ReclaimTarget,
        m.segments[target as int].priority == priority,
        m.segments[source as int].generation < u32::MAX,
        m.current[rank(priority)] is None || m.segments[target as int].used >= layout.slots_per_segment,
    ensures
        reclaim_finished(m, layout, source, target, priority).consistent(layout),
        m.idle_is_empty() ==> reclaim_finished(m, layout, source, target, priority).idle_is_empty(),
        m.grows_into(reclaim_finished(m, layout, source, target, priority)),
{
    let after = reclaim_finished(m, layout, source, target, priority);
    let s = source as int;
    let t = target as int;
    lemma_count_role_zero(m.segments, SegmentRole::ReclaimTarget);
    assert(m.reclaiming());
    let freed = m.segment_reset(s, SegmentRole::Reserve);
    let last = after.segments[t];
    assert(after.segments =~= freed.segments.update(t, last));
    lemma_count_role_update(m.segments, s, freed.segments[s], SegmentRole::Reserve);
    lemma_count_role_update(m.segments, s, freed.segments[s], SegmentRole::ReclaimSource);
    lemma_count_role_update(m.segments, s, freed.segments[s], SegmentRole::ReclaimTarget);
    lemma_count_role_update(freed.segments, t, last, SegmentRole::Reserve);
    lemma_count_role_update(freed.segments, t, last, SegmentRole::ReclaimSource);
    lemma_count_role_update(freed.segments, t, last, SegmentRole::ReclaimTarget);
    assert(m.segment_ok(layout, t) && m.segment_ok(layout, s));
    assert forall|i: int| 0 <= i < after.segments.len() implies #[trigger] after.segment_ok(layout, i) by {
        assert(m.segment_ok(layout, i));
    }
    assert forall|p: int| 0 <= p < 3 implies #[trigger] after.pointer_ok(p) by {
        assert(m.pointer_ok(p));
    }
    assert(after.pointer_ok(0) && after.pointer_ok(1) && after.pointer_ok(2));
}

} // verus!
