//! The budget shared by queued and currently executing engine commands.

use vstd::prelude::*;

verus! {

/// Hard bounds shared by queued and currently executing engine commands. Puts keep within
/// them; deletes are counted too, and may overcommit.
#[derive(Debug, PartialEq, Eq)]
pub struct SubmissionQueue {
    capacity_entries: usize,
    capacity_bytes: usize,
    pending_entries: usize,
    pending_bytes: usize,
}

/// The budget of one command. It is given back with [`SubmissionQueue::release`] when
/// the command leaves the pipeline.
#[derive(Debug, PartialEq, Eq)]
pub struct QueueReservation {
    bytes: usize,
}

impl QueueReservation {
    pub closed spec fn charge(self) -> usize {
        self.bytes
    }

    /// The bytes held.
    pub fn bytes(&self) -> (bytes: usize)
        ensures
            bytes == self.charge(),
    {
        self.bytes
    }
}

/// The numbers of a queue.
pub struct QueueModel {
    pub capacity_entries: usize,
    pub capacity_bytes: usize,
    pub pending_entries: usize,
    pub pending_bytes: usize,
}

impl QueueModel {
    /// Nothing is pending beyond the bounds.
    pub open spec fn bounded(self) -> bool {
        self.pending_entries <= self.capacity_entries && self.pending_bytes <= self.capacity_bytes
    }

    /// Whether one more command of this many bytes keeps within both bounds.
    pub open spec fn has_room(self, bytes: usize) -> bool {
        self.pending_entries < self.capacity_entries && self.pending_bytes + bytes <= self.capacity_bytes
    }

    /// Whether one more command of this many bytes can be counted at all.
    pub open spec fn can_count(self, bytes: usize) -> bool {
        self.pending_entries < usize::MAX && self.pending_bytes + bytes <= usize::MAX
    }

    /// The queue with one more command of this many bytes.
    pub open spec fn reserved(self, bytes: usize) -> QueueModel {
        QueueModel {
            pending_entries: (self.pending_entries + 1) as usize,
            pending_bytes: (self.pending_bytes + bytes) as usize,
            ..self
        }
    }

    /// Whether a command of this many bytes can be among those pending.
    pub open spec fn holds(self, bytes: usize) -> bool {
        self.pending_entries > 0 && bytes <= self.pending_bytes
    }

    /// The queue with one command of this many bytes less.
    pub open spec fn released(self, bytes: usize) -> QueueModel {
        QueueModel {
            pending_entries: (self.pending_entries - 1) as usize,
            pending_bytes: (self.pending_bytes - bytes) as usize,
            ..self
        }
    }
}

impl View for SubmissionQueue {
    type V = QueueModel;

    closed spec fn view(&self) -> QueueModel {
        QueueModel {
            capacity_entries: self.capacity_entries,
            capacity_bytes: self.capacity_bytes,
            pending_entries: self.pending_entries,
            pending_bytes: self.pending_bytes,
        }
    }
}

impl SubmissionQueue {
    /// An empty queue.
    pub fn new(capacity_entries: usize, capacity_bytes: usize) -> (queue: SubmissionQueue)
        ensures
            queue@ == (QueueModel { capacity_entries, capacity_bytes, pending_entries: 0, pending_bytes: 0 }),
            queue@.bounded(),
    {
        SubmissionQueue { capacity_entries, capacity_bytes, pending_entries: 0, pending_bytes: 0 }
    }

    /// The most commands that may be pending.
    pub fn capacity_entries(&self) -> (entries: usize)
        ensures
            entries == self@.capacity_entries,
    {
        self.capacity_entries
    }

    /// The most bytes that may be pending.
    pub fn capacity_bytes(&self) -> (bytes: usize)
        ensures
            bytes == self@.capacity_bytes,
    {
        self.capacity_bytes
    }

    /// The commands pending.
    pub fn pending_entries(&self) -> (entries: usize)
        ensures
            entries == self@.pending_entries,
    {
        self.pending_entries
    }

    /// The bytes pending.
    pub fn pending_bytes(&self) -> (bytes: usize)
        ensures
            bytes == self@.pending_bytes,
    {
        self.pending_bytes
    }

    /// Reserves the budget of one command, or leaves the queue as it is where a bound
    /// would be passed.
    pub fn try_reserve(&mut self, bytes: usize) -> (reservation: Option<QueueReservation>)
        ensures
            reservation is Some <==> old(self)@.has_room(bytes),
            reservation matches Some(reservation) ==> reservation.charge() == bytes && final(self)@ == old(
                self,
            )@.reserved(bytes),
            reservation is None ==> final(self)@ == old(self)@,
    {
        if bytes > self.capacity_bytes || self.pending_entries >= self.capacity_entries {
            return None;
        }
        match self.pending_bytes.checked_add(bytes) {
            Some(next) => {
                if next > self.capacity_bytes {
                    return None;
                }
                self.pending_entries = self.pending_entries + 1;
                self.pending_bytes = next;
                Some(QueueReservation { bytes })
            },
            None => None,
        }
    }

    /// Reserves the budget of one command that may pass the bounds. Only a command that
    /// cannot be counted is refused, and leaves the queue as it is.
    pub fn try_overcommit(&mut self, bytes: usize) -> (reservation: Option<QueueReservation>)
        ensures
            reservation is Some <==> old(self)@.can_count(bytes),
            reservation matches Some(reservation) ==> reservation.charge() == bytes && final(self)@ == old(
                self,
            )@.reserved(bytes),
            reservation is None ==> final(self)@ == old(self)@,
    {
        match (self.pending_entries.checked_add(1), self.pending_bytes.checked_add(bytes)) {
            (Some(entries), Some(next)) => {
                self.pending_entries = entries;
                self.pending_bytes = next;
                Some(QueueReservation { bytes })
            },
            _ => None,
        }
    }

    /// Gives the budget of one command back.
    pub fn release(&mut self, reservation: QueueReservation)
        requires
            old(self)@.holds(reservation.charge()),
        ensures
            final(self)@ == old(self)@.released(reservation.charge()),
    {
        self.pending_bytes = self.pending_bytes - reservation.bytes;
        self.pending_entries = self.pending_entries - 1;
    }

    /// Whether every command has left the pipeline.
    pub fn is_idle(&self) -> (idle: bool)
        ensures
            idle == (self@.pending_entries == 0),
    {
        self.pending_entries == 0
    }
}

/// A bounded reservation never takes what is pending past either bound, however much was
/// overcommitted before.
pub proof fn law_reservations_stay_within_the_bounds(queue: QueueModel, bytes: usize)
    requires
        queue.has_room(bytes),
    ensures
        queue.can_count(bytes),
        queue.reserved(bytes).bounded(),
{
}

/// Giving a reservation back restores the budget, whether it passed the bounds or not.
pub proof fn law_releasing_restores_the_budget(queue: QueueModel, bytes: usize)
    requires
        queue.can_count(bytes),
    ensures
        queue.reserved(bytes).holds(bytes),
        queue.reserved(bytes).released(bytes) == queue,
{
}

/// Reservations may be given back in any order.
pub proof fn law_reservations_are_released_in_any_order(queue: QueueModel, first: usize, second: usize)
    requires
        queue.can_count(first),
        queue.reserved(first).can_count(second),
    ensures
        queue.reserved(first).reserved(second).holds(first),
        queue.reserved(first).reserved(second).released(first).holds(second),
        queue.reserved(first).reserved(second).released(first).released(second) == queue,
        queue.reserved(first).reserved(second).holds(second),
        queue.reserved(first).reserved(second).released(second).holds(first),
        queue.reserved(first).reserved(second).released(second).released(first) == queue,
{
}

/// A bounded reservation is refused only where it would pass a bound: the most that fits
/// is taken.
pub proof fn law_reservations_are_refused_only_at_the_bounds(queue: QueueModel, bytes: usize)
    ensures
        queue.has_room(bytes) <==> queue.pending_entries + 1 <= queue.capacity_entries && queue.pending_bytes + bytes
            <= queue.capacity_bytes,
        queue.has_room(bytes) ==> queue.reserved(bytes).pending_entries == queue.pending_entries + 1
            && queue.reserved(bytes).pending_bytes == queue.pending_bytes + bytes
            && queue.reserved(bytes).capacity_entries == queue.capacity_entries
            && queue.reserved(bytes).capacity_bytes == queue.capacity_bytes,
        queue.can_count(bytes) <==> queue.pending_entries + 1 <= usize::MAX && queue.pending_bytes + bytes
            <= usize::MAX,
        queue.can_count(bytes) ==> queue.reserved(bytes).pending_bytes == queue.pending_bytes + bytes,
        queue.holds(bytes) ==> queue.released(bytes).pending_entries + 1 == queue.pending_entries
            && queue.released(bytes).pending_bytes + bytes == queue.pending_bytes,
{
}

} // verus!
