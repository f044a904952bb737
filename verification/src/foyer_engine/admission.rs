//! What the engine lets in: commands into the queue, reads to the disk.

use vstd::prelude::*;

use crate::entry::EngineValue;
use crate::foyer_engine::config::{engine_error, failure, EngineError, EngineErrorKind};
use crate::foyer_engine::queue::{QueueModel, QueueReservation, SubmissionQueue};
use crate::foyer_engine::read::{ReadLimiter, ReadPermit};
use crate::foyer_engine::stats::{no_engine_reads, no_engine_writes, EngineStats};
use crate::foyer_engine::writer::BackgroundError;
use crate::format::STORED_ENTRY_HEADER_SIZE;
use crate::model::{valid_key, CachePriority, EntryKey, MAX_KEY_SIZE};
use crate::shared::bytes_from_vec;
use crate::store::engine::PreparedGet;
use crate::store::operation::GetResult;

verus! {

/// Whether the engine takes requests.
#[derive(Debug, Clone, Copy, PartialEq, Eq, Structural)]
pub enum CloseState {
    Open,
    Closing,
    Closed,
}

/// The engine's state at its boundary.
#[derive(Debug)]
pub struct EngineState {
    pub capacity: usize,
    pub extent_size: usize,
    pub queue: SubmissionQueue,
    pub read_limiter: ReadLimiter,
    pub stats: EngineStats,
    pub background_error: BackgroundError,
    pub close_state: CloseState,
}

/// The fill of the queue from which commands are shed: `numerator / denominator` of its
/// capacity, but at least one.
pub open spec fn threshold(capacity: usize, numerator: usize, denominator: usize) -> nat {
    let part = if capacity * numerator <= usize::MAX {
        capacity as nat * numerator as nat / denominator as nat
    } else {
        capacity as nat / denominator as nat * numerator as nat
    };
    if part < 1 {
        1
    } else {
        part
    }
}

/// Whether `value` has reached `numerator / denominator` of `capacity`.
pub fn at_fraction(value: usize, capacity: usize, numerator: usize, denominator: usize) -> (reached: bool)
    requires
        0 < numerator <= denominator,
    ensures
        reached == (value >= threshold(capacity, numerator, denominator)),
{
    let part: usize = match capacity.checked_mul(numerator) {
        Some(scaled) => scaled / denominator,
        None => {
            assert((capacity as int / denominator as int) * numerator <= capacity) by (nonlinear_arith)
                requires
                    0 < numerator <= denominator,
                    capacity >= 0,
            ;
            capacity / denominator * numerator
        },
    };
    let threshold: usize = if part < 1 {
        1
    } else {
        part
    };
    value >= threshold
}

/// The fraction of the queue's capacity from which a priority is shed. High puts are
/// refused at the hard bounds only, and deletes not even there.
pub open spec fn shed_fraction(priority: CachePriority, readers_active: bool) -> Option<(usize, usize)> {
    match (priority, readers_active) {
        (CachePriority::Low, true) => Some((1, 4)),
        (CachePriority::Low, false) => Some((1, 2)),
        (CachePriority::Normal, true) => Some((1, 2)),
        (CachePriority::Normal, false) => Some((3, 4)),
        (CachePriority::High, _) => None,
    }
}

/// Whether a command is shed before the queue reaches its hard bounds.
pub open spec fn sheds(queue: QueueModel, readers_active: bool, priority: CachePriority) -> bool {
    match shed_fraction(priority, readers_active) {
        Some((numerator, denominator)) => {
            ||| queue.pending_entries >= threshold(queue.capacity_entries, numerator, denominator)
            ||| queue.pending_bytes >= threshold(queue.capacity_bytes, numerator, denominator)
        },
        None => false,
    }
}

/// Decides whether a command is shed before the queue reaches its hard bounds.
pub fn should_shed(queue: &SubmissionQueue, readers_active: bool, priority: CachePriority) -> (shed: bool)
    ensures
        shed == sheds(queue@, readers_active, priority),
{
    let (numerator, denominator): (usize, usize) = match (priority, readers_active) {
        (CachePriority::Low, true) => (1, 4),
        (CachePriority::Low, false) => (1, 2),
        (CachePriority::Normal, true) => (1, 2),
        (CachePriority::Normal, false) => (3, 4),
        (CachePriority::High, _) => return false,
    };
    at_fraction(queue.pending_entries(), queue.capacity_entries(), numerator, denominator) || at_fraction(
        queue.pending_bytes(),
        queue.capacity_bytes(),
        numerator,
        denominator,
    )
}

/// Shedding follows priority and read pressure: what spares a lower priority spares a
/// higher one, what is shed without active reads is shed with them, high commands are
/// never shed, and an empty queue sheds nothing.
pub proof fn law_shedding_follows_priority(queue: QueueModel, readers_active: bool, priority: CachePriority)
    ensures
        sheds(queue, readers_active, CachePriority::Normal) ==> sheds(queue, readers_active, CachePriority::Low),
        sheds(queue, false, priority) ==> sheds(queue, true, priority),
        !sheds(queue, readers_active, CachePriority::High),
        queue.pending_entries == 0 && queue.pending_bytes == 0 ==> !sheds(queue, readers_active, priority),
{
    lemma_thresholds_ascend(queue.capacity_entries);
    lemma_thresholds_ascend(queue.capacity_bytes);
}

proof fn lemma_thresholds_ascend(capacity: usize)
    ensures
        1 <= threshold(capacity, 1, 4) <= threshold(capacity, 1, 2) <= threshold(capacity, 3, 4),
{
    assert(capacity as nat * 1nat == capacity as nat);
    if capacity * 3 > usize::MAX {
        assert(capacity as nat / 4 * 3 >= capacity as nat / 2);
    } else {
        assert(capacity as nat * 3 / 4 >= capacity as nat / 2);
    }
}

/// What the first look at a write says.
#[derive(Debug, Clone, Copy, PartialEq, Eq, Structural)]
pub enum FilterResult {
    Admit,
    /// The engine is closed or broken.
    Unavailable,
    /// The queue is at a hard bound.
    Overflow,
}

/// What became of a command at the boundary.
#[derive(Debug, PartialEq, Eq)]
pub enum Submission {
    /// The command may be sent; it holds this budget.
    Reserved(QueueReservation),
    /// The entry cannot be stored.
    Invalid,
    /// The engine is closed or broken.
    Unavailable,
    /// The command was shed for its priority.
    Shed,
    /// The queue is at a hard bound.
    Overflow,
}

/// Whether an entry of these lengths can be stored at all.
pub open spec fn accepts_lengths(key_len: nat, value_len: nat, extent_size: usize) -> bool {
    &&& 0 < key_len <= MAX_KEY_SIZE
    &&& 0 < value_len
    &&& STORED_ENTRY_HEADER_SIZE + key_len + value_len <= extent_size
    &&& STORED_ENTRY_HEADER_SIZE + key_len + value_len <= u32::MAX
}

fn lengths_accepted(key_len: usize, value_len: usize, extent_size: usize) -> (accepted: bool)
    ensures
        accepted == accepts_lengths(key_len as nat, value_len as nat, extent_size),
{
    if key_len == 0 || key_len > MAX_KEY_SIZE || value_len == 0 {
        return false;
    }
    match (STORED_ENTRY_HEADER_SIZE + key_len).checked_add(value_len) {
        Some(size) => size <= extent_size && size as u64 <= u32::MAX as u64,
        None => false,
    }
}

/// What the engine reports of its space.
#[derive(Debug, Clone, Copy, PartialEq, Eq, Structural)]
pub struct StorageUsage {
    pub capacity: usize,
    pub allocated: usize,
}

/// What a lookup starts with.
#[derive(Debug, PartialEq, Eq)]
pub enum LoadStart {
    Throttled,
    Miss,
    /// Look this key up in memory.
    Lookup(EntryKey),
}

/// What a lookup of memory is followed by.
#[derive(Debug, PartialEq, Eq)]
pub enum LoadStep {
    Throttled,
    Miss,
    /// Read from disk.
    Read(ReadPermit),
}

/// What a caller of close does.
#[derive(Debug, Clone, Copy, PartialEq, Eq, Structural)]
pub enum CloseStep {
    /// Stop the worker, then report with [`EngineState::closed`].
    Shutdown,
    /// Another caller is closing: wait until it is done.
    Wait,
    /// Closed before.
    Closed,
}

/// What a caller of close does, and the state that it leaves.
pub open spec fn closing(state: CloseState) -> (CloseStep, CloseState) {
    match state {
        CloseState::Open => (CloseStep::Shutdown, CloseState::Closing),
        CloseState::Closing => (CloseStep::Wait, CloseState::Closing),
        CloseState::Closed => (CloseStep::Closed, CloseState::Closed),
    }
}

/// The bytes that are said to be allocated, where `capacity` stands for what is not known.
pub open spec fn allocated_of(allocated: Option<u64>, capacity: usize) -> usize {
    match allocated {
        Some(bytes) => if bytes <= usize::MAX {
            bytes as usize
        } else {
            capacity
        },
        None => capacity,
    }
}

impl EngineState {
    pub open spec fn wf(self) -> bool {
        self.read_limiter@.bounded() && self.stats.wf()
    }

    /// Whether commands are taken at all.
    pub open spec fn available(self) -> bool {
        self.close_state is Open && self.background_error@ is None
    }

    /// The same state with other counters.
    pub open spec fn with_stats(self, stats: EngineStats) -> EngineState {
        EngineState { stats, ..self }
    }

    /// An open engine.
    pub fn new(
        capacity: usize,
        extent_size: usize,
        queue_capacity_entries: usize,
        queue_capacity_bytes: usize,
        read_concurrency: usize,
    ) -> (state: EngineState)
        ensures
            state.wf(),
            state.capacity == capacity,
            state.extent_size == extent_size,
            state.queue@ == (QueueModel {
                capacity_entries: queue_capacity_entries,
                capacity_bytes: queue_capacity_bytes,
                pending_entries: 0,
                pending_bytes: 0,
            }),
            state.read_limiter@.limit == read_concurrency,
            state.read_limiter@.active == 0,
            state.stats.writes == no_engine_writes(),
            state.stats.reads == no_engine_reads(),
            state.background_error@ is None,
            state.close_state is Open,
    {
        EngineState {
            capacity,
            extent_size,
            queue: SubmissionQueue::new(queue_capacity_entries, queue_capacity_bytes),
            read_limiter: ReadLimiter::new(read_concurrency),
            stats: EngineStats::new(),
            background_error: BackgroundError::new(),
            close_state: CloseState::Open,
        }
    }

    /// What the engine reports of its space. Where the space in use is not known, or no
    /// size in memory, all of it counts as used.
    pub fn storage_usage(&self, allocated: Option<u64>) -> (usage: StorageUsage)
        ensures
            usage.capacity == self.capacity,
            usage.allocated == allocated_of(allocated, self.capacity),
    {
        let allocated: usize = match allocated {
            Some(bytes) => if bytes <= usize::MAX as u64 {
                bytes as usize
            } else {
                self.capacity
            },
            None => self.capacity,
        };
        StorageUsage { capacity: self.capacity, allocated }
    }

    /// What a first look at a write says.
    pub open spec fn looks(self, estimated_size: usize) -> FilterResult {
        if !self.available() {
            FilterResult::Unavailable
        } else if estimated_size > self.queue@.capacity_bytes || self.queue@.pending_entries
            >= self.queue@.capacity_entries || self.queue@.pending_bytes >= self.queue@.capacity_bytes {
            FilterResult::Overflow
        } else {
            FilterResult::Admit
        }
    }

    /// A first look at a write, before its priority is known: only the hard bounds count.
    pub fn filter(&mut self, estimated_size: usize) -> (result: FilterResult)
        ensures
            result == old(self).looks(estimated_size),
            *final(self) == (if result is Admit {
                *old(self)
            } else {
                old(self).with_stats(old(self).stats.with_dropped())
            }),
    {
        if !self.is_available() {
            self.stats.record_dropped_command();
            return FilterResult::Unavailable;
        }
        if estimated_size > self.queue.capacity_bytes() || self.queue.pending_entries()
            >= self.queue.capacity_entries() || self.queue.pending_bytes() >= self.queue.capacity_bytes() {
            self.stats.record_dropped_command();
            return FilterResult::Overflow;
        }
        FilterResult::Admit
    }

    fn is_available(&self) -> (available: bool)
        ensures
            available == self.available(),
    {
        self.close_state == CloseState::Open && !self.background_error.is_failed()
    }

    /// What submitting a command of this charge and priority does.
    pub open spec fn submits(self, charge: usize, priority: CachePriority, after: EngineState, result: Submission) -> bool {
        if !self.available() {
            result is Unavailable && after == self.with_stats(self.stats.with_dropped())
        } else if sheds(self.queue@, self.read_limiter@.active > 0, priority) {
            result is Shed && after == self.with_stats(self.stats.with_shed(priority))
        } else if !self.queue@.has_room(charge) {
            &&& result is Overflow
            &&& after.queue@ == self.queue@
            &&& after == (EngineState {
                queue: after.queue,
                stats: if priority is High {
                    self.stats.with_shed(CachePriority::High)
                } else {
                    self.stats.with_dropped()
                },
                ..self
            })
        } else {
            &&& result matches Submission::Reserved(reservation) && reservation.charge() == charge
            &&& after.queue@ == self.queue@.reserved(charge)
            &&& after == (EngineState { queue: after.queue, ..self })
        }
    }

    /// Reserves the budget of a command, unless the command is refused.
    pub fn try_send(&mut self, charge: usize, priority: CachePriority) -> (result: Submission)
        requires
            old(self).wf(),
        ensures
            final(self).wf(),
            old(self).submits(charge, priority, *final(self), result),
    {
        if !self.is_available() {
            self.stats.record_dropped_command();
            return Submission::Unavailable;
        }
        if should_shed(&self.queue, self.read_limiter.active() > 0, priority) {
            self.stats.record_shed_command(priority);
            return Submission::Shed;
        }
        match self.queue.try_reserve(charge) {
            Some(reservation) => Submission::Reserved(reservation),
            None => {
                match priority {
                    CachePriority::High => self.stats.record_shed_command(priority),
                    _ => self.stats.record_dropped_command(),
                }
                Submission::Overflow
            },
        }
    }

    /// Submits an entry to be written.
    pub fn enqueue(&mut self, key_len: usize, value_len: usize, priority: CachePriority, estimated_size: usize) -> (result:
        Submission)
        requires
            old(self).wf(),
        ensures
            final(self).wf(),
            old(self).takes_put(key_len, value_len, priority, estimated_size, *final(self), result),
    {
        if !lengths_accepted(key_len, value_len, self.extent_size) {
            self.stats.record_dropped_command();
            return Submission::Invalid;
        }
        self.try_send(estimated_size, priority)
    }

    /// What submitting a delete of this charge does: it is never shed, and the hard bounds
    /// do not hold it.
    pub open spec fn submits_delete(self, charge: usize, after: EngineState, result: Submission) -> bool {
        if !self.available() {
            result is Unavailable && after == self.with_stats(self.stats.with_dropped())
        } else if !self.queue@.can_count(charge) {
            &&& result is Overflow
            &&& after.queue@ == self.queue@
            &&& after == (EngineState {
                queue: after.queue,
                stats: self.stats.with_shed(CachePriority::High),
                ..self
            })
        } else {
            &&& result matches Submission::Reserved(reservation) && reservation.charge() == charge
            &&& after.queue@ == self.queue@.reserved(charge)
            &&& after == (EngineState { queue: after.queue, ..self })
        }
    }

    /// What comes of a put.
    pub open spec fn takes_put(
        self,
        key_len: usize,
        value_len: usize,
        priority: CachePriority,
        estimated_size: usize,
        after: EngineState,
        result: Submission,
    ) -> bool {
        if accepts_lengths(key_len as nat, value_len as nat, self.extent_size) {
            self.submits(estimated_size, priority, after, result)
        } else {
            result is Invalid && after == self.with_stats(self.stats.with_dropped())
        }
    }

    /// What comes of a delete.
    pub open spec fn takes_delete(self, key_len: usize, after: EngineState, result: Submission) -> bool {
        if 0 < key_len <= MAX_KEY_SIZE {
            self.submits_delete(key_len, after, result)
        } else {
            result is Invalid && after == self
        }
    }

    /// Submits a key to be removed. A key of an invalid length names no entry. Deletes may
    /// overcommit the queue: an entry that a full queue kept alive would be stale.
    pub fn delete(&mut self, key_len: usize) -> (result: Submission)
        requires
            old(self).wf(),
        ensures
            final(self).wf(),
            old(self).takes_delete(key_len, *final(self), result),
    {
        if key_len == 0 || key_len > MAX_KEY_SIZE {
            return Submission::Invalid;
        }
        if !self.is_available() {
            self.stats.record_dropped_command();
            return Submission::Unavailable;
        }
        match self.queue.try_overcommit(key_len) {
            Some(reservation) => Submission::Reserved(reservation),
            None => {
                self.stats.record_shed_command(CachePriority::High);
                Submission::Overflow
            },
        }
    }

    /// A command with a reservation entered the queue.
    pub fn delivered(&mut self)
        requires
            old(self).wf(),
        ensures
            final(self).wf(),
            *final(self) == old(self).with_stats(old(self).stats.with_accepted()),
    {
        self.stats.record_accepted_command();
    }

    /// A command with a reservation could not enter the queue.
    pub fn undelivered(&mut self, reservation: QueueReservation)
        requires
            old(self).wf(),
            old(self).queue@.holds(reservation.charge()),
        ensures
            final(self).wf(),
            final(self).queue@ == old(self).queue@.released(reservation.charge()),
            *final(self) == (EngineState {
                queue: final(self).queue,
                stats: old(self).stats.with_dropped(),
                ..*old(self)
            }),
    {
        self.stats.record_dropped_command();
        self.queue.release(reservation);
    }

    /// A command left the pipeline.
    pub fn finished(&mut self, reservation: QueueReservation)
        requires
            old(self).wf(),
            old(self).queue@.holds(reservation.charge()),
        ensures
            final(self).wf(),
            final(self).queue@ == old(self).queue@.released(reservation.charge()),
            *final(self) == (EngineState { queue: final(self).queue, ..*old(self) }),
    {
        self.queue.release(reservation);
    }

    /// Whether the engine may hold an entry. Only a digest of the complete key could tell,
    /// so an open engine never says no.
    pub fn may_contains(&self) -> (may: bool)
        ensures
            may == (self.close_state is Open),
    {
        self.close_state == CloseState::Open
    }

    /// What a lookup starts with.
    pub open spec fn starts_load(self, key: Seq<u8>, read_delay: u128, result: Result<LoadStart, EngineError>) -> bool {
        match result {
            Err(error) => !(self.close_state is Open) && engine_error(
                error,
                EngineErrorKind::Closed,
                "load from a closed ExtentEngine"@,
            ),
            Ok(start) => self.close_state is Open && (if read_delay != 0 {
                start is Throttled
            } else if !valid_key(key) {
                start is Miss
            } else {
                start matches LoadStart::Lookup(entry_key) && entry_key@ == key
            }),
        }
    }

    /// Starts a lookup. `read_delay` is how long the read budget is overdrawn.
    pub fn load_start(&self, key: &[u8], read_delay: u128) -> (result: Result<LoadStart, EngineError>)
        ensures
            self.starts_load(key@, read_delay, result),
    {
        if self.close_state != CloseState::Open {
            return Err(failure(EngineErrorKind::Closed, "load from a closed ExtentEngine"));
        }
        if read_delay != 0 {
            return Ok(LoadStart::Throttled);
        }
        match EntryKey::new(key) {
            Ok(entry_key) => Ok(LoadStart::Lookup(entry_key)),
            Err(_) => Ok(LoadStart::Miss),
        }
    }

    /// What a lookup of memory is followed by.
    pub open spec fn goes_on_loading(self, prepared: PreparedGet, after: EngineState, step: LoadStep) -> bool {
        &&& after == (EngineState { read_limiter: after.read_limiter, ..self })
        &&& if prepared is Miss {
            step is Miss && after == self
        } else if self.read_limiter@.active < self.read_limiter@.limit {
            step is Read && after.read_limiter@ == self.read_limiter@.acquired()
        } else {
            step is Throttled && after.read_limiter@ == self.read_limiter@
        }
    }

    /// Goes on after memory was looked at: a miss takes no permit, and without a permit
    /// nothing is read.
    pub fn load_step(&mut self, prepared: &PreparedGet) -> (step: LoadStep)
        requires
            old(self).wf(),
        ensures
            final(self).wf(),
            old(self).goes_on_loading(*prepared, *final(self), step),
    {
        if let PreparedGet::Miss = prepared {
            return LoadStep::Miss;
        }
        match self.read_limiter.try_acquire() {
            Some(permit) => LoadStep::Read(permit),
            None => LoadStep::Throttled,
        }
    }

    /// Ends a physical read.
    pub fn read_finished(&mut self, permit: ReadPermit)
        requires
            old(self).wf(),
            old(self).read_limiter@.active > 0,
        ensures
            final(self).wf(),
            final(self).read_limiter@ == old(self).read_limiter@.released(),
            *final(self) == (EngineState { read_limiter: final(self).read_limiter, ..*old(self) }),
    {
        self.read_limiter.release(permit);
    }

    /// Starts to close the engine.
    pub fn close(&mut self) -> (step: CloseStep)
        ensures
            step == closing(old(self).close_state).0,
            *final(self) == (EngineState { close_state: closing(old(self).close_state).1, ..*old(self) }),
    {
        match self.close_state {
            CloseState::Open => {
                self.close_state = CloseState::Closing;
                CloseStep::Shutdown
            },
            CloseState::Closing => CloseStep::Wait,
            CloseState::Closed => CloseStep::Closed,
        }
    }

    /// The worker has stopped.
    pub fn closed(&mut self)
        ensures
            *final(self) == (EngineState { close_state: CloseState::Closed, ..*old(self) }),
    {
        self.close_state = CloseState::Closed;
    }

    /// What a close reports once it is over: the first failure of the background work.
    pub fn close_result(&self) -> (result: Result<(), EngineError>)
        ensures
            match result {
                Ok(_) => self.background_error@ is None,
                Err(error) => self.background_error@ is Some && engine_error(
                    error,
                    EngineErrorKind::External,
                    self.background_error@->0,
                ),
            },
    {
        match self.background_error.message() {
            Some(message) => Err(EngineError { kind: EngineErrorKind::External, message }),
            None => Ok(()),
        }
    }

    /// The engine cannot be cleared while it runs.
    pub fn destroy(&self) -> (result: Result<(), EngineError>)
        ensures
            result matches Err(error) && engine_error(
                error,
                EngineErrorKind::External,
                "online clear is not implemented by ExtentEngine"@,
            ),
    {
        Err(failure(EngineErrorKind::External, "online clear is not implemented by ExtentEngine"))
    }
}

/// What a lookup that went to disk comes to.
pub fn load_result(loaded: GetResult) -> (value: Option<EngineValue>)
    requires
        loaded.value is Some ==> loaded.priority is Some && loaded.value->0@.len() > 0,
    ensures
        match loaded.value {
            None => value is None,
            Some(bytes) => value matches Some(value) && value.value_bytes() == bytes@ && value.rank()
                == loaded.priority->0,
        },
{
    match loaded.value {
        None => None,
        Some(bytes) => {
            let priority = match loaded.priority {
                Some(priority) => priority,
                None => return None,
            };
            match EngineValue::new(bytes_from_vec(bytes), priority) {
                Ok(value) => Some(value),
                Err(_) => None,
            }
        },
    }
}

/// Puts are bounded: whatever deletes overcommitted, an accepted put leaves the queue
/// within its bounds. Deletes may overcommit: an engine that takes commands refuses none
/// that it can count.
pub proof fn law_puts_are_bounded_and_deletes_may_overcommit(
    before: EngineState,
    charge: usize,
    priority: CachePriority,
    after_put: EngineState,
    put: Submission,
    after_delete: EngineState,
    delete: Submission,
)
    requires
        before.submits(charge, priority, after_put, put),
        before.submits_delete(charge, after_delete, delete),
    ensures
        put is Reserved ==> after_put.queue@.bounded(),
        put is Reserved ==> delete is Reserved && after_delete.queue@ == after_put.queue@,
        before.available() && before.queue@.can_count(charge) ==> delete is Reserved,
{
}

/// Once an engine starts to close it takes no more commands, and neither does one whose
/// background work has failed.
pub proof fn law_closed_engines_take_no_commands(
    before: EngineState,
    charge: usize,
    priority: CachePriority,
    after: EngineState,
    result: Submission,
)
    requires
        !(before.close_state is Open) || before.background_error@ is Some,
        before.submits(charge, priority, after, result) || before.submits_delete(charge, after, result),
    ensures
        result is Unavailable,
        after.queue == before.queue,
        after.stats == before.stats.with_dropped(),
{
}

/// Every refused command is counted as dropped exactly once, and no refused command
/// keeps any budget.
pub proof fn law_refused_commands_are_counted_once(
    before: EngineState,
    charge: usize,
    priority: CachePriority,
    after: EngineState,
    result: Submission,
)
    requires
        before.submits(charge, priority, after, result) || before.submits_delete(charge, after, result),
    ensures
        !(result is Reserved) ==> after.queue@ == before.queue@,
        after.stats.writes.dropped_commands == if result is Reserved {
            before.stats.writes.dropped_commands
        } else {
            before.stats.writes.dropped_commands.wrapping_add(1)
        },
        after.stats.writes.accepted_commands == before.stats.writes.accepted_commands,
{
}

/// In numbers: a low put is shed from a quarter of the queue on while reads are active, and
/// from half of it on without; a normal one from half of it on while reads are active, and
/// from three quarters on without; a high one never. An empty queue sheds nothing, and
/// commands and bytes count alike.
pub proof fn law_puts_are_shed_by_fill_and_reads(
    before: EngineState,
    charge: usize,
    priority: CachePriority,
    after: EngineState,
    result: Submission,
)
    requires
        before.available(),
        before.submits(charge, priority, after, result),
    ensures
        ({
            let queue = before.queue@;
            let entries = queue.pending_entries as int;
            let bytes = queue.pending_bytes as int;
            let reading = before.read_limiter@.active > 0;
            let full = |pending: int, capacity: int| pending >= 1 && match priority {
                CachePriority::Low => if reading {
                    pending >= capacity / 4
                } else {
                    pending >= capacity / 2
                },
                CachePriority::Normal => if reading {
                    pending >= capacity / 2
                } else if capacity * 3 <= usize::MAX {
                    pending >= capacity * 3 / 4
                } else {
                    pending >= capacity / 4 * 3
                },
                CachePriority::High => false,
            };
            result is Shed <==> full(entries, queue.capacity_entries as int) || full(
                bytes,
                queue.capacity_bytes as int,
            )
        }),
{
    let queue = before.queue@;
    lemma_threshold_values(queue.capacity_entries);
    lemma_threshold_values(queue.capacity_bytes);
}

proof fn lemma_threshold_values(capacity: usize)
    ensures
        threshold(capacity, 1, 4) == if capacity / 4 < 1 {
            1int
        } else {
            capacity as int / 4
        },
        threshold(capacity, 1, 2) == if capacity / 2 < 1 {
            1int
        } else {
            capacity as int / 2
        },
{
    assert(capacity as nat * 1nat == capacity as nat);
}

/// Reads make a difference: for every queue of four commands or more there is a fill at
/// which a normal put is shed with reads active and taken without, and one at which a low
/// put is.
pub proof fn law_reads_make_puts_yield(capacity: usize)
    requires
        capacity >= 4,
    ensures
        ({
            let half = QueueModel {
                capacity_entries: capacity,
                capacity_bytes: capacity,
                pending_entries: (capacity / 2) as usize,
                pending_bytes: 0,
            };
            let quarter = QueueModel { pending_entries: (capacity / 4) as usize, ..half };
            &&& sheds(half, true, CachePriority::Normal)
            &&& !sheds(half, false, CachePriority::Normal)
            &&& sheds(quarter, true, CachePriority::Low)
            &&& !sheds(quarter, false, CachePriority::Low)
            &&& !sheds(quarter, true, CachePriority::Normal)
        }),
{
    lemma_threshold_values(capacity);
    assert(capacity / 4 < capacity / 2);
    if capacity * 3 <= usize::MAX {
        assert(capacity * 3 / 4 > capacity / 2);
    } else {
        assert(capacity / 4 * 3 > capacity / 2);
    }
}

/// Exactly one caller shuts the engine down: the first one to close an open engine. Others
/// wait until that one is done, and later ones find it closed.
pub proof fn law_one_caller_shuts_the_engine_down(state: CloseState)
    ensures
        closing(state).0 is Shutdown <==> state is Open,
        closing(state).0 is Wait <==> state is Closing,
        closing(state).0 is Closed <==> state is Closed,
        !(closing(state).1 is Open),
        closing(closing(state).1).0 != CloseStep::Shutdown,
        state is Closed ==> closing(state).1 is Closed,
        state is Open ==> closing(state).1 is Closing,
{
}

/// A first look refuses a write exactly where the engine takes none, where it could never
/// fit, or where the queue is already at a bound.
pub proof fn law_a_first_look_refuses_only_what_cannot_fit(state: EngineState, estimated_size: usize)
    ensures
        state.looks(estimated_size) is Unavailable <==> !(state.close_state is Open) || state.background_error@
            is Some,
        state.looks(estimated_size) is Admit ==> estimated_size <= state.queue@.capacity_bytes
            && state.queue@.pending_entries < state.queue@.capacity_entries && state.queue@.pending_bytes
            < state.queue@.capacity_bytes,
        state.close_state is Open && state.background_error@ is None && estimated_size <= state.queue@.capacity_bytes
            && state.queue@.pending_entries < state.queue@.capacity_entries && state.queue@.pending_bytes
            < state.queue@.capacity_bytes ==> state.looks(estimated_size) is Admit,
{
}

/// An entry is submitted only where it can be stored: its key and its value hold something,
/// the key is no longer than a key may be, and the stored entry of sixteen bytes and both
/// fits an extent.
pub proof fn law_only_storable_lengths_are_accepted(key_len: nat, value_len: nat, extent_size: usize)
    ensures
        accepts_lengths(key_len, value_len, extent_size) <==> 1 <= key_len <= 1024 && 1 <= value_len && 16 + key_len
            + value_len <= extent_size && 16 + key_len + value_len <= 0xffff_ffff,
{
}

/// A lookup on a closed engine fails; on an open one it is throttled exactly while the read
/// budget is overdrawn, misses where its key could not have been stored, and else looks its
/// own key up.
pub proof fn law_lookups_are_throttled_only_by_their_budget(
    state: EngineState,
    key: Seq<u8>,
    read_delay: u128,
    result: Result<LoadStart, EngineError>,
)
    requires
        state.starts_load(key, read_delay, result),
    ensures
        result is Err <==> !(state.close_state is Open),
        state.close_state is Open ==> (result matches Ok(start) && (start is Throttled <==> read_delay > 0)),
        state.close_state is Open && read_delay == 0 ==> (result matches Ok(start) && (start is Miss <==> key.len() == 0
            || key.len() > 1024)),
        result matches Ok(LoadStart::Lookup(found)) ==> found@ == key,
{
}

/// A lookup that memory answers with a miss takes no permit; any other is read exactly
/// where fewer reads are active than may be, and takes one.
pub proof fn law_reads_take_a_permit_each(state: EngineState, prepared: PreparedGet, after: EngineState, step: LoadStep)
    requires
        state.goes_on_loading(prepared, after, step),
    ensures
        step is Miss <==> prepared is Miss,
        step is Read <==> !(prepared is Miss) && state.read_limiter@.active < state.read_limiter@.limit,
        step is Read ==> after.read_limiter@.active == state.read_limiter@.active + 1,
        !(step is Read) ==> after.read_limiter@.active == state.read_limiter@.active,
        after.read_limiter@.limit == state.read_limiter@.limit,
        after.queue == state.queue,
        after.stats == state.stats,
        after.close_state == state.close_state,
{
}

/// A delete is invalid exactly where its key could name no entry, and then leaves no trace.
/// Any other is turned away only by a closed or failed engine or where the queue can count
/// no more: a full queue takes it, and it is charged for its key.
pub proof fn law_deletes_are_taken_by_a_full_queue(state: EngineState, key_len: usize, after: EngineState, result: Submission)
    requires
        state.takes_delete(key_len, after, result),
    ensures
        result is Invalid <==> key_len == 0 || key_len > 1024,
        result is Invalid ==> after == state,
        1 <= key_len <= 1024 ==> (result is Unavailable <==> !state.available()),
        1 <= key_len <= 1024 && state.available() ==> (result is Overflow <==> !state.queue@.can_count(key_len)),
        result matches Submission::Reserved(reservation) ==> reservation.charge() == key_len && after.stats
            == state.stats,
        !(result is Reserved) ==> after.queue@ == state.queue@,
{
}

/// A put is invalid exactly where it could not be stored, and is then counted as dropped and
/// as nothing else.
pub proof fn law_invalid_puts_are_dropped(
    state: EngineState,
    key_len: usize,
    value_len: usize,
    priority: CachePriority,
    estimated_size: usize,
    after: EngineState,
    result: Submission,
)
    requires
        state.takes_put(key_len, value_len, priority, estimated_size, after, result),
        !accepts_lengths(key_len as nat, value_len as nat, state.extent_size),
        state.stats.writes.dropped_commands < u64::MAX,
    ensures
        result is Invalid,
        after.stats.writes.dropped_commands == state.stats.writes.dropped_commands + 1,
        after.queue == state.queue,
        after.read_limiter == state.read_limiter,
        after.close_state == state.close_state,
{
}

/// What is known to be allocated is reported as it is, and the whole capacity where nothing
/// is known.
pub proof fn law_usage_is_reported_where_it_is_known(allocated: Option<u64>, capacity: usize)
    ensures
        allocated is None ==> allocated_of(allocated, capacity) == capacity,
        allocated matches Some(bytes) ==> (bytes <= usize::MAX ==> allocated_of(allocated, capacity) == bytes),
        allocated matches Some(bytes) ==> (bytes > usize::MAX ==> allocated_of(allocated, capacity) == capacity),
{
}

} // verus!
