//! Admission of payload reads and writes.
//!
//! Reads never wait behind writes. A write waits until no read is active, but no longer
//! than the read-priority interval, and until fewer writes are active than may be. The
//! scheduler holds the counts and decides; whoever shares it among threads holds the
//! lock, sleeps and wakes.

use vstd::prelude::*;

use crate::error::{io_failure, IoFailure, IoFailureKind};

verus! {

/// Cumulative admission statistics for payload I/O. Durations are in nanoseconds.
#[derive(Debug, Clone, Copy, PartialEq, Eq, Structural)]
pub struct IoSchedulerStats {
    pub read_priority_nanos: u128,
    pub active_reads: usize,
    pub active_writes: usize,
    pub waiting_writes: usize,
    pub write_operations: u64,
    pub read_priority_waits: u64,
    pub write_limit_waits: u64,
    pub total_write_wait_nanos: u64,
    pub maximum_write_wait_nanos: u64,
}

impl Default for IoSchedulerStats {
    fn default() -> (stats: IoSchedulerStats)
        ensures
            stats == (IoSchedulerStats {
                read_priority_nanos: 0,
                active_reads: 0,
                active_writes: 0,
                waiting_writes: 0,
                write_operations: 0,
                read_priority_waits: 0,
                write_limit_waits: 0,
                total_write_wait_nanos: 0,
                maximum_write_wait_nanos: 0,
            }),
    {
        IoSchedulerStats {
            read_priority_nanos: 0,
            active_reads: 0,
            active_writes: 0,
            waiting_writes: 0,
            write_operations: 0,
            read_priority_waits: 0,
            write_limit_waits: 0,
            total_write_wait_nanos: 0,
            maximum_write_wait_nanos: 0,
        }
    }
}

impl IoSchedulerStats {
    /// Whether reads have priority at all.
    pub fn enabled(self) -> (enabled: bool)
        ensures
            enabled == (self.read_priority_nanos != 0),
    {
        self.read_priority_nanos != 0
    }
}

/// Why a write has had to wait so far.
#[derive(Debug, Clone, Copy, PartialEq, Eq, Structural)]
pub struct WriteTicket {
    pub waited_for_reads: bool,
    pub waited_for_limit: bool,
}

/// What a waiting write does next.
#[derive(Debug, Clone, Copy, PartialEq, Eq, Structural)]
pub enum WriteStep {
    Admitted,
    /// Wait for a change, but no longer than this many nanoseconds.
    WaitAtMost(u128),
    /// Wait for a change.
    Wait,
}

/// A cooperative scheduler for payload I/O.
#[derive(Debug)]
pub struct SegmentIoScheduler {
    pub write_concurrency: usize,
    pub read_priority_nanos: u128,
    pub active_writes: usize,
    pub waiting_writes: usize,
    pub active_reads: usize,
    pub write_operations: u64,
    pub read_priority_waits: u64,
    pub write_limit_waits: u64,
    pub total_write_wait_nanos: u64,
    pub maximum_write_wait_nanos: u64,
}

impl SegmentIoScheduler {
    /// No more writes are active than may be.
    pub open spec fn wf(self) -> bool {
        &&& self.write_concurrency > 0
        &&& self.active_writes <= self.write_concurrency
    }

    /// Whether reads have priority; if not, nothing is counted.
    pub open spec fn is_enabled(self) -> bool {
        self.read_priority_nanos != 0
    }

    /// The scheduler once a read has begun.
    pub open spec fn read_begun(self) -> SegmentIoScheduler {
        if self.is_enabled() {
            SegmentIoScheduler { active_reads: (self.active_reads + 1) as usize, ..self }
        } else {
            self
        }
    }

    /// The scheduler once a read has ended.
    pub open spec fn read_ended(self) -> SegmentIoScheduler {
        if self.is_enabled() {
            SegmentIoScheduler { active_reads: (self.active_reads - 1) as usize, ..self }
        } else {
            self
        }
    }

    /// What asking for a write does.
    pub open spec fn lines_up(self, after: SegmentIoScheduler, ticket: Option<WriteTicket>) -> bool {
        if self.is_enabled() {
            &&& ticket == Some(WriteTicket { waited_for_reads: false, waited_for_limit: false })
            &&& after == (SegmentIoScheduler {
                write_operations: self.write_operations.wrapping_add(1),
                waiting_writes: (self.waiting_writes + 1) as usize,
                ..self
            })
        } else {
            ticket is None && after == self
        }
    }

    /// Whether a write that has waited for `elapsed` nanoseconds may begin.
    pub open spec fn admits(self, elapsed: u128) -> bool {
        self.active_writes < self.write_concurrency && (self.active_reads == 0 || elapsed
            >= self.read_priority_nanos)
    }

    /// What a write that has waited for `elapsed` nanoseconds does next.
    pub open spec fn polled(self, elapsed: u128) -> WriteStep {
        if self.admits(elapsed) {
            WriteStep::Admitted
        } else if elapsed < self.read_priority_nanos && self.active_writes < self.write_concurrency {
            WriteStep::WaitAtMost((self.read_priority_nanos - elapsed) as u128)
        } else {
            WriteStep::Wait
        }
    }

    /// Why a write that is not admitted has had to wait by now.
    pub open spec fn noted(self, ticket: WriteTicket, elapsed: u128) -> WriteTicket {
        WriteTicket {
            waited_for_reads: ticket.waited_for_reads || self.active_reads > 0 && elapsed < self.read_priority_nanos,
            waited_for_limit: ticket.waited_for_limit || self.active_writes >= self.write_concurrency,
        }
    }

    /// The scheduler once a write was admitted.
    pub open spec fn admitted(self) -> SegmentIoScheduler {
        SegmentIoScheduler {
            waiting_writes: (self.waiting_writes - 1) as usize,
            active_writes: (self.active_writes + 1) as usize,
            ..self
        }
    }

    /// The counts once an admitted write had waited this long for what the ticket says.
    pub open spec fn waited(self, wait: u128, ticket: WriteTicket) -> SegmentIoScheduler {
        let nanos = if wait > u64::MAX {
            u64::MAX
        } else {
            wait as u64
        };
        let waited = ticket.waited_for_reads || ticket.waited_for_limit;
        SegmentIoScheduler {
            read_priority_waits: if ticket.waited_for_reads {
                self.read_priority_waits.wrapping_add(1)
            } else {
                self.read_priority_waits
            },
            write_limit_waits: if ticket.waited_for_limit {
                self.write_limit_waits.wrapping_add(1)
            } else {
                self.write_limit_waits
            },
            total_write_wait_nanos: if waited {
                self.total_write_wait_nanos.wrapping_add(nanos)
            } else {
                self.total_write_wait_nanos
            },
            maximum_write_wait_nanos: if waited && nanos > self.maximum_write_wait_nanos {
                nanos
            } else {
                self.maximum_write_wait_nanos
            },
            ..self
        }
    }

    /// An idle scheduler.
    pub fn new(write_concurrency: usize, read_priority_nanos: u128) -> (result: Result<
        SegmentIoScheduler,
        IoFailure,
    >)
        ensures
            match result {
                Ok(scheduler) => write_concurrency > 0 && scheduler.wf() && scheduler == (SegmentIoScheduler {
                    write_concurrency,
                    read_priority_nanos,
                    active_writes: 0,
                    waiting_writes: 0,
                    active_reads: 0,
                    write_operations: 0,
                    read_priority_waits: 0,
                    write_limit_waits: 0,
                    total_write_wait_nanos: 0,
                    maximum_write_wait_nanos: 0,
                }),
                Err(failure) => write_concurrency == 0 && io_failure(
                    failure,
                    IoFailureKind::InvalidInput,
                    "Extent write I/O concurrency must be positive"@,
                ),
            },
    {
        if write_concurrency == 0 {
            return Err(
                IoFailure {
                    kind: IoFailureKind::InvalidInput,
                    message: "Extent write I/O concurrency must be positive".to_owned(),
                },
            );
        }
        Ok(
            SegmentIoScheduler {
                write_concurrency,
                read_priority_nanos,
                active_writes: 0,
                waiting_writes: 0,
                active_reads: 0,
                write_operations: 0,
                read_priority_waits: 0,
                write_limit_waits: 0,
                total_write_wait_nanos: 0,
                maximum_write_wait_nanos: 0,
            },
        )
    }

    /// The counts so far.
    pub fn stats(&self) -> (stats: IoSchedulerStats)
        ensures
            stats == (IoSchedulerStats {
                read_priority_nanos: self.read_priority_nanos,
                active_reads: self.active_reads,
                active_writes: self.active_writes,
                waiting_writes: self.waiting_writes,
                write_operations: self.write_operations,
                read_priority_waits: self.read_priority_waits,
                write_limit_waits: self.write_limit_waits,
                total_write_wait_nanos: self.total_write_wait_nanos,
                maximum_write_wait_nanos: self.maximum_write_wait_nanos,
            }),
    {
        IoSchedulerStats {
            read_priority_nanos: self.read_priority_nanos,
            active_reads: self.active_reads,
            active_writes: self.active_writes,
            waiting_writes: self.waiting_writes,
            write_operations: self.write_operations,
            read_priority_waits: self.read_priority_waits,
            write_limit_waits: self.write_limit_waits,
            total_write_wait_nanos: self.total_write_wait_nanos,
            maximum_write_wait_nanos: self.maximum_write_wait_nanos,
        }
    }

    /// A read begins. It is admitted whatever else is going on.
    pub fn acquire_read(&mut self)
        requires
            old(self).active_reads < usize::MAX,
        ensures
            *final(self) == old(self).read_begun(),
    {
        if self.read_priority_nanos == 0 {
            return ;
        }
        self.active_reads = self.active_reads + 1;
    }

    /// A read ends. Returns whether waiting writes should look again.
    pub fn release_read(&mut self) -> (notify: bool)
        requires
            old(self).is_enabled() ==> old(self).active_reads > 0,
        ensures
            *final(self) == old(self).read_ended(),
            notify == (old(self).is_enabled() && old(self).waiting_writes > 0),
    {
        if self.read_priority_nanos == 0 {
            return false;
        }
        self.active_reads = self.active_reads - 1;
        self.waiting_writes > 0
    }

    /// A write asks to begin. Without read priority it need not ask: there is no ticket.
    pub fn request_write(&mut self) -> (ticket: Option<WriteTicket>)
        requires
            old(self).waiting_writes < usize::MAX,
        ensures
            old(self).lines_up(*final(self), ticket),
    {
        if self.read_priority_nanos == 0 {
            return None;
        }
        self.write_operations = self.write_operations.wrapping_add(1);
        self.waiting_writes = self.waiting_writes + 1;
        Some(WriteTicket { waited_for_reads: false, waited_for_limit: false })
    }

    /// A waiting write looks whether it may begin after `elapsed` nanoseconds.
    pub fn poll_write(&mut self, ticket: &mut WriteTicket, elapsed: u128) -> (step: WriteStep)
        requires
            old(self).wf(),
            old(self).waiting_writes > 0,
        ensures
            final(self).wf(),
            step == old(self).polled(elapsed),
            if old(self).admits(elapsed) {
                *final(ticket) == *old(ticket) && *final(self) == old(self).admitted()
            } else {
                *final(ticket) == old(self).noted(*old(ticket), elapsed) && *final(self) == *old(self)
            },
    {
        let admitted = self.active_writes < self.write_concurrency && (self.active_reads == 0 || elapsed
            >= self.read_priority_nanos);
        if admitted {
            self.waiting_writes = self.waiting_writes - 1;
            self.active_writes = self.active_writes + 1;
            return WriteStep::Admitted;
        }
        if self.active_writes >= self.write_concurrency {
            ticket.waited_for_limit = true;
        }
        if self.active_reads > 0 && elapsed < self.read_priority_nanos {
            ticket.waited_for_reads = true;
        }
        if elapsed < self.read_priority_nanos && self.active_writes < self.write_concurrency {
            WriteStep::WaitAtMost(self.read_priority_nanos - elapsed)
        } else {
            WriteStep::Wait
        }
    }

    /// Counts how long an admitted write had to wait, and for what.
    pub fn record_wait(&mut self, wait: u128, ticket: WriteTicket)
        ensures
            *final(self) == old(self).waited(wait, ticket),
    {
        if ticket.waited_for_reads {
            self.read_priority_waits = self.read_priority_waits.wrapping_add(1);
        }
        if ticket.waited_for_limit {
            self.write_limit_waits = self.write_limit_waits.wrapping_add(1);
        }
        if !ticket.waited_for_reads && !ticket.waited_for_limit {
            return ;
        }
        let nanos = if wait > u64::MAX as u128 {
            u64::MAX
        } else {
            wait as u64
        };
        self.total_write_wait_nanos = self.total_write_wait_nanos.wrapping_add(nanos);
        if nanos > self.maximum_write_wait_nanos {
            self.maximum_write_wait_nanos = nanos;
        }
    }

    /// An admitted write ends. Waiting writes should look again.
    pub fn release_write(&mut self)
        requires
            old(self).wf(),
            old(self).active_writes > 0,
        ensures
            final(self).wf(),
            *final(self) == (SegmentIoScheduler {
                active_writes: (old(self).active_writes - 1) as usize,
                ..*old(self)
            }),
    {
        self.active_writes = self.active_writes - 1;
    }

    /// Runs a read on a scheduler that nobody else uses.
    pub fn read<T, E>(&mut self, operation: impl FnOnce() -> Result<T, E>) -> (result: Result<T, E>)
        requires
            old(self).active_reads < usize::MAX,
            operation.requires(()),
        ensures
            operation.ensures((), result),
            *final(self) == *old(self),
    {
        self.acquire_read();
        let result = operation();
        self.release_read();
        result
    }

    /// Runs a write on a scheduler that nobody else uses, where it is admitted at once.
    pub fn write<T, E>(&mut self, operation: impl FnOnce() -> Result<T, E>) -> (result: Result<T, E>)
        requires
            old(self).wf(),
            old(self).admits(0),
            old(self).waiting_writes < usize::MAX,
            operation.requires(()),
        ensures
            operation.ensures((), result),
            *final(self) == (if old(self).is_enabled() {
                SegmentIoScheduler {
                    write_operations: old(self).write_operations.wrapping_add(1),
                    ..*old(self)
                }
            } else {
                *old(self)
            }),
    {
        match self.request_write() {
            Some(mut ticket) => {
                self.poll_write(&mut ticket, 0);
                self.record_wait(0, ticket);
                let result = operation();
                self.release_write();
                result
            },
            None => operation(),
        }
    }
}

/// Sustained reads cannot starve a write: once it has waited for the read-priority
/// interval, only the write limit can hold it back.
pub proof fn law_reads_cannot_starve_a_write(scheduler: SegmentIoScheduler, elapsed: u128)
    requires
        elapsed >= scheduler.read_priority_nanos,
        scheduler.active_writes < scheduler.write_concurrency,
    ensures
        scheduler.admits(elapsed),
{
}

/// Before that interval has passed, a write is admitted only where no read is active.
pub proof fn law_reads_go_first(scheduler: SegmentIoScheduler, elapsed: u128)
    requires
        elapsed < scheduler.read_priority_nanos,
        scheduler.admits(elapsed),
    ensures
        scheduler.active_reads == 0,
        scheduler.active_writes < scheduler.write_concurrency,
{
}

/// A write begins exactly where the write limit has room and no read is active or it has
/// waited for the whole interval. One that waits for reads alone is told to look again
/// exactly when the interval ends, and is then let in if the limit still has room.
pub proof fn law_a_write_waits_no_longer_than_it_must(scheduler: SegmentIoScheduler, elapsed: u128)
    ensures
        scheduler.polled(elapsed) is Admitted <==> scheduler.active_writes < scheduler.write_concurrency && (
        scheduler.active_reads == 0 || elapsed >= scheduler.read_priority_nanos),
        scheduler.polled(elapsed) matches WriteStep::WaitAtMost(nanos) ==> {
            &&& nanos > 0
            &&& elapsed + nanos == scheduler.read_priority_nanos
            &&& scheduler.polled((elapsed + nanos) as u128) is Admitted
            &&& scheduler.active_reads > 0
        },
        scheduler.polled(elapsed) is Wait <==> scheduler.active_writes >= scheduler.write_concurrency,
{
}

/// Admission keeps to the write limit and counts every write once: what waited is active,
/// and what is active ends.
pub proof fn law_admitted_writes_stay_within_the_limit(scheduler: SegmentIoScheduler, elapsed: u128)
    requires
        scheduler.wf(),
        scheduler.waiting_writes > 0,
        scheduler.polled(elapsed) is Admitted,
    ensures
        scheduler.admitted().active_writes <= scheduler.write_concurrency,
        scheduler.admitted().active_writes == scheduler.active_writes + 1,
        scheduler.admitted().waiting_writes + 1 == scheduler.waiting_writes,
        scheduler.admitted().active_reads == scheduler.active_reads,
        scheduler.admitted().write_operations == scheduler.write_operations,
{
}

/// A wait is noted for its cause, once and for all, and counted where there was one; the
/// longest wait is kept.
pub proof fn law_waits_are_counted_by_their_cause(
    scheduler: SegmentIoScheduler,
    ticket: WriteTicket,
    elapsed: u128,
    wait: u128,
)
    requires
        wait <= u64::MAX,
        scheduler.total_write_wait_nanos + wait <= u64::MAX,
        scheduler.read_priority_waits < u64::MAX,
        scheduler.write_limit_waits < u64::MAX,
    ensures
        ({
            let noted = scheduler.noted(ticket, elapsed);
            let after = scheduler.waited(wait, ticket);
            let waited = ticket.waited_for_reads || ticket.waited_for_limit;
            &&& ticket.waited_for_reads ==> noted.waited_for_reads
            &&& ticket.waited_for_limit ==> noted.waited_for_limit
            &&& scheduler.active_writes >= scheduler.write_concurrency ==> noted.waited_for_limit
            &&& scheduler.active_reads > 0 && elapsed < scheduler.read_priority_nanos ==> noted.waited_for_reads
            &&& !ticket.waited_for_reads && noted.waited_for_reads ==> scheduler.active_reads > 0 && elapsed
                < scheduler.read_priority_nanos
            &&& !ticket.waited_for_limit && noted.waited_for_limit ==> scheduler.active_writes
                >= scheduler.write_concurrency
            &&& after.read_priority_waits == scheduler.read_priority_waits + (if ticket.waited_for_reads {
                1int
            } else {
                0int
            })
            &&& after.write_limit_waits == scheduler.write_limit_waits + (if ticket.waited_for_limit {
                1int
            } else {
                0int
            })
            &&& after.total_write_wait_nanos == scheduler.total_write_wait_nanos + (if waited {
                wait as int
            } else {
                0int
            })
            &&& after.maximum_write_wait_nanos >= scheduler.maximum_write_wait_nanos
            &&& waited ==> after.maximum_write_wait_nanos >= wait
            &&& after.maximum_write_wait_nanos == scheduler.maximum_write_wait_nanos || waited
                && after.maximum_write_wait_nanos == wait
            &&& after.active_writes == scheduler.active_writes && after.waiting_writes == scheduler.waiting_writes
        }),
{
}

/// While reads have priority each one is counted from its beginning to its end, and its end
/// takes back what its beginning did; without priority nothing is counted.
pub proof fn law_reads_are_counted_while_they_last(scheduler: SegmentIoScheduler)
    requires
        scheduler.active_reads < usize::MAX,
    ensures
        scheduler.read_priority_nanos > 0 ==> scheduler.read_begun().active_reads == scheduler.active_reads + 1,
        scheduler.read_priority_nanos == 0 ==> scheduler.read_begun() == scheduler,
        scheduler.read_begun().active_writes == scheduler.active_writes,
        scheduler.read_begun().waiting_writes == scheduler.waiting_writes,
        scheduler.read_begun().read_ended() == scheduler,
{
}

/// While reads have priority a write lines up before it begins, and is counted once;
/// without priority it needs no ticket.
pub proof fn law_writes_line_up_behind_reads(
    before: SegmentIoScheduler,
    after: SegmentIoScheduler,
    ticket: Option<WriteTicket>,
)
    requires
        before.waiting_writes < usize::MAX,
        before.write_operations < u64::MAX,
        before.lines_up(after, ticket),
    ensures
        ticket is Some <==> before.read_priority_nanos > 0,
        ticket is Some ==> after.waiting_writes == before.waiting_writes + 1 && after.write_operations
            == before.write_operations + 1,
        ticket matches Some(held) ==> !held.waited_for_reads && !held.waited_for_limit,
        ticket is None ==> after == before,
        after.active_writes == before.active_writes,
        after.active_reads == before.active_reads,
{
}

} // verus!
