//! The publication order and the durability frontier that follows it.
//!
//! Publications advance one epoch. A worker captures the newest epoch while no mutation
//! runs, and writes it while mutations go on. A failure is final. The coordinator holds
//! the epochs and decides; whoever shares it among threads holds the lock, sleeps, wakes
//! and performs the writes.

use vstd::prelude::*;

use crate::error::Error;

verus! {

/// Snapshot of the publication and recovery frontiers.
#[derive(Debug, Clone, Copy, PartialEq, Eq, Structural)]
pub struct CheckpointStats {
    pub published_epoch: u64,
    pub requested_epoch: u64,
    pub durable_epoch: u64,
    pub in_flight_epoch: Option<u64>,
    pub dirty_bytes: usize,
    pub failed: bool,
}

impl Default for CheckpointStats {
    fn default() -> (stats: CheckpointStats)
        ensures
            stats == (CheckpointStats {
                published_epoch: 0,
                requested_epoch: 0,
                durable_epoch: 0,
                in_flight_epoch: None,
                dirty_bytes: 0,
                failed: false,
            }),
    {
        CheckpointStats {
            published_epoch: 0,
            requested_epoch: 0,
            durable_epoch: 0,
            in_flight_epoch: None,
            dirty_bytes: 0,
            failed: false,
        }
    }
}

/// What the worker does next.
#[derive(Debug, Clone, Copy, PartialEq, Eq, Structural)]
pub enum WorkerStep {
    /// Nothing is asked for.
    Wait,
    /// There is nothing left to do, or no use in going on.
    Exit,
    /// Capture the newest epoch once no mutation runs.
    Capture,
}

/// What follows once the allocator image of an epoch was written, or was not.
#[derive(Debug, Clone, Copy, PartialEq, Eq, Structural)]
pub enum EpochStep {
    AbortIndex,
    PersistIndex,
    Done,
}

/// Publications and checkpoints.
#[derive(Debug)]
pub struct CheckpointCoordinator {
    pub published_epoch: u64,
    pub dirty_bytes: usize,
    pub requested_epoch: u64,
    pub durable_epoch: u64,
    pub in_flight_epoch: Option<u64>,
    pub error: Option<String>,
    pub shutdown: bool,
}

/// `result` fails with the error of the checkpoint that failed.
pub open spec fn reports<T>(result: Result<T, Error>, message: Seq<char>) -> bool {
    result matches Err(Error::CheckpointFailed(text)) && text@ == message
}

impl CheckpointCoordinator {
    /// What is durable was published, and an epoch in flight is newer than what is durable.
    pub open spec fn wf(self) -> bool {
        &&& self.durable_epoch <= self.published_epoch
        &&& self.requested_epoch <= self.published_epoch
        &&& self.in_flight_epoch matches Some(epoch) ==> self.durable_epoch < epoch <= self.published_epoch
    }

    /// What recording a publication of `bytes` bytes does.
    pub open spec fn publishes(self, bytes: usize, after: CheckpointCoordinator, result: Result<u64, Error>) -> bool {
        match self.error {
            Some(message) => reports(result, message@) && after == self,
            None => if bytes == 0 {
                result == Ok::<u64, Error>(self.published_epoch) && after == self
            } else if self.published_epoch == u64::MAX {
                reports(result, "publication epoch is exhausted"@) && after == self
            } else {
                &&& result == Ok::<u64, Error>((self.published_epoch + 1) as u64)
                &&& after == (CheckpointCoordinator {
                    published_epoch: (self.published_epoch + 1) as u64,
                    dirty_bytes: self.dirty_bytes.wrapping_add(bytes),
                    ..self
                })
            },
        }
    }

    /// What asking for an epoch does.
    pub open spec fn requests(self, epoch: u64, after: CheckpointCoordinator, result: Result<(), Error>) -> bool {
        match self.error {
            Some(message) => reports(result, message@) && after == self,
            None => result is Ok && after == (CheckpointCoordinator {
                requested_epoch: if epoch > self.requested_epoch {
                    epoch
                } else {
                    self.requested_epoch
                },
                ..self
            }),
        }
    }

    /// What taking an epoch in flight does.
    pub open spec fn captures(self, after: CheckpointCoordinator, epoch: Option<u64>) -> bool {
        if self.error is Some || self.in_flight_epoch is Some || self.durable_epoch >= self.published_epoch {
            epoch is None && after == self
        } else {
            &&& epoch == Some(self.published_epoch)
            &&& after == (CheckpointCoordinator {
                requested_epoch: self.published_epoch,
                in_flight_epoch: Some(self.published_epoch),
                ..self
            })
        }
    }

    /// What the worker does next.
    pub open spec fn next_step(self) -> WorkerStep {
        if self.error is Some {
            WorkerStep::Exit
        } else if self.requested_epoch > self.durable_epoch {
            WorkerStep::Capture
        } else if self.shutdown {
            WorkerStep::Exit
        } else {
            WorkerStep::Wait
        }
    }

    /// A question is answered unless a checkpoint has failed.
    pub open spec fn answers(self, yes: bool, result: Result<bool, Error>) -> bool {
        match self.error {
            Some(message) => reports(result, message@),
            None => result == Ok::<bool, Error>(yes),
        }
    }

    /// What the end of the epoch in flight does.
    pub open spec fn completes(
        self,
        epoch: u64,
        outcome: Result<(), String>,
        after: CheckpointCoordinator,
        result: Result<(), Error>,
    ) -> bool {
        &&& after.in_flight_epoch is None
        &&& after.published_epoch == self.published_epoch
        &&& after.requested_epoch == self.requested_epoch
        &&& after.dirty_bytes == self.dirty_bytes
        &&& after.shutdown == self.shutdown
        &&& match outcome {
            Ok(_) => {
                &&& after.durable_epoch == epoch
                &&& after.error == self.error
                &&& match self.error {
                    Some(message) => reports(result, message@),
                    None => result is Ok,
                }
            },
            Err(failure) => {
                &&& after.durable_epoch == self.durable_epoch
                &&& after.error == Some(failure)
                &&& reports(result, failure@)
            },
        }
    }

    /// Nothing was published yet.
    pub fn new() -> (coordinator: CheckpointCoordinator)
        ensures
            coordinator.wf(),
            coordinator == (CheckpointCoordinator {
                published_epoch: 0,
                dirty_bytes: 0,
                requested_epoch: 0,
                durable_epoch: 0,
                in_flight_epoch: None,
                error: None,
                shutdown: false,
            }),
    {
        CheckpointCoordinator {
            published_epoch: 0,
            dirty_bytes: 0,
            requested_epoch: 0,
            durable_epoch: 0,
            in_flight_epoch: None,
            error: None,
            shutdown: false,
        }
    }

    /// Fails where a checkpoint has failed.
    pub fn ensure_healthy(&self) -> (result: Result<(), Error>)
        ensures
            match self.error {
                Some(message) => reports(result, message@),
                None => result is Ok,
            },
    {
        match &self.error {
            Some(message) => Err(Error::CheckpointFailed(message.clone())),
            None => Ok(()),
        }
    }

    /// Records one publication of `bytes` bytes, and returns its epoch.
    pub fn record_publication(&mut self, bytes: usize) -> (result: Result<u64, Error>)
        requires
            old(self).wf(),
        ensures
            final(self).wf(),
            old(self).publishes(bytes, *final(self), result),
    {
        match self.ensure_healthy() {
            Ok(_) => {},
            Err(error) => return Err(error),
        }
        if bytes == 0 {
            return Ok(self.published_epoch);
        }
        let next = match self.published_epoch.checked_add(1) {
            Some(next) => next,
            None => return Err(Error::CheckpointFailed("publication epoch is exhausted".to_owned())),
        };
        self.published_epoch = next;
        self.dirty_bytes = self.dirty_bytes.wrapping_add(bytes);
        Ok(next)
    }

    /// The bytes published since the last capture.
    pub fn dirty_bytes(&self) -> (bytes: usize)
        ensures
            bytes == self.dirty_bytes,
    {
        self.dirty_bytes
    }

    /// The newest epoch.
    pub fn published_epoch(&self) -> (epoch: u64)
        ensures
            epoch == self.published_epoch,
    {
        self.published_epoch
    }

    /// The frontiers.
    pub fn stats(&self) -> (stats: CheckpointStats)
        ensures
            stats == (CheckpointStats {
                published_epoch: self.published_epoch,
                requested_epoch: self.requested_epoch,
                durable_epoch: self.durable_epoch,
                in_flight_epoch: self.in_flight_epoch,
                dirty_bytes: self.dirty_bytes,
                failed: self.error is Some,
            }),
    {
        CheckpointStats {
            published_epoch: self.published_epoch,
            requested_epoch: self.requested_epoch,
            durable_epoch: self.durable_epoch,
            in_flight_epoch: self.in_flight_epoch,
            dirty_bytes: self.dirty_bytes,
            failed: self.error.is_some(),
        }
    }

    /// Asks the worker to make an epoch durable.
    pub fn request_background(&mut self, epoch: u64) -> (result: Result<(), Error>)
        requires
            old(self).wf(),
            epoch <= old(self).published_epoch,
        ensures
            final(self).wf(),
            old(self).requests(epoch, *final(self), result),
    {
        match self.ensure_healthy() {
            Ok(_) => {},
            Err(error) => return Err(error),
        }
        if epoch > self.requested_epoch {
            self.requested_epoch = epoch;
        }
        Ok(())
    }

    /// Whether no captured epoch is being written. A failure ends the wait.
    pub fn poll_idle(&self) -> (result: Result<bool, Error>)
        ensures
            self.answers(self.in_flight_epoch is None, result),
            result matches Ok(idle) ==> self.error is None && idle == (self.in_flight_epoch is None),
    {
        match self.ensure_healthy() {
            Ok(_) => Ok(self.in_flight_epoch.is_none()),
            Err(error) => Err(error),
        }
    }

    /// Whether an epoch is durable. A failure ends the wait.
    pub fn poll_durable(&self, target: u64) -> (result: Result<bool, Error>)
        ensures
            self.answers(self.durable_epoch >= target, result),
            result matches Ok(durable) ==> self.error is None && durable == (self.durable_epoch >= target),
    {
        match self.ensure_healthy() {
            Ok(_) => Ok(self.durable_epoch >= target),
            Err(error) => Err(error),
        }
    }

    /// Tells the worker to end once nothing is asked for.
    pub fn request_shutdown(&mut self)
        requires
            old(self).wf(),
        ensures
            final(self).wf(),
            *final(self) == (CheckpointCoordinator { shutdown: true, ..*old(self) }),
    {
        self.shutdown = true;
    }

    /// What the worker does next.
    pub fn worker_step(&self) -> (step: WorkerStep)
        ensures
            step == self.next_step(),
            step is Exit && self.error is None ==> self.shutdown && self.durable_epoch >= self.requested_epoch,
            step is Wait ==> !self.shutdown && self.error is None && self.durable_epoch >= self.requested_epoch,
    {
        if self.error.is_some() {
            WorkerStep::Exit
        } else if self.requested_epoch > self.durable_epoch {
            WorkerStep::Capture
        } else if self.shutdown {
            WorkerStep::Exit
        } else {
            WorkerStep::Wait
        }
    }

    /// Takes the newest epoch in flight, while no mutation runs. There is none to take
    /// where a checkpoint failed, another is in flight, or all is durable.
    pub fn begin_capture(&mut self) -> (epoch: Option<u64>)
        requires
            old(self).wf(),
        ensures
            final(self).wf(),
            old(self).captures(*final(self), epoch),
            old(self).error is None && old(self).in_flight_epoch is None && old(self).requested_epoch > old(
                self,
            ).durable_epoch ==> epoch == Some(old(self).published_epoch),
    {
        let target = self.published_epoch;
        if self.error.is_some() || self.in_flight_epoch.is_some() {
            return None;
        }
        if self.durable_epoch >= target {
            return None;
        }
        if target > self.requested_epoch {
            self.requested_epoch = target;
        }
        self.in_flight_epoch = Some(target);
        Some(target)
    }

    /// The epoch in flight was captured: nothing is dirty any more.
    pub fn captured(&mut self)
        requires
            old(self).wf(),
        ensures
            final(self).wf(),
            *final(self) == (CheckpointCoordinator { dirty_bytes: 0, ..*old(self) }),
    {
        self.dirty_bytes = 0;
    }

    /// The epoch in flight was written, or failed with this text.
    pub fn complete(&mut self, epoch: u64, outcome: Result<(), String>) -> (result: Result<(), Error>)
        requires
            old(self).wf(),
            old(self).in_flight_epoch == Some(epoch),
        ensures
            final(self).wf(),
            old(self).completes(epoch, outcome, *final(self), result),
    {
        self.in_flight_epoch = None;
        match outcome {
            Ok(_) => {
                if epoch > self.durable_epoch {
                    self.durable_epoch = epoch;
                }
            },
            Err(failure) => {
                self.error = Some(failure);
            },
        }
        self.ensure_healthy()
    }
}

/// What follows once the allocator image of an epoch was written, or was not.
pub open spec fn epoch_step(allocator_written: bool, index_captured: bool) -> EpochStep {
    if !index_captured {
        EpochStep::Done
    } else if allocator_written {
        EpochStep::PersistIndex
    } else {
        EpochStep::AbortIndex
    }
}

/// What follows once the allocator image of an epoch was written, or was not: the index is
/// written only after the image, and taken back where the image failed.
pub fn after_allocator(allocator_written: bool, index_captured: bool) -> (step: EpochStep)
    ensures
        step == epoch_step(allocator_written, index_captured),
{
    if !index_captured {
        EpochStep::Done
    } else if allocator_written {
        EpochStep::PersistIndex
    } else {
        EpochStep::AbortIndex
    }
}

/// A checkpoint makes everything durable that was published before its capture.
/// `capturing` is the state at the capture, `writing` a later one at which the epoch is
/// still in flight, whatever was published meanwhile.
pub proof fn law_a_checkpoint_covers_earlier_publications(
    capturing: CheckpointCoordinator,
    captured: CheckpointCoordinator,
    epoch: u64,
    writing: CheckpointCoordinator,
    done: CheckpointCoordinator,
    result: Result<(), Error>,
    earlier: u64,
)
    requires
        capturing.captures(captured, Some(epoch)),
        writing.in_flight_epoch == Some(epoch),
        writing.error is None,
        writing.completes(epoch, Ok(()), done, result),
        earlier <= capturing.published_epoch,
    ensures
        result is Ok,
        done.durable_epoch >= earlier,
        done.in_flight_epoch is None,
        done.published_epoch == writing.published_epoch,
{
}

/// A checkpoint that failed is not forgotten: nothing more is published, requested or
/// captured, and every attempt reports that failure.
pub proof fn law_a_failed_checkpoint_is_retained(
    writing: CheckpointCoordinator,
    epoch: u64,
    failure: String,
    failed: CheckpointCoordinator,
    result: Result<(), Error>,
    bytes: usize,
    after_publication: CheckpointCoordinator,
    published: Result<u64, Error>,
    after_request: CheckpointCoordinator,
    requested: Result<(), Error>,
    after_capture: CheckpointCoordinator,
    captured: Option<u64>,
)
    requires
        writing.completes(epoch, Err(failure), failed, result),
        failed.publishes(bytes, after_publication, published),
        failed.requests(epoch, after_request, requested),
        failed.captures(after_capture, captured),
    ensures
        failed.durable_epoch == writing.durable_epoch,
        reports(result, failure@),
        reports(published, failure@) && after_publication == failed,
        reports(requested, failure@) && after_request == failed,
        captured is None && after_capture == failed,
{
}

/// Progress: where the worker is told to capture and nothing is in flight, there is an
/// epoch to capture, the newest one, in a shutdown as well; and once that is written the
/// worker has nothing left that was asked for.
pub proof fn law_what_is_asked_for_is_captured(
    asked: CheckpointCoordinator,
    capturing: CheckpointCoordinator,
    epoch: Option<u64>,
    done: CheckpointCoordinator,
    result: Result<(), Error>,
)
    requires
        asked.wf(),
        asked.error is None,
        asked.in_flight_epoch is None,
        asked.requested_epoch > asked.durable_epoch,
        asked.captures(capturing, epoch),
        capturing.completes(asked.published_epoch, Ok(()), done, result),
    ensures
        asked.next_step() is Capture,
        epoch == Some(asked.published_epoch),
        capturing.in_flight_epoch == Some(asked.published_epoch),
        capturing.shutdown == asked.shutdown,
        capturing.error is None,
        result is Ok,
        done.durable_epoch == asked.published_epoch,
        done.durable_epoch >= asked.requested_epoch,
        done.next_step() == if asked.shutdown {
            WorkerStep::Exit
        } else {
            WorkerStep::Wait
        },
{
}

/// One step of a coordinator.
pub enum CheckpointEvent {
    Published { bytes: usize, published: Result<u64, Error> },
    Requested { epoch: u64, result: Result<(), Error> },
    ShutDown,
    Began { taken: Option<u64> },
    Captured,
    Completed { epoch: u64, outcome: Result<(), String>, result: Result<(), Error> },
}

/// The event leads from one state to the other.
pub open spec fn leads(before: CheckpointCoordinator, event: CheckpointEvent, after: CheckpointCoordinator) -> bool {
    match event {
        CheckpointEvent::Published { bytes, published } => before.publishes(bytes, after, published),
        CheckpointEvent::Requested { epoch, result } => {
            &&& epoch <= before.published_epoch
            &&& before.requests(epoch, after, result)
        },
        CheckpointEvent::ShutDown => after == (CheckpointCoordinator { shutdown: true, ..before }),
        CheckpointEvent::Began { taken } => before.captures(after, taken),
        CheckpointEvent::Captured => after == (CheckpointCoordinator { dirty_bytes: 0, ..before }),
        CheckpointEvent::Completed { epoch, outcome, result } => {
            &&& before.in_flight_epoch == Some(epoch)
            &&& before.completes(epoch, outcome, after, result)
        },
    }
}

/// Each event leads from the state before it to the one after it.
pub open spec fn course(states: Seq<CheckpointCoordinator>, events: Seq<CheckpointEvent>) -> bool {
    &&& states.len() == events.len() + 1
    &&& forall|i: int| 0 <= i < events.len() ==> leads(states[i], #[trigger] events[i], states[i + 1])
}

/// No frontier ever moves back, a shutdown is never taken back, and a failure is never
/// forgotten, whatever happens.
pub proof fn law_frontiers_only_advance(
    states: Seq<CheckpointCoordinator>,
    events: Seq<CheckpointEvent>,
    i: int,
    j: int,
)
    requires
        course(states, events),
        states[0].wf(),
        0 <= i <= j < states.len(),
    ensures
        states[j].wf(),
        states[i].published_epoch <= states[j].published_epoch,
        states[i].requested_epoch <= states[j].requested_epoch,
        states[i].durable_epoch <= states[j].durable_epoch,
        states[i].shutdown ==> states[j].shutdown,
        states[i].error is Some ==> states[j].error is Some,
    decreases j,
{
    if j > 0 {
        let k = j - 1;
        law_frontiers_only_advance(states, events, if i < j { i } else { 0 }, k);
        assert(leads(states[k], events[k], states[k + 1]));
    }
}

/// Every epoch that was asked for, before or after a shutdown was, is durable before the
/// worker exits without an error, and before it waits.
pub proof fn law_what_was_asked_for_is_durable_before_the_worker_exits(
    states: Seq<CheckpointCoordinator>,
    events: Seq<CheckpointEvent>,
    i: int,
    j: int,
    epoch: u64,
    result: Result<(), Error>,
)
    requires
        course(states, events),
        states[0].wf(),
        0 <= i < j < states.len(),
        events[i] == (CheckpointEvent::Requested { epoch, result }),
        states[j].error is None,
        !(states[j].next_step() is Capture),
    ensures
        result is Ok,
        states[j].durable_epoch >= epoch,
{
    assert(leads(states[i], events[i], states[i + 1]));
    law_frontiers_only_advance(states, events, i, j);
    law_frontiers_only_advance(states, events, i + 1, j);
}

/// Publications are numbered one after the other, each with a number of its own; what is
/// dirty grows by what is published, and a failed or exhausted coordinator takes none.
pub proof fn law_publications_are_numbered_in_order(
    before: CheckpointCoordinator,
    bytes: usize,
    after: CheckpointCoordinator,
    result: Result<u64, Error>,
)
    requires
        before.wf(),
        before.publishes(bytes, after, result),
    ensures
        result matches Ok(epoch) ==> after.published_epoch == epoch && after.error is None,
        result matches Ok(epoch) && bytes > 0 ==> after.published_epoch == before.published_epoch + 1,
        result is Ok && bytes > 0 && before.dirty_bytes + bytes <= usize::MAX ==> after.dirty_bytes
            == before.dirty_bytes + bytes,
        before.error is None && before.published_epoch < u64::MAX ==> result is Ok,
        before.error is Some ==> result is Err,
        result is Err ==> after == before,
        after.requested_epoch == before.requested_epoch,
        after.durable_epoch == before.durable_epoch,
        after.in_flight_epoch == before.in_flight_epoch,
{
}

/// The index is written exactly where it was captured and the allocator image came before
/// it; captured mutations are never dropped: they are written or taken back.
pub proof fn law_the_index_follows_the_allocator_image(allocator_written: bool, index_captured: bool)
    ensures
        epoch_step(allocator_written, index_captured) is PersistIndex <==> allocator_written && index_captured,
        index_captured ==> epoch_step(allocator_written, index_captured) is PersistIndex || epoch_step(
            allocator_written,
            index_captured,
        ) is AbortIndex,
        epoch_step(allocator_written, index_captured) is AbortIndex ==> !allocator_written && index_captured,
{
}

/// Asking raises what is asked for to at least the epoch, and never lowers it; it is refused
/// only after a failure, in a shutdown it is not.
pub proof fn law_asking_is_never_forgotten(
    before: CheckpointCoordinator,
    epoch: u64,
    after: CheckpointCoordinator,
    result: Result<(), Error>,
)
    requires
        before.requests(epoch, after, result),
    ensures
        result is Ok <==> before.error is None,
        result is Ok ==> after.requested_epoch >= epoch && after.requested_epoch >= before.requested_epoch && (
        after.requested_epoch == epoch || after.requested_epoch == before.requested_epoch),
        after.published_epoch == before.published_epoch,
        after.durable_epoch == before.durable_epoch,
        after.in_flight_epoch == before.in_flight_epoch,
        after.dirty_bytes == before.dirty_bytes,
        after.shutdown == before.shutdown,
{
}

/// Nothing is made durable but the epoch that was in flight, and only by a success.
pub proof fn law_only_a_success_makes_durable(
    before: CheckpointCoordinator,
    epoch: u64,
    outcome: Result<(), String>,
    after: CheckpointCoordinator,
    result: Result<(), Error>,
)
    requires
        before.wf(),
        before.in_flight_epoch == Some(epoch),
        before.completes(epoch, outcome, after, result),
    ensures
        outcome is Ok ==> after.durable_epoch == epoch && after.error == before.error,
        outcome is Err ==> after.durable_epoch == before.durable_epoch && after.error is Some && result is Err,
        after.in_flight_epoch is None,
        after.requested_epoch == before.requested_epoch,
        after.published_epoch == before.published_epoch,
        after.shutdown == before.shutdown,
{
}

} // verus!
