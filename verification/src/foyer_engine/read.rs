//! Non-blocking admission of physical reads.

use vstd::prelude::*;

verus! {

/// A limiter that lets at most `limit` physical reads run at a time. A read above the
/// limit is refused at once; it does not wait.
#[derive(Debug, PartialEq, Eq)]
pub struct ReadLimiter {
    limit: usize,
    active: usize,
    report_active: bool,
}

/// The right to one physical read. It is given back with [`ReadLimiter::release`].
#[derive(Debug, PartialEq, Eq)]
pub struct ReadPermit {
    _held: (),
}

/// The numbers of a limiter.
pub struct LimiterModel {
    pub limit: usize,
    pub active: usize,
    pub report_active: bool,
}

impl LimiterModel {
    /// No more reads run than may.
    pub open spec fn bounded(self) -> bool {
        self.active <= self.limit
    }

    /// Whether another read may run.
    pub open spec fn has_room(self) -> bool {
        self.active < self.limit
    }

    /// The limiter with one more read.
    pub open spec fn acquired(self) -> LimiterModel {
        LimiterModel { active: (self.active + 1) as usize, ..self }
    }

    /// The limiter with one read less.
    pub open spec fn released(self) -> LimiterModel {
        LimiterModel { active: (self.active - 1) as usize, ..self }
    }
}

impl View for ReadLimiter {
    type V = LimiterModel;

    closed spec fn view(&self) -> LimiterModel {
        LimiterModel { limit: self.limit, active: self.active, report_active: self.report_active }
    }
}

impl ReadLimiter {
    /// A limiter whose active reads are reported.
    pub fn new(limit: usize) -> (limiter: ReadLimiter)
        ensures
            limiter@ == (LimiterModel { limit, active: 0, report_active: true }),
    {
        ReadLimiter { limit, active: 0, report_active: true }
    }

    /// A separate admission domain, whose active reads are not reported.
    pub fn new_secondary(limit: usize) -> (limiter: ReadLimiter)
        ensures
            limiter@ == (LimiterModel { limit, active: 0, report_active: false }),
    {
        ReadLimiter { limit, active: 0, report_active: false }
    }

    /// The most reads that may run.
    pub fn limit(&self) -> (limit: usize)
        ensures
            limit == self@.limit,
    {
        self.limit
    }

    /// The reads that run.
    pub fn active(&self) -> (active: usize)
        ensures
            active == self@.active,
    {
        self.active
    }

    /// Whether the reads that run are reported.
    pub fn reports_active(&self) -> (reports: bool)
        ensures
            reports == self@.report_active,
    {
        self.report_active
    }

    /// Lets one read in, if fewer than the limit run.
    pub fn try_acquire(&mut self) -> (permit: Option<ReadPermit>)
        ensures
            permit is Some <==> old(self)@.has_room(),
            permit is Some ==> final(self)@ == old(self)@.acquired(),
            permit is None ==> final(self)@ == old(self)@,
    {
        if self.active < self.limit {
            self.active = self.active + 1;
            Some(ReadPermit { _held: () })
        } else {
            None
        }
    }

    /// Ends one read.
    pub fn release(&mut self, permit: ReadPermit)
        requires
            old(self)@.active > 0,
        ensures
            final(self)@ == old(self)@.released(),
    {
        self.active = self.active - 1;
    }
}

/// A read that is let in never takes the limiter past its limit, and its end restores
/// the limiter.
pub proof fn law_active_reads_stay_within_the_limit(limiter: LimiterModel)
    requires
        limiter.active < limiter.limit,
    ensures
        limiter.acquired().bounded(),
        limiter.acquired().active > 0,
        limiter.acquired().released() == limiter,
{
}

/// A read is let in as long as the limit is not reached, and only so long.
pub proof fn law_reads_are_let_in_up_to_the_limit(limiter: LimiterModel)
    ensures
        limiter.has_room() <==> limiter.active + 1 <= limiter.limit,
        limiter.has_room() ==> limiter.acquired().active == limiter.active + 1 && limiter.acquired().limit
            == limiter.limit,
        limiter.active > 0 ==> limiter.released().active + 1 == limiter.active && limiter.released().limit
            == limiter.limit,
{
}

} // verus!
