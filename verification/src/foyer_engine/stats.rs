//! Engine-level observations that tie the store's work to the cache's statistics.
//!
//! Counters wrap around like the atomic counters that they are reported through.
//! Durations are in nanoseconds.

use vstd::prelude::*;

use crate::model::CachePriority;
use crate::store::index::EntryIndexReadStats;
use crate::store::stats::ReclaimStats;

verus! {

/// How many latency samples are kept.
pub const LATENCY_SAMPLE_CAPACITY: usize = 16_384;

/// Cumulative physical read work.
#[derive(Debug, Clone, Copy, PartialEq, Eq, Structural)]
pub struct EngineReadStats {
    pub calls: u64,
    /// Covering pages of payload, not I/O requests.
    pub data_frames: u64,
    /// Payload read calls after contiguous bytes are coalesced.
    pub data_runs: u64,
    pub data_bytes: u64,
}

/// Nothing counted yet.
pub open spec fn no_engine_reads() -> EngineReadStats {
    EngineReadStats {
        calls: 0,
        data_frames: 0,
        data_runs: 0,
        data_bytes: 0,
    }
}

impl Default for EngineReadStats {
    fn default() -> (stats: EngineReadStats)
        ensures
            stats == no_engine_reads(),
    {
        EngineReadStats {
            calls: 0,
            data_frames: 0,
            data_runs: 0,
            data_bytes: 0,
        }
    }
}

/// Cumulative outcomes at the asynchronous write boundary.
#[derive(Debug, Clone, Copy, PartialEq, Eq, Structural)]
pub struct EngineWriteStats {
    /// Commands accepted by the ordered queue (puts are bounded; deletes may overcommit).
    pub accepted_commands: u64,
    /// Commands shed by admission, validation, close, or an enqueue race.
    pub dropped_commands: u64,
    /// Accepted commands discarded during a bounded graceful shutdown.
    pub shutdown_dropped_commands: u64,
    /// Low-priority commands shed before reaching the hard queue bound.
    pub shed_low_commands: u64,
    /// Normal-priority commands shed before reaching the hard queue bound.
    pub shed_normal_commands: u64,
    /// High-priority commands shed at the hard queue bound.
    pub shed_high_commands: u64,
    /// Accepted commands fully processed by the store.
    pub completed_commands: u64,
    /// Put commands processed but rejected by the store under allocation pressure.
    pub storage_rejected_puts: u64,
    /// Batches fully processed by the store.
    pub completed_batches: u64,
    /// Batches that met a storage failure before publication completed.
    pub failed_batches: u64,
}

/// Nothing counted yet.
pub open spec fn no_engine_writes() -> EngineWriteStats {
    EngineWriteStats {
        accepted_commands: 0,
        dropped_commands: 0,
        shutdown_dropped_commands: 0,
        shed_low_commands: 0,
        shed_normal_commands: 0,
        shed_high_commands: 0,
        completed_commands: 0,
        storage_rejected_puts: 0,
        completed_batches: 0,
        failed_batches: 0,
    }
}

impl Default for EngineWriteStats {
    fn default() -> (stats: EngineWriteStats)
        ensures
            stats == no_engine_writes(),
    {
        EngineWriteStats {
            accepted_commands: 0,
            dropped_commands: 0,
            shutdown_dropped_commands: 0,
            shed_low_commands: 0,
            shed_normal_commands: 0,
            shed_high_commands: 0,
            completed_commands: 0,
            storage_rejected_puts: 0,
            completed_batches: 0,
            failed_batches: 0,
        }
    }
}

/// How much physical I/O the cache's statistics have been told of.
#[derive(Debug, Clone, Copy, PartialEq, Eq, Structural)]
pub struct RecordedIo {
    pub runs: u64,
    pub bytes: u64,
}

impl RecordedIo {
    /// What is in `total` and was not recorded before.
    pub open spec fn remaining(self, total: RecordedIo) -> RecordedIo {
        RecordedIo {
            runs: if total.runs >= self.runs { (total.runs - self.runs) as u64 } else { 0 },
            bytes: if total.bytes >= self.bytes { (total.bytes - self.bytes) as u64 } else { 0 },
        }
    }
}

/// `count`, held at the largest `usize`.
pub open spec fn size_of_count(count: u64) -> usize {
    if count <= usize::MAX {
        count as usize
    } else {
        usize::MAX
    }
}

fn to_size(count: u64) -> (size: usize)
    ensures
        size == size_of_count(count),
{
    if count <= usize::MAX as u64 {
        count as usize
    } else {
        usize::MAX
    }
}

/// Run `run` of `bytes` bytes shared among `runs` runs: the first runs take the
/// bytes that are left over.
pub open spec fn run_size(bytes: nat, runs: nat, run: nat) -> nat {
    bytes / runs + if run < bytes % runs { 1nat } else { 0nat }
}

/// The sum of a list of sizes.
pub open spec fn total(sizes: Seq<usize>) -> nat
    decreases sizes.len(),
{
    if sizes.len() == 0 {
        0
    } else {
        total(sizes.drop_last()) + sizes.last() as nat
    }
}

/// The sizes are those of `bytes` bytes shared among `runs` runs.
pub open spec fn shared_among(sizes: Seq<usize>, bytes: usize, runs: usize) -> bool {
    &&& sizes.len() == runs
    &&& forall|i: int|
        0 <= i < runs ==> #[trigger] sizes[i] == run_size(bytes as nat, runs as nat, i as nat)
}

/// Splits `bytes` bytes that took `runs` I/O requests into the sizes to report, one for
/// each request. Without requests there is nothing to report.
pub fn record_io(bytes: usize, runs: usize) -> (sizes: Vec<usize>)
    ensures
        shared_among(sizes@, bytes, runs),
{
    let mut sizes: Vec<usize> = Vec::new();
    if runs == 0 {
        return sizes;
    }
    let bytes_per_run: usize = bytes / runs;
    let larger_runs: usize = bytes % runs;
    proof {
        vstd::arithmetic::div_mod::lemma_fundamental_div_mod(bytes as int, runs as int);
        assert(larger_runs > 0 ==> bytes_per_run < bytes) by (nonlinear_arith)
            requires
                bytes == runs * bytes_per_run + larger_runs,
                runs >= 1,
                bytes_per_run >= 0,
        ;
    }
    let mut run: usize = 0;
    while run < runs
        invariant
            run <= runs,
            runs > 0,
            sizes@.len() == run,
            bytes_per_run == bytes as nat / runs as nat,
            larger_runs == bytes as nat % runs as nat,
            larger_runs > 0 ==> bytes_per_run < bytes,
            forall|i: int|
                0 <= i < run ==> #[trigger] sizes@[i] == run_size(bytes as nat, runs as nat, i as nat),
        decreases runs - run,
    {
        let size: usize = if run < larger_runs {
            bytes_per_run + 1
        } else {
            bytes_per_run
        };
        sizes.push(size);
        run = run + 1;
    }
    sizes
}

proof fn lemma_prefix_total(sizes: Seq<usize>, bytes: usize, runs: usize, n: nat)
    requires
        runs > 0,
        shared_among(sizes, bytes, runs),
        n <= runs,
    ensures
        total(sizes.take(n as int)) == n * (bytes / runs) + if n < bytes % runs { n as int } else { (bytes % runs) as int },
    decreases n,
{
    let q = bytes / runs;
    if n == 0 {
        assert(sizes.take(0).len() == 0);
        assert(0 * q == 0);
    } else {
        lemma_prefix_total(sizes, bytes, runs, (n - 1) as nat);
        assert(sizes.take(n as int).drop_last() =~= sizes.take(n - 1));
        assert(sizes.take(n as int).last() == sizes[n - 1]);
        assert(n * q == (n - 1) * q + q) by (nonlinear_arith);
    }
}

/// Splitting I/O into runs loses no byte and no run, and no two runs differ by more
/// than one byte.
pub proof fn law_io_runs_preserve_bytes_and_runs(sizes: Seq<usize>, bytes: usize, runs: usize)
    requires
        runs > 0,
        shared_among(sizes, bytes, runs),
    ensures
        sizes.len() == runs,
        total(sizes) == bytes,
        forall|i: int, j: int| 0 <= i < runs && 0 <= j < runs ==> #[trigger] sizes[i] <= #[trigger] sizes[j] + 1,
{
    lemma_prefix_total(sizes, bytes, runs, runs as nat);
    assert(sizes.take(runs as int) =~= sizes);
    vstd::arithmetic::div_mod::lemma_fundamental_div_mod(bytes as int, runs as int);
    assert forall|i: int, j: int| 0 <= i < runs && 0 <= j < runs implies #[trigger] sizes[i] <= #[trigger] sizes[j]
        + 1 by {
        assert(sizes[i] == run_size(bytes as nat, runs as nat, i as nat));
        assert(sizes[j] == run_size(bytes as nat, runs as nat, j as nat));
    }
}

/// A cumulative total that only grows is recorded exactly once, however often it is
/// read.
pub proof fn law_totals_are_recorded_once(recorded: RecordedIo, first: RecordedIo, second: RecordedIo)
    requires
        recorded.runs <= first.runs <= second.runs,
        recorded.bytes <= first.bytes <= second.bytes,
    ensures
        first.remaining(first) == (RecordedIo { runs: 0, bytes: 0 }),
        recorded.remaining(first).runs + first.remaining(second).runs == recorded.remaining(second).runs,
        recorded.remaining(first).bytes + first.remaining(second).bytes == recorded.remaining(second).bytes,
{
}

/// The latest latencies, in a ring.
#[derive(Debug, PartialEq, Eq)]
pub struct LatencySamples {
    values: Vec<u128>,
    next: usize,
}

/// A list without its first sample, where it is one too long.
pub open spec fn latest(samples: Seq<u128>) -> Seq<u128> {
    if samples.len() > LATENCY_SAMPLE_CAPACITY {
        samples.drop_first()
    } else {
        samples
    }
}

/// The samples that are left once all of `added` were recorded, one after the other.
pub open spec fn latest_of_all(samples: Seq<u128>, added: Seq<u128>) -> Seq<u128>
    decreases added.len(),
{
    if added.len() == 0 {
        samples
    } else {
        latest(latest_of_all(samples, added.drop_last()).push(added.last()))
    }
}

/// The samples as they are held and the place of the oldest one, once another is kept: it
/// is added while places are left, and then takes the place of the oldest.
pub open spec fn ring_after(ring: (Seq<u128>, int), value: u128) -> (Seq<u128>, int) {
    if ring.0.len() < LATENCY_SAMPLE_CAPACITY {
        (ring.0.push(value), ring.1)
    } else {
        (ring.0.update(ring.1, value), (ring.1 + 1) % (LATENCY_SAMPLE_CAPACITY as int))
    }
}

/// The same once all of `added` are kept, one after the other.
pub open spec fn ring_after_all(ring: (Seq<u128>, int), added: Seq<u128>) -> (Seq<u128>, int)
    decreases added.len(),
{
    if added.len() == 0 {
        ring
    } else {
        ring_after(ring_after_all(ring, added.drop_last()), added.last())
    }
}

impl LatencySamples {
    pub closed spec fn wf(self) -> bool {
        &&& self.values@.len() <= LATENCY_SAMPLE_CAPACITY
        &&& self.next < LATENCY_SAMPLE_CAPACITY
        &&& self.values@.len() < LATENCY_SAMPLE_CAPACITY ==> self.next == 0
    }

    /// The samples as they are held.
    pub closed spec fn held(self) -> Seq<u128> {
        self.values@
    }

    /// Where the oldest sample is held.
    pub closed spec fn oldest(self) -> int {
        self.next as int
    }

    /// The samples as they are held, and where the oldest one is.
    pub open spec fn ring(self) -> (Seq<u128>, int) {
        (self.held(), self.oldest())
    }

    /// The samples, the oldest first.
    pub open spec fn recent(self) -> Seq<u128> {
        self.held().skip(self.oldest()) + self.held().take(self.oldest())
    }

    /// No samples.
    pub fn new() -> (samples: LatencySamples)
        ensures
            samples.wf(),
            samples.held() == Seq::<u128>::empty(),
            samples.oldest() == 0,
            samples.recent() == Seq::<u128>::empty(),
    {
        let samples = LatencySamples { values: Vec::new(), next: 0 };
        assert(samples.recent() =~= Seq::<u128>::empty());
        assert(samples.held() =~= Seq::<u128>::empty());
        samples
    }

    /// Keeps a sample, in the place of the oldest one where all places are taken.
    pub fn record(&mut self, value: u128)
        requires
            old(self).wf(),
        ensures
            final(self).wf(),
            final(self).ring() == ring_after(old(self).ring(), value),
            final(self).recent() == latest(old(self).recent().push(value)),
    {
        if self.values.len() < LATENCY_SAMPLE_CAPACITY {
            self.values.push(value);
        } else {
            let place: usize = self.next;
            self.values.set(place, value);
            self.next = if place + 1 == LATENCY_SAMPLE_CAPACITY {
                0
            } else {
                place + 1
            };
        }
        assert(self.recent() =~= latest(old(self).recent().push(value)));
    }

    /// The samples as they are held.
    pub fn snapshot(&self) -> (samples: Vec<u128>)
        ensures
            samples@ == self.held(),
    {
        let mut samples: Vec<u128> = Vec::new();
        let mut i: usize = 0;
        while i < self.values.len()
            invariant
                i <= self.values@.len(),
                samples@ == self.values@.take(i as int),
            decreases self.values@.len() - i,
        {
            samples.push(self.values[i]);
            i = i + 1;
            assert(samples@ =~= self.values@.take(i as int));
        }
        assert(samples@ =~= self.values@);
        samples
    }
}

/// Engine-level counters.
#[derive(Debug)]
pub struct EngineStats {
    pub reclaim: ReclaimStats,
    pub reads: EngineReadStats,
    pub writes: EngineWriteStats,
    pub recorded_writes: RecordedIo,
    pub recorded_index_reads: RecordedIo,
    pub write_batches: LatencySamples,
    pub write_publications: LatencySamples,
}

impl EngineStats {
    pub open spec fn wf(self) -> bool {
        self.write_batches.wf() && self.write_publications.wf()
    }

    /// Nothing counted yet.
    pub fn new() -> (stats: EngineStats)
        ensures
            stats.wf(),
            stats.reclaim.is_zero(),
            stats.reads == no_engine_reads(),
            stats.writes == no_engine_writes(),
            stats.recorded_writes == (RecordedIo { runs: 0, bytes: 0 }),
            stats.recorded_index_reads == (RecordedIo { runs: 0, bytes: 0 }),
            stats.write_batches.ring() == (Seq::<u128>::empty(), 0int),
            stats.write_publications.ring() == (Seq::<u128>::empty(), 0int),
    {
        EngineStats {
            reclaim: ReclaimStats::default(),
            reads: EngineReadStats::default(),
            writes: EngineWriteStats::default(),
            recorded_writes: RecordedIo { runs: 0, bytes: 0 },
            recorded_index_reads: RecordedIo { runs: 0, bytes: 0 },
            write_batches: LatencySamples::new(),
            write_publications: LatencySamples::new(),
        }
    }

    /// The reclaim work so far.
    pub fn reclaim(&self) -> (reclaim: ReclaimStats)
        ensures
            reclaim == self.reclaim,
    {
        self.reclaim
    }

    /// The physical reads so far.
    pub fn reads(&self) -> (reads: EngineReadStats)
        ensures
            reads == self.reads,
    {
        self.reads
    }

    /// The write outcomes so far.
    pub fn writes(&self) -> (writes: EngineWriteStats)
        ensures
            writes == self.writes,
    {
        self.writes
    }

    /// Adds the reclaim work of one batch.
    pub fn merge_reclaim(&mut self, reclaim: ReclaimStats)
        ensures
            final(self).reclaim.is_merge_of(old(self).reclaim, reclaim),
            *final(self) == (EngineStats { reclaim: final(self).reclaim, ..*old(self) }),
    {
        self.reclaim.merge(reclaim);
    }

    /// Counts one physical read.
    pub fn record_read(&mut self, data_frames: usize, data_runs: usize, data_bytes: usize)
        ensures
            *final(self) == (EngineStats {
                reads: EngineReadStats {
                    calls: old(self).reads.calls.wrapping_add(1),
                    data_frames: old(self).reads.data_frames.wrapping_add(data_frames as u64),
                    data_runs: old(self).reads.data_runs.wrapping_add(data_runs as u64),
                    data_bytes: old(self).reads.data_bytes.wrapping_add(data_bytes as u64),
                },
                ..*old(self)
            }),
    {
        self.reads.calls = self.reads.calls.wrapping_add(1);
        self.reads.data_frames = self.reads.data_frames.wrapping_add(data_frames as u64);
        self.reads.data_runs = self.reads.data_runs.wrapping_add(data_runs as u64);
        self.reads.data_bytes = self.reads.data_bytes.wrapping_add(data_bytes as u64);
    }

    /// The counters with one more command accepted.
    pub open spec fn with_accepted(self) -> EngineStats {
        EngineStats {
            writes: EngineWriteStats {
                accepted_commands: self.writes.accepted_commands.wrapping_add(1),
                ..self.writes
            },
            ..self
        }
    }

    /// The counters with one more command dropped.
    pub open spec fn with_dropped(self) -> EngineStats {
        EngineStats {
            writes: EngineWriteStats { dropped_commands: self.writes.dropped_commands.wrapping_add(1), ..self.writes },
            ..self
        }
    }

    /// The counters with one more command of this priority shed.
    pub open spec fn with_shed(self, priority: CachePriority) -> EngineStats {
        let writes = self.with_dropped().writes;
        EngineStats {
            writes: match priority {
                CachePriority::Low => EngineWriteStats {
                    shed_low_commands: writes.shed_low_commands.wrapping_add(1),
                    ..writes
                },
                CachePriority::Normal => EngineWriteStats {
                    shed_normal_commands: writes.shed_normal_commands.wrapping_add(1),
                    ..writes
                },
                CachePriority::High => EngineWriteStats {
                    shed_high_commands: writes.shed_high_commands.wrapping_add(1),
                    ..writes
                },
            },
            ..self
        }
    }

    /// Counts a command that entered the queue.
    pub fn record_accepted_command(&mut self)
        ensures
            *final(self) == old(self).with_accepted(),
    {
        self.writes.accepted_commands = self.writes.accepted_commands.wrapping_add(1);
    }

    /// Counts a command that was not accepted.
    pub fn record_dropped_command(&mut self)
        ensures
            *final(self) == old(self).with_dropped(),
    {
        self.writes.dropped_commands = self.writes.dropped_commands.wrapping_add(1);
    }

    /// Counts a command that was shed for its priority.
    pub fn record_shed_command(&mut self, priority: CachePriority)
        ensures
            *final(self) == old(self).with_shed(priority),
    {
        self.record_dropped_command();
        match priority {
            CachePriority::Low => {
                self.writes.shed_low_commands = self.writes.shed_low_commands.wrapping_add(1);
            },
            CachePriority::Normal => {
                self.writes.shed_normal_commands = self.writes.shed_normal_commands.wrapping_add(1);
            },
            CachePriority::High => {
                self.writes.shed_high_commands = self.writes.shed_high_commands.wrapping_add(1);
            },
        }
    }

    /// Counts accepted commands that a shutdown discarded.
    pub fn record_shutdown_dropped(&mut self, commands: usize)
        ensures
            *final(self) == (EngineStats {
                writes: EngineWriteStats {
                    dropped_commands: old(self).writes.dropped_commands.wrapping_add(commands as u64),
                    shutdown_dropped_commands: old(self).writes.shutdown_dropped_commands.wrapping_add(commands as u64),
                    ..old(self).writes
                },
                ..*old(self)
            }),
    {
        self.writes.dropped_commands = self.writes.dropped_commands.wrapping_add(commands as u64);
        self.writes.shutdown_dropped_commands = self.writes.shutdown_dropped_commands.wrapping_add(commands as u64);
    }

    /// Counts accepted commands that a broken worker left behind.
    pub fn record_abandoned(&mut self, commands: usize)
        ensures
            *final(self) == (EngineStats {
                writes: EngineWriteStats {
                    dropped_commands: old(self).writes.dropped_commands.wrapping_add(commands as u64),
                    ..old(self).writes
                },
                ..*old(self)
            }),
    {
        self.writes.dropped_commands = self.writes.dropped_commands.wrapping_add(commands as u64);
    }

    /// Counts a batch that the store processed.
    pub fn record_completed_batch(&mut self, commands: usize, storage_rejected_puts: usize)
        ensures
            *final(self) == (EngineStats {
                writes: EngineWriteStats {
                    completed_commands: old(self).writes.completed_commands.wrapping_add(commands as u64),
                    storage_rejected_puts: old(self).writes.storage_rejected_puts.wrapping_add(storage_rejected_puts as u64),
                    completed_batches: old(self).writes.completed_batches.wrapping_add(1),
                    ..old(self).writes
                },
                ..*old(self)
            }),
    {
        self.writes.completed_commands = self.writes.completed_commands.wrapping_add(commands as u64);
        self.writes.storage_rejected_puts = self.writes.storage_rejected_puts.wrapping_add(storage_rejected_puts as u64);
        self.writes.completed_batches = self.writes.completed_batches.wrapping_add(1);
    }

    /// Counts a batch that failed.
    pub fn record_failed_batch(&mut self)
        ensures
            *final(self) == (EngineStats {
                writes: EngineWriteStats {
                    failed_batches: old(self).writes.failed_batches.wrapping_add(1),
                    ..old(self).writes
                },
                ..*old(self)
            }),
    {
        self.writes.failed_batches = self.writes.failed_batches.wrapping_add(1);
    }

    /// Keeps the latency of one batch.
    pub fn record_write_batch(&mut self, latency: u128)
        requires
            old(self).wf(),
        ensures
            final(self).wf(),
            final(self).write_batches.ring() == ring_after(old(self).write_batches.ring(), latency),
            final(self).write_batches.recent() == latest(old(self).write_batches.recent().push(latency)),
            *final(self) == (EngineStats { write_batches: final(self).write_batches, ..*old(self) }),
    {
        self.write_batches.record(latency);
    }

    /// Keeps the latencies of published commands.
    pub fn record_write_publications(&mut self, latencies: &[u128])
        requires
            old(self).wf(),
        ensures
            final(self).wf(),
            final(self).write_publications.ring() == ring_after_all(old(self).write_publications.ring(), latencies@),
            final(self).write_publications.recent() == latest_of_all(
                old(self).write_publications.recent(),
                latencies@,
            ),
            *final(self) == (EngineStats { write_publications: final(self).write_publications, ..*old(self) }),
    {
        let ghost before = self.write_publications.recent();
        let ghost ring = self.write_publications.ring();
        let mut i: usize = 0;
        assert(latencies@.take(0) =~= Seq::<u128>::empty());
        while i < latencies.len()
            invariant
                i <= latencies@.len(),
                self.wf(),
                self.write_publications.ring() == ring_after_all(ring, latencies@.take(i as int)),
                self.write_publications.recent() == latest_of_all(before, latencies@.take(i as int)),
                *self == (EngineStats { write_publications: self.write_publications, ..*old(self) }),
            decreases latencies@.len() - i,
        {
            assert(latencies@.take(i + 1).drop_last() =~= latencies@.take(i as int));
            self.write_publications.record(latencies[i]);
            i = i + 1;
        }
        assert(latencies@.take(i as int) =~= latencies@);
    }

    /// The latencies of batches and of published commands.
    pub fn write_latency_samples(&self) -> (samples: (Vec<u128>, Vec<u128>))
        ensures
            samples.0@ == self.write_batches.held(),
            samples.1@ == self.write_publications.held(),
    {
        (self.write_batches.snapshot(), self.write_publications.snapshot())
    }

    /// Takes note of the index reads so far. Returns the sizes of those that were not
    /// reported before.
    pub fn record_remaining_index_reads(&mut self, total: EntryIndexReadStats) -> (sizes: Vec<usize>)
        ensures
            ({
                let now = RecordedIo { runs: total.read_operations, bytes: total.read_bytes };
                let rest = old(self).recorded_index_reads.remaining(now);
                &&& *final(self) == (EngineStats { recorded_index_reads: now, ..*old(self) })
                &&& shared_among(sizes@, size_of_count(rest.bytes), size_of_count(rest.runs))
            }),
    {
        let runs: usize = to_size(total.read_operations.saturating_sub(self.recorded_index_reads.runs));
        let bytes: usize = to_size(total.read_bytes.saturating_sub(self.recorded_index_reads.bytes));
        self.recorded_index_reads = RecordedIo { runs: total.read_operations, bytes: total.read_bytes };
        record_io(bytes, runs)
    }

    /// Takes note of writes that were just made. Returns their sizes.
    pub fn record_synchronous_writes(&mut self, runs: usize, bytes: usize) -> (sizes: Vec<usize>)
        ensures
            *final(self) == (EngineStats {
                recorded_writes: RecordedIo {
                    runs: old(self).recorded_writes.runs.saturating_add(runs as u64),
                    bytes: old(self).recorded_writes.bytes.saturating_add(bytes as u64),
                },
                ..*old(self)
            }),
            shared_among(sizes@, bytes, runs),
    {
        self.recorded_writes = RecordedIo {
            runs: self.recorded_writes.runs.saturating_add(runs as u64),
            bytes: self.recorded_writes.bytes.saturating_add(bytes as u64),
        };
        record_io(bytes, runs)
    }

    /// Takes note of the writes so far. Returns the sizes of those that were not
    /// reported before.
    pub fn record_remaining_writes(&mut self, total_runs: u64, total_bytes: u64) -> (sizes: Vec<usize>)
        ensures
            ({
                let now = RecordedIo { runs: total_runs, bytes: total_bytes };
                let rest = old(self).recorded_writes.remaining(now);
                &&& *final(self) == (EngineStats { recorded_writes: now, ..*old(self) })
                &&& shared_among(sizes@, size_of_count(rest.bytes), size_of_count(rest.runs))
            }),
    {
        let runs: usize = to_size(total_runs.saturating_sub(self.recorded_writes.runs));
        let bytes: usize = to_size(total_bytes.saturating_sub(self.recorded_writes.bytes));
        self.recorded_writes = RecordedIo { runs: total_runs, bytes: total_bytes };
        record_io(bytes, runs)
    }
}

/// Every counter counts its own: an accepted command, a dropped one, or one that was shed
/// for its priority, which is dropped too. No other counter moves.
pub proof fn law_commands_are_counted_where_they_belong(stats: EngineStats, priority: CachePriority)
    requires
        stats.writes.accepted_commands < u64::MAX,
        stats.writes.dropped_commands < u64::MAX,
        stats.writes.shed_low_commands < u64::MAX,
        stats.writes.shed_normal_commands < u64::MAX,
        stats.writes.shed_high_commands < u64::MAX,
    ensures
        ({
            let before = stats.writes;
            let accepted = stats.with_accepted().writes;
            let dropped = stats.with_dropped().writes;
            let shed = stats.with_shed(priority).writes;
            let one = |counted: bool| if counted {
                1int
            } else {
                0int
            };
            &&& accepted == (EngineWriteStats { accepted_commands: accepted.accepted_commands, ..before })
            &&& accepted.accepted_commands == before.accepted_commands + 1
            &&& dropped == (EngineWriteStats { dropped_commands: dropped.dropped_commands, ..before })
            &&& dropped.dropped_commands == before.dropped_commands + 1
            &&& shed.dropped_commands == before.dropped_commands + 1
            &&& shed.accepted_commands == before.accepted_commands
            &&& shed.shed_low_commands == before.shed_low_commands + one(priority == CachePriority::Low)
            &&& shed.shed_normal_commands == before.shed_normal_commands + one(priority == CachePriority::Normal)
            &&& shed.shed_high_commands == before.shed_high_commands + one(priority == CachePriority::High)
            &&& shed.completed_commands == before.completed_commands
            &&& shed.shutdown_dropped_commands == before.shutdown_dropped_commands
        }),
{
}

/// The ring keeps the latest samples: one that was just recorded is held, every other
/// place is as before, and no more than the capacity is held; once it is full, the sample
/// that gives way is the one that was recorded a whole ring ago.
pub proof fn law_the_ring_keeps_the_latest(samples: Seq<u128>, at: int, value: u128)
    requires
        samples.len() <= LATENCY_SAMPLE_CAPACITY,
        0 <= at < LATENCY_SAMPLE_CAPACITY,
        samples.len() < LATENCY_SAMPLE_CAPACITY ==> at == 0,
    ensures
        ({
            let (held, next) = ring_after((samples, at), value);
            let place = if samples.len() < LATENCY_SAMPLE_CAPACITY {
                samples.len() as int
            } else {
                at
            };
            &&& held.len() <= LATENCY_SAMPLE_CAPACITY
            &&& held.len() >= samples.len()
            &&& held[place] == value
            &&& forall|i: int| 0 <= i < samples.len() && i != place ==> #[trigger] held[i] == samples[i]
            &&& samples.len() < LATENCY_SAMPLE_CAPACITY ==> held.len() == samples.len() + 1 && next == at
            &&& samples.len() == LATENCY_SAMPLE_CAPACITY ==> (next == at + 1 || at == LATENCY_SAMPLE_CAPACITY - 1
                && next == 0)
        }),
{
}

/// Of all samples that were ever kept, in the order in which they came, the latest stay: as
/// many as there is room for.
pub proof fn law_the_latest_samples_stay(samples: Seq<u128>, added: Seq<u128>)
    requires
        samples.len() <= LATENCY_SAMPLE_CAPACITY,
    ensures
        ({
            let all = samples + added;
            let dropped = if all.len() > LATENCY_SAMPLE_CAPACITY {
                all.len() - LATENCY_SAMPLE_CAPACITY
            } else {
                0
            };
            latest_of_all(samples, added) == all.skip(dropped)
        }),
    decreases added.len(),
{
    let all = samples + added;
    if added.len() == 0 {
        assert(all.skip(0) =~= samples);
    } else {
        let before = samples + added.drop_last();
        law_the_latest_samples_stay(samples, added.drop_last());
        assert(all =~= before.push(added.last()));
        let held = latest_of_all(samples, added.drop_last()).push(added.last());
        if all.len() > LATENCY_SAMPLE_CAPACITY {
            let dropped = all.len() - LATENCY_SAMPLE_CAPACITY;
            assert(latest(held) =~= all.skip(dropped));
        } else {
            assert(latest(held) =~= all.skip(0));
        }
    }
}

/// A count is handed out as it is wherever it fits, and as the largest number where not.
pub proof fn law_counts_are_held_at_the_largest_size(count: u64)
    ensures
        count <= usize::MAX ==> size_of_count(count) == count,
        count > usize::MAX ==> size_of_count(count) == usize::MAX,
{
}

} // verus!
