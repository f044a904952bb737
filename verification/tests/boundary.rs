//! The engine boundary: queue, read limiter, statistics, admission, recovery policy and
//! the write loop.

use foyer_extent::cache::RecoverMode;
use foyer_extent::entry::EngineValue;
use foyer_extent::error::Error;
use foyer_extent::format::PAGE_SIZE;
use foyer_extent::foyer_engine::admission::{
    at_fraction, load_result, should_shed, CloseState, CloseStep, EngineState, FilterResult, LoadStart, LoadStep,
    Submission,
};
use foyer_extent::foyer_engine::config::{EngineErrorKind, ExtentEngineConfig};
use foyer_extent::foyer_engine::queue::{QueueReservation, SubmissionQueue};
use foyer_extent::foyer_engine::read::ReadLimiter;
use foyer_extent::foyer_engine::recovery::{after_open, plan_open, verify_layout, RecoveryOutcome, RecoveryStep};
use foyer_extent::foyer_engine::stats::{
    record_io, EngineReadStats, EngineStats, EngineWriteStats, LatencySamples, LATENCY_SAMPLE_CAPACITY,
};
use foyer_extent::foyer_engine::writer::{
    process_commands, BackgroundError, BackgroundStep, Command, LoopAction, LoopEvent, ProcessResult, WriteLoop,
};
use foyer_extent::model::{CachePriority, KeyDigest};
use foyer_extent::store::config::{ExtentStoreConfig, ExtentStoreOptions};
use foyer_extent::store::engine::PreparedGet;
use foyer_extent::store::format::StoreLayout;
use foyer_extent::store::index::EntryIndexReadStats;
use foyer_extent::store::operation::{BatchInsertResult, GetResult, InsertOutcome};

#[test]
fn reservation_enforces_entry_and_byte_limits() {
    let mut queue = SubmissionQueue::new(2, 10);

    let first = queue.try_reserve(6).unwrap();
    assert!(queue.try_reserve(5).is_none());
    assert_eq!(queue.pending_entries(), 1);
    assert_eq!(queue.pending_bytes(), 6);

    let second = queue.try_reserve(4).unwrap();
    assert!(queue.try_reserve(0).is_none());
    assert_eq!(queue.pending_entries(), 2);
    assert_eq!(queue.pending_bytes(), 10);

    queue.release(first);
    assert!(!queue.is_idle());
    queue.release(second);
    assert_eq!(queue.pending_entries(), 0);
    assert_eq!(queue.pending_bytes(), 0);
    assert!(queue.is_idle());
}

#[test]
fn failed_byte_reservation_releases_entry_budget() {
    let mut queue = SubmissionQueue::new(1, 10);
    assert!(queue.try_reserve(11).is_none());
    assert_eq!(queue.pending_entries(), 0);
    assert_eq!(queue.pending_bytes(), 0);
}

#[test]
fn rejects_without_waiting_at_the_limit() {
    let mut limiter = ReadLimiter::new(2);
    let first = limiter.try_acquire().unwrap();
    let second = limiter.try_acquire().unwrap();
    assert!(limiter.try_acquire().is_none());
    assert_eq!(limiter.active(), 2);
    limiter.release(first);
    assert!(limiter.try_acquire().is_some());
    limiter.release(second);
}

#[test]
fn metadata_miss_pressure_does_not_consume_payload_permits() {
    let mut metadata = ReadLimiter::new_secondary(2);
    let mut payload = ReadLimiter::new(1);
    let _first_miss = metadata.try_acquire().unwrap();
    let _second_miss = metadata.try_acquire().unwrap();
    assert!(metadata.try_acquire().is_none());

    let hit = payload.try_acquire().expect("metadata misses must not occupy payload admission");
    assert_eq!(payload.active(), 1);
    payload.release(hit);
    assert!(payload.reports_active());
    assert!(!metadata.reports_active());
    assert_eq!((metadata.limit(), metadata.active(), payload.active()), (2, 2, 0));
}

#[test]
fn io_statistics_preserve_bytes_and_runs() {
    let mut recorded = Vec::new();
    recorded.extend(record_io(10, 3));
    assert_eq!(recorded, vec![4, 3, 3]);

    recorded.extend(record_io(0, 0));
    assert_eq!(recorded, vec![4, 3, 3]);
}

#[test]
fn engine_stats_start_empty() {
    let stats = EngineStats::new();
    assert_eq!(stats.writes(), EngineWriteStats::default());
    assert_eq!(stats.reads(), EngineReadStats::default());
}

fn index_reads(read_operations: u64, read_bytes: u64) -> EntryIndexReadStats {
    EntryIndexReadStats { read_operations, read_bytes, ..Default::default() }
}

#[test]
fn cumulative_index_reads_are_recorded_exactly_once() {
    let mut stats = EngineStats::new();
    let mut reported: Vec<usize> = Vec::new();
    reported.extend(stats.record_remaining_index_reads(index_reads(3, 10)));
    assert_eq!(reported.len(), 3);
    assert_eq!(reported.iter().sum::<usize>(), 10);

    reported.extend(stats.record_remaining_index_reads(index_reads(3, 10)));
    assert_eq!(reported.len(), 3);
    assert_eq!(reported.iter().sum::<usize>(), 10);

    reported.extend(stats.record_remaining_index_reads(index_reads(5, 16)));
    assert_eq!(reported.len(), 5);
    assert_eq!(reported.iter().sum::<usize>(), 16);
}

#[test]
fn synchronous_writes_are_not_reported_again() {
    let mut stats = EngineStats::new();
    assert_eq!(stats.record_synchronous_writes(2, 5), vec![3, 2]);
    assert_eq!(stats.record_remaining_writes(3, 9), vec![4]);
    assert_eq!(stats.record_remaining_writes(3, 9), Vec::<usize>::new());
}

#[test]
fn engine_counters() {
    let mut stats = EngineStats::new();
    stats.record_read(3, 2, 100);
    assert_eq!(stats.reads(), EngineReadStats { calls: 1, data_frames: 3, data_runs: 2, data_bytes: 100 });
    stats.record_accepted_command();
    stats.record_dropped_command();
    stats.record_shed_command(CachePriority::Low);
    stats.record_shed_command(CachePriority::Normal);
    stats.record_shed_command(CachePriority::High);
    stats.record_shutdown_dropped(4);
    stats.record_abandoned(2);
    stats.record_completed_batch(5, 1);
    stats.record_failed_batch();
    assert_eq!(
        stats.writes(),
        EngineWriteStats {
            accepted_commands: 1,
            dropped_commands: 10,
            shutdown_dropped_commands: 4,
            shed_low_commands: 1,
            shed_normal_commands: 1,
            shed_high_commands: 1,
            completed_commands: 5,
            storage_rejected_puts: 1,
            completed_batches: 1,
            failed_batches: 1,
        }
    );
    stats.record_write_batch(7);
    stats.record_write_publications(&[8, 9]);
    assert_eq!(stats.write_latency_samples(), (vec![7], vec![8, 9]));
    assert_eq!(stats.reclaim().total_reclaimed_extents(), 0);
}

#[test]
fn latency_samples_replace_the_oldest() {
    let mut samples = LatencySamples::new();
    for value in 0..LATENCY_SAMPLE_CAPACITY as u128 + 2 {
        samples.record(value);
    }
    let held = samples.snapshot();
    assert_eq!(held.len(), LATENCY_SAMPLE_CAPACITY);
    assert_eq!(&held[..3], &[LATENCY_SAMPLE_CAPACITY as u128, LATENCY_SAMPLE_CAPACITY as u128 + 1, 2]);
}

#[test]
fn background_error_preserves_the_first_failure() {
    let mut error = BackgroundError::new();
    assert!(!error.is_failed());
    assert!(error.record("first".to_string()));
    assert!(!error.record("second".to_string()));
    assert!(error.is_failed());
    assert_eq!(error.message().as_deref(), Some("first"));
}

#[test]
fn background_failures_are_introduced() {
    assert_eq!(BackgroundStep::Flush.failure("x"), "flush Extent entries: x");
    assert_eq!(BackgroundStep::RequestCheckpoint.failure("x"), "request periodic Extent checkpoint: x");
    assert_eq!(BackgroundStep::Sync.failure("x"), "sync ExtentEngine: x");
    assert_eq!(BackgroundStep::JoinSync.failure("x"), "join Extent sync task: x");
    assert_eq!(BackgroundStep::JoinWorker.failure("x"), "join Extent flush worker: x");
}

#[test]
fn engine_config_is_validated() {
    let config = ExtentEngineConfig::new(1 << 30, Some(8), 1 << 20);
    assert_eq!(config.read_concurrency, 16);
    assert_eq!(ExtentEngineConfig::new(1, None, 1).read_concurrency, 2);
    assert!(config.validate().is_ok());
    assert_eq!(config.capacity().unwrap(), 1 << 30);
    let refused = |config: ExtentEngineConfig| {
        let error = config.validate().unwrap_err();
        assert_eq!(error.kind, EngineErrorKind::Config);
        error.message
    };
    assert_eq!(refused(config.with_queue_capacity_bytes(0)), "extent queue byte capacity must be positive");
    assert_eq!(refused(config.with_queue_capacity_entries(0)), "extent queue entry capacity must be positive");
    assert_eq!(
        refused(config.with_write_batch_bytes(0)),
        "extent write batch bytes must be positive and no larger than the queue"
    );
    assert_eq!(
        refused(config.with_write_batch_bytes(config.queue_capacity_bytes + 1)),
        "extent write batch bytes must be positive and no larger than the queue"
    );
    assert_eq!(
        refused(config.with_write_batch_entries(config.queue_capacity_entries + 1)),
        "extent write batch entries must be positive and no larger than the queue"
    );
    assert_eq!(
        refused(config.with_read_busy_write_batch_bytes(0)),
        "extent read-busy write batch bytes must be positive"
    );
    assert_eq!(refused(config.with_read_concurrency(0)), "extent read concurrency must be positive");
    assert_eq!(refused(config.with_checkpoint_interval(0)), "extent checkpoint interval must be positive");
    let tuned = config
        .with_test_layout(4096, 32768)
        .with_write_concurrency(3)
        .with_io_read_priority_duration(9)
        .with_read_run_size(1)
        .with_write_run_size(2)
        .with_index_write_buffer_size(3)
        .with_index_cache_size(4)
        .with_hot_frequency(5)
        .with_low_hot_frequency(6)
        .with_priority_capacity_floors(20, 30)
        .with_direct_io(true)
        .with_checkpoint_bytes(7);
    let options = tuned.store.options;
    assert_eq!((tuned.store.slot_size, options.extent_size, tuned.checkpoint_bytes), (4096, 32768, 7));
    assert_eq!((options.write_concurrency, options.io_read_priority_nanos), (3, 9));
    assert_eq!((options.read_run_size, options.write_run_size), (1, 2));
    assert_eq!((options.index_write_buffer_size, options.index_cache_size), (3, 4));
    assert_eq!((options.hot_frequency, options.low_hot_frequency, options.direct_io), (5, 6, true));
    assert_eq!(options.priority_capacity_floors.high_percent(), 20);
    assert_eq!(options.priority_capacity_floors.normal_percent(), 30);
}

fn filled(entries: usize, bytes: usize, pending: &[usize]) -> (SubmissionQueue, Vec<QueueReservation>) {
    let mut queue = SubmissionQueue::new(entries, bytes);
    let held = pending.iter().map(|bytes| queue.try_reserve(*bytes).unwrap()).collect();
    (queue, held)
}

#[test]
fn low_and_normal_commands_are_shed_early() {
    assert!(at_fraction(25, 100, 1, 4));
    assert!(!at_fraction(24, 100, 1, 4));
    assert!(at_fraction(1, 2, 1, 4));
    assert!(!at_fraction(0, 2, 1, 4));
    assert!(at_fraction(usize::MAX / 4 * 3, usize::MAX, 3, 4));
    assert!(!at_fraction(usize::MAX / 4 * 3 - 1, usize::MAX, 3, 4));

    let (queue, _held) = filled(100, 100, &[25]);
    assert!(should_shed(&queue, true, CachePriority::Low));
    assert!(!should_shed(&queue, false, CachePriority::Low));
    assert!(!should_shed(&queue, true, CachePriority::Normal));
    let (queue, _held) = filled(100, 100, &[75]);
    assert!(should_shed(&queue, false, CachePriority::Normal));
    assert!(!should_shed(&queue, true, CachePriority::High));
    let (queue, _held) = filled(4, 100, &[0, 0]);
    assert!(should_shed(&queue, false, CachePriority::Low));
    assert!(!should_shed(&queue, false, CachePriority::Normal));
}

#[test]
fn commands_are_submitted_shed_or_dropped() {
    let mut state = EngineState::new(1000, 500, 4, 100, 1);
    assert_eq!(state.filter(100), FilterResult::Admit);
    assert_eq!(state.filter(101), FilterResult::Overflow);
    assert_eq!(state.enqueue(0, 5, CachePriority::High, 1), Submission::Invalid);
    assert_eq!(state.enqueue(1025, 5, CachePriority::High, 1), Submission::Invalid);
    assert_eq!(state.enqueue(3, 0, CachePriority::High, 1), Submission::Invalid);
    assert_eq!(state.enqueue(3, 482, CachePriority::High, 1), Submission::Invalid);
    assert_eq!(state.enqueue(3, usize::MAX, CachePriority::High, 1), Submission::Invalid);
    assert_eq!(state.stats.writes().dropped_commands, 6);

    let Submission::Reserved(first) = state.enqueue(3, 481, CachePriority::High, 60) else {
        panic!("must be reserved");
    };
    state.delivered();
    assert_eq!(state.enqueue(3, 5, CachePriority::Low, 1), Submission::Shed);
    assert_eq!(state.enqueue(3, 5, CachePriority::Normal, 50), Submission::Overflow);
    assert_eq!(state.enqueue(3, 5, CachePriority::High, 50), Submission::Overflow);
    let Submission::Reserved(second) = state.delete(3) else {
        panic!("must be reserved");
    };
    assert_eq!(state.delete(0), Submission::Invalid);
    state.undelivered(second);
    state.finished(first);
    assert_eq!((state.queue.pending_entries(), state.queue.pending_bytes()), (0, 0));
    let writes = state.stats.writes();
    assert_eq!(
        (writes.accepted_commands, writes.dropped_commands, writes.shed_low_commands, writes.shed_high_commands),
        (1, 10, 1, 1)
    );

    state.background_error.record("broken".to_string());
    assert_eq!(state.filter(1), FilterResult::Unavailable);
    assert_eq!(state.delete(1), Submission::Unavailable);
}

#[test]
fn puts_are_bounded_and_deletes_may_overcommit() {
    let mut state = EngineState::new(1000, 500, 1, 10, 1);
    let Submission::Reserved(put) = state.enqueue(3, 5, CachePriority::High, 10) else {
        panic!("must be reserved");
    };
    assert_eq!(state.enqueue(3, 5, CachePriority::High, 0), Submission::Overflow);
    let Submission::Reserved(first) = state.delete(3) else {
        panic!("must be reserved");
    };
    let Submission::Reserved(second) = state.delete(1024) else {
        panic!("must be reserved");
    };
    assert_eq!((first.bytes(), second.bytes()), (3, 1024));
    assert_eq!((state.queue.pending_entries(), state.queue.pending_bytes()), (3, 1037));
    assert_eq!(state.enqueue(3, 5, CachePriority::High, 0), Submission::Overflow);
    assert_eq!(state.filter(0), FilterResult::Overflow);
    assert_eq!(state.stats.writes().shed_high_commands, 2);
    state.finished(second);
    state.finished(put);
    assert_eq!((state.queue.pending_entries(), state.queue.pending_bytes()), (1, 3));
    state.finished(first);
    assert_eq!((state.queue.pending_entries(), state.queue.pending_bytes()), (0, 0));
    assert_eq!(state.filter(0), FilterResult::Admit);

    let mut queue = SubmissionQueue::new(0, 0);
    assert!(queue.try_reserve(0).is_none());
    let held = queue.try_overcommit(usize::MAX).unwrap();
    assert!(queue.try_overcommit(1).is_none());
    assert_eq!((queue.pending_entries(), queue.pending_bytes()), (1, usize::MAX));
    queue.release(held);
    assert!(queue.is_idle());
}

#[test]
fn loads_are_throttled_missed_or_read() {
    let mut state = EngineState::new(1000, 500, 4, 100, 1);
    assert_eq!(state.load_start(b"k", 1).unwrap(), LoadStart::Throttled);
    assert_eq!(state.load_start(b"", 0).unwrap(), LoadStart::Miss);
    assert!(matches!(state.load_start(b"k", 0).unwrap(), LoadStart::Lookup(key) if key.as_bytes() == b"k"));
    assert_eq!(state.load_step(&PreparedGet::Miss), LoadStep::Miss);
    let unknown = PreparedGet::Unknown(KeyDigest::new([0; 24]));
    let LoadStep::Read(permit) = state.load_step(&unknown) else {
        panic!("must be read");
    };
    assert_eq!(state.load_step(&unknown), LoadStep::Throttled);
    state.read_finished(permit);
    assert!(matches!(state.load_step(&unknown), LoadStep::Read(_)));
    assert!(load_result(GetResult::default()).is_none());
    let hit = GetResult { value: Some(vec![1, 2]), priority: Some(CachePriority::High), ..Default::default() };
    let value = load_result(hit).unwrap();
    assert_eq!((value.value().as_ref(), value.priority()), ([1u8, 2].as_slice(), CachePriority::High));
}

#[test]
fn closing_happens_once_and_reports_the_first_failure() {
    let mut state = EngineState::new(1000, 500, 4, 100, 1);
    assert!(state.may_contains());
    assert_eq!(state.close(), CloseStep::Shutdown);
    assert_eq!(state.close(), CloseStep::Wait);
    assert!(!state.may_contains());
    assert_eq!(state.filter(1), FilterResult::Unavailable);
    let error = state.load_start(b"k", 0).unwrap_err();
    assert_eq!((error.kind, error.message.as_str()), (EngineErrorKind::Closed, "load from a closed ExtentEngine"));
    state.closed();
    assert_eq!((state.close(), state.close_state), (CloseStep::Closed, CloseState::Closed));
    assert!(state.close_result().is_ok());
    state.background_error.record("first".to_string());
    state.background_error.record("second".to_string());
    assert_eq!(state.close_result().unwrap_err().message, "first");
    assert_eq!(state.destroy().unwrap_err().message, "online clear is not implemented by ExtentEngine");
    assert_eq!(state.storage_usage(Some(5)).allocated, 5);
    assert_eq!(state.storage_usage(None).allocated, 1000);
}

#[test]
fn recovery_follows_its_mode() {
    assert_eq!(plan_open(RecoverMode::Skip, true, false).unwrap(), RecoveryStep::Recreate(RecoveryOutcome::Created));
    assert_eq!(plan_open(RecoverMode::Quiet, true, false).unwrap(), RecoveryStep::Open);
    assert_eq!(plan_open(RecoverMode::Quiet, false, true).unwrap(), RecoveryStep::Recreate(RecoveryOutcome::Created));
    assert_eq!(
        plan_open(RecoverMode::Quiet, false, false).unwrap(),
        RecoveryStep::Recreate(RecoveryOutcome::Recreated("state file is missing".to_string()))
    );
    assert_eq!(plan_open(RecoverMode::Strict, true, false).unwrap(), RecoveryStep::Open);
    assert_eq!(plan_open(RecoverMode::Strict, false, true).unwrap(), RecoveryStep::Create);
    assert_eq!(
        plan_open(RecoverMode::Strict, false, false).unwrap_err().message(),
        "invalid ExtentStore superblock: Extent cache directory is non-empty but has no state file"
    );
    assert_eq!(after_open(RecoverMode::Strict, None), Some(RecoveryStep::Done));
    assert_eq!(after_open(RecoverMode::Strict, Some("x".to_string())), None);
    assert_eq!(
        after_open(RecoverMode::Quiet, Some("x".to_string())),
        Some(RecoveryStep::Recreate(RecoveryOutcome::Recreated("x".to_string())))
    );
}

#[test]
fn recovered_layouts_are_verified() {
    let config = ExtentStoreConfig::new(4 * 1024 * 1024)
        .with_slot_size(PAGE_SIZE)
        .with_options(ExtentStoreOptions::default().with_extent_size(PAGE_SIZE * 8));
    let layout = StoreLayout::create(config).unwrap();
    assert!(verify_layout(layout.slot_size, layout.total_file_size, config).is_ok());
    assert!(matches!(
        verify_layout(layout.slot_size, layout.total_file_size + 1, config),
        Err(Error::InvalidSuperblock(message))
            if message == "recovered Extent layout does not match static configuration"
    ));
    assert!(matches!(
        verify_layout(layout.slot_size, layout.total_file_size, config.with_slot_size(1)),
        Err(Error::InvalidConfig(_))
    ));
}

fn put(queue: &mut SubmissionQueue, key: &'static [u8], value: &'static [u8]) -> Command {
    let value = EngineValue::new(bytes::Bytes::from_static(value), CachePriority::Normal).unwrap();
    Command::put(bytes::Bytes::from_static(key), value, queue.try_reserve(5).unwrap(), 11)
}

fn delete(queue: &mut SubmissionQueue, key: &'static [u8]) -> Command {
    Command::delete(bytes::Bytes::from_static(key), queue.try_reserve(3).unwrap(), 12)
}

#[test]
fn only_the_last_command_of_a_key_counts() {
    let mut queue = SubmissionQueue::new(100, 1000);
    let commands = vec![
        put(&mut queue, b"a", b"1"),
        put(&mut queue, b"b", b"2"),
        delete(&mut queue, b"c"),
        put(&mut queue, b"a", b"3"),
        delete(&mut queue, b"b"),
        put(&mut queue, b"d", b"4"),
        put(&mut queue, b"c", b"5"),
    ];
    assert_eq!((commands[0].charge(), commands[2].queued_at()), (5, 12));
    let plan = process_commands(&commands).unwrap();
    assert_eq!(plan.puts, vec![3, 5, 6]);
    assert_eq!(plan.deletes, vec![4]);
    let keys: Vec<&[u8]> = plan.put_keys.iter().map(|key| key.as_bytes()).collect();
    assert_eq!(keys, vec![b"a".as_slice(), b"d".as_slice(), b"c".as_slice()]);
    assert_eq!(plan.delete_keys[0].as_bytes(), b"b");

    let broken = vec![put(&mut queue, b"a", b"1"), delete(&mut queue, b"")];
    assert!(matches!(process_commands(&broken), Err(Error::EmptyKey)));
    assert!(process_commands(&[]).unwrap().puts.is_empty());
}

#[test]
fn process_results_add_up() {
    let mut result = ProcessResult::default();
    let batch = BatchInsertResult {
        outcomes: vec![InsertOutcome::Inserted, InsertOutcome::Rejected, InsertOutcome::Rejected],
        write_runs: 2,
        written_bytes: 30,
        ..Default::default()
    };
    result.merge(&batch);
    result.merge(&batch);
    assert_eq!((result.write_runs, result.written_bytes, result.storage_rejected_puts), (4, 60, 4));
}

#[test]
fn the_write_loop_collects_processes_and_stops() {
    let mut writer = WriteLoop::new(2, 100, 10, 50, 1000);
    assert_eq!(writer.step(LoopEvent::Idle { since_checkpoint: 400 }), LoopAction::Receive { timeout: 600 });
    let received = LoopEvent::Received { charge: 20, shutdown: false, readers_active: false };
    assert_eq!(writer.step(received), LoopAction::Poll);
    assert_eq!(writer.step(LoopEvent::Empty { first_age: 20 }), LoopAction::Await { timeout: 30 });
    assert_eq!(writer.step(LoopEvent::Empty { first_age: 50 }), LoopAction::CheckBudget);
    assert_eq!(writer.step(LoopEvent::More { charge: 1, readers_active: false }), LoopAction::CheckBudget);
    assert_eq!((writer.held, writer.held_bytes), (2, 21));
    let overdrawn = LoopEvent::Budget { shutdown: false, delay: 20_000_000 };
    assert_eq!(writer.step(overdrawn), LoopAction::Sleep { nanos: 10_000_000 });
    assert_eq!(writer.step(LoopEvent::Budget { shutdown: false, delay: 0 }), LoopAction::Process);
    assert_eq!(writer.step(LoopEvent::Processed { since_checkpoint: 999 }), LoopAction::Receive { timeout: 1 });
    assert_eq!(writer.step(LoopEvent::TimedOut), LoopAction::RequestCheckpoint);
    assert_eq!(writer.step(LoopEvent::CheckpointRefused), LoopAction::Stop);

    let busy = LoopEvent::Received { charge: 20, shutdown: false, readers_active: true };
    assert_eq!(writer.step(busy), LoopAction::CheckBudget);
    assert_eq!(
        writer.step(LoopEvent::Budget { shutdown: true, delay: 0 }),
        LoopAction::Abandon { commands: 1 }
    );
    assert_eq!(writer.held, 0);
    let late = LoopEvent::Received { charge: 20, shutdown: true, readers_active: false };
    assert_eq!(writer.step(late), LoopAction::Abandon { commands: 1 });
    assert_eq!(writer.step(LoopEvent::Processed { since_checkpoint: 1000 }), LoopAction::RequestCheckpoint);
    assert_eq!(writer.step(LoopEvent::NoMore), LoopAction::CheckBudget);
    assert_eq!(writer.step(LoopEvent::Failed), LoopAction::Stop);
    assert_eq!(writer.step(LoopEvent::Disconnected), LoopAction::Stop);
}
