//! The single ordered publication stream into the store.
//!
//! The write loop is a machine: it is told what happened and answers with what to do
//! next. Whoever runs it receives commands, sleeps, and calls the store. Durations are
//! in nanoseconds.

use vstd::prelude::*;

use crate::checksum::{blake3_hash, compute_blake3};
use crate::counter::sum_size;
use crate::entry::EngineValue;
use crate::error::Error;
use crate::foyer_engine::queue::QueueReservation;
use crate::model::{key_validation, valid_key, EntryKey};
use crate::shared::{bytes_as_slice, contents};
use crate::sort::{lemma_same_pairs, sort_pairs, sorted_pairs};
use crate::store::operation::{BatchInsertResult, InsertOutcome};
use crate::store::stats::ReclaimStats;
use crate::wire::{get_u64, same_bytes, u64_at};

verus! {

/// The first failure of the background work, so that close reports the causal error.
#[derive(Debug, PartialEq, Eq)]
pub struct BackgroundError {
    message: Option<String>,
}

impl View for BackgroundError {
    type V = Option<Seq<char>>;

    closed spec fn view(&self) -> Option<Seq<char>> {
        match self.message {
            Some(text) => Some(text@),
            None => None,
        }
    }
}

/// The failure that is kept once another one is noted.
pub open spec fn kept_failure(kept: Option<Seq<char>>, message: Seq<char>) -> Option<Seq<char>> {
    if kept is None {
        Some(message)
    } else {
        kept
    }
}

impl BackgroundError {
    /// No failure.
    pub fn new() -> (error: BackgroundError)
        ensures
            error@ is None,
    {
        BackgroundError { message: None }
    }

    /// Takes note of a failure. Only the first one is kept; tells whether this was it.
    pub fn record(&mut self, message: String) -> (first: bool)
        ensures
            first == (old(self)@ is None),
            final(self)@ == kept_failure(old(self)@, message@),
    {
        if self.message.is_none() {
            self.message = Some(message);
            true
        } else {
            false
        }
    }

    /// Whether anything failed.
    pub fn is_failed(&self) -> (failed: bool)
        ensures
            failed == (self@ is Some),
    {
        self.message.is_some()
    }

    /// The first failure.
    pub fn message(&self) -> (message: Option<String>)
        ensures
            match message {
                Some(text) => self@ == Some(text@),
                None => self@ is None,
            },
    {
        match &self.message {
            Some(text) => Some(text.as_str().to_owned()),
            None => None,
        }
    }
}

/// A step of the background work that can fail.
#[derive(Debug, Clone, Copy, PartialEq, Eq, Structural)]
pub enum BackgroundStep {
    Flush,
    RequestCheckpoint,
    Sync,
    JoinSync,
    JoinWorker,
}

impl BackgroundStep {
    /// What a failure of the step is introduced with.
    pub open spec fn context(self) -> Seq<char> {
        match self {
            BackgroundStep::Flush => "flush Extent entries: "@,
            BackgroundStep::RequestCheckpoint => "request periodic Extent checkpoint: "@,
            BackgroundStep::Sync => "sync ExtentEngine: "@,
            BackgroundStep::JoinSync => "join Extent sync task: "@,
            BackgroundStep::JoinWorker => "join Extent flush worker: "@,
        }
    }

    /// The text of a failure of the step.
    pub fn failure(self, error: &str) -> (text: String)
        ensures
            text@ == self.context() + error@,
    {
        let mut text: String = match self {
            BackgroundStep::Flush => "flush Extent entries: ".to_owned(),
            BackgroundStep::RequestCheckpoint => "request periodic Extent checkpoint: ".to_owned(),
            BackgroundStep::Sync => "sync ExtentEngine: ".to_owned(),
            BackgroundStep::JoinSync => "join Extent sync task: ".to_owned(),
            BackgroundStep::JoinWorker => "join Extent flush worker: ".to_owned(),
        };
        text.append(error);
        text
    }
}

/// What an accepted command does.
#[derive(Debug)]
pub enum Operation {
    Put { key: bytes::Bytes, value: EngineValue },
    Delete { key: bytes::Bytes },
}

/// One accepted write. Its reservation stays charged until the command has left the
/// pipeline.
#[derive(Debug)]
pub struct Command {
    pub operation: Operation,
    pub reservation: QueueReservation,
    pub queued_at: u128,
}

impl Command {
    /// The bytes of the key.
    pub open spec fn key_bytes(self) -> Seq<u8> {
        match self.operation {
            Operation::Put { key, .. } => contents(key),
            Operation::Delete { key } => contents(key),
        }
    }

    /// A command that stores a value.
    pub fn put(key: bytes::Bytes, value: EngineValue, reservation: QueueReservation, queued_at: u128) -> (command:
        Command)
        ensures
            command == (Command { operation: Operation::Put { key, value }, reservation, queued_at }),
    {
        Command { operation: Operation::Put { key, value }, reservation, queued_at }
    }

    /// A command that removes an entry.
    pub fn delete(key: bytes::Bytes, reservation: QueueReservation, queued_at: u128) -> (command: Command)
        ensures
            command == (Command { operation: Operation::Delete { key }, reservation, queued_at }),
    {
        Command { operation: Operation::Delete { key }, reservation, queued_at }
    }

    /// The bytes that the command holds of the queue's budget.
    pub fn charge(&self) -> (bytes: usize)
        ensures
            bytes == self.reservation.charge(),
    {
        self.reservation.bytes()
    }

    /// When the command was queued.
    pub fn queued_at(&self) -> (nanos: u128)
        ensures
            nanos == self.queued_at,
    {
        self.queued_at
    }

    /// The key that the command is about.
    pub fn key(&self) -> (key: &[u8])
        ensures
            key@ == self.key_bytes(),
    {
        match &self.operation {
            Operation::Put { key, .. } => bytes_as_slice(key),
            Operation::Delete { key } => bytes_as_slice(key),
        }
    }
}

/// No later command of the batch is about the same key.
pub open spec fn is_last(commands: Seq<Command>, position: int) -> bool {
    &&& 0 <= position < commands.len()
    &&& forall|later: int|
        position < later < commands.len() ==> (#[trigger] commands[later]).key_bytes()
            != commands[position].key_bytes()
}

/// Which positions of a batch are written, and which are removed.
#[derive(Debug)]
pub struct CommandPlan {
    /// Ascending positions of the puts that are written.
    pub puts: Vec<usize>,
    /// The keys of those puts.
    pub put_keys: Vec<EntryKey>,
    /// Ascending positions of the deletes that are carried out.
    pub deletes: Vec<usize>,
    /// The keys of those deletes.
    pub delete_keys: Vec<EntryKey>,
}

/// `positions` lists, in ascending order, the positions below `end` that are the last
/// of their key and of the given kind.
pub open spec fn lists_last(commands: Seq<Command>, end: int, puts: bool, positions: Seq<usize>) -> bool {
    &&& forall|i: int, j: int| 0 <= i < j < positions.len() ==> #[trigger] positions[i] < #[trigger] positions[j]
    &&& forall|i: int|
        0 <= i < positions.len() ==> {
            let position = #[trigger] positions[i] as int;
            position < end && is_last(commands, position) && (commands[position].operation is Put) == puts
        }
    &&& forall|position: int|
        #![trigger commands[position]]
        0 <= position < end && is_last(commands, position) && (commands[position].operation is Put) == puts
            ==> positions.contains(position as usize)
}

/// `keys` are the keys of the commands at `positions`.
pub open spec fn keys_at(commands: Seq<Command>, positions: Seq<usize>, keys: Seq<EntryKey>) -> bool {
    &&& keys.len() == positions.len()
    &&& forall|i: int|
        0 <= i < keys.len() ==> (#[trigger] keys[i])@ == commands[positions[i] as int].key_bytes()
}

/// The first command that counts and has no valid key.
pub open spec fn first_invalid(commands: Seq<Command>, position: int) -> bool {
    &&& is_last(commands, position)
    &&& !valid_key(commands[position].key_bytes())
    &&& forall|earlier: int|
        0 <= earlier < position && is_last(commands, earlier) ==> valid_key(
            (#[trigger] commands[earlier]).key_bytes(),
        )
}

/// A word by which equal keys find each other.
pub open spec fn key_word(key: Seq<u8>) -> u64 {
    u64_at(blake3_hash(key), 0) as u64
}

fn word_of(key: &[u8]) -> (word: u64)
    ensures
        word == key_word(key@),
{
    let hash = compute_blake3(key);
    get_u64(hash.as_slice(), 0)
}

/// `pairs` holds each position of the batch once, with the word of its key.
spec fn pairs_of(commands: Seq<Command>, pairs: Seq<(u64, usize)>) -> bool {
    &&& pairs.len() == commands.len()
    &&& forall|i: int|
        0 <= i < pairs.len() ==> (#[trigger] pairs[i]).1 < commands.len() && pairs[i].0 == key_word(
            commands[pairs[i].1 as int].key_bytes(),
        )
    &&& forall|position: int|
        #![trigger commands[position]]
        0 <= position < commands.len() ==> pairs.contains(
            (key_word(commands[position].key_bytes()), position as usize),
        )
    &&& forall|i: int, j: int| 0 <= i < j < pairs.len() ==> (#[trigger] pairs[i]).1 != (#[trigger] pairs[j]).1
}

fn sorted_words(commands: &[Command]) -> (pairs: Vec<(u64, usize)>)
    ensures
        sorted_pairs(pairs@),
        pairs_of(commands@, pairs@),
{
    let mut pairs: Vec<(u64, usize)> = Vec::new();
    let mut position: usize = 0;
    while position < commands.len()
        invariant
            position <= commands@.len(),
            pairs@.len() == position,
            forall|i: int|
                0 <= i < position ==> #[trigger] pairs@[i] == (key_word(commands@[i].key_bytes()), i as usize),
        decreases commands@.len() - position,
    {
        pairs.push((word_of(commands[position].key()), position));
        position = position + 1;
    }
    assert(commands.len() == commands@.len());
    let ghost before = pairs@;
    assert forall|position: int|
        #![trigger commands@[position]]
        0 <= position < commands@.len() implies before.contains(
        (key_word(commands@[position].key_bytes()), position as usize),
    ) by {
        assert(before[position] == (key_word(commands@[position].key_bytes()), position as usize));
    }
    sort_pairs(&mut pairs);
    proof {
        lemma_same_pairs(before, pairs@);
        before.lemma_multiset_has_no_duplicates();
        pairs@.lemma_multiset_has_no_duplicates_conv();
        assert forall|i: int| 0 <= i < pairs@.len() implies (#[trigger] pairs@[i]).1 < commands@.len()
            && pairs@[i].0 == key_word(commands@[pairs@[i].1 as int].key_bytes()) by {
            assert(pairs@.contains(pairs@[i]));
            assert(before.contains(pairs@[i]));
            let k = choose|k: int| 0 <= k < before.len() && before[k] == pairs@[i];
            assert(before[k] == (key_word(commands@[k].key_bytes()), k as usize));
        }
        assert forall|i: int, j: int| 0 <= i < j < pairs@.len() implies (#[trigger] pairs@[i]).1 != (
        #[trigger] pairs@[j]).1 by {
            assert(pairs@[i] != pairs@[j]);
        }
    }
    pairs
}

/// Whether a later command of the batch is about the key at `pairs[at]`.
fn superseded(commands: &[Command], pairs: &Vec<(u64, usize)>, at: usize) -> (later: bool)
    requires
        sorted_pairs(pairs@),
        pairs_of(commands@, pairs@),
        at < pairs@.len(),
    ensures
        later == !is_last(commands@, pairs@[at as int].1 as int),
{
    let word: u64 = pairs[at].0;
    let position: usize = pairs[at].1;
    assert(pairs.len() == pairs@.len());
    let mut next: usize = at + 1;
    while next < pairs.len() && pairs[next].0 == word
        invariant
            at < next <= pairs@.len(),
            sorted_pairs(pairs@),
            pairs_of(commands@, pairs@),
            word == pairs@[at as int].0,
            position == pairs@[at as int].1,
            forall|i: int|
                at < i < next ==> commands@[(#[trigger] pairs@[i]).1 as int].key_bytes()
                    != commands@[position as int].key_bytes(),
        decreases pairs@.len() - next,
    {
        let candidate: usize = pairs[next].1;
        assert(pairs@[at as int].1 < commands@.len());
        assert(pairs@[next as int].1 < commands@.len());
        assert(candidate > position) by {
            let a = pairs@[at as int];
            let b = pairs@[next as int];
            assert(a.0 < b.0 || a.0 == b.0 && a.1 <= b.1);
        }
        if same_bytes(commands[candidate].key(), commands[position].key()) {
            assert(commands@[candidate as int].key_bytes() == commands@[position as int].key_bytes());
            return true;
        }
        next = next + 1;
    }
    proof {
        assert(pairs@[at as int].1 < commands@.len());
        assert forall|later: int| position < later < commands@.len() implies (#[trigger] commands@[later]).key_bytes()
            != commands@[position as int].key_bytes() by {
            if commands@[later].key_bytes() == commands@[position as int].key_bytes() {
                let pair = (key_word(commands@[later].key_bytes()), later as usize);
                assert(pairs@.contains(pair));
                let k = choose|k: int| 0 <= k < pairs@.len() && pairs@[k] == pair;
                assert(pairs@[at as int].0 == key_word(commands@[position as int].key_bytes()));
                assert(pairs@[k].0 == word);
                if k < at {
                    let a = pairs@[k];
                    let b = pairs@[at as int];
                    assert(a.0 < b.0 || a.0 == b.0 && a.1 <= b.1);
                }
                assert(k > at);
                if k >= next {
                    if k > next {
                        let a = pairs@[next as int];
                        let b = pairs@[k];
                        assert(a.0 < b.0 || a.0 == b.0 && a.1 <= b.1);
                    }
                    let a = pairs@[at as int];
                    let b = pairs@[next as int];
                    assert(a.0 < b.0 || a.0 == b.0 && a.1 <= b.1);
                    assert(pairs@[next as int].0 == word);
                }
            }
        }
    }
    false
}

/// Which commands of a batch no later command replaces.
fn last_commands(commands: &[Command]) -> (last: Vec<bool>)
    ensures
        last@.len() == commands@.len(),
        forall|position: int|
            0 <= position < commands@.len() ==> #[trigger] last@[position] == is_last(commands@, position),
{
    let pairs = sorted_words(commands);
    let mut last: Vec<bool> = Vec::new();
    let mut filled: usize = 0;
    while filled < commands.len()
        invariant
            filled <= commands@.len(),
            last@.len() == filled,
        decreases commands@.len() - filled,
    {
        last.push(true);
        filled = filled + 1;
    }
    let mut at: usize = 0;
    while at < pairs.len()
        invariant
            at <= pairs@.len(),
            sorted_pairs(pairs@),
            pairs_of(commands@, pairs@),
            last@.len() == commands@.len(),
            forall|i: int|
                0 <= i < at ==> last@[(#[trigger] pairs@[i]).1 as int] == is_last(commands@, pairs@[i].1 as int),
        decreases pairs@.len() - at,
    {
        let later = superseded(commands, &pairs, at);
        let ghost before = last@;
        assert(pairs@[at as int].1 < commands@.len());
        last.set(pairs[at].1, !later);
        assert forall|i: int| 0 <= i < at + 1 implies last@[(#[trigger] pairs@[i]).1 as int] == is_last(
            commands@,
            pairs@[i].1 as int,
        ) by {
            if i < at {
                assert(pairs@[i].1 != pairs@[at as int].1);
            }
        }
        at = at + 1;
    }
    assert forall|position: int| 0 <= position < commands@.len() implies #[trigger] last@[position] == is_last(
        commands@,
        position,
    ) by {
        let pair = (key_word(commands@[position].key_bytes()), position as usize);
        assert(pairs@.contains(pair));
        let k = choose|k: int| 0 <= k < pairs@.len() && pairs@[k] == pair;
        assert(last@[pairs@[k].1 as int] == is_last(commands@, pairs@[k].1 as int));
    }
    last
}

/// Plans one batch: of the commands about one key only the last is carried out, and
/// what is carried out keeps its order.
pub fn process_commands(commands: &[Command]) -> (result: Result<CommandPlan, Error>)
    ensures
        match result {
            Ok(plan) => {
                &&& lists_last(commands@, commands@.len() as int, true, plan.puts@)
                &&& lists_last(commands@, commands@.len() as int, false, plan.deletes@)
                &&& keys_at(commands@, plan.puts@, plan.put_keys@)
                &&& keys_at(commands@, plan.deletes@, plan.delete_keys@)
                &&& forall|position: int|
                    is_last(commands@, position) ==> valid_key((#[trigger] commands@[position]).key_bytes())
            },
            Err(error) => exists|position: int|
                {
                    &&& #[trigger] first_invalid(commands@, position)
                    &&& key_validation(commands@[position].key_bytes(), Err(error))
                },
        },
{
    let last = last_commands(commands);
    let mut plan = CommandPlan {
        puts: Vec::new(),
        put_keys: Vec::new(),
        deletes: Vec::new(),
        delete_keys: Vec::new(),
    };
    let mut position: usize = 0;
    while position < commands.len()
        invariant
            position <= commands@.len(),
            last@.len() == commands@.len(),
            forall|p: int| 0 <= p < commands@.len() ==> #[trigger] last@[p] == is_last(commands@, p),
            lists_last(commands@, position as int, true, plan.puts@),
            lists_last(commands@, position as int, false, plan.deletes@),
            keys_at(commands@, plan.puts@, plan.put_keys@),
            keys_at(commands@, plan.deletes@, plan.delete_keys@),
            forall|p: int|
                0 <= p < position && is_last(commands@, p) ==> valid_key((#[trigger] commands@[p]).key_bytes()),
        decreases commands@.len() - position,
    {
        let ghost puts = plan.puts@;
        let ghost deletes = plan.deletes@;
        if last[position] {
            let command = &commands[position];
            let key = match EntryKey::new(command.key()) {
                Ok(key) => key,
                Err(error) => {
                    assert(first_invalid(commands@, position as int));
                    return Err(error);
                },
            };
            match &command.operation {
                Operation::Put { .. } => {
                    plan.puts.push(position);
                    plan.put_keys.push(key);
                },
                Operation::Delete { .. } => {
                    plan.deletes.push(position);
                    plan.delete_keys.push(key);
                },
            }
        }
        proof {
            lemma_next_listed(commands@, position as int, true, puts, plan.puts@);
            lemma_next_listed(commands@, position as int, false, deletes, plan.deletes@);
        }
        position = position + 1;
    }
    Ok(plan)
}

proof fn lemma_next_listed(
    commands: Seq<Command>,
    end: int,
    puts: bool,
    before: Seq<usize>,
    after: Seq<usize>,
)
    requires
        0 <= end < commands.len() <= usize::MAX,
        lists_last(commands, end, puts, before),
        after == if is_last(commands, end) && (commands[end].operation is Put) == puts {
            before.push(end as usize)
        } else {
            before
        },
    ensures
        lists_last(commands, end + 1, puts, after),
{
    assert forall|position: int|
        #![trigger commands[position]]
        0 <= position < end + 1 && is_last(commands, position) && (commands[position].operation is Put)
            == puts implies after.contains(position as usize) by {
        if position < end {
            assert(before.contains(position as usize));
            let k = choose|k: int| 0 <= k < before.len() && before[k] == position as usize;
            assert(after[k] == position as usize);
        } else {
            assert(after[before.len() as int] == position as usize);
        }
    }
}

/// A plan carries out every key of the batch exactly once, by its last command.
pub proof fn law_the_last_command_of_a_key_counts(commands: Seq<Command>, plan: CommandPlan, position: int)
    requires
        commands.len() <= usize::MAX,
        0 <= position < commands.len(),
        lists_last(commands, commands.len() as int, true, plan.puts@),
        lists_last(commands, commands.len() as int, false, plan.deletes@),
    ensures
        plan.puts@.contains(position as usize) <==> is_last(commands, position) && commands[position].operation is Put,
        plan.deletes@.contains(position as usize) <==> is_last(commands, position)
            && commands[position].operation is Delete,
        exists|last: int|
            {
                &&& position <= last
                &&& #[trigger] is_last(commands, last)
                &&& commands[last].key_bytes() == commands[position].key_bytes()
            },
{
    lemma_key_has_a_last_command(commands, position);
}

proof fn lemma_key_has_a_last_command(commands: Seq<Command>, position: int)
    requires
        0 <= position < commands.len(),
    ensures
        exists|last: int|
            {
                &&& position <= last
                &&& #[trigger] is_last(commands, last)
                &&& commands[last].key_bytes() == commands[position].key_bytes()
            },
    decreases commands.len() - position,
{
    if is_last(commands, position) {
    } else {
        let later = choose|later: int|
            position < later < commands.len() && (#[trigger] commands[later]).key_bytes()
                == commands[position].key_bytes();
        lemma_key_has_a_last_command(commands, later);
    }
}

/// How many of the outcomes are rejections.
pub open spec fn rejections(outcomes: Seq<InsertOutcome>) -> nat
    decreases outcomes.len(),
{
    if outcomes.len() == 0 {
        0
    } else {
        rejections(outcomes.drop_last()) + if outcomes.last() is Rejected { 1nat } else { 0nat }
    }
}

/// What one batch of commands came to.
#[derive(Debug, Clone, Copy)]
pub struct ProcessResult {
    pub reclaim: ReclaimStats,
    pub write_runs: usize,
    pub written_bytes: usize,
    pub storage_rejected_puts: usize,
}

impl Default for ProcessResult {
    fn default() -> (result: ProcessResult)
        ensures
            result.reclaim.is_zero(),
            result.write_runs == 0,
            result.written_bytes == 0,
            result.storage_rejected_puts == 0,
    {
        ProcessResult {
            reclaim: ReclaimStats::default(),
            write_runs: 0,
            written_bytes: 0,
            storage_rejected_puts: 0,
        }
    }
}

impl ProcessResult {
    /// Adds what a batch of inserts came to.
    pub fn merge(&mut self, result: &BatchInsertResult)
        ensures
            final(self).reclaim.is_merge_of(old(self).reclaim, result.reclaim),
            final(self).write_runs == sum_size(old(self).write_runs, result.write_runs),
            final(self).written_bytes == sum_size(old(self).written_bytes, result.written_bytes),
            final(self).storage_rejected_puts == sum_size(
                old(self).storage_rejected_puts,
                rejections(result.outcomes@) as usize,
            ),
    {
        let mut rejected: usize = 0;
        let mut i: usize = 0;
        while i < result.outcomes.len()
            invariant
                i <= result.outcomes@.len(),
                rejected <= i,
                rejected == rejections(result.outcomes@.take(i as int)),
            decreases result.outcomes@.len() - i,
        {
            assert(result.outcomes@.take(i + 1).drop_last() =~= result.outcomes@.take(i as int));
            match result.outcomes[i] {
                InsertOutcome::Rejected => {
                    rejected = rejected + 1;
                },
                _ => {},
            }
            i = i + 1;
        }
        assert(result.outcomes@.take(i as int) =~= result.outcomes@);
        self.reclaim.merge(result.reclaim);
        self.write_runs = self.write_runs.saturating_add(result.write_runs);
        self.written_bytes = self.written_bytes.saturating_add(result.written_bytes);
        self.storage_rejected_puts = self.storage_rejected_puts.saturating_add(rejected);
    }
}

/// The longest sleep while a write waits for its budget, so that a shutdown is seen.
pub const BUDGET_POLL_NANOS: u128 = 10_000_000;

/// The write loop: its bounds, and the batch that it is collecting.
#[derive(Debug, Clone, Copy, PartialEq, Eq, Structural)]
pub struct WriteLoop {
    pub batch_entries: usize,
    pub batch_bytes: usize,
    /// The byte bound of a batch while physical reads are active.
    pub read_busy_batch_bytes: usize,
    /// How long after it was queued a batch's first command may wait for more.
    pub batch_delay: u128,
    pub checkpoint_interval: u128,
    /// The commands held for the next batch.
    pub held: usize,
    /// The bytes charged by those commands.
    pub held_bytes: usize,
}

/// What the write loop is told.
#[derive(Debug, Clone, Copy, PartialEq, Eq, Structural)]
pub enum LoopEvent {
    /// The loop is idle, this long after the last checkpoint request.
    Idle { since_checkpoint: u128 },
    /// The first command of a batch came in.
    Received { charge: usize, shutdown: bool, readers_active: bool },
    /// No command came in before the timeout.
    TimedOut,
    /// No command can come in any more.
    Disconnected,
    /// A further command came in.
    More { charge: usize, readers_active: bool },
    /// No further command is there. The batch's first one was queued this long ago.
    Empty { first_age: u128 },
    /// No further command will be had for this batch.
    NoMore,
    /// Whether the engine shuts down, and how long the write budget is overdrawn.
    Budget { shutdown: bool, delay: u128 },
    /// The batch was processed, this long after the last checkpoint request.
    Processed { since_checkpoint: u128 },
    /// The batch failed.
    Failed,
    /// The checkpoint request failed.
    CheckpointRefused,
}

/// What the write loop does next.
#[derive(Debug, Clone, Copy, PartialEq, Eq, Structural)]
pub enum LoopAction {
    /// Receive the first command of a batch, waiting at most this long.
    Receive { timeout: u128 },
    /// Take a further command, if one is there.
    Poll,
    /// Receive a further command, waiting at most this long.
    Await { timeout: u128 },
    /// Look at the shutdown flag and the write budget.
    CheckBudget,
    /// Sleep this long, then look at the budget again.
    Sleep { nanos: u128 },
    /// Process the commands held.
    Process,
    /// Ask for a checkpoint, then start over.
    RequestCheckpoint,
    /// Drop this many commands held, and all that are still queued, and stop.
    Abandon { commands: usize },
    /// Stop.
    Stop,
}

pub open spec fn difference(a: u128, b: u128) -> u128 {
    if a >= b {
        (a - b) as u128
    } else {
        0
    }
}

impl WriteLoop {
    /// The byte bound of the batch that is being collected.
    pub open spec fn byte_bound(self, readers_active: bool) -> usize {
        if readers_active && self.read_busy_batch_bytes < self.batch_bytes {
            self.read_busy_batch_bytes
        } else {
            self.batch_bytes
        }
    }

    /// Whether the batch has room for a further command.
    pub open spec fn has_room(self, readers_active: bool) -> bool {
        self.held < self.batch_entries && self.held_bytes < self.byte_bound(readers_active)
    }

    /// The loop with no commands held.
    pub open spec fn emptied(self) -> WriteLoop {
        WriteLoop { held: 0, held_bytes: 0, ..self }
    }

    /// The state after an event.
    pub open spec fn after(self, event: LoopEvent) -> WriteLoop {
        match event {
            LoopEvent::Received { charge, shutdown, .. } => if shutdown {
                self.emptied()
            } else {
                WriteLoop { held: 1, held_bytes: charge, ..self }
            },
            LoopEvent::More { charge, .. } => WriteLoop {
                held: sum_size(self.held, 1),
                held_bytes: sum_size(self.held_bytes, charge),
                ..self
            },
            LoopEvent::Budget { shutdown: true, .. } => self.emptied(),
            LoopEvent::Processed { .. } => self.emptied(),
            LoopEvent::Failed => self.emptied(),
            _ => self,
        }
    }

    /// What follows an event.
    pub open spec fn answer(self, event: LoopEvent) -> LoopAction {
        match event {
            LoopEvent::Idle { since_checkpoint } => LoopAction::Receive {
                timeout: difference(self.checkpoint_interval, since_checkpoint),
            },
            LoopEvent::Received { shutdown, readers_active, .. } => if shutdown {
                LoopAction::Abandon { commands: 1 }
            } else if self.after(event).has_room(readers_active) {
                LoopAction::Poll
            } else {
                LoopAction::CheckBudget
            },
            LoopEvent::More { readers_active, .. } => if self.after(event).has_room(readers_active) {
                LoopAction::Poll
            } else {
                LoopAction::CheckBudget
            },
            LoopEvent::Empty { first_age } => if first_age >= self.batch_delay {
                LoopAction::CheckBudget
            } else {
                LoopAction::Await { timeout: difference(self.batch_delay, first_age) }
            },
            LoopEvent::NoMore => LoopAction::CheckBudget,
            LoopEvent::Budget { shutdown, delay } => if shutdown {
                LoopAction::Abandon { commands: self.held }
            } else if delay == 0 {
                LoopAction::Process
            } else {
                LoopAction::Sleep { nanos: if delay < BUDGET_POLL_NANOS { delay } else { BUDGET_POLL_NANOS } }
            },
            LoopEvent::Processed { since_checkpoint } => if since_checkpoint >= self.checkpoint_interval {
                LoopAction::RequestCheckpoint
            } else {
                LoopAction::Receive { timeout: difference(self.checkpoint_interval, since_checkpoint) }
            },
            LoopEvent::TimedOut => LoopAction::RequestCheckpoint,
            LoopEvent::Disconnected => LoopAction::Stop,
            LoopEvent::Failed => LoopAction::Stop,
            LoopEvent::CheckpointRefused => LoopAction::Stop,
        }
    }

    /// A loop with no commands held.
    pub fn new(
        batch_entries: usize,
        batch_bytes: usize,
        read_busy_batch_bytes: usize,
        batch_delay: u128,
        checkpoint_interval: u128,
    ) -> (writer: WriteLoop)
        ensures
            writer == (WriteLoop {
                batch_entries,
                batch_bytes,
                read_busy_batch_bytes,
                batch_delay,
                checkpoint_interval,
                held: 0,
                held_bytes: 0,
            }),
    {
        WriteLoop {
            batch_entries,
            batch_bytes,
            read_busy_batch_bytes,
            batch_delay,
            checkpoint_interval,
            held: 0,
            held_bytes: 0,
        }
    }

    fn collect(&self, readers_active: bool) -> (action: LoopAction)
        ensures
            action == if self.has_room(readers_active) { LoopAction::Poll } else { LoopAction::CheckBudget },
    {
        let bound: usize = if readers_active && self.read_busy_batch_bytes < self.batch_bytes {
            self.read_busy_batch_bytes
        } else {
            self.batch_bytes
        };
        if self.held < self.batch_entries && self.held_bytes < bound {
            LoopAction::Poll
        } else {
            LoopAction::CheckBudget
        }
    }

    fn drop_held(&mut self)
        ensures
            *final(self) == old(self).emptied(),
    {
        self.held = 0;
        self.held_bytes = 0;
    }

    /// Takes note of an event and decides what follows.
    pub fn step(&mut self, event: LoopEvent) -> (action: LoopAction)
        ensures
            *final(self) == old(self).after(event),
            action == old(self).answer(event),
    {
        match event {
            LoopEvent::Idle { since_checkpoint } => LoopAction::Receive {
                timeout: self.checkpoint_interval.saturating_sub(since_checkpoint),
            },
            LoopEvent::Received { charge, shutdown, readers_active } => {
                if shutdown {
                    self.drop_held();
                    return LoopAction::Abandon { commands: 1 };
                }
                self.held = 1;
                self.held_bytes = charge;
                self.collect(readers_active)
            },
            LoopEvent::More { charge, readers_active } => {
                self.held = self.held.saturating_add(1);
                self.held_bytes = self.held_bytes.saturating_add(charge);
                self.collect(readers_active)
            },
            LoopEvent::Empty { first_age } => {
                if first_age >= self.batch_delay {
                    LoopAction::CheckBudget
                } else {
                    LoopAction::Await { timeout: self.batch_delay - first_age }
                }
            },
            LoopEvent::NoMore => LoopAction::CheckBudget,
            LoopEvent::Budget { shutdown, delay } => {
                if shutdown {
                    let commands: usize = self.held;
                    self.drop_held();
                    LoopAction::Abandon { commands }
                } else if delay == 0 {
                    LoopAction::Process
                } else if delay < BUDGET_POLL_NANOS {
                    LoopAction::Sleep { nanos: delay }
                } else {
                    LoopAction::Sleep { nanos: BUDGET_POLL_NANOS }
                }
            },
            LoopEvent::Processed { since_checkpoint } => {
                self.drop_held();
                if since_checkpoint >= self.checkpoint_interval {
                    LoopAction::RequestCheckpoint
                } else {
                    LoopAction::Receive { timeout: self.checkpoint_interval - since_checkpoint }
                }
            },
            LoopEvent::Failed => {
                self.drop_held();
                LoopAction::Stop
            },
            LoopEvent::TimedOut => LoopAction::RequestCheckpoint,
            LoopEvent::Disconnected => LoopAction::Stop,
            LoopEvent::CheckpointRefused => LoopAction::Stop,
        }
    }
}

/// The commands that an event hands to the loop.
pub open spec fn taken(event: LoopEvent) -> nat {
    match event {
        LoopEvent::Received { .. } => 1,
        LoopEvent::More { .. } => 1,
        _ => 0,
    }
}

/// The commands that an event and its answer account for: processed, failed or dropped.
pub open spec fn settled(writer: WriteLoop, event: LoopEvent) -> nat {
    match event {
        LoopEvent::Processed { .. } => writer.held as nat,
        LoopEvent::Failed => writer.held as nat,
        _ => match writer.answer(event) {
            LoopAction::Abandon { commands } => commands as nat,
            _ => 0,
        },
    }
}

/// No accepted command is lost: each one that the loop takes is held until it is
/// processed, fails with its batch, or is dropped and counted by a shutdown.
pub proof fn law_no_command_is_lost(writer: WriteLoop, event: LoopEvent)
    requires
        writer.held < usize::MAX,
        event is Received ==> writer.held == 0,
    ensures
        writer.held + taken(event) == writer.after(event).held + settled(writer, event),
{
}

/// A batch never holds more commands than its bound, and takes a further command only
/// while it is below its byte bound. Its first command is taken whatever its size.
pub proof fn law_batches_stay_within_their_bounds(writer: WriteLoop, event: LoopEvent)
    requires
        writer.batch_entries > 0,
        event is More ==> writer.held < writer.batch_entries,
        writer.held <= writer.batch_entries,
    ensures
        writer.after(event).held <= writer.batch_entries,
        writer.answer(event) is Poll ==> writer.after(event).held < writer.batch_entries
            && writer.after(event).held_bytes < writer.batch_bytes,
        event matches LoopEvent::Received { charge, shutdown: false, .. } ==> writer.after(event).held == 1
            && writer.after(event).held_bytes == charge,
{
}

/// During a shutdown nothing that was not started is written.
pub proof fn law_shutdown_starts_no_batch(writer: WriteLoop, charge: usize, readers_active: bool, delay: u128)
    ensures
        writer.answer(LoopEvent::Received { charge, shutdown: true, readers_active }) is Abandon,
        writer.answer(LoopEvent::Budget { shutdown: true, delay }) == (LoopAction::Abandon { commands: writer.held }),
{
}

/// What a store holds once the first `n` commands were carried out one after the other.
pub open spec fn replayed(store: Map<Seq<u8>, EngineValue>, commands: Seq<Command>, n: nat) -> Map<
    Seq<u8>,
    EngineValue,
>
    decreases n,
{
    if n == 0 {
        store
    } else {
        let earlier = replayed(store, commands, (n - 1) as nat);
        match commands[n - 1].operation {
            Operation::Put { key, value } => earlier.insert(contents(key), value),
            Operation::Delete { key } => earlier.remove(contents(key)),
        }
    }
}

/// The last command about a key decides what a store holds for it.
proof fn lemma_replayed(store: Map<Seq<u8>, EngineValue>, commands: Seq<Command>, n: nat, position: int)
    requires
        0 <= position < n <= commands.len(),
        forall|later: int|
            position < later < n ==> (#[trigger] commands[later]).key_bytes() != commands[position].key_bytes(),
    ensures
        ({
            let last = replayed(store, commands, n);
            match commands[position].operation {
                Operation::Put { key, value } => last.contains_key(contents(key)) && last[contents(key)] == value,
                Operation::Delete { key } => !last.contains_key(contents(key)),
            }
        }),
    decreases n,
{
    if position < n - 1 {
        lemma_replayed(store, commands, (n - 1) as nat, position);
        assert(commands[n - 1].key_bytes() != commands[position].key_bytes());
    }
}

proof fn lemma_replayed_elsewhere(store: Map<Seq<u8>, EngineValue>, commands: Seq<Command>, n: nat, key: Seq<u8>)
    requires
        n <= commands.len(),
        forall|i: int| 0 <= i < n ==> (#[trigger] commands[i]).key_bytes() != key,
    ensures
        replayed(store, commands, n).contains_key(key) == store.contains_key(key),
        store.contains_key(key) ==> replayed(store, commands, n)[key] == store[key],
    decreases n,
{
    if n > 0 {
        lemma_replayed_elsewhere(store, commands, (n - 1) as nat, key);
        assert(commands[n - 1].key_bytes() != key);
    }
}

/// A planned batch does what its commands do one after the other: every key that it writes
/// ends with the value that it writes, every key that it removes is gone, no key is both
/// written and removed or occurs twice, and every key that it leaves out is as before.
pub proof fn law_a_plan_does_what_the_commands_do(
    store: Map<Seq<u8>, EngineValue>,
    commands: Seq<Command>,
    plan: CommandPlan,
    key: Seq<u8>,
)
    requires
        commands.len() <= usize::MAX,
        lists_last(commands, commands.len() as int, true, plan.puts@),
        lists_last(commands, commands.len() as int, false, plan.deletes@),
        keys_at(commands, plan.puts@, plan.put_keys@),
        keys_at(commands, plan.deletes@, plan.delete_keys@),
    ensures
        ({
            let last = replayed(store, commands, commands.len());
            let written = exists|i: int| 0 <= i < plan.put_keys@.len() && (#[trigger] plan.put_keys@[i])@ == key;
            let removed = exists|i: int| 0 <= i < plan.delete_keys@.len() && (#[trigger] plan.delete_keys@[i])@ == key;
            &&& forall|i: int|
                0 <= i < plan.put_keys@.len() && (#[trigger] plan.put_keys@[i])@ == key ==> (
                commands[plan.puts@[i] as int].operation matches Operation::Put { value, .. } && last.contains_key(key)
                    && last[key] == value)
            &&& removed ==> !last.contains_key(key)
            &&& !(written && removed)
            &&& !written && !removed ==> last.contains_key(key) == store.contains_key(key) && (store.contains_key(key)
                ==> last[key] == store[key])
            &&& forall|i: int, j: int|
                0 <= i < j < plan.put_keys@.len() ==> (#[trigger] plan.put_keys@[i])@ != (#[trigger] plan.put_keys@[j])@
        }),
{
    let n = commands.len();
    let last = replayed(store, commands, n);
    assert forall|i: int| 0 <= i < plan.put_keys@.len() && (#[trigger] plan.put_keys@[i])@ == key implies (
    commands[plan.puts@[i] as int].operation matches Operation::Put { value, .. } && last.contains_key(key) && last[key]
        == value) by {
        let position = plan.puts@[i] as int;
        assert(is_last(commands, position));
        lemma_replayed(store, commands, n, position);
    }
    assert forall|i: int| 0 <= i < plan.delete_keys@.len() && (#[trigger] plan.delete_keys@[i])@ == key implies
        !last.contains_key(key) by {
        let position = plan.deletes@[i] as int;
        assert(is_last(commands, position));
        lemma_replayed(store, commands, n, position);
    }
    assert forall|i: int, j: int| 0 <= i < j < plan.put_keys@.len() implies (#[trigger] plan.put_keys@[i])@ != (
    #[trigger] plan.put_keys@[j])@ by {
        let a = plan.puts@[i] as int;
        let b = plan.puts@[j] as int;
        assert(plan.puts@[i] < plan.puts@[j]);
        assert(is_last(commands, a));
        assert(commands[b].key_bytes() != commands[a].key_bytes());
    }
    let written = exists|i: int| 0 <= i < plan.put_keys@.len() && (#[trigger] plan.put_keys@[i])@ == key;
    let removed = exists|i: int| 0 <= i < plan.delete_keys@.len() && (#[trigger] plan.delete_keys@[i])@ == key;
    if !written && !removed {
        assert forall|i: int| 0 <= i < n implies (#[trigger] commands[i]).key_bytes() != key by {
            if commands[i].key_bytes() == key {
                lemma_key_has_a_last_command(commands, i);
                let p = choose|p: int|
                    i <= p && #[trigger] is_last(commands, p) && commands[p].key_bytes() == commands[i].key_bytes();
                assert(commands[p] == commands[p]);
                if commands[p].operation is Put {
                    assert(plan.puts@.contains(p as usize));
                    let k = choose|k: int| 0 <= k < plan.puts@.len() && plan.puts@[k] == p as usize;
                    assert(plan.put_keys@[k]@ == key);
                } else {
                    assert(plan.deletes@.contains(p as usize));
                    let k = choose|k: int| 0 <= k < plan.deletes@.len() && plan.deletes@[k] == p as usize;
                    assert(plan.delete_keys@[k]@ == key);
                }
            }
        }
        lemma_replayed_elsewhere(store, commands, n, key);
    }
}

/// The count of rejections is the number of positions with that outcome.
pub proof fn law_rejections_count_positions(outcomes: Seq<InsertOutcome>)
    ensures
        ({
            let at = Set::new(|i: int| 0 <= i < outcomes.len() && outcomes[i] is Rejected);
            at.finite() && at.len() == rejections(outcomes)
        }),
    decreases outcomes.len(),
{
    let at = Set::new(|i: int| 0 <= i < outcomes.len() && outcomes[i] is Rejected);
    if outcomes.len() == 0 {
        assert(at =~= Set::empty());
    } else {
        let rest = outcomes.drop_last();
        law_rejections_count_positions(rest);
        let before = Set::new(|i: int| 0 <= i < rest.len() && rest[i] is Rejected);
        if outcomes.last() is Rejected {
            assert(at =~= before.insert(rest.len() as int));
        } else {
            assert(at =~= before);
        }
    }
}

/// A batch is collected as long as it has room and no longer: a further command is polled
/// for exactly while the batch holds fewer commands than its bound and fewer bytes than its
/// byte bound, and while reads are active than the smaller one.
pub proof fn law_batches_are_filled_to_their_bounds(writer: WriteLoop, charge: usize, readers_active: bool)
    requires
        writer.held < usize::MAX,
        writer.held_bytes + charge <= usize::MAX,
    ensures
        ({
            let bytes = writer.held_bytes + charge;
            let more = writer.answer(LoopEvent::More { charge, readers_active });
            &&& more is Poll <==> writer.held + 1 < writer.batch_entries && bytes < writer.batch_bytes && (
            readers_active ==> bytes < writer.read_busy_batch_bytes)
            &&& !(more is Poll) ==> more is CheckBudget
            &&& writer.after(LoopEvent::More { charge, readers_active }).held_bytes == bytes
        }),
        ({
            let first = writer.answer(LoopEvent::Received { charge, shutdown: false, readers_active });
            &&& first is Poll <==> 1 < writer.batch_entries && charge < writer.batch_bytes && (readers_active ==> charge
                < writer.read_busy_batch_bytes)
            &&& !(first is Poll) ==> first is CheckBudget
        }),
{
}

/// A batch is written as soon as, and only when, its budget allows and no shutdown is on; a
/// sleep ends no later than the budget does, and soon enough to see a shutdown.
pub proof fn law_a_batch_is_written_when_the_budget_allows(writer: WriteLoop, delay: u128)
    ensures
        ({
            let action = writer.answer(LoopEvent::Budget { shutdown: false, delay });
            &&& action is Process <==> delay == 0
            &&& delay > 0 ==> (action matches LoopAction::Sleep { nanos } && 0 < nanos <= delay && nanos <= 10_000_000
                && (nanos == delay || nanos == 10_000_000))
            &&& writer.after(LoopEvent::Budget { shutdown: false, delay }) == writer
        }),
        forall|event: LoopEvent| #[trigger]
            writer.answer(event) is Process ==> event == (LoopEvent::Budget { shutdown: false, delay: 0 }),
{
}

/// A checkpoint is asked for whenever the interval has passed since the last request, after
/// a batch or after a wait for commands, which ends exactly then; and only then.
pub proof fn law_checkpoints_are_asked_for_in_time(writer: WriteLoop, since_checkpoint: u128)
    ensures
        ({
            let processed = writer.answer(LoopEvent::Processed { since_checkpoint });
            let idle = writer.answer(LoopEvent::Idle { since_checkpoint });
            &&& processed is RequestCheckpoint <==> since_checkpoint >= writer.checkpoint_interval
            &&& since_checkpoint < writer.checkpoint_interval ==> (processed matches LoopAction::Receive { timeout }
                && since_checkpoint + timeout == writer.checkpoint_interval)
            &&& since_checkpoint < writer.checkpoint_interval ==> (idle matches LoopAction::Receive { timeout }
                && since_checkpoint + timeout == writer.checkpoint_interval)
            &&& since_checkpoint >= writer.checkpoint_interval ==> idle == (LoopAction::Receive { timeout: 0 })
        }),
        writer.answer(LoopEvent::TimedOut) is RequestCheckpoint,
        forall|event: LoopEvent| #[trigger]
            writer.answer(event) is RequestCheckpoint ==> event is TimedOut || event is Processed,
{
}

/// A batch waits for more commands until its first one is as old as the batch may be delayed,
/// and the loop stops on every failure and once no command can come in.
pub proof fn law_batches_are_delayed_at_most_so_long(writer: WriteLoop, first_age: u128)
    ensures
        ({
            let action = writer.answer(LoopEvent::Empty { first_age });
            &&& first_age >= writer.batch_delay ==> action is CheckBudget
            &&& first_age < writer.batch_delay ==> (action matches LoopAction::Await { timeout } && first_age + timeout
                == writer.batch_delay)
        }),
        writer.answer(LoopEvent::NoMore) is CheckBudget,
        writer.answer(LoopEvent::Failed) is Stop,
        writer.answer(LoopEvent::Disconnected) is Stop,
        writer.answer(LoopEvent::CheckpointRefused) is Stop,
        writer.after(LoopEvent::Failed).held == 0,
{
}

/// The failure that is kept once all were noted, one after the other.
pub open spec fn kept_of_all(messages: Seq<Seq<char>>) -> Option<Seq<char>>
    decreases messages.len(),
{
    if messages.len() == 0 {
        None
    } else {
        kept_failure(kept_of_all(messages.drop_last()), messages.last())
    }
}

/// Of any number of failures the first is kept.
pub proof fn law_the_first_failure_is_kept(messages: Seq<Seq<char>>)
    ensures
        messages.len() == 0 ==> kept_of_all(messages) is None,
        messages.len() > 0 ==> kept_of_all(messages) == Some(messages[0]),
    decreases messages.len(),
{
    if messages.len() > 0 {
        law_the_first_failure_is_kept(messages.drop_last());
    }
}

} // verus!
