//! Planning a batch of writes: which entries share a write, and the bytes to write.

use vstd::prelude::*;

use crate::counter::{ceil_div, div_ceil, product_size, saturating_mul_size, sum_size};
use crate::error::{superblock_error, Error};
use crate::format::{copy_stored_entry_range, is_stored_entry, stored_entry_len, stored_len};
use crate::model::{EntryKey, KeyDigest};
use crate::segment::format::{owner_reads_as, OwnerRecord, SegmentLayout, SegmentLocation, OWNER_RECORD_SIZE};
use crate::segment::store::{invalid_state, state_text, SegmentAllocation, SegmentStore};
use crate::segment::stats::PhysicalWriteStats;
use crate::sort::{lemma_same_pairs, sort_pairs, sorted_pairs};
use crate::wire::{changed_only, write_at, zero_range, zeroed};

verus! {

/// One entry to write into the slots allocated for it.
#[derive(Debug, Clone, Copy)]
pub struct SegmentWrite<'a> {
    pub allocation: SegmentAllocation,
    pub key: &'a EntryKey,
    pub key_digest: KeyDigest,
    pub value: &'a [u8],
    pub checksum: u32,
}

impl<'a> SegmentWrite<'a> {
    /// The length of the stored entry, if it has one.
    pub open spec fn size(self) -> Option<nat> {
        stored_len(self.key@.len(), self.value@.len())
    }

    /// The first slot.
    pub open spec fn first(self) -> nat {
        self.allocation.physical_slot as nat
    }

    /// The slot after the last.
    pub open spec fn end(self) -> nat {
        self.allocation.physical_slot as nat + self.allocation.slots as nat
    }

    /// The entry fits a segment, and the allocation has as many slots as it needs.
    pub open spec fn fits(self, layout: SegmentLayout) -> bool {
        &&& self.size() is Some
        &&& self.value@.len() > 0
        &&& self.size()->0 <= layout.segment_size
        &&& self.allocation.slots == ceil_div(self.size()->0, layout.slot_size as nat)
    }

    /// The record that names the owner of the slots.
    pub open spec fn owner(self) -> OwnerRecord {
        OwnerRecord {
            key_digest: self.key_digest,
            segment_generation: self.allocation.segment_generation,
            stored_len: self.size()->0 as u32,
            value_len: self.value@.len() as u32,
            checksum: self.checksum,
            priority: self.allocation.priority,
            sequence: self.allocation.sequence,
        }
    }

    /// Where the entry is found once it is written.
    pub open spec fn location(self) -> SegmentLocation {
        SegmentLocation {
            physical_slot: self.allocation.physical_slot,
            segment_generation: self.allocation.segment_generation,
            stored_len: self.size()->0 as u32,
            checksum: self.checksum,
            priority: self.allocation.priority,
        }
    }

    fn stored_len(self) -> (len: usize)
        requires
            self.size() is Some,
        ensures
            len == self.size()->0,
            len <= u32::MAX,
    {
        match stored_entry_len(self.key, self.value) {
            Some(len) => len,
            None => 0,
        }
    }
}

/// Locations and sizes of a planned batch.
#[derive(Debug, PartialEq, Eq)]
pub struct SegmentWriteResult {
    pub locations: Vec<SegmentLocation>,
    pub data_runs: usize,
    pub owner_runs: usize,
    pub data_bytes: usize,
    pub owner_bytes: usize,
}

impl Default for SegmentWriteResult {
    fn default() -> (result: SegmentWriteResult)
        ensures
            result.locations@.len() == 0,
            result.data_runs == 0,
            result.owner_runs == 0,
            result.data_bytes == 0,
            result.owner_bytes == 0,
    {
        SegmentWriteResult { locations: Vec::new(), data_runs: 0, owner_runs: 0, data_bytes: 0, owner_bytes: 0 }
    }
}

/// Part of an entry within a run.
#[derive(Debug, Clone, Copy, PartialEq, Eq, Structural)]
pub struct SegmentWritePiece {
    /// The write that the part belongs to.
    pub index: usize,
    /// The part's first slot in the run.
    pub run_slot: usize,
    /// The part's first slot in the entry.
    pub write_slot: usize,
    pub slots: usize,
}

/// Adjacent slots that are written together.
#[derive(Debug)]
pub struct SegmentWriteRun {
    pub first_slot: u64,
    pub slots: usize,
    pub pieces: Vec<SegmentWritePiece>,
}

/// Everything there is to write for a batch.
#[derive(Debug)]
pub struct SegmentWritePlan {
    pub data_runs: Vec<SegmentWriteRun>,
    pub owner_runs: Vec<SegmentWriteRun>,
    pub result: SegmentWriteResult,
}

/// A piece lies within its write and its run, at the slots of both.
pub open spec fn piece_ok(run: SegmentWriteRun, piece: SegmentWritePiece, writes: Seq<SegmentWrite>) -> bool {
    &&& piece.index < writes.len()
    &&& piece.slots > 0
    &&& piece.write_slot + piece.slots <= writes[piece.index as int].allocation.slots
    &&& piece.run_slot + piece.slots <= run.slots
    &&& run.first_slot + piece.run_slot == writes[piece.index as int].first() + piece.write_slot
}

/// The pieces of a run follow each other without a gap, from its first to its last slot.
pub open spec fn pieces_tile(run: SegmentWriteRun) -> bool {
    let pieces = run.pieces@;
    &&& pieces.len() > 0
    &&& pieces[0].run_slot == 0
    &&& pieces.last().run_slot + pieces.last().slots == run.slots
    &&& forall|p: int, q: int|
        0 <= p && q == p + 1 && q < pieces.len() ==> (#[trigger] pieces[q]).run_slot == (#[trigger] pieces[p]).run_slot
            + pieces[p].slots
}

/// A run has at most `maximum` slots and consists of its pieces.
pub open spec fn run_ok(run: SegmentWriteRun, writes: Seq<SegmentWrite>, maximum: nat) -> bool {
    &&& 0 < run.slots <= maximum
    &&& pieces_tile(run)
    &&& forall|p: int| 0 <= p < run.pieces@.len() ==> piece_ok(run, #[trigger] run.pieces@[p], writes)
}

/// Piece `p` of run `r` holds slot `slot` of write `index`.
pub open spec fn holds_slot(runs: Seq<SegmentWriteRun>, r: int, p: int, index: int, slot: int) -> bool {
    &&& 0 <= r < runs.len()
    &&& 0 <= p < runs[r].pieces@.len()
    &&& runs[r].pieces@[p].index == index
    &&& runs[r].pieces@[p].write_slot <= slot < runs[r].pieces@[p].write_slot + runs[r].pieces@[p].slots
}

/// Some piece holds slot `slot` of write `index`.
pub open spec fn covered(runs: Seq<SegmentWriteRun>, index: int, slot: int) -> bool {
    exists|r: int, p: int| #[trigger] holds_slot(runs, r, p, index, slot)
}

/// Run `r` ends before run `r + 1` begins, and the two could not have been one.
pub open spec fn runs_apart(runs: Seq<SegmentWriteRun>, r: int, maximum: nat) -> bool {
    let end = runs[r].first_slot + runs[r].slots;
    &&& end <= runs[r + 1].first_slot
    &&& end < runs[r + 1].first_slot || runs[r].slots == maximum
}

/// The runs hold every slot of every write, adjacent slots together, up to `maximum`
/// slots in one run.
pub open spec fn runs_cover(runs: Seq<SegmentWriteRun>, writes: Seq<SegmentWrite>, maximum: nat) -> bool {
    &&& forall|r: int| 0 <= r < runs.len() ==> run_ok(#[trigger] runs[r], writes, maximum)
    &&& forall|r: int| 0 <= r < runs.len() - 1 ==> #[trigger] runs_apart(runs, r, maximum)
    &&& forall|i: int, s: int|
        0 <= i < writes.len() && 0 <= s < writes[i].allocation.slots ==> #[trigger] covered(runs, i, s)
}

/// The writes in ascending order of their first slots.
pub open spec fn sorted_order(order: Seq<(u64, usize)>, writes: Seq<SegmentWrite>) -> bool {
    &&& order.len() == writes.len()
    &&& sorted_pairs(order)
    &&& forall|k: int|
        0 <= k < order.len() ==> (#[trigger] order[k]).1 < writes.len() && order[k].0
            == writes[order[k].1 as int].allocation.physical_slot
    &&& forall|i: int| 0 <= i < writes.len() ==> #[trigger] order.contains((writes[i].allocation.physical_slot, i as usize))
}

/// What keeps neighbours in the order from being written together.
#[derive(Clone, Copy, PartialEq, Eq, Structural)]
pub enum OrderFault {
    EndOverflow,
    Overlap,
}

/// What is wrong between neighbour `k` and the next.
pub open spec fn neighbour_fault(order: Seq<(u64, usize)>, writes: Seq<SegmentWrite>, k: int) -> Option<OrderFault> {
    let end = writes[order[k].1 as int].end();
    if end > u64::MAX {
        Some(OrderFault::EndOverflow)
    } else if end > writes[order[k + 1].1 as int].first() {
        Some(OrderFault::Overlap)
    } else {
        None
    }
}

/// No write begins after write `i`.
pub open spec fn last_slots(writes: Seq<SegmentWrite>, i: int) -> bool {
    forall|j: int| 0 <= j < writes.len() ==> (#[trigger] writes[j]).first() <= writes[i].first()
}

/// What is wrong with one write.
pub open spec fn write_error(write: SegmentWrite, layout: SegmentLayout, error: Error) -> bool {
    if write.value@.len() == 0 {
        error is EmptyValue
    } else if write.size()->0 > layout.segment_size {
        error matches Error::StoredEntryTooLarge { len, maximum } && len == write.size()->0 && maximum
            == layout.segment_size
    } else {
        &&& write.allocation.slots != ceil_div(write.size()->0, layout.slot_size as nat)
        &&& superblock_error(error, state_text("segment allocation does not match the value length"@))
    }
}

/// The outcome of planning a batch.
pub open spec fn plans(
    writes: Seq<SegmentWrite>,
    layout: SegmentLayout,
    write_run_slots: nat,
    result: Result<SegmentWritePlan, Error>,
) -> bool {
    match result {
        Ok(plan) => {
            &&& writable(writes, layout)
            &&& runs_cover(plan.data_runs@, writes, write_run_slots)
            &&& runs_cover(plan.owner_runs@, writes, usize::MAX as nat)
            &&& plan.result.locations@ == Seq::new(writes.len(), |i: int| writes[i].location())
            &&& plan.result.data_runs == plan.data_runs@.len()
            &&& plan.result.owner_runs == plan.owner_runs@.len()
            &&& plan.result.data_bytes == product_size(total_slots(writes), layout.slot_size)
            &&& plan.result.owner_bytes == product_size(total_slots(writes), OWNER_RECORD_SIZE)
        },
        Err(error) => {
            ||| exists|i: int|
                {
                    &&& 0 <= i < writes.len()
                    &&& #[trigger] write_error(writes[i], layout, error)
                    &&& !writes[i].fits(layout)
                    &&& forall|k: int| 0 <= k < i ==> (#[trigger] writes[k]).fits(layout)
                }
            ||| {
                &&& forall|i: int| 0 <= i < writes.len() ==> (#[trigger] writes[i]).fits(layout)
                &&& exists|order: Seq<(u64, usize)>, k: int|
                    #![trigger neighbour_fault(order, writes, k)]
                    {
                        &&& sorted_order(order, writes)
                        &&& 0 <= k < order.len() - 1
                        &&& forall|j: int|
                            0 <= j < k ==> (#[trigger] neighbour_fault(order, writes, j)) is None
                        &&& match neighbour_fault(order, writes, k) {
                            Some(OrderFault::EndOverflow) => superblock_error(
                                error,
                                state_text("segment allocation end overflows u64"@),
                            ),
                            Some(OrderFault::Overlap) => superblock_error(
                                error,
                                state_text("segment batch allocations overlap"@),
                            ),
                            None => false,
                        }
                    }
            }
        },
    }
}

/// The writes fit, and no two of them share a slot.
pub open spec fn writable(writes: Seq<SegmentWrite>, layout: SegmentLayout) -> bool {
    &&& forall|i: int| 0 <= i < writes.len() ==> (#[trigger] writes[i]).fits(layout)
    &&& forall|i: int, j: int|
        0 <= i < writes.len() && 0 <= j < writes.len() && i != j ==> (#[trigger] writes[i]).end() <= (
        #[trigger] writes[j]).first() || writes[j].end() <= writes[i].first()
}

/// The slots of all writes together, held at the largest `usize`.
pub open spec fn total_slots(writes: Seq<SegmentWrite>) -> usize
    decreases writes.len(),
{
    if writes.len() == 0 {
        0
    } else {
        sum_size(total_slots(writes.drop_last()), writes.last().allocation.slots as usize)
    }
}

/// The order of the writes.
fn write_order(writes: &[SegmentWrite]) -> (order: Vec<(u64, usize)>)
    ensures
        sorted_order(order@, writes@),
{
    assert(writes.len() == writes@.len());
    let mut order: Vec<(u64, usize)> = Vec::new();
    let mut i: usize = 0;
    while i < writes.len()
        invariant
            i <= writes@.len() <= usize::MAX,
            order@ == Seq::new(i as nat, |k: int| (writes@[k].allocation.physical_slot, k as usize)),
        decreases writes@.len() - i,
    {
        order.push((writes[i].allocation.physical_slot, i));
        assert(order@ =~= Seq::new((i + 1) as nat, |k: int| (writes@[k].allocation.physical_slot, k as usize)));
        i = i + 1;
    }
    let ghost before = order@;
    sort_pairs(&mut order);
    proof {
        lemma_same_pairs(before, order@);
        assert forall|k: int| 0 <= k < order@.len() implies (#[trigger] order@[k]).1 < writes@.len() && order@[k].0
            == writes@[order@[k].1 as int].allocation.physical_slot by {
            assert(order@.contains(order@[k]));
            let j = choose|j: int| 0 <= j < before.len() && before[j] == order@[k];
        }
        assert forall|i: int| 0 <= i < writes@.len() implies #[trigger] order@.contains(
            (writes@[i].allocation.physical_slot, i as usize),
        ) by {
            assert(before[i] == (writes@[i].allocation.physical_slot, i as usize));
            assert(before.contains(before[i]));
        }
    }
    order
}

proof fn lemma_covered_push(runs: Seq<SegmentWriteRun>, run: SegmentWriteRun)
    ensures
        forall|i: int, s: int| #[trigger] covered(runs, i, s) ==> covered(runs.push(run), i, s),
{
    assert forall|i: int, s: int| #[trigger] covered(runs, i, s) implies covered(runs.push(run), i, s) by {
        let (r, p) = choose|r: int, p: int| #[trigger] holds_slot(runs, r, p, i, s);
        assert(holds_slot(runs.push(run), r, p, i, s));
    }
}

proof fn lemma_covered_extend(runs: Seq<SegmentWriteRun>, new: SegmentWriteRun, piece: SegmentWritePiece)
    requires
        runs.len() > 0,
        new.pieces@ == runs.last().pieces@.push(piece),
    ensures
        forall|i: int, s: int| #[trigger]
            covered(runs, i, s) ==> covered(runs.update(runs.len() - 1, new), i, s),
        forall|s: int|
            piece.write_slot <= s < piece.write_slot + piece.slots ==> #[trigger] covered(
                runs.update(runs.len() - 1, new),
                piece.index as int,
                s,
            ),
{
    let after = runs.update(runs.len() - 1, new);
    assert forall|i: int, s: int| #[trigger] covered(runs, i, s) implies covered(after, i, s) by {
        let (r, p) = choose|r: int, p: int| #[trigger] holds_slot(runs, r, p, i, s);
        assert(holds_slot(after, r, p, i, s));
    }
    assert forall|s: int| piece.write_slot <= s < piece.write_slot + piece.slots implies #[trigger] covered(
        after,
        piece.index as int,
        s,
    ) by {
        assert(holds_slot(after, runs.len() - 1, new.pieces@.len() - 1, piece.index as int, s));
    }
}

/// Appends the slots of one write to the runs.
fn append_write(runs: &mut Vec<SegmentWriteRun>, writes: &[SegmentWrite], index: usize, maximum: usize)
    requires
        index < writes@.len(),
        maximum > 0,
        writes@[index as int].allocation.physical_slot + writes@[index as int].allocation.slots <= 0x1_0000_0000_0000_0000,
        forall|r: int| 0 <= r < old(runs)@.len() ==> run_ok(#[trigger] old(runs)@[r], writes@, maximum as nat),
        forall|r: int| 0 <= r < old(runs)@.len() - 1 ==> #[trigger] runs_apart(old(runs)@, r, maximum as nat),
        old(runs)@.len() > 0 ==> old(runs)@.last().first_slot + old(runs)@.last().slots
            <= writes@[index as int].first(),
    ensures
        forall|r: int|
            0 <= r < final(runs)@.len() ==> run_ok(#[trigger] final(runs)@[r], writes@, maximum as nat),
        forall|r: int|
            0 <= r < final(runs)@.len() - 1 ==> #[trigger] runs_apart(final(runs)@, r, maximum as nat),
        final(runs)@.len() > 0 ==> final(runs)@.last().first_slot + final(runs)@.last().slots
            <= writes@[index as int].end(),
        forall|i: int, s: int| #[trigger] covered(old(runs)@, i, s) ==> covered(final(runs)@, i, s),
        forall|s: int|
            0 <= s < writes@[index as int].allocation.slots ==> #[trigger] covered(
                final(runs)@,
                index as int,
                s,
            ),
{
    let ghost original = runs@;
    let allocation = writes[index].allocation;
    let write_slots = allocation.slots as usize;
    let mut write_slot: usize = 0;
    while write_slot < write_slots
        invariant
            index < writes@.len(),
            maximum > 0,
            allocation == writes@[index as int].allocation,
            write_slots == allocation.slots,
            write_slot <= write_slots,
            allocation.physical_slot + allocation.slots <= 0x1_0000_0000_0000_0000,
            forall|r: int| 0 <= r < runs@.len() ==> run_ok(#[trigger] runs@[r], writes@, maximum as nat),
            forall|r: int| 0 <= r < runs@.len() - 1 ==> #[trigger] runs_apart(runs@, r, maximum as nat),
            runs@.len() > 0 ==> runs@.last().first_slot + runs@.last().slots <= allocation.physical_slot
                + write_slot,
            forall|i: int, s: int| #[trigger] covered(original, i, s) ==> covered(runs@, i, s),
            forall|s: int| 0 <= s < write_slot ==> #[trigger] covered(runs@, index as int, s),
        decreases write_slots - write_slot,
    {
        let physical_slot = allocation.physical_slot + write_slot as u64;
        let count = runs.len();
        let append = if count > 0 {
            let last = &runs[count - 1];
            last.slots < maximum && physical_slot - last.first_slot == last.slots as u64
        } else {
            false
        };
        let ghost before = runs@;
        if append {
            let mut run = match runs.pop() {
                Some(run) => run,
                None => return ,
            };
            let ghost last = run;
            assert(run_ok(before[before.len() - 1], writes@, maximum as nat));
            let rest = write_slots - write_slot;
            let room = maximum - run.slots;
            let slots = if rest < room {
                rest
            } else {
                room
            };
            let piece = SegmentWritePiece { index, run_slot: run.slots, write_slot, slots };
            run.pieces.push(piece);
            run.slots = run.slots + slots;
            assert(run.pieces@ == last.pieces@.push(piece));
            proof {
                assert forall|p: int| 0 <= p < run.pieces@.len() implies piece_ok(
                    run,
                    #[trigger] run.pieces@[p],
                    writes@,
                ) by {
                    if p < last.pieces@.len() {
                        assert(piece_ok(last, last.pieces@[p], writes@));
                    }
                }
                assert(run_ok(run, writes@, maximum as nat));
                lemma_covered_extend(before, run, piece);
            }
            runs.push(run);
            proof {
                assert(runs@ =~= before.update(before.len() - 1, run));
                assert forall|r: int| 0 <= r < runs@.len() - 1 implies #[trigger] runs_apart(
                    runs@,
                    r,
                    maximum as nat,
                ) by {
                    assert(runs_apart(before, r, maximum as nat));
                }
                assert forall|s: int| 0 <= s < write_slot + slots implies #[trigger] covered(
                    runs@,
                    index as int,
                    s,
                ) by {
                    if s < write_slot {
                        assert(covered(before, index as int, s));
                    }
                }
            }
            write_slot = write_slot + slots;
        } else {
            let rest = write_slots - write_slot;
            let slots = if rest < maximum {
                rest
            } else {
                maximum
            };
            let piece = SegmentWritePiece { index, run_slot: 0, write_slot, slots };
            let mut pieces: Vec<SegmentWritePiece> = Vec::new();
            pieces.push(piece);
            let run = SegmentWriteRun { first_slot: physical_slot, slots, pieces };
            proof {
                assert(piece_ok(run, run.pieces@[0], writes@));
                assert(run_ok(run, writes@, maximum as nat));
                lemma_covered_push(before, run);
            }
            runs.push(run);
            proof {
                assert(runs@ =~= before.push(run));
                assert forall|r: int| 0 <= r < runs@.len() - 1 implies #[trigger] runs_apart(
                    runs@,
                    r,
                    maximum as nat,
                ) by {
                    if r < before.len() - 1 {
                        assert(runs_apart(before, r, maximum as nat));
                    } else {
                        assert(run_ok(before[r], writes@, maximum as nat));
                    }
                }
                assert forall|s: int| 0 <= s < write_slot + slots implies #[trigger] covered(
                    runs@,
                    index as int,
                    s,
                ) by {
                    if s < write_slot {
                        assert(covered(before, index as int, s));
                    } else {
                        assert(holds_slot(runs@, runs@.len() - 1, 0, index as int, s));
                    }
                }
            }
            write_slot = write_slot + slots;
        }
    }
}

/// Joins adjacent writes into runs of at most `maximum` slots.
fn segment_write_runs(order: &Vec<(u64, usize)>, writes: &[SegmentWrite], maximum: usize) -> (runs: Vec<
    SegmentWriteRun,
>)
    requires
        maximum > 0,
        sorted_order(order@, writes@),
        forall|k: int| 0 <= k < order@.len() - 1 ==> (#[trigger] neighbour_fault(order@, writes@, k)) is None,
        forall|i: int|
            0 <= i < writes@.len() ==> (#[trigger] writes@[i]).allocation.physical_slot
                + writes@[i].allocation.slots <= 0x1_0000_0000_0000_0000,
    ensures
        runs_cover(runs@, writes@, maximum as nat),
{
    let mut runs: Vec<SegmentWriteRun> = Vec::new();
    let mut k: usize = 0;
    while k < order.len()
        invariant
            maximum > 0,
            k <= order@.len(),
            sorted_order(order@, writes@),
            forall|j: int|
                0 <= j < order@.len() - 1 ==> (#[trigger] neighbour_fault(order@, writes@, j)) is None,
            forall|i: int|
                0 <= i < writes@.len() ==> (#[trigger] writes@[i]).allocation.physical_slot
                    + writes@[i].allocation.slots <= 0x1_0000_0000_0000_0000,
            forall|r: int| 0 <= r < runs@.len() ==> run_ok(#[trigger] runs@[r], writes@, maximum as nat),
            forall|r: int| 0 <= r < runs@.len() - 1 ==> #[trigger] runs_apart(runs@, r, maximum as nat),
            k > 0 && runs@.len() > 0 ==> runs@.last().first_slot + runs@.last().slots
                <= writes@[order@[k - 1].1 as int].end(),
            k == 0 ==> runs@.len() == 0,
            forall|j: int, s: int|
                0 <= j < k && 0 <= s < writes@[order@[j].1 as int].allocation.slots ==> #[trigger] covered(
                    runs@,
                    order@[j].1 as int,
                    s,
                ),
        decreases order@.len() - k,
    {
        let index = order[k].1;
        let ghost before = runs@;
        proof {
            if k > 0 {
                assert(neighbour_fault(order@, writes@, k - 1) is None);
            }
        }
        append_write(&mut runs, writes, index, maximum);
        assert forall|j: int, s: int|
            0 <= j < k + 1 && 0 <= s < writes@[order@[j].1 as int].allocation.slots implies #[trigger] covered(
            runs@,
            order@[j].1 as int,
            s,
        ) by {
            if j < k {
                assert(covered(before, order@[j].1 as int, s));
            }
        }
        k = k + 1;
    }
    assert forall|i: int, s: int|
        0 <= i < writes@.len() && 0 <= s < writes@[i].allocation.slots implies #[trigger] covered(runs@, i, s) by {
        let pair = (writes@[i].allocation.physical_slot, i as usize);
        assert(order@.contains(pair));
        let j = choose|j: int| 0 <= j < order@.len() && order@[j] == pair;
        assert(covered(runs@, order@[j].1 as int, s));
    }
    runs
}

proof fn lemma_order_is_disjoint(order: Seq<(u64, usize)>, writes: Seq<SegmentWrite>, a: int, b: int)
    requires
        sorted_order(order, writes),
        forall|k: int| 0 <= k < order.len() - 1 ==> (#[trigger] neighbour_fault(order, writes, k)) is None,
        0 <= a < b < order.len(),
    ensures
        writes[order[a].1 as int].end() <= writes[order[b].1 as int].first(),
    decreases b - a,
{
    assert(neighbour_fault(order, writes, a) is None);
    if a + 1 < b {
        lemma_order_is_disjoint(order, writes, a + 1, b);
    }
}

impl SegmentStore {
    /// Plans the writes of a batch. Where nothing is wrong with any two of them, the last one
    /// must end within the slots that 64 bits can number.
    pub fn write_batch(&self, writes: &[SegmentWrite]) -> (result: Result<SegmentWritePlan, Error>)
        requires
            self.wf(),
            forall|i: int| 0 <= i < writes@.len() ==> (#[trigger] writes@[i]).size() is Some,
            writable(writes@, self.layout) ==> forall|i: int|
                0 <= i < writes@.len() && last_slots(writes@, i) ==> (#[trigger] writes@[i]).end()
                    <= 0x1_0000_0000_0000_0000,
        ensures
            plans(writes@, self.layout, self.write_run_slots as nat, result),
    {
        let mut i: usize = 0;
        let mut locations: Vec<SegmentLocation> = Vec::new();
        let mut slots_in_all: usize = 0;
        while i < writes.len()
            invariant
                self.wf(),
                i <= writes@.len(),
                forall|k: int| 0 <= k < writes@.len() ==> (#[trigger] writes@[k]).size() is Some,
                forall|k: int| 0 <= k < i ==> (#[trigger] writes@[k]).fits(self.layout),
                locations@ == Seq::new(i as nat, |k: int| writes@[k].location()),
                slots_in_all == total_slots(writes@.take(i as int)),
            decreases writes@.len() - i,
        {
            let write = writes[i];
            if write.value.len() == 0 {
                assert(write_error(writes@[i as int], self.layout, Error::EmptyValue));
                return Err(Error::EmptyValue);
            }
            let len = write.stored_len();
            if len > self.layout.segment_size {
                let error = Error::StoredEntryTooLarge { len, maximum: self.layout.segment_size };
                assert(write_error(writes@[i as int], self.layout, error));
                return Err(error);
            }
            let slots = div_ceil(len, self.layout.slot_size);
            if write.allocation.slots as usize != slots {
                let error = invalid_state("segment allocation does not match the value length");
                assert(write_error(writes@[i as int], self.layout, error));
                return Err(error);
            }
            locations.push(
                SegmentLocation {
                    physical_slot: write.allocation.physical_slot,
                    segment_generation: write.allocation.segment_generation,
                    stored_len: len as u32,
                    checksum: write.checksum,
                    priority: write.allocation.priority,
                },
            );
            assert(locations@ =~= Seq::new((i + 1) as nat, |k: int| writes@[k].location()));
            assert(writes@.take(i + 1).drop_last() =~= writes@.take(i as int));
            slots_in_all = slots_in_all.saturating_add(write.allocation.slots as usize);
            i = i + 1;
        }
        assert(writes@.take(i as int) =~= writes@);
        let order = write_order(writes);
        let mut k: usize = 1;
        while k < order.len()
            invariant
                self.wf(),
                1 <= k,
                k <= order@.len() || order@.len() == 0 && k == 1,
                sorted_order(order@, writes@),
                forall|m: int| 0 <= m < writes@.len() ==> (#[trigger] writes@[m]).fits(self.layout),
                forall|j: int| 0 <= j < k - 1 ==> (#[trigger] neighbour_fault(order@, writes@, j)) is None,
            decreases order@.len() - k,
        {
            let previous = writes[order[k - 1].1].allocation;
            let next = writes[order[k].1].allocation;
            match previous.physical_slot.checked_add(previous.slots as u64) {
                Some(end) => {
                    if end > next.physical_slot {
                        let error = invalid_state("segment batch allocations overlap");
                        assert(neighbour_fault(order@, writes@, k - 1) == Some(OrderFault::Overlap));
                        return Err(error);
                    }
                },
                None => {
                    let error = invalid_state("segment allocation end overflows u64");
                    assert(neighbour_fault(order@, writes@, k - 1) == Some(OrderFault::EndOverflow));
                    return Err(error);
                },
            }
            k = k + 1;
        }
        proof {
            assert forall|i: int, j: int|
                0 <= i < writes@.len() && 0 <= j < writes@.len() && i != j implies (#[trigger] writes@[i]).end()
                <= (#[trigger] writes@[j]).first() || writes@[j].end() <= writes@[i].first() by {
                let p = (writes@[i].allocation.physical_slot, i as usize);
                let q = (writes@[j].allocation.physical_slot, j as usize);
                assert(order@.contains(p) && order@.contains(q));
                let a = choose|a: int| 0 <= a < order@.len() && order@[a] == p;
                let b = choose|b: int| 0 <= b < order@.len() && order@[b] == q;
                if a < b {
                    lemma_order_is_disjoint(order@, writes@, a, b);
                } else {
                    lemma_order_is_disjoint(order@, writes@, b, a);
                }
            }
            assert(writable(writes@, self.layout));
            assert forall|i: int| 0 <= i < writes@.len() implies (#[trigger] writes@[i]).allocation.physical_slot
                + writes@[i].allocation.slots <= 0x1_0000_0000_0000_0000 by {
                if !last_slots(writes@, i) {
                    let j = choose|j: int|
                        0 <= j < writes@.len() && (#[trigger] writes@[j]).first() > writes@[i].first();
                    assert(writes@[i].end() <= writes@[j].first() || writes@[j].end() <= writes@[i].first());
                }
            }
        }
        let owner_runs = segment_write_runs(&order, writes, usize::MAX);
        let data_runs = segment_write_runs(&order, writes, self.write_run_slots);
        let result = SegmentWriteResult {
            locations,
            data_runs: data_runs.len(),
            owner_runs: owner_runs.len(),
            data_bytes: saturating_mul_size(slots_in_all, self.layout.slot_size),
            owner_bytes: saturating_mul_size(slots_in_all, OWNER_RECORD_SIZE),
        };
        Ok(SegmentWritePlan { data_runs, owner_runs, result })
    }

    /// The bytes of a data run and their place in the data file.
    pub fn data_run_bytes(&self, writes: &[SegmentWrite], run: &SegmentWriteRun) -> (result: Result<(u64, Vec<u8>), Error>)
        requires
            self.wf(),
            forall|i: int| 0 <= i < writes@.len() ==> (#[trigger] writes@[i]).fits(self.layout),
            run_ok(*run, writes@, usize::MAX as nat),
        ensures
            match result {
                Ok((offset, bytes)) => {
                    &&& offset == run.first_slot * self.layout.slot_size
                    &&& run_image(*run, writes@, self.layout.slot_size as nat, bytes@)
                },
                Err(error) => {
                    ||| run.slots * self.layout.slot_size > usize::MAX && superblock_error(
                        error,
                        state_text("segment data batch size overflows usize"@),
                    )
                    ||| run.slots * self.layout.slot_size <= usize::MAX && run.first_slot * self.layout.slot_size
                        > u64::MAX && superblock_error(
                        error,
                        state_text("segment data offset overflows u64"@),
                    )
                },
            },
    {
        let slot_size = self.layout.slot_size;
        let len = match run.slots.checked_mul(slot_size) {
            Some(len) => len,
            None => return Err(invalid_state("segment data batch size overflows usize")),
        };
        let offset = match run.first_slot.checked_mul(slot_size as u64) {
            Some(offset) => offset,
            None => return Err(invalid_state("segment data offset overflows u64")),
        };
        let mut output = zeroed(len);
        let ghost ss = slot_size as nat;
        let mut k: usize = 0;
        while k < run.pieces.len()
            invariant
                self.wf(),
                slot_size == self.layout.slot_size,
                ss == slot_size,
                slot_size > 0,
                forall|i: int| 0 <= i < writes@.len() ==> (#[trigger] writes@[i]).fits(self.layout),
                run_ok(*run, writes@, usize::MAX as nat),
                len == run.slots * slot_size,
                output@.len() == len,
                k <= run.pieces@.len(),
                forall|p: int|
                    0 <= p < k ==> #[trigger] piece_image(run.pieces@[p], writes@, ss, output@),
                zero_range(output@, next_slot(*run, k as int) * ss, len as int),
            decreases run.pieces@.len() - k,
        {
            let piece = run.pieces[k];
            assert(piece_ok(*run, run.pieces@[k as int], writes@));
            let write = writes[piece.index];
            let stored = write.stored_len();
            proof {
                lemma_piece_bounds(*run, writes@, k as int, self.layout);
            }
            let start = piece.write_slot * slot_size;
            let whole = piece.slots * slot_size;
            let rest = stored - start;
            let part = if rest < whole {
                rest
            } else {
                whole
            };
            let at = piece.run_slot * slot_size;
            let ghost before = output@;
            let copied = copy_stored_entry_range(write.key, write.value, start, &mut output, at, part);
            proof {
                lemma_piece_written(*run, writes@, k as int, ss, before, output@, part as nat);
                assert forall|p: int| 0 <= p < k + 1 implies #[trigger] piece_image(
                    run.pieces@[p],
                    writes@,
                    ss,
                    output@,
                ) by {
                    if p < k {
                        assert(piece_image(run.pieces@[p], writes@, ss, before));
                        lemma_piece_frame(*run, writes@, p, k as int, ss, before, output@);
                    }
                }
            }
            k = k + 1;
        }
        Ok((offset, output))
    }

    /// The owner records of a run and their place in the owner file.
    pub fn owner_run_bytes(&self, writes: &[SegmentWrite], run: &SegmentWriteRun) -> (result: Result<(u64, Vec<u8>), Error>)
        requires
            self.wf(),
            forall|i: int| 0 <= i < writes@.len() ==> (#[trigger] writes@[i]).fits(self.layout),
            run_ok(*run, writes@, usize::MAX as nat),
            run.slots * OWNER_RECORD_SIZE <= usize::MAX,
        ensures
            match result {
                Ok((offset, bytes)) => {
                    &&& offset == run.first_slot * OWNER_RECORD_SIZE
                    &&& bytes@.len() == run.slots * OWNER_RECORD_SIZE
                    &&& forall|p: int, slot: int|
                        0 <= p < run.pieces@.len() && run.pieces@[p].run_slot <= slot < run.pieces@[p].run_slot
                            + run.pieces@[p].slots ==> #[trigger] slot_owned_by(
                            bytes@,
                            slot,
                            writes@[run.pieces@[p].index as int].owner(),
                        )
                },
                Err(error) => run.first_slot * OWNER_RECORD_SIZE > u64::MAX && superblock_error(
                    error,
                    state_text("segment owner offset overflows u64"@),
                ),
            },
    {
        let mut output = zeroed(run.slots * OWNER_RECORD_SIZE);
        let mut k: usize = 0;
        while k < run.pieces.len()
            invariant
                self.wf(),
                forall|i: int| 0 <= i < writes@.len() ==> (#[trigger] writes@[i]).fits(self.layout),
                run_ok(*run, writes@, usize::MAX as nat),
                run.slots * OWNER_RECORD_SIZE <= usize::MAX,
                output@.len() == run.slots * OWNER_RECORD_SIZE,
                k <= run.pieces@.len(),
                forall|p: int, slot: int|
                    0 <= p < k && run.pieces@[p].run_slot <= slot < run.pieces@[p].run_slot + run.pieces@[p].slots
                        ==> #[trigger] slot_owned_by(
                        output@,
                        slot,
                        writes@[run.pieces@[p].index as int].owner(),
                    ),
            decreases run.pieces@.len() - k,
        {
            let piece = run.pieces[k];
            assert(piece_ok(*run, run.pieces@[k as int], writes@));
            let write = writes[piece.index];
            let owner = OwnerRecord {
                key_digest: write.key_digest,
                segment_generation: write.allocation.segment_generation,
                stored_len: write.stored_len() as u32,
                value_len: write.value.len() as u32,
                checksum: write.checksum,
                priority: write.allocation.priority,
                sequence: write.allocation.sequence,
            };
            assert(owner == writes@[piece.index as int].owner());
            let record = owner.encode();
            let end = piece.run_slot + piece.slots;
            let mut slot: usize = piece.run_slot;
            let ghost done = output@;
            while slot < end
                invariant
                    run_ok(*run, writes@, usize::MAX as nat),
                    run.slots * OWNER_RECORD_SIZE <= usize::MAX,
                    output@.len() == run.slots * OWNER_RECORD_SIZE,
                    k < run.pieces@.len(),
                    piece == run.pieces@[k as int],
                    end == piece.run_slot + piece.slots,
                    end <= run.slots,
                    piece.run_slot <= slot <= end,
                    owner_reads_as(record@, owner),
                    changed_only(done, output@, piece.run_slot * 64, slot * 64),
                    forall|s: int|
                        piece.run_slot <= s < slot ==> #[trigger] slot_owned_by(output@, s, owner),
                decreases end - slot,
            {
                let ghost before = output@;
                write_at(&mut output, slot * OWNER_RECORD_SIZE, record.as_slice());
                proof {
                    assert(slot_owned_by(output@, slot as int, owner));
                    assert forall|s: int| piece.run_slot <= s < slot + 1 implies #[trigger] slot_owned_by(
                        output@,
                        s,
                        owner,
                    ) by {
                        if s < slot {
                            assert(slot_owned_by(before, s, owner));
                            assert(output@.subrange(s * 64, s * 64 + 64) =~= before.subrange(s * 64, s * 64 + 64));
                        }
                    }
                }
                slot = slot + 1;
            }
            proof {
                assert forall|p: int, slot: int|
                    0 <= p < k + 1 && run.pieces@[p].run_slot <= slot < run.pieces@[p].run_slot
                        + run.pieces@[p].slots implies #[trigger] slot_owned_by(
                    output@,
                    slot,
                    writes@[run.pieces@[p].index as int].owner(),
                ) by {
                    if p < k {
                        lemma_pieces_in_order(*run, writes@, p, k as int);
                        assert(slot_owned_by(done, slot, writes@[run.pieces@[p].index as int].owner()));
                        assert(output@.subrange(slot * 64, slot * 64 + 64) =~= done.subrange(
                            slot * 64,
                            slot * 64 + 64,
                        ));
                    }
                }
            }
            k = k + 1;
        }
        match run.first_slot.checked_mul(OWNER_RECORD_SIZE as u64) {
            Some(offset) => Ok((offset, output)),
            None => Err(invalid_state("segment owner offset overflows u64")),
        }
    }

    /// Records that the bytes of a data run were written.
    pub fn data_run_written(&mut self, len: usize)
        ensures
            *final(self) == (SegmentStore { writes: final(self).writes, ..*old(self) }),
            final(self).writes == (PhysicalWriteStats {
                data_runs: old(self).writes.data_runs.wrapping_add(1),
                data_bytes: old(self).writes.data_bytes.wrapping_add(len as u64),
                ..old(self).writes
            }),
    {
        self.writes.data_runs = self.writes.data_runs.wrapping_add(1);
        self.writes.data_bytes = self.writes.data_bytes.wrapping_add(len as u64);
    }

    /// Records that the records of an owner run were written.
    pub fn owner_run_written(&mut self, len: usize)
        ensures
            *final(self) == (SegmentStore { writes: final(self).writes, ..*old(self) }),
            final(self).writes == (PhysicalWriteStats {
                owner_runs: old(self).writes.owner_runs.wrapping_add(1),
                owner_bytes: old(self).writes.owner_bytes.wrapping_add(len as u64),
                ..old(self).writes
            }),
    {
        self.writes.owner_runs = self.writes.owner_runs.wrapping_add(1);
        self.writes.owner_bytes = self.writes.owner_bytes.wrapping_add(len as u64);
    }
}

/// The owner record of a slot, in the bytes of a run, names `owner`.
pub open spec fn slot_owned_by(bytes: Seq<u8>, slot: int, owner: OwnerRecord) -> bool {
    owner_reads_as(bytes.subrange(slot * 64, slot * 64 + 64), owner)
}

/// The bytes of a piece, within the bytes of its run, are those of its entry; past the
/// entry's end they are zero.
pub open spec fn piece_image(
    piece: SegmentWritePiece,
    writes: Seq<SegmentWrite>,
    slot_size: nat,
    bytes: Seq<u8>,
) -> bool {
    let write = writes[piece.index as int];
    forall|b: int, stored: Seq<u8>|
        #![trigger bytes[piece.run_slot * slot_size + b], is_stored_entry(stored, write.key@, write.value@)]
        0 <= b < piece.slots * slot_size && is_stored_entry(stored, write.key@, write.value@)
            ==> bytes[piece.run_slot * slot_size + b] == if piece.write_slot * slot_size + b < stored.len() {
            stored[piece.write_slot * slot_size + b]
        } else {
            0
        }
}

/// The bytes of a run hold all its pieces.
pub open spec fn run_image(run: SegmentWriteRun, writes: Seq<SegmentWrite>, slot_size: nat, bytes: Seq<u8>) -> bool {
    &&& bytes.len() == run.slots * slot_size
    &&& forall|p: int|
        0 <= p < run.pieces@.len() ==> #[trigger] piece_image(run.pieces@[p], writes, slot_size, bytes)
}

/// The first slot of a run that its first `k` pieces leave open.
spec fn next_slot(run: SegmentWriteRun, k: int) -> int {
    if k < run.pieces@.len() {
        run.pieces@[k].run_slot as int
    } else {
        run.slots as int
    }
}

proof fn lemma_pieces_in_order(run: SegmentWriteRun, writes: Seq<SegmentWrite>, p: int, q: int)
    requires
        run_ok(run, writes, usize::MAX as nat),
        0 <= p < q < run.pieces@.len(),
    ensures
        run.pieces@[p].run_slot + run.pieces@[p].slots <= run.pieces@[q].run_slot,
    decreases q - p,
{
    if p + 1 < q {
        lemma_pieces_in_order(run, writes, p, q - 1);
        assert(piece_ok(run, run.pieces@[q - 1], writes));
    }
    assert(run.pieces@[q].run_slot == run.pieces@[q - 1].run_slot + run.pieces@[q - 1].slots);
}

proof fn lemma_piece_bounds(run: SegmentWriteRun, writes: Seq<SegmentWrite>, k: int, layout: SegmentLayout)
    requires
        run_ok(run, writes, usize::MAX as nat),
        0 <= k < run.pieces@.len(),
        run.slots * layout.slot_size <= usize::MAX,
        layout.slot_size > 0,
        writes[run.pieces@[k].index as int].fits(layout),
    ensures
        run.pieces@[k].write_slot * layout.slot_size < writes[run.pieces@[k].index as int].size()->0,
        run.pieces@[k].slots * layout.slot_size <= run.slots * layout.slot_size,
        run.pieces@[k].run_slot * layout.slot_size + run.pieces@[k].slots * layout.slot_size <= run.slots
            * layout.slot_size,
        0 <= run.pieces@[k].run_slot * layout.slot_size,
{
    let piece = run.pieces@[k];
    assert(piece_ok(run, piece, writes));
    let ss = layout.slot_size as int;
    let size = writes[piece.index as int].size()->0 as int;
    let slots = writes[piece.index as int].allocation.slots as int;
    vstd::arithmetic::div_mod::lemma_fundamental_div_mod(size, ss);
    assert((slots - 1) * ss < size) by (nonlinear_arith)
        requires
            slots == (if size % ss == 0 {
                size / ss
            } else {
                size / ss + 1
            }),
            size == ss * (size / ss) + size % ss,
            0 <= size % ss < ss,
            size > 0,
            ss > 0,
    ;
    let w = piece.write_slot as int;
    assert(w * ss <= (slots - 1) * ss) by (nonlinear_arith)
        requires
            w <= slots - 1,
            ss > 0,
    ;
    let a = piece.run_slot as int;
    let b = piece.slots as int;
    let n = run.slots as int;
    assert(a * ss + b * ss <= n * ss && 0 <= a * ss && b * ss <= n * ss) by (nonlinear_arith)
        requires
            a + b <= n,
            a >= 0,
            b >= 0,
            ss > 0,
    ;
}

proof fn lemma_piece_written(
    run: SegmentWriteRun,
    writes: Seq<SegmentWrite>,
    k: int,
    ss: nat,
    before: Seq<u8>,
    after: Seq<u8>,
    part: nat,
)
    requires
        run_ok(run, writes, usize::MAX as nat),
        0 <= k < run.pieces@.len(),
        ss > 0,
        before.len() == run.slots * ss,
        zero_range(before, next_slot(run, k) * ss, before.len() as int),
        changed_only(before, after, run.pieces@[k].run_slot * ss, run.pieces@[k].run_slot * ss + part),
        part <= run.pieces@[k].slots * ss,
        run.pieces@[k].run_slot * ss + run.pieces@[k].slots * ss <= run.slots * ss,
        writes[run.pieces@[k].index as int].size() is Some,
        part == run.pieces@[k].slots * ss || run.pieces@[k].write_slot * ss + part
            == writes[run.pieces@[k].index as int].size()->0,
        run.pieces@[k].write_slot * ss + part <= writes[run.pieces@[k].index as int].size()->0,
        ({
            let piece = run.pieces@[k];
            let write = writes[piece.index as int];
            forall|stored: Seq<u8>| #[trigger]
                is_stored_entry(stored, write.key@, write.value@) ==> after.subrange(
                    piece.run_slot * ss,
                    piece.run_slot * ss + part,
                ) == stored.subrange(piece.write_slot * ss, piece.write_slot * ss + part)
        }),
    ensures
        piece_image(run.pieces@[k], writes, ss, after),
        zero_range(after, next_slot(run, k + 1) * ss, after.len() as int),
{
    let piece = run.pieces@[k];
    let write = writes[piece.index as int];
    let at = piece.run_slot * ss;
    assert forall|b: int, stored: Seq<u8>|
        #![trigger after[piece.run_slot * ss + b], is_stored_entry(stored, write.key@, write.value@)]
        0 <= b < piece.slots * ss && is_stored_entry(stored, write.key@, write.value@) implies after[
        piece.run_slot * ss + b] == if piece.write_slot * ss + b < stored.len() {
        stored[piece.write_slot * ss + b]
    } else {
        0
    } by {
        if b < part {
            assert(after.subrange(at as int, at + part)[b] == after[at + b]);
            assert(stored.subrange(piece.write_slot * ss, piece.write_slot * ss + part)[b] == stored[
                piece.write_slot * ss + b]);
        } else {
            assert(before[at + b] == 0);
        }
    }
    let next = next_slot(run, k + 1);
    assert(next == piece.run_slot + piece.slots) by {
        if k + 1 < run.pieces@.len() {
            assert(run.pieces@[k + 1].run_slot == run.pieces@[k].run_slot + run.pieces@[k].slots);
        }
    }
    assert(next * ss == piece.run_slot * ss + piece.slots * ss) by (nonlinear_arith)
        requires
            next == piece.run_slot + piece.slots,
    ;
    assert(zero_range(after, next * ss, after.len() as int)) by {
        assert forall|b: int| next * ss <= b < after.len() implies #[trigger] after[b] == 0 by {
            assert(before[b] == 0);
        }
    }
}

proof fn lemma_piece_frame(
    run: SegmentWriteRun,
    writes: Seq<SegmentWrite>,
    p: int,
    k: int,
    ss: nat,
    before: Seq<u8>,
    after: Seq<u8>,
)
    requires
        run_ok(run, writes, usize::MAX as nat),
        0 <= p < k < run.pieces@.len(),
        before.len() == run.slots * ss,
        changed_only(before, after, run.pieces@[k].run_slot * ss, before.len() as int),
        piece_image(run.pieces@[p], writes, ss, before),
    ensures
        piece_image(run.pieces@[p], writes, ss, after),
{
    lemma_pieces_in_order(run, writes, p, k);
    let piece = run.pieces@[p];
    let write = writes[piece.index as int];
    let a = piece.run_slot as int;
    let n = piece.slots as int;
    let m = run.pieces@[k].run_slot as int;
    assert(piece_ok(run, run.pieces@[k], writes));
    assert(a * ss + n * ss <= m * ss && a * ss >= 0 && m * ss <= run.slots * ss) by (nonlinear_arith)
        requires
            a + n <= m,
            a >= 0,
            m <= run.slots,
    ;
    assert forall|b: int, stored: Seq<u8>|
        #![trigger after[piece.run_slot * ss + b], is_stored_entry(stored, write.key@, write.value@)]
        0 <= b < piece.slots * ss && is_stored_entry(stored, write.key@, write.value@) implies after[
        piece.run_slot * ss + b] == if piece.write_slot * ss + b < stored.len() {
        stored[piece.write_slot * ss + b]
    } else {
        0
    } by {
        assert(after[a * ss + b] == before[a * ss + b]);
    }
}

/// The file holds `bytes` at `offset`.
pub open spec fn holds_at(file: Seq<u8>, offset: int, bytes: Seq<u8>) -> bool {
    &&& 0 <= offset
    &&& offset + bytes.len() <= file.len()
    &&& file.subrange(offset, offset + bytes.len()) == bytes
}

/// Once the bytes of all runs are in the data file, the stored form of every entry of
/// the batch is at the slots that were allocated for it.
pub proof fn law_batch_places_every_entry(
    writes: Seq<SegmentWrite>,
    layout: SegmentLayout,
    maximum: nat,
    runs: Seq<SegmentWriteRun>,
    images: Seq<Seq<u8>>,
    file: Seq<u8>,
    i: int,
    stored: Seq<u8>,
)
    requires
        layout.slot_size > 0,
        0 <= i < writes.len(),
        writes[i].fits(layout),
        runs_cover(runs, writes, maximum),
        images.len() == runs.len(),
        forall|r: int|
            0 <= r < runs.len() ==> run_image(#[trigger] runs[r], writes, layout.slot_size as nat, images[r])
                && holds_at(file, runs[r].first_slot * layout.slot_size, images[r]),
        is_stored_entry(stored, writes[i].key@, writes[i].value@),
    ensures
        holds_at(file, writes[i].allocation.physical_slot * layout.slot_size, stored),
{
    let ss = layout.slot_size as int;
    let first = writes[i].allocation.physical_slot as int;
    let size = stored.len() as int;
    let slots = writes[i].allocation.slots as int;
    vstd::arithmetic::div_mod::lemma_fundamental_div_mod(size, ss);
    assert forall|b: int| 0 <= b < size implies 0 <= first * ss + b < file.len()
        && file[first * ss + b] == #[trigger] stored[b] by {
        let s = b / ss;
        vstd::arithmetic::div_mod::lemma_fundamental_div_mod(b, ss);
        let o = b % ss;
        assert(0 <= s < slots) by (nonlinear_arith)
            requires
                s == b / ss,
                ss > 0,
                0 <= b < size,
                slots == (if size % ss == 0 {
                    size / ss
                } else {
                    size / ss + 1
                }),
                size == ss * (size / ss) + size % ss,
                0 <= size % ss < ss,
        ;
        assert(covered(runs, i, s));
        let (r, p) = choose|r: int, p: int| #[trigger] holds_slot(runs, r, p, i, s);
        let run = runs[r];
        let piece = run.pieces@[p];
        assert(run_ok(run, writes, maximum));
        assert(piece_ok(run, run.pieces@[p], writes));
        assert(run_image(run, writes, ss as nat, images[r]));
        assert(piece_image(run.pieces@[p], writes, ss as nat, images[r]));
        let w = piece.write_slot as int;
        let a = piece.run_slot as int;
        let inner = (s - w) * ss + o;
        assert(0 <= inner < piece.slots * ss) by (nonlinear_arith)
            requires
                inner == (s - w) * ss + o,
                0 <= o < ss,
                w <= s < w + piece.slots,
        ;
        assert(w * ss + inner == b) by (nonlinear_arith)
            requires
                inner == (s - w) * ss + o,
                b == ss * s + o,
        ;
        assert(images[r][a * ss + inner] == stored[b]);
        let start = run.first_slot * ss;
        assert(start + a * ss + inner == first * ss + b) by (nonlinear_arith)
            requires
                start == run.first_slot * ss,
                run.first_slot + a == first + w,
                w * ss + inner == b,
        ;
        assert(0 <= a * ss + inner < images[r].len()) by (nonlinear_arith)
            requires
                images[r].len() == run.slots * ss,
                a + piece.slots <= run.slots,
                0 <= a,
                0 <= inner < piece.slots * ss,
                ss > 0,
        ;
        assert(0 <= start) by (nonlinear_arith)
            requires
                start == run.first_slot * ss,
                ss > 0,
        ;
        assert(file.subrange(start, start + images[r].len())[a * ss + inner] == images[r][a * ss + inner]);
    }
    assert(0 <= first * ss) by (nonlinear_arith)
        requires
            first >= 0,
            ss > 0,
    ;
    assert(size > 0);
    assert(stored[size - 1] == file[first * ss + (size - 1)]);
    assert(file.subrange(first * ss, first * ss + size) =~= stored);
}

/// A batch that is planned writes into slots of its own: every entry has just as many slots
/// as it needs, no two share a slot, no run is longer than a run may be, and each entry is
/// found again where it was put, with its length, its checksum and its priority.
pub proof fn law_a_planned_batch_has_slots_of_its_own(
    writes: Seq<SegmentWrite>,
    layout: SegmentLayout,
    write_run_slots: nat,
    plan: SegmentWritePlan,
    i: int,
    j: int,
)
    requires
        layout.slot_size > 0,
        plans(writes, layout, write_run_slots, Ok(plan)),
        0 <= i < writes.len(),
        0 <= j < writes.len(),
    ensures
        ({
            let a = writes[i].allocation;
            let b = writes[j].allocation;
            let len = 16 + writes[i].key@.len() + writes[i].value@.len();
            let found = plan.result.locations@[i];
            &&& writes[i].value@.len() > 0
            &&& len <= layout.segment_size
            &&& a.slots * layout.slot_size >= len
            &&& (a.slots - 1) * layout.slot_size < len
            &&& i != j ==> a.physical_slot + a.slots <= b.physical_slot || b.physical_slot + b.slots
                <= a.physical_slot
            &&& plan.result.locations@.len() == writes.len()
            &&& found.physical_slot == a.physical_slot
            &&& found.segment_generation == a.segment_generation
            &&& found.stored_len == len
            &&& found.checksum == writes[i].checksum
            &&& found.priority == a.priority
        }),
        forall|r: int| 0 <= r < plan.data_runs@.len() ==> 0 < (#[trigger] plan.data_runs@[r]).slots <= write_run_slots,
{
    assert(writes[i].fits(layout));
    assert(writes[j].fits(layout));
    let len = (16 + writes[i].key@.len() + writes[i].value@.len()) as int;
    let size = layout.slot_size as int;
    vstd::arithmetic::div_mod::lemma_fundamental_div_mod(len, size);
    let q = len / size;
    assert((q + 1) * size == q * size + size) by (nonlinear_arith);
    assert((q - 1) * size == q * size - size) by (nonlinear_arith);
    assert(size * q == q * size) by (nonlinear_arith);
    assert forall|r: int| 0 <= r < plan.data_runs@.len() implies 0 < (#[trigger] plan.data_runs@[r]).slots
        <= write_run_slots by {
        assert(run_ok(plan.data_runs@[r], writes, write_run_slots));
    }
}

} // verus!
