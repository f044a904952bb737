//! Planning a batch of byte-packed writes: runs of whole pages, and their bytes.

use vstd::prelude::*;

use crate::error::{superblock_error, Error};
use crate::format::{
    copy_stored_entry_range, is_stored_entry, stored_entry_len, stored_len, ContentDigest, PAGE_SIZE,
};
use crate::model::EntryKey;
use crate::sort::{lemma_same_pairs, sort_pairs, sorted_pairs};
use crate::store::pool::{
    encode_liveness, invalid_state, law_data_offsets_round_trip, state_text, EntryAllocation, ExtentPool, PackedExtent, PackedLocation,
    PackedModel, PoolLayout,
};
use crate::store::stats::PhysicalWriteStats;
use crate::wire::{zero_range, zeroed};

verus! {

/// One entry to write into the bytes allocated for it.
#[derive(Debug, Clone, Copy)]
pub struct EntryWrite<'a> {
    pub allocation: EntryAllocation,
    pub key: &'a EntryKey,
    pub value: &'a [u8],
    pub content_digest: ContentDigest,
}

impl<'a> EntryWrite<'a> {
    /// The length of the stored entry, if it has one.
    pub open spec fn size(self) -> Option<nat> {
        stored_len(self.key@.len(), self.value@.len())
    }

    /// The first byte in the data file.
    pub open spec fn first(self) -> nat {
        self.allocation.data_offset as nat
    }

    /// The byte after the last.
    pub open spec fn end(self) -> nat {
        self.first() + self.size()->0
    }

    /// The entry fits its allocation, and the allocation its extent.
    pub open spec fn fits(self, layout: PoolLayout) -> bool {
        &&& self.size() is Some
        &&& self.value@.len() > 0
        &&& self.size()->0 == self.allocation.stored_len
        &&& self.allocation.extent < layout.extent_count
        &&& self.allocation.extent_offset + self.allocation.stored_len <= layout.extent_size
        &&& self.allocation.data_offset == layout.offset_of(
            self.allocation.extent as nat,
            self.allocation.extent_offset as nat,
        )
    }

    /// The allocation is still the entry's: the extent is in use, in the same generation
    /// and of the same priority, and its used bytes reach that far.
    pub open spec fn writable(self, model: PackedModel) -> bool {
        let extent = model.extents[self.allocation.extent as int];
        &&& extent.generation == self.allocation.extent_generation
        &&& extent.priority == self.allocation.priority
        &&& extent.used_bytes >= self.allocation.extent_offset + self.allocation.stored_len
        &&& !extent.free()
    }

    /// Where the entry is found once it is written.
    pub open spec fn location(self) -> PackedLocation {
        PackedLocation {
            data_offset: self.allocation.data_offset,
            extent_generation: self.allocation.extent_generation,
            stored_len: self.size()->0 as u32,
            content_digest: self.content_digest,
            priority: self.allocation.priority,
        }
    }

    fn stored_len(self) -> (len: usize)
        requires
            self.size() is Some,
        ensures
            len == self.size()->0,
            len <= u32::MAX,
    {
        match stored_entry_len(self.key, self.value) {
            Some(len) => len,
            None => 0,
        }
    }
}

/// Locations and sizes of a planned batch.
#[derive(Debug, PartialEq, Eq)]
pub struct EntryWriteResult {
    pub locations: Vec<PackedLocation>,
    pub data_runs: usize,
    pub data_bytes: usize,
}

impl Default for EntryWriteResult {
    fn default() -> (result: EntryWriteResult)
        ensures
            result.locations@.len() == 0,
            result.data_runs == 0,
            result.data_bytes == 0,
    {
        EntryWriteResult { locations: Vec::new(), data_runs: 0, data_bytes: 0 }
    }
}

/// Part of an entry within a run.
#[derive(Debug, Clone, Copy, PartialEq, Eq, Structural)]
pub struct DataWritePiece {
    /// The write that the part belongs to.
    pub index: usize,
    /// The part's first byte in the run.
    pub run_offset: usize,
    /// The part's first byte in the stored entry.
    pub write_offset: usize,
    pub len: usize,
}

/// Pages that are written together.
#[derive(Debug)]
pub struct DataWriteRun {
    pub data_offset: u64,
    pub len: usize,
    pub pieces: Vec<DataWritePiece>,
}

/// Everything there is to write for a batch.
#[derive(Debug)]
pub struct EntryWritePlan {
    pub data_runs: Vec<DataWriteRun>,
    pub result: EntryWriteResult,
}

/// A piece lies within its write and its run, at the bytes of both.
pub open spec fn piece_ok(start: nat, len: nat, piece: DataWritePiece, writes: Seq<EntryWrite>) -> bool {
    &&& piece.index < writes.len()
    &&& piece.len > 0
    &&& writes[piece.index as int].size() is Some
    &&& piece.write_offset + piece.len <= writes[piece.index as int].size()->0
    &&& piece.run_offset + piece.len <= len
    &&& start + piece.run_offset == writes[piece.index as int].first() + piece.write_offset
}

/// The pieces follow each other without a gap and hold the first `filled` bytes.
pub open spec fn pieces_fill(pieces: Seq<DataWritePiece>, filled: nat) -> bool {
    &&& pieces.len() == 0 ==> filled == 0
    &&& pieces.len() > 0 ==> pieces[0].run_offset == 0 && pieces.last().run_offset + pieces.last().len == filled
    &&& forall|p: int, q: int|
        0 <= p && q == p + 1 && q < pieces.len() ==> (#[trigger] pieces[q]).run_offset == (
        #[trigger] pieces[p]).run_offset + pieces[p].len
}

/// The bytes of entries in a run.
pub open spec fn filled(run: DataWriteRun) -> nat {
    if run.pieces@.len() == 0 {
        0
    } else {
        (run.pieces@.last().run_offset + run.pieces@.last().len) as nat
    }
}

/// A run is whole pages, at most `maximum` bytes, filled from the start with pieces; the
/// last page is not empty.
pub open spec fn run_ok(run: DataWriteRun, writes: Seq<EntryWrite>, maximum: nat) -> bool {
    &&& run.data_offset % 4096 == 0
    &&& run.len % 4096 == 0
    &&& 0 < run.len <= maximum
    &&& run.data_offset + run.len <= u64::MAX
    &&& run.pieces@.len() > 0
    &&& pieces_fill(run.pieces@, filled(run))
    &&& run.len - 4096 < filled(run) <= run.len
    &&& forall|p: int|
        0 <= p < run.pieces@.len() ==> piece_ok(
            run.data_offset as nat,
            run.len as nat,
            #[trigger] run.pieces@[p],
            writes,
        )
}

/// A run that is not as long as it may be ends its group: no entry begins where its
/// bytes end.
pub open spec fn ends_group(run: DataWriteRun, writes: Seq<EntryWrite>, maximum: nat) -> bool {
    run.len < maximum ==> forall|i: int|
        0 <= i < writes.len() ==> (#[trigger] writes[i]).first() != run.data_offset + filled(run)
}

/// Piece `p` of run `r` holds byte `b` of write `index`.
pub open spec fn holds_byte(runs: Seq<DataWriteRun>, r: int, p: int, index: int, b: int) -> bool {
    &&& 0 <= r < runs.len()
    &&& 0 <= p < runs[r].pieces@.len()
    &&& runs[r].pieces@[p].index == index
    &&& runs[r].pieces@[p].write_offset <= b < runs[r].pieces@[p].write_offset + runs[r].pieces@[p].len
}

/// Some piece holds byte `b` of write `index`.
pub open spec fn covered(runs: Seq<DataWriteRun>, index: int, b: int) -> bool {
    exists|r: int, p: int| #[trigger] holds_byte(runs, r, p, index, b)
}

/// Run `r` ends before run `r + 1` begins.
pub open spec fn runs_apart(runs: Seq<DataWriteRun>, r: int) -> bool {
    runs[r].data_offset + runs[r].len <= runs[r + 1].data_offset
}

/// The runs hold every byte of every write, entries without a gap together, up to
/// `maximum` bytes in one run.
pub open spec fn runs_cover(runs: Seq<DataWriteRun>, writes: Seq<EntryWrite>, maximum: nat) -> bool {
    &&& forall|r: int|
        0 <= r < runs.len() ==> run_ok(#[trigger] runs[r], writes, maximum) && ends_group(runs[r], writes, maximum)
    &&& forall|r: int| 0 <= r < runs.len() - 1 ==> #[trigger] runs_apart(runs, r)
    &&& forall|i: int, b: int|
        0 <= i < writes.len() && 0 <= b < writes[i].size()->0 ==> #[trigger] covered(runs, i, b)
}

/// The writes in ascending order of their first bytes.
pub open spec fn sorted_order(order: Seq<(u64, usize)>, writes: Seq<EntryWrite>) -> bool {
    &&& order.len() == writes.len()
    &&& sorted_pairs(order)
    &&& forall|k: int|
        0 <= k < order.len() ==> (#[trigger] order[k]).1 < writes.len() && order[k].0
            == writes[order[k].1 as int].allocation.data_offset
    &&& forall|i: int|
        0 <= i < writes.len() ==> #[trigger] order.contains((writes[i].allocation.data_offset, i as usize))
}

/// The write at place `k` of the order.
pub open spec fn at(order: Seq<(u64, usize)>, writes: Seq<EntryWrite>, k: int) -> EntryWrite {
    writes[order[k].1 as int]
}

/// Neighbour `k` in the order ends before the next begins.
pub open spec fn apart(order: Seq<(u64, usize)>, writes: Seq<EntryWrite>, k: int) -> bool {
    at(order, writes, k).end() <= at(order, writes, k + 1).first()
}

/// Neighbour `k` in the order ends where the next begins.
pub open spec fn joined(order: Seq<(u64, usize)>, writes: Seq<EntryWrite>, k: int) -> bool {
    at(order, writes, k).end() == at(order, writes, k + 1).first()
}

/// A write that begins a group, away from the start of a page.
pub open spec fn misaligned_start(order: Seq<(u64, usize)>, writes: Seq<EntryWrite>, k: int) -> bool {
    &&& 0 <= k < order.len()
    &&& k == 0 || !joined(order, writes, k - 1)
    &&& at(order, writes, k).first() % 4096 != 0
}

/// What is wrong with one write.
pub open spec fn write_error(write: EntryWrite, layout: PoolLayout, error: Error) -> bool {
    if write.value@.len() == 0 {
        error is EmptyValue
    } else if write.size()->0 > layout.extent_size {
        error matches Error::StoredEntryTooLarge { len, maximum } && len == write.size()->0 && maximum
            == layout.extent_size
    } else {
        superblock_error(error, state_text("extent allocation does not match the value length"@))
    }
}

/// The outcome of planning a batch.
pub open spec fn plans(
    writes: Seq<EntryWrite>,
    pool: ExtentPool,
    result: Result<EntryWritePlan, Error>,
) -> bool {
    match result {
        Ok(plan) => {
            &&& forall|i: int| 0 <= i < writes.len() ==> (#[trigger] writes[i]).fits(pool.layout)
            &&& forall|i: int| 0 <= i < writes.len() ==> (#[trigger] writes[i]).writable(pool.state@)
            &&& forall|i: int, j: int|
                0 <= i < writes.len() && 0 <= j < writes.len() && i != j ==> (#[trigger] writes[i]).end() <= (
                #[trigger] writes[j]).first() || writes[j].end() <= writes[i].first()
            &&& runs_cover(plan.data_runs@, writes, pool.write_run_size as nat)
            &&& plan.result.locations@ == Seq::new(writes.len(), |i: int| writes[i].location())
            &&& plan.result.data_runs == plan.data_runs@.len()
            &&& plan.result.data_bytes == (if run_bytes(plan.data_runs@) > usize::MAX {
                usize::MAX as nat
            } else {
                run_bytes(plan.data_runs@)
            })
        },
        Err(error) => {
            ||| exists|i: int|
                {
                    &&& 0 <= i < writes.len()
                    &&& #[trigger] write_error(writes[i], pool.layout, error)
                    &&& !writes[i].fits(pool.layout)
                    &&& forall|k: int| 0 <= k < i ==> (#[trigger] writes[k]).fits(pool.layout)
                }
            ||| {
                &&& forall|i: int| 0 <= i < writes.len() ==> (#[trigger] writes[i]).fits(pool.layout)
                &&& exists|i: int|
                    0 <= i < writes.len() && !(#[trigger] writes[i]).writable(pool.state@)
                &&& superblock_error(error, state_text("extent allocation is no longer writable"@))
            }
            ||| {
                &&& forall|i: int|
                    0 <= i < writes.len() ==> (#[trigger] writes[i]).fits(pool.layout) && writes[i].writable(
                        pool.state@,
                    )
                &&& exists|order: Seq<(u64, usize)>, k: int|
                    #![trigger apart(order, writes, k)]
                    sorted_order(order, writes) && 0 <= k < order.len() - 1 && !apart(order, writes, k)
                &&& superblock_error(error, state_text("extent batch allocations overlap"@))
            }
            ||| {
                &&& forall|i: int|
                    0 <= i < writes.len() ==> (#[trigger] writes[i]).fits(pool.layout) && writes[i].writable(
                        pool.state@,
                    )
                &&& exists|order: Seq<(u64, usize)>, k: int|
                    #![trigger misaligned_start(order, writes, k)]
                    {
                        &&& sorted_order(order, writes)
                        &&& forall|j: int| 0 <= j < order.len() - 1 ==> #[trigger] apart(order, writes, j)
                        &&& misaligned_start(order, writes, k)
                    }
                &&& superblock_error(
                    error,
                    state_text("extent write batch does not begin on a frame boundary"@),
                )
            }
        },
    }
}

/// The bytes of all runs together.
pub open spec fn run_bytes(runs: Seq<DataWriteRun>) -> nat
    decreases runs.len(),
{
    if runs.len() == 0 {
        0
    } else {
        run_bytes(runs.drop_last()) + runs.last().len as nat
    }
}

/// The order of the writes.
fn write_order(writes: &[EntryWrite]) -> (order: Vec<(u64, usize)>)
    ensures
        sorted_order(order@, writes@),
{
    assert(writes.len() == writes@.len());
    let mut order: Vec<(u64, usize)> = Vec::new();
    let mut i: usize = 0;
    while i < writes.len()
        invariant
            i <= writes@.len() <= usize::MAX,
            order@ == Seq::new(i as nat, |k: int| (writes@[k].allocation.data_offset, k as usize)),
        decreases writes@.len() - i,
    {
        order.push((writes[i].allocation.data_offset, i));
        assert(order@ =~= Seq::new((i + 1) as nat, |k: int| (writes@[k].allocation.data_offset, k as usize)));
        i = i + 1;
    }
    let ghost before = order@;
    sort_pairs(&mut order);
    proof {
        lemma_same_pairs(before, order@);
        assert forall|k: int| 0 <= k < order@.len() implies (#[trigger] order@[k]).1 < writes@.len() && order@[k].0
            == writes@[order@[k].1 as int].allocation.data_offset by {
            assert(order@.contains(order@[k]));
            let j = choose|j: int| 0 <= j < before.len() && before[j] == order@[k];
        }
        assert forall|i: int| 0 <= i < writes@.len() implies #[trigger] order@.contains(
            (writes@[i].allocation.data_offset, i as usize),
        ) by {
            assert(before[i] == (writes@[i].allocation.data_offset, i as usize));
            assert(before.contains(before[i]));
        }
    }
    order
}

/// `value` rounded down to a multiple of `alignment`.
pub open spec fn aligned_down(value: nat, alignment: nat) -> nat {
    value / alignment * alignment
}

/// `value` rounded up to a multiple of `alignment`.
pub open spec fn aligned_up(value: nat, alignment: nat) -> nat {
    ((value + alignment - 1) as nat) / alignment * alignment
}

/// Rounds down to a page.
pub fn align_down(value: u64) -> (aligned: u64)
    ensures
        aligned == aligned_down(value as nat, 4096),
        aligned % 4096 == 0,
        aligned <= value < aligned + 4096,
{
    value / PAGE_SIZE as u64 * PAGE_SIZE as u64
}

/// Rounds up to a page, if that fits.
pub fn align_up(value: u64) -> (aligned: Option<u64>)
    ensures
        match aligned {
            Some(aligned) => aligned == aligned_up(value as nat, 4096) && aligned % 4096 == 0 && value <= aligned
                < value + 4096,
            None => value + 4095 > u64::MAX,
        },
{
    match value.checked_add(PAGE_SIZE as u64 - 1) {
        Some(raised) => Some(raised / PAGE_SIZE as u64 * PAGE_SIZE as u64),
        None => None,
    }
}

/// The bytes of write `k` of the order that lie in `[from, to)`.
spec fn in_window(order: Seq<(u64, usize)>, writes: Seq<EntryWrite>, k: int, b: int, from: int, to: int) -> bool {
    0 <= b < at(order, writes, k).size()->0 && from <= at(order, writes, k).first() + b < to
}

/// Where the window `[from, to)` is filled up to, once the writes before `position` are in.
spec fn frontier(position: int, from: int, to: int) -> int {
    if position < from {
        0
    } else if position > to {
        to - from
    } else {
        position - from
    }
}

/// The pieces of the writes `from_k..to_k` of the order within one run.
fn window_pieces(
    order: &Vec<(u64, usize)>,
    writes: &[EntryWrite],
    group_start: usize,
    group_end: usize,
    run_start: u64,
    len: usize,
) -> (pieces: Vec<DataWritePiece>)
    requires
        sorted_order(order@, writes@),
        group_start < group_end <= order@.len(),
        forall|i: int| 0 <= i < writes@.len() ==> (#[trigger] writes@[i]).size() is Some && writes@[i].size()->0 > 0,
        forall|i: int| 0 <= i < writes@.len() ==> (#[trigger] writes@[i]).end() <= u64::MAX - 4096,
        forall|k: int| group_start <= k < group_end - 1 ==> #[trigger] joined(order@, writes@, k),
        at(order@, writes@, group_start as int).first() <= run_start,
        run_start < at(order@, writes@, group_end - 1).end(),
        run_start + len <= u64::MAX,
        len > 0,
    ensures
        pieces@.len() > 0,
        pieces_fill(
            pieces@,
            frontier(
                at(order@, writes@, group_end - 1).end() as int,
                run_start as int,
                run_start + len,
            ) as nat,
        ),
        forall|p: int|
            0 <= p < pieces@.len() ==> piece_ok(run_start as nat, len as nat, #[trigger] pieces@[p], writes@),
        forall|k: int, b: int|
            #![trigger in_window(order@, writes@, k, b, run_start as int, run_start + len)]
            group_start <= k < group_end && in_window(order@, writes@, k, b, run_start as int, run_start + len)
                ==> exists|p: int|
                0 <= p < pieces@.len() && (#[trigger] pieces@[p]).index == order@[k].1 && pieces@[p].write_offset
                    <= b < pieces@[p].write_offset + pieces@[p].len,
{
    let run_end = run_start + len as u64;
    let ghost from = run_start as int;
    let ghost to = run_start + len;
    let mut pieces: Vec<DataWritePiece> = Vec::new();
    let mut k: usize = group_start;
    while k < group_end
        invariant
            sorted_order(order@, writes@),
            group_start <= k <= group_end <= order@.len(),
            group_start < group_end,
            forall|i: int|
                0 <= i < writes@.len() ==> (#[trigger] writes@[i]).size() is Some && writes@[i].size()->0 > 0,
            forall|i: int| 0 <= i < writes@.len() ==> (#[trigger] writes@[i]).end() <= u64::MAX - 4096,
            forall|j: int| group_start <= j < group_end - 1 ==> #[trigger] joined(order@, writes@, j),
            at(order@, writes@, group_start as int).first() <= run_start,
            run_end == run_start + len,
            from == run_start,
            to == run_end,
            len > 0,
            k < group_end ==> pieces_fill(
                pieces@,
                frontier(at(order@, writes@, k as int).first() as int, from, to) as nat,
            ),
            k == group_end ==> pieces_fill(
                pieces@,
                frontier(at(order@, writes@, k - 1).end() as int, from, to) as nat,
            ),
            forall|p: int|
                0 <= p < pieces@.len() ==> piece_ok(run_start as nat, len as nat, #[trigger] pieces@[p], writes@),
            forall|j: int, b: int|
                #![trigger in_window(order@, writes@, j, b, from, to)]
                group_start <= j < k && in_window(order@, writes@, j, b, from, to) ==> exists|p: int|
                    0 <= p < pieces@.len() && (#[trigger] pieces@[p]).index == order@[j].1 && pieces@[p].write_offset
                        <= b < pieces@[p].write_offset + pieces@[p].len,
        decreases group_end - k,
    {
        let index = order[k].1;
        let write = writes[index];
        let write_start = write.allocation.data_offset;
        let ghost me = at(order@, writes@, k as int);
        assert(me == writes@[index as int]);
        let write_end = write_start + write.stored_len() as u64;
        let overlap_start = if write_start > run_start {
            write_start
        } else {
            run_start
        };
        let overlap_end = if write_end < run_end {
            write_end
        } else {
            run_end
        };
        let ghost before = pieces@;
        proof {
            if k + 1 < group_end {
                assert(joined(order@, writes@, k as int));
            }
        }
        if overlap_start < overlap_end {
            let piece = DataWritePiece {
                index,
                run_offset: (overlap_start - run_start) as usize,
                write_offset: (overlap_start - write_start) as usize,
                len: (overlap_end - overlap_start) as usize,
            };
            pieces.push(piece);
            proof {
                assert(piece_ok(run_start as nat, len as nat, piece, writes@));
                assert forall|p: int, q: int|
                    0 <= p && q == p + 1 && q < pieces@.len() implies (#[trigger] pieces@[q]).run_offset == (
                #[trigger] pieces@[p]).run_offset + pieces@[p].len by {
                    if q < before.len() {
                        assert(before[q].run_offset == before[p].run_offset + before[p].len);
                    }
                }
                assert(pieces_fill(pieces@, frontier(me.end() as int, from, to) as nat));
            }
        } else {
            assert(frontier(me.first() as int, from, to) == frontier(me.end() as int, from, to));
        }
        proof {
            assert forall|j: int, b: int|
                #![trigger in_window(order@, writes@, j, b, from, to)]
                group_start <= j < k + 1 && in_window(order@, writes@, j, b, from, to) implies exists|p: int|
                0 <= p < pieces@.len() && (#[trigger] pieces@[p]).index == order@[j].1 && pieces@[p].write_offset
                    <= b < pieces@[p].write_offset + pieces@[p].len by {
                if j < k {
                    let p = choose|p: int|
                        0 <= p < before.len() && (#[trigger] before[p]).index == order@[j].1 && before[p].write_offset
                            <= b < before[p].write_offset + before[p].len;
                    assert(pieces@[p] == before[p]);
                } else {
                    let last = pieces@.len() - 1;
                    assert(pieces@[last].index == order@[j].1);
                }
            }
        }
        k = k + 1;
    }
    pieces
}

proof fn lemma_covered_push(runs: Seq<DataWriteRun>, run: DataWriteRun)
    ensures
        forall|i: int, b: int| #[trigger] covered(runs, i, b) ==> covered(runs.push(run), i, b),
{
    assert forall|i: int, b: int| #[trigger] covered(runs, i, b) implies covered(runs.push(run), i, b) by {
        let (r, p) = choose|r: int, p: int| #[trigger] holds_byte(runs, r, p, i, b);
        assert(holds_byte(runs.push(run), r, p, i, b));
    }
}

proof fn lemma_order_is_apart(order: Seq<(u64, usize)>, writes: Seq<EntryWrite>, a: int, b: int)
    requires
        sorted_order(order, writes),
        forall|k: int| 0 <= k < order.len() - 1 ==> #[trigger] apart(order, writes, k),
        0 <= a < b < order.len(),
    ensures
        at(order, writes, a).end() <= at(order, writes, b).first(),
    decreases b - a,
{
    assert(apart(order, writes, a));
    if a + 1 < b {
        lemma_order_is_apart(order, writes, a + 1, b);
    }
}

proof fn lemma_joined_chain(order: Seq<(u64, usize)>, writes: Seq<EntryWrite>, a: int, b: int)
    requires
        0 <= a <= b < order.len(),
        forall|k: int| a <= k < b ==> #[trigger] joined(order, writes, k),
    ensures
        at(order, writes, a).first() <= at(order, writes, b).first(),
    decreases b - a,
{
    if a < b {
        lemma_joined_chain(order, writes, a, b - 1);
        assert(joined(order, writes, b - 1));
    }
}

/// Appends the runs of one group: writes without a gap between them, from the start of a
/// page on.
fn append_group(
    runs: &mut Vec<DataWriteRun>,
    order: &Vec<(u64, usize)>,
    writes: &[EntryWrite],
    group_start: usize,
    group_end: usize,
    maximum: usize,
)
    requires
        sorted_order(order@, writes@),
        group_start < group_end <= order@.len(),
        maximum > 0,
        maximum % 4096 == 0,
        forall|i: int| 0 <= i < writes@.len() ==> (#[trigger] writes@[i]).size() is Some && writes@[i].size()->0 > 0,
        forall|i: int| 0 <= i < writes@.len() ==> (#[trigger] writes@[i]).end() <= u64::MAX - 4096,
        forall|k: int| 0 <= k < order@.len() - 1 ==> #[trigger] apart(order@, writes@, k),
        forall|k: int| group_start <= k < group_end - 1 ==> #[trigger] joined(order@, writes@, k),
        group_end < order@.len() ==> !joined(order@, writes@, group_end - 1),
        at(order@, writes@, group_start as int).first() % 4096 == 0,
        forall|r: int|
            0 <= r < old(runs)@.len() ==> run_ok(#[trigger] old(runs)@[r], writes@, maximum as nat) && ends_group(
                old(runs)@[r],
                writes@,
                maximum as nat,
            ),
        forall|r: int| 0 <= r < old(runs)@.len() - 1 ==> #[trigger] runs_apart(old(runs)@, r),
        old(runs)@.len() > 0 ==> old(runs)@.last().data_offset + old(runs)@.last().len <= at(
            order@,
            writes@,
            group_start as int,
        ).first(),
    ensures
        forall|r: int|
            0 <= r < final(runs)@.len() ==> run_ok(#[trigger] final(runs)@[r], writes@, maximum as nat)
                && ends_group(final(runs)@[r], writes@, maximum as nat),
        forall|r: int| 0 <= r < final(runs)@.len() - 1 ==> #[trigger] runs_apart(final(runs)@, r),
        final(runs)@.len() > 0,
        final(runs)@.last().data_offset + final(runs)@.last().len < at(order@, writes@, group_end - 1).end() + 4096,
        (final(runs)@.last().data_offset + final(runs)@.last().len) % 4096 == 0,
        forall|i: int, b: int| #[trigger] covered(old(runs)@, i, b) ==> covered(final(runs)@, i, b),
        forall|k: int, b: int|
            #![trigger covered(final(runs)@, order@[k].1 as int, b)]
            group_start <= k < group_end && 0 <= b < at(order@, writes@, k).size()->0 ==> covered(
                final(runs)@,
                order@[k].1 as int,
                b,
            ),
{
    let ghost original = runs@;
    let ghost head = at(order@, writes@, group_start as int);
    let ghost tail = at(order@, writes@, group_end - 1);
    proof {
        lemma_joined_chain(order@, writes@, group_start as int, group_end - 1);
    }
    let last = writes[order[group_end - 1].1];
    let logical_end = last.allocation.data_offset + last.stored_len() as u64;
    let physical_end = match align_up(logical_end) {
        Some(end) => end,
        None => logical_end,
    };
    let mut run_start = writes[order[group_start].1].allocation.data_offset;
    let ghost logical = logical_end as int;
    assert(logical == tail.end());
    while run_start < physical_end
        invariant
            sorted_order(order@, writes@),
            group_start < group_end <= order@.len(),
            maximum > 0,
            maximum % 4096 == 0,
            head == at(order@, writes@, group_start as int),
            tail == at(order@, writes@, group_end - 1),
            logical == tail.end(),
            logical == logical_end,
            physical_end % 4096 == 0,
            logical_end <= physical_end < logical_end + 4096,
            logical_end <= u64::MAX - 4096,
            run_start % 4096 == 0,
            head.first() <= run_start <= physical_end,
            forall|i: int|
                0 <= i < writes@.len() ==> (#[trigger] writes@[i]).size() is Some && writes@[i].size()->0 > 0,
            forall|i: int| 0 <= i < writes@.len() ==> (#[trigger] writes@[i]).end() <= u64::MAX - 4096,
            forall|k: int| 0 <= k < order@.len() - 1 ==> #[trigger] apart(order@, writes@, k),
            forall|k: int| group_start <= k < group_end - 1 ==> #[trigger] joined(order@, writes@, k),
            group_end < order@.len() ==> !joined(order@, writes@, group_end - 1),
            forall|r: int|
                0 <= r < runs@.len() ==> run_ok(#[trigger] runs@[r], writes@, maximum as nat) && ends_group(
                    runs@[r],
                    writes@,
                    maximum as nat,
                ),
            forall|r: int| 0 <= r < runs@.len() - 1 ==> #[trigger] runs_apart(runs@, r),
            runs@.len() > 0 ==> runs@.last().data_offset + runs@.last().len <= run_start,
            run_start > head.first() ==> runs@.len() > 0 && runs@.last().data_offset + runs@.last().len == run_start,
            run_start == head.first() ==> run_start < physical_end,
            forall|i: int, b: int| #[trigger] covered(original, i, b) ==> covered(runs@, i, b),
            forall|k: int, b: int|
                #![trigger covered(runs@, order@[k].1 as int, b)]
                group_start <= k < group_end && in_window(
                    order@,
                    writes@,
                    k,
                    b,
                    head.first() as int,
                    run_start as int,
                ) ==> covered(runs@, order@[k].1 as int, b),
        decreases physical_end - run_start,
    {
        let rest = physical_end - run_start;
        let len = if rest < maximum as u64 {
            rest as usize
        } else {
            maximum
        };
        let pieces = window_pieces(order, writes, group_start, group_end, run_start, len);
        let ghost from = run_start as int;
        let ghost to = run_start + len;
        let run = DataWriteRun { data_offset: run_start, len, pieces };
        let ghost before = runs@;
        proof {
            assert(filled(run) == frontier(logical, from, to));
            assert(run_ok(run, writes@, maximum as nat));
            assert(ends_group(run, writes@, maximum as nat)) by {
                if len < maximum {
                    assert(to == physical_end);
                    assert(run.data_offset + filled(run) == logical);
                    assert forall|i: int| 0 <= i < writes@.len() implies (#[trigger] writes@[i]).first() != logical by {
                        lemma_none_begins_at_end(order@, writes@, group_end as int, i);
                    }
                }
            }
            lemma_covered_push(before, run);
        }
        runs.push(run);
        proof {
            assert(runs@ =~= before.push(run));
            assert forall|r: int| 0 <= r < runs@.len() - 1 implies #[trigger] runs_apart(runs@, r) by {
                if r < before.len() - 1 {
                    assert(runs_apart(before, r));
                }
            }
            assert forall|k: int, b: int|
                #![trigger covered(runs@, order@[k].1 as int, b)]
                group_start <= k < group_end && in_window(
                    order@,
                    writes@,
                    k,
                    b,
                    head.first() as int,
                    to,
                ) implies covered(runs@, order@[k].1 as int, b) by {
                if at(order@, writes@, k).first() + b < from {
                    assert(in_window(order@, writes@, k, b, head.first() as int, from));
                    assert(covered(before, order@[k].1 as int, b));
                } else {
                    assert(in_window(order@, writes@, k, b, from, to));
                    let p = choose|p: int|
                        0 <= p < run.pieces@.len() && (#[trigger] run.pieces@[p]).index == order@[k].1
                            && run.pieces@[p].write_offset <= b < run.pieces@[p].write_offset + run.pieces@[p].len;
                    assert(holds_byte(runs@, runs@.len() - 1, p, order@[k].1 as int, b));
                }
            }
        }
        run_start = run_start + len as u64;
    }
    proof {
        assert forall|k: int, b: int|
            #![trigger covered(runs@, order@[k].1 as int, b)]
            group_start <= k < group_end && 0 <= b < at(order@, writes@, k).size()->0 implies covered(
            runs@,
            order@[k].1 as int,
            b,
        ) by {
            lemma_joined_chain(order@, writes@, group_start as int, k);
            if k < group_end - 1 {
                lemma_order_is_apart(order@, writes@, k, group_end - 1);
            }
            assert(in_window(order@, writes@, k, b, head.first() as int, run_start as int));
        }
    }
}

proof fn lemma_none_begins_at_end(order: Seq<(u64, usize)>, writes: Seq<EntryWrite>, group_end: int, i: int)
    requires
        sorted_order(order, writes),
        0 < group_end <= order.len(),
        forall|k: int| 0 <= k < order.len() - 1 ==> #[trigger] apart(order, writes, k),
        forall|i: int| 0 <= i < writes.len() ==> (#[trigger] writes[i]).size() is Some && writes[i].size()->0 > 0,
        group_end < order.len() ==> !joined(order, writes, group_end - 1),
        0 <= i < writes.len(),
    ensures
        writes[i].first() != at(order, writes, group_end - 1).end(),
{
    let pair = (writes[i].allocation.data_offset, i as usize);
    assert(order.contains(pair));
    let k = choose|k: int| 0 <= k < order.len() && order[k] == pair;
    let end = at(order, writes, group_end - 1).end();
    if k < group_end - 1 {
        lemma_order_is_apart(order, writes, k, group_end - 1);
    } else if k >= group_end {
        assert(apart(order, writes, group_end - 1));
        if k > group_end {
            lemma_order_is_apart(order, writes, group_end, k);
        }
    }
}

/// Joins writes without a gap into groups, and splits each group into runs of whole
/// pages.
fn data_write_runs(order: &Vec<(u64, usize)>, writes: &[EntryWrite], maximum: usize) -> (result: Result<
    Vec<DataWriteRun>,
    Error,
>)
    requires
        sorted_order(order@, writes@),
        maximum > 0,
        maximum % 4096 == 0,
        forall|i: int| 0 <= i < writes@.len() ==> (#[trigger] writes@[i]).size() is Some && writes@[i].size()->0 > 0,
        forall|i: int| 0 <= i < writes@.len() ==> (#[trigger] writes@[i]).end() <= u64::MAX - 4096,
        forall|k: int| 0 <= k < order@.len() - 1 ==> #[trigger] apart(order@, writes@, k),
    ensures
        match result {
            Ok(runs) => runs_cover(runs@, writes@, maximum as nat),
            Err(error) => {
                &&& exists|k: int| #[trigger] misaligned_start(order@, writes@, k)
                &&& superblock_error(
                    error,
                    state_text("extent write batch does not begin on a frame boundary"@),
                )
            },
        },
{
    let mut runs: Vec<DataWriteRun> = Vec::new();
    let mut group_start: usize = 0;
    while group_start < order.len()
        invariant
            sorted_order(order@, writes@),
            group_start <= order@.len(),
            maximum > 0,
            maximum % 4096 == 0,
            forall|i: int|
                0 <= i < writes@.len() ==> (#[trigger] writes@[i]).size() is Some && writes@[i].size()->0 > 0,
            forall|i: int| 0 <= i < writes@.len() ==> (#[trigger] writes@[i]).end() <= u64::MAX - 4096,
            forall|k: int| 0 <= k < order@.len() - 1 ==> #[trigger] apart(order@, writes@, k),
            0 < group_start < order@.len() ==> !joined(order@, writes@, group_start - 1),
            forall|r: int|
                0 <= r < runs@.len() ==> run_ok(#[trigger] runs@[r], writes@, maximum as nat) && ends_group(
                    runs@[r],
                    writes@,
                    maximum as nat,
                ),
            forall|r: int| 0 <= r < runs@.len() - 1 ==> #[trigger] runs_apart(runs@, r),
            runs@.len() > 0 ==> group_start > 0 && runs@.last().data_offset + runs@.last().len < at(
                order@,
                writes@,
                group_start - 1,
            ).end() + 4096 && (runs@.last().data_offset + runs@.last().len) % 4096 == 0,
            forall|k: int, b: int|
                #![trigger covered(runs@, order@[k].1 as int, b)]
                0 <= k < group_start && 0 <= b < at(order@, writes@, k).size()->0 ==> covered(
                    runs@,
                    order@[k].1 as int,
                    b,
                ),
        decreases order@.len() - group_start,
    {
        let first = writes[order[group_start].1];
        if first.allocation.data_offset % PAGE_SIZE as u64 != 0 {
            assert(misaligned_start(order@, writes@, group_start as int));
            return Err(invalid_state("extent write batch does not begin on a frame boundary"));
        }
        let mut group_end = group_start + 1;
        let mut logical_end = first.allocation.data_offset + first.stored_len() as u64;
        while group_end < order.len()
            invariant_except_break
                logical_end == at(order@, writes@, group_end - 1).end(),
            invariant
                sorted_order(order@, writes@),
                group_start < group_end <= order@.len(),
                forall|i: int|
                    0 <= i < writes@.len() ==> (#[trigger] writes@[i]).size() is Some && writes@[i].size()->0 > 0,
                forall|i: int| 0 <= i < writes@.len() ==> (#[trigger] writes@[i]).end() <= u64::MAX - 4096,
                forall|k: int| group_start <= k < group_end - 1 ==> #[trigger] joined(order@, writes@, k),
            ensures
                group_end < order@.len() ==> !joined(order@, writes@, group_end - 1),
            decreases order@.len() - group_end,
        {
            let write = writes[order[group_end].1];
            if write.allocation.data_offset != logical_end {
                break ;
            }
            assert(joined(order@, writes@, group_end - 1));
            logical_end = write.allocation.data_offset + write.stored_len() as u64;
            group_end = group_end + 1;
        }
        let ghost before = runs@;
        proof {
            if group_start > 0 {
                assert(apart(order@, writes@, group_start - 1));
            }
            assert(at(order@, writes@, group_start as int).first() % 4096 == 0);
        }
        append_group(&mut runs, order, writes, group_start, group_end, maximum);
        proof {
            assert forall|k: int, b: int|
                #![trigger covered(runs@, order@[k].1 as int, b)]
                0 <= k < group_end && 0 <= b < at(order@, writes@, k).size()->0 implies covered(
                runs@,
                order@[k].1 as int,
                b,
            ) by {
                if k < group_start {
                    assert(covered(before, order@[k].1 as int, b));
                }
            }
        }
        group_start = group_end;
    }
    proof {
        assert forall|i: int, b: int|
            0 <= i < writes@.len() && 0 <= b < writes@[i].size()->0 implies #[trigger] covered(runs@, i, b) by {
            let pair = (writes@[i].allocation.data_offset, i as usize);
            assert(order@.contains(pair));
            let k = choose|k: int| 0 <= k < order@.len() && order@[k] == pair;
            assert(covered(runs@, order@[k].1 as int, b));
        }
    }
    Ok(runs)
}

/// The bytes of a piece, within the bytes of its run, are those of its entry.
pub open spec fn piece_image(piece: DataWritePiece, writes: Seq<EntryWrite>, bytes: Seq<u8>) -> bool {
    let write = writes[piece.index as int];
    forall|stored: Seq<u8>| #[trigger]
        is_stored_entry(stored, write.key@, write.value@) ==> bytes.subrange(
            piece.run_offset as int,
            piece.run_offset + piece.len,
        ) == stored.subrange(piece.write_offset as int, piece.write_offset + piece.len)
}

/// The bytes of a run hold all its pieces, and zeros behind the last.
pub open spec fn run_image(run: DataWriteRun, writes: Seq<EntryWrite>, bytes: Seq<u8>) -> bool {
    &&& bytes.len() == run.len
    &&& forall|p: int| 0 <= p < run.pieces@.len() ==> #[trigger] piece_image(run.pieces@[p], writes, bytes)
    &&& zero_range(bytes, filled(run) as int, run.len as int)
}

proof fn lemma_pieces_in_order(run: DataWriteRun, writes: Seq<EntryWrite>, maximum: nat, p: int, q: int)
    requires
        run_ok(run, writes, maximum),
        0 <= p < q < run.pieces@.len(),
    ensures
        run.pieces@[p].run_offset + run.pieces@[p].len <= run.pieces@[q].run_offset,
    decreases q - p,
{
    if p + 1 < q {
        lemma_pieces_in_order(run, writes, maximum, p, q - 1);
        assert(piece_ok(run.data_offset as nat, run.len as nat, run.pieces@[q - 1], writes));
    }
    assert(run.pieces@[q].run_offset == run.pieces@[q - 1].run_offset + run.pieces@[q - 1].len);
}

/// The used bytes of an extent once its last page is closed.
pub open spec fn sealed_used(used: u32, extent_size: usize) -> u32 {
    let up = aligned_up(used as nat, 4096);
    if up > extent_size {
        extent_size as u32
    } else {
        up as u32
    }
}

/// Whether one of the first `n` writes is in extent `i`.
pub open spec fn touched(writes: Seq<EntryWrite>, n: int, i: int) -> bool {
    exists|k: int| 0 <= k < n && (#[trigger] writes[k]).allocation.extent == i
}

/// The state once the last pages of the extents of the first `n` writes are closed.
pub open spec fn frames_sealed(model: PackedModel, layout: PoolLayout, writes: Seq<EntryWrite>, n: int) -> PackedModel {
    PackedModel {
        extents: Seq::new(
            model.extents.len(),
            |i: int|
                if touched(writes, n, i) {
                    PackedExtent {
                        used_bytes: sealed_used(model.extents[i].used_bytes, layout.extent_size),
                        ..model.extents[i]
                    }
                } else {
                    model.extents[i]
                },
        ),
        ..model
    }
}

impl ExtentPool {
    /// Plans the writes of a batch.
    pub fn write_batch(&self, writes: &[EntryWrite]) -> (result: Result<EntryWritePlan, Error>)
        requires
            self.wf(),
            forall|i: int| 0 <= i < writes@.len() ==> (#[trigger] writes@[i]).size() is Some,
        ensures
            plans(writes@, *self, result),
    {
        let mut i: usize = 0;
        let mut locations: Vec<PackedLocation> = Vec::new();
        while i < writes.len()
            invariant
                self.wf(),
                i <= writes@.len(),
                forall|k: int| 0 <= k < writes@.len() ==> (#[trigger] writes@[k]).size() is Some,
                forall|k: int| 0 <= k < i ==> (#[trigger] writes@[k]).fits(self.layout),
                locations@ == Seq::new(i as nat, |k: int| writes@[k].location()),
            decreases writes@.len() - i,
        {
            let write = writes[i];
            if write.value.len() == 0 {
                assert(write_error(writes@[i as int], self.layout, Error::EmptyValue));
                return Err(Error::EmptyValue);
            }
            let len = write.stored_len();
            if len > self.layout.extent_size {
                let error = Error::StoredEntryTooLarge { len, maximum: self.layout.extent_size };
                assert(write_error(writes@[i as int], self.layout, error));
                return Err(error);
            }
            let allocation = write.allocation;
            let placed = match self.layout.data_offset(allocation.extent, allocation.extent_offset) {
                Some(offset) => offset == allocation.data_offset,
                None => false,
            };
            if allocation.stored_len as usize != len || allocation.extent_offset as u64
                + allocation.stored_len as u64 > self.layout.extent_size as u64 || !placed {
                let error = invalid_state("extent allocation does not match the value length");
                assert(write_error(writes@[i as int], self.layout, error));
                return Err(error);
            }
            locations.push(
                PackedLocation {
                    data_offset: allocation.data_offset,
                    extent_generation: allocation.extent_generation,
                    stored_len: len as u32,
                    content_digest: write.content_digest,
                    priority: allocation.priority,
                },
            );
            assert(locations@ =~= Seq::new((i + 1) as nat, |k: int| writes@[k].location()));
            i = i + 1;
        }
        let mut i: usize = 0;
        while i < writes.len()
            invariant
                self.wf(),
                i <= writes@.len(),
                forall|k: int| 0 <= k < writes@.len() ==> (#[trigger] writes@[k]).fits(self.layout),
                forall|k: int| 0 <= k < i ==> (#[trigger] writes@[k]).writable(self.state@),
            decreases writes@.len() - i,
        {
            let allocation = writes[i].allocation;
            assert(writes@[i as int].fits(self.layout));
            let extent = self.state.extents[allocation.extent as usize];
            if extent.generation != allocation.extent_generation || extent.priority != allocation.priority || (
            extent.used_bytes as u64) < allocation.extent_offset as u64 + allocation.stored_len as u64
                || extent.is_free() {
                assert(!writes@[i as int].writable(self.state@));
                return Err(invalid_state("extent allocation is no longer writable"));
            }
            i = i + 1;
        }
        let order = write_order(writes);
        proof {
            assert forall|i: int| 0 <= i < writes@.len() implies (#[trigger] writes@[i]).end() <= u64::MAX - 4096 by {
                lemma_end_in_file(writes@[i], self.layout);
            }
        }
        let mut k: usize = 1;
        while k < order.len()
            invariant
                self.wf(),
                1 <= k,
                k <= order@.len() || order@.len() == 0 && k == 1,
                sorted_order(order@, writes@),
                forall|m: int| 0 <= m < writes@.len() ==> (#[trigger] writes@[m]).fits(self.layout),
                forall|m: int| 0 <= m < writes@.len() ==> (#[trigger] writes@[m]).writable(self.state@),
                forall|i: int| 0 <= i < writes@.len() ==> (#[trigger] writes@[i]).end() <= u64::MAX - 4096,
                forall|j: int| 0 <= j < k - 1 ==> #[trigger] apart(order@, writes@, j),
            decreases order@.len() - k,
        {
            let previous = writes[order[k - 1].1];
            let next = writes[order[k].1];
            assert(writes@[order@[k - 1].1 as int].fits(self.layout));
            let end = previous.allocation.data_offset + previous.stored_len() as u64;
            if end > next.allocation.data_offset {
                assert(!apart(order@, writes@, k - 1));
                return Err(invalid_state("extent batch allocations overlap"));
            }
            assert(apart(order@, writes@, k - 1));
            k = k + 1;
        }
        proof {
            assert forall|i: int, j: int|
                0 <= i < writes@.len() && 0 <= j < writes@.len() && i != j implies (#[trigger] writes@[i]).end()
                <= (#[trigger] writes@[j]).first() || writes@[j].end() <= writes@[i].first() by {
                let p = (writes@[i].allocation.data_offset, i as usize);
                let q = (writes@[j].allocation.data_offset, j as usize);
                assert(order@.contains(p) && order@.contains(q));
                let a = choose|a: int| 0 <= a < order@.len() && order@[a] == p;
                let b = choose|b: int| 0 <= b < order@.len() && order@[b] == q;
                if a < b {
                    lemma_order_is_apart(order@, writes@, a, b);
                } else {
                    lemma_order_is_apart(order@, writes@, b, a);
                }
            }
            assert forall|i: int| 0 <= i < writes@.len() implies (#[trigger] writes@[i]).size() is Some
                && writes@[i].size()->0 > 0 by {
                assert(writes@[i].fits(self.layout));
            }
        }
        let data_runs = match data_write_runs(&order, writes, self.write_run_size) {
            Ok(runs) => runs,
            Err(error) => return Err(error),
        };
        let mut data_bytes: usize = 0;
        let mut r: usize = 0;
        while r < data_runs.len()
            invariant
                r <= data_runs@.len(),
                data_bytes == (if run_bytes(data_runs@.take(r as int)) > usize::MAX {
                    usize::MAX as nat
                } else {
                    run_bytes(data_runs@.take(r as int))
                }),
            decreases data_runs@.len() - r,
        {
            assert(data_runs@.take(r + 1).drop_last() =~= data_runs@.take(r as int));
            data_bytes = data_bytes.saturating_add(data_runs[r].len);
            r = r + 1;
        }
        assert(data_runs@.take(r as int) =~= data_runs@);
        let result = EntryWriteResult { locations, data_runs: data_runs.len(), data_bytes };
        Ok(EntryWritePlan { data_runs, result })
    }

    /// The bytes of a data run.
    pub fn data_run_bytes(&self, writes: &[EntryWrite], run: &DataWriteRun) -> (bytes: Vec<u8>)
        requires
            run_ok(*run, writes@, usize::MAX as nat),
        ensures
            run_image(*run, writes@, bytes@),
    {
        let mut output = zeroed(run.len);
        let mut k: usize = 0;
        while k < run.pieces.len()
            invariant
                run_ok(*run, writes@, usize::MAX as nat),
                output@.len() == run.len,
                k <= run.pieces@.len(),
                forall|p: int| 0 <= p < k ==> #[trigger] piece_image(run.pieces@[p], writes@, output@),
                k < run.pieces@.len() ==> zero_range(
                    output@,
                    run.pieces@[k as int].run_offset as int,
                    run.len as int,
                ),
                k == run.pieces@.len() ==> zero_range(output@, filled(*run) as int, run.len as int),
            decreases run.pieces@.len() - k,
        {
            let piece = run.pieces[k];
            assert(piece_ok(run.data_offset as nat, run.len as nat, run.pieces@[k as int], writes@));
            let write = writes[piece.index];
            let ghost before = output@;
            copy_stored_entry_range(
                write.key,
                write.value,
                piece.write_offset,
                &mut output,
                piece.run_offset,
                piece.len,
            );
            proof {
                assert forall|p: int| 0 <= p < k + 1 implies #[trigger] piece_image(
                    run.pieces@[p],
                    writes@,
                    output@,
                ) by {
                    if p < k {
                        assert(piece_image(run.pieces@[p], writes@, before));
                        lemma_pieces_in_order(*run, writes@, usize::MAX as nat, p, k as int);
                        let other = run.pieces@[p];
                        assert(output@.subrange(other.run_offset as int, other.run_offset + other.len)
                            =~= before.subrange(other.run_offset as int, other.run_offset + other.len));
                    }
                }
                if k + 1 < run.pieces@.len() {
                    assert(run.pieces@[k + 1].run_offset == run.pieces@[k as int].run_offset + run.pieces@[
                        k as int].len);
                }
            }
            k = k + 1;
        }
        output
    }

    /// Records that the bytes of a data run were written.
    pub fn data_run_written(&mut self, len: usize)
        ensures
            *final(self) == (ExtentPool { writes: final(self).writes, ..*old(self) }),
            final(self).writes == (PhysicalWriteStats {
                data_runs: old(self).writes.data_runs.wrapping_add(1),
                data_bytes: old(self).writes.data_bytes.wrapping_add(len as u64),
                ..old(self).writes
            }),
    {
        self.writes.data_runs = self.writes.data_runs.wrapping_add(1);
        self.writes.data_bytes = self.writes.data_bytes.wrapping_add(len as u64);
    }

    /// Closes the last pages of the extents of a batch that was written, so that the next
    /// allocation begins a page. The payload is dirty until it is synced.
    pub fn seal_write_frames(&mut self, writes: &[EntryWrite])
        requires
            old(self).wf(),
            forall|i: int|
                0 <= i < writes@.len() ==> (#[trigger] writes@[i]).allocation.extent
                    < old(self).state.extents@.len() && !old(
                    self,
                ).state.extents@[writes@[i].allocation.extent as int].free(),
        ensures
            final(self).wf(),
            final(self).payload_dirty,
            final(self).same_but_state((ExtentPool { payload_dirty: true, ..*old(self) })),
            final(self).state@ == frames_sealed(
                old(self).state@,
                old(self).layout,
                writes@,
                writes@.len() as int,
            ),
            old(self).state@.grows_into(final(self).state@),
    {
        let ghost before = self.state@;
        self.payload_dirty = true;
        proof {
            assert(self.state@ =~= frames_sealed(before, self.layout, writes@, 0));
        }
        let mut k: usize = 0;
        while k < writes.len()
            invariant
                k <= writes@.len(),
                self.wf(),
                before.consistent(self.layout),
                self.payload_dirty,
                self.same_but_state((ExtentPool { payload_dirty: true, ..*old(self) })),
                self.state@ == frames_sealed(before, self.layout, writes@, k as int),
                forall|i: int|
                    0 <= i < writes@.len() ==> (#[trigger] writes@[i]).allocation.extent < before.extents.len()
                        && !before.extents[writes@[i].allocation.extent as int].free(),
            decreases writes@.len() - k,
        {
            let ghost now = self.state@;
            let extent = writes[k].allocation.extent;
            assert(writes@[k as int].allocation.extent == extent);
            assert(now.extent_ok(self.layout, extent as int));
            let mut state = self.state.extents[extent as usize];
            let ghost used = state.used_bytes;
            let rounded: u64 = (state.used_bytes as u64 + (PAGE_SIZE as u64 - 1)) / PAGE_SIZE as u64
                * PAGE_SIZE as u64;
            let aligned = if rounded > self.layout.extent_size as u64 {
                self.layout.extent_size as u32
            } else {
                rounded as u32
            };
            state.used_bytes = aligned;
            self.state.extents[extent as usize] = state;
            self.liveness[extent as usize] = encode_liveness(state.generation, state.used_bytes);
            proof {
                let next = frames_sealed(before, self.layout, writes@, k + 1);
                assert(aligned == sealed_used(used, self.layout.extent_size));
                assert forall|i: int| 0 <= i < next.extents.len() implies next.extents[i] == self.state@.extents[i] by {
                    if i == extent {
                        assert(touched(writes@, k + 1, i));
                        let original = before.extents[i].used_bytes;
                        assert(sealed_used(sealed_used(original, self.layout.extent_size), self.layout.extent_size)
                            == sealed_used(original, self.layout.extent_size)) by {
                            assert(before.extent_ok(self.layout, i));
                        }
                    } else {
                        assert(touched(writes@, k + 1, i) == touched(writes@, k as int, i)) by {
                            if touched(writes@, k + 1, i) {
                                let j = choose|j: int|
                                    0 <= j < k + 1 && (#[trigger] writes@[j]).allocation.extent == i;
                                assert(j < k);
                            }
                            if touched(writes@, k as int, i) {
                                let j = choose|j: int| 0 <= j < k && (#[trigger] writes@[j]).allocation.extent == i;
                                assert(0 <= j < k + 1);
                            }
                        }
                    }
                }
                assert(self.state@ =~= next);
                assert(now.pointer_ok(0) && now.pointer_ok(1) && now.pointer_ok(2));
                let after = self.state@;
                assert forall|i: int| 0 <= i < after.extents.len() implies #[trigger] after.extent_ok(
                    self.layout,
                    i,
                ) by {
                    assert(now.extent_ok(self.layout, i));
                    if i == extent {
                        assert(before.extents[i].free() == after.extents[i].free());
                    }
                }
                assert(after.pointer_ok(0) && after.pointer_ok(1) && after.pointer_ok(2));
            }
            k = k + 1;
        }
        proof {
            let after = self.state@;
            assert forall|i: int| 0 <= i < before.extents.len() implies {
                let old_extent = #[trigger] before.extents[i];
                let new_extent = after.extents[i];
                ||| old_extent.generation < new_extent.generation
                ||| old_extent.generation == new_extent.generation && old_extent.used_bytes <= new_extent.used_bytes
            } by {
                assert(before.extent_ok(self.layout, i));
            }
        }
    }
}

proof fn lemma_end_in_file(write: EntryWrite, layout: PoolLayout)
    requires
        layout.wf(),
        write.fits(layout),
    ensures
        write.end() <= u64::MAX - 4096,
{
    let e = write.allocation.extent as int;
    let n = layout.extent_count as int;
    let s = layout.extent_size as int;
    assert(e * s + s <= n * s) by (nonlinear_arith)
        requires
            e + 1 <= n,
            s > 0,
    ;
}

/// The file holds `bytes` at `offset`.
pub open spec fn holds_at(file: Seq<u8>, offset: int, bytes: Seq<u8>) -> bool {
    &&& 0 <= offset
    &&& offset + bytes.len() <= file.len()
    &&& file.subrange(offset, offset + bytes.len()) == bytes
}

/// Once the bytes of all runs are in the data file, the stored form of every entry of the
/// batch is at the bytes that were allocated for it.
pub proof fn law_batch_places_every_entry(
    writes: Seq<EntryWrite>,
    maximum: nat,
    runs: Seq<DataWriteRun>,
    images: Seq<Seq<u8>>,
    file: Seq<u8>,
    i: int,
    stored: Seq<u8>,
)
    requires
        0 <= i < writes.len(),
        writes[i].size() is Some,
        runs_cover(runs, writes, maximum),
        images.len() == runs.len(),
        forall|r: int|
            0 <= r < runs.len() ==> run_image(#[trigger] runs[r], writes, images[r]) && holds_at(
                file,
                runs[r].data_offset as int,
                images[r],
            ),
        is_stored_entry(stored, writes[i].key@, writes[i].value@),
    ensures
        holds_at(file, writes[i].allocation.data_offset as int, stored),
{
    let first = writes[i].first() as int;
    assert forall|b: int| 0 <= b < stored.len() implies 0 <= first + b < file.len() && file[first + b]
        == #[trigger] stored[b] by {
        assert(covered(runs, i, b));
        let (r, p) = choose|r: int, p: int| #[trigger] holds_byte(runs, r, p, i, b);
        let run = runs[r];
        let piece = run.pieces@[p];
        assert(run_ok(run, writes, maximum));
        assert(piece_ok(run.data_offset as nat, run.len as nat, run.pieces@[p], writes));
        assert(run_image(run, writes, images[r]));
        assert(piece_image(run.pieces@[p], writes, images[r]));
        let inner = b - piece.write_offset;
        let left = images[r].subrange(piece.run_offset as int, piece.run_offset + piece.len);
        let right = stored.subrange(piece.write_offset as int, piece.write_offset + piece.len);
        assert(left == right);
        assert(left[inner] == images[r][piece.run_offset + inner]);
        assert(right[inner] == stored[b]);
        let start = run.data_offset as int;
        assert(file.subrange(start, start + images[r].len())[piece.run_offset + inner] == images[r][piece.run_offset
            + inner]);
    }
    assert(stored[stored.len() - 1] == file[first + (stored.len() - 1)]);
    assert(file.subrange(first, first + stored.len()) =~= stored);
}

/// Every extent ends its used bytes with a page.
pub open spec fn pages_closed(model: PackedModel) -> bool {
    forall|i: int| 0 <= i < model.extents.len() ==> (#[trigger] model.extents[i]).used_bytes % 4096 == 0
}

/// Every write of a batch begins at or beyond the used bytes of its extent in `model`.
pub open spec fn begins_after(writes: Seq<EntryWrite>, model: PackedModel) -> bool {
    forall|i: int|
        0 <= i < writes.len() ==> (#[trigger] writes[i]).allocation.extent_offset
            >= model.extents[writes[i].allocation.extent as int].used_bytes
}

/// Sealing the frames of a batch closes the pages of every extent again. `before` is the
/// state before the batch, `allocated` the one in which its bytes were taken.
pub proof fn law_sealing_closes_the_pages(
    before: PackedModel,
    allocated: PackedModel,
    layout: PoolLayout,
    writes: Seq<EntryWrite>,
)
    requires
        layout.wf(),
        pages_closed(before),
        allocated.extents.len() == before.extents.len(),
        forall|i: int|
            0 <= i < before.extents.len() && !touched(writes, writes.len() as int, i)
                ==> (#[trigger] allocated.extents[i]).used_bytes == before.extents[i].used_bytes,
    ensures
        pages_closed(frames_sealed(allocated, layout, writes, writes.len() as int)),
{
    let after = frames_sealed(allocated, layout, writes, writes.len() as int);
    assert forall|i: int| 0 <= i < after.extents.len() implies (#[trigger] after.extents[i]).used_bytes % 4096 == 0 by {
        let used = allocated.extents[i].used_bytes;
        if touched(writes, writes.len() as int, i) {
            let pages = (used as nat + 4095) as nat / 4096;
            assert(aligned_up(used as nat, 4096) == pages * 4096);
            assert((pages * 4096) % 4096 == 0);
        } else {
            assert(allocated.extents[i].used_bytes == before.extents[i].used_bytes);
            assert(before.extents[i].used_bytes % 4096 == 0);
        }
    }
}

proof fn lemma_piece_at(run: DataWriteRun, writes: Seq<EntryWrite>, maximum: nat, byte: nat, n: int)
    requires
        run_ok(run, writes, maximum),
        0 < n <= run.pieces@.len(),
        byte < run.pieces@[n - 1].run_offset + run.pieces@[n - 1].len,
    ensures
        exists|p: int|
            0 <= p < n && (#[trigger] run.pieces@[p]).run_offset <= byte < run.pieces@[p].run_offset
                + run.pieces@[p].len,
    decreases n,
{
    if run.pieces@[n - 1].run_offset > byte {
        if n == 1 {
            assert(run.pieces@[0].run_offset == 0);
        } else {
            assert(run.pieces@[n - 1].run_offset == run.pieces@[n - 2].run_offset + run.pieces@[n - 2].len);
            lemma_piece_at(run, writes, maximum, byte, n - 1);
        }
    } else {
        assert(run.pieces@[n - 1].run_offset <= byte);
    }
}

/// Byte `at` of the data file is byte `offset` of an extent.
spec fn is_byte_of(layout: PoolLayout, at: nat, extent: nat, offset: nat) -> bool {
    at == layout.offset_of(extent, offset) && offset < layout.extent_size
}

proof fn lemma_run_byte(
    layout: PoolLayout,
    writes: Seq<EntryWrite>,
    run: DataWriteRun,
    maximum: nat,
    byte: nat,
) -> (found: (nat, nat))
    requires
        layout.wf(),
        forall|i: int| 0 <= i < writes.len() ==> (#[trigger] writes[i]).fits(layout),
        run_ok(run, writes, maximum),
        byte < filled(run),
    ensures
        is_byte_of(layout, (run.data_offset + byte) as nat, found.0, found.1),
        exists|i: int|
            0 <= i < writes.len() && (#[trigger] writes[i]).allocation.extent == found.0
                && writes[i].allocation.extent_offset <= found.1,
{
    let n = run.pieces@.len() as int;
    assert(run.pieces@[n - 1] == run.pieces@.last());
    lemma_piece_at(run, writes, maximum, byte, n);
    let p = choose|p: int|
        0 <= p < n && (#[trigger] run.pieces@[p]).run_offset <= byte < run.pieces@[p].run_offset + run.pieces@[p].len;
    let piece = run.pieces@[p];
    assert(piece_ok(run.data_offset as nat, run.len as nat, run.pieces@[p], writes));
    let write = writes[piece.index as int];
    assert(write.fits(layout));
    let offset = (write.allocation.extent_offset + piece.write_offset + (byte - piece.run_offset)) as nat;
    assert(writes[piece.index as int].allocation.extent_offset <= offset);
    (write.allocation.extent as nat, offset)
}

/// A batch never touches a byte of an entry that was there before it, though its runs are
/// whole pages filled up with zeros: the pages of the earlier entries are closed.
pub proof fn law_a_batch_leaves_earlier_entries_alone(
    layout: PoolLayout,
    before: PackedModel,
    writes: Seq<EntryWrite>,
    run: DataWriteRun,
    maximum: nat,
    extent: nat,
    offset: nat,
    len: nat,
)
    requires
        layout.wf(),
        before.extents.len() == layout.extent_count,
        pages_closed(before),
        begins_after(writes, before),
        forall|i: int| 0 <= i < writes.len() ==> (#[trigger] writes[i]).fits(layout),
        run_ok(run, writes, maximum),
        extent < layout.extent_count,
        offset + len <= before.extents[extent as int].used_bytes <= layout.extent_size,
        len > 0,
    ensures
        run.data_offset + run.len <= layout.offset_of(extent, offset) || layout.offset_of(extent, offset) + len
            <= run.data_offset,
{
    let first = layout.offset_of(extent, offset);
    if run.data_offset < first + len && first < run.data_offset + run.len {
        let common = if first < run.data_offset {
            run.data_offset as nat
        } else {
            first
        };
        let byte = (common - run.data_offset) as nat;
        let inner = (common - layout.offset_of(extent, 0)) as nat;
        assert(is_byte_of(layout, common, extent, inner));
        assert(inner < before.extents[extent as int].used_bytes);
        if byte < filled(run) {
            let (e, o) = lemma_run_byte(layout, writes, run, maximum, byte);
            law_data_offsets_round_trip(layout, extent, inner, e, o);
            let i = choose|i: int|
                0 <= i < writes.len() && (#[trigger] writes[i]).allocation.extent == e
                    && writes[i].allocation.extent_offset <= o;
            assert(writes[i].allocation.extent_offset >= before.extents[extent as int].used_bytes);
        } else {
            assert(piece_ok(run.data_offset as nat, run.len as nat, run.pieces@.last(), writes)) by {
                assert(run.pieces@[run.pieces@.len() - 1] == run.pieces@.last());
            }
            assert(filled(run) > 0);
            let last = (filled(run) - 1) as nat;
            let (e, o) = lemma_run_byte(layout, writes, run, maximum, last);
            lemma_same_page(layout, run, e, o, last, extent, inner, byte);
            let i = choose|i: int|
                0 <= i < writes.len() && (#[trigger] writes[i]).allocation.extent == e
                    && writes[i].allocation.extent_offset <= o;
            assert(writes[i].allocation.extent_offset >= before.extents[e as int].used_bytes);
            let used = before.extents[extent as int].used_bytes as int;
            assert(used % 4096 == 0);
            assert(o >= used && inner < used && inner > o);
        }
    }
}

/// Two bytes of one page lie in one extent, as far apart there as in the file.
proof fn lemma_same_page(
    layout: PoolLayout,
    run: DataWriteRun,
    extent: nat,
    offset: nat,
    last: nat,
    other_extent: nat,
    other_offset: nat,
    byte: nat,
)
    requires
        layout.wf(),
        run.data_offset % 4096 == 0,
        run.len % 4096 == 0,
        run.len - 4096 <= last < byte < run.len,
        is_byte_of(layout, (run.data_offset + last) as nat, extent, offset),
        is_byte_of(layout, (run.data_offset + byte) as nat, other_extent, other_offset),
    ensures
        extent == other_extent,
        offset < other_offset,
{
    let size = layout.extent_size as int;
    let a = run.data_offset + last;
    let b = run.data_offset + byte;
    let page = run.data_offset + run.len - 4096;
    assert(page % 4096 == 0);
    assert(page <= a < b < page + 4096);
    let per = size / 4096;
    assert(size == per * 4096);
    let number = page / 4096;
    assert(page == number * 4096);
    assert(a == extent * size + offset);
    assert(extent * size == (extent * per) * 4096) by (nonlinear_arith)
        requires
            size == per * 4096,
    ;
    // The page begins within the extent of its byte, and ends within it too.
    let start = extent * per;
    assert(start * 4096 <= a < start * 4096 + per * 4096);
    assert(start <= number) by (nonlinear_arith)
        requires
            start * 4096 <= a,
            a < number * 4096 + 4096,
    ;
    assert(number < start + per) by (nonlinear_arith)
        requires
            number * 4096 <= a,
            a < start * 4096 + per * 4096,
    ;
    assert(number * 4096 + 4096 <= start * 4096 + per * 4096) by (nonlinear_arith)
        requires
            number + 1 <= start + per,
    ;
    let inner = (b - extent * size) as nat;
    assert(inner < size);
    assert(layout.offset_of(extent, inner) == layout.offset_of(other_extent, other_offset));
    law_data_offsets_round_trip(layout, extent, inner, other_extent, other_offset);
}

/// A batch that is planned writes into bytes of its own: every entry lies within its extent,
/// as long as it is, within the bytes in use and of the generation that is in place, no two
/// share a byte, no run is longer than a run may be, and each entry is found again where it
/// was put, with its length, its digest and its priority.
pub proof fn law_a_planned_batch_has_bytes_of_its_own(
    writes: Seq<EntryWrite>,
    pool: ExtentPool,
    plan: EntryWritePlan,
    i: int,
    j: int,
)
    requires
        plans(writes, pool, Ok(plan)),
        0 <= i < writes.len(),
        0 <= j < writes.len(),
    ensures
        ({
            let a = writes[i].allocation;
            let b = writes[j].allocation;
            let found = plan.result.locations@[i];
            &&& a.stored_len == 16 + writes[i].key@.len() + writes[i].value@.len()
            &&& writes[i].value@.len() > 0
            &&& a.extent_offset + a.stored_len <= pool.layout.extent_size
            &&& a.extent_generation == pool.state@.extents[a.extent as int].generation
            &&& a.extent_offset + a.stored_len <= pool.state@.extents[a.extent as int].used_bytes
            &&& i != j ==> a.data_offset + a.stored_len <= b.data_offset || b.data_offset + b.stored_len
                <= a.data_offset
            &&& plan.result.locations@.len() == writes.len()
            &&& found.data_offset == a.data_offset
            &&& found.extent_generation == a.extent_generation
            &&& found.stored_len == a.stored_len
            &&& found.content_digest == writes[i].content_digest
            &&& found.priority == a.priority
        }),
        forall|r: int| 0 <= r < plan.data_runs@.len() ==> 0 < (#[trigger] plan.data_runs@[r]).len <= pool.write_run_size,
{
    assert(writes[i].fits(pool.layout) && writes[i].writable(pool.state@));
    assert(writes[j].fits(pool.layout));
    assert forall|r: int| 0 <= r < plan.data_runs@.len() implies 0 < (#[trigger] plan.data_runs@[r]).len
        <= pool.write_run_size by {
        assert(run_ok(plan.data_runs@[r], writes, pool.write_run_size as nat));
    }
}

} // verus!
