//! Reading entries: which bytes to read, and whether they may be handed out.

use vstd::prelude::*;

use crate::checksum::crc32_iso_hdlc;
use crate::counter::{ceil_div, div_ceil, sum_size};
use crate::format::{
    decode_entry_value, decode_stored_entry, is_stored_entry, law_stored_entry_is_unambiguous, value_checksum,
};
use crate::layout::slot_place;
use crate::model::{valid_key, EntryKey, MAX_KEY_SIZE};
use crate::segment::batch::{holds_at, SegmentWrite};
use crate::segment::format::{SegmentLayout, SegmentLocation};
use crate::segment::state::AllocatorModel;
use crate::segment::store::SegmentStore;

verus! {

/// The bytes of an entry, if it could be read, and the payload reads that it took.
#[derive(Debug, PartialEq, Eq)]
pub struct SegmentBlobReadResult {
    pub value: Option<Vec<u8>>,
    pub data_slots: usize,
    pub data_runs: usize,
    pub data_bytes: usize,
}

impl Default for SegmentBlobReadResult {
    fn default() -> (result: SegmentBlobReadResult)
        ensures
            result.value is None,
            result.data_slots == 0,
            result.data_runs == 0,
            result.data_bytes == 0,
    {
        SegmentBlobReadResult { value: None, data_slots: 0, data_runs: 0, data_bytes: 0 }
    }
}

/// One read of the data file.
#[derive(Debug, Clone, Copy, PartialEq, Eq, Structural)]
pub struct SegmentReadRun {
    pub offset: u64,
    /// How many of the bytes belong to the entry.
    pub logical_len: usize,
    /// How many bytes are read.
    pub physical_len: usize,
}

/// The reads for one entry, and what they will have taken.
#[derive(Debug)]
pub struct SegmentReadPlan {
    pub runs: Vec<SegmentReadRun>,
    pub segment: u32,
    pub data_slots: usize,
    pub data_bytes: usize,
}

/// The slots of an entry: their segment, the first slot in it and their number.
pub struct SlotRange {
    pub segment: nat,
    pub slot: nat,
    pub slots: nat,
}

/// The slots of a location.
pub open spec fn location_place(layout: SegmentLayout, location: SegmentLocation) -> Option<SlotRange> {
    let len = location.stored_len as nat;
    let slots = ceil_div(len, layout.slot_size as nat);
    let (segment, slot) = slot_place(layout.slots_per_segment as nat, location.physical_slot as nat);
    if len == 0 || len > layout.segment_size || segment >= layout.segment_count || slot + slots
        > layout.slots_per_segment {
        None
    } else {
        Some(SlotRange { segment, slot, slots })
    }
}

/// The location names slots that were allocated in the generation that is in place.
pub open spec fn location_is_live(model: AllocatorModel, layout: SegmentLayout, location: SegmentLocation) -> bool {
    match location_place(layout, location) {
        Some(place) => {
            &&& model.segments[place.segment as int].generation == location.segment_generation
            &&& place.slot + place.slots <= model.segments[place.segment as int].used
        },
        None => false,
    }
}

/// The bytes that the runs `0..n` read for the entry.
pub open spec fn logical_total(runs: Seq<SegmentReadRun>, n: int) -> nat
    decreases n,
{
    if n <= 0 {
        0
    } else {
        logical_total(runs, n - 1) + runs[n - 1].logical_len as nat
    }
}

/// The runs read `len` bytes from `start` on, one after the other, each of at most
/// `run_slots` slots.
pub open spec fn reads_range(
    runs: Seq<SegmentReadRun>,
    start: nat,
    len: nat,
    slot_size: nat,
    run_slots: nat,
    direct: bool,
) -> bool {
    &&& logical_total(runs, runs.len() as int) == len
    &&& forall|k: int|
        0 <= k < runs.len() ==> {
            let run = #[trigger] runs[k];
            &&& run.offset == start + logical_total(runs, k)
            &&& 0 < run.logical_len <= run_slots * slot_size
            &&& run.logical_len <= run.physical_len
            &&& direct ==> run.physical_len as nat % slot_size == 0 && run.physical_len < run.logical_len
                + slot_size
            &&& !direct ==> run.physical_len == run.logical_len
            &&& k < runs.len() - 1 ==> run.logical_len == run_slots * slot_size
        }
}

/// The bytes that the runs read in all, held at the largest `usize`.
pub open spec fn physical_total(runs: Seq<SegmentReadRun>, n: int) -> usize
    decreases n,
{
    if n <= 0 {
        0
    } else {
        sum_size(physical_total(runs, n - 1), runs[n - 1].physical_len)
    }
}

proof fn lemma_totals_of_prefix(before: Seq<SegmentReadRun>, run: SegmentReadRun, n: int)
    requires
        n <= before.len(),
    ensures
        logical_total(before.push(run), n) == logical_total(before, n),
        physical_total(before.push(run), n) == physical_total(before, n),
    decreases n,
{
    if n > 0 {
        lemma_totals_of_prefix(before, run, n - 1);
    }
}

/// What may be handed out of the bytes read for a location: all of them, where their
/// checksum is that of the location and the segment was not reclaimed meanwhile.
pub open spec fn read_finishes(
    model: AllocatorModel,
    location: SegmentLocation,
    plan: SegmentReadPlan,
    bytes: Seq<u8>,
    result: SegmentBlobReadResult,
) -> bool {
    &&& if crc32_iso_hdlc(bytes) == location.checksum && model.segments[plan.segment as int].generation
        == location.segment_generation {
        result.value matches Some(found) && found@ == bytes
    } else {
        result.value is None
    }
    &&& result.data_slots == plan.data_slots
    &&& result.data_runs == plan.runs@.len()
    &&& result.data_bytes == plan.data_bytes
}

/// What an entry of `key` among the bytes read holds.
pub open spec fn entry_decodes(key: Seq<u8>, read: SegmentBlobReadResult, result: SegmentBlobReadResult) -> bool {
    &&& result.data_slots == read.data_slots
    &&& result.data_runs == read.data_runs
    &&& result.data_bytes == read.data_bytes
    &&& match result.value {
        Some(value) => read.value matches Some(stored) && is_stored_entry(stored@, key, value@) && value@.len() > 0
            && key.len() <= MAX_KEY_SIZE,
        None => read.value matches Some(stored) ==> forall|value: Seq<u8>| #[trigger]
            is_stored_entry(stored@, key, value) ==> value.len() == 0 || key.len() > MAX_KEY_SIZE,
    }
}

impl SegmentStore {
    /// The segment, first slot and slot count of a location within the layout.
    fn location_slots(&self, location: SegmentLocation) -> (place: Option<(u32, u32, u32)>)
        requires
            self.wf(),
        ensures
            match place {
                Some((segment, slot, slots)) => location_place(self.layout, location) == Some(
                    (SlotRange { segment: segment as nat, slot: slot as nat, slots: slots as nat }),
                ) && segment < self.layout.segment_count && location.physical_slot == segment
                    * self.layout.slots_per_segment + slot && 0 < slots && slots * self.layout.slot_size
                    <= self.layout.segment_size,
                None => location_place(self.layout, location) is None,
            },
    {
        let len = location.stored_len as usize;
        if len == 0 || len > self.layout.segment_size {
            return None;
        }
        let slots = div_ceil(len, self.layout.slot_size);
        assert(slots > 0) by (nonlinear_arith)
            requires
                0 < len <= slots * self.layout.slot_size,
        ;
        let (segment, slot) = match self.layout.segment_for_slot(location.physical_slot) {
            Some(place) => place,
            None => return None,
        };
        if slot as u64 + slots as u64 > self.layout.slots_per_segment as u64 {
            return None;
        }
        assert(slots * self.layout.slot_size <= self.layout.slot_size * self.layout.slots_per_segment)
            by (nonlinear_arith)
            requires
                slots <= self.layout.slots_per_segment,
        ;
        Some((segment, slot, slots as u32))
    }

    /// The reads for a location, if it is live.
    pub fn read_plan(&self, location: SegmentLocation) -> (plan: Option<SegmentReadPlan>)
        requires
            self.wf(),
        ensures
            match plan {
                Some(plan) => {
                    &&& location_is_live(self.state@, self.layout, location)
                    &&& reads_range(
                        plan.runs@,
                        (location.physical_slot * self.layout.slot_size) as nat,
                        location.stored_len as nat,
                        self.layout.slot_size as nat,
                        self.read_run_slots as nat,
                        self.direct_io,
                    )
                    &&& plan.segment == location_place(self.layout, location)->0.segment
                    &&& plan.data_slots == location_place(self.layout, location)->0.slots
                    &&& plan.data_bytes == physical_total(plan.runs@, plan.runs@.len() as int)
                },
                None => !location_is_live(self.state@, self.layout, location),
            },
    {
        let (segment, slot, slots) = match self.location_slots(location) {
            Some(place) => place,
            None => return None,
        };
        let state = self.state.segments[segment as usize];
        if state.generation != location.segment_generation || (state.used as u64) < slot as u64 + slots as u64 {
            return None;
        }
        let slot_size = self.layout.slot_size;
        let stored_len = location.stored_len as usize;
        let ghost start = (location.physical_slot * slot_size) as nat;
        proof {
            self.lemma_location_in_file(location);
        }
        let mut runs: Vec<SegmentReadRun> = Vec::new();
        let mut done_slots: usize = 0;
        let mut done: usize = 0;
        let mut data_bytes: usize = 0;
        while done_slots < slots as usize
            invariant
                self.wf(),
                slot_size == self.layout.slot_size,
                slot_size > 0,
                self.read_run_slots > 0,
                slots * slot_size <= usize::MAX,
                stored_len == location.stored_len,
                slots == ceil_div(stored_len as nat, slot_size as nat),
                start == location.physical_slot * slot_size,
                start + slots * slot_size <= u64::MAX,
                done_slots <= slots,
                done_slots < slots ==> done == done_slots * slot_size,
                done_slots == slots ==> done == stored_len,
                done == logical_total(runs@, runs@.len() as int),
                data_bytes == physical_total(runs@, runs@.len() as int),
                forall|k: int|
                    0 <= k < runs@.len() ==> {
                        let run = #[trigger] runs@[k];
                        &&& run.offset == start + logical_total(runs@, k)
                        &&& 0 < run.logical_len <= self.read_run_slots * slot_size
                        &&& run.logical_len <= run.physical_len
                        &&& self.direct_io ==> run.physical_len as nat % slot_size as nat == 0 && run.physical_len
                            < run.logical_len + slot_size
                        &&& !self.direct_io ==> run.physical_len == run.logical_len
                        &&& k < runs@.len() - 1 || done_slots < slots ==> run.logical_len
                            == self.read_run_slots * slot_size
                    },
            decreases slots - done_slots,
        {
            let rest_slots = slots as usize - done_slots;
            let run_slots = if rest_slots < self.read_run_slots {
                rest_slots
            } else {
                self.read_run_slots
            };
            proof {
                lemma_run_bounds(
                    stored_len as int,
                    slot_size as int,
                    slots as int,
                    done_slots as int,
                    run_slots as int,
                    self.read_run_slots as int,
                );
            }
            assert(run_slots * slot_size <= slots * slot_size) by (nonlinear_arith)
                requires
                    run_slots <= slots,
            ;
            let whole = run_slots * slot_size;
            let rest = stored_len - done;
            let logical_len = if rest < whole {
                rest
            } else {
                whole
            };
            proof {
                assert((location.physical_slot + done_slots) * slot_size == location.physical_slot * slot_size
                    + done_slots * slot_size) by (nonlinear_arith);
                assert(done_slots * slot_size <= slots * slot_size) by (nonlinear_arith)
                    requires
                        done_slots <= slots,
                ;
                assert(location.physical_slot + done_slots <= (location.physical_slot + done_slots) * slot_size)
                    by (nonlinear_arith)
                    requires
                        slot_size >= 1,
                ;
            }
            let offset = (location.physical_slot + done_slots as u64) * slot_size as u64;
            let physical_len = if self.direct_io {
                whole
            } else {
                logical_len
            };
            let run = SegmentReadRun { offset, logical_len, physical_len };
            let ghost before = runs@;
            proof {
                assert forall|n: int| n <= before.len() implies #[trigger] logical_total(before.push(run), n)
                    == logical_total(before, n) && physical_total(before.push(run), n) == physical_total(
                    before,
                    n,
                ) by {
                    lemma_totals_of_prefix(before, run, n);
                }
                assert(logical_total(before.push(run), before.len() as int) == logical_total(
                    before,
                    before.len() as int,
                ));
                if self.direct_io {
                    assert((run_slots * slot_size) % (slot_size as int) == 0) by (nonlinear_arith)
                        requires
                            slot_size > 0,
                    ;
                }
            }
            runs.push(run);
            data_bytes = data_bytes.saturating_add(physical_len);
            done = done + logical_len;
            done_slots = done_slots + run_slots;
        }
        Some(SegmentReadPlan { runs, segment, data_slots: slots as usize, data_bytes })
    }

    proof fn lemma_location_in_file(&self, location: SegmentLocation)
        requires
            self.wf(),
            location_place(self.layout, location) is Some,
        ensures
            location.physical_slot * self.layout.slot_size + location_place(self.layout, location)->0.slots
                * self.layout.slot_size <= self.layout.data_file_size,
    {
        let SlotRange { segment, slot, slots } = location_place(self.layout, location)->0;
        let per = self.layout.slots_per_segment as int;
        let ss = self.layout.slot_size as int;
        crate::layout::law_slot_numbers_round_trip(per as nat, 0, 0, location.physical_slot as nat);
        let count = self.layout.segment_count as int;
        assert(location.physical_slot == segment * per + slot);
        assert(segment * per + slot + slots <= count * per) by (nonlinear_arith)
            requires
                segment + 1 <= count,
                slot + slots <= per,
        ;
        let p = location.physical_slot as int;
        assert(p * ss + slots * ss <= count * per * ss) by (nonlinear_arith)
            requires
                p + slots <= count * per,
                ss > 0,
        ;
    }

    /// Whether the bytes read for a location may be handed out: their checksum matches,
    /// and the segment was not reclaimed while they were read.
    pub fn finish_read(&self, location: SegmentLocation, plan: &SegmentReadPlan, bytes: Vec<u8>) -> (result:
        SegmentBlobReadResult)
        requires
            plan.segment < self.state.segments@.len(),
        ensures
            read_finishes(self.state@, location, *plan, bytes@, result),
    {
        let matches = value_checksum(bytes.as_slice()) == location.checksum;
        let current = self.state.segments[plan.segment as usize].generation == location.segment_generation;
        let value = if matches && current {
            Some(bytes)
        } else {
            None
        };
        SegmentBlobReadResult {
            value,
            data_slots: plan.data_slots,
            data_runs: plan.runs.len(),
            data_bytes: plan.data_bytes,
        }
    }
}

proof fn lemma_run_bounds(stored: int, ss: int, slots: int, done: int, run: int, limit: int)
    requires
        ss > 0,
        stored > 0,
        slots == ceil_div(stored as nat, ss as nat),
        0 <= done < slots,
        0 < run <= slots - done,
        run <= limit,
        run == limit || run == slots - done,
    ensures
        done * ss < stored,
        run < slots - done ==> run * ss < stored - done * ss,
        run == slots - done ==> run * ss >= stored - done * ss,
        run * ss < stored - done * ss + ss,
        run * ss <= limit * ss,
        0 < run * ss,
        (done + run) * ss == done * ss + run * ss,
{
    vstd::arithmetic::div_mod::lemma_fundamental_div_mod(stored, ss);
    assert((slots - 1) * ss < stored && stored <= slots * ss) by (nonlinear_arith)
        requires
            slots == (if stored % ss == 0 {
                stored / ss
            } else {
                stored / ss + 1
            }),
            stored == ss * (stored / ss) + stored % ss,
            0 <= stored % ss < ss,
            stored > 0,
            ss > 0,
    ;
    assert(done * ss <= (slots - 1) * ss) by (nonlinear_arith)
        requires
            done <= slots - 1,
            ss > 0,
    ;
    assert((done + run) * ss == done * ss + run * ss) by (nonlinear_arith);
    assert((done + run) * ss <= slots * ss) by (nonlinear_arith)
        requires
            done + run <= slots,
            ss > 0,
    ;
    assert((slots - 1) * ss == slots * ss - ss) by (nonlinear_arith);
    if run < slots - done {
        assert((done + run) * ss <= (slots - 1) * ss) by (nonlinear_arith)
            requires
                done + run <= slots - 1,
                ss > 0,
        ;
    } else {
        assert(done + run == slots);
    }
    assert(run * ss <= limit * ss && 0 < run * ss) by (nonlinear_arith)
        requires
            0 < run <= limit,
            ss > 0,
    ;
}

/// The value in bytes that were read, where they are an entry of `key`.
pub fn get_blob(key: &EntryKey, read: SegmentBlobReadResult) -> (result: SegmentBlobReadResult)
    ensures
        entry_decodes(key@, read, result),
{
    let value = match read.value {
        Some(stored) => decode_entry_value(stored, key),
        None => None,
    };
    SegmentBlobReadResult {
        value,
        data_slots: read.data_slots,
        data_runs: read.data_runs,
        data_bytes: read.data_bytes,
    }
}

/// The key and value in bytes that were read.
pub fn get_stored_blob(read: SegmentBlobReadResult) -> (entry: Option<(EntryKey, Vec<u8>)>)
    ensures
        match entry {
            Some((key, value)) => read.value matches Some(stored) && is_stored_entry(stored@, key@, value@)
                && valid_key(key@) && value@.len() > 0,
            None => read.value matches Some(stored) ==> forall|key: Seq<u8>, value: Seq<u8>| #[trigger]
                is_stored_entry(stored@, key, value) ==> !valid_key(key) || value.len() == 0,
        },
{
    match read.value {
        Some(stored) => decode_stored_entry(stored),
        None => None,
    }
}

/// The bytes that a plan's reads find in the data file, one after the other.
pub open spec fn bytes_found(file: Seq<u8>, runs: Seq<SegmentReadRun>, n: int) -> Seq<u8>
    decreases n,
{
    if n <= 0 {
        Seq::empty()
    } else {
        bytes_found(file, runs, n - 1) + file.subrange(
            runs[n - 1].offset as int,
            runs[n - 1].offset + runs[n - 1].logical_len,
        )
    }
}

/// The bytes found are those of the range that is read.
pub proof fn lemma_bytes_found(file: Seq<u8>, runs: Seq<SegmentReadRun>, start: nat, n: int)
    requires
        0 <= n <= runs.len(),
        forall|k: int|
            0 <= k < runs.len() ==> (#[trigger] runs[k]).offset == start + logical_total(runs, k),
        start + logical_total(runs, n) <= file.len(),
    ensures
        bytes_found(file, runs, n) == file.subrange(start as int, (start + logical_total(runs, n)) as int),
    decreases n,
{
    if n > 0 {
        lemma_bytes_found(file, runs, start, n - 1);
        assert(runs[n - 1].offset == start + logical_total(runs, n - 1));
    }
    assert(bytes_found(file, runs, n) =~= file.subrange(start as int, (start + logical_total(runs, n)) as int));
}

/// What was written under a key is what a read of its location gives back, as long as the
/// segment is in place: the data file holds the stored entry at its slots, `read` is what
/// a finished read of those bytes hands out and `result` what is decoded from that.
pub proof fn law_read_returns_what_was_written(
    layout: SegmentLayout,
    write: SegmentWrite,
    stored: Seq<u8>,
    file: Seq<u8>,
    plan: SegmentReadPlan,
    run_slots: nat,
    direct: bool,
    model: AllocatorModel,
    read: SegmentBlobReadResult,
    result: SegmentBlobReadResult,
)
    requires
        write.fits(layout),
        is_stored_entry(stored, write.key@, write.value@),
        write.value@.len() > 0,
        write.key@.len() <= MAX_KEY_SIZE,
        write.checksum == crc32_iso_hdlc(stored),
        holds_at(file, write.allocation.physical_slot * layout.slot_size, stored),
        reads_range(
            plan.runs@,
            (write.location().physical_slot * layout.slot_size) as nat,
            write.location().stored_len as nat,
            layout.slot_size as nat,
            run_slots,
            direct,
        ),
        model.segments[plan.segment as int].generation == write.location().segment_generation,
        read_finishes(
            model,
            write.location(),
            plan,
            bytes_found(file, plan.runs@, plan.runs@.len() as int),
            read,
        ),
        entry_decodes(write.key@, read, result),
    ensures
        bytes_found(file, plan.runs@, plan.runs@.len() as int) == stored,
        result.value matches Some(value) && value@ == write.value@,
{
    let start = write.allocation.physical_slot * layout.slot_size;
    assert(start >= 0) by (nonlinear_arith)
        requires
            start == write.allocation.physical_slot * layout.slot_size,
    ;
    assert(write.size()->0 == stored.len());
    lemma_bytes_found(file, plan.runs@, start as nat, plan.runs@.len() as int);
    assert(file.subrange(start, start + stored.len()) =~= stored);
    assert(read.value is Some);
    assert(result.value is Some);
    law_stored_entry_is_unambiguous(stored, write.key@, write.value@, write.key@, result.value->0@);
}

/// After a reclaim of its segment a location gives nothing back, whatever the bytes are.
pub proof fn law_a_reclaimed_location_reads_nothing(
    model: AllocatorModel,
    location: SegmentLocation,
    plan: SegmentReadPlan,
    bytes: Seq<u8>,
    key: Seq<u8>,
    read: SegmentBlobReadResult,
    result: SegmentBlobReadResult,
)
    requires
        model.segments[plan.segment as int].generation != location.segment_generation,
        read_finishes(model, location, plan, bytes, read),
        entry_decodes(key, read, result),
    ensures
        result.value is None,
{
}

/// Once a segment's generation has moved on, no location of an earlier generation is live.
pub proof fn law_stale_locations_miss(
    model: AllocatorModel,
    layout: SegmentLayout,
    location: SegmentLocation,
)
    requires
        location_place(layout, location) matches Some(place) ==> model.segments[place.segment as int].generation
            != location.segment_generation,
    ensures
        !location_is_live(model, layout, location),
{
}

/// The bytes of a plan are those of all its runs together, wherever that many can be
/// counted.
pub proof fn law_a_plan_counts_every_run(runs: Seq<SegmentReadRun>, n: int)
    requires
        0 <= n <= runs.len(),
    ensures
        ({
            let total = runs.take(n).map_values(|run: SegmentReadRun| run.physical_len as int).fold_left(
                0,
                |sum: int, len: int| sum + len,
            );
            &&& total <= usize::MAX ==> physical_total(runs, n) == total
            &&& total > usize::MAX ==> physical_total(runs, n) == usize::MAX
        }),
    decreases n,
{
    let lens = runs.take(n).map_values(|run: SegmentReadRun| run.physical_len as int);
    if n > 0 {
        law_a_plan_counts_every_run(runs, n - 1);
        assert(lens.drop_last() =~= runs.take(n - 1).map_values(|run: SegmentReadRun| run.physical_len as int));
        assert(lens.last() == runs[n - 1].physical_len as int);
    }
}

} // verus!
