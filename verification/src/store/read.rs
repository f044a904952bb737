//! Reading byte-packed entries: which bytes to read, and whether they may be handed out.

use vstd::prelude::*;

use crate::counter::{ceil_div, div_ceil, sum_size};
use crate::format::{
    content_digest, decode_entry_value, encoded_entry_value_digest, is_stored_entry,
    law_stored_digest_is_the_digest_of_the_value, law_stored_entry_is_unambiguous, stored_value, PAGE_SIZE,
};
use crate::model::{EntryKey, MAX_KEY_SIZE};
use crate::store::batch::{align_down, align_up, holds_at, EntryWrite};
use crate::store::operation::GetResult;
use crate::store::pool::{decode_liveness, law_data_offsets_round_trip, ExtentPool, PackedLocation, PackedModel, PoolLayout};

verus! {

/// The bytes of an entry, if it could be read, and the payload reads that it took.
#[derive(Debug, PartialEq, Eq)]
pub struct StoredEntryRead {
    pub value: Option<Vec<u8>>,
    pub data_frames: usize,
    pub data_runs: usize,
    pub data_bytes: usize,
}

impl Default for StoredEntryRead {
    fn default() -> (result: StoredEntryRead)
        ensures
            result.value is None,
            result.data_frames == 0,
            result.data_runs == 0,
            result.data_bytes == 0,
    {
        StoredEntryRead { value: None, data_frames: 0, data_runs: 0, data_bytes: 0 }
    }
}

/// One read of the data file: `len` bytes at `offset`, of which those from `skip` on, `take`
/// of them, belong to the entry.
#[derive(Debug, Clone, Copy, PartialEq, Eq, Structural)]
pub struct EntryReadRun {
    pub offset: u64,
    pub len: usize,
    pub skip: usize,
    pub take: usize,
}

/// The reads for one entry, and what they will have taken.
#[derive(Debug)]
pub struct EntryReadPlan {
    pub runs: Vec<EntryReadRun>,
    pub extent: u32,
    pub extent_offset: u32,
    pub data_frames: usize,
    pub data_bytes: usize,
}

/// The location lies within one extent of the layout.
pub open spec fn in_range(layout: PoolLayout, location: PackedLocation, extent: nat, offset: nat) -> bool {
    &&& location.stored_len > 0
    &&& extent < layout.extent_count
    &&& offset < layout.extent_size
    &&& location.data_offset == layout.offset_of(extent, offset)
    &&& offset + location.stored_len <= layout.extent_size
}

/// The location names bytes that were allocated in the generation that is in place.
pub open spec fn is_live(model: PackedModel, layout: PoolLayout, location: PackedLocation) -> bool {
    exists|extent: nat, offset: nat|
        {
            &&& #[trigger] in_range(layout, location, extent, offset)
            &&& model.extents[extent as int].generation == location.extent_generation
            &&& model.extents[extent as int].used_bytes >= offset + location.stored_len
        }
}

/// The pages that bytes at an offset touch.
pub open spec fn frames_of(offset: nat, len: nat) -> nat {
    ceil_div(offset % 4096 + len, 4096)
}

/// The bytes that the runs `0..n` take for the entry.
pub open spec fn taken(runs: Seq<EntryReadRun>, n: int) -> nat
    decreases n,
{
    if n <= 0 {
        0
    } else {
        taken(runs, n - 1) + runs[n - 1].take as nat
    }
}

/// The bytes that the runs read in all, held at the largest `usize`.
pub open spec fn read_total(runs: Seq<EntryReadRun>, n: int) -> usize
    decreases n,
{
    if n <= 0 {
        0
    } else {
        sum_size(read_total(runs, n - 1), runs[n - 1].len)
    }
}

/// One run continues where the runs before it ended. A direct read is whole pages at the
/// start of a page; any other reads just the bytes of the entry.
pub open spec fn run_reads(run: EntryReadRun, position: nat, run_size: nat, direct: bool) -> bool {
    &&& run.offset + run.skip == position
    &&& run.skip + run.take <= run.len <= run_size
    &&& run.take > 0
    &&& direct ==> run.offset % 4096 == 0 && run.len % 4096 == 0 && run.skip < 4096
    &&& !direct ==> run.skip == 0 && run.take == run.len
}

/// The runs read `len` bytes from `start` on, one after the other.
pub open spec fn reads_range(
    runs: Seq<EntryReadRun>,
    start: nat,
    len: nat,
    run_size: nat,
    direct: bool,
) -> bool {
    &&& taken(runs, runs.len() as int) == len
    &&& forall|k: int|
        0 <= k < runs.len() ==> run_reads(#[trigger] runs[k], start + taken(runs, k), run_size, direct)
    &&& forall|k: int| 0 <= k < runs.len() - 1 ==> (#[trigger] runs[k]).len == run_size
}

proof fn lemma_totals_of_prefix(before: Seq<EntryReadRun>, run: EntryReadRun, n: int)
    requires
        n <= before.len(),
    ensures
        taken(before.push(run), n) == taken(before, n),
        read_total(before.push(run), n) == read_total(before, n),
    decreases n,
{
    if n > 0 {
        lemma_totals_of_prefix(before, run, n - 1);
    }
}

proof fn lemma_totals_of_push(before: Seq<EntryReadRun>, run: EntryReadRun)
    ensures
        forall|n: int|
            n <= before.len() ==> #[trigger] taken(before.push(run), n) == taken(before, n),
        forall|n: int|
            n <= before.len() ==> #[trigger] read_total(before.push(run), n) == read_total(before, n),
        taken(before.push(run), before.len() as int + 1) == taken(before, before.len() as int) + run.take,
        read_total(before.push(run), before.len() as int + 1) == sum_size(
            read_total(before, before.len() as int),
            run.len,
        ),
{
    assert forall|n: int| n <= before.len() implies #[trigger] taken(before.push(run), n) == taken(before, n) by {
        lemma_totals_of_prefix(before, run, n);
    }
    assert forall|n: int| n <= before.len() implies #[trigger] read_total(before.push(run), n) == read_total(
        before,
        n,
    ) by {
        lemma_totals_of_prefix(before, run, n);
    }
    let last = before.len() as int;
    assert(before.push(run)[last] == run);
    assert(taken(before.push(run), last) == taken(before, last));
    assert(read_total(before.push(run), last) == read_total(before, last));
}

/// What may be handed out of the bytes read for a location: all of them, where the value
/// in them has the digest of the location and the extent was not reclaimed meanwhile.
pub open spec fn read_finishes(
    model: PackedModel,
    location: PackedLocation,
    plan: EntryReadPlan,
    bytes: Seq<u8>,
    result: StoredEntryRead,
) -> bool {
    let in_place = model.extents[plan.extent as int].generation == location.extent_generation;
    &&& match result.value {
        Some(found) => {
            &&& found@ == bytes
            &&& in_place
            &&& exists|value: Seq<u8>| #[trigger]
                stored_value(bytes, value) && content_digest(value) == location.content_digest
        },
        None => in_place ==> forall|value: Seq<u8>| #[trigger]
            stored_value(bytes, value) ==> content_digest(value) != location.content_digest,
    }
    &&& result.data_frames == plan.data_frames
    &&& result.data_runs == plan.runs@.len()
    &&& result.data_bytes == plan.data_bytes
}

/// What an entry of `key` among the bytes read holds.
pub open spec fn entry_decodes(key: Seq<u8>, read: StoredEntryRead, result: StoredEntryRead) -> bool {
    &&& result.data_frames == read.data_frames
    &&& result.data_runs == read.data_runs
    &&& result.data_bytes == read.data_bytes
    &&& match result.value {
        Some(value) => read.value matches Some(stored) && is_stored_entry(stored@, key, value@) && value@.len() > 0
            && key.len() <= MAX_KEY_SIZE,
        None => read.value matches Some(stored) ==> forall|value: Seq<u8>| #[trigger]
            is_stored_entry(stored@, key, value) ==> value.len() == 0 || key.len() > MAX_KEY_SIZE,
    }
}

impl ExtentPool {
    /// The extent of a location and its offset there, if it lies within one extent.
    pub fn location_range(&self, location: PackedLocation) -> (place: Option<(u32, u32)>)
        requires
            self.layout.wf(),
        ensures
            match place {
                Some((extent, offset)) => in_range(self.layout, location, extent as nat, offset as nat),
                None => forall|extent: nat, offset: nat| !(#[trigger] in_range(
                    self.layout,
                    location,
                    extent,
                    offset,
                )),
            },
    {
        let len = location.stored_len as usize;
        if len == 0 || len > self.layout.extent_size {
            return None;
        }
        let (extent, offset) = match self.layout.locate_data_offset(location.data_offset) {
            Some(place) => place,
            None => {
                proof {
                    assert forall|extent: nat, offset: nat| !(#[trigger] in_range(
                        self.layout,
                        location,
                        extent,
                        offset,
                    )) by {
                        if in_range(self.layout, location, extent, offset) {
                            let s = self.layout.extent_size as int;
                            let n = self.layout.extent_count as int;
                            assert(extent * s + s <= n * s) by (nonlinear_arith)
                                requires
                                    extent + 1 <= n,
                                    s > 0,
                            ;
                        }
                    }
                }
                return None;
            },
        };
        if offset as u64 + len as u64 > self.layout.extent_size as u64 {
            proof {
                assert forall|e: nat, o: nat| !(#[trigger] in_range(self.layout, location, e, o)) by {
                    if in_range(self.layout, location, e, o) {
                        law_data_offsets_round_trip(self.layout, extent as nat, offset as nat, e, o);
                    }
                }
            }
            return None;
        }
        Some((extent, offset))
    }

    /// Whether a location still names bytes of its generation.
    pub fn location_is_live(&self, location: PackedLocation) -> (live: bool)
        requires
            self.wf(),
        ensures
            live == is_live(self.state@, self.layout, location),
    {
        let (extent, offset) = match self.location_range(location) {
            Some(place) => place,
            None => return false,
        };
        let end = offset as u64 + location.stored_len as u64;
        assert(self.liveness@[extent as int] == crate::store::pool::liveness_word(
            self.state.extents@[extent as int].generation,
            self.state.extents@[extent as int].used_bytes,
        ));
        let (generation, used_bytes) = decode_liveness(self.liveness[extent as usize]);
        let live = generation == location.extent_generation && used_bytes as u64 >= end;
        proof {
            if is_live(self.state@, self.layout, location) {
                let (e, o) = choose|e: nat, o: nat|
                    {
                        &&& #[trigger] in_range(self.layout, location, e, o)
                        &&& self.state@.extents[e as int].generation == location.extent_generation
                        &&& self.state@.extents[e as int].used_bytes >= o + location.stored_len
                    };
                law_data_offsets_round_trip(self.layout, extent as nat, offset as nat, e, o);
            }
            if live {
                assert(in_range(self.layout, location, extent as nat, offset as nat));
            }
        }
        live
    }

    /// The reads for a location, if it is live.
    pub fn read_plan(&self, location: PackedLocation) -> (plan: Option<EntryReadPlan>)
        requires
            self.wf(),
        ensures
            match plan {
                Some(plan) => {
                    &&& is_live(self.state@, self.layout, location)
                    &&& reads_range(
                        plan.runs@,
                        location.data_offset as nat,
                        location.stored_len as nat,
                        self.read_run_size as nat,
                        self.direct_io,
                    )
                    &&& plan.extent < self.state.extents@.len()
                    &&& in_range(self.layout, location, plan.extent as nat, plan.extent_offset as nat)
                    &&& plan.data_frames == frames_of(plan.extent_offset as nat, location.stored_len as nat)
                    &&& plan.data_bytes == read_total(plan.runs@, plan.runs@.len() as int)
                },
                None => !is_live(self.state@, self.layout, location),
            },
    {
        if !self.location_is_live(location) {
            return None;
        }
        let (extent, offset) = match self.location_range(location) {
            Some(place) => place,
            None => return None,
        };
        let ghost size = self.layout.extent_size as int;
        proof {
            let e = extent as int;
            let n = self.layout.extent_count as int;
            assert(e * size + size <= n * size) by (nonlinear_arith)
                requires
                    e + 1 <= n,
                    size > 0,
            ;
        }
        let start = location.data_offset;
        let end = start + location.stored_len as u64;
        let runs = if self.direct_io {
            direct_runs(start, end, self.read_run_size)
        } else {
            buffered_runs(start, end, self.read_run_size)
        };
        let mut data_bytes: usize = 0;
        let mut k: usize = 0;
        while k < runs.len()
            invariant
                k <= runs@.len(),
                data_bytes == read_total(runs@, k as int),
            decreases runs@.len() - k,
        {
            data_bytes = data_bytes.saturating_add(runs[k].len);
            k = k + 1;
        }
        proof {
            assert(offset % 4096 + location.stored_len <= self.layout.extent_size);
        }
        let data_frames = div_ceil(offset as usize % PAGE_SIZE + location.stored_len as usize, PAGE_SIZE);
        Some(EntryReadPlan { runs, extent, extent_offset: offset, data_frames, data_bytes })
    }

    /// Whether the bytes read for a location may be handed out: the value in them has the
    /// digest of the location, and the extent was not reclaimed while they were read.
    pub fn finish_read(&self, location: PackedLocation, plan: &EntryReadPlan, bytes: Vec<u8>) -> (result: StoredEntryRead)
        requires
            self.wf(),
            plan.extent < self.state.extents@.len(),
        ensures
            read_finishes(self.state@, location, *plan, bytes@, result),
    {
        assert(self.liveness@[plan.extent as int] == crate::store::pool::liveness_word(
            self.state.extents@[plan.extent as int].generation,
            self.state.extents@[plan.extent as int].used_bytes,
        ));
        let (generation, _) = decode_liveness(self.liveness[plan.extent as usize]);
        let matches = match encoded_entry_value_digest(bytes.as_slice()) {
            Some(digest) => {
                proof {
                    let value = choose|value: Seq<u8>| #[trigger]
                        stored_value(bytes@, value) && digest == content_digest(value);
                    assert forall|other: Seq<u8>| #[trigger] stored_value(bytes@, other) implies other == value by {
                        let key = choose|key: Seq<u8>|
                            #[trigger] is_stored_entry(bytes@, key, value) && key.len() <= MAX_KEY_SIZE
                                && value.len() > 0;
                        law_stored_digest_is_the_digest_of_the_value(bytes@, key, value, other);
                    }
                }
                digest == location.content_digest
            },
            None => false,
        };
        let value = if matches && generation == location.extent_generation {
            Some(bytes)
        } else {
            None
        };
        StoredEntryRead {
            value,
            data_frames: plan.data_frames,
            data_runs: plan.runs.len(),
            data_bytes: plan.data_bytes,
        }
    }
}

/// One read of whole pages, from `offset` on.
fn direct_run(start: u64, end: u64, physical_end: u64, offset: u64, run_size: usize) -> (run: EntryReadRun)
    requires
        run_size > 0,
        run_size % 4096 == 0,
        offset % 4096 == 0,
        physical_end % 4096 == 0,
        end <= physical_end < end + 4096,
        offset < physical_end,
        start < end <= u64::MAX - 4096,
        start < offset + 4096,
    ensures
        offset < end,
        run_reads(run, (if start > offset {
            start as nat
        } else {
            offset as nat
        }), run_size as nat, true),
        run.offset == offset,
        offset + run.len <= physical_end,
        (offset + run.len) % 4096 == 0,
        offset + run.len < physical_end ==> run.len == run_size,
        run.len > 0,
        start < offset + run.len,
        run.offset + run.skip + run.take == (if end < offset + run.len {
            end as int
        } else {
            offset + run.len
        }),
{
    let rest = physical_end - offset;
    let len = if rest < run_size as u64 {
        rest as usize
    } else {
        run_size
    };
    let skip = if start > offset {
        (start - offset) as usize
    } else {
        0
    };
    let stop = if end < offset + len as u64 {
        end
    } else {
        offset + len as u64
    };
    EntryReadRun { offset, len, skip, take: (stop - offset) as usize - skip }
}

/// The reads of whole pages for the bytes `start..end`.
fn direct_runs(start: u64, end: u64, run_size: usize) -> (runs: Vec<EntryReadRun>)
    requires
        run_size > 0,
        run_size % 4096 == 0,
        start < end <= u64::MAX - 4096,
    ensures
        reads_range(runs@, start as nat, (end - start) as nat, run_size as nat, true),
{
    let mut runs: Vec<EntryReadRun> = Vec::new();
    let mut offset = align_down(start);
    let physical_end = match align_up(end) {
        Some(aligned) => aligned,
        None => end,
    };
    while offset < physical_end
        invariant
            run_size > 0,
            run_size % 4096 == 0,
            start < end <= u64::MAX - 4096,
            offset % 4096 == 0,
            physical_end % 4096 == 0,
            end <= physical_end < end + 4096,
            offset <= physical_end,
            runs@.len() == 0 ==> offset <= start < offset + 4096,
            runs@.len() > 0 ==> start < offset,
            taken(runs@, runs@.len() as int) == (if runs@.len() == 0 {
                0
            } else if offset < end {
                offset - start
            } else {
                end - start
            }),
            forall|k: int|
                0 <= k < runs@.len() ==> run_reads(
                    #[trigger] runs@[k],
                    start as nat + taken(runs@, k),
                    run_size as nat,
                    true,
                ),
            forall|k: int|
                0 <= k < runs@.len() && (k < runs@.len() - 1 || offset < physical_end) ==> (
                #[trigger] runs@[k]).len == run_size,
        decreases physical_end - offset,
    {
        let run = direct_run(start, end, physical_end, offset, run_size);
        let ghost before = runs@;
        proof {
            lemma_totals_of_push(before, run);
        }
        runs.push(run);
        proof {
            assert(run_reads(
                run,
                start as nat + taken(before, before.len() as int),
                run_size as nat,
                true,
            ));
            assert forall|k: int| 0 <= k < runs@.len() implies run_reads(
                #[trigger] runs@[k],
                start as nat + taken(runs@, k),
                run_size as nat,
                true,
            ) by {
                if k < before.len() {
                    assert(run_reads(
                        before[k],
                        start as nat + taken(before, k),
                        run_size as nat,
                        true,
                    ));
                }
            }
        }
        offset = offset + run.len as u64;
    }
    runs
}

/// The reads of just the bytes `start..end`.
fn buffered_runs(start: u64, end: u64, run_size: usize) -> (runs: Vec<EntryReadRun>)
    requires
        run_size > 0,
        run_size % 4096 == 0,
        start < end <= u64::MAX - 4096,
    ensures
        reads_range(runs@, start as nat, (end - start) as nat, run_size as nat, false),
{
    let mut runs: Vec<EntryReadRun> = Vec::new();
    let mut offset = start;
    while offset < end
        invariant
            run_size > 0,
            run_size % 4096 == 0,
            start <= offset <= end,
            taken(runs@, runs@.len() as int) == offset - start,
            forall|k: int|
                0 <= k < runs@.len() ==> run_reads(
                    #[trigger] runs@[k],
                    start as nat + taken(runs@, k),
                    run_size as nat,
                    false,
                ),
            forall|k: int|
                0 <= k < runs@.len() && (k < runs@.len() - 1 || offset < end) ==> (#[trigger] runs@[k]).len
                    == run_size,
        decreases end - offset,
    {
        let rest = end - offset;
        let len = if rest < run_size as u64 {
            rest as usize
        } else {
            run_size
        };
        let run = EntryReadRun { offset, len, skip: 0, take: len };
        let ghost before = runs@;
        proof {
            lemma_totals_of_push(before, run);
        }
        runs.push(run);
        proof {
            assert forall|k: int| 0 <= k < runs@.len() implies run_reads(
                #[trigger] runs@[k],
                start as nat + taken(runs@, k),
                run_size as nat,
                false,
            ) by {
                if k < before.len() {
                    assert(run_reads(
                        before[k],
                        start as nat + taken(before, k),
                        run_size as nat,
                        false,
                    ));
                }
            }
        }
        offset = offset + len as u64;
    }
    runs
}

/// The value in bytes that were read, where they are an entry of `key`.
pub fn read_entry(key: &EntryKey, read: StoredEntryRead) -> (result: StoredEntryRead)
    ensures
        entry_decodes(key@, read, result),
{
    let value = match read.value {
        Some(stored) => decode_entry_value(stored, key),
        None => None,
    };
    StoredEntryRead {
        value,
        data_frames: read.data_frames,
        data_runs: read.data_runs,
        data_bytes: read.data_bytes,
    }
}

/// What a lookup hands out of what was read at a location.
pub open spec fn hands_out(location: PackedLocation, read: StoredEntryRead, result: GetResult) -> bool {
    &&& result.value == read.value
    &&& result.priority == (if read.value is Some {
        Some(location.priority)
    } else {
        None
    })
    &&& result.data_frames == read.data_frames
    &&& result.data_runs == read.data_runs
    &&& result.data_bytes == read.data_bytes
}

/// What a lookup returns once the payload was read. The priority is known only where the
/// value is.
pub fn get_result(location: PackedLocation, read: StoredEntryRead) -> (result: GetResult)
    ensures
        hands_out(location, read, result),
{
    let priority = if read.value.is_some() {
        Some(location.priority)
    } else {
        None
    };
    GetResult {
        value: read.value,
        priority,
        data_frames: read.data_frames,
        data_runs: read.data_runs,
        data_bytes: read.data_bytes,
    }
}

/// The bytes that a plan's reads find in the data file, one after the other.
pub open spec fn bytes_found(file: Seq<u8>, runs: Seq<EntryReadRun>, n: int) -> Seq<u8>
    decreases n,
{
    if n <= 0 {
        Seq::empty()
    } else {
        let run = runs[n - 1];
        bytes_found(file, runs, n - 1) + file.subrange(run.offset + run.skip, run.offset + run.skip + run.take)
    }
}

/// The bytes found are those of the range that is read.
pub proof fn lemma_bytes_found(
    file: Seq<u8>,
    runs: Seq<EntryReadRun>,
    start: nat,
    run_size: nat,
    direct: bool,
    n: int,
)
    requires
        0 <= n <= runs.len(),
        forall|k: int|
            0 <= k < runs.len() ==> run_reads(#[trigger] runs[k], start + taken(runs, k), run_size, direct),
        start + taken(runs, n) <= file.len(),
    ensures
        bytes_found(file, runs, n) == file.subrange(start as int, (start + taken(runs, n)) as int),
    decreases n,
{
    if n > 0 {
        lemma_bytes_found(file, runs, start, run_size, direct, n - 1);
        assert(run_reads(runs[n - 1], start + taken(runs, n - 1), run_size, direct));
    }
    assert(bytes_found(file, runs, n) =~= file.subrange(start as int, (start + taken(runs, n)) as int));
}

/// What was written under a key is what a read of its location gives back, as long as the
/// extent is in place: the data file holds the stored entry at its bytes, `read` is what a
/// finished read of those bytes hands out and `result` what is decoded from that.
pub proof fn law_read_returns_what_was_written(
    write: EntryWrite,
    stored: Seq<u8>,
    file: Seq<u8>,
    plan: EntryReadPlan,
    run_size: nat,
    direct: bool,
    model: PackedModel,
    read: StoredEntryRead,
    result: StoredEntryRead,
)
    requires
        write.size() is Some,
        is_stored_entry(stored, write.key@, write.value@),
        write.value@.len() > 0,
        write.key@.len() <= MAX_KEY_SIZE,
        write.content_digest == content_digest(write.value@),
        holds_at(file, write.allocation.data_offset as int, stored),
        reads_range(
            plan.runs@,
            write.location().data_offset as nat,
            write.location().stored_len as nat,
            run_size,
            direct,
        ),
        model.extents[plan.extent as int].generation == write.location().extent_generation,
        read_finishes(
            model,
            write.location(),
            plan,
            bytes_found(file, plan.runs@, plan.runs@.len() as int),
            read,
        ),
        entry_decodes(write.key@, read, result),
    ensures
        bytes_found(file, plan.runs@, plan.runs@.len() as int) == stored,
        result.value matches Some(value) && value@ == write.value@,
{
    let start = write.allocation.data_offset as nat;
    let found = bytes_found(file, plan.runs@, plan.runs@.len() as int);
    lemma_bytes_found(file, plan.runs@, start, run_size, direct, plan.runs@.len() as int);
    assert(file.subrange(start as int, (start + stored.len()) as int) =~= stored);
    assert(found == stored);
    assert(stored_value(found, write.value@));
    assert(content_digest(write.value@) == write.location().content_digest);
    assert(read.value is Some);
    assert(result.value is Some);
    law_stored_entry_is_unambiguous(stored, write.key@, write.value@, write.key@, result.value->0@);
}

/// After a reclaim of its extent a location gives nothing back, whatever the bytes are.
pub proof fn law_a_reclaimed_location_reads_nothing(
    model: PackedModel,
    location: PackedLocation,
    plan: EntryReadPlan,
    bytes: Seq<u8>,
    key: Seq<u8>,
    read: StoredEntryRead,
    result: StoredEntryRead,
)
    requires
        model.extents[plan.extent as int].generation != location.extent_generation,
        read_finishes(model, location, plan, bytes, read),
        entry_decodes(key, read, result),
    ensures
        result.value is None,
{
}

/// A location stays live while its extent only takes more entries: allocations, sealed
/// frames and checkpoints of a later state never cost an entry that is not reclaimed.
pub proof fn law_growth_keeps_locations_live(
    before: PackedModel,
    later: PackedModel,
    layout: PoolLayout,
    location: PackedLocation,
    extent: nat,
    offset: nat,
)
    requires
        layout.wf(),
        before.extents.len() == layout.extent_count,
        before.grows_into(later),
        in_range(layout, location, extent, offset),
        is_live(before, layout, location),
    ensures
        is_live(later, layout, location) <==> later.extents[extent as int].generation
            == before.extents[extent as int].generation,
{
    let (e, o) = choose|e: nat, o: nat|
        {
            &&& #[trigger] in_range(layout, location, e, o)
            &&& before.extents[e as int].generation == location.extent_generation
            &&& before.extents[e as int].used_bytes >= o + location.stored_len
        };
    law_data_offsets_round_trip(layout, extent, offset, e, o);
    assert(e == extent && o == offset);
    let kept = before.extents[extent as int];
    if later.extents[extent as int].generation == kept.generation {
        assert(in_range(layout, location, extent, offset));
        assert(is_live(later, layout, location));
    } else {
        law_stale_locations_miss(later, layout, location, extent, offset);
    }
}

/// A lookup never returns the value of another key, even where both keys have one digest.
pub proof fn law_another_keys_value_is_never_returned(
    key: Seq<u8>,
    other: Seq<u8>,
    value: Seq<u8>,
    read: StoredEntryRead,
    result: StoredEntryRead,
)
    requires
        key != other,
        read.value is Some,
        is_stored_entry(read.value->0@, other, value),
        entry_decodes(key, read, result),
    ensures
        result.value is None,
{
    if result.value is Some {
        law_stored_entry_is_unambiguous(read.value->0@, key, result.value->0@, other, value);
    }
}

/// Once an extent's generation has moved on, no location of an earlier generation is live.
pub proof fn law_stale_locations_miss(
    model: PackedModel,
    layout: PoolLayout,
    location: PackedLocation,
    extent: nat,
    offset: nat,
)
    requires
        layout.wf(),
        in_range(layout, location, extent, offset),
        model.extents[extent as int].generation != location.extent_generation,
    ensures
        !is_live(model, layout, location),
{
    if is_live(model, layout, location) {
        let (e, o) = choose|e: nat, o: nat|
            {
                &&& #[trigger] in_range(layout, location, e, o)
                &&& model.extents[e as int].generation == location.extent_generation
                &&& model.extents[e as int].used_bytes >= o + location.stored_len
            };
        law_data_offsets_round_trip(layout, extent, offset, e, o);
    }
}

/// The frames of an entry are the pages from that of its first byte to that of its last.
pub proof fn law_frames_are_the_pages_touched(offset: nat, len: nat)
    requires
        len > 0,
    ensures
        frames_of(offset, len) == (offset + len - 1) / 4096 - offset / 4096 + 1,
{
}

/// A location is live exactly while its extent is of its generation and its bytes are
/// within those in use.
pub proof fn law_a_location_is_live_within_its_generation(
    layout: PoolLayout,
    model: PackedModel,
    location: PackedLocation,
    extent: nat,
    offset: nat,
)
    requires
        layout.wf(),
        extent < layout.extent_count,
        offset < layout.extent_size,
        location.data_offset == extent * layout.extent_size + offset,
        location.stored_len > 0,
        model.extents.len() == layout.extent_count,
        forall|i: int| 0 <= i < model.extents.len() ==> (#[trigger] model.extents[i]).used_bytes <= layout.extent_size,
    ensures
        is_live(model, layout, location) <==> location.extent_generation == model.extents[extent as int].generation
            && offset + location.stored_len <= model.extents[extent as int].used_bytes,
{
    let state = model.extents[extent as int];
    if is_live(model, layout, location) {
        let (e, o) = choose|e: nat, o: nat|
            {
                &&& #[trigger] in_range(layout, location, e, o)
                &&& model.extents[e as int].generation == location.extent_generation
                &&& model.extents[e as int].used_bytes >= o + location.stored_len
            };
        law_data_offsets_round_trip(layout, extent, offset, e, o);
    }
    if location.extent_generation == state.generation && offset + location.stored_len <= state.used_bytes {
        assert(in_range(layout, location, extent, offset));
    }
}

/// A read that is not direct reads the bytes of the entry and no others; a direct one reads
/// at least those.
pub proof fn law_reads_cover_the_entry(
    runs: Seq<EntryReadRun>,
    start: nat,
    len: nat,
    run_size: nat,
    direct: bool,
    n: int,
)
    requires
        reads_range(runs, start, len, run_size, direct),
        0 <= n <= runs.len(),
        forall|k: int| 0 <= k <= runs.len() ==> #[trigger] read_total(runs, k) < usize::MAX,
    ensures
        read_total(runs, n) >= taken(runs, n),
        !direct ==> read_total(runs, n) == taken(runs, n),
    decreases n,
{
    if n > 0 {
        law_reads_cover_the_entry(runs, start, len, run_size, direct, n - 1);
        assert(run_reads(runs[n - 1], start + taken(runs, n - 1), run_size, direct));
        assert(read_total(runs, n) < usize::MAX);
    }
}

} // verus!
