//! What a lookup in the segment store gives back after any history.
//!
//! A model of the store serves a map of contents where every hit is the value that the map
//! holds for its key, as far as the length and the checksum of a stored entry tell entries
//! apart. One law for each step says how the map moves with it, and a law over histories
//! puts the steps together.

use vstd::prelude::*;

use crate::checksum::crc32_iso_hdlc;
use crate::counter::ceil_div;
use crate::format::{
    is_stored_entry, law_stored_entry_is_unambiguous, lemma_stored_entry_exists, lemma_stored_entry_unique,
};
use crate::layout::{law_slot_numbers_round_trip, slot_number};
use crate::model::{digest_of, rank, CachePriority};
use crate::segment::batch::{
    holds_at, law_batch_places_every_entry, piece_ok, run_image, run_ok, runs_cover, SegmentWrite, SegmentWriteRun,
};
use crate::segment::engine::{hands_out, holds_already, is_checksum_of};
use crate::segment::format::{SegmentLayout, SegmentLocation, SegmentRole};
use crate::segment::operation::{BlobInsert, GetResult};
use crate::segment::read::{
    bytes_found, entry_decodes, lemma_bytes_found, location_is_live, location_place, read_finishes, reads_range,
    SegmentBlobReadResult, SegmentReadPlan,
};
use crate::segment::state::AllocatorModel;
use crate::store::history::Content;
use crate::segment::store::{
    allocates, allocation_at, law_allocations_continue_the_used_slots, takes, SegmentAllocation,
    SegmentAllocationResult,
};

verus! {

/// The key index, the allocator state and the data file.
pub struct SegmentStoreModel {
    pub index: Map<Seq<u8>, SegmentLocation>,
    pub pool: AllocatorModel,
    pub file: Seq<u8>,
}

/// The bytes of the file at a location.
pub open spec fn bytes_at(layout: SegmentLayout, file: Seq<u8>, location: SegmentLocation) -> Seq<u8> {
    let first = location.physical_slot * layout.slot_size;
    file.subrange(first, first + location.stored_len)
}

/// The file holds the stored entry of `key` and `value` at the location, with its length
/// and its checksum.
pub open spec fn found_at(
    layout: SegmentLayout,
    file: Seq<u8>,
    location: SegmentLocation,
    key: Seq<u8>,
    value: Seq<u8>,
) -> bool {
    &&& location.physical_slot * layout.slot_size + location.stored_len <= file.len()
    &&& is_stored_entry(bytes_at(layout, file, location), key, value)
    &&& crc32_iso_hdlc(bytes_at(layout, file, location)) == location.checksum
}

/// A lookup of `key` can give `value` back: the location in the index is live, and the file
/// holds the entry there.
pub open spec fn hits(layout: SegmentLayout, store: SegmentStoreModel, key: Seq<u8>, value: Seq<u8>) -> bool {
    &&& store.index.contains_key(digest_of(key))
    &&& location_is_live(store.pool, layout, store.index[digest_of(key)])
    &&& found_at(layout, store.file, store.index[digest_of(key)], key, value)
}

/// The stored forms of two values of a key have the same length and the same checksum.
pub open spec fn same_entry(key: Seq<u8>, a: Seq<u8>, b: Seq<u8>) -> bool {
    &&& a.len() == b.len()
    &&& forall|x: Seq<u8>, y: Seq<u8>| #[trigger]
        is_stored_entry(x, key, a) && #[trigger] is_stored_entry(y, key, b) ==> crc32_iso_hdlc(x) == crc32_iso_hdlc(
            y,
        )
}

impl SegmentStoreModel {
    /// The priority that a hit of the key reports.
    pub open spec fn reported(self, key: Seq<u8>) -> CachePriority {
        self.index[digest_of(key)].priority
    }
}

/// `contents` holds a value for the key that `value` cannot be told from, and has it with
/// this priority.
pub open spec fn agrees(
    contents: Map<Seq<u8>, Content>,
    key: Seq<u8>,
    value: Seq<u8>,
    priority: CachePriority,
) -> bool {
    &&& contents.contains_key(key)
    &&& same_entry(key, contents[key].value, value)
    &&& contents[key].priority == priority
}

/// Every hit is what `contents` holds for its key, with the priority that it holds for it. A
/// key may miss.
pub open spec fn serves(layout: SegmentLayout, store: SegmentStoreModel, contents: Map<Seq<u8>, Content>) -> bool {
    forall|key: Seq<u8>, value: Seq<u8>| #[trigger]
        hits(layout, store, key, value) ==> agrees(contents, key, value, store.reported(key))
}

/// The location is of an earlier generation of its segment, or it ends within the used
/// slots of this one.
pub open spec fn settled(layout: SegmentLayout, model: AllocatorModel, location: SegmentLocation) -> bool {
    location_place(layout, location) matches Some(place) ==> {
        let state = model.segments[place.segment as int];
        ||| location.segment_generation < state.generation
        ||| location.segment_generation == state.generation && place.slot + place.slots <= state.used
    }
}

/// Every location of an index is settled.
pub open spec fn index_settled(
    layout: SegmentLayout,
    model: AllocatorModel,
    index: Map<Seq<u8>, SegmentLocation>,
) -> bool {
    forall|key: Seq<u8>| #![trigger index[key]] index.contains_key(key) ==> settled(layout, model, index[key])
}

/// A write of a batch that began at `start` has slots of its own: beyond those that were
/// used then, and within those that are used now.
pub open spec fn gathered(
    layout: SegmentLayout,
    start: AllocatorModel,
    pool: AllocatorModel,
    write: SegmentWrite,
) -> bool {
    let allocation = write.allocation;
    &&& write.fits(layout)
    &&& is_checksum_of(write.checksum, write.key@, write.value@)
    &&& allocation.segment < layout.segment_count
    &&& allocation.physical_slot == slot_number(
        layout.slots_per_segment as nat,
        allocation.segment as nat,
        allocation.slot as nat,
    )
    &&& allocation.segment_generation == pool.segments[allocation.segment as int].generation
    &&& allocation.slot >= start.segments[allocation.segment as int].used
    &&& allocation.slot + allocation.slots <= pool.segments[allocation.segment as int].used
    &&& allocation.slot + allocation.slots <= layout.slots_per_segment
}

/// From `start` to `pool` nothing happened but that slots were taken, those of the writes
/// among them.
pub open spec fn gathers(
    layout: SegmentLayout,
    start: AllocatorModel,
    pool: AllocatorModel,
    writes: Seq<SegmentWrite>,
) -> bool {
    &&& behind(start, pool)
    &&& forall|k: int| 0 <= k < writes.len() ==> gathered(layout, start, pool, #[trigger] writes[k])
}

/// Every segment of `before` is in the generation of `after`, with no more slots used.
pub open spec fn behind(before: AllocatorModel, after: AllocatorModel) -> bool {
    &&& before.segments.len() == after.segments.len()
    &&& forall|i: int|
        0 <= i < before.segments.len() ==> {
            let state = #[trigger] before.segments[i];
            &&& state.generation == after.segments[i].generation
            &&& state.used <= after.segments[i].used
        }
}

/// Write `i` is the last one for the digest of its key.
pub open spec fn last_write(writes: Seq<SegmentWrite>, i: int) -> bool {
    &&& 0 <= i < writes.len()
    &&& forall|j: int|
        i < j < writes.len() ==> digest_of((#[trigger] writes[j]).key@) != digest_of(writes[i].key@)
}

/// No write is for the digest.
pub open spec fn unwritten(writes: Seq<SegmentWrite>, digest: Seq<u8>) -> bool {
    forall|j: int| 0 <= j < writes.len() ==> digest_of((#[trigger] writes[j]).key@) != digest
}

/// A store in the midst of its work: `writes` are the entries of a batch that have slots
/// and are not published, `start` is the allocator state before they got them, and
/// `contents` holds the value last inserted under each key.
pub struct SegmentMoment<'a> {
    pub store: SegmentStoreModel,
    pub start: AllocatorModel,
    pub writes: Seq<SegmentWrite<'a>>,
    pub contents: Map<Seq<u8>, Content>,
}

impl<'a> SegmentMoment<'a> {
    /// The store serves the contents, where the writes count as published, and the slots
    /// that it serves are its own.
    pub open spec fn upheld(self, layout: SegmentLayout) -> bool {
        &&& layout.wf()
        &&& self.start.segments.len() == layout.segment_count
        &&& self.store.file.len() >= layout.segment_count * layout.slots_per_segment * layout.slot_size
        &&& index_settled(layout, self.start, self.store.index)
        &&& gathers(layout, self.start, self.store.pool, self.writes)
        &&& forall|key: Seq<u8>, value: Seq<u8>| #[trigger]
            hits(layout, self.store, key, value) && unwritten(self.writes, digest_of(key)) ==> agrees(self.contents, key, value, self.store.reported(key))
        &&& forall|i: int| #[trigger]
            last_write(self.writes, i) ==> agrees(self.contents, self.writes[i].key@, self.writes[i].value@, self.writes[i].allocation.priority)
    }

    /// No entry waits to be published.
    pub open spec fn at_rest(self) -> bool {
        self.writes.len() == 0
    }

    /// The store where `value` counts as the last one inserted under `key`.
    pub open spec fn told(self, key: Seq<u8>, value: Seq<u8>, priority: CachePriority) -> SegmentMoment<'a> {
        SegmentMoment { contents: self.contents.insert(key, Content { value, priority }), ..self }
    }

    /// The store once an entry got slots.
    pub open spec fn joined(self, write: SegmentWrite<'a>, pool: AllocatorModel) -> SegmentMoment<'a> {
        SegmentMoment {
            store: SegmentStoreModel { pool, ..self.store },
            writes: self.writes.push(write),
            ..self
        }
    }

    /// The store once a key is removed.
    pub open spec fn removed(self, key: Seq<u8>) -> SegmentMoment<'a> {
        SegmentMoment {
            store: SegmentStoreModel { index: self.store.index.remove(digest_of(key)), ..self.store },
            contents: self.contents.remove(key),
            ..self
        }
    }

    /// The store over another file.
    pub open spec fn with_file(self, file: Seq<u8>) -> SegmentMoment<'a> {
        SegmentMoment { store: SegmentStoreModel { file, ..self.store }, ..self }
    }

    /// The store once a segment is given back.
    pub open spec fn reset(self, segment: int, role: SegmentRole) -> SegmentMoment<'a> {
        SegmentMoment {
            store: SegmentStoreModel { pool: self.store.pool.segment_reset(segment, role), ..self.store },
            start: self.start.segment_reset(segment, role),
            ..self
        }
    }

    /// The store with another allocator state, at rest.
    pub open spec fn with_pool(self, pool: AllocatorModel) -> SegmentMoment<'a> {
        SegmentMoment { store: SegmentStoreModel { pool, ..self.store }, start: pool, ..self }
    }

    /// The store once its pending entries are published: their runs are in the file, and
    /// their locations in the index.
    pub open spec fn published(self, file: Seq<u8>) -> SegmentMoment<'a> {
        SegmentMoment {
            store: SegmentStoreModel {
                index: index_after(self.store.index, self.writes, self.writes.len()),
                pool: self.store.pool,
                file,
            },
            start: self.store.pool,
            writes: Seq::empty(),
            contents: self.contents,
        }
    }
}

/// A store of which nothing is told yet.
pub open spec fn fresh<'a>(store: SegmentStoreModel) -> SegmentMoment<'a> {
    SegmentMoment { store, start: store.pool, writes: Seq::empty(), contents: Map::empty() }
}

/// The index once it holds the first `n` writes.
pub open spec fn index_after(
    index: Map<Seq<u8>, SegmentLocation>,
    writes: Seq<SegmentWrite>,
    n: nat,
) -> Map<Seq<u8>, SegmentLocation>
    decreases n,
{
    if n == 0 {
        index
    } else {
        index_after(index, writes, (n - 1) as nat).insert(
            digest_of(writes[n - 1].key@),
            writes[n - 1].location(),
        )
    }
}

/// A location that is settled stays settled while the pool grows, and never comes to life.
pub proof fn law_dead_locations_stay_dead(
    layout: SegmentLayout,
    before: AllocatorModel,
    later: AllocatorModel,
    location: SegmentLocation,
)
    requires
        before.segments.len() == layout.segment_count,
        before.grows_into(later),
        settled(layout, before, location),
    ensures
        settled(layout, later, location),
        location_is_live(later, layout, location) ==> location_is_live(before, layout, location),
{
    if let Some(place) = location_place(layout, location) {
        assert(before.segments[place.segment as int] == before.segments[place.segment as int]);
    }
}

/// At rest the store serves its contents, from the slots that are used now.
pub proof fn law_a_store_at_rest_serves_its_contents(layout: SegmentLayout, moment: SegmentMoment)
    requires
        moment.upheld(layout),
        moment.at_rest(),
    ensures
        serves(layout, moment.store, moment.contents),
        moment.with_pool(moment.store.pool).upheld(layout),
{
    let pool = moment.store.pool;
    assert forall|key: Seq<u8>, value: Seq<u8>| #[trigger] hits(layout, moment.store, key, value) implies agrees(moment.contents, key, value, moment.store.reported(key)) by {
        assert(unwritten(moment.writes, digest_of(key)));
    }
    assert forall|key: Seq<u8>| #![trigger moment.store.index[key]] moment.store.index.contains_key(key) implies settled(
        layout,
        pool,
        moment.store.index[key],
    ) by {
        lemma_behind_is_growth(moment.start, pool);
        law_dead_locations_stay_dead(layout, moment.start, pool, moment.store.index[key]);
    }
}

proof fn lemma_behind_is_growth(before: AllocatorModel, after: AllocatorModel)
    requires
        behind(before, after),
    ensures
        before.grows_into(after),
{
}

/// What `hits` finds at a location has the checksum of the location.
proof fn lemma_found_checksum(
    layout: SegmentLayout,
    file: Seq<u8>,
    location: SegmentLocation,
    key: Seq<u8>,
    value: Seq<u8>,
)
    requires
        found_at(layout, file, location, key, value),
    ensures
        is_checksum_of(location.checksum, key, value),
        location.stored_len == 16 + key.len() + value.len(),
{
    let bytes = bytes_at(layout, file, location);
    assert forall|stored: Seq<u8>| #[trigger] is_stored_entry(stored, key, value) implies location.checksum
        == crc32_iso_hdlc(stored) by {
        lemma_stored_entry_unique(stored, bytes, key, value);
    }
    assert(location.physical_slot * layout.slot_size >= 0) by (nonlinear_arith)
        requires
            location.physical_slot >= 0,
            layout.slot_size >= 0,
    ;
}

proof fn lemma_same_checksum(key: Seq<u8>, a: Seq<u8>, b: Seq<u8>, checksum: u32)
    requires
        a.len() == b.len(),
        is_checksum_of(checksum, key, a),
        is_checksum_of(checksum, key, b),
    ensures
        same_entry(key, a, b),
{
}

/// An insert that the location in the index already holds changes nothing but what the
/// store stands for.
pub proof fn law_an_insert_held_by_a_location_is_served<'a>(
    layout: SegmentLayout,
    moment: SegmentMoment<'a>,
    insert: BlobInsert,
    checksum: u32,
)
    requires
        moment.upheld(layout),
        unwritten(moment.writes, digest_of(insert.key@)),
        moment.store.index.contains_key(digest_of(insert.key@)),
        is_checksum_of(checksum, insert.key@, insert.value@),
        holds_already(moment.store.index[digest_of(insert.key@)], insert, checksum),
    ensures
        moment.told(insert.key@, insert.value@, insert.priority).upheld(layout),
{
    let contents = moment.contents.insert(
        insert.key@,
        Content { value: insert.value@, priority: insert.priority },
    );
    let location = moment.store.index[digest_of(insert.key@)];
    assert forall|key: Seq<u8>, value: Seq<u8>| #[trigger]
        hits(layout, moment.store, key, value) && unwritten(moment.writes, digest_of(key)) implies agrees(contents, key, value, moment.store.reported(key)) by {
        assert(agrees(moment.contents, key, value, moment.store.reported(key)));
        if key == insert.key@ {
            lemma_found_checksum(layout, moment.store.file, location, key, value);
            lemma_same_checksum(key, insert.value@, value, checksum);
        }
    }
    assert forall|i: int| #[trigger] last_write(moment.writes, i) implies agrees(contents, moment.writes[i].key@, moment.writes[i].value@, moment.writes[i].allocation.priority) by {
        assert(digest_of(moment.writes[i].key@) != digest_of(insert.key@));
        assert(agrees(moment.contents, moment.writes[i].key@, moment.writes[i].value@, moment.writes[i].allocation.priority));
    }
}

/// An insert that the last pending entry of its digest already holds changes nothing but
/// what the store stands for.
pub proof fn law_an_insert_held_by_a_write_is_served<'a>(
    layout: SegmentLayout,
    moment: SegmentMoment<'a>,
    insert: BlobInsert,
    checksum: u32,
    i: int,
)
    requires
        moment.upheld(layout),
        last_write(moment.writes, i),
        digest_of(moment.writes[i].key@) == digest_of(insert.key@),
        is_checksum_of(checksum, insert.key@, insert.value@),
        holds_already(moment.writes[i].location(), insert, checksum),
    ensures
        moment.told(insert.key@, insert.value@, insert.priority).upheld(layout),
{
    let contents = moment.contents.insert(
        insert.key@,
        Content { value: insert.value@, priority: insert.priority },
    );
    assert(gathered(layout, moment.start, moment.store.pool, moment.writes[i]));
    assert forall|key: Seq<u8>, value: Seq<u8>| #[trigger]
        hits(layout, moment.store, key, value) && unwritten(moment.writes, digest_of(key)) implies agrees(contents, key, value, moment.store.reported(key)) by {
        assert(digest_of(moment.writes[i].key@) != digest_of(key));
        assert(agrees(moment.contents, key, value, moment.store.reported(key)));
    }
    assert forall|j: int| #[trigger] last_write(moment.writes, j) implies agrees(contents, moment.writes[j].key@, moment.writes[j].value@, moment.writes[j].allocation.priority) by {
        assert(agrees(moment.contents, moment.writes[j].key@, moment.writes[j].value@, moment.writes[j].allocation.priority));
        if moment.writes[j].key@ == insert.key@ {
            if i < j {
                assert(digest_of(moment.writes[j].key@) != digest_of(moment.writes[i].key@));
            } else if j < i {
                assert(digest_of(moment.writes[i].key@) != digest_of(moment.writes[j].key@));
            }
            lemma_same_checksum(insert.key@, insert.value@, moment.writes[i].value@, checksum);
        }
    }
}

/// The pool gave the next slots of a segment to one entry: the allocation for an insert,
/// and that for an entry that is moved out of a segment under reclaim.
pub open spec fn slots_given(
    layout: SegmentLayout,
    before: AllocatorModel,
    after: AllocatorModel,
    allocation: SegmentAllocation,
) -> bool {
    &&& allocation.segment < layout.segment_count
    &&& allocation.slot == before.segments[allocation.segment as int].used
    &&& allocation.slot + allocation.slots <= layout.slots_per_segment
    &&& allocation.segment_generation == before.segments[allocation.segment as int].generation
    &&& allocation.physical_slot == slot_number(
        layout.slots_per_segment as nat,
        allocation.segment as nat,
        allocation.slot as nat,
    )
    &&& behind(before, after)
    &&& after.segments[allocation.segment as int].used == allocation.slot + allocation.slots
}

/// An entry that got slots joins the pending ones; of an insert it becomes the contents of
/// its key.
pub proof fn law_an_allocated_insert_is_served<'a>(
    layout: SegmentLayout,
    moment: SegmentMoment<'a>,
    write: SegmentWrite<'a>,
    after: AllocatorModel,
)
    requires
        moment.upheld(layout),
        slots_given(layout, moment.store.pool, after, write.allocation),
        write.fits(layout),
        is_checksum_of(write.checksum, write.key@, write.value@),
    ensures
        moment.joined(write, after).told(write.key@, write.value@, write.allocation.priority).upheld(layout),
{
    let told = moment.joined(write, after).told(write.key@, write.value@, write.allocation.priority);
    lemma_joined(layout, moment, write, after);
    assert forall|key: Seq<u8>, value: Seq<u8>| #[trigger]
        hits(layout, told.store, key, value) && unwritten(told.writes, digest_of(key)) implies agrees(told.contents, key, value, told.store.reported(key)) by {
        let n = moment.writes.len() as int;
        assert(digest_of(told.writes[n].key@) != digest_of(key));
        assert(hits(layout, moment.store, key, value) && unwritten(moment.writes, digest_of(key)));
        assert(agrees(moment.contents, key, value, moment.store.reported(key)));
    }
    assert forall|i: int| #[trigger] last_write(told.writes, i) implies agrees(told.contents, told.writes[i].key@, told.writes[i].value@, told.writes[i].allocation.priority) by {
        let n = moment.writes.len() as int;
        if i == n {
            lemma_same_checksum(write.key@, write.value@, write.value@, write.checksum);
        } else {
            assert(digest_of(told.writes[n].key@) != digest_of(told.writes[i].key@));
            assert(last_write(moment.writes, i));
            assert(agrees(moment.contents, moment.writes[i].key@, moment.writes[i].value@, moment.writes[i].allocation.priority));
        }
    }
}

/// An entry that is moved to other slots, with the value and the priority that are found
/// under its key, leaves the contents as they are.
pub proof fn law_a_moved_entry_is_served<'a>(
    layout: SegmentLayout,
    moment: SegmentMoment<'a>,
    write: SegmentWrite<'a>,
    after: AllocatorModel,
)
    requires
        moment.upheld(layout),
        slots_given(layout, moment.store.pool, after, write.allocation),
        write.fits(layout),
        is_checksum_of(write.checksum, write.key@, write.value@),
        unwritten(moment.writes, digest_of(write.key@)),
        hits(layout, moment.store, write.key@, write.value@),
        write.allocation.priority == moment.store.reported(write.key@),
    ensures
        moment.joined(write, after).upheld(layout),
{
    let joined = moment.joined(write, after);
    lemma_joined(layout, moment, write, after);
    assert forall|key: Seq<u8>, value: Seq<u8>| #[trigger]
        hits(layout, joined.store, key, value) && unwritten(joined.writes, digest_of(key)) implies agrees(joined.contents, key, value, joined.store.reported(key)) by {
        assert(hits(layout, moment.store, key, value) && unwritten(moment.writes, digest_of(key)));
    }
    assert forall|i: int| #[trigger] last_write(joined.writes, i) implies agrees(joined.contents, joined.writes[i].key@, joined.writes[i].value@, joined.writes[i].allocation.priority) by {
        let n = moment.writes.len() as int;
        if i < n {
            assert(digest_of(joined.writes[n].key@) != digest_of(joined.writes[i].key@));
            assert(last_write(moment.writes, i));
            assert(agrees(moment.contents, moment.writes[i].key@, moment.writes[i].value@, moment.writes[i].allocation.priority));
        } else {
            assert(agrees(moment.contents, write.key@, write.value@, write.allocation.priority));
        }
    }
}

/// What a joined write leaves alone.
proof fn lemma_joined<'a>(
    layout: SegmentLayout,
    moment: SegmentMoment<'a>,
    write: SegmentWrite<'a>,
    after: AllocatorModel,
)
    requires
        moment.upheld(layout),
        slots_given(layout, moment.store.pool, after, write.allocation),
        write.fits(layout),
        is_checksum_of(write.checksum, write.key@, write.value@),
    ensures
        gathers(layout, moment.start, after, moment.writes.push(write)),
        forall|key: Seq<u8>, value: Seq<u8>| #[trigger]
            hits(layout, moment.joined(write, after).store, key, value) ==> hits(layout, moment.store, key, value),
        forall|digest: Seq<u8>| #[trigger]
            unwritten(moment.writes.push(write), digest) ==> unwritten(moment.writes, digest),
        forall|i: int|
            i < moment.writes.len() && #[trigger] last_write(moment.writes.push(write), i) ==> last_write(
                moment.writes,
                i,
            ),
{
    let start = moment.start;
    let pool = moment.store.pool;
    let writes = moment.writes.push(write);
    let n = moment.writes.len() as int;
    assert forall|i: int| 0 <= i < start.segments.len() implies {
        let state = #[trigger] start.segments[i];
        &&& state.generation == after.segments[i].generation
        &&& state.used <= after.segments[i].used
    } by {
        assert(pool.segments[i] == pool.segments[i]);
    }
    let e = write.allocation.segment as int;
    assert(start.segments[e] == start.segments[e]);
    assert(pool.segments[e] == pool.segments[e]);
    assert forall|k: int| 0 <= k < writes.len() implies gathered(layout, start, after, #[trigger] writes[k]) by {
        if k < n {
            assert(gathered(layout, start, pool, moment.writes[k]));
            let x = moment.writes[k].allocation.segment as int;
            assert(pool.segments[x] == pool.segments[x]);
        }
    }
    lemma_behind_is_growth(start, after);
    assert forall|key: Seq<u8>, value: Seq<u8>| #[trigger]
        hits(layout, moment.joined(write, after).store, key, value) implies hits(
        layout,
        moment.store,
        key,
        value,
    ) by {
        let location = moment.store.index[digest_of(key)];
        law_dead_locations_stay_dead(layout, start, after, location);
        let place = location_place(layout, location)->0;
        assert(start.segments[place.segment as int] == start.segments[place.segment as int]);
    }
    assert forall|digest: Seq<u8>| #[trigger] unwritten(writes, digest) implies unwritten(moment.writes, digest) by {
        assert forall|j: int| 0 <= j < n implies digest_of((#[trigger] moment.writes[j]).key@) != digest by {
            assert(digest_of(writes[j].key@) != digest);
        }
    }
    assert forall|i: int| i < n && #[trigger] last_write(writes, i) implies last_write(moment.writes, i) by {
        assert forall|j: int| i < j < n implies digest_of((#[trigger] moment.writes[j]).key@) != digest_of(
            moment.writes[i].key@,
        ) by {
            assert(digest_of(writes[j].key@) != digest_of(writes[i].key@));
        }
    }
}

/// A removed key is served no more, and every other key as before.
pub proof fn law_a_removed_key_is_not_served<'a>(layout: SegmentLayout, moment: SegmentMoment<'a>, key: Seq<u8>)
    requires
        moment.upheld(layout),
        moment.at_rest(),
    ensures
        moment.removed(key).upheld(layout),
        forall|value: Seq<u8>| !#[trigger] hits(layout, moment.removed(key).store, key, value),
{
    let after = moment.removed(key);
    assert forall|other: Seq<u8>| #![trigger after.store.index[other]] after.store.index.contains_key(other) implies settled(
        layout,
        moment.start,
        after.store.index[other],
    ) by {
        assert(moment.store.index[other] == after.store.index[other]);
    }
    assert forall|other: Seq<u8>, value: Seq<u8>| #[trigger] hits(layout, after.store, other, value) implies agrees(after.contents, other, value, after.store.reported(other)) by {
        assert(digest_of(other) != digest_of(key));
        assert(hits(layout, moment.store, other, value));
        assert(unwritten(moment.writes, digest_of(other)));
        assert(agrees(moment.contents, other, value, moment.store.reported(other)));
    }
}

/// A pool that grows serves nothing else: a segment that is sealed, released or reclaimed,
/// and the slots of a current segment that are found after a crash.
pub proof fn law_a_grown_pool_serves_no_more<'a>(
    layout: SegmentLayout,
    moment: SegmentMoment<'a>,
    later: AllocatorModel,
)
    requires
        moment.upheld(layout),
        moment.at_rest(),
        moment.store.pool.grows_into(later),
    ensures
        moment.with_pool(later).upheld(layout),
{
    let pool = moment.store.pool;
    law_a_store_at_rest_serves_its_contents(layout, moment);
    let after = moment.with_pool(later);
    assert forall|key: Seq<u8>| #![trigger after.store.index[key]] after.store.index.contains_key(key) implies settled(
        layout,
        later,
        after.store.index[key],
    ) by {
        assert(settled(layout, pool, moment.store.index[key]));
        law_dead_locations_stay_dead(layout, pool, later, moment.store.index[key]);
    }
    assert forall|key: Seq<u8>, value: Seq<u8>| #[trigger] hits(layout, after.store, key, value) implies agrees(after.contents, key, value, after.store.reported(key)) by {
        let location = moment.store.index[digest_of(key)];
        assert(settled(layout, pool, location));
        law_dead_locations_stay_dead(layout, pool, later, location);
        assert(hits(layout, moment.store, key, value));
    }
}

/// A segment that is given back, and holds no pending entry, serves nothing any more.
pub proof fn law_a_reset_segment_serves_no_more<'a>(
    layout: SegmentLayout,
    moment: SegmentMoment<'a>,
    segment: int,
    role: SegmentRole,
)
    requires
        moment.upheld(layout),
        0 <= segment < layout.segment_count,
        moment.store.pool.segments[segment].generation < u32::MAX,
        forall|k: int| 0 <= k < moment.writes.len() ==> (#[trigger] moment.writes[k]).allocation.segment != segment,
    ensures
        moment.reset(segment, role).upheld(layout),
{
    let start = moment.start;
    let pool = moment.store.pool;
    let after = moment.reset(segment, role);
    assert(start.segments[segment] == start.segments[segment]);
    assert forall|i: int| 0 <= i < after.start.segments.len() implies {
        let state = #[trigger] after.start.segments[i];
        &&& state.generation == after.store.pool.segments[i].generation
        &&& state.used <= after.store.pool.segments[i].used
    } by {
        assert(start.segments[i] == start.segments[i]);
    }
    assert forall|k: int| 0 <= k < after.writes.len() implies gathered(
        layout,
        after.start,
        after.store.pool,
        #[trigger] after.writes[k],
    ) by {
        assert(gathered(layout, start, pool, moment.writes[k]));
    }
    assert forall|i: int| 0 <= i < start.segments.len() implies {
        let before = #[trigger] start.segments[i];
        let later = after.start.segments[i];
        ||| before.generation < later.generation
        ||| before.generation == later.generation && before.used <= later.used
    } by {}
    assert forall|key: Seq<u8>| #![trigger after.store.index[key]] after.store.index.contains_key(key) implies settled(
        layout,
        after.start,
        after.store.index[key],
    ) by {
        law_dead_locations_stay_dead(layout, start, after.start, moment.store.index[key]);
    }
    assert forall|key: Seq<u8>, value: Seq<u8>| #[trigger]
        hits(layout, after.store, key, value) && unwritten(after.writes, digest_of(key)) implies agrees(after.contents, key, value, after.store.reported(key)) by {
        let location = moment.store.index[digest_of(key)];
        let place = location_place(layout, location)->0;
        assert(settled(layout, start, location));
        if place.segment == segment {
            assert(location.segment_generation <= start.segments[segment].generation);
        }
        assert(hits(layout, moment.store, key, value));
    }
}

/// Roles, pointers and cursors do not matter to lookups: a sealed segment, a reclaim that
/// begins and a persisted image change nothing that is served.
pub proof fn law_roles_and_pointers_serve_the_same<'a>(
    layout: SegmentLayout,
    moment: SegmentMoment<'a>,
    after: AllocatorModel,
)
    requires
        moment.upheld(layout),
        behind(moment.store.pool, after),
        behind(after, moment.store.pool),
    ensures
        (SegmentMoment { store: SegmentStoreModel { pool: after, ..moment.store }, ..moment }).upheld(layout),
{
    let pool = moment.store.pool;
    let store = SegmentStoreModel { pool: after, ..moment.store };
    assert forall|i: int| 0 <= i < pool.segments.len() implies (#[trigger] pool.segments[i]).generation
        == after.segments[i].generation && pool.segments[i].used == after.segments[i].used by {
        assert(after.segments[i] == after.segments[i]);
    }
    assert forall|i: int| 0 <= i < moment.start.segments.len() implies {
        let state = #[trigger] moment.start.segments[i];
        &&& state.generation == after.segments[i].generation
        &&& state.used <= after.segments[i].used
    } by {
        assert(pool.segments[i] == pool.segments[i]);
    }
    assert forall|k: int| 0 <= k < moment.writes.len() implies gathered(
        layout,
        moment.start,
        after,
        #[trigger] moment.writes[k],
    ) by {
        assert(gathered(layout, moment.start, pool, moment.writes[k]));
        let x = moment.writes[k].allocation.segment as int;
        assert(pool.segments[x].generation == after.segments[x].generation);
    }
    assert forall|key: Seq<u8>, value: Seq<u8>| #[trigger] hits(layout, store, key, value) implies hits(
        layout,
        moment.store,
        key,
        value,
    ) by {
        let place = location_place(layout, store.index[digest_of(key)])->0;
        assert(pool.segments[place.segment as int].generation == after.segments[place.segment as int].generation);
    }
}

/// An allocation gives the next slots of a segment, and no others.
pub proof fn law_an_allocation_gives_slots(
    layout: SegmentLayout,
    before: AllocatorModel,
    after: AllocatorModel,
    priority: CachePriority,
    slots: u32,
    allocation: SegmentAllocation,
)
    requires
        before.consistent(layout),
        before.idle_is_empty(),
        allocates(before, after, layout, priority, slots, Ok(SegmentAllocationResult::Allocated(allocation))),
    ensures
        slots_given(layout, before, after, allocation),
{
    law_allocations_continue_the_used_slots(before, after, layout, priority, slots, allocation);
    let segment = allocation.segment as int;
    let per_segment = layout.slots_per_segment as int;
    assert(segment * per_segment + allocation.slot <= u64::MAX) by (nonlinear_arith)
        requires
            0 <= segment <= u32::MAX,
            0 <= per_segment <= u32::MAX,
            0 <= allocation.slot <= u32::MAX,
    ;
    assert(before.pointer_ok(rank(priority)));
    let current = before.current[rank(priority)];
    if current is Some && before.segments[current->0 as int].used + slots <= layout.slots_per_segment {
    } else {
        let sealed = before.current_sealed(priority);
        let free = choose|free: u32| #[trigger] sealed.first_free(free as int) && takes(
            sealed.activated(priority, free),
            after,
            layout,
            free,
            slots,
            priority,
            Ok(SegmentAllocationResult::Allocated(allocation)),
        );
        assert(sealed.segments[free as int].role == SegmentRole::Free);
        assert(before.segments[free as int].role == SegmentRole::Free);
        assert(before.segments[free as int].used == 0);
    }
}

/// Some run covers byte `b` of the file.
pub open spec fn in_runs(runs: Seq<SegmentWriteRun>, slot_size: int, b: int) -> bool {
    exists|r: int|
        0 <= r < runs.len() && (#[trigger] runs[r]).first_slot * slot_size <= b < (runs[r].first_slot
            + runs[r].slots) * slot_size
}

/// The file outside the runs is as before. Within them it may be anything.
pub open spec fn file_kept(slot_size: int, before: Seq<u8>, runs: Seq<SegmentWriteRun>, after: Seq<u8>) -> bool {
    &&& after.len() == before.len()
    &&& forall|b: int| 0 <= b < before.len() && !in_runs(runs, slot_size, b) ==> #[trigger] after[b] == before[b]
}

/// The file once the images of the runs were written at their slots.
pub open spec fn file_written(
    layout: SegmentLayout,
    before: Seq<u8>,
    runs: Seq<SegmentWriteRun>,
    writes: Seq<SegmentWrite>,
    images: Seq<Seq<u8>>,
    after: Seq<u8>,
) -> bool {
    &&& images.len() == runs.len()
    &&& forall|r: int|
        0 <= r < runs.len() ==> run_image(#[trigger] runs[r], writes, layout.slot_size as nat, images[r]) && holds_at(
            after,
            runs[r].first_slot * layout.slot_size,
            images[r],
        )
    &&& file_kept(layout.slot_size as int, before, runs, after)
}

/// Every slot of a run belongs to one of its pieces.
proof fn lemma_piece_of_slot(run: SegmentWriteRun, writes: Seq<SegmentWrite>, maximum: nat, slot: int, p: int) -> (q:
    int)
    requires
        run_ok(run, writes, maximum),
        0 <= p < run.pieces@.len(),
        0 <= slot < run.pieces@[p].run_slot + run.pieces@[p].slots,
    ensures
        0 <= q <= p,
        run.pieces@[q].run_slot <= slot < run.pieces@[q].run_slot + run.pieces@[q].slots,
    decreases p,
{
    if run.pieces@[p].run_slot <= slot {
        p
    } else {
        assert(p > 0);
        let before = p - 1;
        assert(run.pieces@[p].run_slot == run.pieces@[before].run_slot + run.pieces@[before].slots);
        lemma_piece_of_slot(run, writes, maximum, slot, before)
    }
}

/// The slot that holds a byte between two slot boundaries is between them.
proof fn lemma_slot_of_byte(b: int, slot_size: int, first: int, end: int) -> (slot: int)
    requires
        slot_size > 0,
        first * slot_size <= b < end * slot_size,
    ensures
        slot == b / slot_size,
        first <= slot < end,
{
    let slot = b / slot_size;
    vstd::arithmetic::div_mod::lemma_fundamental_div_mod(b, slot_size);
    assert(first <= slot < end) by (nonlinear_arith)
        requires
            slot_size > 0,
            first * slot_size <= b < end * slot_size,
            b == slot_size * slot + b % slot_size,
            0 <= b % slot_size < slot_size,
    ;
    slot
}

/// The bytes of a length take no more slots than its quotient rounded up.
proof fn lemma_slots_hold(len: nat, slot_size: nat)
    requires
        slot_size > 0,
    ensures
        len <= ceil_div(len, slot_size) * slot_size,
{
    vstd::arithmetic::div_mod::lemma_fundamental_div_mod(len as int, slot_size as int);
    let q = len as int / slot_size as int;
    let r = len as int % slot_size as int;
    assert((q + 1) * slot_size == q * slot_size + slot_size) by (nonlinear_arith);
    assert(slot_size * q == q * slot_size) by (nonlinear_arith);
}

/// A live location lies within the file, slot for slot.
proof fn lemma_live_place(layout: SegmentLayout, pool: AllocatorModel, location: SegmentLocation, file: Seq<u8>)
    requires
        layout.wf(),
        location_is_live(pool, layout, location),
        file.len() >= layout.segment_count * layout.slots_per_segment * layout.slot_size,
    ensures
        ({
            let place = location_place(layout, location)->0;
            let first = location.physical_slot as int;
            &&& first == place.segment * layout.slots_per_segment + place.slot
            &&& first * layout.slot_size >= 0
            &&& first * layout.slot_size + location.stored_len <= (first + place.slots) * layout.slot_size
            &&& (first + place.slots) * layout.slot_size <= file.len()
        }),
{
    let place = location_place(layout, location)->0;
    let first = location.physical_slot as int;
    let per_segment = layout.slots_per_segment as int;
    let size = layout.slot_size as int;
    let count = layout.segment_count as int;
    vstd::arithmetic::div_mod::lemma_fundamental_div_mod(first, per_segment);
    assert(per_segment * place.segment == place.segment * per_segment) by (nonlinear_arith);
    lemma_slots_hold(location.stored_len as nat, layout.slot_size as nat);
    assert((first + place.slots) * size == first * size + place.slots * size) by (nonlinear_arith);
    assert(first * size >= 0) by (nonlinear_arith)
        requires
            first >= 0,
            size >= 0,
    ;
    assert(first + place.slots <= count * per_segment) by (nonlinear_arith)
        requires
            first == place.segment * per_segment + place.slot,
            place.slot + place.slots <= per_segment,
            place.segment + 1 <= count,
            per_segment > 0,
    ;
    assert((first + place.slots) * size <= count * per_segment * size) by (nonlinear_arith)
        requires
            first + place.slots <= count * per_segment,
            size >= 0,
    ;
}

/// A batch touches no byte of an entry that was live before it.
proof fn lemma_entry_untouched<'a>(
    layout: SegmentLayout,
    moment: SegmentMoment<'a>,
    runs: Seq<SegmentWriteRun>,
    maximum: nat,
    file: Seq<u8>,
    pool: AllocatorModel,
    location: SegmentLocation,
)
    requires
        moment.upheld(layout),
        runs_cover(runs, moment.writes, maximum),
        file_kept(layout.slot_size as int, moment.store.file, runs, file),
        behind(pool, moment.start),
        location_is_live(pool, layout, location),
    ensures
        location.physical_slot * layout.slot_size + location.stored_len <= file.len(),
        bytes_at(layout, file, location) == bytes_at(layout, moment.store.file, location),
{
    let writes = moment.writes;
    let start = moment.start;
    let size = layout.slot_size as int;
    let per_segment = layout.slots_per_segment as int;
    let place = location_place(layout, location)->0;
    let first = location.physical_slot as int;
    lemma_live_place(layout, pool, location, file);
    assert(pool.segments[place.segment as int] == pool.segments[place.segment as int]);
    assert forall|b: int| first * size <= b < first * size + location.stored_len implies #[trigger] file[b]
        == moment.store.file[b] by {
        if in_runs(runs, size, b) {
            let r = choose|r: int|
                0 <= r < runs.len() && (#[trigger] runs[r]).first_slot * size <= b < (runs[r].first_slot
                    + runs[r].slots) * size;
            let run = runs[r];
            assert(run_ok(runs[r], writes, maximum));
            let slot = lemma_slot_of_byte(b, size, first, first + place.slots);
            lemma_slot_of_byte(b, size, run.first_slot as int, run.first_slot + run.slots);
            let last = run.pieces@.len() - 1;
            assert(run.pieces@[last] == run.pieces@.last());
            let p = lemma_piece_of_slot(run, writes, maximum, slot - run.first_slot, last);
            let piece = run.pieces@[p];
            assert(piece_ok(run, run.pieces@[p], writes));
            let write = writes[piece.index as int];
            assert(gathered(layout, start, moment.store.pool, writes[piece.index as int]));
            let other = write.allocation.segment as int;
            assert(write.first() <= slot < write.end());
            assert(write.first() == other * per_segment + write.allocation.slot);
            if other == place.segment {
                assert(write.allocation.slot >= start.segments[other].used);
            } else {
                assert(false) by (nonlinear_arith)
                    requires
                        other != place.segment,
                        per_segment > 0,
                        other * per_segment + write.allocation.slot <= slot,
                        slot < other * per_segment + write.allocation.slot + write.allocation.slots,
                        write.allocation.slot >= 0,
                        write.allocation.slot + write.allocation.slots <= per_segment,
                        place.segment * per_segment + place.slot <= slot,
                        slot < place.segment * per_segment + place.slot + place.slots,
                        place.slot >= 0,
                        place.slot + place.slots <= per_segment,
                ;
            }
        }
    }
    assert(bytes_at(layout, file, location) =~= bytes_at(layout, moment.store.file, location));
}

/// The slots for an entry that is moved into the target of a reclaim are the next ones of
/// that segment.
pub proof fn law_a_reclaim_target_gives_slots(
    layout: SegmentLayout,
    before: AllocatorModel,
    target: u32,
    slots: u32,
    priority: CachePriority,
)
    requires
        before.segments.len() == layout.segment_count,
        target < layout.segment_count,
        before.segments[target as int].used + slots <= layout.slots_per_segment,
    ensures
        slots_given(
            layout,
            before,
            before.slots_taken(target as int, slots).sequence_advanced(),
            allocation_at(before, layout, target, slots, priority),
        ),
{
    let slot = before.segments[target as int].used;
    assert(target * layout.slots_per_segment + slot <= u64::MAX) by (nonlinear_arith)
        requires
            target <= u32::MAX,
            layout.slots_per_segment <= u32::MAX,
            slot <= u32::MAX,
    ;
}

/// What the index holds of a digest that no write is for.
proof fn lemma_index_unwritten(
    index: Map<Seq<u8>, SegmentLocation>,
    writes: Seq<SegmentWrite>,
    n: nat,
    digest: Seq<u8>,
)
    requires
        n <= writes.len(),
        unwritten(writes, digest),
    ensures
        index_after(index, writes, n).contains_key(digest) == index.contains_key(digest),
        index_after(index, writes, n)[digest] == index[digest],
    decreases n,
{
    if n > 0 {
        lemma_index_unwritten(index, writes, (n - 1) as nat, digest);
        assert(digest_of(writes[n - 1].key@) != digest);
    }
}

/// What the index holds of the last write for a digest.
proof fn lemma_index_written(index: Map<Seq<u8>, SegmentLocation>, writes: Seq<SegmentWrite>, n: nat, i: int)
    requires
        i < n <= writes.len(),
        last_write(writes, i),
    ensures
        index_after(index, writes, n).contains_key(digest_of(writes[i].key@)),
        index_after(index, writes, n)[digest_of(writes[i].key@)] == writes[i].location(),
    decreases n,
{
    if i < n - 1 {
        lemma_index_written(index, writes, (n - 1) as nat, i);
        assert(digest_of(writes[n - 1].key@) != digest_of(writes[i].key@));
    }
}

proof fn lemma_last_write(writes: Seq<SegmentWrite>, digest: Seq<u8>, n: int) -> (i: int)
    requires
        0 <= n <= writes.len(),
        exists|j: int| 0 <= j < n && digest_of((#[trigger] writes[j]).key@) == digest,
        forall|j: int| n <= j < writes.len() ==> digest_of((#[trigger] writes[j]).key@) != digest,
    ensures
        last_write(writes, i),
        digest_of(writes[i].key@) == digest,
    decreases n,
{
    if digest_of(writes[n - 1].key@) == digest {
        n - 1
    } else {
        lemma_last_write(writes, digest, n - 1)
    }
}

/// The place of a write is that of its location.
proof fn lemma_write_place(layout: SegmentLayout, start: AllocatorModel, pool: AllocatorModel, write: SegmentWrite)
    requires
        layout.wf(),
        gathered(layout, start, pool, write),
    ensures
        location_place(layout, write.location()) matches Some(place) && place.segment == write.allocation.segment
            && place.slot == write.allocation.slot && place.slots == write.allocation.slots,
        location_is_live(pool, layout, write.location()),
{
    let allocation = write.allocation;
    let len = write.size()->0;
    assert(allocation.slots > 0) by {
        lemma_slots_hold(len, layout.slot_size as nat);
        assert(ceil_div(len, layout.slot_size as nat) * layout.slot_size >= 16);
        if allocation.slots == 0 {
            assert(0 * layout.slot_size == 0) by (nonlinear_arith);
        }
    }
    law_slot_numbers_round_trip(
        layout.slots_per_segment as nat,
        allocation.segment as nat,
        allocation.slot as nat,
        allocation.physical_slot as nat,
    );
}

/// Once the runs of a batch are in the file and its locations in the index, the batch is
/// served: the last value of each of its keys, and every other key as before. The last
/// value of each of its keys is found.
pub proof fn law_a_published_batch_is_served<'a>(
    layout: SegmentLayout,
    moment: SegmentMoment<'a>,
    runs: Seq<SegmentWriteRun>,
    maximum: nat,
    images: Seq<Seq<u8>>,
    file: Seq<u8>,
)
    requires
        moment.upheld(layout),
        runs_cover(runs, moment.writes, maximum),
        file_written(layout, moment.store.file, runs, moment.writes, images, file),
    ensures
        moment.published(file).upheld(layout),
        moment.published(file).at_rest(),
        forall|i: int| #[trigger]
            last_write(moment.writes, i) ==> hits(
                layout,
                moment.published(file).store,
                moment.writes[i].key@,
                moment.writes[i].value@,
            ),
        forall|key: Seq<u8>, value: Seq<u8>| #[trigger]
            hits(layout, moment.store, key, value) && unwritten(moment.writes, digest_of(key)) ==> hits(
                layout,
                moment.published(file).store,
                key,
                value,
            ),
{
    let start = moment.start;
    let pool = moment.store.pool;
    let writes = moment.writes;
    let n = writes.len();
    let after = moment.published(file);
    let index = after.store.index;
    lemma_behind_is_growth(start, pool);
    assert forall|i: int| 0 <= i < start.segments.len() implies {
        let state = #[trigger] start.segments[i];
        &&& state.generation == start.segments[i].generation
        &&& state.used <= start.segments[i].used
    } by {}
    assert forall|key: Seq<u8>, value: Seq<u8>| #[trigger] hits(layout, after.store, key, value) implies agrees(after.contents, key, value, after.store.reported(key)) by {
        let digest = digest_of(key);
        if unwritten(writes, digest) {
            lemma_published_elsewhere(layout, moment, runs, maximum, images, file, key, value);
            lemma_index_unwritten(moment.store.index, writes, n, digest);
        } else {
            let i = lemma_last_write(writes, digest, n as int);
            lemma_index_written(moment.store.index, writes, n, i);
            lemma_write_found(layout, moment, runs, maximum, images, file, i);
            let write = writes[i];
            let bytes = bytes_at(layout, file, write.location());
            law_stored_entry_is_unambiguous(bytes, write.key@, write.value@, key, value);
            assert(agrees(moment.contents, writes[i].key@, writes[i].value@, writes[i].allocation.priority));
        }
    }
    assert forall|i: int| #[trigger] last_write(writes, i) implies hits(
        layout,
        after.store,
        writes[i].key@,
        writes[i].value@,
    ) by {
        lemma_index_written(moment.store.index, writes, n, i);
        lemma_write_found(layout, moment, runs, maximum, images, file, i);
        assert(gathered(layout, start, pool, writes[i]));
        lemma_write_place(layout, start, pool, writes[i]);
    }
    assert forall|key: Seq<u8>, value: Seq<u8>| #[trigger]
        hits(layout, moment.store, key, value) && unwritten(writes, digest_of(key)) implies hits(
        layout,
        after.store,
        key,
        value,
    ) by {
        lemma_published_elsewhere(layout, moment, runs, maximum, images, file, key, value);
    }
    assert forall|key: Seq<u8>| #![trigger index[key]] index.contains_key(key) implies settled(
        layout,
        pool,
        index[key],
    ) by {
        if unwritten(writes, key) {
            lemma_index_unwritten(moment.store.index, writes, n, key);
            assert(settled(layout, start, moment.store.index[key]));
            law_dead_locations_stay_dead(layout, start, pool, moment.store.index[key]);
        } else {
            let i = lemma_last_write(writes, key, n as int);
            lemma_index_written(moment.store.index, writes, n, i);
            assert(gathered(layout, start, pool, writes[i]));
            lemma_write_place(layout, start, pool, writes[i]);
        }
    }
}

/// Publishing a batch leaves alone what is found under every other key.
proof fn lemma_published_elsewhere<'a>(
    layout: SegmentLayout,
    moment: SegmentMoment<'a>,
    runs: Seq<SegmentWriteRun>,
    maximum: nat,
    images: Seq<Seq<u8>>,
    file: Seq<u8>,
    key: Seq<u8>,
    value: Seq<u8>,
)
    requires
        moment.upheld(layout),
        runs_cover(runs, moment.writes, maximum),
        file_written(layout, moment.store.file, runs, moment.writes, images, file),
        unwritten(moment.writes, digest_of(key)),
    ensures
        hits(layout, moment.published(file).store, key, value) == hits(layout, moment.store, key, value),
{
    let start = moment.start;
    let pool = moment.store.pool;
    let digest = digest_of(key);
    lemma_index_unwritten(moment.store.index, moment.writes, moment.writes.len(), digest);
    if moment.store.index.contains_key(digest) {
        let location = moment.store.index[digest];
        assert(settled(layout, start, location));
        lemma_behind_is_growth(start, pool);
        law_dead_locations_stay_dead(layout, start, pool, location);
        if location_is_live(pool, layout, location) {
            lemma_entry_untouched(layout, moment, runs, maximum, file, start, location);
        }
    }
}

/// The file holds each entry of a batch at its location.
proof fn lemma_write_found<'a>(
    layout: SegmentLayout,
    moment: SegmentMoment<'a>,
    runs: Seq<SegmentWriteRun>,
    maximum: nat,
    images: Seq<Seq<u8>>,
    file: Seq<u8>,
    i: int,
)
    requires
        moment.upheld(layout),
        runs_cover(runs, moment.writes, maximum),
        file_written(layout, moment.store.file, runs, moment.writes, images, file),
        0 <= i < moment.writes.len(),
    ensures
        found_at(layout, file, moment.writes[i].location(), moment.writes[i].key@, moment.writes[i].value@),
{
    let write = moment.writes[i];
    assert(gathered(layout, moment.start, moment.store.pool, moment.writes[i]));
    let stored = lemma_stored_entry_exists(write.key@, write.value@);
    law_batch_places_every_entry(moment.writes, layout, maximum, runs, images, file, i, stored);
    assert(bytes_at(layout, file, write.location()) =~= stored);
}

/// The runs of a batch that break off midway change nothing that is served or found.
pub proof fn law_broken_off_writes_serve_the_same<'a>(
    layout: SegmentLayout,
    moment: SegmentMoment<'a>,
    runs: Seq<SegmentWriteRun>,
    maximum: nat,
    file: Seq<u8>,
)
    requires
        moment.upheld(layout),
        runs_cover(runs, moment.writes, maximum),
        file_kept(layout.slot_size as int, moment.store.file, runs, file),
    ensures
        moment.with_file(file).upheld(layout),
        forall|key: Seq<u8>, value: Seq<u8>|
            hits(layout, moment.with_file(file).store, key, value) == #[trigger] hits(layout, moment.store, key, value),
{
    let start = moment.start;
    let pool = moment.store.pool;
    let store = moment.with_file(file).store;
    lemma_behind_is_growth(start, pool);
    assert forall|key: Seq<u8>, value: Seq<u8>|
        #![trigger hits(layout, store, key, value)]
        #![trigger hits(layout, moment.store, key, value)]
        hits(layout, store, key, value) == hits(layout, moment.store, key, value) by {
        if store.index.contains_key(digest_of(key)) {
            let location = store.index[digest_of(key)];
            assert(settled(layout, start, location));
            law_dead_locations_stay_dead(layout, start, pool, location);
            if location_is_live(pool, layout, location) {
                lemma_entry_untouched(layout, moment, runs, maximum, file, start, location);
            }
        }
    }
}

/// A store that was just created serves nothing.
pub proof fn law_a_new_store_serves_nothing(layout: SegmentLayout, store: SegmentStoreModel)
    requires
        layout.wf(),
        store.index == Map::<Seq<u8>, SegmentLocation>::empty(),
        store.pool.segments.len() == layout.segment_count,
        store.file.len() >= layout.segment_count * layout.slots_per_segment * layout.slot_size,
    ensures
        fresh(store).upheld(layout),
        fresh(store).at_rest(),
{
    let moment: SegmentMoment<'static> = fresh(store);
    assert forall|key: Seq<u8>, value: Seq<u8>| !#[trigger] hits(layout, store, key, value) by {}
}

/// What a lookup returns is the value that was last inserted under the key, as far as its
/// length and the checksum of its entry tell; never a removed one or that of another key.
/// `read` is what a finished read of the location hands out, and `result` what is decoded
/// from that.
pub proof fn law_a_hit_is_the_value_last_inserted(
    layout: SegmentLayout,
    store: SegmentStoreModel,
    contents: Map<Seq<u8>, Content>,
    key: Seq<u8>,
    plan: SegmentReadPlan,
    run_slots: nat,
    direct: bool,
    read: SegmentBlobReadResult,
    result: SegmentBlobReadResult,
    got: GetResult,
)
    requires
        serves(layout, store, contents),
        layout.wf(),
        store.file.len() >= layout.segment_count * layout.slots_per_segment * layout.slot_size,
        store.index.contains_key(digest_of(key)),
        location_is_live(store.pool, layout, store.index[digest_of(key)]),
        reads_range(
            plan.runs@,
            (store.index[digest_of(key)].physical_slot * layout.slot_size) as nat,
            store.index[digest_of(key)].stored_len as nat,
            layout.slot_size as nat,
            run_slots,
            direct,
        ),
        read_finishes(
            store.pool,
            store.index[digest_of(key)],
            plan,
            bytes_found(store.file, plan.runs@, plan.runs@.len() as int),
            read,
        ),
        entry_decodes(key, read, result),
        hands_out(store.index[digest_of(key)], result, got),
    ensures
        got.value matches Some(value) ==> got.priority is Some && agrees(contents, key, value@, got.priority->0),
        got.value is None ==> got.priority is None,
{
    if result.value is Some {
        let location = store.index[digest_of(key)];
        lemma_live_place(layout, store.pool, location, store.file);
        let start = location.physical_slot * layout.slot_size;
        lemma_bytes_found(store.file, plan.runs@, start as nat, plan.runs@.len() as int);
        assert(read.value->0@ == bytes_at(layout, store.file, location));
        assert(hits(layout, store, key, result.value->0@));
    }
}

/// One step of the segment store.
pub enum SegmentStep<'a> {
    /// An insert finds its contents at the location of its key.
    Held { insert: BlobInsert<'a>, checksum: u32 },
    /// An insert finds its contents in a pending entry.
    HeldPending { insert: BlobInsert<'a>, checksum: u32, entry: int },
    /// An insert gets slots.
    Allocated { write: SegmentWrite<'a>, pool: AllocatorModel },
    /// An entry that is moved gets slots.
    Moved { write: SegmentWrite<'a>, pool: AllocatorModel },
    /// Roles, pointers or the cursor of the state file change.
    Pointed { pool: AllocatorModel },
    /// The pending entries are written and go into the index.
    Published { runs: Seq<SegmentWriteRun>, maximum: nat, images: Seq<Seq<u8>>, file: Seq<u8> },
    /// The writes of the pending entries break off.
    Torn { runs: Seq<SegmentWriteRun>, maximum: nat, file: Seq<u8> },
    /// A key is removed.
    Removed { key: Seq<u8> },
    /// A segment is given back.
    Reset { segment: int, role: SegmentRole },
    /// The store is opened again, or found to have used more than it knew.
    Grown { pool: AllocatorModel },
}

/// The step can follow.
pub open spec fn can_follow<'a>(layout: SegmentLayout, moment: SegmentMoment<'a>, step: SegmentStep<'a>) -> bool {
    let store = moment.store;
    match step {
        SegmentStep::Held { insert, checksum } => {
            &&& unwritten(moment.writes, digest_of(insert.key@))
            &&& store.index.contains_key(digest_of(insert.key@))
            &&& is_checksum_of(checksum, insert.key@, insert.value@)
            &&& holds_already(store.index[digest_of(insert.key@)], insert, checksum)
        },
        SegmentStep::HeldPending { insert, checksum, entry } => {
            &&& last_write(moment.writes, entry)
            &&& digest_of(moment.writes[entry].key@) == digest_of(insert.key@)
            &&& is_checksum_of(checksum, insert.key@, insert.value@)
            &&& holds_already(moment.writes[entry].location(), insert, checksum)
        },
        SegmentStep::Allocated { write, pool } => {
            &&& slots_given(layout, store.pool, pool, write.allocation)
            &&& write.fits(layout)
            &&& is_checksum_of(write.checksum, write.key@, write.value@)
        },
        SegmentStep::Moved { write, pool } => {
            &&& slots_given(layout, store.pool, pool, write.allocation)
            &&& write.fits(layout)
            &&& is_checksum_of(write.checksum, write.key@, write.value@)
            &&& unwritten(moment.writes, digest_of(write.key@))
            &&& hits(layout, store, write.key@, write.value@)
            &&& write.allocation.priority == store.reported(write.key@)
        },
        SegmentStep::Pointed { pool } => behind(store.pool, pool) && behind(pool, store.pool),
        SegmentStep::Published { runs, maximum, images, file } => {
            &&& runs_cover(runs, moment.writes, maximum)
            &&& file_written(layout, store.file, runs, moment.writes, images, file)
        },
        SegmentStep::Torn { runs, maximum, file } => {
            &&& runs_cover(runs, moment.writes, maximum)
            &&& file_kept(layout.slot_size as int, store.file, runs, file)
        },
        SegmentStep::Removed { key } => moment.at_rest(),
        SegmentStep::Reset { segment, role } => {
            &&& 0 <= segment < layout.segment_count
            &&& store.pool.segments[segment].generation < u32::MAX
            &&& forall|k: int|
                0 <= k < moment.writes.len() ==> (#[trigger] moment.writes[k]).allocation.segment != segment
        },
        SegmentStep::Grown { pool } => moment.at_rest() && store.pool.grows_into(pool),
    }
}

/// The store after the step.
pub open spec fn followed<'a>(moment: SegmentMoment<'a>, step: SegmentStep<'a>) -> SegmentMoment<'a> {
    match step {
        SegmentStep::Held { insert, checksum } => moment.told(insert.key@, insert.value@, insert.priority),
        SegmentStep::HeldPending { insert, checksum, entry } => moment.told(insert.key@, insert.value@, insert.priority),
        SegmentStep::Allocated { write, pool } => moment.joined(write, pool).told(write.key@, write.value@, write.allocation.priority),
        SegmentStep::Moved { write, pool } => moment.joined(write, pool),
        SegmentStep::Pointed { pool } => SegmentMoment {
            store: SegmentStoreModel { pool, ..moment.store },
            ..moment
        },
        SegmentStep::Published { runs, maximum, images, file } => moment.published(file),
        SegmentStep::Torn { runs, maximum, file } => moment.with_file(file),
        SegmentStep::Removed { key } => moment.removed(key),
        SegmentStep::Reset { segment, role } => moment.reset(segment, role),
        SegmentStep::Grown { pool } => moment.with_pool(pool),
    }
}

/// Every step keeps what is served.
pub proof fn law_a_step_keeps_what_is_served<'a>(
    layout: SegmentLayout,
    moment: SegmentMoment<'a>,
    step: SegmentStep<'a>,
)
    requires
        moment.upheld(layout),
        can_follow(layout, moment, step),
    ensures
        followed(moment, step).upheld(layout),
{
    match step {
        SegmentStep::Held { insert, checksum } => {
            law_an_insert_held_by_a_location_is_served(layout, moment, insert, checksum);
        },
        SegmentStep::HeldPending { insert, checksum, entry } => {
            law_an_insert_held_by_a_write_is_served(layout, moment, insert, checksum, entry);
        },
        SegmentStep::Allocated { write, pool } => {
            law_an_allocated_insert_is_served(layout, moment, write, pool);
        },
        SegmentStep::Moved { write, pool } => {
            law_a_moved_entry_is_served(layout, moment, write, pool);
        },
        SegmentStep::Pointed { pool } => {
            law_roles_and_pointers_serve_the_same(layout, moment, pool);
        },
        SegmentStep::Published { runs, maximum, images, file } => {
            law_a_published_batch_is_served(layout, moment, runs, maximum, images, file);
        },
        SegmentStep::Torn { runs, maximum, file } => {
            law_broken_off_writes_serve_the_same(layout, moment, runs, maximum, file);
        },
        SegmentStep::Removed { key } => {
            law_a_removed_key_is_not_served(layout, moment, key);
        },
        SegmentStep::Reset { segment, role } => {
            law_a_reset_segment_serves_no_more(layout, moment, segment, role);
        },
        SegmentStep::Grown { pool } => {
            law_a_grown_pool_serves_no_more(layout, moment, pool);
        },
    }
}

/// The store after the steps.
pub open spec fn after<'a>(first: SegmentMoment<'a>, history: Seq<SegmentStep<'a>>) -> SegmentMoment<'a>
    decreases history.len(),
{
    if history.len() == 0 {
        first
    } else {
        followed(after(first, history.drop_last()), history.last())
    }
}

/// Each of the steps can follow those before it.
pub open spec fn possible<'a>(
    layout: SegmentLayout,
    first: SegmentMoment<'a>,
    history: Seq<SegmentStep<'a>>,
) -> bool
    decreases history.len(),
{
    history.len() == 0 || {
        &&& possible(layout, first, history.drop_last())
        &&& can_follow(layout, after(first, history.drop_last()), history.last())
    }
}

/// After any history of inserts, removals, moves, broken-off writes and segments given
/// back, a lookup gives back the value that was last inserted under its key, or nothing.
pub proof fn law_every_history_is_served<'a>(
    layout: SegmentLayout,
    first: SegmentMoment<'a>,
    history: Seq<SegmentStep<'a>>,
)
    requires
        first.upheld(layout),
        possible(layout, first, history),
    ensures
        after(first, history).upheld(layout),
        after(first, history).at_rest() ==> serves(
            layout,
            after(first, history).store,
            after(first, history).contents,
        ),
    decreases history.len(),
{
    let last = after(first, history);
    if history.len() > 0 {
        let earlier = history.drop_last();
        law_every_history_is_served(layout, first, earlier);
        law_a_step_keeps_what_is_served(layout, after(first, earlier), history.last());
    }
    if last.at_rest() {
        law_a_store_at_rest_serves_its_contents(layout, last);
    }
}

} // verus!
