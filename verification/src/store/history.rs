//! What a lookup gives back after any history of the store.
//!
//! The laws here tie the index, its durable base, the extent pool and the data file
//! together. A model of the store serves a map of contents where every hit is the value
//! that the map holds for its key, as far as the length and the digest of a value tell
//! values apart. One law for each step of the store says how the map moves with it, and a
//! law over histories puts the steps together.

use vstd::prelude::*;

use crate::error::Error;
use crate::format::{
    content_digest, is_stored_entry, law_stored_entry_is_unambiguous, lemma_stored_entry_exists, stored_value,
};
use crate::model::{digest_of, rank, CachePriority, KeyDigest, MAX_KEY_SIZE};
use crate::store::batch::{
    aligned_up, begins_after, frames_sealed, holds_at, law_a_batch_leaves_earlier_entries_alone,
    law_batch_places_every_entry, law_sealing_closes_the_pages, pages_closed, run_image, run_ok, runs_cover, touched,
    DataWriteRun, EntryWrite,
};
use crate::store::engine::holds_already;
use crate::store::index::{
    base_after, honest, law_aborting_a_checkpoint_keeps_every_lookup, law_insert_is_visible,
    law_persisting_a_checkpoint_keeps_every_live_lookup, law_preparing_a_checkpoint_keeps_every_lookup,
    law_removed_key_is_not_visible, persisted, EntryIndexMemoryLookup, IndexModel,
};
use crate::store::operation::{EntryInsert, GetResult};
use crate::store::overlay::Mutation;
use crate::store::pool::{
    allocates, good_copy, has_room, law_allocations_continue_the_used_bytes, law_data_offsets_round_trip,
    law_the_last_complete_checkpoint_is_reopened, lemma_growth_is_transitive, reopens, takes, AllocationResult,
    EntryAllocation, ExtentPool, ExtentPoolCheckpoint, PackedLocation, PackedModel, PackedState, PoolLayout,
};
use crate::store::read::{
    bytes_found, entry_decodes, hands_out, in_range, is_live, lemma_bytes_found, read_finishes, reads_range, EntryReadPlan,
    StoredEntryRead,
};

verus! {

/// The index, the durable base below it, the extent pool and the data file.
pub struct StoreModel {
    pub index: IndexModel,
    pub base: Map<Seq<u8>, PackedLocation>,
    pub pool: PackedModel,
    pub file: Seq<u8>,
}

/// The file holds the stored entry of `key` and `value` at the location, with its length
/// and its digest.
pub open spec fn found_at(file: Seq<u8>, location: PackedLocation, key: Seq<u8>, value: Seq<u8>) -> bool {
    let end = location.data_offset + location.stored_len;
    &&& end <= file.len()
    &&& is_stored_entry(file.subrange(location.data_offset as int, end), key, value)
    &&& content_digest(value) == location.content_digest
}

/// A lookup of `key` can give `value` back: the location that is visible for the key is
/// live, and the file holds the entry there.
pub open spec fn hits(layout: PoolLayout, store: StoreModel, key: Seq<u8>, value: Seq<u8>) -> bool {
    store.index.visible(store.base, digest_of(key)) matches Some(location) && is_live(store.pool, layout, location)
        && found_at(store.file, location, key, value)
}

/// What was last inserted under a key.
pub struct Content {
    pub value: Seq<u8>,
    pub priority: CachePriority,
}

impl StoreModel {
    /// The priority that a hit of the key reports.
    pub open spec fn reported(self, key: Seq<u8>) -> CachePriority {
        self.index.visible(self.base, digest_of(key))->0.priority
    }
}

/// `contents` holds a value for the key that has the length and the digest of `value`, and
/// has it with this priority.
pub open spec fn agrees(
    contents: Map<Seq<u8>, Content>,
    key: Seq<u8>,
    value: Seq<u8>,
    priority: CachePriority,
) -> bool {
    &&& contents.contains_key(key)
    &&& contents[key].value.len() == value.len()
    &&& content_digest(contents[key].value) == content_digest(value)
    &&& contents[key].priority == priority
}

/// Every hit is what `contents` holds for its key, with the priority that it holds for it. A
/// key may miss.
pub open spec fn serves(layout: PoolLayout, store: StoreModel, contents: Map<Seq<u8>, Content>) -> bool {
    forall|key: Seq<u8>, value: Seq<u8>| #[trigger]
        hits(layout, store, key, value) ==> agrees(contents, key, value, store.reported(key))
}

/// The location is of an earlier generation of its extent, or it ends within the used
/// bytes of this one.
pub open spec fn settled(layout: PoolLayout, model: PackedModel, location: PackedLocation) -> bool {
    forall|extent: nat, offset: nat| #[trigger]
        in_range(layout, location, extent, offset) ==> {
            let state = model.extents[extent as int];
            ||| location.extent_generation < state.generation
            ||| location.extent_generation == state.generation && offset + location.stored_len <= state.used_bytes
        }
}

/// Every location among the mutations is settled.
pub open spec fn mutations_settled(
    layout: PoolLayout,
    model: PackedModel,
    mutations: Map<Seq<u8>, Mutation>,
) -> bool {
    forall|key: Seq<u8>|
        #![trigger mutations[key]]
        mutations.contains_key(key) ==> (mutations[key].location matches Some(location) ==> settled(
            layout,
            model,
            location,
        ))
}

/// Every location of a base is settled.
pub open spec fn base_settled(layout: PoolLayout, model: PackedModel, base: Map<Seq<u8>, PackedLocation>) -> bool {
    forall|key: Seq<u8>| #![trigger base[key]] base.contains_key(key) ==> settled(layout, model, base[key])
}

/// Every location that the index or its base holds is settled.
pub open spec fn all_settled(layout: PoolLayout, model: PackedModel, store: StoreModel) -> bool {
    &&& mutations_settled(layout, model, store.index.active)
    &&& store.index.frozen matches Some(frozen) ==> mutations_settled(layout, model, frozen)
    &&& base_settled(layout, model, store.base)
}

/// The state of a pool between two batches: every extent has its used bytes within its
/// size, and ends them with a page.
pub open spec fn rested(layout: PoolLayout, model: PackedModel) -> bool {
    &&& layout.wf()
    &&& model.extents.len() == layout.extent_count
    &&& pages_closed(model)
    &&& forall|i: int| 0 <= i < model.extents.len() ==> (#[trigger] model.extents[i]).used_bytes <= layout.extent_size
}

/// A write of a batch that began at `start` has bytes of its own: beyond those that were
/// used then, and within those that are used now.
pub open spec fn gathered(layout: PoolLayout, start: PackedModel, pool: PackedModel, write: EntryWrite) -> bool {
    let allocation = write.allocation;
    &&& write.fits(layout)
    &&& write.content_digest == content_digest(write.value@)
    &&& allocation.extent_generation == pool.extents[allocation.extent as int].generation
    &&& allocation.extent_offset >= start.extents[allocation.extent as int].used_bytes
    &&& allocation.extent_offset + allocation.stored_len <= pool.extents[allocation.extent as int].used_bytes
}

/// From `start` to `pool` nothing happened but that the bytes of the writes were taken.
pub open spec fn gathers(layout: PoolLayout, start: PackedModel, pool: PackedModel, writes: Seq<EntryWrite>) -> bool {
    &&& pool.extents.len() == start.extents.len()
    &&& forall|i: int|
        0 <= i < pool.extents.len() ==> {
            let state = #[trigger] pool.extents[i];
            &&& state.generation == start.extents[i].generation
            &&& start.extents[i].used_bytes <= state.used_bytes <= layout.extent_size
            &&& !touched(writes, writes.len() as int, i) ==> state.used_bytes == start.extents[i].used_bytes
        }
    &&& forall|k: int| 0 <= k < writes.len() ==> gathered(layout, start, pool, #[trigger] writes[k])
}

/// Write `i` is the last one for the digest of its key.
pub open spec fn last_write(writes: Seq<EntryWrite>, i: int) -> bool {
    &&& 0 <= i < writes.len()
    &&& forall|j: int|
        i < j < writes.len() ==> digest_of((#[trigger] writes[j]).key@) != digest_of(writes[i].key@)
}

/// No write is for the digest.
pub open spec fn unwritten(writes: Seq<EntryWrite>, digest: Seq<u8>) -> bool {
    forall|j: int| 0 <= j < writes.len() ==> digest_of((#[trigger] writes[j]).key@) != digest
}

/// Every hit is what `contents` holds for its key, where the writes count as published.
pub open spec fn serves_with(
    layout: PoolLayout,
    store: StoreModel,
    writes: Seq<EntryWrite>,
    contents: Map<Seq<u8>, Content>,
) -> bool {
    &&& forall|key: Seq<u8>, value: Seq<u8>| #[trigger]
        hits(layout, store, key, value) && unwritten(writes, digest_of(key)) ==> agrees(contents, key, value, store.reported(key))
    &&& forall|i: int| #[trigger] last_write(writes, i) ==> agrees(contents, writes[i].key@, writes[i].value@, writes[i].allocation.priority)
}

/// A store in the midst of its work: `writes` are the entries of a batch that have bytes
/// and are not published, `start` is the state of the pool before they got them, and
/// `contents` holds the value last inserted under each key.
pub struct Moment<'a> {
    pub store: StoreModel,
    pub start: PackedModel,
    pub writes: Seq<EntryWrite<'a>>,
    pub contents: Map<Seq<u8>, Content>,
}

impl<'a> Moment<'a> {
    /// The store serves the contents, and the bytes that it serves are its own.
    pub open spec fn upheld(self, layout: PoolLayout) -> bool {
        &&& rested(layout, self.start)
        &&& self.store.file.len() >= layout.extent_count * layout.extent_size
        &&& all_settled(layout, self.start, self.store)
        &&& gathers(layout, self.start, self.store.pool, self.writes)
        &&& serves_with(layout, self.store, self.writes, self.contents)
    }

    /// The store once its pending entries are published: their runs are in the file, their
    /// last pages are closed, and their locations are in the index.
    pub open spec fn published(
        self,
        layout: PoolLayout,
        inserts: Seq<(KeyDigest, PackedLocation)>,
        said: Seq<EntryIndexMemoryLookup>,
        file: Seq<u8>,
    ) -> Moment<'a> {
        let pool = frames_sealed(self.store.pool, layout, self.writes, self.writes.len() as int);
        Moment {
            store: StoreModel {
                index: self.store.index.batch_inserted(inserts, said, self.writes.len()),
                base: self.store.base,
                pool,
                file,
            },
            start: pool,
            writes: Seq::empty(),
            contents: self.contents,
        }
    }

    /// The store once the active mutations are frozen.
    pub open spec fn prepared(self) -> Moment<'a> {
        let index = self.store.index;
        Moment {
            store: StoreModel {
                index: IndexModel { active: Map::empty(), frozen: Some(index.active), ..index },
                ..self.store
            },
            ..self
        }
    }

    /// The store once the base holds what is kept of the frozen mutations.
    pub open spec fn persisted(self, layout: PoolLayout, filter: PackedModel) -> Moment<'a> {
        let index = self.store.index;
        Moment {
            store: StoreModel {
                index: IndexModel { frozen: None, base_revision: (index.base_revision + 1) as u64, ..index },
                base: base_after(self.store.base, persisted(index.frozen->0, filter, layout)),
                ..self.store
            },
            ..self
        }
    }

    /// The store once the frozen mutations are taken back.
    pub open spec fn aborted(self) -> Moment<'a> {
        let index = self.store.index;
        Moment {
            store: StoreModel {
                index: IndexModel {
                    active: index.frozen->0.union_prefer_right(index.active),
                    frozen: None,
                    ..index
                },
                ..self.store
            },
            ..self
        }
    }

    /// The store once the first `n` keys are removed.
    pub open spec fn removed(
        self,
        keys: Seq<Seq<u8>>,
        digests: Seq<KeyDigest>,
        said: Seq<EntryIndexMemoryLookup>,
        n: nat,
    ) -> Moment<'a> {
        Moment {
            store: StoreModel { index: self.store.index.batch_removed(digests, said, n), ..self.store },
            contents: without(self.contents, keys, n),
            ..self
        }
    }

    /// The store once an extent is released.
    pub open spec fn released(self, extent: int) -> Moment<'a> {
        self.with_pool(self.store.pool.extent_reset(extent))
    }

    /// The store with another pool, at rest.
    pub open spec fn with_pool(self, pool: PackedModel) -> Moment<'a> {
        Moment { store: StoreModel { pool, ..self.store }, start: pool, ..self }
    }

    /// The store over another base.
    pub open spec fn with_base(self, base: Map<Seq<u8>, PackedLocation>) -> Moment<'a> {
        Moment { store: StoreModel { base, ..self.store }, ..self }
    }

    /// The store over another file.
    pub open spec fn with_file(self, file: Seq<u8>) -> Moment<'a> {
        Moment { store: StoreModel { file, ..self.store }, ..self }
    }

    /// The store where `value` counts as the last one inserted under `key`.
    pub open spec fn told(self, key: Seq<u8>, value: Seq<u8>, priority: CachePriority) -> Moment<'a> {
        Moment { contents: self.contents.insert(key, Content { value, priority }), ..self }
    }

    /// The store once an entry got bytes.
    pub open spec fn joined(self, write: EntryWrite<'a>, pool: PackedModel) -> Moment<'a> {
        Moment {
            store: StoreModel { pool, ..self.store },
            writes: self.writes.push(write),
            ..self.told(write.key@, write.value@, write.allocation.priority)
        }
    }

    /// The index shows its base and nothing else.
    pub open spec fn only_base(self) -> bool {
        &&& self.store.index.active == Map::<Seq<u8>, Mutation>::empty()
        &&& self.store.index.frozen is None
    }

    /// The store opened again with this pool, over a base of at most so many keys.
    pub open spec fn reopened(self, pool: PackedModel, indexed_count: u64) -> Moment<'a> {
        Moment {
            store: StoreModel {
                index: IndexModel { active: Map::empty(), frozen: None, indexed_count, base_revision: 0 },
                pool,
                ..self.store
            },
            start: pool,
            ..self
        }
    }

    /// No entry waits to be published.
    pub open spec fn at_rest(self) -> bool {
        self.writes.len() == 0
    }
}

/// A store of which nothing is told yet.
pub open spec fn fresh<'a>(store: StoreModel) -> Moment<'a> {
    Moment { store, start: store.pool, writes: Seq::empty(), contents: Map::empty() }
}

/// The contents without the first `n` keys.
pub open spec fn without(contents: Map<Seq<u8>, Content>, keys: Seq<Seq<u8>>, n: nat) -> Map<Seq<u8>, Content>
    decreases n,
{
    if n == 0 {
        contents
    } else {
        without(contents, keys, (n - 1) as nat).remove(keys[n - 1])
    }
}

/// The digests are those of the keys.
pub open spec fn are_digests(digests: Seq<KeyDigest>, keys: Seq<Seq<u8>>) -> bool {
    &&& digests.len() == keys.len()
    &&& forall|k: int| 0 <= k < keys.len() ==> (#[trigger] digests[k])@ == digest_of(keys[k])
}

/// What the base said of the digests is true of it.
pub open spec fn all_known(
    base: Map<Seq<u8>, PackedLocation>,
    digests: Seq<KeyDigest>,
    said: Seq<EntryIndexMemoryLookup>,
) -> bool {
    &&& said.len() == digests.len()
    &&& forall|k: int| 0 <= k < digests.len() ==> honest(base, (#[trigger] digests[k])@, said[k])
}

/// Every extent of `view` is in the generation of `pool`, with no more bytes used.
pub open spec fn behind(view: PackedModel, pool: PackedModel) -> bool {
    &&& view.extents.len() == pool.extents.len()
    &&& forall|i: int|
        0 <= i < view.extents.len() ==> {
            let state = #[trigger] view.extents[i];
            &&& state.generation == pool.extents[i].generation
            &&& state.used_bytes <= pool.extents[i].used_bytes
        }
}

/// What is visible is settled.
proof fn lemma_visible_is_settled(layout: PoolLayout, model: PackedModel, store: StoreModel, digest: Seq<u8>)
    requires
        all_settled(layout, model, store),
    ensures
        store.index.visible(store.base, digest) matches Some(location) ==> settled(layout, model, location),
{
    if store.index.active.contains_key(digest) {
        assert(store.index.active[digest] == store.index.active[digest]);
    } else if store.index.frozen is Some && store.index.frozen->0.contains_key(digest) {
        let frozen = store.index.frozen->0;
        assert(frozen[digest] == frozen[digest]);
    } else if store.base.contains_key(digest) {
        assert(store.base[digest] == store.base[digest]);
    }
}

/// A location that is settled stays settled while the pool grows, and never comes to life.
pub proof fn law_dead_locations_stay_dead(
    layout: PoolLayout,
    before: PackedModel,
    later: PackedModel,
    location: PackedLocation,
)
    requires
        before.extents.len() == layout.extent_count,
        before.grows_into(later),
        settled(layout, before, location),
    ensures
        settled(layout, later, location),
        is_live(later, layout, location) ==> is_live(before, layout, location),
{
    assert forall|extent: nat, offset: nat| #[trigger] in_range(layout, location, extent, offset) implies {
        let state = later.extents[extent as int];
        ||| location.extent_generation < state.generation
        ||| location.extent_generation == state.generation && offset + location.stored_len <= state.used_bytes
    } by {
        assert(before.extents[extent as int] == before.extents[extent as int]);
    }
    if is_live(later, layout, location) {
        let (extent, offset) = choose|extent: nat, offset: nat|
            {
                &&& #[trigger] in_range(layout, location, extent, offset)
                &&& later.extents[extent as int].generation == location.extent_generation
                &&& later.extents[extent as int].used_bytes >= offset + location.stored_len
            };
        assert(before.extents[extent as int] == before.extents[extent as int]);
        assert(in_range(layout, location, extent, offset));
    }
}

proof fn lemma_all_settled_grows(layout: PoolLayout, before: PackedModel, later: PackedModel, store: StoreModel)
    requires
        before.extents.len() == layout.extent_count,
        before.grows_into(later),
        all_settled(layout, before, store),
    ensures
        all_settled(layout, later, store),
{
    assert forall|key: Seq<u8>|
        #![trigger store.index.active[key]]
        store.index.active.contains_key(key) implies (store.index.active[key].location matches Some(location)
        ==> settled(layout, later, location)) by {
        if let Some(location) = store.index.active[key].location {
            law_dead_locations_stay_dead(layout, before, later, location);
        }
    }
    if let Some(frozen) = store.index.frozen {
        assert forall|key: Seq<u8>| #![trigger frozen[key]] frozen.contains_key(key) implies (
        frozen[key].location matches Some(location) ==> settled(layout, later, location)) by {
            if let Some(location) = frozen[key].location {
                law_dead_locations_stay_dead(layout, before, later, location);
            }
        }
    }
    assert forall|key: Seq<u8>| #![trigger store.base[key]] store.base.contains_key(key) implies settled(
        layout,
        later,
        store.base[key],
    ) by {
        law_dead_locations_stay_dead(layout, before, later, store.base[key]);
    }
}

/// The pool of a batch in progress has grown from its start.
proof fn lemma_gathering_is_growth(layout: PoolLayout, start: PackedModel, pool: PackedModel, writes: Seq<EntryWrite>)
    requires
        gathers(layout, start, pool, writes),
    ensures
        start.grows_into(pool),
{
    assert forall|i: int| 0 <= i < start.extents.len() implies {
        let before = #[trigger] start.extents[i];
        let after = pool.extents[i];
        ||| before.generation < after.generation
        ||| before.generation == after.generation && before.used_bytes <= after.used_bytes
    } by {
        assert(pool.extents[i] == pool.extents[i]);
    }
}

/// With nothing pending, the promise is that of `serves`, and the pool is at rest.
pub proof fn law_a_store_at_rest_serves_its_contents(layout: PoolLayout, moment: Moment)
    requires
        moment.upheld(layout),
        moment.at_rest(),
    ensures
        serves(layout, moment.store, moment.contents),
        rested(layout, moment.store.pool),
        (Moment { start: moment.store.pool, ..moment }).upheld(layout),
{
    let pool = moment.store.pool;
    assert forall|key: Seq<u8>, value: Seq<u8>| #[trigger] hits(layout, moment.store, key, value) implies agrees(moment.contents, key, value, moment.store.reported(key)) by {
        assert(unwritten(moment.writes, digest_of(key)));
    }
    assert forall|i: int| 0 <= i < pool.extents.len() implies (#[trigger] pool.extents[i]).used_bytes
        == moment.start.extents[i].used_bytes by {
        assert(!touched(moment.writes, 0, i));
    }
    assert forall|i: int| 0 <= i < pool.extents.len() implies (#[trigger] pool.extents[i]).used_bytes % 4096 == 0 by {
        assert(moment.start.extents[i].used_bytes % 4096 == 0);
    }
    lemma_gathering_is_growth(layout, moment.start, pool, moment.writes);
    lemma_all_settled_grows(layout, moment.start, pool, moment.store);
}

/// An insert that a live location already holds changes nothing but what the store stands
/// for.
pub proof fn law_an_insert_held_by_a_location_is_served<'a>(
    layout: PoolLayout,
    moment: Moment<'a>,
    insert: EntryInsert,
    location: PackedLocation,
)
    requires
        moment.upheld(layout),
        unwritten(moment.writes, digest_of(insert.key@)),
        moment.store.index.visible(moment.store.base, digest_of(insert.key@)) == Some(location),
        holds_already(location, insert),
    ensures
        moment.told(insert.key@, insert.value@, insert.priority).upheld(layout),
{
    let contents = moment.contents.insert(
        insert.key@,
        Content { value: insert.value@, priority: insert.priority },
    );
    assert forall|key: Seq<u8>, value: Seq<u8>| #[trigger]
        hits(layout, moment.store, key, value) && unwritten(moment.writes, digest_of(key)) implies agrees(contents, key, value, moment.store.reported(key)) by {
        assert(agrees(moment.contents, key, value, moment.store.reported(key)));
    }
    assert forall|i: int| #[trigger] last_write(moment.writes, i) implies agrees(contents, moment.writes[i].key@, moment.writes[i].value@, moment.writes[i].allocation.priority) by {
        assert(digest_of(moment.writes[i].key@) != digest_of(insert.key@));
        assert(agrees(moment.contents, moment.writes[i].key@, moment.writes[i].value@, moment.writes[i].allocation.priority));
    }
}

/// An insert that the last pending entry of its key already holds changes nothing but what
/// the store stands for.
pub proof fn law_an_insert_held_by_a_write_is_served<'a>(
    layout: PoolLayout,
    moment: Moment<'a>,
    insert: EntryInsert,
    i: int,
)
    requires
        moment.upheld(layout),
        last_write(moment.writes, i),
        digest_of(moment.writes[i].key@) == digest_of(insert.key@),
        holds_already(moment.writes[i].location(), insert),
    ensures
        moment.told(insert.key@, insert.value@, insert.priority).upheld(layout),
{
    let contents = moment.contents.insert(
        insert.key@,
        Content { value: insert.value@, priority: insert.priority },
    );
    let write = moment.writes[i];
    assert(gathered(layout, moment.start, moment.store.pool, moment.writes[i]));
    assert forall|key: Seq<u8>, value: Seq<u8>| #[trigger]
        hits(layout, moment.store, key, value) && unwritten(moment.writes, digest_of(key)) implies agrees(contents, key, value, moment.store.reported(key)) by {
        assert(digest_of(moment.writes[i].key@) != digest_of(key));
        assert(agrees(moment.contents, key, value, moment.store.reported(key)));
    }
    assert forall|j: int| #[trigger] last_write(moment.writes, j) implies agrees(contents, moment.writes[j].key@, moment.writes[j].value@, moment.writes[j].allocation.priority) by {
        assert(agrees(moment.contents, moment.writes[j].key@, moment.writes[j].value@, moment.writes[j].allocation.priority));
        if moment.writes[j].key@ == insert.key@ {
            if i < j {
                assert(digest_of(moment.writes[j].key@) != digest_of(moment.writes[i].key@));
            } else if j < i {
                assert(digest_of(moment.writes[i].key@) != digest_of(moment.writes[j].key@));
            }
            assert(i == j);
        }
    }
}

/// An entry that got bytes joins the pending ones.
pub proof fn law_an_allocated_insert_is_served<'a>(
    layout: PoolLayout,
    moment: Moment<'a>,
    write: EntryWrite<'a>,
    priority: CachePriority,
    len: usize,
    after: PackedModel,
)
    requires
        moment.upheld(layout),
        moment.store.pool.consistent(layout),
        allocates(moment.store.pool, after, layout, priority, len, Ok(AllocationResult::Allocated(write.allocation))),
        write.size() == Some(len as nat),
        write.value@.len() > 0,
        write.content_digest == content_digest(write.value@),
    ensures
        moment.joined(write, after).upheld(layout),
{
    let pool = moment.store.pool;
    let start = moment.start;
    let writes = moment.writes.push(write);
    let contents = moment.contents.insert(
        write.key@,
        Content { value: write.value@, priority: write.allocation.priority },
    );
    let store = StoreModel { pool: after, ..moment.store };
    let n = moment.writes.len() as int;
    let e = write.allocation.extent as int;
    law_allocations_continue_the_used_bytes(pool, after, layout, priority, len, write.allocation);
    lemma_allocation_place(pool, after, layout, priority, len, write.allocation);
    assert(pool.extents[e] == pool.extents[e]);
    assert forall|i: int| 0 <= i < after.extents.len() implies {
        let state = #[trigger] after.extents[i];
        &&& state.generation == start.extents[i].generation
        &&& start.extents[i].used_bytes <= state.used_bytes <= layout.extent_size
        &&& !touched(writes, n + 1, i) ==> state.used_bytes == start.extents[i].used_bytes
    } by {
        assert(pool.extents[i] == pool.extents[i]);
        if i == e {
            assert(writes[n].allocation.extent == i);
            assert(touched(writes, n + 1, i));
        } else {
            assert(after.extents[i].generation == pool.extents[i].generation);
            assert(after.extents[i].used_bytes == pool.extents[i].used_bytes);
            if touched(moment.writes, n, i) {
                let k = choose|k: int| 0 <= k < n && (#[trigger] moment.writes[k]).allocation.extent == i;
                assert(writes[k].allocation.extent == i);
            }
        }
    }
    assert forall|k: int| 0 <= k < writes.len() implies gathered(layout, start, after, #[trigger] writes[k]) by {
        if k < n {
            assert(gathered(layout, start, pool, moment.writes[k]));
            let x = moment.writes[k].allocation.extent as int;
            assert(after.extents[x].used_bytes >= pool.extents[x].used_bytes);
            assert(after.extents[x].generation == pool.extents[x].generation);
        }
    }
    assert(gathers(layout, start, after, writes));
    lemma_gathering_is_growth(layout, start, pool, moment.writes);
    lemma_gathering_is_growth(layout, start, after, writes);
    assert forall|key: Seq<u8>, value: Seq<u8>| #[trigger]
        hits(layout, store, key, value) && unwritten(writes, digest_of(key)) implies agrees(contents, key, value, store.reported(key)) by {
        lemma_same_hit(layout, start, moment.store, store, key, value);
        assert(digest_of(writes[n].key@) != digest_of(key));
        assert forall|j: int| 0 <= j < n implies digest_of((#[trigger] moment.writes[j]).key@) != digest_of(key) by {
            assert(digest_of(writes[j].key@) != digest_of(key));
        }
        assert(unwritten(moment.writes, digest_of(key)));
        assert(agrees(moment.contents, key, value, moment.store.reported(key)));
    }
    assert forall|i: int| #[trigger] last_write(writes, i) implies agrees(contents, writes[i].key@, writes[i].value@, writes[i].allocation.priority) by {
        if i < n {
            assert(digest_of(writes[n].key@) != digest_of(writes[i].key@));
            assert forall|j: int| i < j < n implies digest_of((#[trigger] moment.writes[j]).key@) != digest_of(
                moment.writes[i].key@,
            ) by {
                assert(digest_of(writes[j].key@) != digest_of(writes[i].key@));
            }
            assert(last_write(moment.writes, i));
            assert(agrees(moment.contents, moment.writes[i].key@, moment.writes[i].value@, moment.writes[i].allocation.priority));
        }
    }
}

/// An allocation leaves every other extent alone, and its place is in the layout.
pub proof fn lemma_allocation_place(
    before: PackedModel,
    after: PackedModel,
    layout: PoolLayout,
    priority: CachePriority,
    len: usize,
    allocation: EntryAllocation,
)
    requires
        layout.wf(),
        before.consistent(layout),
        allocates(before, after, layout, priority, len, Ok(AllocationResult::Allocated(allocation))),
    ensures
        allocation.data_offset == layout.offset_of(allocation.extent as nat, allocation.extent_offset as nat),
        forall|i: int|
            0 <= i < before.extents.len() && i != allocation.extent ==> #[trigger] after.extents[i]
                == before.extents[i],
{
    law_allocations_continue_the_used_bytes(before, after, layout, priority, len, allocation);
    let e = allocation.extent as int;
    let count = layout.extent_count as int;
    let size = layout.extent_size as int;
    assert(e * size + size <= count * size) by (nonlinear_arith)
        requires
            e + 1 <= count,
            size > 0,
    ;
    assert(before.pointer_ok(rank(priority)));
    let current = before.current[rank(priority)];
    if current is Some && has_room(before.extents[current->0 as int], layout, len as nat) {
    } else {
        let dropped = before.with_current(priority, None);
        assert(dropped.extents == before.extents);
        let free = choose|free: u32| #[trigger] dropped.first_spare(free as int) && takes(
            dropped.activated(priority, free),
            after,
            layout,
            free,
            len as u32,
            priority,
            Ok(AllocationResult::Allocated(allocation)),
        );
        assert(after.extents =~= dropped.activated(priority, free).bytes_taken(free as int, len as u32).extents);
    }
}

/// A hit over a later pool is a hit over an earlier one.
proof fn lemma_same_hit(
    layout: PoolLayout,
    start: PackedModel,
    before: StoreModel,
    later: StoreModel,
    key: Seq<u8>,
    value: Seq<u8>,
)
    requires
        start.extents.len() == layout.extent_count,
        all_settled(layout, start, before),
        start.grows_into(before.pool),
        start.grows_into(later.pool),
        forall|i: int|
            0 <= i < start.extents.len() ==> (#[trigger] before.pool.extents[i]).generation
                == start.extents[i].generation,
        later.index == before.index,
        later.base == before.base,
        later.file == before.file,
        hits(layout, later, key, value),
    ensures
        hits(layout, before, key, value),
{
    let location = before.index.visible(before.base, digest_of(key))->0;
    lemma_visible_is_settled(layout, start, before, digest_of(key));
    law_dead_locations_stay_dead(layout, start, later.pool, location);
    let (extent, offset) = choose|extent: nat, offset: nat|
        {
            &&& #[trigger] in_range(layout, location, extent, offset)
            &&& start.extents[extent as int].generation == location.extent_generation
            &&& start.extents[extent as int].used_bytes >= offset + location.stored_len
        };
    assert(start.extents[extent as int] == start.extents[extent as int]);
    assert(before.pool.extents[extent as int].generation == start.extents[extent as int].generation);
    assert(in_range(layout, location, extent, offset));
}

/// Which extents are current, and the cursor of the state file, do not matter to lookups: a
/// batch that finds no bytes, a sealed current extent and a persisted image change nothing
/// that is served.
pub proof fn law_pointers_and_cursors_serve_the_same<'a>(layout: PoolLayout, moment: Moment<'a>, after: PackedModel)
    requires
        moment.upheld(layout),
        after.extents == moment.store.pool.extents,
    ensures
        (Moment { store: StoreModel { pool: after, ..moment.store }, ..moment }).upheld(layout),
{
    let store = StoreModel { pool: after, ..moment.store };
    assert forall|key: Seq<u8>, value: Seq<u8>| #[trigger] hits(layout, store, key, value) implies hits(
        layout,
        moment.store,
        key,
        value,
    ) by {
        let location = store.index.visible(store.base, digest_of(key))->0;
        let (extent, offset) = choose|extent: nat, offset: nat|
            {
                &&& #[trigger] in_range(layout, location, extent, offset)
                &&& after.extents[extent as int].generation == location.extent_generation
                &&& after.extents[extent as int].used_bytes >= offset + location.stored_len
            };
        assert(in_range(layout, location, extent, offset));
    }
    assert(gathers(layout, moment.start, after, moment.writes)) by {
        assert forall|k: int| 0 <= k < moment.writes.len() implies gathered(
            layout,
            moment.start,
            after,
            #[trigger] moment.writes[k],
        ) by {
            assert(gathered(layout, moment.start, moment.store.pool, moment.writes[k]));
        }
        assert forall|i: int| 0 <= i < after.extents.len() implies {
            let state = #[trigger] after.extents[i];
            &&& state.generation == moment.start.extents[i].generation
            &&& moment.start.extents[i].used_bytes <= state.used_bytes <= layout.extent_size
            &&& !touched(moment.writes, moment.writes.len() as int, i) ==> state.used_bytes
                == moment.start.extents[i].used_bytes
        } by {
            assert(moment.store.pool.extents[i] == after.extents[i]);
        }
    }
}

/// Some run covers byte `b` of the file.
pub open spec fn in_runs(runs: Seq<DataWriteRun>, b: int) -> bool {
    exists|r: int|
        0 <= r < runs.len() && (#[trigger] runs[r]).data_offset <= b < runs[r].data_offset + runs[r].len
}

/// The file once the images were written at the places of their runs.
pub open spec fn file_written(
    before: Seq<u8>,
    runs: Seq<DataWriteRun>,
    images: Seq<Seq<u8>>,
    after: Seq<u8>,
) -> bool {
    &&& images.len() == runs.len()
    &&& forall|r: int|
        0 <= r < runs.len() ==> holds_at(after, (#[trigger] runs[r]).data_offset as int, images[r])
    &&& file_kept(before, runs, after)
}

/// The file outside the runs is as before. Within them it may be anything.
pub open spec fn file_kept(before: Seq<u8>, runs: Seq<DataWriteRun>, after: Seq<u8>) -> bool {
    &&& after.len() == before.len()
    &&& forall|b: int| 0 <= b < before.len() && !in_runs(runs, b) ==> #[trigger] after[b] == before[b]
}

/// The runs hold the writes, and the images are the bytes of the runs.
pub open spec fn run_images(
    runs: Seq<DataWriteRun>,
    writes: Seq<EntryWrite>,
    maximum: nat,
    images: Seq<Seq<u8>>,
) -> bool {
    &&& runs_cover(runs, writes, maximum)
    &&& forall|r: int| 0 <= r < runs.len() ==> run_image(#[trigger] runs[r], writes, images[r])
}

/// What goes into the index for the writes: the digest of each key, and its location.
pub open spec fn indexes(inserts: Seq<(KeyDigest, PackedLocation)>, writes: Seq<EntryWrite>) -> bool {
    &&& inserts.len() == writes.len()
    &&& forall|k: int|
        0 <= k < writes.len() ==> (#[trigger] inserts[k]).0@ == digest_of(writes[k].key@) && inserts[k].1
            == writes[k].location()
}

/// What the base said of the keys of inserts is true of it.
pub open spec fn all_honest(
    base: Map<Seq<u8>, PackedLocation>,
    inserts: Seq<(KeyDigest, PackedLocation)>,
    said: Seq<EntryIndexMemoryLookup>,
) -> bool {
    &&& said.len() == inserts.len()
    &&& forall|k: int| 0 <= k < inserts.len() ==> honest(base, (#[trigger] inserts[k]).0@, said[k])
}

proof fn lemma_batch_visible(
    before: IndexModel,
    base: Map<Seq<u8>, PackedLocation>,
    inserts: Seq<(KeyDigest, PackedLocation)>,
    said: Seq<EntryIndexMemoryLookup>,
    n: nat,
    digest: Seq<u8>,
)
    requires
        n <= inserts.len(),
        all_honest(base, inserts, said),
    ensures
        before.batch_inserted(inserts, said, n).frozen == before.frozen,
        (forall|j: int| 0 <= j < n ==> (#[trigger] inserts[j]).0@ != digest) ==> before.batch_inserted(
            inserts,
            said,
            n,
        ).visible(base, digest) == before.visible(base, digest),
        forall|k: int|
            0 <= k < n && (#[trigger] inserts[k]).0@ == digest && (forall|j: int|
                k < j < n ==> (#[trigger] inserts[j]).0@ != digest) ==> before.batch_inserted(
                inserts,
                said,
                n,
            ).visible(base, digest) == Some(inserts[k].1),
    decreases n,
{
    if n > 0 {
        let m = (n - 1) as nat;
        lemma_batch_visible(before, base, inserts, said, m, digest);
        let last = inserts[m as int];
        assert(honest(base, inserts[m as int].0@, said[m as int]));
        law_insert_is_visible(before.batch_inserted(inserts, said, m), base, last.0@, last.1, said[m as int], digest);
    }
}

proof fn lemma_batch_settled(
    layout: PoolLayout,
    model: PackedModel,
    before: IndexModel,
    inserts: Seq<(KeyDigest, PackedLocation)>,
    said: Seq<EntryIndexMemoryLookup>,
    n: nat,
)
    requires
        n <= inserts.len(),
        mutations_settled(layout, model, before.active),
        forall|k: int| 0 <= k < inserts.len() ==> settled(layout, model, (#[trigger] inserts[k]).1),
    ensures
        mutations_settled(layout, model, before.batch_inserted(inserts, said, n).active),
    decreases n,
{
    if n > 0 {
        let m = (n - 1) as nat;
        lemma_batch_settled(layout, model, before, inserts, said, m);
        let earlier = before.batch_inserted(inserts, said, m);
        let later = before.batch_inserted(inserts, said, n);
        assert(settled(layout, model, inserts[m as int].1));
        assert forall|key: Seq<u8>| #![trigger later.active[key]] later.active.contains_key(key) implies (
        later.active[key].location matches Some(location) ==> settled(layout, model, location)) by {
            if earlier.active.contains_key(key) {
                assert(earlier.active[key] == earlier.active[key]);
            }
        }
    }
}

/// A digest that is written has a last write.
proof fn lemma_last_write(writes: Seq<EntryWrite>, digest: Seq<u8>, n: int) -> (i: int)
    requires
        0 <= n <= writes.len(),
        !unwritten(writes, digest),
        forall|j: int| n <= j < writes.len() ==> digest_of((#[trigger] writes[j]).key@) != digest,
    ensures
        last_write(writes, i),
        digest_of(writes[i].key@) == digest,
    decreases n,
{
    if n == 0 {
        assert(unwritten(writes, digest));
        0
    } else if digest_of(writes[n - 1].key@) == digest {
        n - 1
    } else {
        lemma_last_write(writes, digest, n - 1)
    }
}

/// The location of a write lies at its allocation and nowhere else.
proof fn lemma_write_place(layout: PoolLayout, write: EntryWrite, extent: nat, offset: nat)
    requires
        layout.wf(),
        write.fits(layout),
        in_range(layout, write.location(), extent, offset),
    ensures
        extent == write.allocation.extent,
        offset == write.allocation.extent_offset,
{
    law_data_offsets_round_trip(
        layout,
        extent,
        offset,
        write.allocation.extent as nat,
        write.allocation.extent_offset as nat,
    );
}

/// Closing the last pages of a batch is growth too, and leaves the pool at rest.
pub proof fn law_sealing_leaves_the_pool_at_rest<'a>(layout: PoolLayout, moment: Moment<'a>)
    requires
        moment.upheld(layout),
    ensures
        ({
            let pool = moment.store.pool;
            let sealed = frames_sealed(pool, layout, moment.writes, moment.writes.len() as int);
            &&& rested(layout, sealed)
            &&& pool.grows_into(sealed)
            &&& moment.start.grows_into(sealed)
            &&& forall|i: int|
                0 <= i < pool.extents.len() ==> (#[trigger] sealed.extents[i]).generation
                    == pool.extents[i].generation && sealed.extents[i].used_bytes >= pool.extents[i].used_bytes
        }),
{
    let pool = moment.store.pool;
    let n = moment.writes.len() as int;
    let sealed = frames_sealed(pool, layout, moment.writes, n);
    law_sealing_closes_the_pages(moment.start, pool, layout, moment.writes);
    assert forall|i: int| 0 <= i < pool.extents.len() implies (#[trigger] sealed.extents[i]).generation
        == pool.extents[i].generation && pool.extents[i].used_bytes <= sealed.extents[i].used_bytes
        <= layout.extent_size by {
        let used = pool.extents[i].used_bytes;
        assert(pool.extents[i] == pool.extents[i]);
        let pages = (used as nat + 4095) as nat / 4096;
        assert(aligned_up(used as nat, 4096) == pages * 4096);
        assert(pages * 4096 >= used);
    }
    assert forall|i: int| 0 <= i < pool.extents.len() implies {
        let before = #[trigger] pool.extents[i];
        let after = sealed.extents[i];
        ||| before.generation < after.generation
        ||| before.generation == after.generation && before.used_bytes <= after.used_bytes
    } by {
        assert(sealed.extents[i] == sealed.extents[i]);
    }
    lemma_gathering_is_growth(layout, moment.start, pool, moment.writes);
    lemma_growth_is_transitive(moment.start, pool, sealed);
}

/// A batch touches no byte of an entry that was live before it.
proof fn lemma_entry_untouched<'a>(
    layout: PoolLayout,
    moment: Moment<'a>,
    runs: Seq<DataWriteRun>,
    maximum: nat,
    file: Seq<u8>,
    pool: PackedModel,
    location: PackedLocation,
)
    requires
        moment.upheld(layout),
        runs_cover(runs, moment.writes, maximum),
        file_kept(moment.store.file, runs, file),
        behind(pool, moment.start),
        is_live(pool, layout, location),
    ensures
        ({
            let end = location.data_offset + location.stored_len;
            &&& end <= file.len()
            &&& file.subrange(location.data_offset as int, end) == moment.store.file.subrange(
                location.data_offset as int,
                end,
            )
        }),
{
    let start = moment.start;
    let writes = moment.writes;
    let (extent, offset) = choose|extent: nat, offset: nat|
        {
            &&& #[trigger] in_range(layout, location, extent, offset)
            &&& pool.extents[extent as int].generation == location.extent_generation
            &&& pool.extents[extent as int].used_bytes >= offset + location.stored_len
        };
    let first = location.data_offset as int;
    let end = location.data_offset + location.stored_len;
    let count = layout.extent_count as int;
    let size = layout.extent_size as int;
    assert(extent * size + size <= count * size) by (nonlinear_arith)
        requires
            extent + 1 <= count,
            size > 0,
    ;
    assert(end <= file.len());
    assert(pool.extents[extent as int] == pool.extents[extent as int]);
    assert(start.extents[extent as int] == start.extents[extent as int]);
    assert(begins_after(writes, start)) by {
        assert forall|k: int| 0 <= k < writes.len() implies (#[trigger] writes[k]).allocation.extent_offset
            >= start.extents[writes[k].allocation.extent as int].used_bytes by {
            assert(gathered(layout, start, moment.store.pool, writes[k]));
        }
    }
    assert forall|k: int| 0 <= k < writes.len() implies (#[trigger] writes[k]).fits(layout) by {
        assert(gathered(layout, start, moment.store.pool, writes[k]));
    }
    assert forall|b: int| first <= b < end implies #[trigger] file[b] == moment.store.file[b] by {
        if in_runs(runs, b) {
            let r = choose|r: int|
                0 <= r < runs.len() && (#[trigger] runs[r]).data_offset <= b < runs[r].data_offset + runs[r].len;
            assert(run_ok(runs[r], writes, maximum));
            law_a_batch_leaves_earlier_entries_alone(
                layout,
                start,
                writes,
                runs[r],
                maximum,
                extent,
                offset,
                location.stored_len as nat,
            );
        }
    }
    assert(file.subrange(first, end) =~= moment.store.file.subrange(first, end));
}

/// Once the runs of a batch are in the file, its last pages are closed and its locations
/// are in the index, the batch is served: the last value of each of its keys, and every
/// other key as before.
pub proof fn law_a_published_batch_is_served<'a>(
    layout: PoolLayout,
    moment: Moment<'a>,
    runs: Seq<DataWriteRun>,
    maximum: nat,
    images: Seq<Seq<u8>>,
    file: Seq<u8>,
    inserts: Seq<(KeyDigest, PackedLocation)>,
    said: Seq<EntryIndexMemoryLookup>,
)
    requires
        moment.upheld(layout),
        run_images(runs, moment.writes, maximum, images),
        file_written(moment.store.file, runs, images, file),
        indexes(inserts, moment.writes),
        all_honest(moment.store.base, inserts, said),
    ensures
        moment.published(layout, inserts, said, file).upheld(layout),
        moment.published(layout, inserts, said, file).at_rest(),
{
    let start = moment.start;
    let writes = moment.writes;
    let n = writes.len();
    let after = moment.published(layout, inserts, said, file);
    let pool = after.store.pool;
    law_sealing_leaves_the_pool_at_rest(layout, moment);
    lemma_gathering_is_growth(layout, start, moment.store.pool, writes);
    lemma_all_settled_grows(layout, start, pool, moment.store);
    assert forall|k: int| 0 <= k < inserts.len() implies settled(layout, pool, (#[trigger] inserts[k]).1) by {
        let write = writes[k];
        assert(gathered(layout, start, moment.store.pool, writes[k]));
        assert(pool.extents[write.allocation.extent as int].generation == write.allocation.extent_generation);
        assert forall|extent: nat, offset: nat| #[trigger]
            in_range(layout, write.location(), extent, offset) implies {
            let state = pool.extents[extent as int];
            ||| write.location().extent_generation < state.generation
            ||| write.location().extent_generation == state.generation && offset + write.location().stored_len
                <= state.used_bytes
        } by {
            lemma_write_place(layout, write, extent, offset);
        }
    }
    lemma_batch_settled(layout, pool, moment.store.index, inserts, said, n);
    lemma_batch_visible(moment.store.index, moment.store.base, inserts, said, n, Seq::empty());
    assert(all_settled(layout, pool, after.store));
    assert forall|key: Seq<u8>, value: Seq<u8>| #[trigger] hits(layout, after.store, key, value) implies agrees(after.contents, key, value, after.store.reported(key)) by {
        let digest = digest_of(key);
        lemma_batch_visible(moment.store.index, moment.store.base, inserts, said, n, digest);
        let location = after.store.index.visible(after.store.base, digest)->0;
        if unwritten(writes, digest) {
            assert forall|j: int| 0 <= j < n implies (#[trigger] inserts[j]).0@ != digest by {
                assert(digest_of(writes[j].key@) != digest);
            }
            lemma_visible_is_settled(layout, start, moment.store, digest);
            law_dead_locations_stay_dead(layout, start, pool, location);
            assert forall|i: int| 0 <= i < start.extents.len() implies {
                let state = #[trigger] start.extents[i];
                &&& state.generation == start.extents[i].generation
                &&& state.used_bytes <= start.extents[i].used_bytes
            } by {}
            lemma_entry_untouched(layout, moment, runs, maximum, file, start, location);
            let beginning = StoreModel { pool: start, ..moment.store };
            assert(hits(layout, beginning, key, value));
            lemma_gathered_hit(layout, moment, key, value);
            assert(agrees(moment.contents, key, value, moment.store.reported(key)));
        } else {
            let i = lemma_last_write(writes, digest, n as int);
            let write = writes[i];
            assert(gathered(layout, start, moment.store.pool, writes[i]));
            assert(inserts[i].0@ == digest);
            assert forall|j: int| i < j < n implies (#[trigger] inserts[j]).0@ != digest by {
                assert(digest_of(writes[j].key@) != digest_of(writes[i].key@));
            }
            assert(location == write.location());
            let stored = lemma_stored_entry_exists(write.key@, write.value@);
            assert forall|r: int| 0 <= r < runs.len() implies run_image(#[trigger] runs[r], writes, images[r])
                && holds_at(file, runs[r].data_offset as int, images[r]) by {}
            law_batch_places_every_entry(writes, maximum, runs, images, file, i, stored);
            law_stored_entry_is_unambiguous(stored, write.key@, write.value@, key, value);
            assert(agrees(moment.contents, writes[i].key@, writes[i].value@, writes[i].allocation.priority));
        }
    }
    assert forall|i: int| 0 <= i < pool.extents.len() implies {
        let state = #[trigger] pool.extents[i];
        &&& state.generation == pool.extents[i].generation
        &&& pool.extents[i].used_bytes <= state.used_bytes <= layout.extent_size
        &&& !touched(after.writes, 0, i) ==> state.used_bytes == pool.extents[i].used_bytes
    } by {}
    assert(gathers(layout, pool, pool, after.writes));
}

/// A published batch hits: the last value of each of its keys is found, and what was found
/// under any other key still is.
pub proof fn law_a_published_batch_hits<'a>(
    layout: PoolLayout,
    moment: Moment<'a>,
    runs: Seq<DataWriteRun>,
    maximum: nat,
    images: Seq<Seq<u8>>,
    file: Seq<u8>,
    inserts: Seq<(KeyDigest, PackedLocation)>,
    said: Seq<EntryIndexMemoryLookup>,
)
    requires
        moment.upheld(layout),
        run_images(runs, moment.writes, maximum, images),
        file_written(moment.store.file, runs, images, file),
        indexes(inserts, moment.writes),
        all_honest(moment.store.base, inserts, said),
    ensures
        ({
            let after = moment.published(layout, inserts, said, file).store;
            &&& forall|i: int| #[trigger]
                last_write(moment.writes, i) ==> hits(
                    layout,
                    after,
                    moment.writes[i].key@,
                    moment.writes[i].value@,
                ) && after.reported(moment.writes[i].key@) == moment.writes[i].allocation.priority
            &&& forall|key: Seq<u8>, value: Seq<u8>| #[trigger]
                hits(layout, moment.store, key, value) && unwritten(moment.writes, digest_of(key)) ==> hits(
                    layout,
                    after,
                    key,
                    value,
                )
        }),
{
    let start = moment.start;
    let writes = moment.writes;
    let n = writes.len();
    let after = moment.published(layout, inserts, said, file).store;
    let pool = after.pool;
    law_sealing_leaves_the_pool_at_rest(layout, moment);
    assert forall|i: int| #[trigger] last_write(writes, i) implies hits(
        layout,
        after,
        writes[i].key@,
        writes[i].value@,
    ) && after.reported(writes[i].key@) == writes[i].allocation.priority by {
        let write = writes[i];
        let digest = digest_of(write.key@);
        let extent = write.allocation.extent as nat;
        let offset = write.allocation.extent_offset as nat;
        assert(gathered(layout, start, moment.store.pool, writes[i]));
        assert(inserts[i].0@ == digest);
        assert forall|j: int| i < j < n implies (#[trigger] inserts[j]).0@ != digest by {
            assert(digest_of(writes[j].key@) != digest_of(writes[i].key@));
        }
        lemma_batch_visible(moment.store.index, moment.store.base, inserts, said, n, digest);
        let stored = lemma_stored_entry_exists(write.key@, write.value@);
        assert forall|r: int| 0 <= r < runs.len() implies run_image(#[trigger] runs[r], writes, images[r])
            && holds_at(file, runs[r].data_offset as int, images[r]) by {}
        law_batch_places_every_entry(writes, maximum, runs, images, file, i, stored);
        assert(pool.extents[extent as int].generation == write.allocation.extent_generation);
        assert(in_range(layout, write.location(), extent, offset));
    }
    assert forall|key: Seq<u8>, value: Seq<u8>| #[trigger]
        hits(layout, moment.store, key, value) && unwritten(writes, digest_of(key)) implies hits(
        layout,
        after,
        key,
        value,
    ) by {
        let digest = digest_of(key);
        let location = moment.store.index.visible(moment.store.base, digest)->0;
        assert forall|j: int| 0 <= j < n implies (#[trigger] inserts[j]).0@ != digest by {
            assert(digest_of(writes[j].key@) != digest);
        }
        lemma_batch_visible(moment.store.index, moment.store.base, inserts, said, n, digest);
        lemma_visible_is_settled(layout, start, moment.store, digest);
        lemma_gathering_is_growth(layout, start, moment.store.pool, writes);
        law_dead_locations_stay_dead(layout, start, moment.store.pool, location);
        assert forall|i: int| 0 <= i < start.extents.len() implies {
            let state = #[trigger] start.extents[i];
            &&& state.generation == start.extents[i].generation
            &&& state.used_bytes <= start.extents[i].used_bytes
        } by {}
        lemma_entry_untouched(layout, moment, runs, maximum, file, start, location);
        let (extent, offset) = choose|extent: nat, offset: nat|
            {
                &&& #[trigger] in_range(layout, location, extent, offset)
                &&& moment.store.pool.extents[extent as int].generation == location.extent_generation
                &&& moment.store.pool.extents[extent as int].used_bytes >= offset + location.stored_len
            };
        assert(pool.extents[extent as int].generation == location.extent_generation);
        assert(in_range(layout, location, extent, offset));
    }
}

/// What hits over the start of a batch hits over its pool.
proof fn lemma_gathered_hit<'a>(layout: PoolLayout, moment: Moment<'a>, key: Seq<u8>, value: Seq<u8>)
    requires
        moment.upheld(layout),
        hits(layout, (StoreModel { pool: moment.start, ..moment.store }), key, value),
    ensures
        hits(layout, moment.store, key, value),
{
    let location = moment.store.index.visible(moment.store.base, digest_of(key))->0;
    let (extent, offset) = choose|extent: nat, offset: nat|
        {
            &&& #[trigger] in_range(layout, location, extent, offset)
            &&& moment.start.extents[extent as int].generation == location.extent_generation
            &&& moment.start.extents[extent as int].used_bytes >= offset + location.stored_len
        };
    assert(moment.store.pool.extents[extent as int] == moment.store.pool.extents[extent as int]);
    assert(in_range(layout, location, extent, offset));
}

/// Where the index shows less than before, and all of it is settled, nothing else is served.
proof fn lemma_less_is_visible<'a>(layout: PoolLayout, moment: Moment<'a>, store: StoreModel)
    requires
        moment.upheld(layout),
        store.pool == moment.store.pool,
        store.file == moment.store.file,
        all_settled(layout, moment.start, store),
        forall|digest: Seq<u8>| #[trigger]
            store.index.visible(store.base, digest) is Some ==> store.index.visible(store.base, digest)
                == moment.store.index.visible(moment.store.base, digest),
    ensures
        (Moment { store, ..moment }).upheld(layout),
{
    assert forall|key: Seq<u8>, value: Seq<u8>| #[trigger]
        hits(layout, store, key, value) && unwritten(moment.writes, digest_of(key)) implies agrees(moment.contents, key, value, store.reported(key)) by {
        assert(store.index.visible(store.base, digest_of(key)) is Some);
        assert(hits(layout, moment.store, key, value));
    }
}

/// Freezing the active mutations changes nothing that is served.
pub proof fn law_a_prepared_checkpoint_serves_the_same<'a>(layout: PoolLayout, moment: Moment<'a>)
    requires
        moment.upheld(layout),
        moment.store.index.frozen is None,
    ensures
        moment.prepared().upheld(layout),
{
    let store = moment.prepared().store;
    assert forall|digest: Seq<u8>| #[trigger] store.index.visible(store.base, digest) is Some implies store.index.visible(
        store.base,
        digest,
    ) == moment.store.index.visible(moment.store.base, digest) by {
        law_preparing_a_checkpoint_keeps_every_lookup(moment.store.index, moment.store.base, digest);
    }
    assert(mutations_settled(layout, moment.start, store.index.active));
    lemma_less_is_visible(layout, moment, store);
}

/// Writing the frozen mutations to the base, with tombstones for reclaimed locations,
/// serves nothing else. `filter` is the pool as it was when the tombstones were chosen.
pub proof fn law_a_persisted_checkpoint_serves_the_same<'a>(
    layout: PoolLayout,
    moment: Moment<'a>,
    filter: PackedModel,
)
    requires
        moment.upheld(layout),
        moment.store.index.frozen is Some,
    ensures
        moment.persisted(layout, filter).upheld(layout),
{
    let store = moment.persisted(layout, filter).store;
    let frozen = moment.store.index.frozen->0;
    assert forall|digest: Seq<u8>| #[trigger] store.index.visible(store.base, digest) is Some implies store.index.visible(
        store.base,
        digest,
    ) == moment.store.index.visible(moment.store.base, digest) by {
        law_persisting_a_checkpoint_keeps_every_live_lookup(
            moment.store.index,
            frozen,
            moment.store.base,
            filter,
            layout,
            digest,
        );
    }
    assert forall|key: Seq<u8>| #![trigger store.base[key]] store.base.contains_key(key) implies settled(
        layout,
        moment.start,
        store.base[key],
    ) by {
        if frozen.contains_key(key) {
            assert(frozen[key] == frozen[key]);
        } else {
            assert(moment.store.base[key] == moment.store.base[key]);
        }
    }
    lemma_less_is_visible(layout, moment, store);
}

/// Taking frozen mutations back changes nothing that is served.
pub proof fn law_an_aborted_checkpoint_serves_the_same<'a>(layout: PoolLayout, moment: Moment<'a>)
    requires
        moment.upheld(layout),
        moment.store.index.frozen is Some,
    ensures
        moment.aborted().upheld(layout),
{
    let store = moment.aborted().store;
    let frozen = moment.store.index.frozen->0;
    assert forall|digest: Seq<u8>| #[trigger] store.index.visible(store.base, digest) is Some implies store.index.visible(
        store.base,
        digest,
    ) == moment.store.index.visible(moment.store.base, digest) by {
        law_aborting_a_checkpoint_keeps_every_lookup(moment.store.index, frozen, moment.store.base, digest);
    }
    assert forall|key: Seq<u8>| #![trigger store.index.active[key]] store.index.active.contains_key(key) implies (
    store.index.active[key].location matches Some(location) ==> settled(layout, moment.start, location)) by {
        if moment.store.index.active.contains_key(key) {
            assert(moment.store.index.active[key] == store.index.active[key]);
        } else {
            assert(frozen[key] == store.index.active[key]);
        }
    }
    lemma_less_is_visible(layout, moment, store);
}

/// A base that drops records serves nothing else: what it drops may miss.
pub proof fn law_a_compacted_base_serves_the_same<'a>(
    layout: PoolLayout,
    moment: Moment<'a>,
    base: Map<Seq<u8>, PackedLocation>,
)
    requires
        moment.upheld(layout),
        base.submap_of(moment.store.base),
    ensures
        moment.with_base(base).upheld(layout),
{
    let store = StoreModel { base, ..moment.store };
    assert forall|key: Seq<u8>| #![trigger base[key]] base.contains_key(key) implies settled(
        layout,
        moment.start,
        base[key],
    ) by {
        assert(base.dom().contains(key) ==> moment.store.base.dom().contains(key));
        assert(moment.store.base[key] == base[key]);
    }
    assert forall|digest: Seq<u8>| #[trigger] store.index.visible(store.base, digest) is Some implies store.index.visible(
        store.base,
        digest,
    ) == moment.store.index.visible(moment.store.base, digest) by {
        if base.contains_key(digest) {
            assert(base.dom().contains(digest) ==> moment.store.base.dom().contains(digest));
            assert(moment.store.base[digest] == base[digest]);
        }
    }
    lemma_less_is_visible(layout, moment, store);
}

/// Removed keys are served no more, and every other key as before.
pub proof fn law_removed_keys_are_not_served<'a>(
    layout: PoolLayout,
    moment: Moment<'a>,
    keys: Seq<Seq<u8>>,
    digests: Seq<KeyDigest>,
    said: Seq<EntryIndexMemoryLookup>,
    n: nat,
)
    requires
        moment.upheld(layout),
        moment.at_rest(),
        are_digests(digests, keys),
        all_known(moment.store.base, digests, said),
        n <= keys.len(),
    ensures
        moment.removed(keys, digests, said, n).upheld(layout),
    decreases n,
{
    if n > 0 {
        let m = (n - 1) as nat;
        law_removed_keys_are_not_served(layout, moment, keys, digests, said, m);
        let before = moment.removed(keys, digests, said, m);
        let after = moment.removed(keys, digests, said, n);
        let key = keys[m as int];
        let digest = digests[m as int]@;
        assert(digest == digest_of(key));
        assert(honest(moment.store.base, digests[m as int]@, said[m as int]));
        let index = before.store.index;
        assert(after.store.index == index.removed(digest, said[m as int]));
        assert forall|key: Seq<u8>|
            #![trigger after.store.index.active[key]]
            after.store.index.active.contains_key(key) implies (
        after.store.index.active[key].location matches Some(location) ==> settled(layout, moment.start, location)) by {
            if index.active.contains_key(key) {
                assert(index.active[key] == index.active[key]);
            }
        }
        assert forall|other: Seq<u8>, value: Seq<u8>| #[trigger] hits(layout, after.store, other, value) implies agrees(after.contents, other, value, after.store.reported(other)) by {
            law_removed_key_is_not_visible(index, moment.store.base, digest, said[m as int], digest_of(other));
            assert(digest_of(other) != digest);
            assert(hits(layout, before.store, other, value));
            assert(unwritten(before.writes, digest_of(other)));
            assert(agrees(before.contents, other, value, before.store.reported(other)));
        }
    }
}

/// A pool that grows from rest to rest serves nothing else.
pub proof fn law_a_grown_pool_serves_no_more<'a>(layout: PoolLayout, moment: Moment<'a>, later: PackedModel)
    requires
        moment.upheld(layout),
        moment.at_rest(),
        moment.store.pool.grows_into(later),
        rested(layout, later),
    ensures
        moment.with_pool(later).upheld(layout),
{
    let store = StoreModel { pool: later, ..moment.store };
    let pool = moment.store.pool;
    law_a_store_at_rest_serves_its_contents(layout, moment);
    lemma_gathering_is_growth(layout, moment.start, pool, moment.writes);
    lemma_growth_is_transitive(moment.start, pool, later);
    lemma_all_settled_grows(layout, moment.start, later, moment.store);
    lemma_growth_is_transitive(moment.start, moment.start, pool);
    assert forall|i: int| 0 <= i < moment.start.extents.len() implies (#[trigger] pool.extents[i]).generation
        == moment.start.extents[i].generation by {}
    assert forall|key: Seq<u8>, value: Seq<u8>| #[trigger] hits(layout, store, key, value) implies agrees(moment.contents, key, value, store.reported(key)) by {
        lemma_same_hit(layout, moment.start, moment.store, store, key, value);
        assert(hits(layout, moment.store, key, value));
    }
    assert forall|i: int| 0 <= i < later.extents.len() implies {
        let state = #[trigger] later.extents[i];
        &&& state.generation == later.extents[i].generation
        &&& later.extents[i].used_bytes <= state.used_bytes <= layout.extent_size
        &&& !touched(moment.writes, 0, i) ==> state.used_bytes == later.extents[i].used_bytes
    } by {}
    assert(gathers(layout, later, later, moment.writes));
}

/// Releasing an extent serves no more than before: what it held is gone.
pub proof fn law_a_released_extent_serves_no_more<'a>(layout: PoolLayout, moment: Moment<'a>, extent: int)
    requires
        moment.upheld(layout),
        moment.at_rest(),
        0 <= extent < layout.extent_count,
        moment.store.pool.extents[extent].generation < u32::MAX,
    ensures
        moment.released(extent).upheld(layout),
{
    let pool = moment.store.pool;
    let later = pool.extent_reset(extent);
    law_a_store_at_rest_serves_its_contents(layout, moment);
    assert forall|i: int| 0 <= i < later.extents.len() implies (#[trigger] later.extents[i]).used_bytes % 4096 == 0
        && later.extents[i].used_bytes <= layout.extent_size by {
        assert(pool.extents[i].used_bytes % 4096 == 0);
    }
    assert forall|i: int| 0 <= i < pool.extents.len() implies {
        let before = #[trigger] pool.extents[i];
        let after = later.extents[i];
        ||| before.generation < after.generation
        ||| before.generation == after.generation && before.used_bytes <= after.used_bytes
    } by {
        assert(later.extents[i] == later.extents[i]);
    }
    law_a_grown_pool_serves_no_more(layout, moment, later);
}

/// A store whose index has nothing but its base is served the same once it is opened again
/// from an image of its extents.
pub proof fn law_a_reopened_store_serves_the_same<'a>(
    layout: PoolLayout,
    moment: Moment<'a>,
    base_state: PackedState,
    captured: PackedModel,
    checkpoint: ExtentPoolCheckpoint,
    result: Result<ExtentPool, Error>,
    indexed_count: u64,
)
    requires
        moment.upheld(layout),
        moment.at_rest(),
        moment.only_base(),
        base_state@.consistent(layout),
        captured.consistent(layout),
        captured.extents == moment.store.pool.extents,
        checkpoint.captures(base_state@, captured),
        if base_state.active_page == 0 {
            reopens(
                good_copy(Some((layout, base_state)), 0),
                good_copy(Some((layout, checkpoint.image)), 1),
                result,
            )
        } else {
            reopens(
                good_copy(Some((layout, checkpoint.image)), 0),
                good_copy(Some((layout, base_state)), 1),
                result,
            )
        },
    ensures
        result matches Ok(pool) && pool.layout == layout && moment.reopened(pool.state@, indexed_count).upheld(layout),
{
    law_the_last_complete_checkpoint_is_reopened(layout, base_state, captured, checkpoint, true, result);
    let pool = result->Ok_0.state@;
    lemma_reopened(layout, moment, pool, indexed_count);
}

/// A store whose index has nothing but its base is served the same with any pool of the
/// same extents.
pub proof fn lemma_reopened<'a>(layout: PoolLayout, moment: Moment<'a>, pool: PackedModel, indexed_count: u64)
    requires
        moment.upheld(layout),
        moment.at_rest(),
        moment.only_base(),
        pool.extents == moment.store.pool.extents,
    ensures
        moment.reopened(pool, indexed_count).upheld(layout),
{
    let after = moment.reopened(pool, indexed_count);
    law_pointers_and_cursors_serve_the_same(layout, moment, pool);
    let same = Moment { store: StoreModel { pool, ..moment.store }, ..moment };
    law_a_store_at_rest_serves_its_contents(layout, same);
    let rest = Moment { start: pool, ..same };
    let store = StoreModel { index: after.store.index, ..rest.store };
    assert forall|digest: Seq<u8>| #[trigger] store.index.visible(store.base, digest) is Some implies store.index.visible(
        store.base,
        digest,
    ) == rest.store.index.visible(rest.store.base, digest) by {}
    assert(mutations_settled(layout, pool, store.index.active));
    lemma_less_is_visible(layout, rest, store);
}

/// A batch leaves every earlier view of the store alone, however far its writes get. `view`
/// is a store over the same file whose pool is behind the start of the batch: the durable
/// store that a crash would leave, or a captured checkpoint that is still to be written.
pub proof fn law_a_batch_leaves_earlier_views_alone<'a, 'b>(
    layout: PoolLayout,
    moment: Moment<'a>,
    view: Moment<'b>,
    runs: Seq<DataWriteRun>,
    maximum: nat,
    file: Seq<u8>,
)
    requires
        moment.upheld(layout),
        runs_cover(runs, moment.writes, maximum),
        file_kept(moment.store.file, runs, file),
        view.upheld(layout),
        view.at_rest(),
        view.store.file == moment.store.file,
        behind(view.store.pool, moment.start),
    ensures
        view.with_file(file).upheld(layout),
{
    let store = StoreModel { file, ..view.store };
    assert forall|key: Seq<u8>, value: Seq<u8>| #[trigger] hits(layout, store, key, value) implies agrees(view.contents, key, value, store.reported(key)) by {
        let location = store.index.visible(store.base, digest_of(key))->0;
        lemma_entry_untouched(layout, moment, runs, maximum, file, view.store.pool, location);
        assert(hits(layout, view.store, key, value));
        assert(unwritten(view.writes, digest_of(key)));
    }
}

/// The runs of a batch that break off midway change nothing that is served or found.
pub proof fn law_broken_off_writes_serve_the_same<'a>(
    layout: PoolLayout,
    moment: Moment<'a>,
    runs: Seq<DataWriteRun>,
    maximum: nat,
    file: Seq<u8>,
)
    requires
        moment.upheld(layout),
        runs_cover(runs, moment.writes, maximum),
        file_kept(moment.store.file, runs, file),
    ensures
        moment.with_file(file).upheld(layout),
        forall|key: Seq<u8>, value: Seq<u8>| #[trigger]
            hits(layout, moment.store, key, value) ==> hits(layout, moment.with_file(file).store, key, value),
{
    let store = StoreModel { file, ..moment.store };
    let start = moment.start;
    let pool = moment.store.pool;
    lemma_gathering_is_growth(layout, start, pool, moment.writes);
    assert forall|key: Seq<u8>, value: Seq<u8>| #[trigger]
        hits(layout, store, key, value) && unwritten(moment.writes, digest_of(key)) implies agrees(moment.contents, key, value, store.reported(key)) by {
        let location = store.index.visible(store.base, digest_of(key))->0;
        lemma_visible_is_settled(layout, start, moment.store, digest_of(key));
        law_dead_locations_stay_dead(layout, start, pool, location);
        lemma_entry_untouched(layout, moment, runs, maximum, file, start, location);
        assert(hits(layout, moment.store, key, value));
    }
    assert forall|key: Seq<u8>, value: Seq<u8>| #[trigger] hits(layout, moment.store, key, value) implies hits(
        layout,
        store,
        key,
        value,
    ) by {
        let location = store.index.visible(store.base, digest_of(key))->0;
        lemma_visible_is_settled(layout, start, moment.store, digest_of(key));
        law_dead_locations_stay_dead(layout, start, pool, location);
        lemma_entry_untouched(layout, moment, runs, maximum, file, start, location);
    }
}

/// A batch that is given up before its entries are published, with none or some of its
/// bytes in the file, serves what was served before it.
pub proof fn law_an_abandoned_batch_serves_what_was_served<'a, 'b>(
    layout: PoolLayout,
    rest: Moment<'b>,
    moment: Moment<'a>,
    runs: Seq<DataWriteRun>,
    maximum: nat,
    file: Seq<u8>,
)
    requires
        rest.upheld(layout),
        rest.at_rest(),
        moment.upheld(layout),
        moment.start == rest.store.pool,
        moment.store == (StoreModel { pool: moment.store.pool, ..rest.store }),
        runs_cover(runs, moment.writes, maximum),
        file_kept(moment.store.file, runs, file),
    ensures
        serves(layout, moment.with_file(file).store, rest.contents),
{
    let store = moment.with_file(file).store;
    let start = moment.start;
    let pool = moment.store.pool;
    lemma_gathering_is_growth(layout, start, pool, moment.writes);
    law_a_store_at_rest_serves_its_contents(layout, rest);
    assert forall|key: Seq<u8>, value: Seq<u8>| #[trigger] hits(layout, store, key, value) implies agrees(rest.contents, key, value, store.reported(key)) by {
        let location = store.index.visible(store.base, digest_of(key))->0;
        lemma_visible_is_settled(layout, start, moment.store, digest_of(key));
        law_dead_locations_stay_dead(layout, start, pool, location);
        lemma_entry_untouched(layout, moment, runs, maximum, file, start, location);
        assert(hits(layout, rest.store, key, value));
    }
}

/// A store that was just created serves nothing.
pub proof fn law_a_new_store_serves_nothing(layout: PoolLayout, store: StoreModel)
    requires
        layout.wf(),
        store.index.active == Map::<Seq<u8>, Mutation>::empty(),
        store.index.frozen is None,
        store.base == Map::<Seq<u8>, PackedLocation>::empty(),
        store.pool.extents.len() == layout.extent_count,
        forall|i: int| 0 <= i < store.pool.extents.len() ==> (#[trigger] store.pool.extents[i]).used_bytes == 0,
        store.file.len() >= layout.extent_count * layout.extent_size,
    ensures
        fresh(store).upheld(layout),
        fresh(store).at_rest(),
{
    let moment = fresh(store);
    assert forall|i: int| 0 <= i < store.pool.extents.len() implies {
        let state = #[trigger] store.pool.extents[i];
        &&& state.generation == store.pool.extents[i].generation
        &&& store.pool.extents[i].used_bytes <= state.used_bytes <= layout.extent_size
        &&& !touched(moment.writes, 0, i) ==> state.used_bytes == store.pool.extents[i].used_bytes
    } by {}
    assert(gathers(layout, store.pool, store.pool, moment.writes));
}

/// What a lookup returns is the value that was last inserted under the key, as far as its
/// length and its digest tell, with the priority that it was last inserted with; never a
/// stale one, a removed one or that of another key. `read` is what a finished read of the
/// visible location hands out, and `result` what is decoded from that.
pub proof fn law_a_hit_is_the_value_last_inserted(
    layout: PoolLayout,
    store: StoreModel,
    contents: Map<Seq<u8>, Content>,
    key: Seq<u8>,
    location: PackedLocation,
    plan: EntryReadPlan,
    run_size: nat,
    direct: bool,
    read: StoredEntryRead,
    result: StoredEntryRead,
    got: GetResult,
)
    requires
        serves(layout, store, contents),
        layout.wf(),
        store.file.len() >= layout.extent_count * layout.extent_size,
        store.index.visible(store.base, digest_of(key)) == Some(location),
        is_live(store.pool, layout, location),
        reads_range(plan.runs@, location.data_offset as nat, location.stored_len as nat, run_size, direct),
        read_finishes(
            store.pool,
            location,
            plan,
            bytes_found(store.file, plan.runs@, plan.runs@.len() as int),
            read,
        ),
        entry_decodes(key, read, result),
        hands_out(location, result, got),
    ensures
        got.value matches Some(value) ==> got.priority is Some && agrees(contents, key, value@, got.priority->0),
        got.value is None ==> got.priority is None,
{
    if result.value is Some {
        let (extent, offset) = choose|extent: nat, offset: nat|
            {
                &&& #[trigger] in_range(layout, location, extent, offset)
                &&& store.pool.extents[extent as int].generation == location.extent_generation
                &&& store.pool.extents[extent as int].used_bytes >= offset + location.stored_len
            };
        let count = layout.extent_count as int;
        let size = layout.extent_size as int;
        assert(extent * size + size <= count * size) by (nonlinear_arith)
            requires
                extent + 1 <= count,
                size > 0,
        ;
        let start = location.data_offset as nat;
        let end = location.data_offset + location.stored_len;
        lemma_bytes_found(store.file, plan.runs@, start, run_size, direct, plan.runs@.len() as int);
        let bytes = store.file.subrange(start as int, end);
        assert(read.value->0@ == bytes);
        let value = choose|value: Seq<u8>| #[trigger]
            stored_value(bytes, value) && content_digest(value) == location.content_digest;
        let other = choose|other: Seq<u8>| #[trigger]
            is_stored_entry(bytes, other, value) && other.len() <= MAX_KEY_SIZE && value.len() > 0;
        law_stored_entry_is_unambiguous(bytes, other, value, key, result.value->0@);
        assert(hits(layout, store, key, result.value->0@));
    }
}

} // verus!
