//! The course of batches and of the whole store, in terms of what is served.
//!
//! A batch of inserts moves from one moment of the store to another; the laws on it say
//! that each of its decisions keeps what the store serves. A history is any sequence of
//! steps of the store, and whatever it was, a hit is what was last inserted.

use vstd::prelude::*;

use crate::error::Error;
use crate::format::{content_digest, stored_len};
use crate::model::{digest_of, CachePriority, KeyDigest};
use crate::store::batch::{runs_cover, DataWriteRun, EntryWrite};
use crate::store::engine::{
    holds_already, is_pending, last_pending, none_pending, BatchAction, InsertBatch, PendingInsert,
};
use crate::store::history::{
    agrees, all_honest, all_known, are_digests, behind, file_kept, file_written, fresh, hits, indexes, last_write,
    law_a_batch_leaves_earlier_views_alone, law_a_compacted_base_serves_the_same, law_a_grown_pool_serves_no_more,
    law_a_new_store_serves_nothing, law_a_persisted_checkpoint_serves_the_same,
    law_a_prepared_checkpoint_serves_the_same, law_a_published_batch_hits, law_a_published_batch_is_served,
    law_a_released_extent_serves_no_more, law_a_store_at_rest_serves_its_contents,
    law_an_aborted_checkpoint_serves_the_same, law_an_allocated_insert_is_served,
    law_an_insert_held_by_a_location_is_served, law_an_insert_held_by_a_write_is_served,
    law_broken_off_writes_serve_the_same, law_pointers_and_cursors_serve_the_same,
    law_removed_keys_are_not_served, law_sealing_leaves_the_pool_at_rest, lemma_allocation_place, lemma_reopened,
    rested, run_images, serves, unwritten, Content, Moment, StoreModel,
};
use crate::store::index::{
    honest, law_aborting_a_checkpoint_keeps_every_lookup, law_persisting_a_checkpoint_keeps_every_live_lookup,
    law_preparing_a_checkpoint_keeps_every_lookup, law_removed_key_is_not_visible, EntryIndexMemoryLookup, IndexModel,
};
use crate::store::operation::{EntryInsert, InsertOutcome};
use crate::store::overlay::Mutation;
use crate::store::pool::{
    allocates, law_allocations_continue_the_used_bytes, AllocationResult, ExtentPool, PackedLocation, PackedModel,
    PoolLayout,
};
use crate::store::read::{in_range, is_live};
use crate::store::reclaim::{steps, AllocationStep};

verus! {

/// The contents once the first `n` inserts have their outcomes: a rejected one changes
/// nothing, and every other takes its key.
pub open spec fn contents_after(
    contents: Map<Seq<u8>, Content>,
    inserts: Seq<EntryInsert>,
    outcomes: Seq<Option<InsertOutcome>>,
    n: nat,
) -> Map<Seq<u8>, Content>
    decreases n,
{
    if n == 0 {
        contents
    } else {
        let earlier = contents_after(contents, inserts, outcomes, (n - 1) as nat);
        if outcomes[n - 1] == Some(InsertOutcome::Rejected) {
            earlier
        } else {
            earlier.insert(
                inserts[n - 1].key@,
                Content { value: inserts[n - 1].value@, priority: inserts[n - 1].priority },
            )
        }
    }
}

/// The writes of pending entries.
pub open spec fn pending_writes<'a>(pending: Seq<PendingInsert<'a>>) -> Seq<EntryWrite<'a>> {
    Seq::new(pending.len(), |k: int| pending[k].write())
}

/// The store in the midst of a batch that began with `contents`.
pub open spec fn batch_moment<'a>(
    batch: InsertBatch<'a>,
    store: StoreModel,
    start: PackedModel,
    contents: Map<Seq<u8>, Content>,
) -> Moment<'a> {
    Moment {
        store,
        start,
        writes: pending_writes(batch.pending@),
        contents: contents_after(contents, batch.inserts@, batch.outcomes@, batch.input_index as nat),
    }
}

/// Only which of the first outcomes are rejections matters.
proof fn lemma_same_contents(
    contents: Map<Seq<u8>, Content>,
    inserts: Seq<EntryInsert>,
    before: Seq<Option<InsertOutcome>>,
    after: Seq<Option<InsertOutcome>>,
    n: nat,
)
    requires
        forall|i: int|
            0 <= i < n ==> ((#[trigger] before[i]) == Some(InsertOutcome::Rejected) <==> after[i] == Some(
                InsertOutcome::Rejected,
            )),
    ensures
        contents_after(contents, inserts, before, n) == contents_after(contents, inserts, after, n),
    decreases n,
{
    if n > 0 {
        lemma_same_contents(contents, inserts, before, after, (n - 1) as nat);
        assert(before[n - 1] == before[n - 1]);
    }
}

/// Settling the insert at the position adds it to the contents, unless it is rejected.
proof fn lemma_settled_contents<'a>(
    before: InsertBatch<'a>,
    after: InsertBatch<'a>,
    outcome: InsertOutcome,
    contents: Map<Seq<u8>, Content>,
)
    requires
        before.wf(),
        before.input_index < before.inserts@.len(),
        after.settled(before, outcome),
    ensures
        contents_after(contents, after.inserts@, after.outcomes@, after.input_index as nat) == ({
            let earlier = contents_after(contents, before.inserts@, before.outcomes@, before.input_index as nat);
            if outcome == InsertOutcome::Rejected {
                earlier
            } else {
                earlier.insert(
                    before.insert().key@,
                    Content { value: before.insert().value@, priority: before.insert().priority },
                )
            }
        }),
{
    lemma_same_contents(
        contents,
        before.inserts@,
        before.outcomes@,
        after.outcomes@,
        before.input_index as nat,
    );
}

/// A store at rest is the first moment of any batch.
pub proof fn law_a_batch_begins_with_what_is_served<'a, 'b>(
    layout: PoolLayout,
    moment: Moment<'b>,
    batch: InsertBatch<'a>,
)
    requires
        moment.upheld(layout),
        moment.at_rest(),
        batch.input_index == 0,
        batch.pending@.len() == 0,
    ensures
        batch_moment(batch, moment.store, moment.store.pool, moment.contents).upheld(layout),
{
    let first = batch_moment(batch, moment.store, moment.store.pool, moment.contents);
    law_a_store_at_rest_serves_its_contents(layout, moment);
    let rest = Moment { start: moment.store.pool, ..moment };
    assert(rest.upheld(layout));
    assert(first.upheld(layout)) by {
        assert forall|key: Seq<u8>, value: Seq<u8>| #[trigger] hits(layout, first.store, key, value) implies agrees(first.contents, key, value, first.store.reported(key)) by {
            assert(unwritten(rest.writes, digest_of(key)));
        }
        assert forall|i: int| 0 <= i < first.store.pool.extents.len() implies (
        #[trigger] first.store.pool.extents[i]).used_bytes <= layout.extent_size by {}
    }
}

proof fn lemma_none_pending<'a>(batch: InsertBatch<'a>, digest: Seq<u8>)
    requires
        batch.wf(),
    ensures
        none_pending(batch.pending@, digest) ==> unwritten(pending_writes(batch.pending@), digest),
        forall|k: int| #[trigger]
            last_pending(batch.pending@, digest, k) ==> last_write(pending_writes(batch.pending@), k) && digest_of(
                batch.pending@[k].key@,
            ) == digest,
{
    let writes = pending_writes(batch.pending@);
    assert forall|j: int| 0 <= j < writes.len() implies digest_of((#[trigger] writes[j]).key@)
        == batch.pending@[j].key_digest@ by {
        assert(batch.pending_ok(j));
    }
    assert forall|k: int| #[trigger] last_pending(batch.pending@, digest, k) implies last_write(writes, k)
        && digest_of(batch.pending@[k].key@) == digest by {
        assert(writes[k] == batch.pending@[k].write());
        assert forall|j: int| k < j < writes.len() implies digest_of((#[trigger] writes[j]).key@) != digest_of(
            writes[k].key@,
        ) by {
            assert(batch.pending@[j].key_digest@ != digest);
        }
    }
}

/// What the index says of the insert at the position keeps what is served: an insert that
/// is settled by it is served from where it was.
pub proof fn law_an_answered_insert_is_served<'a>(
    layout: PoolLayout,
    store: StoreModel,
    start: PackedModel,
    contents: Map<Seq<u8>, Content>,
    before: InsertBatch<'a>,
    after: InsertBatch<'a>,
    pool: ExtentPool,
    lookup: EntryIndexMemoryLookup,
    action: BatchAction,
)
    requires
        before.wf(),
        before.input_index < before.inserts@.len(),
        none_pending(before.pending@, digest_of(before.insert().key@)),
        lookup matches EntryIndexMemoryLookup::Location(location) ==> store.index.visible(
            store.base,
            digest_of(before.insert().key@),
        ) == Some(location),
        before.answered(after, pool, lookup, action),
        batch_moment(before, store, start, contents).upheld(layout),
    ensures
        batch_moment(after, store, start, contents).upheld(layout),
{
    if after != before {
        let insert = before.insert();
        let moment = batch_moment(before, store, start, contents);
        lemma_none_pending(before, digest_of(insert.key@));
        lemma_settled_contents(before, after, InsertOutcome::Updated, contents);
        let location = lookup->Location_0;
        law_an_insert_held_by_a_location_is_served(layout, moment, insert, location);
        assert(batch_moment(after, store, start, contents) == moment.told(insert.key@, insert.value@, insert.priority));
    }
}

/// What a batch does next keeps what is served.
pub proof fn law_a_batch_proceeds_with_what_is_served<'a>(
    layout: PoolLayout,
    store: StoreModel,
    start: PackedModel,
    contents: Map<Seq<u8>, Content>,
    before: InsertBatch<'a>,
    after: InsertBatch<'a>,
    pool: ExtentPool,
    action: BatchAction,
)
    requires
        before.wf(),
        before.proceeds(after, store.index, pool, action),
        batch_moment(before, store, start, contents).upheld(layout),
    ensures
        batch_moment(after, store, start, contents).upheld(layout),
{
    if before.input_index < before.inserts@.len() {
        let insert = before.insert();
        let digest = digest_of(insert.key@);
        let moment = batch_moment(before, store, start, contents);
        lemma_none_pending(before, digest);
        if none_pending(before.pending@, digest) {
            assert forall|k: int| !#[trigger] last_pending(before.pending@, digest, k) by {
                if 0 <= k < before.pending@.len() {
                    assert(before.pending@[k].key_digest@ != digest);
                }
            }
            if let Some(mutation) = store.index.mutation(digest) {
                let lookup = match mutation.location {
                    Some(location) => EntryIndexMemoryLookup::Location(location),
                    None => EntryIndexMemoryLookup::Miss,
                };
                law_an_answered_insert_is_served(
                    layout,
                    store,
                    start,
                    contents,
                    before,
                    after,
                    pool,
                    lookup,
                    action,
                );
            }
        } else if after != before {
            let k = choose|k: int|
                #[trigger] last_pending(before.pending@, digest, k) && holds_already(
                    before.pending@[k].location(),
                    insert,
                ) && before.pending@[k].key@ == insert.key@ && after.settled(before, InsertOutcome::Updated);
            lemma_settled_contents(before, after, InsertOutcome::Updated, contents);
            assert(moment.writes[k] == before.pending@[k].write());
            law_an_insert_held_by_a_write_is_served(layout, moment, insert, k);
            assert(batch_moment(after, store, start, contents) == moment.told(insert.key@, insert.value@, insert.priority));
        }
    }
}

/// An attempt to find bytes keeps what is served: an entry that gets them counts as
/// served once it is published, and one that gets none changes nothing.
pub proof fn law_an_attempt_keeps_what_is_served<'a>(
    layout: PoolLayout,
    store: StoreModel,
    start: PackedModel,
    contents: Map<Seq<u8>, Content>,
    before: InsertBatch<'a>,
    after: InsertBatch<'a>,
    pool: PackedModel,
    floors: Seq<u32>,
    step: Result<AllocationStep, Error>,
    result: Result<BatchAction, Error>,
)
    requires
        before.wf(),
        after.wf(),
        before.input_index < before.inserts@.len(),
        store.pool.consistent(layout),
        steps(
            store.pool,
            pool,
            layout,
            before.insert().priority,
            stored_len(before.insert().key@.len(), before.insert().value@.len())->0 as usize,
            before.pending@.len() > 0,
            floors,
            step,
        ),
        before.follows(after, step, result),
        batch_moment(before, store, start, contents).upheld(layout),
    ensures
        batch_moment(after, StoreModel { pool, ..store }, start, contents).upheld(layout),
{
    let insert = before.insert();
    let moment = batch_moment(before, store, start, contents);
    let later = StoreModel { pool, ..store };
    assert(before.inserts@[before.input_index as int] == insert);
    let len = stored_len(insert.key@.len(), insert.value@.len())->0 as usize;
    if let Ok(AllocationStep::Allocated(allocation)) = step {
        let entry = after.pending@.last();
        let n = before.pending@.len();
        assert(after.pending_ok(n as int));
        law_an_allocated_insert_is_served(layout, moment, entry.write(), insert.priority, len, pool);
        assert(pending_writes(after.pending@) =~= moment.writes.push(entry.write()));
        assert(after.outcomes@[before.input_index as int] is None) by {
            assert(before.outcomes@[before.input_index as int] is Some <==> false);
        }
    } else {
        law_pointers_and_cursors_serve_the_same(layout, moment, pool);
        if let Ok(AllocationStep::Rejected) = step {
            lemma_settled_contents(before, after, InsertOutcome::Rejected, contents);
        }
    }
}

/// A batch whose pending entries are published serves what its outcomes say, with nothing
/// pending.
pub proof fn law_published_entries_are_served<'a>(
    layout: PoolLayout,
    store: StoreModel,
    start: PackedModel,
    contents: Map<Seq<u8>, Content>,
    before: InsertBatch<'a>,
    after: InsertBatch<'a>,
    runs: Seq<DataWriteRun>,
    maximum: nat,
    images: Seq<Seq<u8>>,
    file: Seq<u8>,
    locations: Seq<PackedLocation>,
    said: Seq<EntryIndexMemoryLookup>,
)
    requires
        before.wf(),
        batch_moment(before, store, start, contents).upheld(layout),
        run_images(runs, pending_writes(before.pending@), maximum, images),
        file_written(store.file, runs, images, file),
        locations == Seq::new(before.pending@.len(), |k: int| before.pending@[k].location()),
        all_honest(store.base, before.located(locations), said),
        after.inserts == before.inserts,
        after.input_index == before.input_index,
        after.pending@.len() == 0,
        forall|k: int|
            0 <= k < before.pending@.len() ==> after.outcomes@[(
            #[trigger] before.pending@[k]).input_index as int] == Some(
                store.index.batch_inserted(before.located(locations), said, k as nat).insert_outcome(
                    before.located(locations)[k].0@,
                    said[k],
                ),
            ),
        forall|i: int|
            0 <= i < before.outcomes@.len() && !is_pending(before.pending@, i) ==> #[trigger] after.outcomes@[i]
                == before.outcomes@[i],
    ensures
        ({
            let published = batch_moment(before, store, start, contents).published(
                layout,
                before.located(locations),
                said,
                file,
            );
            let last = batch_moment(after, published.store, published.start, contents);
            &&& last.upheld(layout)
            &&& last.at_rest()
            &&& serves(layout, last.store, last.contents)
        }),
{
    let moment = batch_moment(before, store, start, contents);
    let inserts = before.located(locations);
    let published = moment.published(layout, inserts, said, file);
    let last = batch_moment(after, published.store, published.start, contents);
    assert(indexes(inserts, moment.writes)) by {
        assert forall|k: int| 0 <= k < moment.writes.len() implies (#[trigger] inserts[k]).0@ == digest_of(
            moment.writes[k].key@,
        ) && inserts[k].1 == moment.writes[k].location() by {
            assert(before.pending_ok(k));
        }
    }
    law_a_published_batch_is_served(layout, moment, runs, maximum, images, file, inserts, said);
    assert forall|i: int| 0 <= i < before.input_index implies ((#[trigger] before.outcomes@[i]) == Some(
        InsertOutcome::Rejected,
    ) <==> after.outcomes@[i] == Some(InsertOutcome::Rejected)) by {
        assert(before.outcomes@[i] is Some <==> !is_pending(before.pending@, i));
        if is_pending(before.pending@, i) {
            let k = choose|k: int| 0 <= k < before.pending@.len() && (#[trigger] before.pending@[k]).input_index == i;
            assert(before.pending@[k].input_index == i);
        } else {
            assert(after.outcomes@[i] == before.outcomes@[i]);
        }
    }
    lemma_same_contents(contents, before.inserts@, before.outcomes@, after.outcomes@, before.input_index as nat);
    assert(last.writes =~= Seq::empty());
    assert(last == published);
    law_a_store_at_rest_serves_its_contents(layout, last);
}

/// A store with what it would be after a crash. `live` is the store at work, `durable` what
/// opening it again would find, and `captured` the checkpoint that was prepared and is
/// neither written nor taken back.
pub struct Chronicle<'a> {
    pub live: Moment<'a>,
    pub durable: Moment<'a>,
    pub captured: Option<Moment<'a>>,
}

/// `view` serves its contents over the file and the base of the store at work, from bytes
/// that no pending entry got.
pub open spec fn views(layout: PoolLayout, view: Moment, live: Moment) -> bool {
    &&& view.upheld(layout)
    &&& view.at_rest()
    &&& view.store.file == live.store.file
    &&& view.store.base == live.store.base
    &&& behind(view.store.pool, live.start)
}

impl<'a> Chronicle<'a> {
    /// The store serves its contents, and a crash would leave one that serves the contents
    /// of the last checkpoint.
    pub open spec fn upheld(self, layout: PoolLayout) -> bool {
        &&& self.live.upheld(layout)
        &&& views(layout, self.durable, self.live)
        &&& self.durable.only_base()
        &&& self.captured matches Some(captured) ==> {
            &&& views(layout, captured, self.live)
            &&& captured.store.index.active == Map::<Seq<u8>, Mutation>::empty()
            &&& captured.store.index.frozen is Some
            &&& captured.store.index.frozen == self.live.store.index.frozen
        }
    }

    /// The captured checkpoint over another file, base or pool, if there is one.
    pub open spec fn captured_with_file(self, file: Seq<u8>) -> Option<Moment<'a>> {
        match self.captured {
            Some(captured) => Some(captured.with_file(file)),
            None => None,
        }
    }

    pub open spec fn captured_with_base(self, base: Map<Seq<u8>, PackedLocation>) -> Option<Moment<'a>> {
        match self.captured {
            Some(captured) => Some(captured.with_base(base)),
            None => None,
        }
    }

    pub open spec fn captured_with_pool(self, pool: PackedModel) -> Option<Moment<'a>> {
        match self.captured {
            Some(captured) => Some(captured.with_pool(pool)),
            None => None,
        }
    }
}

/// One step of the store.
pub enum StoreStep<'a> {
    /// An insert finds its contents at the location that is visible for its key.
    Held { insert: EntryInsert<'a>, location: PackedLocation },
    /// An insert finds its contents in a pending entry.
    HeldPending { insert: EntryInsert<'a>, entry: int },
    /// An insert gets bytes.
    Allocated { write: EntryWrite<'a>, priority: CachePriority, len: usize, pool: PackedModel },
    /// Extents become current or cease to be, or the cursor of the state file moves.
    Pointed { pool: PackedModel },
    /// The pending entries are written and go into the index.
    Published {
        runs: Seq<DataWriteRun>,
        maximum: nat,
        images: Seq<Seq<u8>>,
        file: Seq<u8>,
        inserts: Seq<(KeyDigest, PackedLocation)>,
        said: Seq<EntryIndexMemoryLookup>,
    },
    /// The writes of the pending entries break off.
    Torn { runs: Seq<DataWriteRun>, maximum: nat, file: Seq<u8> },
    /// Keys are removed.
    Removed { keys: Seq<Seq<u8>>, digests: Seq<KeyDigest>, said: Seq<EntryIndexMemoryLookup> },
    /// A checkpoint of the index and the pool is prepared.
    Captured { pool: PackedModel },
    /// The image of a pool becomes durable.
    Imaged { pool: PackedModel },
    /// The frozen mutations become durable, with tombstones for what is dead in `filter`.
    Persisted { filter: PackedModel },
    /// The frozen mutations are taken back.
    Aborted,
    /// The base drops records.
    Compacted { base: Map<Seq<u8>, PackedLocation> },
    /// An extent is released, and the image of the pool made durable.
    Released { extent: int },
    /// The store ends, by a close or a crash, and is opened again.
    Reopened { pool: PackedModel, indexed_count: u64 },
}

/// The step can follow.
pub open spec fn can_follow<'a>(layout: PoolLayout, chronicle: Chronicle<'a>, step: StoreStep<'a>) -> bool {
    let live = chronicle.live;
    let store = live.store;
    match step {
        StoreStep::Held { insert, location } => {
            &&& unwritten(live.writes, digest_of(insert.key@))
            &&& store.index.visible(store.base, digest_of(insert.key@)) == Some(location)
            &&& holds_already(location, insert)
        },
        StoreStep::HeldPending { insert, entry } => {
            &&& last_write(live.writes, entry)
            &&& digest_of(live.writes[entry].key@) == digest_of(insert.key@)
            &&& holds_already(live.writes[entry].location(), insert)
        },
        StoreStep::Allocated { write, priority, len, pool } => {
            &&& store.pool.consistent(layout)
            &&& allocates(
                store.pool,
                pool,
                layout,
                priority,
                len,
                Ok(AllocationResult::Allocated(write.allocation)),
            )
            &&& write.size() == Some(len as nat)
            &&& write.value@.len() > 0
            &&& write.content_digest == content_digest(write.value@)
        },
        StoreStep::Pointed { pool } => pool.extents == store.pool.extents,
        StoreStep::Published { runs, maximum, images, file, inserts, said } => {
            &&& run_images(runs, live.writes, maximum, images)
            &&& file_written(store.file, runs, images, file)
            &&& indexes(inserts, live.writes)
            &&& all_honest(store.base, inserts, said)
        },
        StoreStep::Torn { runs, maximum, file } => {
            &&& runs_cover(runs, live.writes, maximum)
            &&& file_kept(store.file, runs, file)
        },
        StoreStep::Removed { keys, digests, said } => {
            &&& live.at_rest()
            &&& are_digests(digests, keys)
            &&& all_known(store.base, digests, said)
        },
        StoreStep::Captured { pool } => {
            &&& live.at_rest()
            &&& store.index.frozen is None
            &&& pool.extents == store.pool.extents
        },
        StoreStep::Imaged { pool } => {
            &&& chronicle.durable.store.pool.grows_into(pool)
            &&& rested(layout, pool)
            &&& behind(pool, live.start)
        },
        StoreStep::Persisted { filter } => chronicle.captured matches Some(captured)
            && captured.store.pool.grows_into(chronicle.durable.store.pool),
        StoreStep::Aborted => store.index.frozen is Some,
        StoreStep::Compacted { base } => base.submap_of(store.base),
        StoreStep::Released { extent } => {
            &&& live.at_rest()
            &&& 0 <= extent < layout.extent_count
            &&& store.pool.extents[extent].generation < u32::MAX
        },
        StoreStep::Reopened { pool, indexed_count } => pool.extents == chronicle.durable.store.pool.extents,
    }
}

/// The store after the step.
pub open spec fn followed<'a>(layout: PoolLayout, chronicle: Chronicle<'a>, step: StoreStep<'a>) -> Chronicle<'a> {
    let live = chronicle.live;
    let durable = chronicle.durable;
    match step {
        StoreStep::Held { insert, location } => Chronicle {
            live: live.told(insert.key@, insert.value@, insert.priority),
            ..chronicle
        },
        StoreStep::HeldPending { insert, entry } => Chronicle {
            live: live.told(insert.key@, insert.value@, insert.priority),
            ..chronicle
        },
        StoreStep::Allocated { write, priority, len, pool } => Chronicle {
            live: live.joined(write, pool),
            ..chronicle
        },
        StoreStep::Pointed { pool } => Chronicle {
            live: Moment { store: StoreModel { pool, ..live.store }, ..live },
            ..chronicle
        },
        StoreStep::Published { runs, maximum, images, file, inserts, said } => Chronicle {
            live: live.published(layout, inserts, said, file),
            durable: durable.with_file(file),
            captured: chronicle.captured_with_file(file),
        },
        StoreStep::Torn { runs, maximum, file } => Chronicle {
            live: live.with_file(file),
            durable: durable.with_file(file),
            captured: chronicle.captured_with_file(file),
        },
        StoreStep::Removed { keys, digests, said } => Chronicle {
            live: live.removed(keys, digests, said, keys.len()),
            ..chronicle
        },
        StoreStep::Captured { pool } => Chronicle {
            live: live.prepared(),
            captured: Some(live.prepared().with_pool(pool)),
            ..chronicle
        },
        StoreStep::Imaged { pool } => Chronicle { durable: durable.with_pool(pool), ..chronicle },
        StoreStep::Persisted { filter } => Chronicle {
            live: live.persisted(layout, filter),
            durable: chronicle.captured->0.with_pool(durable.store.pool).persisted(layout, filter),
            captured: None,
        },
        StoreStep::Aborted => Chronicle { live: live.aborted(), captured: None, ..chronicle },
        StoreStep::Compacted { base } => Chronicle {
            live: live.with_base(base),
            durable: durable.with_base(base),
            captured: chronicle.captured_with_base(base),
        },
        StoreStep::Released { extent } => {
            let pool = live.store.pool.extent_reset(extent);
            Chronicle {
                live: live.released(extent),
                durable: durable.with_pool(pool),
                captured: chronicle.captured_with_pool(pool),
            }
        },
        StoreStep::Reopened { pool, indexed_count } => Chronicle {
            live: durable.reopened(pool, indexed_count),
            durable: durable.reopened(pool, indexed_count),
            captured: None,
        },
    }
}

/// A view stays one while the pending entries of the store at work are published.
proof fn lemma_view_of_published<'a>(
    layout: PoolLayout,
    live: Moment<'a>,
    view: Moment<'a>,
    runs: Seq<DataWriteRun>,
    maximum: nat,
    images: Seq<Seq<u8>>,
    file: Seq<u8>,
    inserts: Seq<(KeyDigest, PackedLocation)>,
    said: Seq<EntryIndexMemoryLookup>,
)
    requires
        live.upheld(layout),
        views(layout, view, live),
        run_images(runs, live.writes, maximum, images),
        file_written(live.store.file, runs, images, file),
    ensures
        views(layout, view.with_file(file), live.published(layout, inserts, said, file)),
{
    law_a_batch_leaves_earlier_views_alone(layout, live, view, runs, maximum, file);
    law_sealing_leaves_the_pool_at_rest(layout, live);
    let sealed = live.published(layout, inserts, said, file).start;
    assert forall|i: int| 0 <= i < view.store.pool.extents.len() implies {
        let state = #[trigger] view.store.pool.extents[i];
        &&& state.generation == sealed.extents[i].generation
        &&& state.used_bytes <= sealed.extents[i].used_bytes
    } by {
        assert(live.store.pool.extents[i] == live.store.pool.extents[i]);
        assert(sealed.extents[i] == sealed.extents[i]);
    }
}

/// A view takes over the pool of a release.
proof fn lemma_view_of_released<'a>(layout: PoolLayout, live: Moment<'a>, view: Moment<'a>, extent: int)
    requires
        live.upheld(layout),
        live.at_rest(),
        views(layout, view, live),
        0 <= extent < layout.extent_count,
        live.store.pool.extents[extent].generation < u32::MAX,
    ensures
        views(layout, view.with_pool(live.store.pool.extent_reset(extent)), live.released(extent)),
{
    let pool = live.store.pool;
    let later = pool.extent_reset(extent);
    law_a_released_extent_serves_no_more(layout, live, extent);
    assert forall|i: int| 0 <= i < view.store.pool.extents.len() implies {
        let before = #[trigger] view.store.pool.extents[i];
        let after = later.extents[i];
        ||| before.generation < after.generation
        ||| before.generation == after.generation && before.used_bytes <= after.used_bytes
    } by {
        assert(pool.extents[i] == pool.extents[i]);
    }
    law_a_grown_pool_serves_no_more(layout, view, later);
}

/// Every step keeps what is served, and what a crash would leave.
pub proof fn law_a_step_keeps_what_is_served<'a>(layout: PoolLayout, chronicle: Chronicle<'a>, step: StoreStep<'a>)
    requires
        chronicle.upheld(layout),
        can_follow(layout, chronicle, step),
    ensures
        followed(layout, chronicle, step).upheld(layout),
{
    let live = chronicle.live;
    let durable = chronicle.durable;
    match step {
        StoreStep::Held { insert, location } => {
            law_an_insert_held_by_a_location_is_served(layout, live, insert, location);
        },
        StoreStep::HeldPending { insert, entry } => {
            law_an_insert_held_by_a_write_is_served(layout, live, insert, entry);
        },
        StoreStep::Allocated { write, priority, len, pool } => {
            law_an_allocated_insert_is_served(layout, live, write, priority, len, pool);
        },
        StoreStep::Pointed { pool } => {
            law_pointers_and_cursors_serve_the_same(layout, live, pool);
        },
        StoreStep::Published { runs, maximum, images, file, inserts, said } => {
            law_a_published_batch_is_served(layout, live, runs, maximum, images, file, inserts, said);
            lemma_batch_keeps_frozen(live.store.index, inserts, said, live.writes.len());
            lemma_view_of_published(layout, live, durable, runs, maximum, images, file, inserts, said);
            if let Some(captured) = chronicle.captured {
                lemma_view_of_published(layout, live, captured, runs, maximum, images, file, inserts, said);
            }
        },
        StoreStep::Torn { runs, maximum, file } => {
            law_broken_off_writes_serve_the_same(layout, live, runs, maximum, file);
            law_a_batch_leaves_earlier_views_alone(layout, live, durable, runs, maximum, file);
            if let Some(captured) = chronicle.captured {
                law_a_batch_leaves_earlier_views_alone(layout, live, captured, runs, maximum, file);
            }
        },
        StoreStep::Removed { keys, digests, said } => {
            law_removed_keys_are_not_served(layout, live, keys, digests, said, keys.len());
            lemma_removal_keeps_frozen(live.store.index, digests, said, keys.len());
        },
        StoreStep::Captured { pool } => {
            law_a_prepared_checkpoint_serves_the_same(layout, live);
            let prepared = live.prepared();
            law_pointers_and_cursors_serve_the_same(layout, prepared, pool);
            let same = Moment { store: StoreModel { pool, ..prepared.store }, ..prepared };
            law_a_store_at_rest_serves_its_contents(layout, same);
            assert forall|i: int| 0 <= i < pool.extents.len() implies {
                let state = #[trigger] pool.extents[i];
                &&& state.generation == live.start.extents[i].generation
                &&& state.used_bytes <= live.start.extents[i].used_bytes
            } by {
                assert(live.store.pool.extents[i] == pool.extents[i]);
            }
        },
        StoreStep::Imaged { pool } => {
            law_a_grown_pool_serves_no_more(layout, durable, pool);
        },
        StoreStep::Persisted { filter } => {
            let captured = chronicle.captured->0;
            law_a_persisted_checkpoint_serves_the_same(layout, live, filter);
            law_a_store_at_rest_serves_its_contents(layout, durable);
            law_a_grown_pool_serves_no_more(layout, captured, durable.store.pool);
            law_a_persisted_checkpoint_serves_the_same(layout, captured.with_pool(durable.store.pool), filter);
        },
        StoreStep::Aborted => {
            law_an_aborted_checkpoint_serves_the_same(layout, live);
        },
        StoreStep::Compacted { base } => {
            law_a_compacted_base_serves_the_same(layout, live, base);
            law_a_compacted_base_serves_the_same(layout, durable, base);
            if let Some(captured) = chronicle.captured {
                law_a_compacted_base_serves_the_same(layout, captured, base);
            }
        },
        StoreStep::Released { extent } => {
            law_a_released_extent_serves_no_more(layout, live, extent);
            lemma_view_of_released(layout, live, durable, extent);
            if let Some(captured) = chronicle.captured {
                lemma_view_of_released(layout, live, captured, extent);
            }
        },
        StoreStep::Reopened { pool, indexed_count } => {
            lemma_reopened(layout, durable, pool, indexed_count);
        },
    }
}

/// The step leaves what is found under the key alone: it neither publishes nor removes the
/// key, nor gives up the record or the extent that it is found by.
pub open spec fn spares<'a>(
    layout: PoolLayout,
    chronicle: Chronicle<'a>,
    step: StoreStep<'a>,
    key: Seq<u8>,
    value: Seq<u8>,
) -> bool {
    let live = chronicle.live;
    let store = live.store;
    let digest = digest_of(key);
    let location = store.index.visible(store.base, digest)->0;
    match step {
        StoreStep::Published { runs, maximum, images, file, inserts, said } => unwritten(live.writes, digest),
        StoreStep::Removed { keys, digests, said } => forall|k: int|
            0 <= k < digests.len() ==> (#[trigger] digests[k])@ != digest,
        StoreStep::Persisted { filter } => is_live(filter, layout, location),
        StoreStep::Compacted { base } => store.base.contains_key(digest) ==> base.contains_key(digest),
        StoreStep::Released { extent } => forall|offset: nat|
            !#[trigger] in_range(layout, location, extent as nat, offset),
        StoreStep::Reopened { pool, indexed_count } => hits(layout, chronicle.durable.store, key, value),
        _ => true,
    }
}

/// What is found under a key is found until the key is inserted again or removed, or its
/// extent released.
pub proof fn law_what_is_found_stays_found<'a>(
    layout: PoolLayout,
    chronicle: Chronicle<'a>,
    step: StoreStep<'a>,
    key: Seq<u8>,
    value: Seq<u8>,
)
    requires
        chronicle.upheld(layout),
        can_follow(layout, chronicle, step),
        hits(layout, chronicle.live.store, key, value),
        spares(layout, chronicle, step, key, value),
    ensures
        hits(layout, followed(layout, chronicle, step).live.store, key, value),
{
    let live = chronicle.live;
    let store = live.store;
    let digest = digest_of(key);
    let later = followed(layout, chronicle, step).live.store;
    match step {
        StoreStep::Published { runs, maximum, images, file, inserts, said } => {
            law_a_published_batch_hits(layout, live, runs, maximum, images, file, inserts, said);
        },
        StoreStep::Torn { runs, maximum, file } => {
            law_broken_off_writes_serve_the_same(layout, live, runs, maximum, file);
        },
        StoreStep::Removed { keys, digests, said } => {
            lemma_removal_keeps_others(store.index, store.base, digests, said, keys.len(), digest);
        },
        StoreStep::Captured { pool } => {
            law_preparing_a_checkpoint_keeps_every_lookup(store.index, store.base, digest);
        },
        StoreStep::Persisted { filter } => {
            law_persisting_a_checkpoint_keeps_every_live_lookup(
                store.index,
                store.index.frozen->0,
                store.base,
                filter,
                layout,
                digest,
            );
        },
        StoreStep::Aborted => {
            law_aborting_a_checkpoint_keeps_every_lookup(
                store.index,
                store.index.frozen->0,
                store.base,
                digest,
            );
        },
        StoreStep::Compacted { base } => {
            assert(base.dom().contains(digest) ==> store.base.dom().contains(digest));
        },
        StoreStep::Allocated { write, priority, len, pool } => {
            lemma_allocation_place(store.pool, pool, layout, priority, len, write.allocation);
            law_allocations_continue_the_used_bytes(store.pool, pool, layout, priority, len, write.allocation);
            lemma_still_live(layout, store.pool, pool, store.index.visible(store.base, digest)->0);
        },
        StoreStep::Released { extent } => {
            let location = store.index.visible(store.base, digest)->0;
            assert forall|other: nat, offset: nat| #[trigger]
                in_range(layout, location, other, offset) implies later.pool.extents[other as int]
                == store.pool.extents[other as int] by {
                if other == extent {
                    assert(in_range(layout, location, extent as nat, offset));
                }
                assert(store.pool.extents.len() == layout.extent_count);
            }
            lemma_still_live(layout, store.pool, later.pool, store.index.visible(store.base, digest)->0);
        },
        StoreStep::Pointed { pool } => {
            lemma_still_live(layout, store.pool, pool, store.index.visible(store.base, digest)->0);
        },
        StoreStep::Reopened { pool, indexed_count } => {
            let durable = chronicle.durable.store;
            lemma_still_live(layout, durable.pool, pool, durable.index.visible(durable.base, digest)->0);
        },
        _ => {},
    }
}

/// A live location stays live where its extent keeps its generation and its bytes.
proof fn lemma_still_live(layout: PoolLayout, before: PackedModel, after: PackedModel, location: PackedLocation)
    requires
        is_live(before, layout, location),
        forall|extent: nat, offset: nat| #[trigger]
            in_range(layout, location, extent, offset) ==> after.extents[extent as int].generation
                == before.extents[extent as int].generation && after.extents[extent as int].used_bytes
                >= before.extents[extent as int].used_bytes,
    ensures
        is_live(after, layout, location),
{
    let (extent, offset) = choose|extent: nat, offset: nat|
        {
            &&& #[trigger] in_range(layout, location, extent, offset)
            &&& before.extents[extent as int].generation == location.extent_generation
            &&& before.extents[extent as int].used_bytes >= offset + location.stored_len
        };
    assert(in_range(layout, location, extent, offset));
}

proof fn lemma_removal_keeps_others(
    index: IndexModel,
    base: Map<Seq<u8>, PackedLocation>,
    digests: Seq<KeyDigest>,
    said: Seq<EntryIndexMemoryLookup>,
    n: nat,
    digest: Seq<u8>,
)
    requires
        n <= digests.len(),
        all_known(base, digests, said),
        forall|k: int| 0 <= k < digests.len() ==> (#[trigger] digests[k])@ != digest,
    ensures
        index.batch_removed(digests, said, n).visible(base, digest) == index.visible(base, digest),
    decreases n,
{
    if n > 0 {
        let m = (n - 1) as nat;
        lemma_removal_keeps_others(index, base, digests, said, m, digest);
        assert(honest(base, digests[m as int]@, said[m as int]));
        law_removed_key_is_not_visible(
            index.batch_removed(digests, said, m),
            base,
            digests[m as int]@,
            said[m as int],
            digest,
        );
    }
}

proof fn lemma_batch_keeps_frozen(
    index: IndexModel,
    inserts: Seq<(KeyDigest, PackedLocation)>,
    said: Seq<EntryIndexMemoryLookup>,
    n: nat,
)
    ensures
        index.batch_inserted(inserts, said, n).frozen == index.frozen,
    decreases n,
{
    if n > 0 {
        lemma_batch_keeps_frozen(index, inserts, said, (n - 1) as nat);
    }
}

proof fn lemma_removal_keeps_frozen(
    index: IndexModel,
    digests: Seq<KeyDigest>,
    said: Seq<EntryIndexMemoryLookup>,
    n: nat,
)
    ensures
        index.batch_removed(digests, said, n).frozen == index.frozen,
    decreases n,
{
    if n > 0 {
        lemma_removal_keeps_frozen(index, digests, said, (n - 1) as nat);
    }
}

/// The store after the steps.
pub open spec fn after<'a>(layout: PoolLayout, first: Chronicle<'a>, history: Seq<StoreStep<'a>>) -> Chronicle<'a>
    decreases history.len(),
{
    if history.len() == 0 {
        first
    } else {
        followed(layout, after(layout, first, history.drop_last()), history.last())
    }
}

/// Each of the steps can follow those before it.
pub open spec fn possible<'a>(layout: PoolLayout, first: Chronicle<'a>, history: Seq<StoreStep<'a>>) -> bool
    decreases history.len(),
{
    history.len() == 0 || {
        &&& possible(layout, first, history.drop_last())
        &&& can_follow(layout, after(layout, first, history.drop_last()), history.last())
    }
}

/// After any history of inserts, removals, checkpoints, releases, crashes and reopenings a
/// lookup gives back the value that was last inserted under its key, or nothing; and what
/// a crash would leave gives back what was last inserted before the last checkpoint.
pub proof fn law_every_history_is_served<'a>(
    layout: PoolLayout,
    first: Chronicle<'a>,
    history: Seq<StoreStep<'a>>,
)
    requires
        first.upheld(layout),
        possible(layout, first, history),
    ensures
        ({
            let last = after(layout, first, history);
            &&& last.upheld(layout)
            &&& last.live.at_rest() ==> serves(layout, last.live.store, last.live.contents)
            &&& serves(layout, last.durable.store, last.durable.contents)
        }),
    decreases history.len(),
{
    let last = after(layout, first, history);
    if history.len() > 0 {
        let earlier = history.drop_last();
        law_every_history_is_served(layout, first, earlier);
        law_a_step_keeps_what_is_served(layout, after(layout, first, earlier), history.last());
    }
    if last.live.at_rest() {
        law_a_store_at_rest_serves_its_contents(layout, last.live);
    }
    law_a_store_at_rest_serves_its_contents(layout, last.durable);
}

/// A store that was just created is the first of any history.
pub proof fn law_a_history_begins_with_a_new_store(layout: PoolLayout, store: StoreModel)
    requires
        layout.wf(),
        store.index.active == Map::<Seq<u8>, Mutation>::empty(),
        store.index.frozen is None,
        store.base == Map::<Seq<u8>, PackedLocation>::empty(),
        store.pool.extents.len() == layout.extent_count,
        forall|i: int| 0 <= i < store.pool.extents.len() ==> (#[trigger] store.pool.extents[i]).used_bytes == 0,
        store.file.len() >= layout.extent_count * layout.extent_size,
    ensures
        (Chronicle { live: fresh(store), durable: fresh(store), captured: None }).upheld(layout),
{
    law_a_new_store_serves_nothing(layout, store);
}

/// A checkpoint that is captured, imaged and persisted makes the contents of its capture
/// durable: opening the store again gives back what was last inserted before it.
pub proof fn law_a_checkpoint_makes_its_contents_durable<'a>(
    layout: PoolLayout,
    chronicle: Chronicle<'a>,
    pool: PackedModel,
    filter: PackedModel,
    reopened: PackedModel,
    indexed_count: u64,
)
    requires
        chronicle.upheld(layout),
        chronicle.live.at_rest(),
        chronicle.live.store.index.frozen is None,
        pool.extents == chronicle.live.store.pool.extents,
        reopened.extents == pool.extents,
    ensures
        ({
            let history = seq![
                StoreStep::Captured { pool },
                StoreStep::Imaged { pool },
                StoreStep::Persisted { filter },
                StoreStep::Reopened { pool: reopened, indexed_count },
            ];
            let last = after(layout, chronicle, history).live;
            &&& possible(layout, chronicle, history)
            &&& last.contents == chronicle.live.contents
            &&& serves(layout, last.store, chronicle.live.contents)
        }),
{
    let captured = StoreStep::Captured { pool };
    let imaged = StoreStep::Imaged { pool };
    let persisted = StoreStep::Persisted { filter };
    let opened = StoreStep::Reopened { pool: reopened, indexed_count };
    let h0 = Seq::<StoreStep<'a>>::empty();
    let h1 = seq![captured];
    let h2 = seq![captured, imaged];
    let h3 = seq![captured, imaged, persisted];
    let h4 = seq![captured, imaged, persisted, opened];
    assert(h1.drop_last() =~= h0);
    assert(h2.drop_last() =~= h1);
    assert(h3.drop_last() =~= h2);
    assert(h4.drop_last() =~= h3);
    let live = chronicle.live;
    law_a_store_at_rest_serves_its_contents(layout, live);
    let c1 = after(layout, chronicle, h1);
    assert(after(layout, chronicle, h0) == chronicle);
    assert(possible(layout, chronicle, h0));
    assert(can_follow(layout, chronicle, captured));
    assert(possible(layout, chronicle, h1));
    law_every_history_is_served(layout, chronicle, h1);
    assert forall|i: int| 0 <= i < pool.extents.len() implies {
        let state = #[trigger] pool.extents[i];
        &&& state.generation == live.start.extents[i].generation
        &&& state.used_bytes == live.start.extents[i].used_bytes
    } by {
        assert(live.store.pool.extents[i] == pool.extents[i]);
    }
    assert forall|i: int| 0 <= i < chronicle.durable.store.pool.extents.len() implies {
        let before = #[trigger] chronicle.durable.store.pool.extents[i];
        let after = pool.extents[i];
        ||| before.generation < after.generation
        ||| before.generation == after.generation && before.used_bytes <= after.used_bytes
    } by {
        assert(pool.extents[i] == pool.extents[i]);
    }
    assert(rested(layout, pool)) by {
        assert(rested(layout, live.store.pool));
    }
    assert(can_follow(layout, c1, imaged));
    assert(possible(layout, chronicle, h2));
    assert(can_follow(layout, after(layout, chronicle, h2), persisted));
    assert(possible(layout, chronicle, h3));
    assert(possible(layout, chronicle, h4));
    law_every_history_is_served(layout, chronicle, h4);
}

} // verus!
