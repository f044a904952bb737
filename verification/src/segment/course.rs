//! The course of a batch of inserts into the segment store, in terms of what is served.

use vstd::prelude::*;

use crate::model::digest_of;
use crate::segment::batch::{runs_cover, SegmentWrite, SegmentWriteRun};
use crate::segment::engine::{
    holds_already, is_checksum_of, is_pending, last_pending, none_pending, AllocationDecision, BatchAction,
    InsertBatch, PendingInsert,
};
use crate::segment::format::{SegmentLayout, SegmentLocation};
use crate::segment::history::{
    agrees, file_written, hits, last_write, law_a_published_batch_is_served,
    law_a_store_at_rest_serves_its_contents, law_an_allocated_insert_is_served,
    law_an_insert_held_by_a_location_is_served, law_an_insert_held_by_a_write_is_served, serves, slots_given,
    unwritten, SegmentMoment, SegmentStoreModel,
};
use crate::segment::operation::{BlobInsert, InsertOutcome};
use crate::segment::state::AllocatorModel;
use crate::store::history::Content;

verus! {

/// The contents once the first `n` inserts have their outcomes: a rejected one changes
/// nothing, and every other takes its key.
pub open spec fn contents_after(
    contents: Map<Seq<u8>, Content>,
    inserts: Seq<BlobInsert>,
    outcomes: Seq<Option<InsertOutcome>>,
    n: nat,
) -> Map<Seq<u8>, Content>
    decreases n,
{
    if n == 0 {
        contents
    } else {
        let earlier = contents_after(contents, inserts, outcomes, (n - 1) as nat);
        if outcomes[n - 1] == Some(InsertOutcome::Rejected) {
            earlier
        } else {
            earlier.insert(
                inserts[n - 1].key@,
                Content { value: inserts[n - 1].value@, priority: inserts[n - 1].priority },
            )
        }
    }
}

/// The writes of pending entries.
pub open spec fn pending_writes<'a>(pending: Seq<PendingInsert<'a>>) -> Seq<SegmentWrite<'a>> {
    Seq::new(pending.len(), |k: int| pending[k].write())
}

/// The store in the midst of a batch that began with `contents`.
pub open spec fn batch_moment<'a>(
    batch: InsertBatch<'a>,
    store: SegmentStoreModel,
    start: AllocatorModel,
    contents: Map<Seq<u8>, Content>,
) -> SegmentMoment<'a> {
    SegmentMoment {
        store,
        start,
        writes: pending_writes(batch.pending@),
        contents: contents_after(contents, batch.inserts@, batch.outcomes@, batch.input_index as nat),
    }
}

/// Only which of the first outcomes are rejections matters.
proof fn lemma_same_contents(
    contents: Map<Seq<u8>, Content>,
    inserts: Seq<BlobInsert>,
    before: Seq<Option<InsertOutcome>>,
    after: Seq<Option<InsertOutcome>>,
    n: nat,
)
    requires
        forall|i: int|
            0 <= i < n ==> ((#[trigger] before[i]) == Some(InsertOutcome::Rejected) <==> after[i] == Some(
                InsertOutcome::Rejected,
            )),
    ensures
        contents_after(contents, inserts, before, n) == contents_after(contents, inserts, after, n),
    decreases n,
{
    if n > 0 {
        lemma_same_contents(contents, inserts, before, after, (n - 1) as nat);
        assert(before[n - 1] == before[n - 1]);
    }
}

/// Settling the insert at the position adds it to the contents, unless it is rejected.
proof fn lemma_settled_contents<'a>(
    before: InsertBatch<'a>,
    after: InsertBatch<'a>,
    outcome: InsertOutcome,
    contents: Map<Seq<u8>, Content>,
)
    requires
        before.wf(),
        before.input_index < before.inserts@.len(),
        after.settled(before, outcome),
    ensures
        contents_after(contents, after.inserts@, after.outcomes@, after.input_index as nat) == ({
            let earlier = contents_after(contents, before.inserts@, before.outcomes@, before.input_index as nat);
            if outcome == InsertOutcome::Rejected {
                earlier
            } else {
                earlier.insert(
                    before.insert().key@,
                    Content { value: before.insert().value@, priority: before.insert().priority },
                )
            }
        }),
{
    lemma_same_contents(contents, before.inserts@, before.outcomes@, after.outcomes@, before.input_index as nat);
}

proof fn lemma_none_pending<'a>(batch: InsertBatch<'a>, digest: Seq<u8>)
    requires
        batch.wf(),
    ensures
        none_pending(batch.pending@, digest) ==> unwritten(pending_writes(batch.pending@), digest),
        forall|k: int| #[trigger]
            last_pending(batch.pending@, digest, k) ==> last_write(pending_writes(batch.pending@), k) && digest_of(
                batch.pending@[k].key@,
            ) == digest,
{
    let writes = pending_writes(batch.pending@);
    assert forall|j: int| 0 <= j < writes.len() implies digest_of((#[trigger] writes[j]).key@)
        == batch.pending@[j].key_digest@ by {
        assert(batch.pending_ok(j));
    }
    assert forall|k: int| #[trigger] last_pending(batch.pending@, digest, k) implies last_write(writes, k)
        && digest_of(batch.pending@[k].key@) == digest by {
        assert(writes[k] == batch.pending@[k].write());
        assert forall|j: int| k < j < writes.len() implies digest_of((#[trigger] writes[j]).key@) != digest_of(
            writes[k].key@,
        ) by {
            assert(batch.pending@[j].key_digest@ != digest);
        }
    }
}

/// A store at rest is the first moment of any batch.
pub proof fn law_a_batch_begins_with_what_is_served<'a, 'b>(
    layout: SegmentLayout,
    moment: SegmentMoment<'b>,
    batch: InsertBatch<'a>,
)
    requires
        moment.upheld(layout),
        moment.at_rest(),
        batch.input_index == 0,
        batch.pending@.len() == 0,
    ensures
        batch_moment(batch, moment.store, moment.store.pool, moment.contents).upheld(layout),
{
    let first = batch_moment(batch, moment.store, moment.store.pool, moment.contents);
    law_a_store_at_rest_serves_its_contents(layout, moment);
    assert(moment.with_pool(moment.store.pool).upheld(layout));
    assert forall|key: Seq<u8>, value: Seq<u8>| #[trigger] hits(layout, first.store, key, value) implies agrees(first.contents, key, value, first.store.reported(key)) by {
        assert(hits(layout, moment.store, key, value));
    }
}

/// What a batch does next keeps what is served.
pub proof fn law_a_batch_proceeds_with_what_is_served<'a>(
    layout: SegmentLayout,
    store: SegmentStoreModel,
    start: AllocatorModel,
    contents: Map<Seq<u8>, Content>,
    before: InsertBatch<'a>,
    after: InsertBatch<'a>,
    action: BatchAction,
)
    requires
        before.wf(),
        before.proceeds(after, action),
        batch_moment(before, store, start, contents).upheld(layout),
    ensures
        batch_moment(after, store, start, contents).upheld(layout),
{
    if after != before {
        let insert = before.insert();
        let digest = digest_of(insert.key@);
        let moment = batch_moment(before, store, start, contents);
        lemma_none_pending(before, digest);
        let (k, checksum) = choose|k: int, checksum: u32|
            #![trigger last_pending(before.pending@, digest, k), is_checksum_of(checksum, insert.key@, insert.value@)]
            last_pending(before.pending@, digest, k) && is_checksum_of(checksum, insert.key@, insert.value@)
                && holds_already(before.pending@[k].location(), insert, checksum) && after.settled(
                before,
                InsertOutcome::Updated,
            );
        lemma_settled_contents(before, after, InsertOutcome::Updated, contents);
        assert(moment.writes[k] == before.pending@[k].write());
        law_an_insert_held_by_a_write_is_served(layout, moment, insert, checksum, k);
        assert(batch_moment(after, store, start, contents) == moment.told(insert.key@, insert.value@, insert.priority));
    }
}

/// What the index says of the insert at the position keeps what is served.
pub proof fn law_an_answered_insert_is_served<'a>(
    layout: SegmentLayout,
    store: SegmentStoreModel,
    start: AllocatorModel,
    contents: Map<Seq<u8>, Content>,
    before: InsertBatch<'a>,
    after: InsertBatch<'a>,
    found: Option<SegmentLocation>,
    would_admit: bool,
    action: BatchAction,
)
    requires
        before.wf(),
        before.input_index < before.inserts@.len(),
        none_pending(before.pending@, digest_of(before.insert().key@)),
        found matches Some(location) ==> store.index.contains_key(digest_of(before.insert().key@)) && location
            == store.index[digest_of(before.insert().key@)],
        before.answered(after, found, would_admit, action),
        batch_moment(before, store, start, contents).upheld(layout),
    ensures
        batch_moment(after, store, start, contents).upheld(layout),
{
    if after != before {
        let insert = before.insert();
        let moment = batch_moment(before, store, start, contents);
        lemma_none_pending(before, digest_of(insert.key@));
        if let Some(location) = found {
            let checksum = choose|checksum: u32|
                #![trigger is_checksum_of(checksum, insert.key@, insert.value@)]
                is_checksum_of(checksum, insert.key@, insert.value@) && holds_already(location, insert, checksum)
                    && after.settled(before, InsertOutcome::Updated);
            lemma_settled_contents(before, after, InsertOutcome::Updated, contents);
            law_an_insert_held_by_a_location_is_served(layout, moment, insert, checksum);
            assert(batch_moment(after, store, start, contents) == moment.told(insert.key@, insert.value@, insert.priority));
        } else {
            lemma_settled_contents(before, after, InsertOutcome::Rejected, contents);
            assert(batch_moment(after, store, start, contents) == moment);
        }
    }
}

/// What the outcome of an allocation does keeps what is served: an entry that gets slots
/// counts as served once it is published, and one that gets none changes nothing.
pub proof fn law_an_attempt_keeps_what_is_served<'a>(
    layout: SegmentLayout,
    store: SegmentStoreModel,
    start: AllocatorModel,
    contents: Map<Seq<u8>, Content>,
    before: InsertBatch<'a>,
    after: InsertBatch<'a>,
    pool: AllocatorModel,
    decision: AllocationDecision,
    action: BatchAction,
)
    requires
        before.wf(),
        after.wf(),
        before.input_index < before.inserts@.len(),
        before.slot_size == layout.slot_size,
        before.segment_size == layout.segment_size,
        match decision {
            AllocationDecision::Allocated(allocation, _) => slots_given(layout, store.pool, pool, allocation),
            _ => pool == store.pool,
        },
        before.follows(after, decision, action),
        batch_moment(before, store, start, contents).upheld(layout),
    ensures
        batch_moment(after, SegmentStoreModel { pool, ..store }, start, contents).upheld(layout),
{
    let insert = before.insert();
    let moment = batch_moment(before, store, start, contents);
    let later = batch_moment(after, SegmentStoreModel { pool, ..store }, start, contents);
    assert(before.inserts@[before.input_index as int] == insert);
    match decision {
        AllocationDecision::Allocated(allocation, _) => {
            let entry = after.pending@.last();
            let n = before.pending@.len();
            assert(after.pending_ok(n as int));
            law_an_allocated_insert_is_served(layout, moment, entry.write(), pool);
            assert(pending_writes(after.pending@) =~= moment.writes.push(entry.write()));
            assert(after.outcomes@[before.input_index as int] is None) by {
                assert(before.outcomes@[before.input_index as int] is Some <==> false);
            }
            assert(later == moment.joined(entry.write(), pool).told(insert.key@, insert.value@, insert.priority));
        },
        AllocationDecision::FlushRequired(_) => {
            assert(later == moment);
        },
        AllocationDecision::Rejected(_) => {
            lemma_settled_contents(before, after, InsertOutcome::Rejected, contents);
            assert(later == moment);
        },
    }
}

/// A batch whose pending entries are published, and all taken by the index, serves what
/// its outcomes say, with nothing pending.
pub proof fn law_published_entries_are_served<'a>(
    layout: SegmentLayout,
    store: SegmentStoreModel,
    start: AllocatorModel,
    contents: Map<Seq<u8>, Content>,
    before: InsertBatch<'a>,
    after: InsertBatch<'a>,
    runs: Seq<SegmentWriteRun>,
    maximum: nat,
    images: Seq<Seq<u8>>,
    file: Seq<u8>,
)
    requires
        before.wf(),
        batch_moment(before, store, start, contents).upheld(layout),
        runs_cover(runs, pending_writes(before.pending@), maximum),
        file_written(layout, store.file, runs, pending_writes(before.pending@), images, file),
        after.inserts == before.inserts,
        after.input_index == before.input_index,
        after.pending@.len() == 0,
        forall|k: int|
            0 <= k < before.pending@.len() ==> after.outcomes@[(
            #[trigger] before.pending@[k]).input_index as int] != Some(InsertOutcome::Rejected),
        forall|i: int|
            0 <= i < before.outcomes@.len() && !is_pending(before.pending@, i) ==> #[trigger] after.outcomes@[i]
                == before.outcomes@[i],
    ensures
        ({
            let published = batch_moment(before, store, start, contents).published(file);
            let last = batch_moment(after, published.store, published.start, contents);
            &&& last.upheld(layout)
            &&& last.at_rest()
            &&& serves(layout, last.store, last.contents)
        }),
{
    let moment = batch_moment(before, store, start, contents);
    let published = moment.published(file);
    let last = batch_moment(after, published.store, published.start, contents);
    law_a_published_batch_is_served(layout, moment, runs, maximum, images, file);
    assert forall|i: int| 0 <= i < before.input_index implies ((#[trigger] before.outcomes@[i]) == Some(
        InsertOutcome::Rejected,
    ) <==> after.outcomes@[i] == Some(InsertOutcome::Rejected)) by {
        assert(before.outcomes@[i] is Some <==> !is_pending(before.pending@, i));
        if is_pending(before.pending@, i) {
            let k = choose|k: int| 0 <= k < before.pending@.len() && (#[trigger] before.pending@[k]).input_index == i;
            assert(before.pending@[k].input_index == i);
        } else {
            assert(after.outcomes@[i] == before.outcomes@[i]);
        }
    }
    lemma_same_contents(contents, before.inserts@, before.outcomes@, after.outcomes@, before.input_index as nat);
    assert(last.writes =~= Seq::empty());
    assert(last == published);
    law_a_store_at_rest_serves_its_contents(layout, last);
}

} // verus!
