//! What an open database promises of durability, and of where its readers and
//! consumers go on.
use crate::append::PreparedView;
use crate::db::engine::{committed, receipt_durability, stored_bytes, sync_wanted, DbView};
use crate::facade::feed::{checkpoint_after, ConsumerCheckpoints, ConsumerView};
use crate::facade::sequencer::{feed_start, reader_plan, request_bounded};
use crate::facade::types::{FeedRequest, ReplayRequest};
use crate::log::segment::EventView;
use crate::log::select::{ReplayEnd, ReplayStart};
use crate::stream::Durability;
use vstd::prelude::*;
use vstd::utf8::{decode_utf8, valid_utf8};

verus! {

/// The payload bytes of events are those of the first ones and those of the last.
pub proof fn lemma_bytes_counted(events: Seq<EventView>, last: EventView)
    ensures
        stored_bytes(Seq::empty()) == 0,
        stored_bytes(events.push(last)) == stored_bytes(events) + last.1.len(),
{
    assert(events.push(last).drop_last() =~= events);
}

/// An append is made durable at once exactly where it asks for that, or where
/// what is uncommitted with it reaches a threshold of the policy; and what it is
/// acknowledged as is what it is.
pub proof fn lemma_durable_when_asked(db: DbView, p: PreparedView, elapsed: u64)
    requires
        db.pending_bytes + stored_bytes(p.events) <= u64::MAX,
        db.pending_count + p.events.len() <= u64::MAX,
        stored_bytes(p.events) >= 0,
    ensures
        sync_wanted(db, p, elapsed) <==> {
            ||| p.durability is Sync
            ||| db.policy.bytes matches Some(t) && t <= db.pending_bytes + stored_bytes(p.events)
            ||| db.policy.count matches Some(t) && t <= db.pending_count + p.events.len()
            ||| db.policy.millis matches Some(t) && t <= elapsed
        },
        receipt_durability(p.durability, true) is Synced,
        receipt_durability(Durability::Flush, false) is Flushed,
        receipt_durability(Durability::Buffered, false) is Buffered,
{
}

/// After a commit everything up to the head is durable, nothing is pending, and
/// nothing else has changed.
pub proof fn lemma_commit_settles(db: DbView)
    ensures
        committed(db).durable_head == db.log.active.next_offset,
        committed(db).pending_bytes == 0,
        committed(db).pending_count == 0,
        committed(db).log == db.log,
        committed(db).history == db.history,
        committed(db).branches == db.branches,
        committed(db).policy == db.policy,
{
}

/// A reader reads its branch from where it stands up to the end it was given, or
/// up to the head where it was given none; one that is bounded keeps all else.
pub proof fn lemma_reader_reads(request: ReplayRequest, from: u64, head: u64)
    ensures
        ({
            let plan = reader_plan(request, from);
            &&& plan.branch == request.branch_id@
            &&& plan.streams is All
            &&& plan.from == ReplayStart::Included(from)
            &&& match request.until {
                Some(p) => plan.until == ReplayEnd::At(p),
                None => plan.until is Head,
            }
            &&& plan.time is None && plan.max_events is None
        }),
        ({
            let bounded = request_bounded(request, head);
            &&& bounded.branch_id == request.branch_id && bounded.stream == request.stream && bounded.from == request.from
            &&& bounded.page_events == request.page_events && bounded.page_bytes == request.page_bytes
            &&& bounded.until == match request.until {
                Some(p) => Some(p),
                None => Some(head),
            }
        }),
{
}

/// A feed begins where its request says, else where its consumer stands, else at
/// the beginning.
pub proof fn lemma_feed_begins(checkpoints: ConsumerCheckpoints, request: FeedRequest)
    ensures
        request.from matches Some(p) ==> feed_start(checkpoints, request) == p,
        request.from is None && request.consumer_id is None ==> feed_start(checkpoints, request) == 0,
        request.from is None ==> (request.consumer_id matches Some(id) ==> feed_start(checkpoints, request) == match checkpoints.of(id@) {
            Some(p) => p,
            None => 0,
        }),
{
}

/// Whether a record is about a consumer.
pub open spec fn concerns(record: ConsumerView, id: Seq<char>) -> bool {
    match record {
        ConsumerView::Checkpoint { consumer_id, .. } => consumer_id == id,
        ConsumerView::Cleared(name) => valid_utf8(name) && decode_utf8(name) == id,
    }
}

/// A consumer stands where the last record about it says: at a position, or
/// nowhere where it was cleared or never noted.
pub proof fn lemma_consumer_stands(records: Seq<ConsumerView>, id: Seq<char>)
    ensures
        match checkpoint_after(records, id) {
            Some(p) => exists|k: int|
                0 <= k < records.len() && (#[trigger] records[k]) == (ConsumerView::Checkpoint { consumer_id: id, position: p }) && (
                forall|j: int| k < j < records.len() ==> !concerns(#[trigger] records[j], id)),
            None => (forall|j: int| 0 <= j < records.len() ==> !concerns(#[trigger] records[j], id)) || exists|k: int|
                0 <= k < records.len() && (#[trigger] records[k]) is Cleared && concerns(records[k], id) && (forall|j: int|
                    k < j < records.len() ==> !concerns(#[trigger] records[j], id)),
        },
    decreases records.len(),
{
    if records.len() > 0 {
        let front = records.drop_last();
        let n = records.len() - 1;
        assert(records[n] == records.last());
        if !concerns(records[n], id) {
            lemma_consumer_stands(front, id);
            assert(checkpoint_after(records, id) == checkpoint_after(front, id));
            match checkpoint_after(front, id) {
                Some(p) => {
                    let k = choose|k: int|
                        0 <= k < front.len() && (#[trigger] front[k]) == (ConsumerView::Checkpoint { consumer_id: id, position: p }) && (
                        forall|j: int| k < j < front.len() ==> !concerns(#[trigger] front[j], id));
                    assert(records[k] == front[k]);
                    assert forall|j: int| k < j < records.len() implies !concerns(#[trigger] records[j], id) by {
                        if j < n {
                            assert(front[j] == records[j]);
                        }
                    }
                },
                None => {
                    if forall|j: int| 0 <= j < front.len() ==> !concerns(#[trigger] front[j], id) {
                        assert forall|j: int| 0 <= j < records.len() implies !concerns(#[trigger] records[j], id) by {
                            if j < n {
                                assert(front[j] == records[j]);
                            }
                        }
                    } else {
                        let k = choose|k: int|
                            0 <= k < front.len() && (#[trigger] front[k]) is Cleared && concerns(front[k], id) && (forall|j: int|
                                k < j < front.len() ==> !concerns(#[trigger] front[j], id));
                        assert(records[k] == front[k]);
                        assert forall|j: int| k < j < records.len() implies !concerns(#[trigger] records[j], id) by {
                            if j < n {
                                assert(front[j] == records[j]);
                            }
                        }
                    }
                },
            }
        }
    }
}

} // verus!
