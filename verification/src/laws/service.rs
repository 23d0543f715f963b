//! What the service boundary promises: what is asked for across it reaches the
//! engine unchanged, and what the engine stores is handed out unchanged.
use crate::facade::feed::{batch_offered, batch_selected, committed_of, events_size, feed_error, lemma_streams_of, FeedLimits};
use crate::facade::json::json_fault;
use crate::facade::page::{dto_of, lemma_payload_round_trip, page_begun, page_error, page_offered, payload_bytes, payload_codec, PageLimits, PageView};
use crate::facade::types::{
    dto_size, event_data_views, AppendBatch, CommittedView, DurabilityDto, EventDataView, ExpectedRevisionDto, FeedFilterView,
    FeedRequest, RecordDtoView, MAX_REPLAY_PAGE_BYTES, MAX_REPLAY_PAGE_EVENTS,
};
use crate::facade::write::{ingestion_of, payload_total, payloads_error, request_of, types_error, types_of};
use crate::format::frame::RecordView;
use crate::format::ids::event_type_error;
use crate::format::metadata::value_of;
use crate::stream::ExpectedRevision;
use vstd::prelude::*;
use vstd::utf8::{decode_utf8, encode_utf8, valid_utf8};

verus! {

/// Whether an event's payload is small enough and, where it is said to be JSON,
/// is JSON.
pub open spec fn payload_fine(event: EventDataView) -> bool {
    event.payload.len() <= 0x80_0000 && (event.codec is Json ==> json_fault(event.payload) is None)
}

proof fn lemma_payloads_fine(events: Seq<EventDataView>)
    ensures
        payloads_error(events) is None <==> forall|i: int| 0 <= i < events.len() ==> payload_fine(#[trigger] events[i]),
    decreases events.len(),
{
    if events.len() > 0 {
        let front = events.drop_last();
        let n = events.len() - 1;
        lemma_payloads_fine(front);
        assert forall|i: int| 0 <= i < front.len() implies #[trigger] front[i] == events[i] by {}
        if payloads_error(events) is None {
            assert forall|i: int| 0 <= i < events.len() implies payload_fine(#[trigger] events[i]) by {
                if i < n {
                    assert(payload_fine(front[i]));
                }
            }
        } else if forall|i: int| 0 <= i < events.len() ==> payload_fine(#[trigger] events[i]) {
            assert(payload_fine(events[n]));
            assert forall|i: int| 0 <= i < front.len() implies payload_fine(#[trigger] front[i]) by {
                assert(payload_fine(events[i]));
            }
        }
    }
}

proof fn lemma_types_fine(types: Seq<Seq<char>>)
    ensures
        types_error(types) is None <==> forall|i: int| 0 <= i < types.len() ==> event_type_error(#[trigger] types[i]) is None,
    decreases types.len(),
{
    if types.len() > 0 {
        let front = types.drop_last();
        let n = types.len() - 1;
        lemma_types_fine(front);
        if types_error(types) is None {
            assert forall|i: int| 0 <= i < types.len() implies event_type_error(#[trigger] types[i]) is None by {
                if i < n {
                    assert(event_type_error(front[i]) is None);
                }
            }
        } else if forall|i: int| 0 <= i < types.len() ==> event_type_error(#[trigger] types[i]) is None {
            assert(event_type_error(types[n]) is None);
            assert forall|i: int| 0 <= i < front.len() implies event_type_error(#[trigger] front[i]) is None by {
                assert(event_type_error(types[i]) is None);
            }
        }
    }
}

/// A batch is taken exactly where its payloads are together and each small
/// enough, JSON where they are said to be, its event types and its stream can be
/// named so, and its key, if it has one, is not empty.
pub proof fn lemma_batch_fine(batch: AppendBatch)
    ensures
        request_of(batch) is Ok <==> {
            &&& payload_total(event_data_views(batch.events@)) <= 0x100_0000
            &&& forall|i: int| 0 <= i < batch.events@.len() ==> payload_fine((#[trigger] batch.events@[i])@)
            &&& forall|i: int| 0 <= i < batch.events@.len() ==> event_type_error((#[trigger] batch.events@[i]).event_type@) is None
            &&& batch.stream@.len() > 0 && !encode_utf8(batch.stream@).contains(0u8)
            &&& batch.idempotency_key matches Some(key) ==> key@.len() > 0
        },
{
    let events = event_data_views(batch.events@);
    let types = types_of(events);
    lemma_payloads_fine(events);
    lemma_types_fine(types);
    assert forall|i: int| 0 <= i < batch.events@.len() implies #[trigger] events[i] == batch.events@[i]@ && types[i]
        == batch.events@[i].event_type@ by {}
    if forall|i: int| 0 <= i < events.len() ==> payload_fine(#[trigger] events[i]) {
        assert forall|i: int| 0 <= i < batch.events@.len() implies payload_fine((#[trigger] batch.events@[i])@) by {
            assert(payload_fine(events[i]));
        }
    }
    if forall|i: int| 0 <= i < batch.events@.len() ==> payload_fine((#[trigger] batch.events@[i])@) {
        assert forall|i: int| 0 <= i < events.len() implies payload_fine(#[trigger] events[i]) by {
            assert(payload_fine(batch.events@[i]@));
        }
    }
    if forall|i: int| 0 <= i < types.len() ==> event_type_error(#[trigger] types[i]) is None {
        assert forall|i: int| 0 <= i < batch.events@.len() implies event_type_error((#[trigger] batch.events@[i]).event_type@) is None by {
            assert(event_type_error(types[i]) is None);
        }
    }
    if forall|i: int| 0 <= i < batch.events@.len() ==> event_type_error((#[trigger] batch.events@[i]).event_type@) is None {
        assert forall|i: int| 0 <= i < types.len() implies event_type_error(#[trigger] types[i]) is None by {
            assert(event_type_error(batch.events@[i].event_type@) is None);
        }
    }
}

/// A batch that is taken reaches the engine as it was given: its branch, stream,
/// key and expectation, and its events in order, each with its identity, type,
/// version and metadata, and a payload that reads as the given one.
pub proof fn lemma_batch_taken(batch: AppendBatch)
    requires
        request_of(batch) is Ok,
    ensures
        ({
            let r = request_of(batch)->Ok_0;
            &&& r.branch == batch.branch_id@ && r.stream == batch.stream@
            &&& match batch.expected {
                ExpectedRevisionDto::Any => r.expected is Any,
                ExpectedRevisionDto::NoStream => r.expected is NoStream,
                ExpectedRevisionDto::Exact(n) => r.expected matches ExpectedRevision::Exact(x) && x.0 == n,
            }
            &&& match batch.durability {
                DurabilityDto::Buffered => r.durability is Buffered,
                DurabilityDto::Flush => r.durability is Flush,
                DurabilityDto::Sync => r.durability is Sync,
            }
            &&& match batch.idempotency_key {
                Some(key) => r.key == Some(key@) && key@.len() > 0,
                None => r.key is None,
            }
            &&& r.events.len() == batch.events@.len()
            &&& forall|i: int|
                0 <= i < batch.events@.len() ==> {
                    let event = #[trigger] batch.events@[i];
                    &&& r.events[i].event_id == match event.event_id {
                        Some(id) => Some(id@),
                        None => None,
                    }
                    &&& r.events[i].event_type == event.event_type@
                    &&& r.events[i].schema_version == event.schema_version
                    &&& r.events[i].metadata == event.metadata@
                    &&& payload_codec(r.events[i].payload) == event.codec
                    &&& payload_bytes(r.events[i].payload) == event.payload@
                }
        }),
{
    let r = request_of(batch)->Ok_0;
    lemma_batch_fine(batch);
    assert forall|i: int| 0 <= i < batch.events@.len() implies {
        let event = #[trigger] batch.events@[i];
        &&& payload_codec(r.events[i].payload) == event.codec
        &&& payload_bytes(r.events[i].payload) == event.payload@
    } by {
        assert(payload_fine(batch.events@[i]@));
        lemma_payload_round_trip(batch.events@[i].codec, batch.events@[i].payload@);
    }
}

/// A record is handed out as it is stored, field by field.
pub proof fn lemma_record_handed(record: RecordView)
    ensures
        ({
            let dto = dto_of(record);
            let env = record.envelope;
            &&& dto.position == record.position
            &&& dto.database_id == env.database_id && dto.branch_id == env.branch_id
            &&& dto.stream_id == env.stream_id && dto.stream_revision == env.stream_revision
            &&& dto.batch_id == env.batch_id && dto.batch_index == env.batch_index
            &&& dto.event_id == env.event_id && dto.event_type == env.event_type
            &&& dto.schema_version == env.schema_version && dto.timestamp == env.timestamp
            &&& dto.metadata == env.metadata
            &&& dto.codec == payload_codec(record.payload)
            &&& dto.payload == payload_bytes(record.payload)
        }),
{
}

/// A batch from another database is taken whole: as many events as its positions
/// span, in order, each of its branch and its stream, with its own identity,
/// type, version, metadata and payload.
pub proof fn lemma_ingested_whole(batch: CommittedView)
    requires
        ingestion_of(batch) is Ok,
    ensures
        ({
            let r = ingestion_of(batch)->Ok_0;
            &&& r.branch == batch.branch_id
            &&& r.durability is Sync && r.expected is Any && r.key is None
            &&& r.events.len() == batch.events.len() && r.events.len() == batch.last - batch.first + 1
            &&& forall|i: int|
                0 <= i < batch.events.len() ==> {
                    let event = #[trigger] batch.events[i];
                    &&& event.branch_id == batch.branch_id && event.batch_id == batch.batch_id && event.database_id == batch.database_id
                    &&& event.position == batch.first + i
                    &&& value_of(event.metadata, "salamander.stream_name"@) matches Some(name) && valid_utf8(name) && decode_utf8(name)
                        == r.stream
                    &&& r.events[i].event_id == Some(event.event_id)
                    &&& r.events[i].event_type == event.event_type
                    &&& r.events[i].schema_version == event.schema_version
                    &&& r.events[i].metadata == event.metadata
                    &&& event.payload.len() <= u64::MAX ==> payload_codec(r.events[i].payload) == event.codec && payload_bytes(
                        r.events[i].payload,
                    ) == event.payload
                }
        }),
{
    let r = ingestion_of(batch)->Ok_0;
    let n = batch.events.len() as int;
    assert forall|i: int| 0 <= i < n implies crate::facade::write::event_fits(batch, i) && crate::facade::page::named_stream(
        (#[trigger] batch.events[i]).metadata,
    ) == Some(r.stream) && (batch.events[i].payload.len() <= u64::MAX ==> payload_codec(r.events[i].payload) == batch.events[i].codec
        && payload_bytes(r.events[i].payload) == batch.events[i].payload) by {
        lemma_fits(batch, r.stream, n, i);
        if batch.events[i].payload.len() <= u64::MAX {
            lemma_payload_round_trip(batch.events[i].codec, batch.events[i].payload);
        }
    }
}

proof fn lemma_fits(batch: CommittedView, stream: Seq<char>, n: int, i: int)
    requires
        crate::facade::write::envelopes_error(batch, stream, n) is None,
        0 <= i < n,
    ensures
        crate::facade::write::event_fits(batch, i),
        crate::facade::page::named_stream(batch.events[i].metadata) == Some(stream),
    decreases n,
{
    if i < n - 1 {
        lemma_fits(batch, stream, n - 1, i);
    }
}

/// A page takes a record of the stream that is wanted where there is room for
/// it, and then goes on behind it; where there is none, the page is over and the
/// next one begins with that record. A first record always has room.
pub proof fn lemma_page_takes(p: PageView, limits: PageLimits, record: RecordDtoView, after: u64)
    ensures
        ({
            let next = page_offered(p, limits, record, after);
            let wanted = limits.stream matches Some(stream) ==> (value_of(record.metadata, "salamander.stream_name"@) matches Some(name)
                && valid_utf8(name) && decode_utf8(name) == stream);
            let room = p.records.len() == 0 || (p.records.len() < limits.events && p.bytes + dto_size(record) <= limits.bytes);
            if !wanted {
                next.records == p.records && next.continuation == after && next.full == p.full && next.bytes == p.bytes
            } else if room {
                &&& next.records.len() == p.records.len() + 1
                &&& next.records.last() == record && next.records.drop_last() == p.records
                &&& next.continuation == after
                &&& next.bytes == p.bytes + dto_size(record)
                &&& next.full <==> p.records.len() + 1 >= limits.events
            } else {
                next.records == p.records && next.continuation == record.position && next.full
            }
        }),
        page_begun(after).records.len() == 0,
        page_begun(after).continuation == after,
        !page_begun(after).full,
{
    assert(p.records.push(record).drop_last() =~= p.records);
}

/// A feed selects a batch exactly where its branch is one of those that are
/// wanted, some event's stream is, and some event's type is; a wish that names
/// none is met by all.
pub proof fn lemma_feed_selects(filter: FeedFilterView, events: Seq<RecordDtoView>)
    requires
        events.len() > 0,
    ensures
        batch_selected(filter, events) <==> {
            &&& filter.branches.len() == 0 || filter.branches.contains(events[0].branch_id)
            &&& filter.streams.len() == 0 || !(forall|i: int|
                0 <= i < events.len() ==> !filter.streams.contains((#[trigger] events[i]).stream_id))
            &&& filter.event_types.len() == 0 || !(forall|i: int|
                0 <= i < events.len() ==> !filter.event_types.contains((#[trigger] events[i]).event_type))
        },
{
}

/// A batch is handed out with all of its events, from the first position to the
/// last, and names exactly the streams of its events, each once.
pub proof fn lemma_committed(events: Seq<RecordDtoView>)
    requires
        events.len() > 0,
    ensures
        ({
            let batch = committed_of(events);
            &&& batch.events == events
            &&& batch.first == events[0].position && batch.last == events[events.len() - 1].position
            &&& batch.database_id == events[0].database_id && batch.batch_id == events[0].batch_id
            &&& batch.branch_id == events[0].branch_id
            &&& forall|id: Seq<u8>| #[trigger]
                batch.stream_ids.contains(id) <==> exists|i: int| 0 <= i < events.len() && (#[trigger] events[i]).stream_id == id
        }),
{
    lemma_streams_of(events);
}

/// The limits of pages: between one and so many events, and between one and so
/// many bytes.
pub proof fn lemma_page_limits(events: u32, bytes: usize)
    ensures
        page_error(events, bytes) is None <==> 1 <= events <= MAX_REPLAY_PAGE_EVENTS && 1 <= bytes <= MAX_REPLAY_PAGE_BYTES,
{
}

/// A feed can be opened exactly where its pages are within the limits, it begins
/// at or below what is durable, and its consumer's name has between one and 1024
/// bytes.
pub proof fn lemma_feed_limits(request: FeedRequest, durable_head: u64)
    ensures
        feed_error(request, durable_head) is None <==> {
            &&& 1 <= request.page_batches <= MAX_REPLAY_PAGE_EVENTS && 1 <= request.page_bytes <= MAX_REPLAY_PAGE_BYTES
            &&& request.from matches Some(p) ==> p <= durable_head
            &&& request.consumer_id matches Some(id) ==> id@.len() > 0 && encode_utf8(id@).len() <= 1024
        },
{
}

/// A page of a feed takes a batch that is selected where there is room for all
/// of it, passes over one that is not, and leaves one that has no room for the
/// next page. A first batch always has room.
pub proof fn lemma_feed_takes(limits: FeedLimits, batches: Seq<CommittedView>, bytes: int, events: Seq<RecordDtoView>)
    requires
        bytes + events_size(events) <= usize::MAX,
    ensures
        ({
            let room = batches.len() == 0 || (batches.len() < limits.batches && bytes + events_size(events) <= limits.bytes);
            match batch_offered(limits, batches, bytes, events) {
                None => batch_selected(limits.filter, events) && !room,
                Some((out, total)) => if batch_selected(limits.filter, events) {
                    &&& room
                    &&& out.len() == batches.len() + 1
                    &&& out.drop_last() == batches
                    &&& out.last().events == events
                    &&& total == bytes + events_size(events)
                } else {
                    out == batches && total == bytes
                },
            }
        }),
{
    assert(batches.push(committed_of(events)).drop_last() =~= batches);
}

} // verus!
