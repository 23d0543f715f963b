//! Requests to write, checked and made into the engine's own.
use crate::branch::{BranchInfo, BranchStatus};
use crate::facade::error::{engine_error, invalid_error, resource_error, EngineError, EngineErrorView, ErrorCategory};
use crate::facade::feed::capped;
use crate::facade::json::{check_json, json_fault, tagged_bytes};
use crate::facade::page::{codec_tag, encode_payload, named_stream, stream_named};
use crate::facade::types::{
    event_data_views, has_id, raw_id_view, AppendBatch, AppendReceiptDto, BranchDto, CommittedBatch, CommittedView,
    DurabilityDto, EventData, EventDataView, ExpectedRevisionDto, PayloadCodec, RecordDtoView, MAX_FACADE_BATCH_BYTES,
    MAX_FACADE_PAYLOAD_BYTES,
};
use crate::format::ids::{event_type_error, BatchId, BranchId, EventId, EventType, StreamRevision};
use crate::stream::{
    idempotency_key_error, new_event_views, stream_name_error, AppendReceipt, AppendRequest, Durability, ExpectedRevision,
    IdempotencyKey, NewEvent, NewEventView, ReceiptDurability, RequestView, StreamName,
};
use crate::text::same_text;
use vstd::prelude::*;

verus! {

/// The payload bytes of events, at most as many as a `usize` holds.
pub open spec fn payload_total(events: Seq<EventDataView>) -> int
    decreases events.len(),
{
    if events.len() == 0 {
        0
    } else {
        capped(payload_total(events.drop_last()) + events.last().payload.len())
    }
}

/// Why an event's payload cannot be taken, if it cannot.
pub open spec fn payload_error(event: EventDataView) -> Option<EngineErrorView> {
    if event.payload.len() > MAX_FACADE_PAYLOAD_BYTES {
        Some(resource_error("payload"@, event.payload.len() as int, MAX_FACADE_PAYLOAD_BYTES as int))
    } else if event.codec is Json && json_fault(event.payload) is Some {
        Some(EngineErrorView { category: ErrorCategory::Codec, code: "invalid_json"@, message: json_fault(event.payload)->0 })
    } else {
        None
    }
}

/// The first payload that cannot be taken, if there is one.
pub open spec fn payloads_error(events: Seq<EventDataView>) -> Option<EngineErrorView>
    decreases events.len(),
{
    if events.len() == 0 {
        None
    } else if payloads_error(events.drop_last()) is Some {
        payloads_error(events.drop_last())
    } else {
        payload_error(events.last())
    }
}

/// The first event type that cannot be, if there is one.
pub open spec fn types_error(types: Seq<Seq<char>>) -> Option<EngineErrorView>
    decreases types.len(),
{
    if types.len() == 0 {
        None
    } else if types_error(types.drop_last()) is Some {
        types_error(types.drop_last())
    } else {
        match event_type_error(types.last()) {
            Some(e) => Some(engine_error(e)),
            None => None,
        }
    }
}

/// The types of events.
pub open spec fn types_of(events: Seq<EventDataView>) -> Seq<Seq<char>> {
    Seq::new(events.len(), |i: int| events[i].event_type)
}

/// An event as the engine takes it.
pub open spec fn engine_event(event: EventDataView) -> NewEventView {
    NewEventView {
        event_id: event.event_id,
        event_type: event.event_type,
        schema_version: event.schema_version,
        metadata: event.metadata,
        payload: tagged_bytes(codec_tag(event.codec), event.payload),
    }
}

/// What a writer expects, as the engine has it.
pub open spec fn engine_expected(expected: ExpectedRevisionDto) -> ExpectedRevision {
    match expected {
        ExpectedRevisionDto::Any => ExpectedRevision::Any,
        ExpectedRevisionDto::NoStream => ExpectedRevision::NoStream,
        ExpectedRevisionDto::Exact(value) => ExpectedRevision::Exact(StreamRevision(value)),
    }
}

/// The durability that is asked for, as the engine has it.
pub open spec fn engine_durability(durability: DurabilityDto) -> Durability {
    match durability {
        DurabilityDto::Buffered => Durability::Buffered,
        DurabilityDto::Flush => Durability::Flush,
        DurabilityDto::Sync => Durability::Sync,
    }
}

/// The request that a batch comes to, or why it cannot be taken.
pub open spec fn request_of(batch: AppendBatch) -> core::result::Result<RequestView, EngineErrorView> {
    let events = event_data_views(batch.events@);
    if payload_total(events) > MAX_FACADE_BATCH_BYTES {
        Err(resource_error("batch payload"@, payload_total(events), MAX_FACADE_BATCH_BYTES as int))
    } else if payloads_error(events) is Some {
        Err(payloads_error(events)->0)
    } else if types_error(types_of(events)) is Some {
        Err(types_error(types_of(events))->0)
    } else if stream_name_error(batch.stream@) is Some {
        Err(engine_error(stream_name_error(batch.stream@)->0))
    } else if batch.idempotency_key is Some && idempotency_key_error(batch.idempotency_key->0@) is Some {
        Err(engine_error(idempotency_key_error(batch.idempotency_key->0@)->0))
    } else {
        Ok(
            RequestView {
                branch: batch.branch_id@,
                stream: batch.stream@,
                expected: engine_expected(batch.expected),
                key: match batch.idempotency_key {
                    Some(key) => Some(key@),
                    None => None,
                },
                events: Seq::new(events.len(), |i: int| engine_event(events[i])),
                durability: engine_durability(batch.durability),
            },
        )
    }
}

fn check_payloads(events: &Vec<EventData>) -> (r: core::result::Result<(), EngineError>)
    ensures
        ({
            let views = event_data_views(events@);
            let error = if payload_total(views) > MAX_FACADE_BATCH_BYTES {
                Some(resource_error("batch payload"@, payload_total(views), MAX_FACADE_BATCH_BYTES as int))
            } else {
                payloads_error(views)
            };
            &&& r is Ok <==> error is None
            &&& r matches Err(e) ==> Some(e@) == error
        }),
{
    let ghost views = event_data_views(events@);
    let mut total: usize = 0;
    let mut i: usize = 0;
    assert(views.take(0) =~= Seq::empty());
    while i < events.len()
        invariant
            i <= events@.len(),
            views == event_data_views(events@),
            total == payload_total(views.take(i as int)),
        decreases events@.len() - i,
    {
        assert(views.take(i + 1).drop_last() =~= views.take(i as int));
        assert(views.take(i + 1).last() == events@[i as int]@);
        total = total.saturating_add(events[i].payload.len());
        i = i + 1;
    }
    assert(views.take(i as int) =~= views);
    if total > MAX_FACADE_BATCH_BYTES {
        return Err(EngineError::resource("batch payload", total, MAX_FACADE_BATCH_BYTES));
    }
    let mut j: usize = 0;
    while j < events.len()
        invariant
            j <= events@.len(),
            views == event_data_views(events@),
            payloads_error(views.take(j as int)) is None,
            payload_total(views) <= MAX_FACADE_BATCH_BYTES,
        decreases events@.len() - j,
    {
        proof {
            assert(views.take(j + 1).drop_last() =~= views.take(j as int));
            assert(views.take(j + 1).last() == events@[j as int]@);
            if payloads_error(views.take(j + 1)) is Some {
                lemma_first_payload_error(views, j + 1);
            }
        }
        let event = &events[j];
        if event.payload.len() > MAX_FACADE_PAYLOAD_BYTES {
            return Err(EngineError::resource("payload", event.payload.len(), MAX_FACADE_PAYLOAD_BYTES));
        }
        match event.codec {
            PayloadCodec::Json => {
                match check_json(event.payload.as_slice()) {
                    Some(message) => return Err(EngineError { category: ErrorCategory::Codec, code: "invalid_json", message }),
                    None => {},
                }
            },
            PayloadCodec::Bytes => {},
        }
        j = j + 1;
    }
    assert(views.take(j as int) =~= views);
    Ok(())
}

proof fn lemma_first_payload_error(events: Seq<EventDataView>, n: int)
    requires
        0 <= n <= events.len(),
        payloads_error(events.take(n)) is Some,
    ensures
        payloads_error(events) == payloads_error(events.take(n)),
    decreases events.len() - n,
{
    if n == events.len() {
        assert(events.take(n) =~= events);
    } else {
        assert(events.take(n + 1).drop_last() =~= events.take(n));
        lemma_first_payload_error(events, n + 1);
    }
}

proof fn lemma_first_type_error(types: Seq<Seq<char>>, n: int)
    requires
        0 <= n <= types.len(),
        types_error(types.take(n)) is Some,
    ensures
        types_error(types) == types_error(types.take(n)),
    decreases types.len() - n,
{
    if n == types.len() {
        assert(types.take(n) =~= types);
    } else {
        assert(types.take(n + 1).drop_last() =~= types.take(n));
        lemma_first_type_error(types, n + 1);
    }
}

fn event_id_of(id: Option<[u8; 16]>) -> (r: Option<EventId>)
    ensures
        crate::stream::event_id_view(r) == raw_id_view(id),
{
    match id {
        Some(bytes) => Some(EventId::from_bytes(bytes)),
        None => None,
    }
}

fn engine_events(events: &Vec<EventData>) -> (r: core::result::Result<Vec<NewEvent>, EngineError>)
    ensures
        ({
            let views = event_data_views(events@);
            &&& r is Ok <==> types_error(types_of(views)) is None
            &&& r matches Err(e) ==> Some(e@) == types_error(types_of(views))
            &&& r matches Ok(out) ==> new_event_views(out@) == Seq::new(views.len(), |i: int| engine_event(views[i]))
        }),
{
    let ghost views = event_data_views(events@);
    let ghost types = types_of(views);
    let ghost wanted = Seq::new(views.len(), |i: int| engine_event(views[i]));
    let mut out: Vec<NewEvent> = Vec::new();
    let mut i: usize = 0;
    assert(types.take(0) =~= Seq::empty());
    assert(new_event_views(out@) =~= wanted.take(0));
    while i < events.len()
        invariant
            i <= events@.len(),
            views == event_data_views(events@),
            types == types_of(views),
            wanted == Seq::new(views.len(), |k: int| engine_event(views[k])),
            types_error(types.take(i as int)) is None,
            new_event_views(out@) == wanted.take(i as int),
        decreases events@.len() - i,
    {
        let event = &events[i];
        proof {
            assert(views[i as int] == event@);
            assert(types.take(i + 1).drop_last() =~= types.take(i as int));
            assert(types.take(i + 1).last() == event@.event_type);
            if types_error(types.take(i + 1)) is Some {
                lemma_first_type_error(types, i + 1);
            }
        }
        let event_type = match EventType::new(event.event_type.as_str()) {
            Ok(event_type) => event_type,
            Err(e) => return Err(EngineError::from_core(&e)),
        };
        let ghost before = new_event_views(out@);
        let new = NewEvent {
            event_id: event_id_of(event.event_id),
            event_type,
            schema_version: event.schema_version,
            metadata: event.metadata.clone(),
            payload: encode_payload(event.codec, event.payload.as_slice()),
        };
        assert(new@ =~= wanted[i as int]);
        out.push(new);
        assert(new_event_views(out@) =~= before.push(wanted[i as int]));
        assert(wanted.take(i + 1) =~= wanted.take(i as int).push(wanted[i as int]));
        i = i + 1;
    }
    assert(types.take(i as int) =~= types);
    assert(wanted.take(i as int) =~= wanted);
    Ok(out)
}

/// Checks a batch and makes it into the engine's own request.
pub fn append_request(batch: &AppendBatch) -> (r: core::result::Result<AppendRequest, EngineError>)
    ensures
        match request_of(*batch) {
            Ok(request) => r matches Ok(out) && out@ == request,
            Err(e) => r matches Err(error) && error@ == e,
        },
{
    match check_payloads(&batch.events) {
        Ok(()) => {},
        Err(e) => return Err(e),
    }
    let events = match engine_events(&batch.events) {
        Ok(events) => events,
        Err(e) => return Err(e),
    };
    let stream = match StreamName::new(batch.stream.as_str()) {
        Ok(stream) => stream,
        Err(e) => return Err(EngineError::from_core(&e)),
    };
    let idempotency_key = match &batch.idempotency_key {
        Some(key) => match IdempotencyKey::new(crate::bytes::copy_bytes(key)) {
            Ok(key) => Some(key),
            Err(e) => return Err(EngineError::from_core(&e)),
        },
        None => None,
    };
    let expected = match batch.expected {
        ExpectedRevisionDto::Any => ExpectedRevision::Any,
        ExpectedRevisionDto::NoStream => ExpectedRevision::NoStream,
        ExpectedRevisionDto::Exact(value) => ExpectedRevision::Exact(StreamRevision(value)),
    };
    let durability = match batch.durability {
        DurabilityDto::Buffered => Durability::Buffered,
        DurabilityDto::Flush => Durability::Flush,
        DurabilityDto::Sync => Durability::Sync,
    };
    Ok(AppendRequest { branch: BranchId::from_bytes(batch.branch_id), stream, expected, idempotency_key, events, durability })
}

/// Whether an event is the one that its batch says stands at `index`.
pub open spec fn event_fits(batch: CommittedView, index: int) -> bool {
    let event = batch.events[index];
    &&& event.database_id == batch.database_id
    &&& event.batch_id == batch.batch_id
    &&& event.batch_index == #[verifier::truncate] (index as u32)
    &&& event.position == batch.first + index
    &&& event.branch_id == batch.branch_id
    &&& batch.stream_ids.contains(event.stream_id)
}

/// The first event that does not fit its batch, if there is one.
pub open spec fn envelopes_error(batch: CommittedView, stream: Seq<char>, n: int) -> Option<EngineErrorView>
    decreases n,
{
    if n <= 0 {
        None
    } else if envelopes_error(batch, stream, n - 1) is Some {
        envelopes_error(batch, stream, n - 1)
    } else if !event_fits(batch, n - 1) {
        Some(invalid_error("replicated event envelope does not match its batch"@))
    } else if named_stream(batch.events[n - 1].metadata) != Some(stream) {
        Some(invalid_error("replicated batch spans multiple stream names"@))
    } else {
        None
    }
}

/// A handed-out event as the engine takes it.
pub open spec fn ingested_event(event: RecordDtoView) -> NewEventView {
    NewEventView {
        event_id: Some(event.event_id),
        event_type: event.event_type,
        schema_version: event.schema_version,
        metadata: event.metadata,
        payload: tagged_bytes(codec_tag(event.codec), event.payload),
    }
}

/// The request that a batch from another database comes to, or why it cannot
/// be taken.
pub open spec fn ingestion_of(batch: CommittedView) -> core::result::Result<RequestView, EngineErrorView> {
    let types = Seq::new(batch.events.len(), |i: int| batch.events[i].event_type);
    if batch.events.len() == 0 {
        Err(invalid_error("replicated batch has no events"@))
    } else if batch.first > batch.last || batch.events.len() != batch.last - batch.first + 1 {
        Err(invalid_error("replicated batch position range is invalid"@))
    } else if named_stream(batch.events[0].metadata) is None {
        Err(invalid_error("replicated event has no stream name"@))
    } else {
        let stream = named_stream(batch.events[0].metadata)->0;
        if envelopes_error(batch, stream, batch.events.len() as int) is Some {
            Err(envelopes_error(batch, stream, batch.events.len() as int)->0)
        } else if types_error(types) is Some {
            Err(types_error(types)->0)
        } else if stream_name_error(stream) is Some {
            Err(engine_error(stream_name_error(stream)->0))
        } else {
            Ok(
                RequestView {
                    branch: batch.branch_id,
                    stream,
                    expected: ExpectedRevision::Any,
                    key: None,
                    events: Seq::new(batch.events.len(), |i: int| ingested_event(batch.events[i])),
                    durability: Durability::Sync,
                },
            )
        }
    }
}

proof fn lemma_first_envelope_error(batch: CommittedView, stream: Seq<char>, n: int, m: int)
    requires
        0 <= n <= m,
        envelopes_error(batch, stream, n) is Some,
    ensures
        envelopes_error(batch, stream, m) == envelopes_error(batch, stream, n),
    decreases m - n,
{
    if n < m {
        lemma_first_envelope_error(batch, stream, n, m - 1);
    }
}

fn check_envelopes(batch: &CommittedBatch, stream: &str) -> (r: core::result::Result<(), EngineError>)
    requires
        batch.first_position + batch.events@.len() - 1 <= u64::MAX,
    ensures
        r is Ok <==> envelopes_error(batch@, stream@, batch@.events.len() as int) is None,
        r matches Err(e) ==> Some(e@) == envelopes_error(batch@, stream@, batch@.events.len() as int),
{
    let ghost b = batch@;
    let mut i: usize = 0;
    while i < batch.events.len()
        invariant
            i <= batch.events@.len(),
            b == batch@,
            batch.first_position + batch.events@.len() - 1 <= u64::MAX,
            envelopes_error(b, stream@, i as int) is None,
        decreases batch.events@.len() - i,
    {
        let event = &batch.events[i];
        assert(b.events[i as int] == event@);
        proof {
            if envelopes_error(b, stream@, i + 1) is Some {
                lemma_first_envelope_error(b, stream@, i + 1, b.events.len() as int);
            }
        }
        let index: u32 = #[verifier::truncate] (i as u32);
        if !crate::bytes::same16(&event.database_id, &batch.database_id) || !crate::bytes::same16(&event.batch_id, &batch.batch_id)
            || event.batch_index != index || event.position != batch.first_position + i as u64 || !crate::bytes::same16(
            &event.branch_id,
            &batch.branch_id,
        ) || !has_id(&batch.stream_ids, &event.stream_id) {
            assert(!event_fits(b, i as int));
            return Err(EngineError::invalid("replicated event envelope does not match its batch"));
        }
        assert(event_fits(b, i as int));
        let named = match stream_named(&event.metadata) {
            Some(name) => same_text(name.as_str(), stream),
            None => false,
        };
        if !named {
            return Err(EngineError::invalid("replicated batch spans multiple stream names"));
        }
        i = i + 1;
    }
    Ok(())
}

/// Checks a batch from another database and makes it into the engine's own
/// request. The batch keeps its identity, and its events keep theirs.
pub fn ingest_request(batch: &CommittedBatch) -> (r: core::result::Result<(AppendRequest, BatchId), EngineError>)
    ensures
        match ingestion_of(batch@) {
            Ok(request) => r matches Ok((out, id)) && out@ == request && id@ == batch@.batch_id,
            Err(e) => r matches Err(error) && error@ == e,
        },
{
    let ghost b = batch@;
    let n: usize = batch.events.len();
    if n == 0 {
        return Err(EngineError::invalid("replicated batch has no events"));
    }
    if batch.first_position > batch.last_position || n as u64 - 1 != batch.last_position - batch.first_position {
        return Err(EngineError::invalid("replicated batch position range is invalid"));
    }
    assert(b.events[0] == batch.events@[0]@);
    let name = match stream_named(&batch.events[0].metadata) {
        Some(name) => name,
        None => return Err(EngineError::invalid("replicated event has no stream name")),
    };
    match check_envelopes(batch, name.as_str()) {
        Ok(()) => {},
        Err(e) => return Err(e),
    }
    let ghost types = Seq::new(b.events.len(), |i: int| b.events[i].event_type);
    let ghost wanted = Seq::new(b.events.len(), |i: int| ingested_event(b.events[i]));
    let mut events: Vec<NewEvent> = Vec::new();
    let mut i: usize = 0;
    assert(types.take(0) =~= Seq::empty());
    assert(new_event_views(events@) =~= wanted.take(0));
    while i < n
        invariant
            i <= n,
            n == batch.events@.len(),
            b == batch@,
            types == Seq::new(b.events.len(), |k: int| b.events[k].event_type),
            wanted == Seq::new(b.events.len(), |k: int| ingested_event(b.events[k])),
            types_error(types.take(i as int)) is None,
            new_event_views(events@) == wanted.take(i as int),
            ingestion_of(b) == (if types_error(types) is Some {
                Err::<RequestView, EngineErrorView>(types_error(types)->0)
            } else {
                ingestion_of(b)
            }),
        decreases n - i,
    {
        let event = &batch.events[i];
        proof {
            assert(b.events[i as int] == event@);
            assert(types.take(i + 1).drop_last() =~= types.take(i as int));
            assert(types.take(i + 1).last() == event@.event_type);
            if types_error(types.take(i + 1)) is Some {
                lemma_first_type_error(types, i + 1);
            }
        }
        let event_type = match EventType::new(event.event_type.as_str()) {
            Ok(event_type) => event_type,
            Err(e) => return Err(EngineError::from_core(&e)),
        };
        let ghost before = new_event_views(events@);
        let new = NewEvent {
            event_id: Some(EventId::from_bytes(event.event_id)),
            event_type,
            schema_version: event.schema_version,
            metadata: event.metadata.clone(),
            payload: encode_payload(event.codec, event.payload.as_slice()),
        };
        assert(new@ =~= wanted[i as int]);
        events.push(new);
        assert(new_event_views(events@) =~= before.push(wanted[i as int]));
        assert(wanted.take(i + 1) =~= wanted.take(i as int).push(wanted[i as int]));
        i = i + 1;
    }
    assert(types.take(i as int) =~= types);
    assert(wanted.take(i as int) =~= wanted);
    let stream = match StreamName::new(name.as_str()) {
        Ok(stream) => stream,
        Err(e) => return Err(EngineError::from_core(&e)),
    };
    let request = AppendRequest {
        branch: BranchId::from_bytes(batch.branch_id),
        stream,
        expected: ExpectedRevision::Any,
        idempotency_key: None,
        events,
        durability: Durability::Sync,
    };
    Ok((request, BatchId::from_bytes(batch.batch_id)))
}

/// A receipt as it is handed out.
pub fn receipt_dto(receipt: &AppendReceipt) -> (r: AppendReceiptDto)
    ensures
        r.batch_id@ == receipt@.batch_id,
        r.first_position == receipt@.first,
        r.last_position == receipt@.last,
        r.stream_id@ == receipt@.stream_id,
        r.previous_revision == receipt@.previous,
        r.current_revision == receipt@.current,
        r.durability == (match receipt@.durability {
            ReceiptDurability::Buffered => DurabilityDto::Buffered,
            ReceiptDurability::Flushed => DurabilityDto::Flush,
            ReceiptDurability::Synced => DurabilityDto::Sync,
        }),
{
    AppendReceiptDto {
        batch_id: receipt.batch_id.into_bytes(),
        first_position: receipt.first_position,
        last_position: receipt.last_position,
        stream_id: receipt.stream_id.into_bytes(),
        previous_revision: match receipt.previous_revision {
            Some(revision) => Some(revision.0),
            None => None,
        },
        current_revision: receipt.current_revision.0,
        durability: match receipt.durability {
            ReceiptDurability::Buffered => DurabilityDto::Buffered,
            ReceiptDurability::Flushed => DurabilityDto::Flush,
            ReceiptDurability::Synced => DurabilityDto::Sync,
        },
    }
}

/// A branch as it is handed out.
pub fn branch_dto(info: &BranchInfo) -> (r: BranchDto)
    ensures
        r.id@ == info@.id,
        r.name@ == info@.name,
        raw_id_view(r.parent_id) == info@.parent,
        r.fork_position == info@.fork_position,
        r.created_at_unix_nanos == info@.created,
        r.metadata@ == info@.metadata,
        r.archived == (info@.status is Archived),
{
    BranchDto {
        id: info.id.into_bytes(),
        name: info.name.as_str().to_owned(),
        parent_id: match info.parent {
            Some(parent) => Some(parent.into_bytes()),
            None => None,
        },
        fork_position: info.fork_position,
        created_at_unix_nanos: info.created_at_unix_nanos,
        metadata: info.metadata.clone(),
        archived: match info.status {
            BranchStatus::Archived => true,
            BranchStatus::Active => false,
        },
    }
}

} // verus!
