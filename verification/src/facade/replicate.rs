//! What replication promises: a batch that one database hands out is taken by
//! another, and its events stay what they are.
use crate::append::{envelope_at, event_id_at, stamped_metadata, StampView};
use crate::facade::feed::{committed_of, lemma_streams_of};
use crate::facade::json::tagged_bytes;
use crate::facade::page::{codec_tag, dto_of, named_stream, payload_bytes, payload_codec};
use crate::facade::types::{CommittedView, RecordDtoView};
use crate::facade::write::{envelopes_error, event_fits, ingestion_of, types_error};
use crate::format::frame::{FrameKind, RecordView};
use crate::format::ids::event_type_error;
use crate::format::metadata::{inserted, keys_ascend, lemma_inserted, value_of, MetadataView};
use crate::stream::{stream_name_error, RequestView};
use crate::text::lemma_utf8_round_trip;
use vstd::prelude::*;
use vstd::utf8::encode_utf8;

verus! {

/// The events of a request as they are handed out, the first at `first`.
pub open spec fn handed(request: RequestView, stamp: StampView, first: u64) -> Seq<RecordDtoView> {
    Seq::new(
        request.events.len(),
        |i: int|
            dto_of(
                RecordView {
                    kind: FrameKind::Event,
                    flags: 0,
                    position: (first + i) as u64,
                    envelope: envelope_at(request, stamp, i),
                    payload: request.events[i].payload,
                },
            ),
    )
}

/// Whether a request is one that was taken across the service boundary.
pub open spec fn was_taken(request: RequestView) -> bool {
    &&& request.events.len() > 0
    &&& stream_name_error(request.stream) is None
    &&& forall|i: int| 0 <= i < request.events.len() ==> #[trigger] event_taken(request, i)
}

/// Whether an event is one that was taken across the service boundary.
pub open spec fn event_taken(request: RequestView, i: int) -> bool {
    let event = request.events[i];
    &&& keys_ascend(event.metadata)
    &&& event_type_error(event.event_type) is None
    &&& event.payload == tagged_bytes(codec_tag(payload_codec(event.payload)), payload_bytes(event.payload))
}

/// What the engine adds to an event's metadata names its stream.
pub proof fn lemma_stamped_name(m: MetadataView, request: RequestView, digest: u32)
    requires
        keys_ascend(m),
    ensures
        keys_ascend(stamped_metadata(m, request, digest)),
        value_of(stamped_metadata(m, request, digest), "salamander.stream_name"@) == Some(encode_utf8(request.stream)),
        named_stream(stamped_metadata(m, request, digest)) == Some(request.stream),
{
    reveal_strlit("salamander.stream_name");
    reveal_strlit("salamander.idempotency_key");
    reveal_strlit("salamander.request_digest");
    let name = "salamander.stream_name"@;
    let named = inserted(m, name, encode_utf8(request.stream));
    lemma_inserted(m, name, encode_utf8(request.stream));
    lemma_utf8_round_trip(request.stream);
    if let Some(key) = request.key {
        let keyed = inserted(named, "salamander.idempotency_key"@, key);
        lemma_inserted(named, "salamander.idempotency_key"@, key);
        lemma_inserted(keyed, "salamander.request_digest"@, vstd::bytes::spec_u32_to_le_bytes(digest));
        assert(name[11] != "salamander.idempotency_key"@[11]);
        assert(name[11] != "salamander.request_digest"@[11]);
    }
}

proof fn lemma_types_fine(types: Seq<Seq<char>>)
    requires
        forall|i: int| 0 <= i < types.len() ==> event_type_error(#[trigger] types[i]) is None,
    ensures
        types_error(types) is None,
    decreases types.len(),
{
    if types.len() > 0 {
        let front = types.drop_last();
        assert forall|i: int| 0 <= i < front.len() implies event_type_error(#[trigger] front[i]) is None by {
            assert(front[i] == types[i]);
        }
        lemma_types_fine(front);
        assert(types[types.len() - 1] == types.last());
    }
}

proof fn lemma_envelopes_fine(batch: CommittedView, stream: Seq<char>, n: int)
    requires
        n <= batch.events.len(),
        forall|i: int| 0 <= i < n ==> #[trigger] event_fits(batch, i),
        forall|i: int| 0 <= i < n ==> named_stream((#[trigger] batch.events[i]).metadata) == Some(stream),
    ensures
        envelopes_error(batch, stream, n) is None,
    decreases n,
{
    if n > 0 {
        lemma_envelopes_fine(batch, stream, n - 1);
        assert(event_fits(batch, n - 1));
        assert(named_stream(batch.events[n - 1].metadata) == Some(stream));
    }
}

/// A batch that one database took and hands out is taken by another: it goes to
/// the same stream of the same branch, and every event keeps its identity, its
/// type, its schema version and its payload.
pub proof fn lemma_batch_replicates(request: RequestView, stamp: StampView, first: u64)
    requires
        was_taken(request),
        first + request.events.len() - 1 <= u64::MAX,
    ensures
        ({
            let out = ingestion_of(committed_of(handed(request, stamp, first)));
            &&& out is Ok
            &&& out->Ok_0.branch == request.branch
            &&& out->Ok_0.stream == request.stream
            &&& out->Ok_0.events.len() == request.events.len()
            &&& forall|i: int|
                0 <= i < request.events.len() ==> {
                    let event = #[trigger] out->Ok_0.events[i];
                    &&& event.event_id == Some(event_id_at(request, stamp.fresh, i))
                    &&& event.event_type == request.events[i].event_type
                    &&& event.schema_version == request.events[i].schema_version
                    &&& event.payload == request.events[i].payload
                }
        }),
{
    let events = handed(request, stamp, first);
    let batch = committed_of(events);
    let n = events.len() as int;
    assert(events.last() == events[n - 1]);
    lemma_streams_of(events);
    assert forall|i: int| 0 <= i < n implies #[trigger] event_fits(batch, i) by {
        assert(events[i].stream_id == stamp.stream_id);
        assert(batch.stream_ids.contains(events[i].stream_id));
    }
    assert forall|i: int| 0 <= i < n implies named_stream((#[trigger] batch.events[i]).metadata) == Some(request.stream) by {
        assert(event_taken(request, i));
        lemma_stamped_name(request.events[i].metadata, request, stamp.digest);
    }
    lemma_envelopes_fine(batch, request.stream, n);
    let types = Seq::new(batch.events.len(), |i: int| batch.events[i].event_type);
    assert forall|i: int| 0 <= i < types.len() implies event_type_error(#[trigger] types[i]) is None by {
        assert(event_taken(request, i));
    }
    lemma_types_fine(types);
    assert(named_stream(batch.events[0].metadata) == Some(request.stream));
    let out = ingestion_of(batch);
    assert forall|i: int| 0 <= i < n implies (#[trigger] out->Ok_0.events[i]).payload == request.events[i].payload by {
        assert(event_taken(request, i));
    }
}

} // verus!
