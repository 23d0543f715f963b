//! Records as the log writes and reads them: frames under the log's own limits.
use crate::bytes::{put, zero16};
use crate::error::{ErrorView, Result};
use crate::format::envelope::{default_limits, envelope_bytes, envelope_encoding, EnvelopeView, FormatLimits, RecordEnvelopeV2};
use crate::format::frame::{frame_decoding, frame_encoding, FrameKind, OwnedStoredRecord, RecordView, StoredRecord};
use crate::format::ids::{
    event_type_error, BatchId, BranchId, CodecId, DatabaseId, EventId, EventType, StreamId, StreamRevision,
    RUST_BINCODE_V1,
};
use crate::format::metadata::{Metadata, MetadataView};
use vstd::prelude::*;
use vstd::utf8::{encode_utf8, is_ascii_chars};

verus! {

/// A record's position and payload.
#[derive(Debug, PartialEq, Eq)]
pub struct Record<'a> {
    pub offset: u64,
    pub payload: &'a [u8],
}

/// The largest frame that the log's limits allow.
pub const MAX_FRAME_BYTES: u64 = 17_825_824;

/// A record of the log.
pub open spec fn log_record(kind: FrameKind, position: u64, envelope: EnvelopeView, payload: Seq<u8>) -> RecordView {
    RecordView { kind, flags: 0, position, envelope, payload }
}

/// The outcome of writing a record under the log's limits.
#[verifier::opaque]
pub open spec fn record_encoding(kind: FrameKind, position: u64, envelope: EnvelopeView, payload: Seq<u8>) -> core::result::Result<
    Seq<u8>,
    ErrorView,
> {
    frame_encoding(log_record(kind, position, envelope, payload), default_limits())
}

/// The outcome of reading a record under the log's limits.
#[verifier::opaque]
pub open spec fn record_decoding(buf: Seq<u8>) -> core::result::Result<Option<(RecordView, int)>, ErrorView> {
    frame_decoding(buf, default_limits())
}

/// A frame has a header, and it stays below the largest size.
pub proof fn lemma_record_size(kind: FrameKind, position: u64, envelope: EnvelopeView, payload: Seq<u8>)
    ensures
        record_encoding(kind, position, envelope, payload) matches Ok(bytes) ==> 32 <= bytes.len() <= MAX_FRAME_BYTES,
{
    reveal(record_encoding);
    crate::bytes::lemma_le_codec();
}

/// A record that is read has a header and lies in the bytes that are there.
pub proof fn lemma_record_read(buf: Seq<u8>)
    ensures
        record_decoding(buf) matches Ok(Some((record, n))) ==> 32 <= n <= buf.len(),
        buf.len() == 0 ==> record_decoding(buf) == Ok::<Option<(RecordView, int)>, ErrorView>(None),
{
    reveal(record_decoding);
    crate::format::frame::lemma_sizing_agrees(buf, default_limits());
}

/// Text of plain ASCII without NUL is a valid event type when it is nonempty.
pub proof fn lemma_ascii_event_type(name: Seq<char>)
    requires
        name.len() > 0,
        is_ascii_chars(name),
        forall|i: int| 0 <= i < name.len() ==> #[trigger] name[i] != '\0',
    ensures
        event_type_error(name) is None,
        encode_utf8(name).len() == name.len(),
{
    vstd::utf8::is_ascii_chars_encode_utf8(name);
    let bytes = encode_utf8(name);
    assert forall|i: int| 0 <= i < bytes.len() implies #[trigger] bytes[i] != 0u8 by {
        assert(bytes[i] == name[i] as u8);
        assert(name[i] != '\0');
    }
}

/// The envelope of a record that carries a payload and nothing else.
pub open spec fn raw_envelope() -> EnvelopeView {
    EnvelopeView {
        event_id: zero16(),
        database_id: zero16(),
        branch_id: zero16(),
        stream_id: zero16(),
        stream_revision: 0,
        timestamp: 0,
        event_type: "salamander.raw-v2"@,
        schema_version: 1,
        codec: RUST_BINCODE_V1,
        batch_id: zero16(),
        batch_index: 0,
        metadata: MetadataView::empty(),
    }
}

proof fn lemma_raw_event_type()
    ensures
        event_type_error("salamander.raw-v2"@) is None,
        encode_utf8("salamander.raw-v2"@).len() == 17,
{
    reveal_strlit("salamander.raw-v2");
    lemma_ascii_event_type("salamander.raw-v2"@);
}

/// A raw record can always be written when its payload is within the limit.
pub proof fn lemma_raw_encodes(position: u64, payload: Seq<u8>)
    requires
        payload.len() <= default_limits().max_payload_bytes,
    ensures
        record_encoding(FrameKind::Event, position, raw_envelope(), payload) is Ok,
{
    reveal(record_encoding);
    lemma_raw_event_type();
    crate::bytes::lemma_le_codec();
    let env = raw_envelope();
    assert(envelope_encoding(env, default_limits()) is Ok);
    assert(envelope_bytes(env).len() == 131);
}

/// The envelope of a record that carries a payload and nothing else.
pub fn raw_test_envelope() -> (r: RecordEnvelopeV2)
    ensures
        r@ == raw_envelope(),
{
    proof {
        lemma_raw_event_type();
    }
    let event_type = EventType::new("salamander.raw-v2");
    let r = RecordEnvelopeV2 {
        event_id: EventId::zero(),
        database_id: DatabaseId::zero(),
        branch_id: BranchId::zero(),
        stream_id: StreamId::zero(),
        stream_revision: StreamRevision(0),
        timestamp_unix_nanos: 0,
        event_type: event_type.unwrap(),
        schema_version: 1,
        codec: CodecId(RUST_BINCODE_V1),
        batch_id: BatchId::zero(),
        batch_index: 0,
        metadata: Metadata::new(),
    };
    r
}

/// Appends a payload-only record to `out`.
pub fn encode(offset: u64, payload: &[u8], out: &mut Vec<u8>)
    requires
        payload@.len() <= default_limits().max_payload_bytes,
    ensures
        final(out)@ == old(out)@ + record_encoding(FrameKind::Event, offset, raw_envelope(), payload@)->Ok_0,
{
    let envelope = raw_test_envelope();
    proof {
        lemma_raw_encodes(offset, payload@);
    }
    let done = encode_enveloped(offset, &envelope, payload, out);
    assert(done is Ok);
}

/// Appends an event record to `out`, or leaves `out` as it was and says why.
pub fn encode_enveloped(offset: u64, envelope: &RecordEnvelopeV2, payload: &[u8], out: &mut Vec<u8>) -> (r: Result<()>)
    ensures
        match record_encoding(FrameKind::Event, offset, envelope@, payload@) {
            Ok(bytes) => r is Ok && final(out)@ == old(out)@ + bytes,
            Err(e) => r matches Err(error) && error@ == e && final(out)@ == old(out)@,
        },
{
    encode_kind(FrameKind::Event, offset, envelope, payload, out)
}

/// Appends a record of any kind to `out`, or leaves `out` as it was and says why.
pub fn encode_kind(
    kind: FrameKind,
    offset: u64,
    envelope: &RecordEnvelopeV2,
    payload: &[u8],
    out: &mut Vec<u8>,
) -> (r: Result<()>)
    ensures
        match record_encoding(kind, offset, envelope@, payload@) {
            Ok(bytes) => r is Ok && final(out)@ == old(out)@ + bytes,
            Err(e) => r matches Err(error) && error@ == e && final(out)@ == old(out)@,
        },
{
    proof {
        reveal(record_encoding);
    }
    let record = StoredRecord { kind, flags: 0, position: offset, envelope: envelope.clone(), payload };
    assert(record@ == log_record(kind, offset, envelope@, payload@));
    match crate::format::frame::encode(&record, FormatLimits::default()) {
        Ok(bytes) => {
            put(out, bytes.as_slice());
            Ok(())
        },
        Err(e) => Err(e),
    }
}

/// Reads the position and the payload of the record at the start of `buf`.
pub fn decode(buf: &[u8]) -> (r: Result<Option<(Record<'_>, usize)>>)
    ensures
        match record_decoding(buf@) {
            Ok(None) => r matches Ok(None),
            Ok(Some((record, n))) => r matches Ok(Some((rec, total))) && rec.offset == record.position && rec.payload@
                == record.payload && total == n,
            Err(e) => r matches Err(error) && error@ == e,
        },
{
    proof {
        reveal(record_decoding);
    }
    match crate::format::frame::decode(buf, FormatLimits::default()) {
        Ok(Some((stored, consumed))) => Ok(Some((Record { offset: stored.position, payload: stored.payload }, consumed))),
        Ok(None) => Ok(None),
        Err(e) => Err(e),
    }
}

/// Reads the record at the start of `buf` into a value of its own.
pub fn decode_owned(buf: &[u8]) -> (r: Result<Option<(OwnedStoredRecord, usize)>>)
    ensures
        match record_decoding(buf@) {
            Ok(None) => r matches Ok(None),
            Ok(Some((record, n))) => r matches Ok(Some((rec, total))) && rec@ == record && total == n,
            Err(e) => r matches Err(error) && error@ == e,
        },
{
    proof {
        reveal(record_decoding);
    }
    match crate::format::frame::decode(buf, FormatLimits::default()) {
        Ok(Some((stored, consumed))) => Ok(Some((stored.into_owned(), consumed))),
        Ok(None) => Ok(None),
        Err(e) => Err(e),
    }
}

} // verus!
