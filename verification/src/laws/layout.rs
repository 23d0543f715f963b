//! Where things stand on disk: the bytes of frames, envelopes and bodies, by
//! place.
use crate::agent::body::{body_bytes, BodyView, Role};
use crate::bytes::{lemma_le_codec, u32_at, u64_at};
use crate::checksum::crc32c_after;
use crate::format::envelope::{envelope_bytes, envelope_encoding, envelope_valid, EnvelopeView, FormatLimits};
use crate::format::frame::{frame_encoding, FrameKind, RecordView};
use vstd::bytes::{spec_u16_to_le_bytes, spec_u32_to_le_bytes, spec_u64_to_le_bytes};
use vstd::prelude::*;
use vstd::utf8::encode_utf8;

verus! {

/// A frame begins with its mark, version, kind and flags, then the lengths of its
/// envelope and payload and its position, then a checksum over all the rest, four
/// bytes of zero, the envelope and the payload.
pub proof fn lemma_frame_layout(record: RecordView, limits: FormatLimits)
    requires
        frame_encoding(record, limits) is Ok,
        limits.max_payload_bytes <= u32::MAX,
        limits.max_envelope_bytes <= u32::MAX,
    ensures
        ({
            let frame = frame_encoding(record, limits)->Ok_0;
            let envelope = envelope_encoding(record.envelope, limits)->Ok_0;
            let n = envelope.len() as int;
            let m = record.payload.len() as int;
            &&& envelope_encoding(record.envelope, limits) is Ok
            &&& record.flags == 0
            &&& m <= limits.max_payload_bytes && n <= limits.max_envelope_bytes
            &&& frame.len() == 32 + n + m
            &&& frame[0] == 0x53 && frame[1] == 0x44 && frame[2] == 0x42 && frame[3] == 0x32
            &&& frame.subrange(4, 6) == spec_u16_to_le_bytes(2u16)
            &&& frame[6] == match record.kind {
                FrameKind::Event => 1u8,
                FrameKind::System => 2u8,
                FrameKind::BatchBegin => 3u8,
                FrameKind::BatchCommit => 4u8,
            }
            &&& frame[7] == 0
            &&& u32_at(frame, 8) == n && u32_at(frame, 12) == m && u64_at(frame, 16) == record.position
            &&& u32_at(frame, 24) == crc32c_after(crc32c_after(0, frame.subrange(0, 24)), frame.subrange(28, frame.len() as int))
            &&& u32_at(frame, 28) == 0
            &&& frame.subrange(32, 32 + n) == envelope
            &&& frame.subrange(32 + n, 32 + n + m) == record.payload
        }),
{
    lemma_le_codec();
    let frame = frame_encoding(record, limits)->Ok_0;
    let envelope = envelope_encoding(record.envelope, limits)->Ok_0;
    let n = envelope.len() as int;
    let m = record.payload.len() as int;
    let prefix = crate::format::frame::header_prefix(record.kind, record.flags, n, m, record.position);
    let body = crate::format::frame::frame_body(envelope, record.payload);
    let version = spec_u16_to_le_bytes(2u16);
    assert(version.len() == 2);
    assert(spec_u32_to_le_bytes(n as u32).len() == 4);
    assert(spec_u32_to_le_bytes(m as u32).len() == 4);
    assert(spec_u64_to_le_bytes(record.position).len() == 8);
    assert(prefix.len() == 24);
    let sum = crc32c_after(crc32c_after(0, prefix), body);
    assert(frame.subrange(0, 24) =~= prefix);
    assert(frame.subrange(28, frame.len() as int) =~= body);
    assert(frame.subrange(8, 12) =~= spec_u32_to_le_bytes(n as u32));
    assert(frame.subrange(12, 16) =~= spec_u32_to_le_bytes(m as u32));
    assert(frame.subrange(16, 24) =~= spec_u64_to_le_bytes(record.position));
    assert(frame.subrange(24, 28) =~= spec_u32_to_le_bytes(sum));
    assert(frame.subrange(28, 32) =~= spec_u32_to_le_bytes(0));
    assert(frame.subrange(32, 32 + n) =~= envelope);
    assert(frame.subrange(32 + n, 32 + n + m) =~= record.payload);
    assert(frame.subrange(4, 6) =~= version);
}

/// An envelope begins with its version and the identities of its event, database,
/// branch and stream, then the revision and the time, the type under its length,
/// and the version of the schema, the codec, the batch and the place in it.
pub proof fn lemma_envelope_layout(env: EnvelopeView)
    requires
        envelope_valid(env),
        encode_utf8(env.event_type).len() <= u16::MAX,
    ensures
        ({
            let bytes = envelope_bytes(env);
            let t = encode_utf8(env.event_type);
            let b = 84 + t.len() as int;
            &&& bytes.len() >= b + 30
            &&& bytes.subrange(2, 18) == env.event_id
            &&& bytes.subrange(18, 34) == env.database_id
            &&& bytes.subrange(34, 50) == env.branch_id
            &&& bytes.subrange(50, 66) == env.stream_id
            &&& u64_at(bytes, 66) == env.stream_revision
            &&& bytes.subrange(84, b) == t
            &&& u32_at(bytes, b) == env.schema_version
            &&& u32_at(bytes, b + 4) == env.codec
            &&& bytes.subrange(b + 8, b + 24) == env.batch_id
            &&& u32_at(bytes, b + 24) == env.batch_index
        }),
{
    lemma_le_codec();
    let bytes = envelope_bytes(env);
    let t = encode_utf8(env.event_type);
    let b = 84 + t.len() as int;
    let head = crate::format::envelope::envelope_head(env);
    let middle = crate::format::envelope::envelope_middle(env);
    assert(crate::bytes::i64_bytes(env.timestamp).len() == 8);
    assert(head.len() == 82);
    assert(middle.len() == 30);
    assert(bytes.subrange(0, 82) =~= head);
    assert(bytes.subrange(b, b + 30) =~= middle);
    assert(bytes.subrange(2, 18) =~= env.event_id);
    assert(bytes.subrange(18, 34) =~= env.database_id);
    assert(bytes.subrange(34, 50) =~= env.branch_id);
    assert(bytes.subrange(50, 66) =~= env.stream_id);
    assert(bytes.subrange(66, 74) =~= spec_u64_to_le_bytes(env.stream_revision));
    assert(bytes.subrange(84, b) =~= t);
    assert(bytes.subrange(b, b + 4) =~= spec_u32_to_le_bytes(env.schema_version));
    assert(bytes.subrange(b + 4, b + 8) =~= spec_u32_to_le_bytes(env.codec));
    assert(bytes.subrange(b + 8, b + 24) =~= env.batch_id);
    assert(bytes.subrange(b + 24, b + 28) =~= spec_u32_to_le_bytes(env.batch_index));
}

/// A text or a byte string stands under its length in eight bytes.
pub open spec fn under_length(bytes: Seq<u8>) -> Seq<u8> {
    spec_u64_to_le_bytes(bytes.len() as u64) + bytes
}

/// A body is stored as the number of its kind, then its fields in their order: a
/// text or a byte string under its length, a role as a number, a yes or no as
/// one byte.
pub proof fn lemma_body_layout(body: BodyView)
    ensures
        ({
            let bytes = body_bytes(body);
            let word = |n: u32| spec_u32_to_le_bytes(n);
            let text = |s: Seq<char>| under_length(encode_utf8(s));
            match body {
                BodyView::Put { key, value } => bytes == word(0) + text(key) + under_length(value),
                BodyView::Delete { key } => bytes == word(1) + text(key),
                BodyView::SessionStarted { agent_id, config_hash } => bytes == word(2) + text(agent_id) + text(config_hash),
                BodyView::ModelTurn { role, content, model } => bytes == word(3) + word(
                    match role {
                        Role::System => 0,
                        Role::User => 1,
                        Role::Assistant => 2,
                        Role::Tool => 3,
                    },
                ) + text(content) + text(model),
                BodyView::ToolCall { call_id, tool, args_json } => bytes == word(4) + text(call_id) + text(tool) + text(args_json),
                BodyView::ToolResult { call_id, ok, content } => bytes == word(5) + text(call_id) + seq![
                    if ok {
                        1u8
                    } else {
                        0u8
                    },
                ] + text(content),
                BodyView::Decision { summary, rationale } => bytes == word(6) + text(summary) + text(rationale),
                BodyView::SessionEnded { reason } => bytes == word(7) + text(reason),
            }
        }),
{
}

} // verus!
