//! The engine's envelope: what is stored about an event beside its payload.
use crate::bytes::{
    i64_at, i64_bytes, lemma_i64_bits, lemma_le_codec, put, put_i64, put_u16, put_u32, put_u64,
    read_array16, read_i64, read_u16, read_u32, read_u64, u16_at, u32_at, u64_at,
};
use crate::error::{invalid_format, ErrorView, Result, SalamanderError};
use crate::format::ids::{
    event_type_error, BatchId, BranchId, CodecId, DatabaseId, EventId, EventType, StreamId,
    StreamRevision,
};
use crate::format::metadata::{
    has_key, inserted, key_lt, keys_ascend, lemma_inserted_last, lemma_key_order,
    metadata_key_error, validate_metadata_key, Metadata, MetadataView,
};
use crate::text::{decimal, decimal_string, join2, lemma_utf8_round_trip, utf8_text};
use vstd::bytes::{spec_u16_to_le_bytes, spec_u32_to_le_bytes, spec_u64_to_le_bytes};
use vstd::prelude::*;
use vstd::utf8::{decode_utf8, encode_utf8, valid_utf8};

verus! {

pub const ENVELOPE_VERSION: u16 = 1;

/// The largest sizes that are accepted on writing and on reading.
#[derive(Debug, Clone, Copy)]
pub struct FormatLimits {
    pub max_envelope_bytes: u32,
    pub max_payload_bytes: u32,
    pub max_metadata_entries: u16,
    pub max_metadata_key_bytes: u16,
    pub max_metadata_value_bytes: u32,
    pub max_event_type_bytes: u16,
}

/// The limits that the log itself uses.
pub open spec fn default_limits() -> FormatLimits {
    FormatLimits {
        max_envelope_bytes: 1_048_576,
        max_payload_bytes: 16_777_216,
        max_metadata_entries: 256,
        max_metadata_key_bytes: 1024,
        max_metadata_value_bytes: 65_536,
        max_event_type_bytes: 1024,
    }
}

impl Default for FormatLimits {
    fn default() -> (r: Self)
        ensures
            r == default_limits(),
    {
        FormatLimits {
            max_envelope_bytes: 1_048_576,
            max_payload_bytes: 16_777_216,
            max_metadata_entries: 256,
            max_metadata_key_bytes: 1024,
            max_metadata_value_bytes: 65_536,
            max_event_type_bytes: 1024,
        }
    }
}

/// What the engine stores about an event.
#[derive(Debug, PartialEq, Eq)]
pub struct RecordEnvelopeV2 {
    pub event_id: EventId,
    pub database_id: DatabaseId,
    pub branch_id: BranchId,
    pub stream_id: StreamId,
    pub stream_revision: StreamRevision,
    pub timestamp_unix_nanos: i64,
    pub event_type: EventType,
    pub schema_version: u32,
    pub codec: CodecId,
    pub batch_id: BatchId,
    pub batch_index: u32,
    pub metadata: Metadata,
}

/// An envelope as plain values.
#[verifier::ext_equal]
pub struct EnvelopeView {
    pub event_id: Seq<u8>,
    pub database_id: Seq<u8>,
    pub branch_id: Seq<u8>,
    pub stream_id: Seq<u8>,
    pub stream_revision: u64,
    pub timestamp: i64,
    pub event_type: Seq<char>,
    pub schema_version: u32,
    pub codec: u32,
    pub batch_id: Seq<u8>,
    pub batch_index: u32,
    pub metadata: MetadataView,
}

impl View for RecordEnvelopeV2 {
    type V = EnvelopeView;

    open spec fn view(&self) -> EnvelopeView {
        EnvelopeView {
            event_id: self.event_id@,
            database_id: self.database_id@,
            branch_id: self.branch_id@,
            stream_id: self.stream_id@,
            stream_revision: self.stream_revision.0,
            timestamp: self.timestamp_unix_nanos,
            event_type: self.event_type@,
            schema_version: self.schema_version,
            codec: self.codec.0,
            batch_id: self.batch_id@,
            batch_index: self.batch_index,
            metadata: self.metadata@,
        }
    }
}

impl Clone for RecordEnvelopeV2 {
    fn clone(&self) -> (r: Self)
        ensures
            r@ == self@,
    {
        RecordEnvelopeV2 {
            event_id: self.event_id,
            database_id: self.database_id,
            branch_id: self.branch_id,
            stream_id: self.stream_id,
            stream_revision: self.stream_revision,
            timestamp_unix_nanos: self.timestamp_unix_nanos,
            event_type: self.event_type.clone(),
            schema_version: self.schema_version,
            codec: self.codec,
            batch_id: self.batch_id,
            batch_index: self.batch_index,
            metadata: self.metadata.clone(),
        }
    }
}

/// What holds of the view of every envelope.
pub open spec fn envelope_valid(env: EnvelopeView) -> bool {
    &&& env.event_id.len() == 16
    &&& env.database_id.len() == 16
    &&& env.branch_id.len() == 16
    &&& env.stream_id.len() == 16
    &&& env.batch_id.len() == 16
    &&& event_type_error(env.event_type) is None
    &&& keys_ascend(env.metadata)
}

/// The error for a size above its maximum.
pub open spec fn limit_error(resource: Seq<char>, actual: int, maximum: int) -> ErrorView {
    ErrorView::ResourceLimit { resource, actual: actual as u64, maximum: maximum as u64 }
}

pub fn enforce_limit(resource: &'static str, actual: usize, maximum: usize) -> (r: Result<()>)
    ensures
        r is Ok <==> actual <= maximum,
        r matches Err(e) ==> e@ == limit_error(resource@, actual as int, maximum as int),
{
    if actual > maximum {
        return Err(SalamanderError::ResourceLimit { resource, actual: actual as u64, maximum: maximum as u64 });
    }
    Ok(())
}

/// A length of two bytes, then the bytes.
pub open spec fn short_bytes(bytes: Seq<u8>) -> Seq<u8> {
    spec_u16_to_le_bytes(bytes.len() as u16) + bytes
}

/// One metadata entry on disk.
pub open spec fn entry_bytes(entry: (Seq<char>, Seq<u8>)) -> Seq<u8> {
    short_bytes(encode_utf8(entry.0)) + spec_u32_to_le_bytes(entry.1.len() as u32) + entry.1
}

/// The metadata entries on disk, in key order.
pub open spec fn entries_bytes(m: MetadataView) -> Seq<u8>
    decreases m.len(),
{
    if m.len() == 0 {
        Seq::empty()
    } else {
        entries_bytes(m.drop_last()) + entry_bytes(m.last())
    }
}

/// The fields before the event type.
pub open spec fn envelope_head(env: EnvelopeView) -> Seq<u8> {
    spec_u16_to_le_bytes(ENVELOPE_VERSION) + env.event_id + env.database_id + env.branch_id + env.stream_id
        + spec_u64_to_le_bytes(env.stream_revision) + i64_bytes(env.timestamp)
}

/// The fields between the event type and the metadata entries.
pub open spec fn envelope_middle(env: EnvelopeView) -> Seq<u8> {
    spec_u32_to_le_bytes(env.schema_version) + spec_u32_to_le_bytes(env.codec) + env.batch_id
        + spec_u32_to_le_bytes(env.batch_index) + spec_u16_to_le_bytes(env.metadata.len() as u16)
}

/// An envelope on disk.
pub open spec fn envelope_bytes(env: EnvelopeView) -> Seq<u8> {
    envelope_head(env) + short_bytes(encode_utf8(env.event_type)) + envelope_middle(env) + entries_bytes(env.metadata)
}

/// Why an entry cannot be written, if it cannot.
pub open spec fn entry_error(entry: (Seq<char>, Seq<u8>), limits: FormatLimits) -> Option<ErrorView> {
    if metadata_key_error(entry.0) is Some {
        metadata_key_error(entry.0)
    } else if encode_utf8(entry.0).len() > limits.max_metadata_key_bytes {
        Some(limit_error("metadata key bytes"@, encode_utf8(entry.0).len() as int, limits.max_metadata_key_bytes as int))
    } else if entry.1.len() > limits.max_metadata_value_bytes {
        Some(limit_error("metadata value bytes"@, entry.1.len() as int, limits.max_metadata_value_bytes as int))
    } else {
        None
    }
}

/// The error of the first entry that cannot be written.
pub open spec fn entries_error(m: MetadataView, limits: FormatLimits) -> Option<ErrorView>
    decreases m.len(),
{
    if m.len() == 0 {
        None
    } else if entries_error(m.drop_last(), limits) is Some {
        entries_error(m.drop_last(), limits)
    } else {
        entry_error(m.last(), limits)
    }
}

/// The outcome of writing an envelope.
pub open spec fn envelope_encoding(env: EnvelopeView, limits: FormatLimits) -> core::result::Result<Seq<u8>, ErrorView> {
    if encode_utf8(env.event_type).len() > limits.max_event_type_bytes {
        Err(limit_error("event type bytes"@, encode_utf8(env.event_type).len() as int, limits.max_event_type_bytes as int))
    } else if env.metadata.len() > limits.max_metadata_entries {
        Err(limit_error("metadata entries"@, env.metadata.len() as int, limits.max_metadata_entries as int))
    } else {
        match entries_error(env.metadata, limits) {
            Some(e) => Err(e),
            None => Ok(envelope_bytes(env)),
        }
    }
}

fn put_short_bytes(out: &mut Vec<u8>, bytes: &[u8])
    requires
        bytes@.len() <= u16::MAX,
    ensures
        final(out)@ == old(out)@ + short_bytes(bytes@),
{
    put_u16(out, bytes.len() as u16);
    put(out, bytes);
    assert(out@ =~= old(out)@ + short_bytes(bytes@));
}

proof fn lemma_entries_error_prefix(m: MetadataView, limits: FormatLimits, n: int)
    requires
        0 <= n <= m.len(),
        entries_error(m.take(n), limits) is Some,
    ensures
        entries_error(m, limits) == entries_error(m.take(n), limits),
    decreases m.len() - n,
{
    if n == m.len() {
        assert(m.take(n) =~= m);
    } else {
        assert(m.take(n + 1).drop_last() =~= m.take(n));
        lemma_entries_error_prefix(m, limits, n + 1);
    }
}

/// Writes an envelope.
pub fn encode_envelope(envelope: &RecordEnvelopeV2, limits: FormatLimits) -> (r: Result<Vec<u8>>)
    ensures
        match envelope_encoding(envelope@, limits) {
            Ok(bytes) => r matches Ok(out) && out@ == bytes,
            Err(e) => r matches Err(error) && error@ == e,
        },
{
    let ghost env = envelope@;
    let event_type = envelope.event_type.as_str();
    let type_bytes = event_type.as_bytes();
    match enforce_limit("event type bytes", type_bytes.len(), limits.max_event_type_bytes as usize) {
        Ok(()) => {},
        Err(e) => return Err(e),
    }
    match enforce_limit("metadata entries", envelope.metadata.len(), limits.max_metadata_entries as usize) {
        Ok(()) => {},
        Err(e) => return Err(e),
    }
    let mut out: Vec<u8> = Vec::new();
    put_u16(&mut out, ENVELOPE_VERSION);
    put(&mut out, envelope.event_id.as_bytes());
    put(&mut out, envelope.database_id.as_bytes());
    put(&mut out, envelope.branch_id.as_bytes());
    put(&mut out, envelope.stream_id.as_bytes());
    put_u64(&mut out, envelope.stream_revision.0);
    put_i64(&mut out, envelope.timestamp_unix_nanos);
    assert(out@ =~= envelope_head(env));
    put_short_bytes(&mut out, type_bytes);
    let ghost before_middle = out@;
    put_u32(&mut out, envelope.schema_version);
    put_u32(&mut out, envelope.codec.0);
    put(&mut out, envelope.batch_id.as_bytes());
    put_u32(&mut out, envelope.batch_index);
    put_u16(&mut out, envelope.metadata.len() as u16);
    assert(out@ =~= before_middle + envelope_middle(env));
    let ghost fixed = out@;
    let mut i: usize = 0;
    assert(env.metadata.take(0) =~= MetadataView::empty());
    assert(out@ =~= fixed + entries_bytes(env.metadata.take(0)));
    while i < envelope.metadata.len()
        invariant
            env == envelope@,
            i <= env.metadata.len(),
            entries_error(env.metadata.take(i as int), limits) is None,
            out@ == fixed + entries_bytes(env.metadata.take(i as int)),
            encode_utf8(env.event_type).len() <= limits.max_event_type_bytes,
            env.metadata.len() <= limits.max_metadata_entries,
        decreases env.metadata.len() - i,
    {
        let entry = envelope.metadata.entry(i);
        let ghost upto = env.metadata.take(i + 1);
        proof {
            assert(upto.drop_last() =~= env.metadata.take(i as int));
            assert(upto.last() == env.metadata[i as int]);
            if entry_error(env.metadata[i as int], limits) is Some {
                lemma_entries_error_prefix(env.metadata, limits, i + 1);
            }
        }
        let key = entry.key.as_str();
        match validate_metadata_key(key) {
            Ok(()) => {},
            Err(e) => return Err(e),
        }
        match enforce_limit("metadata key bytes", key.as_bytes().len(), limits.max_metadata_key_bytes as usize) {
            Ok(()) => {},
            Err(e) => return Err(e),
        }
        match enforce_limit("metadata value bytes", entry.value.len(), limits.max_metadata_value_bytes as usize) {
            Ok(()) => {},
            Err(e) => return Err(e),
        }
        put_short_bytes(&mut out, key.as_bytes());
        put_u32(&mut out, entry.value.len() as u32);
        put(&mut out, entry.value.as_slice());
        assert(out@ =~= fixed + entries_bytes(upto));
        i = i + 1;
    }
    assert(env.metadata.take(i as int) =~= env.metadata);
    assert(out@ =~= envelope_bytes(env));
    Ok(out)
}

/// The error for bytes that end too early.
pub open spec fn truncated() -> ErrorView {
    ErrorView::InvalidFormat("truncated v2 envelope"@)
}

/// One metadata entry read at `at`: its key, its value, and where it ends.
pub open spec fn entry_decoding(buf: Seq<u8>, at: int, limits: FormatLimits) -> core::result::Result<
    (Seq<char>, Seq<u8>, int),
    ErrorView,
> {
    let key_len = u16_at(buf, at) as int;
    let key_end = at + 2 + key_len;
    let key_bytes = buf.subrange(at + 2, key_end);
    let value_len = u32_at(buf, key_end) as int;
    let end = key_end + 4 + value_len;
    if at + 2 > buf.len() {
        Err(truncated())
    } else if key_len > limits.max_metadata_key_bytes {
        Err(limit_error("short byte string"@, key_len, limits.max_metadata_key_bytes as int))
    } else if key_end > buf.len() {
        Err(truncated())
    } else if !valid_utf8(key_bytes) {
        Err(ErrorView::InvalidFormat("metadata key is not UTF-8"@))
    } else if metadata_key_error(decode_utf8(key_bytes)) is Some {
        Err(metadata_key_error(decode_utf8(key_bytes))->0)
    } else if key_end + 4 > buf.len() {
        Err(truncated())
    } else if value_len > limits.max_metadata_value_bytes {
        Err(limit_error("metadata value bytes"@, value_len, limits.max_metadata_value_bytes as int))
    } else if end > buf.len() {
        Err(truncated())
    } else {
        Ok((decode_utf8(key_bytes), buf.subrange(key_end + 4, end), end))
    }
}

/// The metadata that `count` entries from `at` to the very end add to `m`.
pub open spec fn entries_decoding(buf: Seq<u8>, at: int, count: nat, m: MetadataView, limits: FormatLimits) -> core::result::Result<
    MetadataView,
    ErrorView,
>
    decreases count,
{
    if count == 0 {
        if at == buf.len() {
            Ok(m)
        } else {
            Err(ErrorView::InvalidFormat("trailing bytes in v2 envelope"@))
        }
    } else {
        match entry_decoding(buf, at, limits) {
            Err(e) => Err(e),
            Ok((key, value, next)) => if has_key(m, key) {
                Err(ErrorView::InvalidFormat("duplicate metadata key"@))
            } else {
                entries_decoding(buf, next, (count - 1) as nat, inserted(m, key, value), limits)
            },
        }
    }
}

/// The length of the fields before the event type, its length field included.
pub const HEAD_LEN: usize = 84;

/// The length of the fields between the event type and the metadata entries.
pub const MIDDLE_LEN: usize = 30;

/// The fixed fields of an envelope whose event type ends at `b`, with `metadata`.
pub open spec fn envelope_fields(buf: Seq<u8>, b: int, metadata: MetadataView) -> EnvelopeView {
    EnvelopeView {
        event_id: buf.subrange(2, 18),
        database_id: buf.subrange(18, 34),
        branch_id: buf.subrange(34, 50),
        stream_id: buf.subrange(50, 66),
        stream_revision: u64_at(buf, 66),
        timestamp: i64_at(buf, 74),
        event_type: decode_utf8(buf.subrange(84, b)),
        schema_version: u32_at(buf, b),
        codec: u32_at(buf, b + 4),
        batch_id: buf.subrange(b + 8, b + 24),
        batch_index: u32_at(buf, b + 24),
        metadata,
    }
}

/// The outcome of reading an envelope that fills `buf`.
pub open spec fn envelope_decoding(buf: Seq<u8>, limits: FormatLimits) -> core::result::Result<EnvelopeView, ErrorView> {
    let type_len = u16_at(buf, 82) as int;
    let b = 84 + type_len;
    let type_bytes = buf.subrange(84, b);
    let count = u16_at(buf, b + 28);
    if buf.len() < 2 {
        Err(truncated())
    } else if u16_at(buf, 0) != ENVELOPE_VERSION {
        Err(ErrorView::InvalidFormat("unsupported envelope version "@ + decimal(u16_at(buf, 0) as nat)))
    } else if buf.len() < 84 {
        Err(truncated())
    } else if type_len > limits.max_event_type_bytes {
        Err(limit_error("short byte string"@, type_len, limits.max_event_type_bytes as int))
    } else if buf.len() < b {
        Err(truncated())
    } else if !valid_utf8(type_bytes) {
        Err(ErrorView::InvalidFormat("event type is not UTF-8"@))
    } else if event_type_error(decode_utf8(type_bytes)) is Some {
        Err(event_type_error(decode_utf8(type_bytes))->0)
    } else if buf.len() < b + 30 {
        Err(truncated())
    } else if count > limits.max_metadata_entries {
        Err(limit_error("metadata entries"@, count as int, limits.max_metadata_entries as int))
    } else {
        match entries_decoding(buf, b + 30, count as nat, MetadataView::empty(), limits) {
            Err(e) => Err(e),
            Ok(metadata) => Ok(envelope_fields(buf, b, metadata)),
        }
    }
}

fn truncated_error() -> (e: SalamanderError)
    ensures
        e@ == truncated(),
{
    invalid_format("truncated v2 envelope")
}

/// Reads one metadata entry.
fn decode_entry(buf: &[u8], at: usize, limits: FormatLimits) -> (r: Result<(String, Vec<u8>, usize)>)
    requires
        at <= buf@.len(),
    ensures
        match entry_decoding(buf@, at as int, limits) {
            Ok((key, value, next)) => r matches Ok((k, v, n)) && k@ == key && v@ == value && n == next && at <= n <= buf@.len(),
            Err(e) => r matches Err(error) && error@ == e,
        },
{
    if buf.len() - at < 2 {
        return Err(truncated_error());
    }
    let key_len: usize = read_u16(buf, at) as usize;
    match enforce_limit("short byte string", key_len, limits.max_metadata_key_bytes as usize) {
        Ok(()) => {},
        Err(e) => return Err(e),
    }
    if buf.len() - at - 2 < key_len {
        return Err(truncated_error());
    }
    let key_end: usize = at + 2 + key_len;
    let key: String = match utf8_text(vstd::slice::slice_subrange(buf, at + 2, key_end)) {
        Some(key) => key,
        None => return Err(invalid_format("metadata key is not UTF-8")),
    };
    match validate_metadata_key(key.as_str()) {
        Ok(()) => {},
        Err(e) => return Err(e),
    }
    if buf.len() - key_end < 4 {
        return Err(truncated_error());
    }
    let value_len: usize = read_u32(buf, key_end) as usize;
    match enforce_limit("metadata value bytes", value_len, limits.max_metadata_value_bytes as usize) {
        Ok(()) => {},
        Err(e) => return Err(e),
    }
    if buf.len() - key_end - 4 < value_len {
        return Err(truncated_error());
    }
    let end: usize = key_end + 4 + value_len;
    let value = crate::bytes::copy_range(buf, key_end + 4, end);
    Ok((key, value, end))
}

/// Reads the metadata entries that fill the rest of `buf`.
fn decode_entries(buf: &[u8], from: usize, count: u16, limits: FormatLimits) -> (r: Result<Metadata>)
    requires
        from <= buf@.len(),
    ensures
        match entries_decoding(buf@, from as int, count as nat, MetadataView::empty(), limits) {
            Ok(metadata) => r matches Ok(m) && m@ == metadata,
            Err(e) => r matches Err(error) && error@ == e,
        },
{
    let mut metadata = Metadata::new();
    let mut at: usize = from;
    let mut left: u16 = count;
    while left > 0
        invariant
            at <= buf@.len(),
                entries_decoding(buf@, from as int, count as nat, MetadataView::empty(), limits) == entries_decoding(
                buf@,
                at as int,
                left as nat,
                metadata@,
                limits,
            ),
        decreases left,
    {
        match decode_entry(buf, at, limits) {
            Err(e) => return Err(e),
            Ok((key, value, next)) => {
                if metadata.insert(key, value).is_some() {
                    return Err(invalid_format("duplicate metadata key"));
                }
                at = next;
                left = left - 1;
            },
        }
    }
    if at != buf.len() {
        return Err(invalid_format("trailing bytes in v2 envelope"));
    }
    Ok(metadata)
}

/// Reads an envelope that fills `buf`.
pub fn decode_envelope(buf: &[u8], limits: FormatLimits) -> (r: Result<RecordEnvelopeV2>)
    ensures
        match envelope_decoding(buf@, limits) {
            Ok(env) => r matches Ok(e) && e@ == env,
            Err(e) => r matches Err(error) && error@ == e,
        },
{
    if buf.len() < 2 {
        return Err(truncated_error());
    }
    let version: u16 = read_u16(buf, 0);
    if version != ENVELOPE_VERSION {
        return Err(SalamanderError::InvalidFormat(
            join2("unsupported envelope version ", decimal_string(version as u64).as_str()),
        ));
    }
    if buf.len() < HEAD_LEN {
        return Err(truncated_error());
    }
    let type_len: usize = read_u16(buf, 82) as usize;
    match enforce_limit("short byte string", type_len, limits.max_event_type_bytes as usize) {
        Ok(()) => {},
        Err(e) => return Err(e),
    }
    if buf.len() - HEAD_LEN < type_len {
        return Err(truncated_error());
    }
    let b: usize = HEAD_LEN + type_len;
    let name: String = match utf8_text(vstd::slice::slice_subrange(buf, HEAD_LEN, b)) {
        Some(name) => name,
        None => return Err(invalid_format("event type is not UTF-8")),
    };
    let event_type = match EventType::new(name.as_str()) {
        Ok(t) => t,
        Err(e) => return Err(e),
    };
    if buf.len() - b < MIDDLE_LEN {
        return Err(truncated_error());
    }
    let count: u16 = read_u16(buf, b + 28);
    match enforce_limit("metadata entries", count as usize, limits.max_metadata_entries as usize) {
        Ok(()) => {},
        Err(e) => return Err(e),
    }
    let metadata = match decode_entries(buf, b + 30, count, limits) {
        Ok(m) => m,
        Err(e) => return Err(e),
    };
    Ok(RecordEnvelopeV2 {
        event_id: EventId::from_bytes(read_array16(buf, 2)),
        database_id: DatabaseId::from_bytes(read_array16(buf, 18)),
        branch_id: BranchId::from_bytes(read_array16(buf, 34)),
        stream_id: StreamId::from_bytes(read_array16(buf, 50)),
        stream_revision: StreamRevision(read_u64(buf, 66)),
        timestamp_unix_nanos: read_i64(buf, 74),
        event_type,
        schema_version: read_u32(buf, b),
        codec: CodecId(read_u32(buf, b + 4)),
        batch_id: BatchId::from_bytes(read_array16(buf, b + 8)),
        batch_index: read_u32(buf, b + 24),
        metadata,
    })
}

/// An entry that was written is read back, whatever stands before and after it.
proof fn lemma_entry_round_trip(buf: Seq<u8>, at: int, entry: (Seq<char>, Seq<u8>), limits: FormatLimits)
    requires
        0 <= at,
        at + entry_bytes(entry).len() <= buf.len(),
        buf.subrange(at, at + entry_bytes(entry).len()) == entry_bytes(entry),
        entry_error(entry, limits) is None,
    ensures
        entry_decoding(buf, at, limits) == Ok::<(Seq<char>, Seq<u8>, int), ErrorView>(
            (entry.0, entry.1, at + entry_bytes(entry).len()),
        ),
{
    lemma_le_codec();
    let kb = encode_utf8(entry.0);
    let e = entry_bytes(entry);
    lemma_utf8_round_trip(entry.0);
    assert(e.subrange(0, 2) =~= spec_u16_to_le_bytes(kb.len() as u16));
    assert(buf.subrange(at, at + 2) =~= e.subrange(0, 2));
    assert(u16_at(buf, at) == kb.len());
    let ke: int = at + 2 + kb.len();
    assert(e.subrange(2, 2 + kb.len() as int) =~= kb);
    assert(buf.subrange(at + 2, ke) =~= e.subrange(2, 2 + kb.len() as int));
    assert(e.subrange(2 + kb.len() as int, 6 + kb.len() as int) =~= spec_u32_to_le_bytes(entry.1.len() as u32));
    assert(buf.subrange(ke, ke + 4) =~= e.subrange(2 + kb.len() as int, 6 + kb.len() as int));
    assert(u32_at(buf, ke) == entry.1.len());
    assert(e.subrange(6 + kb.len() as int, e.len() as int) =~= entry.1);
    assert(buf.subrange(ke + 4, at + e.len()) =~= e.subrange(6 + kb.len() as int, e.len() as int));
}

proof fn lemma_entries_error_each(m: MetadataView, limits: FormatLimits, i: int)
    requires
        entries_error(m, limits) is None,
        0 <= i < m.len(),
    ensures
        entry_error(m[i], limits) is None,
    decreases m.len(),
{
    if i < m.len() - 1 {
        lemma_entries_error_each(m.drop_last(), limits, i);
    }
}

/// `entries_bytes` read from the front.
proof fn lemma_entries_bytes_front(m: MetadataView)
    requires
        m.len() > 0,
    ensures
        entries_bytes(m) == entry_bytes(m[0]) + entries_bytes(m.skip(1)),
    decreases m.len(),
{
    if m.len() == 1 {
        assert(m.drop_last() =~= MetadataView::empty());
        assert(m.skip(1) =~= MetadataView::empty());
        assert(entries_bytes(m) =~= entry_bytes(m[0]) + entries_bytes(m.skip(1)));
    } else {
        lemma_entries_bytes_front(m.drop_last());
        assert(m.drop_last().skip(1) =~= m.skip(1).drop_last());
        assert(entries_bytes(m) =~= entry_bytes(m[0]) + entries_bytes(m.skip(1)));
    }
}

/// Entries that were written are read back.
proof fn lemma_entries_round_trip(buf: Seq<u8>, at: int, m: MetadataView, done: int, limits: FormatLimits)
    requires
        keys_ascend(m),
        entries_error(m, limits) is None,
        0 <= done <= m.len(),
        0 <= at <= buf.len(),
        buf.skip(at) == entries_bytes(m.skip(done)),
    ensures
        entries_decoding(buf, at, (m.len() - done) as nat, m.take(done), limits) == Ok::<MetadataView, ErrorView>(m),
    decreases m.len() - done,
{
    if done == m.len() {
        assert(m.skip(done) =~= MetadataView::empty());
        assert(buf.skip(at).len() == 0);
        assert(m.take(done) =~= m);
    } else {
        let rest = m.skip(done);
        lemma_entries_bytes_front(rest);
        let e = entry_bytes(m[done]);
        assert(rest[0] == m[done]);
        assert(buf.skip(at).len() == e.len() + entries_bytes(rest.skip(1)).len());
        assert(buf.skip(at).subrange(0, e.len() as int) =~= e);
        assert(buf.subrange(at, at + e.len()) =~= buf.skip(at).subrange(0, e.len() as int));
        lemma_entries_error_each(m, limits, done);
        lemma_entry_round_trip(buf, at, m[done], limits);
        let next = at + e.len();
        assert(buf.skip(next) =~= buf.skip(at).skip(e.len() as int));
        assert(buf.skip(next) =~= entries_bytes(rest.skip(1)));
        assert(rest.skip(1) =~= m.skip(done + 1));
        if has_key(m.take(done), m[done].0) {
            let i = choose|i: int| 0 <= i < done && (#[trigger] m.take(done)[i]).0 == m[done].0;
            assert(key_lt(m[i].0, m[done].0));
            lemma_key_order(m[i].0, m[done].0);
        }
        if done > 0 {
            assert(key_lt(m[done - 1].0, m[done].0));
        }
        lemma_inserted_last(m.take(done), m[done].0, m[done].1);
        assert(m.take(done).push(m[done]) =~= m.take(done + 1));
        lemma_entries_round_trip(buf, next, m, done + 1, limits);
    }
}

/// Where the fields before the event type lie.
proof fn lemma_head_fields(env: EnvelopeView)
    requires
        envelope_valid(env),
    ensures
        envelope_head(env).len() == 82,
        envelope_head(env).subrange(0, 2) == spec_u16_to_le_bytes(ENVELOPE_VERSION),
        envelope_head(env).subrange(2, 18) == env.event_id,
        envelope_head(env).subrange(18, 34) == env.database_id,
        envelope_head(env).subrange(34, 50) == env.branch_id,
        envelope_head(env).subrange(50, 66) == env.stream_id,
        envelope_head(env).subrange(66, 74) == spec_u64_to_le_bytes(env.stream_revision),
        envelope_head(env).subrange(74, 82) == i64_bytes(env.timestamp),
{
    lemma_le_codec();
    let head = envelope_head(env);
    assert(spec_u16_to_le_bytes(ENVELOPE_VERSION).len() == 2);
    assert(spec_u64_to_le_bytes(env.stream_revision).len() == 8);
    assert(i64_bytes(env.timestamp).len() == 8);
    assert(head.len() == 82);
    assert(head.subrange(0, 2) =~= spec_u16_to_le_bytes(ENVELOPE_VERSION));
    assert(head.subrange(2, 18) =~= env.event_id);
    assert(head.subrange(18, 34) =~= env.database_id);
    assert(head.subrange(34, 50) =~= env.branch_id);
    assert(head.subrange(50, 66) =~= env.stream_id);
    assert(head.subrange(66, 74) =~= spec_u64_to_le_bytes(env.stream_revision));
    assert(head.subrange(74, 82) =~= i64_bytes(env.timestamp));
}

/// An envelope that could be written is read back as it was.
pub proof fn lemma_envelope_round_trip(env: EnvelopeView, limits: FormatLimits)
    requires
        envelope_valid(env),
        envelope_encoding(env, limits) is Ok,
    ensures
        envelope_decoding(envelope_encoding(env, limits)->Ok_0, limits) == Ok::<EnvelopeView, ErrorView>(env),
{
    lemma_le_codec();
    lemma_i64_bits(env.timestamp, 0);
    lemma_utf8_round_trip(env.event_type);
    let buf = envelope_bytes(env);
    let head = envelope_head(env);
    let tb = encode_utf8(env.event_type);
    let mid = envelope_middle(env);
    let b: int = 84 + tb.len() as int;
    lemma_head_fields(env);
    assert(mid.len() == 30);
    assert(buf.subrange(0, 82) =~= head);
    assert(buf.subrange(0, 2) =~= head.subrange(0, 2));
    assert(buf.subrange(2, 18) =~= head.subrange(2, 18));
    assert(buf.subrange(18, 34) =~= head.subrange(18, 34));
    assert(buf.subrange(34, 50) =~= head.subrange(34, 50));
    assert(buf.subrange(50, 66) =~= head.subrange(50, 66));
    assert(buf.subrange(66, 74) =~= head.subrange(66, 74));
    assert(buf.subrange(74, 82) =~= head.subrange(74, 82));
    assert(buf.subrange(82, 84) =~= spec_u16_to_le_bytes(tb.len() as u16));
    assert(buf.subrange(84, b) =~= tb);
    assert(buf.subrange(b, b + 30) =~= mid);
    assert(buf.subrange(b, b + 4) =~= spec_u32_to_le_bytes(env.schema_version));
    assert(buf.subrange(b + 4, b + 8) =~= spec_u32_to_le_bytes(env.codec));
    assert(buf.subrange(b + 8, b + 24) =~= env.batch_id);
    assert(buf.subrange(b + 24, b + 28) =~= spec_u32_to_le_bytes(env.batch_index));
    assert(buf.subrange(b + 28, b + 30) =~= spec_u16_to_le_bytes(env.metadata.len() as u16));
    assert(env.metadata.skip(0) =~= env.metadata);
    assert(env.metadata.take(0) =~= MetadataView::empty());
    assert(buf.skip(b + 30) =~= entries_bytes(env.metadata));
    lemma_entries_round_trip(buf, b + 30, env.metadata, 0, limits);
    assert(envelope_fields(buf, b, env.metadata) =~= env);
}

} // verus!
