use salamander::error::SalamanderError;
use salamander::format::codec::{BincodeCodec, JsonCodec, TypedCodec};
use salamander::agent::body::EventBody;
use salamander::format::derive::{derive_stream_id, fresh_id};
use salamander::format::envelope::{FormatLimits, RecordEnvelopeV2};
use salamander::format::frame::{decode, encode, frame_total_len, FrameKind, StoredRecord, FRAME_HEADER_LEN};
use salamander::format::ids::{BatchId, BranchId, CodecId, DatabaseId, EventId, EventType, StreamId, StreamRevision};
use salamander::format::metadata::{validate_metadata_key, Metadata};
use salamander::json::Json;

fn id(byte: u8) -> [u8; 16] {
    [byte; 16]
}

fn record(payload: &[u8]) -> StoredRecord<'_> {
    let mut metadata = Metadata::new();
    metadata.insert("trace".to_string(), vec![1, 2, 3]);
    StoredRecord {
        kind: FrameKind::Event,
        flags: 0,
        position: 42,
        envelope: RecordEnvelopeV2 {
            event_id: EventId::from_bytes(id(1)),
            database_id: DatabaseId::from_bytes(id(2)),
            branch_id: BranchId::from_bytes(id(3)),
            stream_id: StreamId::from_bytes(id(4)),
            stream_revision: StreamRevision(9),
            timestamp_unix_nanos: -123,
            event_type: EventType::new("chat.message").unwrap(),
            schema_version: 7,
            codec: CodecId::json_utf8(),
            batch_id: BatchId::from_bytes(id(5)),
            batch_index: 2,
            metadata,
        },
        payload,
    }
}

#[test]
fn round_trip_preserves_envelope_and_opaque_payload() {
    let original = record(&[0, 159, 255, 1]);
    let bytes = encode(&original, FormatLimits::default()).unwrap();
    let (decoded, consumed) = decode(&bytes, FormatLimits::default()).unwrap().unwrap();
    assert_eq!(decoded, original);
    assert_eq!(consumed, bytes.len());
}

#[test]
fn short_frame_is_incomplete_not_corrupt() {
    let bytes = encode(&record(b"body"), FormatLimits::default()).unwrap();
    for length in 0..bytes.len() {
        let result = decode(&bytes[..length], FormatLimits::default());
        assert!(matches!(result, Ok(None)));
    }
}

#[test]
fn rejects_unknown_flags_before_payload_access() {
    let mut bytes = encode(&record(b"body"), FormatLimits::default()).unwrap();
    bytes[7] = 0x80;
    assert!(matches!(decode(&bytes, FormatLimits::default()), Err(SalamanderError::InvalidFormat(_))));
}

#[test]
fn rejects_bad_magic_version_and_reserved_header() {
    let original = encode(&record(b"body"), FormatLimits::default()).unwrap();

    let mut bad_magic = original.clone();
    bad_magic[0] ^= 1;
    assert!(matches!(decode(&bad_magic, FormatLimits::default()), Err(SalamanderError::InvalidFormat(_))));

    let mut bad_version = original.clone();
    bad_version[4..6].copy_from_slice(&99u16.to_le_bytes());
    assert!(matches!(decode(&bad_version, FormatLimits::default()), Err(SalamanderError::InvalidFormat(_))));

    let mut bad_reserved = original;
    bad_reserved[28] = 1;
    assert!(matches!(decode(&bad_reserved, FormatLimits::default()), Err(SalamanderError::InvalidFormat(_))));
}

#[test]
fn rejects_checksum_mutation() {
    let mut bytes = encode(&record(b"body"), FormatLimits::default()).unwrap();
    *bytes.last_mut().unwrap() ^= 1;
    assert!(matches!(
        decode(&bytes, FormatLimits::default()),
        Err(SalamanderError::Corrupt { offset: 42, .. })
    ));
}

#[test]
fn limits_are_checked_before_waiting_for_declared_body() {
    let mut bytes = encode(&record(b"body"), FormatLimits::default()).unwrap();
    bytes[12..16].copy_from_slice(&u32::MAX.to_le_bytes());
    assert!(matches!(
        decode(&bytes, FormatLimits::default()),
        Err(SalamanderError::ResourceLimit { resource: "payload bytes", .. })
    ));
}

#[test]
fn json_codec_is_portable_utf8_json() {
    let value = Json::new(r#"{"hello":[1,true,null]}"#.to_string()).unwrap();
    let bytes = JsonCodec.encode(&value).unwrap();
    assert_eq!(std::str::from_utf8(&bytes).unwrap(), r#"{"hello":[1,true,null]}"#);
    let decoded: Json = JsonCodec.decode(&bytes).unwrap();
    assert_eq!(decoded.as_str(), value.as_str());
    assert_eq!(TypedCodec::<Json>::id(&JsonCodec), CodecId::json_utf8());
}

#[test]
fn payloads_of_every_small_length_round_trip() {
    for n in 0..300usize {
        let payload: Vec<u8> = (0..n).map(|i| (i * 7 + n) as u8).collect();
        let original = record(&payload);
        let bytes = encode(&original, FormatLimits::default()).unwrap();
        let (decoded, consumed) = decode(&bytes, FormatLimits::default()).unwrap().unwrap();
        assert_eq!(decoded.payload, payload.as_slice());
        assert_eq!(decoded.envelope, original.envelope);
        assert_eq!(consumed, bytes.len());
    }
}

#[test]
fn a_frame_is_laid_out_as_declared() {
    let bytes = encode(&record(&[0, 1, 159, 255]), FormatLimits::default()).unwrap();
    assert_eq!(&bytes[4..6], &2u16.to_le_bytes());
    assert_eq!(bytes[6], FrameKind::Event.code());
    assert_eq!(bytes[7], 0);
    let envelope_len = u32::from_le_bytes([bytes[8], bytes[9], bytes[10], bytes[11]]) as usize;
    assert_eq!(&bytes[12..16], &4u32.to_le_bytes());
    assert_eq!(&bytes[16..24], &42u64.to_le_bytes());
    assert_eq!(&bytes[28..32], &[0u8; 4]);
    assert_eq!(bytes.len(), FRAME_HEADER_LEN + envelope_len + 4);
    assert_eq!(&bytes[bytes.len() - 4..], &[0, 1, 159, 255]);
    assert_eq!(frame_total_len(&bytes[..FRAME_HEADER_LEN], FormatLimits::default()).unwrap(), Some(bytes.len()));
    assert_eq!(frame_total_len(&bytes[..FRAME_HEADER_LEN - 1], FormatLimits::default()).unwrap(), None);
}

#[test]
fn kinds_have_codes() {
    for kind in [FrameKind::Event, FrameKind::System, FrameKind::BatchBegin, FrameKind::BatchCommit] {
        assert_eq!(FrameKind::from_code(kind.code()).unwrap(), kind);
    }
    assert!(matches!(FrameKind::from_code(77), Err(SalamanderError::InvalidFormat(_))));
}

#[test]
fn an_oversized_payload_is_refused() {
    let mut limits = FormatLimits::default();
    limits.max_payload_bytes = 3;
    assert!(matches!(
        encode(&record(b"body"), limits),
        Err(SalamanderError::ResourceLimit { resource: "payload bytes", actual: 4, maximum: 3 })
    ));
}

#[test]
fn identities_of_streams_differ_by_each_part() {
    let base = derive_stream_id(DatabaseId::from_bytes(id(1)), BranchId::zero(), "s");
    assert_eq!(base, derive_stream_id(DatabaseId::from_bytes(id(1)), BranchId::zero(), "s"));
    assert_ne!(base, derive_stream_id(DatabaseId::from_bytes(id(2)), BranchId::zero(), "s"));
    assert_ne!(base, derive_stream_id(DatabaseId::from_bytes(id(1)), BranchId::from_bytes(id(1)), "s"));
    assert_ne!(base, derive_stream_id(DatabaseId::from_bytes(id(1)), BranchId::zero(), "t"));
    assert!(!base.is_zero());
}

#[test]
fn event_types_are_limited() {
    assert!(EventType::new("a.b").is_ok());
    assert!(matches!(EventType::new(""), Err(SalamanderError::InvalidFormat(_))));
    assert!(matches!(EventType::new("a\0"), Err(SalamanderError::InvalidFormat(_))));
    assert!(matches!(validate_metadata_key(""), Err(SalamanderError::InvalidFormat(_))));
    assert!(validate_metadata_key("k").is_ok());
}

#[test]
fn metadata_is_a_map_in_order() {
    let mut m = Metadata::new();
    assert!(m.is_empty());
    assert_eq!(m.insert("b".into(), vec![2]), None);
    assert_eq!(m.insert("a".into(), vec![1]), None);
    assert_eq!(m.insert("c".into(), vec![3]), None);
    assert_eq!(m.insert("b".into(), vec![9]), Some(vec![2]));
    assert_eq!(m.len(), 3);
    assert_eq!(m.entry(0).key, "a");
    assert_eq!(m.entry(1).key, "b");
    assert_eq!(m.entry(2).key, "c");
    assert_eq!(m.get("b"), Some(&vec![9]));
    assert_eq!(m.get("d"), None);
    assert_eq!(m.remove("b"), Some(vec![9]));
    assert_eq!(m.remove("b"), None);
    assert!(!m.contains_key("b") && m.contains_key("c"));
}

#[test]
fn the_binary_codec_reads_what_it_wrote() {
    let body = EventBody::ToolResult { call_id: "c".into(), ok: true, content: "fine".into() };
    let bytes = TypedCodec::<EventBody>::encode(&BincodeCodec, &body).unwrap();
    let mut want = vec![5, 0, 0, 0];
    want.extend_from_slice(&1u64.to_le_bytes());
    want.push(b'c');
    want.push(1);
    want.extend_from_slice(&4u64.to_le_bytes());
    want.extend_from_slice(b"fine");
    assert_eq!(bytes, want);
    let back: EventBody = BincodeCodec.decode(&bytes).unwrap();
    assert!(matches!(back, EventBody::ToolResult { call_id, ok: true, content } if call_id == "c" && content == "fine"));
    let short: Result<EventBody, SalamanderError> = BincodeCodec.decode(&bytes[..7]);
    assert!(matches!(short, Err(SalamanderError::Codec(_))));
    assert_eq!(TypedCodec::<EventBody>::id(&BincodeCodec), CodecId::rust_bincode_v1());
}

#[test]
fn text_that_is_no_json_is_refused() {
    assert!(Json::new("{".to_string()).is_err());
    assert!(matches!(JsonCodec.decode(b"{"), Err(SalamanderError::Codec(_))));
}

#[test]
fn fresh_identities_hold_the_time_and_the_count() {
    let id = fresh_id(0x0102_0304_0506_0708, 1, 2);
    assert_eq!(id, [8, 7, 6, 5, 4, 3, 2, 1, 1, 0, 0, 0, 2, 0, 0, 0]);
    assert_ne!(fresh_id(5, 1, 7), fresh_id(5, 2, 7));
    assert_ne!(fresh_id(5, 1, 7), fresh_id(6, 1, 7));
    assert_eq!(fresh_id(0, 0, 1 << 32)[8], 1);
}
