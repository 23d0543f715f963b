use salamander::facade::fold::{offer_record, Offered};
use salamander::facade::page::{encode_payload, record_dto};
use salamander::facade::projection::descriptor_for_query;
use salamander::facade::query::{
    validate_query, JsonIndexRuntime, MissingRuntime, ProjectionRuntime, QueryDefinition, QueryOperation,
};
use salamander::facade::types::{PayloadCodec, RecordDto};
use salamander::format::frame::{FrameKind, OwnedStoredRecord};
use salamander::format::ids::StreamId;
use salamander::log::record::raw_test_envelope;
use salamander::log::select::partition_of;

fn row(stream: u8, payload: &str) -> RecordDto {
    let mut envelope = raw_test_envelope();
    envelope.stream_id = StreamId::from_bytes([stream; 16]);
    record_dto(OwnedStoredRecord {
        kind: FrameKind::Event,
        flags: 0,
        position: 0,
        envelope,
        payload: encode_payload(PayloadCodec::Json, payload.as_bytes()),
    })
    .unwrap()
}

fn definition(filter: Option<(String, Vec<u8>)>) -> QueryDefinition {
    QueryDefinition {
        key_field: "id".to_string(),
        indexes: vec![("by_city".to_string(), "city".to_string())],
        filter,
    }
}

fn filled() -> JsonIndexRuntime {
    let mut runtime = JsonIndexRuntime::new(definition(None));
    runtime.apply(&row(1, "{\"id\":\"a\",\"city\":\"x\"}")).unwrap();
    runtime.apply(&row(2, "{\"id\":\"b\",\"city\":\"y\"}")).unwrap();
    runtime.apply(&row(1, "{\"id\":\"ab\",\"city\":\"x\"}")).unwrap();
    runtime
}

fn texts(rows: Vec<Vec<u8>>) -> Vec<String> {
    rows.into_iter().map(|r| String::from_utf8(r).unwrap()).collect()
}

#[test]
fn rows_are_found_by_key_index_range_and_prefix() {
    let runtime = filled();
    let got = runtime.query(&QueryOperation::Get("a".to_string())).unwrap();
    assert_eq!(texts(got.rows), vec!["{\"id\":\"a\",\"city\":\"x\"}"]);
    assert!(runtime.query(&QueryOperation::Get("z".to_string())).unwrap().rows.is_empty());
    let by = runtime
        .query(&QueryOperation::By { index: "by_city".to_string(), key: b"x".to_vec() })
        .unwrap();
    assert_eq!(by.rows.len(), 2);
    assert!(runtime.query(&QueryOperation::By { index: "none".to_string(), key: b"x".to_vec() }).is_err());
    let range = runtime.query(&QueryOperation::Range { start: "a".to_string(), end: "b".to_string() }).unwrap();
    assert_eq!(range.rows.len(), 2);
    let prefix = runtime.query(&QueryOperation::Prefix("a".to_string())).unwrap();
    assert_eq!(prefix.rows.len(), 2);
    assert_eq!(runtime.query(&QueryOperation::Len).unwrap().len, 3);
}

#[test]
fn a_later_row_takes_the_place_of_an_earlier() {
    let mut runtime = filled();
    runtime.apply(&row(3, "{\"id\":\"a\",\"city\":\"z\"}")).unwrap();
    assert_eq!(runtime.len(), 3);
    let got = runtime.query(&QueryOperation::Get("a".to_string())).unwrap();
    assert_eq!(texts(got.rows), vec!["{\"id\":\"a\",\"city\":\"z\"}"]);
    runtime.reset();
    assert_eq!(runtime.len(), 0);
}

#[test]
fn rows_without_a_key_and_filtered_rows_are_passed_over() {
    let mut runtime = JsonIndexRuntime::new(definition(None));
    runtime.apply(&row(1, "{\"city\":\"x\"}")).unwrap();
    assert_eq!(runtime.len(), 0);
    let mut damaged = row(1, "{}");
    damaged.payload = b"{".to_vec();
    assert_eq!(runtime.apply(&damaged).unwrap_err().code, "invalid_json");
    let mut runtime = JsonIndexRuntime::new(definition(Some(("city".to_string(), b"\"x\"".to_vec()))));
    runtime.apply(&row(1, "{\"id\":\"a\",\"city\":\"x\"}")).unwrap();
    runtime.apply(&row(1, "{\"id\":\"b\",\"city\":\"y\"}")).unwrap();
    assert_eq!(runtime.len(), 1);
    assert!(validate_query(&definition(None)).is_ok());
    let keyless = QueryDefinition { key_field: String::new(), indexes: Vec::new(), filter: None };
    assert!(validate_query(&keyless).is_err());
}

#[test]
fn a_checkpoint_restores_the_rows() {
    let state = filled().checkpoint().unwrap();
    let rows: std::collections::BTreeMap<String, Vec<u8>> = serde_json::from_slice(&state).unwrap();
    assert_eq!(rows["b"], b"{\"id\":\"b\",\"city\":\"y\"}");
    let mut other = JsonIndexRuntime::new(definition(None));
    other.restore_checkpoint(&state).unwrap();
    assert_eq!(other.len(), 3);
    let got = other.query(&QueryOperation::Get("b".to_string())).unwrap();
    assert_eq!(texts(got.rows), vec!["{\"id\":\"b\",\"city\":\"y\"}"]);
    assert!(other.restore_checkpoint(b"{").is_err());
    assert_eq!(other.len(), 3);
}

#[test]
fn partitions_restore_the_rows_of_their_streams() {
    let mut other = JsonIndexRuntime::new(definition(None));
    let class = partition_of(StreamId::from_bytes([1; 16]), 2);
    let both_here = partition_of(StreamId::from_bytes([2; 16]), 2) == class;
    other.restore_partition(&filled().checkpoint_partition(class, 2).unwrap()).unwrap();
    assert_eq!(other.len(), if both_here { 3 } else { 2 });
    other.restore_partition(&filled().checkpoint_partition(1 - class, 2).unwrap()).unwrap();
    assert_eq!(other.len(), 3);
    assert!(other.restore_partition(b"[").is_err());
}

#[test]
fn a_missing_runtime_refuses() {
    let mut missing = MissingRuntime;
    let failure = ProjectionRuntime::apply(&mut missing, &row(1, "1")).unwrap_err();
    assert!(!failure.code.is_empty());
    assert!(missing.query(QueryOperation::Len).is_err());
    assert_eq!(missing.checkpoint().unwrap_err().code, "checkpoint_unsupported");
    assert_eq!(missing.restore_checkpoint(b"").unwrap_err().code, "checkpoint_unsupported");
    assert_eq!(missing.checkpoint_partition(0, 1).unwrap_err().code, "checkpoint_unsupported");
    assert_eq!(missing.checkpoint_partition(0, 2).unwrap_err().code, "partition_unsupported");
    assert_eq!(missing.restore_partition(0, 1, b"").unwrap_err().code, "checkpoint_unsupported");
    let failure = missing.restore_partition(1, 2, b"").unwrap_err();
    assert_eq!(failure.code, "partition_unsupported");
    assert_eq!(failure.message, "runtime does not implement partition checkpoints");
}

#[test]
fn an_index_goes_by_texts_and_by_other_values() {
    let mut runtime = JsonIndexRuntime::new(definition(None));
    runtime.apply(&row(1, "{\"id\":\"a\",\"city\":\"7\"}")).unwrap();
    runtime.apply(&row(1, "{\"id\":\"b\",\"city\":7}")).unwrap();
    runtime.apply(&row(1, "{\"id\":\"c\",\"city\":[1, 2]}")).unwrap();
    runtime.apply(&row(1, "{\"id\":\"d\"}")).unwrap();
    let by = |key: &[u8]| {
        let operation = QueryOperation::By { index: "by_city".to_string(), key: key.to_vec() };
        runtime.query(&operation).unwrap().rows.len()
    };
    assert_eq!(by(b"7"), 2);
    assert_eq!(by(b"[1,2]"), 1);
    assert_eq!(by(b"\"7\""), 0);
}

fn stored(stream: &str, payload: Vec<u8>) -> OwnedStoredRecord {
    let mut envelope = raw_test_envelope();
    envelope.metadata.insert("salamander.stream_name".to_string(), stream.as_bytes().to_vec());
    OwnedStoredRecord { kind: FrameKind::Event, flags: 0, position: 4, envelope, payload }
}

fn json_record(stream: &str, payload: &str) -> OwnedStoredRecord {
    stored(stream, encode_payload(PayloadCodec::Json, payload.as_bytes()))
}

#[test]
fn a_projection_is_offered_the_events_it_takes() {
    let mut descriptor = descriptor_for_query("rows", b"{}", 1);
    assert!(matches!(
        offer_record(&descriptor, json_record("s", "{\"id\":\"a\"}")),
        Offered::Taken(dto) if dto.position == 4 && dto.payload == b"{\"id\":\"a\"}"
    ));
    assert!(matches!(
        offer_record(&descriptor, stored("s", vec![9])),
        Offered::Unread(failure) if failure.code == "decode"
    ));
    descriptor.scope.stream = Some("t".to_string());
    assert!(matches!(offer_record(&descriptor, json_record("s", "1")), Offered::Passed));
}

#[test]
fn rows_fold_the_same_in_pieces() {
    let mut descriptor = descriptor_for_query("rows", b"{}", 1);
    descriptor.scope.stream = Some("s".to_string());
    let records = [
        json_record("s", "{\"id\":\"a\",\"city\":\"x\"}"),
        json_record("t", "{\"id\":\"c\",\"city\":\"x\"}"),
        json_record("s", "{\"id\":\"b\",\"city\":\"y\"}"),
        json_record("s", "{\"id\":\"a\",\"city\":\"y\"}"),
    ];
    let mut whole = JsonIndexRuntime::new(definition(None));
    for record in &records {
        assert!(whole.fold_record(&descriptor, record.clone()).is_none());
    }
    let mut first = JsonIndexRuntime::new(definition(None));
    for record in &records[..2] {
        first.fold_record(&descriptor, record.clone());
    }
    let mut second = JsonIndexRuntime::new(definition(None));
    second.restore_checkpoint(&first.checkpoint().unwrap()).unwrap();
    for record in &records[2..] {
        second.fold_record(&descriptor, record.clone());
    }
    assert_eq!(whole.len(), 2);
    assert_eq!(whole.checkpoint().unwrap(), second.checkpoint().unwrap());
    let refused = whole.fold_record(&descriptor, json_record("s", "{")).unwrap();
    assert_eq!(refused.code, "invalid_json");
    assert_eq!(whole.fold_record(&descriptor, stored("s", Vec::new())).unwrap().code, "decode");
    assert_eq!(whole.len(), 2);
}
