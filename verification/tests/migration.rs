use salamander::error::SalamanderError;
use salamander::format::derive::derive_import_id;
use salamander::migration::legacy::split_legacy_event;

#[test]
fn deterministic_import_ids_change_with_offset() {
    let source = [7; 16];
    assert_eq!(derive_import_id(source, 3), derive_import_id(source, 3));
    assert_ne!(derive_import_id(source, 3), derive_import_id(source, 4));
}

#[test]
fn legacy_event_split_preserves_body_bytes() {
    let mut payload = Vec::new();
    payload.extend_from_slice(&99u64.to_le_bytes());
    payload.extend_from_slice(&1234u64.to_le_bytes());
    payload.extend_from_slice(&2u64.to_le_bytes());
    payload.extend_from_slice(b"ns");
    payload.extend_from_slice(&[9, 8, 7]);
    let event = split_legacy_event(5, &payload).unwrap();
    assert_eq!(event.offset, 5);
    assert_eq!(event.timestamp_ms, 1234);
    assert_eq!(event.namespace, "ns");
    assert_eq!(event.body, vec![9, 8, 7]);
}

#[test]
fn a_short_or_cut_legacy_event_is_refused() {
    assert!(matches!(split_legacy_event(5, &[0; 23]), Err(SalamanderError::Migration(text))
        if text == "v0.1 event at 5 is shorter than its fixed envelope"));
    let mut payload = vec![0; 16];
    payload.extend_from_slice(&3u64.to_le_bytes());
    payload.extend_from_slice(b"ns");
    assert!(matches!(split_legacy_event(5, &payload), Err(SalamanderError::Migration(text))
        if text == "v0.1 namespace at 5 is truncated"));
    payload.push(0xff);
    assert!(matches!(split_legacy_event(5, &payload), Err(SalamanderError::Migration(text))
        if text == "v0.1 namespace at 5 is not UTF-8"));
}
