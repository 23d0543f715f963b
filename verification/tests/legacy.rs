use salamander::agent::body::EventBody;
use salamander::branch::BranchCatalog;
use salamander::error::SalamanderError;
use salamander::event::Body;
use salamander::format::derive::derive_import_id;
use salamander::format::envelope::RecordEnvelopeV2;
use salamander::format::frame::{FrameKind, OwnedStoredRecord};
use salamander::format::ids::{BatchId, BranchId, DatabaseId, EventId, EventType};
use salamander::log::record::raw_test_envelope;
use salamander::log::segment::scan_records;
use salamander::log::store::{bootstrap_manifest, DiscoveredSegment, Log, SegmentFile};
use salamander::migration::branches::{
    branch_report, creation_envelope, destination_position, discover_legacy_forks, plan_branches, record_stream,
    rewrite_records, validate_legacy_forks,
};
use salamander::migration::import::{
    check_completed, completed_report, import_envelope, import_event, import_report, prepare_destination, resume_import,
    verify_imported_prefix, DestinationState,
};
use salamander::migration::legacy::{
    check_generation, decode_legacy_record, discover_legacy_segments, fingerprint_source, read_legacy_events, LegacyEvent,
    LegacySegment,
};
use salamander::migration::marker::{legacy_agent_marker, legacy_json_marker, legacy_marker, parse_fork_note};

fn frame(offset: u64, payload: &[u8]) -> Vec<u8> {
    let mut body = offset.to_le_bytes().to_vec();
    body.extend_from_slice(payload);
    let mut out = (payload.len() as u32).to_le_bytes().to_vec();
    out.extend_from_slice(&crc32c::crc32c(&body).to_le_bytes());
    out.extend(body);
    out
}

fn payload(namespace: &str, body: &[u8]) -> Vec<u8> {
    let mut out = bincode::serialize(&(0u64, 1_234u64, namespace)).unwrap();
    out.extend_from_slice(body);
    out
}

fn segments() -> Vec<LegacySegment> {
    let mut first = frame(0, &payload("a", b"one"));
    first.extend(frame(1, &payload("b", b"two")));
    let second = frame(2, &payload("a", b"three"));
    vec![
        LegacySegment { base: 0, name: "0.seg".to_string(), bytes: first },
        LegacySegment { base: 2, name: "2.seg".to_string(), bytes: second },
    ]
}

fn events() -> Vec<LegacyEvent> {
    read_legacy_events(&segments(), 2).unwrap()
}

#[test]
fn early_records_are_read() {
    let bytes = frame(7, b"hello");
    let (offset, body, used) = decode_legacy_record(&bytes).unwrap().unwrap();
    assert_eq!((offset, body, used), (7, b"hello".as_slice(), bytes.len()));
    assert!(decode_legacy_record(&bytes[..bytes.len() - 1]).unwrap().is_none());
    let mut damaged = bytes.clone();
    damaged[16] ^= 1;
    assert!(matches!(decode_legacy_record(&damaged), Err(SalamanderError::Corrupt { offset: 7, .. })));
}

#[test]
fn early_segments_are_read_in_order() {
    let found = events();
    assert_eq!(found.iter().map(|e| e.offset).collect::<Vec<_>>(), vec![0, 1, 2]);
    assert_eq!(found[1].namespace, "b");
    assert_eq!(found[2].body, b"three");
    let mut torn = segments();
    torn[1].bytes.pop();
    assert_eq!(read_legacy_events(&torn, 2).unwrap().len(), 2);
    let mut torn = segments();
    torn[0].bytes.pop();
    assert!(read_legacy_events(&torn, 2).is_err());
    let mut gap = segments();
    gap[1].bytes = frame(5, &payload("a", b"x"));
    assert!(read_legacy_events(&gap, 2).is_err());
}

#[test]
fn a_source_is_known_by_its_bytes() {
    let one = fingerprint_source(b"manifest", &segments());
    assert_eq!(one, fingerprint_source(b"manifest", &segments()));
    assert_ne!(one, fingerprint_source(b"manifest2", &segments()));
    let mut other = segments();
    other[0].bytes[20] ^= 1;
    assert_ne!(one, fingerprint_source(b"manifest", &other));
    assert!(check_generation(1).is_ok());
    assert!(check_generation(2).is_err());
}

#[test]
fn early_segments_are_all_named_by_their_base() {
    let file = |stem: &str| SegmentFile { stem: stem.to_string(), len: 1, path: format!("{stem}.seg") };
    let found = discover_legacy_segments(&vec![file("5"), file("0")]).unwrap();
    assert_eq!(found.iter().map(|f| f.base).collect::<Vec<_>>(), vec![0, 5]);
    assert!(matches!(
        discover_legacy_segments(&vec![file("x")]),
        Err(SalamanderError::Migration(text)) if text == "invalid segment name: x.seg"
    ));
    assert!(matches!(
        discover_legacy_segments(&Vec::new()),
        Err(SalamanderError::Migration(text)) if text == "v0.1 source has no segments"
    ));
}

fn imported(count: usize) -> (Log, Vec<OwnedStoredRecord>) {
    let manifest = bootstrap_manifest(&Vec::new(), [7; 16]).unwrap();
    let found = vec![DiscoveredSegment { base: 0, len: 0, path: "0".to_string() }];
    let mut log = Log::open(manifest, &found, &[], 1 << 20).unwrap().log;
    let mut out = Vec::new();
    for event in events().iter().take(count) {
        import_event(&mut log, event, [9; 16], &mut out).unwrap();
    }
    let records = scan_records(&out, 0).unwrap().records;
    (log, records)
}

#[test]
fn an_import_goes_on_where_it_stopped() {
    let (log, records) = imported(2);
    assert_eq!(log.head(), 2);
    assert_eq!(records[1].payload, b"two");
    assert_eq!(records[1].envelope.event_id, EventId::from_bytes(derive_import_id([9; 16], 1)));
    assert_eq!(records[1].envelope.timestamp_unix_nanos, 1_234_000_000);
    assert_eq!(resume_import(&records, 2, &events(), [9; 16]).unwrap(), 2);
    assert!(resume_import(&records, 2, &events(), [8; 16]).is_err());
    assert!(verify_imported_prefix(&records, 2, &events(), [9; 16]).is_ok());
    let report = import_report(3, 2, 3);
    assert_eq!((report.source_records, report.previously_imported, report.newly_imported, report.destination_head), (3, 2, 1, 3));
    let (log, records) = imported(3);
    assert!(matches!(
        resume_import(&records, 4, &events(), [9; 16]),
        Err(SalamanderError::Migration(text)) if text == "destination contains more records than the source"
    ));
    let marker = "09".repeat(16);
    let done = completed_report(&marker, &records, log.head(), &events(), [9; 16]).unwrap();
    assert_eq!((done.previously_imported, done.newly_imported), (3, 0));
    assert!(completed_report("other", &records, log.head(), &events(), [9; 16]).is_err());
    assert!(check_completed(&marker, [9; 16]).is_ok());
    assert!(matches!(
        check_completed(&marker, [8; 16]),
        Err(SalamanderError::Migration(text)) if text == "completed destination belongs to a different v0.1 source"
    ));
    let envelope = import_envelope(&events()[0], DatabaseId::from_bytes([7; 16]), [9; 16]).unwrap();
    assert_eq!(envelope.metadata.get("salamander.stream_name"), Some(&b"a".to_vec()));
    assert_eq!(envelope.database_id, DatabaseId::from_bytes([7; 16]));
}

#[test]
fn a_destination_is_new_or_its_own() {
    let state = |in_progress: Option<&str>, completed: bool, is_database: bool| DestinationState {
        in_progress: in_progress.map(|s| s.to_string()),
        completed,
        is_database,
    };
    let marker = "09".repeat(16);
    assert_eq!(prepare_destination(&state(None, false, false), [9; 16]).unwrap(), true);
    assert_eq!(prepare_destination(&state(Some(&marker), false, true), [9; 16]).unwrap(), false);
    assert!(prepare_destination(&state(Some(&marker), false, true), [8; 16]).is_err());
    assert!(prepare_destination(&state(None, true, false), [9; 16]).is_err());
    assert!(prepare_destination(&state(None, false, true), [9; 16]).is_err());
}

#[test]
fn markers_of_forks_are_recognised() {
    assert_eq!(parse_fork_note("forked_from=a@b@12"), Some(("a@b".to_string(), 12)));
    assert_eq!(parse_fork_note("forked_from=a"), None);
    assert_eq!(parse_fork_note("forked_from=a@x"), None);
    assert_eq!(parse_fork_note("plain"), None);
    let agent = EventBody::SessionStarted { agent_id: "x".into(), config_hash: "forked_from=main@3".into() }.encode();
    assert_eq!(legacy_agent_marker(&agent), Some(("main".to_string(), 3)));
    assert_eq!(legacy_agent_marker(&EventBody::SessionEnded { reason: "r".into() }.encode()), None);
    let document = "{\"__salamander_fork__\":{\"parent\":\"main\",\"at\":4}}";
    assert_eq!(legacy_json_marker(document.as_bytes()), Some(("main".to_string(), 4)));
    assert_eq!(legacy_json_marker(&bincode::serialize(document).unwrap()), Some(("main".to_string(), 4)));
    assert_eq!(legacy_json_marker(b"{\"a\":1}"), None);
    assert_eq!(legacy_marker(document.as_bytes()), Some(("main".to_string(), 4)));
    assert_eq!(legacy_marker(&agent), Some(("main".to_string(), 3)));
}

fn stored(position: u64, stream: &str, payload: Vec<u8>) -> OwnedStoredRecord {
    let mut envelope: RecordEnvelopeV2 = raw_test_envelope();
    envelope.event_type = EventType::new("e").unwrap();
    envelope.event_id = EventId::from_bytes([position as u8 + 1; 16]);
    envelope.batch_id = BatchId::from_bytes([position as u8 + 1; 16]);
    envelope.metadata.insert("salamander.stream_name".to_string(), stream.as_bytes().to_vec());
    OwnedStoredRecord { kind: FrameKind::Event, flags: 0, position, envelope, payload }
}

fn marked(parent: &str, at: u64) -> Vec<u8> {
    EventBody::SessionStarted { agent_id: "x".into(), config_hash: format!("forked_from={parent}@{at}") }.encode()
}

fn history() -> Vec<OwnedStoredRecord> {
    vec![
        stored(0, "main", EventBody::Delete { key: "a".into() }.encode()),
        stored(1, "main", EventBody::Delete { key: "b".into() }.encode()),
        stored(2, "child", marked("main", 1)),
        stored(3, "child", EventBody::Delete { key: "c".into() }.encode()),
        stored(4, "main", EventBody::Delete { key: "d".into() }.encode()),
    ]
}

#[test]
fn marked_forks_become_branches() {
    let records = history();
    assert_eq!(record_stream(&records[3]).unwrap(), "child");
    let source = DatabaseId::from_bytes([7; 16]);
    let forks = discover_legacy_forks(&records, source).unwrap();
    assert_eq!(forks.len(), 1);
    assert_eq!(forks[0].child_stream, "child");
    assert_eq!((forks[0].source_fork_position, forks[0].marker_position), (1, 2));
    assert_eq!(forks[0].id, BranchId::from_bytes(derive_import_id([7; 16], 2)));
    validate_legacy_forks(&forks, &records).unwrap();
    assert_eq!((0..5).map(|p| destination_position(p, &forks)).collect::<Vec<_>>(), vec![0, 1, 2, 2, 3]);
    let branches = plan_branches(&forks).unwrap();
    assert_eq!(branches.len(), 1);
    assert_eq!(branches[0].fork_position, Some(1));
    assert_eq!(branches[0].parent, Some(BranchId::zero()));
    let mut catalog = BranchCatalog::new();
    catalog.insert(branches[0].clone()).unwrap();
    let envelope = creation_envelope(source, &branches[0]).unwrap();
    assert_eq!(envelope.branch_id, branches[0].id);
    let rewritten = rewrite_records(&records, &forks, DatabaseId::from_bytes([8; 16])).unwrap();
    assert_eq!(rewritten.len(), 4);
    assert_eq!(rewritten[2].0.branch_id, branches[0].id);
    assert_eq!(rewritten[3].0.branch_id, BranchId::zero());
    assert_eq!(rewritten[2].1, records[3].payload);
    assert_eq!(rewritten[2].0.database_id, DatabaseId::from_bytes([8; 16]));
    let report = branch_report(5, 1, 4);
    assert_eq!((report.source_records, report.migrated_records, report.removed_marker_records), (5, 4, 1));
    assert_eq!((report.branches_created, report.destination_head), (1, 4));
}

#[test]
fn forks_that_do_not_fit_are_refused() {
    let source = DatabaseId::from_bytes([7; 16]);
    let mut twice = history();
    twice.push(stored(5, "child", marked("main", 2)));
    let forks = discover_legacy_forks(&twice, source).unwrap();
    assert!(matches!(validate_legacy_forks(&forks, &twice), Err(SalamanderError::Migration(_))));
    let mut ahead = history();
    ahead[2].payload = marked("main", 4);
    let forks = discover_legacy_forks(&ahead, source).unwrap();
    assert!(matches!(validate_legacy_forks(&forks, &ahead), Err(SalamanderError::Migration(_))));
}
