use salamander::branch::{BranchCatalog, BranchInfo, BranchName, BranchStatus};
use salamander::commit::CommitPolicy;
use salamander::db::engine::{Retained, Salamander};
use salamander::db::retain::RetentionPolicy;
use salamander::facade::error::ErrorCategory;
use salamander::facade::feed::{validate_feed, ConsumerCheckpoints, ConsumerRecord, FeedState};
use salamander::facade::heal::{heal_selector, target_of, DriveEvent, HealStep, QueryState, Registration};
use salamander::facade::page::{
    decode_payload, encode_payload, record_dto, stream_named, validate_page, wants_stream, ReaderState,
};
use salamander::facade::params::{
    durability_name, parse_durability, parse_expected_revision, parse_hex_id, parse_policy, record_namespace, watch_start,
    watch_wait, RevisionArgument,
};
use salamander::facade::projection::{
    descriptor_for_query, fingerprint, lineage_fingerprint, partition_cursor, projection_selects, status_cursor,
    InputType, PartitionStatus, ProjectionCursor, ProjectionStatus, QueryConsistency,
};
use salamander::facade::query::ProjectionFailure;
use salamander::facade::sequencer::{live_registrations, Registering, RegistrationRecord, Sequencer, SnapshotSchedule};
use salamander::facade::types::{
    AppendBatch, CommittedBatch, DurabilityDto, EngineOptions, EventData, ExpectedRevisionDto, FeedFilter, FeedHandle,
    FeedRequest, PayloadCodec, QueryHandle, ReaderHandle, ReplayRequest, MAX_FACADE_PAYLOAD_BYTES, MAX_REPLAY_PAGE_EVENTS,
};
use salamander::facade::write::{append_request, branch_dto, ingest_request};
use salamander::format::envelope::RecordEnvelopeV2;
use salamander::format::frame::{FrameKind, OwnedStoredRecord};
use salamander::format::ids::{BatchId, BranchId, CodecId, DatabaseId, EventId, EventType, StreamId, StreamRevision};
use salamander::format::metadata::Metadata;
use salamander::log::select::StreamSelector;
use salamander::log::store::{bootstrap_manifest, DiscoveredSegment, Log};
use salamander::snapshot::{partition_snapshot_cursor, snapshot_cursor, snapshot_manifest};
use salamander::stream::{ExpectedRevision, StreamCatalog};

fn record(position: u64, batch: u8, index: u32, stream: &str, payload: &[u8]) -> OwnedStoredRecord {
    let mut metadata = Metadata::new();
    metadata.insert("salamander.stream_name".to_string(), stream.as_bytes().to_vec());
    OwnedStoredRecord {
        kind: FrameKind::Event,
        flags: 0,
        position,
        envelope: RecordEnvelopeV2 {
            event_id: EventId::from_bytes([position as u8 + 1; 16]),
            database_id: DatabaseId::from_bytes([7; 16]),
            branch_id: BranchId::zero(),
            stream_id: StreamId::from_bytes([stream.len() as u8; 16]),
            stream_revision: StreamRevision(position),
            timestamp_unix_nanos: 5,
            event_type: EventType::new("e").unwrap(),
            schema_version: 1,
            codec: CodecId::rust_bincode_v1(),
            batch_id: BatchId::from_bytes([batch; 16]),
            batch_index: index,
            metadata,
        },
        payload: encode_payload(PayloadCodec::Json, payload),
    }
}

fn database() -> Salamander {
    let manifest = bootstrap_manifest(&Vec::new(), [7; 16]).unwrap();
    let found = vec![DiscoveredSegment { base: 0, len: 0, path: "0".to_string() }];
    Salamander::open(
        Log::open(manifest, &found, &[], 1 << 20).unwrap().log,
        StreamCatalog::new(),
        BranchCatalog::new(),
        CommitPolicy::manual(),
        Retained {
            anchor: None,
            projection_coverage: Vec::new(),
            branch_bootstraps: Vec::new(),
            consumer_bootstraps: Vec::new(),
        },
    )
}

#[test]
fn payloads_carry_their_codec() {
    let bytes = encode_payload(PayloadCodec::Json, b"ab");
    assert_eq!(bytes, vec![1, 0, 0, 0, 2, 0, 0, 0, 0, 0, 0, 0, b'a', b'b']);
    assert_eq!(decode_payload(&bytes).unwrap(), (PayloadCodec::Json, b"ab".to_vec()));
    assert_eq!(decode_payload(&encode_payload(PayloadCodec::Bytes, &[])).unwrap(), (PayloadCodec::Bytes, Vec::new()));
    let error = decode_payload(&bytes[..13]).unwrap_err();
    assert_eq!((error.category, error.code), (ErrorCategory::Codec, "codec"));
    assert!(decode_payload(&[9; 20]).is_err());
}

#[test]
fn a_record_is_handed_out_with_its_payload() {
    let dto = record_dto(record(3, 1, 0, "s", b"{}")).unwrap();
    assert_eq!((dto.position, dto.batch_id, dto.codec), (3, [1; 16], PayloadCodec::Json));
    assert_eq!(dto.payload, b"{}");
    assert_eq!(stream_named(&dto.metadata).as_deref(), Some("s"));
    assert!(wants_stream(&None, &dto.metadata));
    assert!(wants_stream(&Some("s".to_string()), &dto.metadata));
    assert!(!wants_stream(&Some("t".to_string()), &dto.metadata));
    assert_eq!(record_namespace(&dto).as_deref(), Some("s"));
}

#[test]
fn a_page_ends_at_its_limits() {
    let request = ReplayRequest { page_events: 2, ..ReplayRequest::default() };
    let mut reader = ReaderState::open(request);
    let mut page = reader.begin_page().unwrap();
    let request = ReplayRequest { page_events: 2, ..ReplayRequest::default() };
    page.offer(&request, record(0, 1, 0, "s", b"{}"), 1).unwrap();
    assert!(!page.is_full());
    page.offer(&request, record(1, 1, 1, "s", b"{}"), 2).unwrap();
    assert!(page.is_full());
    let done = reader.end_page(page, 5);
    assert_eq!((done.records.len(), done.continuation, done.done), (2, 2, false));
    let mut page = reader.begin_page().unwrap();
    page.exhausted(5);
    let done = reader.end_page(page, 5);
    assert_eq!((done.records.len(), done.continuation, done.done), (0, 5, true));
    reader.cancelled = true;
    let error = reader.begin_page().err().unwrap();
    assert_eq!((error.category, error.message.as_str()), (ErrorCategory::Cancelled, "reader was cancelled"));
}

#[test]
fn a_page_holds_only_its_stream_and_its_bytes() {
    let size = record_dto(record(0, 1, 0, "s", b"{}")).unwrap().size();
    let limits = |stream: Option<&str>, page_bytes: usize| ReplayRequest {
        stream: stream.map(|s| s.to_string()),
        page_bytes,
        ..ReplayRequest::default()
    };
    let mut reader = ReaderState::open(limits(Some("s"), size + 1));
    let request = limits(Some("s"), size + 1);
    let mut page = reader.begin_page().unwrap();
    page.offer(&request, record(0, 1, 0, "t", b"{}"), 1).unwrap();
    page.offer(&request, record(1, 1, 1, "s", b"{}"), 2).unwrap();
    page.offer(&request, record(2, 1, 2, "s", b"{}"), 3).unwrap();
    assert!(page.is_full());
    let done = reader.end_page(page, 9);
    assert_eq!(done.records.iter().map(|r| r.position).collect::<Vec<_>>(), vec![1]);
    assert_eq!(done.continuation, 2);
}

#[test]
fn limits_of_pages_are_checked() {
    assert!(validate_page(&ReplayRequest::default()).is_ok());
    for page_events in [0, MAX_REPLAY_PAGE_EVENTS + 1] {
        let error = validate_page(&ReplayRequest { page_events, ..ReplayRequest::default() }).unwrap_err();
        assert_eq!(error.category, ErrorCategory::ResourceLimit);
    }
    assert!(validate_page(&ReplayRequest { page_bytes: 0, ..ReplayRequest::default() }).is_err());
    assert!(validate_feed(&FeedRequest::default(), 3).is_ok());
    let late = FeedRequest { from: Some(4), ..FeedRequest::default() };
    assert_eq!(validate_feed(&late, 3).unwrap_err().code, "position_unavailable");
    assert!(validate_feed(&FeedRequest { page_batches: 0, ..FeedRequest::default() }, 3).is_err());
    let nameless = FeedRequest { consumer_id: Some(String::new()), ..FeedRequest::default() };
    assert_eq!(validate_feed(&nameless, 3).unwrap_err().category, ErrorCategory::InvalidArgument);
}

fn feed_request(page_batches: u32) -> FeedRequest {
    FeedRequest { page_batches, ..FeedRequest::default() }
}

#[test]
fn a_feed_hands_out_whole_batches() {
    let mut feed = FeedState::open(feed_request(1), Some(0));
    let mut page = feed.begin_page(4).unwrap();
    let request = feed_request(1);
    assert!(page.offer(&request, record(0, 1, 0, "s", b"{}")).unwrap());
    assert!(page.offer(&request, record(1, 1, 1, "s", b"{}")).unwrap());
    assert!(page.offer(&request, record(2, 2, 0, "s", b"{}")).unwrap());
    assert!(!page.offer(&request, record(3, 3, 0, "s", b"{}")).unwrap());
    assert!(page.is_full());
    let done = feed.end_page(page);
    assert_eq!(done.batches.len(), 1);
    assert_eq!((done.batches[0].first_position, done.batches[0].last_position), (0, 1));
    assert_eq!(done.batches[0].stream_ids, vec![[1; 16]]);
    assert_eq!((done.continuation, done.durable_head, done.timed_out), (2, 4, false));

    let mut page = feed.begin_page(3).unwrap();
    assert!(page.offer(&request, record(2, 2, 0, "s", b"{}")).unwrap());
    assert!(!page.offer(&request, record(3, 2, 1, "s", b"{}")).unwrap());
    let done = feed.end_page(page);
    assert_eq!(done.batches.len(), 1);
    assert_eq!(done.continuation, 3);
}

#[test]
fn a_feed_can_look_at_types_alone() {
    let wanted = |types: Vec<String>| FeedRequest {
        filter: FeedFilter { event_types: types, ..FeedFilter::default() },
        ..FeedRequest::default()
    };
    let mut feed = FeedState::open(wanted(vec!["other".to_string()]), None);
    let mut page = feed.begin_page(1).unwrap();
    page.offer(&wanted(vec!["other".to_string()]), record(0, 1, 0, "s", b"{}")).unwrap();
    let done = feed.end_page(page);
    assert!(done.batches.is_empty());
    assert_eq!(done.continuation, 1);
}

#[test]
fn checkpoints_are_restored_from_their_records() {
    let records = vec![
        ConsumerRecord::Checkpoint { consumer_id: "a".to_string(), position: 3 },
        ConsumerRecord::Checkpoint { consumer_id: "b".to_string(), position: 4 },
        ConsumerRecord::Checkpoint { consumer_id: "a".to_string(), position: 5 },
        ConsumerRecord::Cleared(b"b".to_vec()),
    ];
    let mut restored = ConsumerCheckpoints::restore(&records);
    assert_eq!((restored.get("a"), restored.get("b")), (Some(5), None));
    restored.set("a".to_string(), 9);
    assert_eq!(restored.get("a"), Some(9));
    restored.remove("a");
    assert_eq!(restored.get("a"), None);
}

fn batch(events: Vec<EventData>) -> AppendBatch {
    AppendBatch {
        branch_id: [0; 16],
        stream: "s".to_string(),
        expected: ExpectedRevisionDto::Exact(4),
        idempotency_key: None,
        events,
        durability: DurabilityDto::Sync,
    }
}

#[test]
fn a_batch_becomes_a_request() {
    let request = append_request(&batch(vec![EventData::json(b"{\"a\":1}".to_vec())])).unwrap();
    assert_eq!(request.expected, ExpectedRevision::Exact(StreamRevision(4)));
    assert_eq!(request.stream.as_str(), "s");
    assert_eq!(request.events[0].payload, encode_payload(PayloadCodec::Json, b"{\"a\":1}"));

    let bad = append_request(&batch(vec![EventData::json(b"{".to_vec())])).unwrap_err();
    assert_eq!(bad.category, ErrorCategory::Codec);
    let big = append_request(&batch(vec![EventData::json(vec![b'1'; MAX_FACADE_PAYLOAD_BYTES + 1])])).unwrap_err();
    assert_eq!(big.category, ErrorCategory::ResourceLimit);
    let mut nameless = batch(vec![EventData::json(b"1".to_vec())]);
    nameless.stream = String::new();
    assert!(append_request(&nameless).is_err());
    let mut typeless = batch(vec![EventData::json(b"1".to_vec())]);
    typeless.events[0].event_type = String::new();
    assert!(append_request(&typeless).is_err());
}

fn committed(records: Vec<OwnedStoredRecord>) -> CommittedBatch {
    let mut feed = FeedState::open(FeedRequest::default(), Some(records[0].position));
    let mut page = feed.begin_page(100).unwrap();
    for record in records {
        page.offer(&FeedRequest::default(), record).unwrap();
    }
    feed.end_page(page).batches.pop().unwrap()
}

#[test]
fn a_batch_that_is_handed_out_is_taken_elsewhere() {
    let handed = committed(vec![record(4, 1, 0, "s", b"1"), record(5, 1, 1, "s", b"2")]);
    let (request, id) = ingest_request(&handed).unwrap();
    assert_eq!(id, BatchId::from_bytes([1; 16]));
    assert_eq!(request.stream.as_str(), "s");
    assert_eq!(request.events.len(), 2);
    assert_eq!(request.events[1].payload, encode_payload(PayloadCodec::Json, b"2"));
    assert_eq!(request.events[1].event_id, Some(EventId::from_bytes([6; 16])));

    let mut torn = committed(vec![record(4, 1, 0, "s", b"1"), record(5, 1, 1, "s", b"2")]);
    torn.last_position = 9;
    assert_eq!(ingest_request(&torn).unwrap_err().message, "replicated batch position range is invalid");
    let mut empty = committed(vec![record(4, 1, 0, "s", b"1")]);
    empty.events.clear();
    assert_eq!(ingest_request(&empty).unwrap_err().message, "replicated batch has no events");
    let mut nameless = committed(vec![record(4, 1, 0, "s", b"1")]);
    nameless.events[0].metadata = Metadata::new();
    assert_eq!(ingest_request(&nameless).unwrap_err().message, "replicated event has no stream name");
    let mut mixed = committed(vec![record(4, 1, 0, "s", b"1"), record(5, 1, 1, "s", b"2")]);
    mixed.events[1].batch_index = 7;
    assert!(ingest_request(&mixed).is_err());
}

#[test]
fn a_branch_is_shown_as_it_is() {
    let info = BranchInfo {
        id: BranchId::from_bytes([3; 16]),
        name: BranchName::new("b").unwrap(),
        parent: Some(BranchId::zero()),
        fork_position: Some(4),
        created_at_unix_nanos: 9,
        metadata: Metadata::new(),
        status: BranchStatus::Archived,
    };
    let dto = branch_dto(&info);
    assert_eq!((dto.id, dto.name.as_str(), dto.parent_id), ([3; 16], "b", Some([0; 16])));
    assert_eq!((dto.fork_position, dto.created_at_unix_nanos, dto.archived), (Some(4), 9, true));
    assert_ne!(lineage_fingerprint(&vec![info.clone()]), lineage_fingerprint(&Vec::new()));
    assert_ne!(fingerprint(b"a"), fingerprint(b"b"));
}

#[test]
fn arguments_are_read() {
    assert_eq!(parse_expected_revision(&RevisionArgument::Missing), Ok(ExpectedRevisionDto::Any));
    assert_eq!(
        parse_expected_revision(&RevisionArgument::Text("no_stream".to_string())),
        Ok(ExpectedRevisionDto::NoStream)
    );
    assert_eq!(parse_expected_revision(&RevisionArgument::Number(7)), Ok(ExpectedRevisionDto::Exact(7)));
    assert!(parse_expected_revision(&RevisionArgument::Truth).is_err());
    assert!(parse_expected_revision(&RevisionArgument::Text("x".to_string())).is_err());
    assert_eq!(parse_durability("flush"), Ok(DurabilityDto::Flush));
    assert!(parse_durability("later").is_err());
    assert_eq!(durability_name(DurabilityDto::Sync), "synced");
    assert!(matches!(parse_policy("keep_from", 3), Ok(RetentionPolicy::KeepFrom(3))));
    assert!(parse_policy("keep_from", -1).is_err());
    assert!(parse_policy("other", 1).is_err());
    assert_eq!(parse_hex_id("000102030405060708090a0b0c0d0e0F").unwrap()[15], 15);
    assert!(parse_hex_id("00").is_err());
    assert_eq!(watch_start(None, false, 9), Some(9));
    assert_eq!(watch_start(None, true, 9), None);
    assert_eq!(watch_start(Some(3), true, 9), Some(3));
    assert_eq!((watch_wait(None), watch_wait(Some(None)), watch_wait(Some(Some(3)))), (Some(200), None, Some(3)));
}

#[test]
fn options_give_a_policy() {
    let mut options = EngineOptions::new("p".to_string());
    assert_eq!(options.commit_policy(), CommitPolicy::manual());
    options.commit_every_count = Some(2);
    assert!(options.commit_policy().should_commit(0, 2, 0));
}

#[test]
fn a_projection_is_driven_to_the_head() {
    let descriptor = descriptor_for_query("q", b"def", 1);
    let mut query = QueryState::new(descriptor, [2; 16], [7; 16]);
    assert!(matches!(query.status(), ProjectionStatus::Building { .. }));
    assert_eq!(query.begin_drive(5), Some(0));
    assert!(query.drive(DriveEvent::Applied { position: 0 }, 5));
    assert_eq!(status_cursor(query.status()).position, 1);
    assert!(!query.drive(DriveEvent::Exhausted, 5));
    assert!(matches!(query.status(), ProjectionStatus::Ready { cursor } if cursor.position == 5));
    assert!(query.check_query(QueryConsistency::RequireHead, 5).is_ok());
    let error = query.check_query(QueryConsistency::RequireHead, 6).unwrap_err();
    assert_eq!((error.category, error.code), (ErrorCategory::Conflict, "projection_not_ready"));
    assert!(query.check_query(QueryConsistency::AllowStale, 6).is_ok());
    assert!(query.check_query(QueryConsistency::WaitFor(5), 6).is_ok());
    assert!(!query.drive(
        DriveEvent::Refused { position: 6, error: ProjectionFailure::new("bad", "no") },
        9
    ));
    assert!(matches!(query.status(), ProjectionStatus::Failed { cursor, .. } if cursor.position == 6));
    query.restart();
    assert_eq!(status_cursor(query.status()).position, 0);
    query.drop_it();
    assert!(matches!(query.status(), ProjectionStatus::Dropping));
}

#[test]
fn partitions_heal_one_by_one() {
    let mut query = QueryState::new(descriptor_for_query("q", b"def", 2), [2; 16], [7; 16]);
    assert_eq!(query.partitions().len(), 2);
    assert!(query.wants_snapshot(0));
    assert_eq!(target_of(QueryConsistency::RequireHead, 8), 8);
    assert_eq!(target_of(QueryConsistency::WaitFor(3), 8), 3);
    let HealStep::Replay { start } = query.begin_heal(0, None, 8) else { panic!("nothing to do") };
    assert_eq!(start, 0);
    query.end_heal(0, 0, 8, None);
    assert!(matches!(&query.partitions()[0], PartitionStatus::Ready { cursor } if cursor.position == 8));
    assert!(matches!(query.begin_heal(0, None, 8), HealStep::Settled));
    assert_eq!(query.ready_partitions(), vec![0]);
    assert!(query.check_partitions(&vec![0], QueryConsistency::RequireHead, 8).is_ok());
    assert!(query.check_partitions(&vec![1], QueryConsistency::RequireHead, 8).is_err());
    assert!(query.validate_partitions(&vec![0, 1]).is_ok());
    assert!(query.validate_partitions(&vec![2]).is_err());
    query.begin_heal(1, None, 8);
    query.end_heal(1, 0, 8, Some(ProjectionFailure::new("bad", "no")));
    assert!(matches!(&query.partitions()[1], PartitionStatus::Failed { .. }));
    query.aggregate();
    assert!(matches!(query.status(), ProjectionStatus::Failed { .. }));
    assert!(matches!(heal_selector(4, 1, None), StreamSelector::PartitionClass { count: 4, index: 1 }));
}

#[test]
fn a_snapshot_brings_a_partition_forward() {
    let mut query = QueryState::new(descriptor_for_query("q", b"def", 1), [2; 16], [7; 16]);
    let found: ProjectionCursor = query.cursor(6);
    let HealStep::Replay { start } = query.begin_heal(0, Some(found), 8) else { panic!("nothing to do") };
    assert_eq!(start, 6);
    query.end_heal(0, 6, 8, None);
    query.aggregate();
    assert_eq!(partition_cursor(&query.partitions()[0]).position, 8);
    assert_eq!(partition_snapshot_cursor(&query, 0).unwrap().position, 8);
    let cursor = snapshot_cursor(&query).unwrap();
    let manifest = snapshot_manifest(&query, cursor, [4; 16], None, 9, b"state").unwrap();
    assert_eq!((manifest.cursor.position, manifest.uncompressed_len), (8, 5));
    assert_eq!(manifest.checksum, crc32c::crc32c(b"state"));
    let fresh = QueryState::new(descriptor_for_query("q", b"def", 1), [2; 16], [7; 16]);
    assert!(snapshot_cursor(&fresh).is_err());
}

#[test]
fn a_projection_is_registered_once() {
    let mut query = QueryState::new(descriptor_for_query("q", b"def", 1), [2; 16], [7; 16]);
    assert!(matches!(query.register_again(&descriptor_for_query("q", b"def", 1)), Registration::Keep));
    assert!(matches!(query.register_again(&descriptor_for_query("q", b"other", 1)), Registration::Replace));
    let mut descriptor = descriptor_for_query("q", b"def", 1);
    assert!(projection_selects(&descriptor, &record_dto(record(0, 1, 0, "s", b"1")).unwrap()));
    descriptor.input_types.push(InputType {
        event_type: "x".to_string(),
        min_schema_version: 0,
        max_schema_version: 9,
    });
    assert!(!projection_selects(&descriptor, &record_dto(record(0, 1, 0, "s", b"1")).unwrap()));
}

#[test]
fn handles_are_given_once_and_closed_once() {
    let db = database();
    let mut sequencer = Sequencer::new(ConsumerCheckpoints::new());
    let reader = sequencer.open_reader(&db, ReplayRequest::default()).unwrap();
    let feed = sequencer.open_feed(FeedRequest { from: Some(0), ..FeedRequest::default() }, 0).unwrap();
    assert_ne!(reader.0, feed.0);
    let (page, filter) = sequencer.begin_page(&db, reader).unwrap();
    assert_eq!((filter.from, filter.until), (0, 0));
    assert!(sequencer.end_page(reader, page, 0).unwrap().done);
    let (page, from) = sequencer.begin_feed_page(feed, 0).unwrap();
    assert_eq!(from, 0);
    assert!(sequencer.end_feed_page(feed, page).unwrap().batches.is_empty());
    assert_eq!(sequencer.feed_progress(feed).unwrap(), (0, None));
    sequencer.cancel_reader(reader).unwrap();
    assert_eq!(sequencer.begin_page(&db, reader).err().unwrap().category, ErrorCategory::Cancelled);
    sequencer.close_reader(reader).unwrap();
    assert_eq!(sequencer.close_reader(reader).unwrap_err().category, ErrorCategory::NotFound);
    sequencer.cancel_feed(feed).unwrap();
    sequencer.close_feed(feed).unwrap();
    assert!(sequencer.close_feed(FeedHandle(99)).is_err());
    assert!(sequencer.cancel_reader(ReaderHandle(99)).is_err());
    let absent = ReplayRequest { branch_id: [9; 16], ..ReplayRequest::default() };
    assert_eq!(sequencer.open_reader(&db, absent).unwrap_err().category, ErrorCategory::NotFound);
}

#[test]
fn a_consumer_goes_on_where_it_acknowledged() {
    let mut sequencer = Sequencer::new(ConsumerCheckpoints::new());
    sequencer.acknowledged("c".to_string(), 4);
    let request = || FeedRequest { from: None, consumer_id: Some("c".to_string()), ..FeedRequest::default() };
    let feed = sequencer.open_feed(request(), 9).unwrap();
    assert_eq!(sequencer.begin_feed_page(feed, 9).unwrap().1, 4);
    sequencer.checkpoint_cleared("c");
    assert_eq!(sequencer.checkpoints.get("c"), None);
}

#[test]
fn queries_are_found_by_name() {
    let mut sequencer = Sequencer::new(ConsumerCheckpoints::new());
    let descriptor = descriptor_for_query("q", b"def", 1);
    assert!(matches!(sequencer.begin_register(&descriptor).unwrap(), Registering::Fresh));
    let handle = sequencer.install_query(QueryState::new(descriptor_for_query("q", b"def", 1), [2; 16], [7; 16]));
    assert_eq!(sequencer.query_named("q").unwrap(), handle);
    assert!(matches!(
        sequencer.begin_register(&descriptor).unwrap(),
        Registering::Known { handle: known, restart: false } if known == handle.0
    ));
    let mut state = sequencer.take_query(handle).unwrap();
    state.begin_drive(0);
    state.drive(DriveEvent::Exhausted, 0);
    sequencer.update_query(handle, state);
    assert!(matches!(sequencer.query(handle).unwrap().status(), ProjectionStatus::Ready { .. }));
    let missing = QueryHandle(77);
    assert_eq!(sequencer.query(missing).err().unwrap().category, ErrorCategory::NotFound);
    assert!(sequencer.begin_remove("absent").is_none());
}

#[test]
fn removal_takes_the_name_first() {
    let mut sequencer = Sequencer::new(ConsumerCheckpoints::new());
    let handle = sequencer.install_query(QueryState::new(descriptor_for_query("q", b"def", 1), [2; 16], [7; 16]));
    assert_eq!(sequencer.begin_remove("q"), Some(handle));
    assert!(sequencer.query_named("q").is_err());
    sequencer.finish_remove(handle);
    assert!(sequencer.query(handle).is_err());
}

#[test]
fn live_registrations_are_the_last_of_each_name() {
    let records = vec![
        RegistrationRecord::Registered("a".to_string()),
        RegistrationRecord::Registered("b".to_string()),
        RegistrationRecord::Dropped(b"a".to_vec()),
        RegistrationRecord::Registered("b".to_string()),
    ];
    assert_eq!(live_registrations(&records), vec![("b".to_string(), 3)]);
}

#[test]
fn snapshots_come_due() {
    let mut schedule =
        SnapshotSchedule { every_events: Some(3), every_bytes: None, every_millis: None, events: 0, bytes: 0 };
    assert!(!schedule.note_append(2, 10, 0));
    assert!(schedule.note_append(1, 10, 0));
    let mut never =
        SnapshotSchedule { every_events: None, every_bytes: None, every_millis: None, events: 0, bytes: 0 };
    assert!(!never.note_append(1_000, 1_000, 1_000));
    let mut timed =
        SnapshotSchedule { every_events: None, every_bytes: None, every_millis: Some(5), events: 0, bytes: 0 };
    assert!(timed.note_append(0, 0, 5));
}
