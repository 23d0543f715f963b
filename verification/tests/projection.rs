use salamander::agent::body::{EventBody, Role};
use salamander::agent::kv::KvProjection;
use salamander::agent::session::{session_fork, session_view, SessionProjection, SessionStatus, TranscriptEntry};
use salamander::error::SalamanderError;
use salamander::event::{decode_event, decode_stored_event, Body, Event};
use salamander::format::frame::OwnedStoredRecord;
use salamander::format::ids::EventType;
use salamander::introspect::{replay, Listing};
use salamander::json::Json;
use salamander::log::record::raw_test_envelope;
use salamander::log::segment::{scan_records, Segment};
use salamander::projection::{replay_into, replay_stream, NamespaceScoped, Projection};

struct Log {
    segment: Segment,
    bytes: Vec<u8>,
}

impl Log {
    fn new() -> Log {
        Log { segment: Segment::create(0), bytes: Vec::new() }
    }

    fn append(&mut self, payload: &[u8]) -> u64 {
        self.segment.append_enveloped(&raw_test_envelope(), payload, &mut self.bytes).unwrap()
    }

    fn append_event(&mut self, event: &Event<EventBody>) -> u64 {
        let bytes = event_bytes(event);
        self.append(&bytes)
    }

    fn head(&self) -> u64 {
        self.segment.next_offset
    }

    fn records(&self) -> Vec<OwnedStoredRecord> {
        scan_records(&self.bytes, 0).unwrap().records
    }

    fn reopen(self) -> Log {
        let (segment, _) = Segment::recover(&self.bytes, 0).unwrap();
        Log { segment, bytes: self.bytes }
    }
}

fn event_bytes(event: &Event<EventBody>) -> Vec<u8> {
    let mut bytes = bincode::serialize(&(event.offset, event.timestamp_ms, &event.namespace)).unwrap();
    bytes.extend(event.body.encode());
    bytes
}

fn of(namespace: &str, body: EventBody) -> Event<EventBody> {
    Event { offset: 0, timestamp_ms: 0, namespace: namespace.to_string(), body }
}

fn put(namespace: &str, key: &str, value: &[u8]) -> Event<EventBody> {
    of(namespace, EventBody::Put { key: key.to_string(), value: value.to_vec() })
}

fn delete(namespace: &str, key: &str) -> Event<EventBody> {
    of(namespace, EventBody::Delete { key: key.to_string() })
}

fn five() -> Log {
    let mut log = Log::new();
    for i in 0..5u8 {
        log.append_event(&put("ns", &format!("k{i}"), &[i]));
    }
    log
}

#[test]
fn replay_into_folds_put_and_delete_events() {
    let mut log = Log::new();
    log.append_event(&put("ns", "a", b"1"));
    log.append_event(&put("ns", "b", b"2"));
    log.append_event(&delete("ns", "a"));

    let mut proj = KvProjection::default();
    replay_into(&mut proj, &log.records(), log.head()).unwrap();

    assert_eq!(proj.state().get("a"), None);
    assert_eq!(proj.state().get("b"), Some(&b"2".to_vec()));
    assert_eq!(proj.cursor(), log.head());
}

#[test]
fn two_replays_of_same_log_are_identical() {
    let log = five();
    let mut proj_a = KvProjection::default();
    let mut proj_b = KvProjection::default();
    replay_into(&mut proj_a, &log.records(), log.head()).unwrap();
    replay_into(&mut proj_b, &log.records(), log.head()).unwrap();

    assert_eq!(proj_a.state(), proj_b.state());
    assert_eq!(proj_a.cursor(), proj_b.cursor());
}

#[test]
fn rebuild_after_reopen_is_identical() {
    let log = five().reopen();
    let mut proj = KvProjection::default();
    replay_into(&mut proj, &log.records(), log.head()).unwrap();
    for i in 0..5u8 {
        assert_eq!(proj.state().get(&format!("k{i}")), Some(&vec![i]));
    }
}

#[test]
fn replay_into_stops_before_upto() {
    let log = five();
    let mut proj = KvProjection::default();
    replay_into(&mut proj, &log.records(), 3).unwrap();

    assert_eq!(proj.cursor(), 3);
    assert_eq!(proj.state().len(), 3);
    assert!(proj.state().contains_key("k2"));
    assert!(!proj.state().contains_key("k3"));
}

#[test]
fn replay_into_resumes_from_existing_cursor() {
    let log = five();
    let mut incremental = KvProjection::default();
    replay_into(&mut incremental, &log.records(), 2).unwrap();
    replay_into(&mut incremental, &log.records(), log.head()).unwrap();

    let mut one_shot = KvProjection::default();
    replay_into(&mut one_shot, &log.records(), log.head()).unwrap();

    assert_eq!(incremental.state(), one_shot.state());
    assert_eq!(incremental.cursor(), one_shot.cursor());
}

#[test]
fn replay_into_stamps_log_offset_even_if_event_embeds_a_different_one() {
    let mut log = Log::new();
    for i in 0..3u8 {
        let mut event = put("ns", &format!("k{i}"), &[i]);
        event.offset = 999;
        log.append_event(&event);
    }
    let mut proj = KvProjection::default();
    replay_into(&mut proj, &log.records(), log.head()).unwrap();
    assert_eq!(proj.cursor(), 3);
    assert_eq!(proj.state().len(), 3);
}

#[test]
fn replay_into_surfaces_corrupt_payload_as_error() {
    let mut log = Log::new();
    log.append_event(&put("ns", "a", b"1"));
    log.append(b"not a bincode-encoded Event");

    let mut proj = KvProjection::default();
    let err = replay_into(&mut proj, &log.records(), log.head()).unwrap_err();

    assert!(matches!(err, SalamanderError::Corrupt { offset: 1, .. }));
    assert_eq!(proj.state().get("a"), Some(&b"1".to_vec()));
    assert_eq!(proj.cursor(), 1);
}

#[test]
fn a_session_keeps_its_own_events() {
    let mut log = Log::new();
    log.append_event(&of("s", EventBody::SessionStarted { agent_id: "agent".into(), config_hash: "h".into() }));
    log.append_event(&of("t", EventBody::SessionStarted { agent_id: "other".into(), config_hash: "h".into() }));
    log.append_event(&of(
        "s",
        EventBody::ModelTurn { role: Role::User, content: "hello".into(), model: "m".into() },
    ));
    log.append_event(&of(
        "s",
        EventBody::ToolCall { call_id: "1".into(), tool: "grep".into(), args_json: "{}".into() },
    ));
    let view = session_view(&log.records(), "s", 4).unwrap();
    assert_eq!(view.state().agent_id.as_deref(), Some("agent"));
    assert_eq!(view.state().status, SessionStatus::Active);
    assert_eq!(view.state().transcript.len(), 2);
    assert_eq!(view.state().pending.len(), 1);
    assert!(view.state().pending.contains_key("1"));
    let call = view.state().pending.get("1").unwrap();
    assert_eq!((call.tool.as_str(), call.args_json.as_str()), ("grep", "{}"));
    assert!(view.state().pending.get("2").is_none());

    log.append_event(&of("s", EventBody::ToolResult { call_id: "1".into(), ok: true, content: "found".into() }));
    log.append_event(&of("s", EventBody::Decision { summary: "go".into(), rationale: "why not".into() }));
    log.append_event(&of("s", EventBody::SessionEnded { reason: "done".into() }));
    let view = session_view(&log.records(), "s", log.head()).unwrap();
    assert_eq!(view.state().pending.len(), 0);
    assert_eq!(view.state().status, SessionStatus::Ended { reason: "done".into() });
    assert_eq!(view.state().transcript.len(), 4);
    assert!(matches!(&view.state().transcript[3], TranscriptEntry::Decision { summary, .. } if summary == "go"));
    assert_eq!(view.cursor(), log.head());
    let other = session_view(&log.records(), "t", log.head()).unwrap();
    assert_eq!(other.state().agent_id.as_deref(), Some("other"));
    assert_eq!(other.state().transcript.len(), 0);
}

#[test]
fn a_stream_replay_is_the_whole_replay_of_its_events() {
    let mut log = Log::new();
    log.append_event(&put("a", "k", b"1"));
    log.append_event(&put("b", "k", b"2"));
    log.append_event(&put("a", "l", b"3"));
    let mut of_a = KvProjection::default();
    replay_stream(&mut of_a, &log.records(), "a", log.head()).unwrap();
    assert_eq!(of_a.state().get("k"), Some(&b"1".to_vec()));
    assert_eq!(of_a.state().len(), 2);
    let scoped = SessionProjection::new_for("a");
    assert_eq!(scoped.cursor(), 0);
    assert_eq!(scoped.state().status, SessionStatus::NotStarted);
}

#[test]
fn a_fork_of_a_session_is_a_branch() {
    let (name, metadata) = session_fork("chat-1", 7).unwrap();
    assert_eq!(name.as_str(), "chat-1-fork-7");
    assert_eq!(metadata.len(), 1);
    assert_eq!(metadata.get("session_stream"), Some(&b"chat-1".to_vec()));
    assert!(session_fork(&"n".repeat(400), 7).is_err());
}

#[test]
fn bodies_are_read_as_they_were_written() {
    let bodies = vec![
        EventBody::Put { key: "k".into(), value: vec![0, 255] },
        EventBody::Delete { key: "é".into() },
        EventBody::SessionStarted { agent_id: "a".into(), config_hash: "".into() },
        EventBody::ModelTurn { role: Role::Tool, content: "c".into(), model: "m".into() },
        EventBody::ToolCall { call_id: "1".into(), tool: "t".into(), args_json: "[]".into() },
        EventBody::ToolResult { call_id: "1".into(), ok: false, content: "".into() },
        EventBody::Decision { summary: "s".into(), rationale: "r".into() },
        EventBody::SessionEnded { reason: "x".into() },
    ];
    for (i, body) in bodies.iter().enumerate() {
        let bytes = body.encode();
        assert_eq!(&bytes[..4], &(i as u32).to_le_bytes());
        let back = EventBody::decode(&bytes).unwrap();
        assert_eq!(back.encode(), bytes);
        assert_eq!(format!("{back:?}"), format!("{body:?}"));
        assert!(EventBody::decode(&bytes[..bytes.len() - 1]).is_err());
    }
    assert!(EventBody::decode(&9u32.to_le_bytes()).is_err());
}

#[test]
fn an_event_takes_the_position_of_the_log() {
    let mut event = put("ns", "k", b"v");
    event.offset = 3;
    event.timestamp_ms = 17;
    let bytes = event_bytes(&event);
    let back: Event<EventBody> = decode_event(8, &bytes).unwrap();
    assert_eq!((back.offset, back.timestamp_ms, back.namespace.as_str()), (8, 17, "ns"));
    let bad: Result<Event<EventBody>, SalamanderError> = decode_event(8, &bytes[..5]);
    assert!(matches!(bad, Err(SalamanderError::Corrupt { offset: 8, .. })));
}

#[test]
fn json_bodies_are_text() {
    let json = Json::new("{\"a\":1}".to_string()).unwrap();
    let bytes = Body::encode(&json);
    assert_eq!(bytes, bincode::serialize("{\"a\":1}").unwrap());
    assert_eq!(Json::decode(&bytes).unwrap().into_inner(), "{\"a\":1}");
    assert!(Json::decode(&bincode::serialize("{").unwrap()).is_err());
}

#[test]
fn a_record_of_a_stream_is_an_event_of_it() {
    let mut log = Log::new();
    let mut envelope = raw_test_envelope();
    envelope.metadata.insert("salamander.stream_name".to_string(), b"chat".to_vec());
    envelope.timestamp_unix_nanos = 5_000_000;
    envelope.event_type = EventType::new("chat").unwrap();
    let body = EventBody::Delete { key: "k".into() };
    log.segment.append_enveloped(&envelope, &body.encode(), &mut log.bytes).unwrap();
    let event: Event<EventBody> = decode_stored_event(&log.records()[0]).unwrap();
    assert_eq!((event.offset, event.timestamp_ms, event.namespace.as_str()), (0, 5, "chat"));
    let mut record = log.records().remove(0);
    record.payload.truncate(2);
    let Err(SalamanderError::Corrupt { offset, reason }) = decode_stored_event::<EventBody>(&record) else {
        panic!("read")
    };
    assert_eq!(offset, 0);
    assert!(reason.starts_with("payload decode: "));
}

#[test]
fn a_stream_is_listed_up_to_a_position_or_a_fault() {
    let mut log = Log::new();
    log.append_event(&put("a", "k", b"1"));
    log.append_event(&put("b", "k", b"2"));
    log.append_event(&put("a", "l", b"3"));
    log.append(b"no event");
    let listing: Listing<EventBody> = replay(&log.records(), "a", 3);
    assert!(listing.outcome.is_ok());
    assert_eq!(listing.events.iter().map(|e| e.offset).collect::<Vec<_>>(), vec![0, 2]);
    let listing: Listing<EventBody> = replay(&log.records(), "a", 4);
    assert!(matches!(listing.outcome, Err(SalamanderError::Corrupt { offset: 3, .. })));
    assert_eq!(listing.events.len(), 2);
}

#[test]
fn json_bodies_are_held_as_they_are_written() {
    let json = Json::new("{ \"b\" : [1, 2.50], \"a\":\"\\u0041\", \"b\": null }".to_string()).unwrap();
    assert_eq!(json.as_str(), "{\"a\":\"A\",\"b\":null}");
    assert_eq!(Body::encode(&Json::new("{ }".to_string()).unwrap()), bincode::serialize("{}").unwrap());
    assert_eq!(Json::decode(&bincode::serialize("[ 1 ]").unwrap()).unwrap().into_inner(), "[1]");
    assert_eq!(Json::new(" 1 ".to_string()), Json::from_bytes(b"1"));
    assert!(Json::from_bytes(&[0xff]).is_err());
}
