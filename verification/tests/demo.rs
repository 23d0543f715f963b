use salamander::agent::body::{EventBody, Role};
use salamander::agent::session::TranscriptEntry;
use salamander::demo::batches::{batch_row, check_batches, BatchRow};
use salamander::demo::command::{Command, DEFAULT_DIRECTORY, DEFAULT_PORT};
use salamander::demo::crash::{keeps_reported, last_durable_head, Rng, Scenario};
use salamander::demo::http::{branch_param, parse_hex, percent_decode, route, split_target, unescape, Route};
use salamander::demo::playground::{
    append_fields, choose_append, choose_fork, content_length, fork_fields, request_line, MAX_BODY_BYTES,
};
use salamander::demo::storm::{body_string, event_for, expected_digest, fnv1a, storm_count, verify_event, DEFAULT_COUNT};
use salamander::demo::transcript::{
    label_event, label_transcript, ok_mark, role_name, shared_prefix_len, transcript_labels, truncate,
};
use salamander::event::Event;
use salamander::facade::page::{encode_payload, record_dto};
use salamander::facade::types::PayloadCodec;
use salamander::format::frame::{FrameKind, OwnedStoredRecord};
use salamander::format::ids::{BatchId, BranchId};
use salamander::log::record::raw_test_envelope;
use salamander::text::{decimal_string, hex_string, padded_string, parse_u64, read_pair};

fn words(texts: &[&str]) -> Vec<String> {
    texts.iter().map(|t| t.to_string()).collect()
}

#[test]
fn commands_are_read() {
    assert!(matches!(Command::parse(&words(&["session"])), Some(Command::Session)));
    assert!(matches!(
        Command::parse(&words(&["migrate", "a", "b"])),
        Some(Command::Migrate { source, destination }) if source == "a" && destination == "b"
    ));
    assert!(Command::parse(&words(&["migrate", "a"])).is_none());
    assert!(matches!(Command::parse(&words(&["migrate-branches", "a", "b"])), Some(Command::MigrateBranches { .. })));
    assert!(matches!(Command::parse(&words(&["storm"])), Some(Command::Storm { count: None })));
    assert!(matches!(Command::parse(&words(&["storm", "5"])), Some(Command::Storm { count: Some(n) }) if n == "5"));
    assert!(matches!(
        Command::parse(&words(&["ui"])),
        Some(Command::Playground { directory, port: DEFAULT_PORT }) if directory == DEFAULT_DIRECTORY
    ));
    assert!(matches!(
        Command::parse(&words(&["ui", "d", "--port", "80"])),
        Some(Command::Playground { directory, port: 80 }) if directory == "d"
    ));
    assert!(Command::parse(&words(&["ui", "--port"])).is_none());
    assert!(Command::parse(&words(&["ui", "--port", "99999"])).is_none());
    assert!(matches!(
        Command::parse(&words(&["crashtest", "x", "y"])),
        Some(Command::CrashTest { arguments }) if arguments == words(&["x", "y"])
    ));
    assert!(Command::parse(&words(&["other"])).is_none());
    assert!(Command::parse(&Vec::new()).is_none());
}

#[test]
fn a_crash_keeps_what_was_reported() {
    assert_eq!(last_durable_head(&words(&["DURABLE 3", "noise", "DURABLE 7", "DURABLE x"])), Some(7));
    assert_eq!(last_durable_head(&words(&["noise"])), None);
    assert!(keeps_reported(7, Some(7)) && !keeps_reported(6, Some(7)) && keeps_reported(0, None));
    for scenario in [Scenario::Append, Scenario::Batch, Scenario::Snapshot, Scenario::Heal] {
        assert_eq!(Scenario::parse(scenario.name()), Some(scenario));
    }
    assert_eq!(Scenario::parse("other"), None);
}

#[test]
fn numbers_are_drawn_by_a_fixed_rule() {
    let mut rng = Rng { state: 0 };
    assert_eq!(rng.next_u64(), 0xe220_a839_7b1d_cdaf);
    assert_eq!(rng.next_u64(), 0x6e78_9e6a_a1b9_65f4);
    let delay = Scenario::Append.kill_delay_ms(&mut rng);
    assert!(delay >= 50 && delay < 500);
    let mut a = Rng::seeded(1, 2);
    let mut b = Rng::seeded(1, 2);
    assert_eq!(a.next_u64(), b.next_u64());
}

#[test]
fn targets_are_split_and_decoded() {
    let (path, parameters) = split_target("/api/events?branch=00&q=a%20b+c&flag");
    assert_eq!(path, "/api/events");
    assert_eq!(parameters.len(), 2);
    assert_eq!((parameters[1].name.as_str(), parameters[1].value.as_str()), ("q", "a b c"));
    assert_eq!(split_target("/").0, "/");
    assert_eq!(percent_decode("caf%C3%A9"), "caf\u{e9}");
    assert_eq!(percent_decode("%FF"), "\u{fffd}");
    assert_eq!(unescape("%zz"), b"%zz".to_vec());
}

#[test]
fn branches_are_named_by_their_digits() {
    assert_eq!(parse_hex(&"0a".repeat(16)).unwrap(), BranchId::from_bytes([10; 16]));
    assert_eq!(parse_hex("0\"").unwrap_err(), "bad branch id \"0\\\"\"");
    assert_eq!(parse_hex(&"zz".repeat(16)).unwrap_err(), "bad branch id");
    assert_eq!(branch_param(&Vec::new()).unwrap(), BranchId::zero());
    let (_, parameters) = split_target(&format!("/?branch={}", "0b".repeat(16)));
    assert_eq!(branch_param(&parameters).unwrap(), BranchId::from_bytes([11; 16]));
}

#[test]
fn requests_are_routed() {
    assert_eq!(route("GET", "/"), Route::Page);
    assert_eq!(route("GET", "/api/state"), Route::State);
    assert_eq!(route("GET", "/api/events"), Route::Events);
    assert_eq!(route("POST", "/api/append"), Route::Append);
    assert_eq!(route("POST", "/api/fork"), Route::Fork);
    assert_eq!(route("POST", "/"), Route::NotFound);
}

fn storm(offset: u64, body: EventBody) -> Event<EventBody> {
    Event { offset, timestamp_ms: 0, namespace: "storm".to_string(), body }
}

#[test]
fn a_storm_is_verified_event_by_event() {
    assert_eq!(storm_count(None), DEFAULT_COUNT);
    assert_eq!(storm_count(Some("12")), 12);
    assert_eq!(storm_count(Some("0")), DEFAULT_COUNT);
    assert_eq!(storm_count(Some("many")), DEFAULT_COUNT);
    assert!(verify_event(&storm(3, event_for(3)), 3).is_ok());
    assert_eq!(verify_event(&storm(4, event_for(4)), 3).unwrap_err(), "offset gap: expected 3, got 4");
    assert_eq!(verify_event(&storm(3, event_for(4)), 3).unwrap_err(), "content corruption at offset 3");
    assert_eq!(
        verify_event(&storm(3, EventBody::Delete { key: "k".into() }), 3).unwrap_err(),
        "unexpected body at offset 3: Delete { key: \"k\" }"
    );
    for body in [
        EventBody::Put { key: "a\"b".into(), value: vec![1, 20] },
        EventBody::Delete { key: "k".into() },
        EventBody::SessionStarted { agent_id: "a".into(), config_hash: "h".into() },
        EventBody::ModelTurn { role: Role::Assistant, content: "hi\n".into(), model: "m".into() },
        EventBody::ToolCall { call_id: "1".into(), tool: "t".into(), args_json: "{}".into() },
        EventBody::ToolResult { call_id: "1".into(), ok: false, content: "c".into() },
        EventBody::Decision { summary: "s".into(), rationale: "r".into() },
        EventBody::SessionEnded { reason: "done".into() },
    ] {
        assert_eq!(body_string(&body), format!("{body:?}"));
    }
    assert_eq!(fnv1a(0xcbf2_9ce4_8422_2325, b"a"), 0xaf63_dc4c_8601_ec8c);
    let mut hash = 7;
    for i in 0..4u64 {
        hash = fnv1a(hash, &i.to_le_bytes());
    }
    assert_eq!(expected_digest(7, 4), hash);
}

#[test]
fn transcripts_are_labelled() {
    let turn = TranscriptEntry::ModelTurn { role: Role::User, content: "hi".into(), model: "m".into() };
    assert_eq!(label_transcript(&turn), "user: hi");
    let result = TranscriptEntry::ToolResult { call_id: "1".into(), ok: false, content: "no".into() };
    assert_eq!(label_transcript(&result), "\u{2190} ERR no");
    assert_eq!(label_event(&EventBody::SessionStarted { agent_id: "a".into(), config_hash: "h".into() }), "session started (agent \"a\")");
    assert_eq!(label_event(&EventBody::Delete { key: "k".into() }), "(kv event)");
    assert_eq!(transcript_labels(&vec![turn, result]).len(), 2);
    assert_eq!(shared_prefix_len(&words(&["a", "b", "c"]), &words(&["a", "b", "d"])), 2);
    assert_eq!(truncate("abcdef", 4), "abc\u{2026}");
    assert_eq!(truncate("abcd", 4), "abcd");
    assert_eq!((role_name(Role::Tool), ok_mark(true)), ("tool", "ok"));
}

#[test]
fn texts_of_numbers_are_exact() {
    assert_eq!(decimal_string(u64::MAX), "18446744073709551615");
    assert_eq!(padded_string(255, 16, 4), "00ff");
    assert_eq!(hex_string(&[0, 171, 255]), "00abff");
    assert_eq!(parse_u64("18446744073709551615"), Some(u64::MAX));
    assert_eq!(parse_u64("18446744073709551616"), None);
    assert_eq!(parse_u64("+5"), Some(5));
    assert_eq!(parse_u64(""), None);
    assert_eq!(read_pair(b'a', b'F'), Some(0xaf));
    assert_eq!(read_pair(b'g', b'0'), None);
}

#[test]
fn first_lines_and_lengths_are_read() {
    assert_eq!(request_line("GET /a?b HTTP/1.1\r\n"), ("GET".to_string(), "/a?b".to_string()));
    assert_eq!(request_line("  GET\t/\n"), ("GET".to_string(), "/".to_string()));
    assert_eq!(request_line(""), (String::new(), String::new()));
    assert_eq!(content_length("Content-Length:  12 \r\n"), Some(12));
    assert_eq!(content_length("CONTENT-LENGTH:7\n"), Some(7));
    assert_eq!(content_length("content-length: x\n"), None);
    assert_eq!(content_length("Host: h\r\n"), None);
    assert_eq!(MAX_BODY_BYTES, 4_194_304);
}

#[test]
fn bodies_say_what_to_append_and_fork() {
    let fields = append_fields(b"{\"stream\":\"s\",\"payload\":{\"a\": [1, null]}}").unwrap();
    assert_eq!((fields.stream.as_str(), fields.payload.as_str()), ("s", "{\"a\":[1,null]}"));
    assert_eq!(fields.branch, BranchId::zero());
    assert_eq!(append_fields(b"{\"stream\":\"\",\"payload\":1}").unwrap_err(), "missing \"stream\"");
    assert_eq!(append_fields(b"{\"stream\":\"s\"}").unwrap_err(), "missing \"payload\"");
    assert_eq!(append_fields(b"{\"stream\":\"s\",\"payload\":1,\"branch\":\"0\"}").unwrap_err(), "bad branch id \"0\"");
    assert!(append_fields(b"{").is_err());
    let fork = fork_fields(b"{\"at\":3,\"name\":\"n\"}").unwrap();
    assert_eq!((fork.parent, fork.at, fork.name.as_str()), (BranchId::zero(), 3, "n"));
    assert_eq!(fork_fields(b"{\"name\":\"n\"}").unwrap_err(), "missing \"at\"");
    assert_eq!(fork_fields(b"{\"at\":-1,\"name\":\"n\"}").unwrap_err(), "missing \"at\"");
    assert_eq!(fork_fields(b"{\"at\":3}").unwrap_err(), "missing \"name\"");
    assert_eq!(choose_fork(None, Some(1), Some(String::new())).unwrap_err(), "missing \"name\"");
    assert_eq!(choose_append(None, None, None).unwrap_err(), "missing \"stream\"");
}

fn row(batch: u8, index: u32, len: u64, revision: u64) -> BatchRow {
    BatchRow {
        batch_id: [batch; 16],
        batch_index: index,
        stream_revision: revision,
        declared_len: Some(len),
        declared_index: Some(index as u64),
    }
}

#[test]
fn recovered_batches_are_whole() {
    let whole = vec![row(1, 0, 2, 0), row(1, 1, 2, 1), row(2, 0, 1, 2)];
    assert_eq!(check_batches(&whole), Some(2));
    assert_eq!(check_batches(&Vec::new()), Some(0));
    assert_eq!(check_batches(&vec![row(1, 0, 2, 0)]), None);
    assert_eq!(check_batches(&vec![row(1, 0, 1, 0), row(2, 0, 1, 1), row(1, 0, 1, 2)]), None);
    assert_eq!(check_batches(&vec![row(1, 0, 1, 1)]), None);
    let mut silent = row(1, 0, 1, 0);
    silent.declared_len = None;
    assert_eq!(check_batches(&vec![silent]), None);
    let mut envelope = raw_test_envelope();
    envelope.batch_id = BatchId::from_bytes([4; 16]);
    let dto = record_dto(OwnedStoredRecord {
        kind: FrameKind::Event,
        flags: 0,
        position: 0,
        envelope,
        payload: encode_payload(PayloadCodec::Json, b"{\"batch_len\":1,\"batch_index\":0}"),
    })
    .unwrap();
    let read = batch_row(&dto);
    assert_eq!((read.batch_id, read.declared_len, read.declared_index), ([4; 16], Some(1), Some(0)));
    assert_eq!(check_batches(&vec![read]), Some(1));
}
