//! The write storm: events whose content follows from their offset, so that a
//! reader can tell that none was lost, repeated or moved.
use crate::agent::body::{BodyView, EventBody, Role};
use crate::bytes::bytes_equal;
use crate::event::Event;
use crate::facade::heal::{bytes_string, bytes_text};
use crate::format::derive::{left_hash, left_lane};
use crate::text::{decimal, decimal_string, join2, join3, join4, parse_u64, parsed_u64, quote, quoted};
use vstd::bytes::{spec_u64_to_le_bytes, u64_to_le_bytes};
use vstd::prelude::*;

verus! {

/// How many events a storm has unless it is told.
pub const DEFAULT_COUNT: u64 = 1_000_000;

/// How many events an argument asks for; zero and what is no number count as no
/// argument.
pub fn storm_count(argument: Option<&str>) -> (r: u64)
    ensures
        r == match argument {
            Some(text) => match parsed_u64(text@) {
                Some(n) => if n > 0 {
                    n
                } else {
                    DEFAULT_COUNT
                },
                None => DEFAULT_COUNT,
            },
            None => DEFAULT_COUNT,
        },
{
    match argument {
        Some(text) => match parse_u64(text) {
            Some(n) => if n > 0 {
                n
            } else {
                DEFAULT_COUNT
            },
            None => DEFAULT_COUNT,
        },
        None => DEFAULT_COUNT,
    }
}

/// What the event at an offset says.
pub open spec fn storm_event(i: u64) -> BodyView {
    BodyView::Put { key: "storm"@, value: spec_u64_to_le_bytes(i) }
}

/// The event at an offset.
pub fn event_for(i: u64) -> (r: EventBody)
    ensures
        r@ == storm_event(i),
{
    EventBody::Put { key: "storm".to_owned(), value: u64_to_le_bytes(i) }
}

/// A field as a record shows it.
pub open spec fn field_text(name: Seq<char>, value: Seq<char>) -> Seq<char> {
    name + ": "@ + value
}

/// A record as programs show it, `fields` being its fields.
pub open spec fn record_text(name: Seq<char>, fields: Seq<char>) -> Seq<char> {
    name + " { "@ + fields + " }"@
}

fn field_string(name: &str, value: &str) -> (r: String)
    ensures
        r@ == field_text(name@, value@),
{
    join3(name, ": ", value)
}

fn record_string(name: &str, fields: &str) -> (r: String)
    ensures
        r@ == record_text(name@, fields@),
{
    join4(name, " { ", fields, " }")
}

/// What an event says, as programs show it.
pub open spec fn body_text(body: BodyView) -> Seq<char> {
    match body {
        BodyView::Put { key, value } => record_text(
            "Put"@,
            field_text("key"@, quoted(key)) + ", "@ + field_text("value"@, bytes_text(value)),
        ),
        BodyView::Delete { key } => record_text("Delete"@, field_text("key"@, quoted(key))),
        BodyView::SessionStarted { agent_id, config_hash } => record_text(
            "SessionStarted"@,
            field_text("agent_id"@, quoted(agent_id)) + ", "@ + field_text("config_hash"@, quoted(config_hash)),
        ),
        BodyView::ModelTurn { role, content, model } => record_text(
            "ModelTurn"@,
            field_text("role"@, role_text(role)) + ", "@ + field_text("content"@, quoted(content)) + ", "@ + field_text(
                "model"@,
                quoted(model),
            ),
        ),
        BodyView::ToolCall { call_id, tool, args_json } => record_text(
            "ToolCall"@,
            field_text("call_id"@, quoted(call_id)) + ", "@ + field_text("tool"@, quoted(tool)) + ", "@ + field_text(
                "args_json"@,
                quoted(args_json),
            ),
        ),
        BodyView::ToolResult { call_id, ok, content } => record_text(
            "ToolResult"@,
            field_text("call_id"@, quoted(call_id)) + ", "@ + field_text(
                "ok"@,
                if ok {
                    "true"@
                } else {
                    "false"@
                },
            ) + ", "@ + field_text("content"@, quoted(content)),
        ),
        BodyView::Decision { summary, rationale } => record_text(
            "Decision"@,
            field_text("summary"@, quoted(summary)) + ", "@ + field_text("rationale"@, quoted(rationale)),
        ),
        BodyView::SessionEnded { reason } => record_text("SessionEnded"@, field_text("reason"@, quoted(reason))),
    }
}

/// Who speaks, as programs show it.
pub open spec fn role_text(role: Role) -> Seq<char> {
    match role {
        Role::System => "System"@,
        Role::User => "User"@,
        Role::Assistant => "Assistant"@,
        Role::Tool => "Tool"@,
    }
}

fn two_fields(a: String, b: String) -> (r: String)
    ensures
        r@ == a@ + ", "@ + b@,
{
    join3(a.as_str(), ", ", b.as_str())
}

fn quoted_field(name: &str, value: &String) -> (r: String)
    ensures
        r@ == field_text(name@, quoted(value@)),
{
    field_string(name, quote(value.as_str()).as_str())
}

/// What an event says, as programs show it.
pub fn body_string(body: &EventBody) -> (r: String)
    ensures
        r@ == body_text(body@),
{
    match body {
        EventBody::Put { key, value } => {
            let fields = two_fields(quoted_field("key", key), field_string("value", bytes_string(value.as_slice()).as_str()));
            record_string("Put", fields.as_str())
        },
        EventBody::Delete { key } => record_string("Delete", quoted_field("key", key).as_str()),
        EventBody::SessionStarted { agent_id, config_hash } => {
            let fields = two_fields(quoted_field("agent_id", agent_id), quoted_field("config_hash", config_hash));
            record_string("SessionStarted", fields.as_str())
        },
        EventBody::ModelTurn { role, content, model } => {
            let role = match role {
                Role::System => "System",
                Role::User => "User",
                Role::Assistant => "Assistant",
                Role::Tool => "Tool",
            };
            let front = two_fields(field_string("role", role), quoted_field("content", content));
            let fields = two_fields(front, quoted_field("model", model));
            record_string("ModelTurn", fields.as_str())
        },
        EventBody::ToolCall { call_id, tool, args_json } => {
            let front = two_fields(quoted_field("call_id", call_id), quoted_field("tool", tool));
            let fields = two_fields(front, quoted_field("args_json", args_json));
            record_string("ToolCall", fields.as_str())
        },
        EventBody::ToolResult { call_id, ok, content } => {
            let ok = if *ok {
                "true"
            } else {
                "false"
            };
            let front = two_fields(quoted_field("call_id", call_id), field_string("ok", ok));
            let fields = two_fields(front, quoted_field("content", content));
            record_string("ToolResult", fields.as_str())
        },
        EventBody::Decision { summary, rationale } => {
            let fields = two_fields(quoted_field("summary", summary), quoted_field("rationale", rationale));
            record_string("Decision", fields.as_str())
        },
        EventBody::SessionEnded { reason } => record_string("SessionEnded", quoted_field("reason", reason).as_str()),
    }
}

/// Why an event is not the one expected at an offset, if it is not. Its key is
/// not looked at.
pub open spec fn storm_fault(offset: u64, body: BodyView, expected: u64) -> Option<Seq<char>> {
    if offset != expected {
        Some("offset gap: expected "@ + decimal(expected as nat) + ", got "@ + decimal(offset as nat))
    } else {
        match body {
            BodyView::Put { key, value } => if value == spec_u64_to_le_bytes(offset) {
                None
            } else {
                Some("content corruption at offset "@ + decimal(offset as nat))
            },
            _ => Some("unexpected body at offset "@ + decimal(offset as nat) + ": "@ + body_text(body)),
        }
    }
}

/// Whether an event is the one expected at an offset.
pub fn verify_event(event: &Event<EventBody>, expected: u64) -> (r: core::result::Result<(), String>)
    ensures
        match storm_fault(event.offset, event.body@, expected) {
            None => r is Ok,
            Some(fault) => r matches Err(e) && e@ == fault,
        },
{
    if event.offset != expected {
        return Err(
            join4(
                "offset gap: expected ",
                decimal_string(expected).as_str(),
                ", got ",
                decimal_string(event.offset).as_str(),
            ),
        );
    }
    match &event.body {
        EventBody::Put { key: _, value } => {
            if bytes_equal(value.as_slice(), u64_to_le_bytes(event.offset).as_slice()) {
                Ok(())
            } else {
                Err(join2("content corruption at offset ", decimal_string(event.offset).as_str()))
            }
        },
        _ => Err(
            join4(
                "unexpected body at offset ",
                decimal_string(event.offset).as_str(),
                ": ",
                body_string(&event.body).as_str(),
            ),
        ),
    }
}

/// The event that a storm writes at an offset is the one expected there.
pub proof fn lemma_storm_passes(i: u64)
    ensures
        storm_fault(i, storm_event(i), i) is None,
{
}

/// A digest of a byte string, taken on from a digest of what came before it.
pub fn fnv1a(hash: u64, bytes: &[u8]) -> (r: u64)
    ensures
        r == left_lane(hash, bytes@),
{
    left_hash(hash, bytes)
}

/// The digest of the offsets below `count`, in order.
pub open spec fn offsets_digest(hash: u64, count: nat) -> u64
    decreases count,
{
    if count == 0 {
        hash
    } else {
        left_lane(offsets_digest(hash, (count - 1) as nat), spec_u64_to_le_bytes((count - 1) as u64))
    }
}

/// The digest of the offsets below `count`, in order.
pub fn expected_digest(hash: u64, count: u64) -> (r: u64)
    ensures
        r == offsets_digest(hash, count as nat),
{
    let mut digest: u64 = hash;
    let mut i: u64 = 0;
    while i < count
        invariant
            i <= count,
            digest == offsets_digest(hash, i as nat),
        decreases count - i,
    {
        digest = fnv1a(digest, u64_to_le_bytes(i).as_slice());
        i = i + 1;
    }
    digest
}

} // verus!
