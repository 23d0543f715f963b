//! The events of an agent: key/value changes, and the turns, tool calls and
//! decisions of a session.
use crate::binary::{
    blob_at, blob_bytes, flag_at, lemma_blob_at, lemma_text_at, text_at, text_bytes, write_blob, write_text, PieceReader,
};
use crate::bytes::{put, put_u32, u32_at};
use crate::event::Body;
use crate::text::{decimal_string, join3};
use vstd::bytes::spec_u32_to_le_bytes;
use vstd::prelude::*;
use vstd::utf8::encode_utf8;

verus! {

/// Who speaks in a turn.
#[derive(Debug, Clone, Copy, PartialEq, Eq, Structural)]
pub enum Role {
    /// A system prompt or instruction.
    System,
    /// The end user.
    User,
    /// The model.
    Assistant,
    /// A tool.
    Tool,
}

/// The number of a role in stored events.
pub open spec fn role_number(role: Role) -> u32 {
    match role {
        Role::System => 0,
        Role::User => 1,
        Role::Assistant => 2,
        Role::Tool => 3,
    }
}

/// The role of a number in stored events.
pub open spec fn role_of(number: u32) -> Option<Role> {
    match number {
        0 => Some(Role::System),
        1 => Some(Role::User),
        2 => Some(Role::Assistant),
        3 => Some(Role::Tool),
        _ => None,
    }
}

/// What an agent's event says.
#[derive(Debug)]
pub enum EventBody {
    /// `key` now holds `value`.
    Put { key: String, value: Vec<u8> },
    /// `key` holds nothing any more.
    Delete { key: String },
    /// A session begins.
    SessionStarted { agent_id: String, config_hash: String },
    /// One turn of the conversation.
    ModelTurn { role: Role, content: String, model: String },
    /// A tool is called.
    ToolCall { call_id: String, tool: String, args_json: String },
    /// What a call gave.
    ToolResult { call_id: String, ok: bool, content: String },
    /// A decision, where a session may well be forked.
    Decision { summary: String, rationale: String },
    /// A session ends.
    SessionEnded { reason: String },
}

/// What an agent's event says, as plain values.
#[verifier::ext_equal]
pub enum BodyView {
    Put { key: Seq<char>, value: Seq<u8> },
    Delete { key: Seq<char> },
    SessionStarted { agent_id: Seq<char>, config_hash: Seq<char> },
    ModelTurn { role: Role, content: Seq<char>, model: Seq<char> },
    ToolCall { call_id: Seq<char>, tool: Seq<char>, args_json: Seq<char> },
    ToolResult { call_id: Seq<char>, ok: bool, content: Seq<char> },
    Decision { summary: Seq<char>, rationale: Seq<char> },
    SessionEnded { reason: Seq<char> },
}

impl View for EventBody {
    type V = BodyView;

    open spec fn view(&self) -> BodyView {
        match *self {
            EventBody::Put { key, value } => BodyView::Put { key: key@, value: value@ },
            EventBody::Delete { key } => BodyView::Delete { key: key@ },
            EventBody::SessionStarted { agent_id, config_hash } => BodyView::SessionStarted {
                agent_id: agent_id@,
                config_hash: config_hash@,
            },
            EventBody::ModelTurn { role, content, model } => BodyView::ModelTurn { role, content: content@, model: model@ },
            EventBody::ToolCall { call_id, tool, args_json } => BodyView::ToolCall {
                call_id: call_id@,
                tool: tool@,
                args_json: args_json@,
            },
            EventBody::ToolResult { call_id, ok, content } => BodyView::ToolResult { call_id: call_id@, ok, content: content@ },
            EventBody::Decision { summary, rationale } => BodyView::Decision { summary: summary@, rationale: rationale@ },
            EventBody::SessionEnded { reason } => BodyView::SessionEnded { reason: reason@ },
        }
    }
}

/// Two texts, one after the other, and where they end.
pub open spec fn two_texts(bytes: Seq<u8>, at: int) -> Option<(Seq<char>, Seq<char>, int)> {
    match text_at(bytes, at) {
        None => None,
        Some((first, next)) => match text_at(bytes, next) {
            None => None,
            Some((second, end)) => Some((first, second, end)),
        },
    }
}

/// What stored bytes say: the number of the kind of event, and its parts in
/// order. What follows them is passed over.
pub open spec fn body_of(bytes: Seq<u8>) -> Option<BodyView> {
    if bytes.len() < 4 {
        None
    } else {
        match u32_at(bytes, 0) {
            0 => match text_at(bytes, 4) {
                None => None,
                Some((key, next)) => match blob_at(bytes, next) {
                    None => None,
                    Some((value, _)) => Some(BodyView::Put { key, value }),
                },
            },
            1 => match text_at(bytes, 4) {
                None => None,
                Some((key, _)) => Some(BodyView::Delete { key }),
            },
            2 => match two_texts(bytes, 4) {
                None => None,
                Some((agent_id, config_hash, _)) => Some(BodyView::SessionStarted { agent_id, config_hash }),
            },
            3 => if bytes.len() < 8 || role_of(u32_at(bytes, 4)) is None {
                None
            } else {
                match two_texts(bytes, 8) {
                    None => None,
                    Some((content, model, _)) => Some(BodyView::ModelTurn { role: role_of(u32_at(bytes, 4))->0, content, model }),
                }
            },
            4 => match two_texts(bytes, 4) {
                None => None,
                Some((call_id, tool, next)) => match text_at(bytes, next) {
                    None => None,
                    Some((args_json, _)) => Some(BodyView::ToolCall { call_id, tool, args_json }),
                },
            },
            5 => match text_at(bytes, 4) {
                None => None,
                Some((call_id, next)) => match flag_at(bytes, next) {
                    None => None,
                    Some(ok) => match text_at(bytes, next + 1) {
                        None => None,
                        Some((content, _)) => Some(BodyView::ToolResult { call_id, ok, content }),
                    },
                },
            },
            6 => match two_texts(bytes, 4) {
                None => None,
                Some((summary, rationale, _)) => Some(BodyView::Decision { summary, rationale }),
            },
            7 => match text_at(bytes, 4) {
                None => None,
                Some((reason, _)) => Some(BodyView::SessionEnded { reason }),
            },
            _ => None,
        }
    }
}

/// A truth value as a byte.
pub open spec fn flag_bytes(flag: bool) -> Seq<u8> {
    seq![if flag { 1u8 } else { 0u8 }]
}

/// The bytes that an event is stored as.
pub open spec fn body_bytes(body: BodyView) -> Seq<u8> {
    match body {
        BodyView::Put { key, value } => spec_u32_to_le_bytes(0) + text_bytes(key) + blob_bytes(value),
        BodyView::Delete { key } => spec_u32_to_le_bytes(1) + text_bytes(key),
        BodyView::SessionStarted { agent_id, config_hash } => spec_u32_to_le_bytes(2) + text_bytes(agent_id) + text_bytes(config_hash),
        BodyView::ModelTurn { role, content, model } => spec_u32_to_le_bytes(3) + spec_u32_to_le_bytes(role_number(role))
            + text_bytes(content) + text_bytes(model),
        BodyView::ToolCall { call_id, tool, args_json } => spec_u32_to_le_bytes(4) + text_bytes(call_id) + text_bytes(tool)
            + text_bytes(args_json),
        BodyView::ToolResult { call_id, ok, content } => spec_u32_to_le_bytes(5) + text_bytes(call_id) + flag_bytes(ok)
            + text_bytes(content),
        BodyView::Decision { summary, rationale } => spec_u32_to_le_bytes(6) + text_bytes(summary) + text_bytes(rationale),
        BodyView::SessionEnded { reason } => spec_u32_to_le_bytes(7) + text_bytes(reason),
    }
}

fn unknown_number(number: u32, limit: &str) -> String {
    join3("invalid value: integer `", decimal_string(number as u64).as_str(), limit)
}

fn decode_body(bytes: &[u8]) -> (r: core::result::Result<EventBody, String>)
    ensures
        match body_of(bytes@) {
            Some(body) => r matches Ok(b) && b@ == body,
            None => r is Err,
        },
{
    let mut reader = PieceReader::new(bytes);
    let kind: u32 = match reader.word() {
        Ok(kind) => kind,
        Err(e) => return Err(e),
    };
    match kind {
        0 => {
            let key = match reader.text() {
                Ok(key) => key,
                Err(e) => return Err(e),
            };
            match reader.blob() {
                Ok(value) => Ok(EventBody::Put { key, value }),
                Err(e) => Err(e),
            }
        },
        1 => match reader.text() {
            Ok(key) => Ok(EventBody::Delete { key }),
            Err(e) => Err(e),
        },
        2 => {
            let agent_id = match reader.text() {
                Ok(agent_id) => agent_id,
                Err(e) => return Err(e),
            };
            match reader.text() {
                Ok(config_hash) => Ok(EventBody::SessionStarted { agent_id, config_hash }),
                Err(e) => Err(e),
            }
        },
        3 => {
            let number: u32 = match reader.word() {
                Ok(number) => number,
                Err(e) => return Err(e),
            };
            let role = match number {
                0 => Role::System,
                1 => Role::User,
                2 => Role::Assistant,
                3 => Role::Tool,
                _ => return Err(unknown_number(number, "`, expected variant index 0 <= i < 4")),
            };
            let content = match reader.text() {
                Ok(content) => content,
                Err(e) => return Err(e),
            };
            match reader.text() {
                Ok(model) => Ok(EventBody::ModelTurn { role, content, model }),
                Err(e) => Err(e),
            }
        },
        4 => {
            let call_id = match reader.text() {
                Ok(call_id) => call_id,
                Err(e) => return Err(e),
            };
            let tool = match reader.text() {
                Ok(tool) => tool,
                Err(e) => return Err(e),
            };
            match reader.text() {
                Ok(args_json) => Ok(EventBody::ToolCall { call_id, tool, args_json }),
                Err(e) => Err(e),
            }
        },
        5 => {
            let call_id = match reader.text() {
                Ok(call_id) => call_id,
                Err(e) => return Err(e),
            };
            let ok: bool = match reader.flag() {
                Ok(ok) => ok,
                Err(e) => return Err(e),
            };
            match reader.text() {
                Ok(content) => Ok(EventBody::ToolResult { call_id, ok, content }),
                Err(e) => Err(e),
            }
        },
        6 => {
            let summary = match reader.text() {
                Ok(summary) => summary,
                Err(e) => return Err(e),
            };
            match reader.text() {
                Ok(rationale) => Ok(EventBody::Decision { summary, rationale }),
                Err(e) => Err(e),
            }
        },
        7 => match reader.text() {
            Ok(reason) => Ok(EventBody::SessionEnded { reason }),
            Err(e) => Err(e),
        },
        _ => Err(unknown_number(kind, "`, expected variant index 0 <= i < 8")),
    }
}

fn put_text(out: &mut Vec<u8>, text: &String)
    ensures
        final(out)@ == old(out)@ + text_bytes(text@),
{
    put(out, write_text(text.as_str()).as_slice());
}

fn encode_body(body: &EventBody) -> (out: Vec<u8>)
    ensures
        out@ == body_bytes(body@),
{
    let mut out: Vec<u8> = Vec::new();
    let ghost empty = out@;
    proof {
        assert forall|s: Seq<u8>| #[trigger] (empty + s) =~= s by {}
    }
    match body {
        EventBody::Put { key, value } => {
            put_u32(&mut out, 0);
            put_text(&mut out, key);
            put(&mut out, write_blob(value.as_slice()).as_slice());
        },
        EventBody::Delete { key } => {
            put_u32(&mut out, 1);
            put_text(&mut out, key);
        },
        EventBody::SessionStarted { agent_id, config_hash } => {
            put_u32(&mut out, 2);
            put_text(&mut out, agent_id);
            put_text(&mut out, config_hash);
        },
        EventBody::ModelTurn { role, content, model } => {
            put_u32(&mut out, 3);
            let number: u32 = match role {
                Role::System => 0,
                Role::User => 1,
                Role::Assistant => 2,
                Role::Tool => 3,
            };
            put_u32(&mut out, number);
            put_text(&mut out, content);
            put_text(&mut out, model);
        },
        EventBody::ToolCall { call_id, tool, args_json } => {
            put_u32(&mut out, 4);
            put_text(&mut out, call_id);
            put_text(&mut out, tool);
            put_text(&mut out, args_json);
        },
        EventBody::ToolResult { call_id, ok, content } => {
            put_u32(&mut out, 5);
            put_text(&mut out, call_id);
            let ghost before = out@;
            out.push(if *ok { 1 } else { 0 });
            assert(out@ =~= before + flag_bytes(*ok));
            put_text(&mut out, content);
        },
        EventBody::Decision { summary, rationale } => {
            put_u32(&mut out, 6);
            put_text(&mut out, summary);
            put_text(&mut out, rationale);
        },
        EventBody::SessionEnded { reason } => {
            put_u32(&mut out, 7);
            put_text(&mut out, reason);
        },
    }
    out
}

impl Body for EventBody {
    type Model = BodyView;

    open spec fn model(&self) -> BodyView {
        self@
    }

    open spec fn reading(bytes: Seq<u8>) -> Option<BodyView> {
        body_of(bytes)
    }

    open spec fn writing(model: BodyView) -> Seq<u8> {
        body_bytes(model)
    }

    fn decode(bytes: &[u8]) -> (r: core::result::Result<Self, String>) {
        decode_body(bytes)
    }

    fn encode(&self) -> (bytes: Vec<u8>) {
        encode_body(self)
    }
}

impl Clone for EventBody {
    fn clone(&self) -> (r: Self)
        ensures
            r@ == self@,
    {
        match self {
            EventBody::Put { key, value } => EventBody::Put { key: key.clone(), value: crate::bytes::copy_bytes(value) },
            EventBody::Delete { key } => EventBody::Delete { key: key.clone() },
            EventBody::SessionStarted { agent_id, config_hash } => EventBody::SessionStarted {
                agent_id: agent_id.clone(),
                config_hash: config_hash.clone(),
            },
            EventBody::ModelTurn { role, content, model } => EventBody::ModelTurn {
                role: *role,
                content: content.clone(),
                model: model.clone(),
            },
            EventBody::ToolCall { call_id, tool, args_json } => EventBody::ToolCall {
                call_id: call_id.clone(),
                tool: tool.clone(),
                args_json: args_json.clone(),
            },
            EventBody::ToolResult { call_id, ok, content } => EventBody::ToolResult {
                call_id: call_id.clone(),
                ok: *ok,
                content: content.clone(),
            },
            EventBody::Decision { summary, rationale } => EventBody::Decision {
                summary: summary.clone(),
                rationale: rationale.clone(),
            },
            EventBody::SessionEnded { reason } => EventBody::SessionEnded { reason: reason.clone() },
        }
    }
}

/// Whether a text's length can be written.
pub open spec fn writable(text: Seq<char>) -> bool {
    encode_utf8(text).len() <= u64::MAX
}

/// Whether the length of every part of an event can be written.
pub open spec fn body_writable(body: BodyView) -> bool {
    match body {
        BodyView::Put { key, value } => writable(key) && value.len() <= u64::MAX,
        BodyView::Delete { key } => writable(key),
        BodyView::SessionStarted { agent_id, config_hash } => writable(agent_id) && writable(config_hash),
        BodyView::ModelTurn { role, content, model } => writable(content) && writable(model),
        BodyView::ToolCall { call_id, tool, args_json } => writable(call_id) && writable(tool) && writable(args_json),
        BodyView::ToolResult { call_id, ok, content } => writable(call_id) && writable(content),
        BodyView::Decision { summary, rationale } => writable(summary) && writable(rationale),
        BodyView::SessionEnded { reason } => writable(reason),
    }
}

proof fn lemma_two_texts(before: Seq<u8>, first: Seq<char>, second: Seq<char>, rest: Seq<u8>)
    requires
        writable(first),
        writable(second),
    ensures
        two_texts(before + text_bytes(first) + text_bytes(second) + rest, before.len() as int) == Some(
            (first, second, before.len() as int + 16 + encode_utf8(first).len() + encode_utf8(second).len()),
        ),
{
    crate::bytes::lemma_le_codec();
    let all = before + text_bytes(first) + text_bytes(second) + rest;
    assert(all =~= before + text_bytes(first) + (text_bytes(second) + rest));
    lemma_text_at(before, first, text_bytes(second) + rest);
    lemma_text_at(before + text_bytes(first), second, rest);
}

proof fn lemma_put_read(body: BodyView, rest: Seq<u8>)
    requires
        body_writable(body),
        body is Put,
    ensures
        body_of(body_bytes(body) + rest) == Some(body),
{
    crate::bytes::lemma_le_codec();
    let all = body_bytes(body) + rest;
    if let BodyView::Put { key, value } = body {
        let kind = spec_u32_to_le_bytes(0);
        assert(all.subrange(0, 4) =~= kind);
        assert(all =~= kind + text_bytes(key) + (blob_bytes(value) + rest));
        lemma_text_at(kind, key, blob_bytes(value) + rest);
        lemma_blob_at(kind + text_bytes(key), value, rest);
    }
}

proof fn lemma_delete_read(body: BodyView, rest: Seq<u8>)
    requires
        body_writable(body),
        body is Delete,
    ensures
        body_of(body_bytes(body) + rest) == Some(body),
{
    crate::bytes::lemma_le_codec();
    let all = body_bytes(body) + rest;
    if let BodyView::Delete { key } = body {
        let kind = spec_u32_to_le_bytes(1);
        assert(all.subrange(0, 4) =~= kind);
        lemma_text_at(kind, key, rest);
    }
}

proof fn lemma_session_started_read(body: BodyView, rest: Seq<u8>)
    requires
        body_writable(body),
        body is SessionStarted,
    ensures
        body_of(body_bytes(body) + rest) == Some(body),
{
    crate::bytes::lemma_le_codec();
    let all = body_bytes(body) + rest;
    if let BodyView::SessionStarted { agent_id, config_hash } = body {
        let kind = spec_u32_to_le_bytes(2);
        assert(all.subrange(0, 4) =~= kind);
        lemma_two_texts(kind, agent_id, config_hash, rest);
    }
}

proof fn lemma_model_turn_read(body: BodyView, rest: Seq<u8>)
    requires
        body_writable(body),
        body is ModelTurn,
    ensures
        body_of(body_bytes(body) + rest) == Some(body),
{
    crate::bytes::lemma_le_codec();
    let all = body_bytes(body) + rest;
    if let BodyView::ModelTurn { role, content, model } = body {
        let kind = spec_u32_to_le_bytes(3);
        let who = spec_u32_to_le_bytes(role_number(role));
        assert(all.subrange(0, 4) =~= kind);
        assert(all.subrange(4, 8) =~= who);
        lemma_two_texts(kind + who, content, model, rest);
    }
}

proof fn lemma_tool_call_read(body: BodyView, rest: Seq<u8>)
    requires
        body_writable(body),
        body is ToolCall,
    ensures
        body_of(body_bytes(body) + rest) == Some(body),
{
    crate::bytes::lemma_le_codec();
    let all = body_bytes(body) + rest;
    if let BodyView::ToolCall { call_id, tool, args_json } = body {
        let kind = spec_u32_to_le_bytes(4);
        assert(all.subrange(0, 4) =~= kind);
        assert(all =~= kind + text_bytes(call_id) + text_bytes(tool) + (text_bytes(args_json) + rest));
        lemma_two_texts(kind, call_id, tool, text_bytes(args_json) + rest);
        lemma_text_at(kind + text_bytes(call_id) + text_bytes(tool), args_json, rest);
    }
}

proof fn lemma_tool_result_read(body: BodyView, rest: Seq<u8>)
    requires
        body_writable(body),
        body is ToolResult,
    ensures
        body_of(body_bytes(body) + rest) == Some(body),
{
    crate::bytes::lemma_le_codec();
    let all = body_bytes(body) + rest;
    if let BodyView::ToolResult { call_id, ok, content } = body {
        let kind = spec_u32_to_le_bytes(5);
        assert(all.subrange(0, 4) =~= kind);
        let tail = flag_bytes(ok) + (text_bytes(content) + rest);
        assert(all =~= kind + text_bytes(call_id) + tail);
        lemma_text_at(kind, call_id, tail);
        let front = kind + text_bytes(call_id);
        assert(all[front.len() as int] == flag_bytes(ok)[0]);
        assert(all =~= front + flag_bytes(ok) + text_bytes(content) + rest);
        lemma_text_at(front + flag_bytes(ok), content, rest);
    }
}

proof fn lemma_decision_read(body: BodyView, rest: Seq<u8>)
    requires
        body_writable(body),
        body is Decision,
    ensures
        body_of(body_bytes(body) + rest) == Some(body),
{
    crate::bytes::lemma_le_codec();
    let all = body_bytes(body) + rest;
    if let BodyView::Decision { summary, rationale } = body {
        let kind = spec_u32_to_le_bytes(6);
        assert(all.subrange(0, 4) =~= kind);
        lemma_two_texts(kind, summary, rationale, rest);
    }
}

proof fn lemma_session_ended_read(body: BodyView, rest: Seq<u8>)
    requires
        body_writable(body),
        body is SessionEnded,
    ensures
        body_of(body_bytes(body) + rest) == Some(body),
{
    crate::bytes::lemma_le_codec();
    let all = body_bytes(body) + rest;
    if let BodyView::SessionEnded { reason } = body {
        let kind = spec_u32_to_le_bytes(7);
        assert(all.subrange(0, 4) =~= kind);
        lemma_text_at(kind, reason, rest);
    }
}

/// An event is read back as it was written, whatever follows it.
pub proof fn lemma_body_round_trip(body: BodyView, rest: Seq<u8>)
    requires
        body_writable(body),
    ensures
        body_of(body_bytes(body) + rest) == Some(body),
{
    match body {
        BodyView::Put { .. } => lemma_put_read(body, rest),
        BodyView::Delete { .. } => lemma_delete_read(body, rest),
        BodyView::SessionStarted { .. } => lemma_session_started_read(body, rest),
        BodyView::ModelTurn { .. } => lemma_model_turn_read(body, rest),
        BodyView::ToolCall { .. } => lemma_tool_call_read(body, rest),
        BodyView::ToolResult { .. } => lemma_tool_result_read(body, rest),
        BodyView::Decision { .. } => lemma_decision_read(body, rest),
        BodyView::SessionEnded { .. } => lemma_session_ended_read(body, rest),
    }
}

} // verus!
