//! What an agent's projections promise: a session tells every event of its
//! stream and nothing else, and keys hold what was last put.
use crate::agent::body::EventBody;
use crate::agent::kv::{KvProjection, KvView};
use crate::agent::session::{
    no_session, session_fork_metadata, session_fork_name, SessionModel, SessionProjection, StatusView, TranscriptView,
};
use crate::event::{event_model, Event};
use crate::format::metadata::{keys_ascend, lemma_inserted, lemma_removed, value_of, MetadataView};
use crate::projection::Projection;
use crate::text::decimal;
use vstd::prelude::*;
use vstd::utf8::encode_utf8;

verus! {

/// Whether an event's body is one that a transcript tells.
pub open spec fn told(body: EventBody) -> bool {
    body is ModelTurn || body is ToolCall || body is ToolResult || body is Decision
}

/// Whether a transcript's entry says what an event says, field by field.
pub open spec fn tells(entry: TranscriptView, body: EventBody) -> bool {
    match body {
        EventBody::ModelTurn { role, content, model } => entry matches TranscriptView::ModelTurn { role: r, content: c, model: m } && r
            == role && c == content@ && m == model@,
        EventBody::ToolCall { call_id, tool, args_json } => entry matches TranscriptView::ToolCall { call_id: i, tool: t, args_json: a }
            && i == call_id@ && t == tool@ && a == args_json@,
        EventBody::ToolResult { call_id, ok, content } => entry matches TranscriptView::ToolResult { call_id: i, ok: o, content: c } && i
            == call_id@ && o == ok && c == content@,
        EventBody::Decision { summary, rationale } => entry matches TranscriptView::Decision { summary: s, rationale: r } && s
            == summary@ && r == rationale@,
        _ => false,
    }
}

/// A transcript grows by one entry for each turn, call, result and decision of
/// its stream, an entry of the event's kind with the event's fields; the entries
/// before stay, and no other event adds one.
pub proof fn lemma_transcript_told(model: SessionModel, event: Event<EventBody>)
    ensures
        ({
            let before = model.state.transcript;
            let after = SessionProjection::folded(model, event_model(event)).state.transcript;
            if event.namespace@ == model.namespace && told(event.body) {
                &&& after.len() == before.len() + 1
                &&& after.take(before.len() as int) == before
                &&& tells(after[before.len() as int], event.body)
            } else {
                after == before
            }
        }),
{
    let before = model.state.transcript;
    let after = SessionProjection::folded(model, event_model(event)).state.transcript;
    if event.namespace@ == model.namespace && told(event.body) {
        assert(after.take(before.len() as int) =~= before);
    }
}

/// A call is pending from its event on until its result, with the tool and the
/// arguments that it was made with; no event touches the other calls.
pub proof fn lemma_calls_pending(model: SessionModel, event: Event<EventBody>, id: Seq<char>)
    ensures
        ({
            let before = model.state.pending;
            let after = SessionProjection::folded(model, event_model(event)).state.pending;
            let here = event.namespace@ == model.namespace;
            match event.body {
                EventBody::ToolCall { call_id, tool, args_json } if here && call_id@ == id => after.contains_key(id) && after[id] == (
                    tool@,
                    args_json@,
                ),
                EventBody::ToolResult { call_id, .. } if here && call_id@ == id => !after.contains_key(id),
                _ => (after.contains_key(id) <==> before.contains_key(id)) && (before.contains_key(id) ==> after[id] == before[id]),
            }
        }),
{
}

/// A session is active once it was started and ended once it was ended, with the
/// agent and the reason that the events give; no other event changes that.
pub proof fn lemma_session_status(model: SessionModel, event: Event<EventBody>)
    ensures
        ({
            let before = model.state;
            let after = SessionProjection::folded(model, event_model(event)).state;
            let here = event.namespace@ == model.namespace;
            match event.body {
                EventBody::SessionStarted { agent_id, .. } if here => after.agent_id == Some(agent_id@) && after.status is Active,
                EventBody::SessionEnded { reason } if here => after.agent_id == before.agent_id && (after.status matches StatusView::Ended {
                    reason: r,
                } && r == reason@),
                _ => after.agent_id == before.agent_id && after.status == before.status,
            }
        }),
        SessionProjection::folded(model, event_model(event)).namespace == model.namespace,
        event.offset < u64::MAX ==> SessionProjection::folded(model, event_model(event)).cursor == event.offset + 1,
{
}

/// A session of which no event was read has no agent, no entries and no calls,
/// and was not started.
pub proof fn lemma_no_session()
    ensures
        no_session().agent_id is None,
        no_session().transcript.len() == 0,
        forall|id: Seq<char>| !(#[trigger] no_session().pending.contains_key(id)),
        no_session().status is NotStarted,
{
}

/// What a key holds after an event, of any stream: the value of a put to it,
/// nothing after a delete of it, and what it held before otherwise.
pub proof fn lemma_keys_held(model: KvView, event: Event<EventBody>, name: Seq<char>)
    requires
        keys_ascend(model.entries),
    ensures
        ({
            let after = KvProjection::folded(model, event_model(event));
            &&& keys_ascend(after.entries)
            &&& event.offset < u64::MAX ==> after.cursor == event.offset + 1
            &&& value_of(after.entries, name) == match event.body {
                EventBody::Put { key, value } if key@ == name => Some(value@),
                EventBody::Delete { key } if key@ == name => None,
                _ => value_of(model.entries, name),
            }
        }),
{
    match event.body {
        EventBody::Put { key, value } => lemma_inserted(model.entries, key@, value@),
        EventBody::Delete { key } => lemma_removed(model.entries, key@),
        _ => {},
    }
}

/// A session is forked into a branch that is named after its stream and the
/// position, and that notes the stream.
pub proof fn lemma_session_forked(namespace: Seq<char>, n: u64)
    ensures
        ({
            let name = session_fork_name(namespace, n);
            let mark = "-fork-"@;
            let k = namespace.len() as int;
            &&& name.len() == k + mark.len() + decimal(n as nat).len()
            &&& name.take(k) == namespace
            &&& name.subrange(k, k + mark.len()) == mark
            &&& name.skip(k + mark.len()) == decimal(n as nat)
        }),
        value_of(session_fork_metadata(namespace), "session_stream"@) == Some(encode_utf8(namespace)),
        forall|other: Seq<char>| other != "session_stream"@ ==> #[trigger] value_of(session_fork_metadata(namespace), other) is None,
{
    let name = session_fork_name(namespace, n);
    let mark = "-fork-"@;
    let k = namespace.len() as int;
    assert(name.take(k) =~= namespace);
    assert(name.subrange(k, k + mark.len()) =~= mark);
    assert(name.skip(k + mark.len()) =~= decimal(n as nat));
    lemma_inserted(MetadataView::empty(), "session_stream"@, encode_utf8(namespace));
}

} // verus!
