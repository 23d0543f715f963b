//! A session as it is shown: one line for each entry, and two branches side by
//! side.
use crate::agent::body::{BodyView, EventBody, Role};
use crate::agent::session::{TranscriptEntry, TranscriptView};
use crate::text::{join2, join3, join4, same_text};
use vstd::prelude::*;

verus! {

/// What a speaker is called.
pub open spec fn role_text(role: Role) -> Seq<char> {
    match role {
        Role::System => "system"@,
        Role::User => "user"@,
        Role::Assistant => "assistant"@,
        Role::Tool => "tool"@,
    }
}

pub fn role_name(role: Role) -> (r: &'static str)
    ensures
        r@ == role_text(role),
{
    match role {
        Role::System => "system",
        Role::User => "user",
        Role::Assistant => "assistant",
        Role::Tool => "tool",
    }
}

/// How a result's success is shown.
pub open spec fn mark_text(ok: bool) -> Seq<char> {
    if ok {
        "ok"@
    } else {
        "ERR"@
    }
}

pub fn ok_mark(ok: bool) -> (r: &'static str)
    ensures
        r@ == mark_text(ok),
{
    if ok {
        "ok"
    } else {
        "ERR"
    }
}

/// The line of an entry.
pub open spec fn transcript_label(entry: TranscriptView) -> Seq<char> {
    match entry {
        TranscriptView::ModelTurn { role, content, model } => role_text(role) + ": "@ + content,
        TranscriptView::ToolCall { call_id, tool, args_json } => "\u{2192} call "@ + tool + "(\u{2026})"@,
        TranscriptView::ToolResult { call_id, ok, content } => "\u{2190} "@ + mark_text(ok) + " "@ + content,
        TranscriptView::Decision { summary, rationale } => "\u{2605} decision: "@ + summary,
    }
}

/// The line of an entry.
pub fn label_transcript(entry: &TranscriptEntry) -> (r: String)
    ensures
        r@ == transcript_label(entry@),
{
    match entry {
        TranscriptEntry::ModelTurn { role, content, model: _ } => join3(role_name(*role), ": ", content.as_str()),
        TranscriptEntry::ToolCall { call_id: _, tool, args_json: _ } => join3("\u{2192} call ", tool.as_str(), "(\u{2026})"),
        TranscriptEntry::ToolResult { call_id: _, ok, content } => join4("\u{2190} ", ok_mark(*ok), " ", content.as_str()),
        TranscriptEntry::Decision { summary, rationale: _ } => join2("\u{2605} decision: ", summary.as_str()),
    }
}

/// The line of an event.
pub open spec fn event_label(body: BodyView) -> Seq<char> {
    match body {
        BodyView::SessionStarted { agent_id, config_hash } => "session started (agent \""@ + agent_id + "\")"@,
        BodyView::ModelTurn { role, content, model } => role_text(role) + ": "@ + content,
        BodyView::ToolCall { call_id, tool, args_json } => "\u{2192} call "@ + tool + "(\u{2026})"@,
        BodyView::ToolResult { call_id, ok, content } => "\u{2190} "@ + mark_text(ok) + " "@ + content,
        BodyView::Decision { summary, rationale } => "\u{2605} decision: "@ + summary,
        BodyView::SessionEnded { reason } => "session ended: "@ + reason,
        BodyView::Put { key, value } => "(kv event)"@,
        BodyView::Delete { key } => "(kv event)"@,
    }
}

/// The line of an event.
pub fn label_event(body: &EventBody) -> (r: String)
    ensures
        r@ == event_label(body@),
{
    match body {
        EventBody::SessionStarted { agent_id, config_hash: _ } => join3("session started (agent \"", agent_id.as_str(), "\")"),
        EventBody::ModelTurn { role, content, model: _ } => join3(role_name(*role), ": ", content.as_str()),
        EventBody::ToolCall { call_id: _, tool, args_json: _ } => join3("\u{2192} call ", tool.as_str(), "(\u{2026})"),
        EventBody::ToolResult { call_id: _, ok, content } => join4("\u{2190} ", ok_mark(*ok), " ", content.as_str()),
        EventBody::Decision { summary, rationale: _ } => join2("\u{2605} decision: ", summary.as_str()),
        EventBody::SessionEnded { reason } => join2("session ended: ", reason.as_str()),
        EventBody::Put { key: _, value: _ } => "(kv event)".to_owned(),
        EventBody::Delete { key: _ } => "(kv event)".to_owned(),
    }
}

/// The lines of a transcript.
pub fn transcript_labels(transcript: &Vec<TranscriptEntry>) -> (r: Vec<String>)
    ensures
        r@.len() == transcript@.len(),
        forall|i: int| 0 <= i < r@.len() ==> (#[trigger] r@[i])@ == transcript_label(transcript@[i]@),
{
    let mut lines: Vec<String> = Vec::new();
    let mut i: usize = 0;
    while i < transcript.len()
        invariant
            i <= transcript@.len(),
            lines@.len() == i,
            forall|j: int| 0 <= j < i ==> (#[trigger] lines@[j])@ == transcript_label(transcript@[j]@),
        decreases transcript@.len() - i,
    {
        lines.push(label_transcript(&transcript[i]));
        i = i + 1;
    }
    lines
}

/// How many lines two sides begin with alike.
pub fn shared_prefix_len(a: &Vec<String>, b: &Vec<String>) -> (n: usize)
    ensures
        n <= a@.len(),
        n <= b@.len(),
        forall|i: int| 0 <= i < n ==> (#[trigger] a@[i])@ == b@[i]@,
        n < a@.len() && n < b@.len() ==> a@[n as int]@ != b@[n as int]@,
{
    let mut n: usize = 0;
    while n < a.len() && n < b.len() && same_text(a[n].as_str(), b[n].as_str())
        invariant
            n <= a@.len(),
            n <= b@.len(),
            forall|i: int| 0 <= i < n ==> (#[trigger] a@[i])@ == b@[i]@,
        decreases a@.len() - n,
    {
        n = n + 1;
    }
    n
}

/// A text in at most `max` characters; one that is cut ends in an ellipsis.
pub open spec fn truncated_text(text: Seq<char>, max: int) -> Seq<char> {
    if text.len() <= max {
        text
    } else {
        text.take(
            if max > 0 {
                max - 1
            } else {
                0
            },
        ) + "\u{2026}"@
    }
}

/// A text in at most `max` characters.
pub fn truncate(text: &str, max: usize) -> (r: String)
    ensures
        r@ == truncated_text(text@, max as int),
{
    if text.unicode_len() <= max {
        return text.to_owned();
    }
    let kept: usize = if max > 0 {
        max - 1
    } else {
        0
    };
    let front = text.substring_char(0, kept);
    assert(front@ =~= text@.take(kept as int));
    join2(front, "\u{2026}")
}

} // verus!
