//! How forks were marked before branches were part of the engine: by an event
//! of the child's stream that gives the parent's stream and a position.
use crate::agent::body::{body_of, BodyView, EventBody};
use crate::binary::{read_text, text_at};
use crate::event::Body;
use crate::facade::json::{check_json, json_fault, text_view};
use crate::text::{parse_u64, parsed_u64, same_text};
use vstd::prelude::*;
use vstd::utf8::encode_utf8;

verus! {

/// The text that a JSON document holds under a field of a field, if it does.
pub uninterp spec fn json_inner_text_of(document: Seq<u8>, outer: Seq<char>, inner: Seq<char>) -> Option<Seq<char>>;

/// The unsigned number that a JSON document holds under a field of a field, if
/// it does.
pub uninterp spec fn json_inner_number_of(document: Seq<u8>, outer: Seq<char>, inner: Seq<char>) -> Option<u64>;

/// `serde_json::Value::get`, twice, on a document that `serde_json::from_slice`
/// reads, then `serde_json::Value::as_str`. What comes of it depends on the
/// bytes and the fields alone, and is named.
#[verifier::external_body]
pub(crate) fn json_inner_text(document: &[u8], outer: &str, inner: &str) -> (r: Option<String>)
    ensures
        text_view(r) == json_inner_text_of(document@, outer@, inner@),
{
    let value = serde_json::from_slice::<serde_json::Value>(document).ok()?;
    value.get(outer)?.get(inner)?.as_str().map(str::to_owned)
}

/// `serde_json::Value::get`, twice, on a document that `serde_json::from_slice`
/// reads, then `serde_json::Value::as_u64`. What comes of it depends on the
/// bytes and the fields alone, and is named.
#[verifier::external_body]
pub(crate) fn json_inner_number(document: &[u8], outer: &str, inner: &str) -> (r: Option<u64>)
    ensures
        r == json_inner_number_of(document@, outer@, inner@),
{
    let value = serde_json::from_slice::<serde_json::Value>(document).ok()?;
    value.get(outer)?.get(inner)?.as_u64()
}

/// Where the last `@` of a text stands.
pub open spec fn last_at(text: Seq<char>) -> Option<int>
    decreases text.len(),
{
    if text.len() == 0 {
        None
    } else if text.last() == '@' {
        Some(text.len() - 1)
    } else {
        last_at(text.drop_last())
    }
}

/// The stream and the position that a configuration note gives:
/// `forked_from=stream@position`, where the stream may hold an `@` too.
pub open spec fn fork_note(note: Seq<char>) -> Option<(Seq<char>, u64)> {
    let prefix = "forked_from="@;
    if !prefix.is_prefix_of(note) {
        None
    } else {
        let rest = note.skip(prefix.len() as int);
        match last_at(rest) {
            None => None,
            Some(at) => match parsed_u64(rest.skip(at + 1)) {
                None => None,
                Some(position) => Some((rest.take(at), position)),
            },
        }
    }
}

proof fn lemma_last_at(text: Seq<char>, n: int)
    requires
        0 <= n <= text.len(),
        forall|j: int| n <= j < text.len() ==> #[trigger] text[j] != '@',
    ensures
        last_at(text) == last_at(text.take(n)),
    decreases text.len(),
{
    if n == text.len() {
        assert(text.take(n) =~= text);
    } else {
        assert(text[text.len() - 1] != '@');
        assert(text.drop_last().take(n) =~= text.take(n));
        lemma_last_at(text.drop_last(), n);
    }
}

fn find_last_at(text: &str) -> (r: Option<usize>)
    ensures
        match last_at(text@) {
            Some(at) => r matches Some(i) && i == at && at < text@.len(),
            None => r is None,
        },
{
    let mut n: usize = text.unicode_len();
    while n > 0
        invariant
            n <= text@.len(),
            forall|j: int| n <= j < text@.len() ==> #[trigger] text@[j] != '@',
        decreases n,
    {
        if text.get_char(n - 1) == '@' {
            proof {
                lemma_last_at(text@, n as int);
                assert(text@.take(n as int).last() == '@');
            }
            return Some(n - 1);
        }
        n = n - 1;
    }
    proof {
        lemma_last_at(text@, 0);
        assert(text@.take(0) =~= Seq::empty());
    }
    None
}

/// The stream and the position that a configuration note gives.
pub fn parse_fork_note(note: &str) -> (r: Option<(String, u64)>)
    ensures
        match fork_note(note@) {
            Some((stream, position)) => r matches Some((s, p)) && s@ == stream && p == position,
            None => r is None,
        },
{
    let prefix = "forked_from=";
    let skipped: usize = prefix.unicode_len();
    let len: usize = note.unicode_len();
    if len < skipped {
        return None;
    }
    let front = note.substring_char(0, skipped);
    proof {
        assert(front@ == prefix@ <==> prefix@.is_prefix_of(note@)) by {
            assert(note@.subrange(0, skipped as int) =~= front@);
        }
    }
    if !same_text(front, prefix) {
        return None;
    }
    let rest = note.substring_char(skipped, len);
    assert(rest@ =~= note@.skip(skipped as int));
    match find_last_at(rest) {
        None => None,
        Some(at) => {
            let size: usize = rest.unicode_len();
            let tail = rest.substring_char(at + 1, size);
            assert(tail@ =~= rest@.skip(at + 1));
            match parse_u64(tail) {
                None => None,
                Some(position) => {
                    let stream = rest.substring_char(0, at);
                    assert(stream@ =~= rest@.take(at as int));
                    Some((stream.to_owned(), position))
                },
            }
        },
    }
}

/// The fork that an agent event marks: a session's start whose configuration is
/// a fork note.
pub open spec fn agent_marker(payload: Seq<u8>) -> Option<(Seq<char>, u64)> {
    match body_of(payload) {
        Some(BodyView::SessionStarted { agent_id, config_hash }) => fork_note(config_hash),
        _ => None,
    }
}

/// The fork that an agent event marks.
pub fn legacy_agent_marker(payload: &[u8]) -> (r: Option<(String, u64)>)
    ensures
        match agent_marker(payload@) {
            Some((stream, position)) => r matches Some((s, p)) && s@ == stream && p == position,
            None => r is None,
        },
{
    match EventBody::decode(payload) {
        Ok(EventBody::SessionStarted { agent_id: _, config_hash }) => parse_fork_note(config_hash.as_str()),
        _ => None,
    }
}

/// The JSON document that a payload holds: under its length, or as it stands.
pub open spec fn json_document(payload: Seq<u8>) -> Option<Seq<u8>> {
    if text_at(payload, 0) is Some && json_fault(encode_utf8((text_at(payload, 0)->0).0)) is None {
        Some(encode_utf8((text_at(payload, 0)->0).0))
    } else if json_fault(payload) is None {
        Some(payload)
    } else {
        None
    }
}

/// The fork that a JSON document marks: an object under `__salamander_fork__`
/// with the parent's stream and the position.
pub open spec fn document_marker(parent: Option<Seq<char>>, at: Option<u64>) -> Option<(Seq<char>, u64)> {
    match (parent, at) {
        (Some(parent), Some(at)) => Some((parent, at)),
        _ => None,
    }
}

/// The fork that a payload marks with a JSON document.
pub open spec fn json_marker(payload: Seq<u8>) -> Option<(Seq<char>, u64)> {
    match json_document(payload) {
        Some(document) => document_marker(
            json_inner_text_of(document, "__salamander_fork__"@, "parent"@),
            json_inner_number_of(document, "__salamander_fork__"@, "at"@),
        ),
        None => None,
    }
}

fn read_document_marker(document: &[u8]) -> (r: Option<(String, u64)>)
    ensures
        match document_marker(
            json_inner_text_of(document@, "__salamander_fork__"@, "parent"@),
            json_inner_number_of(document@, "__salamander_fork__"@, "at"@),
        ) {
            Some((stream, position)) => r matches Some((s, p)) && s@ == stream && p == position,
            None => r is None,
        },
{
    let parent = json_inner_text(document, "__salamander_fork__", "parent");
    let at = json_inner_number(document, "__salamander_fork__", "at");
    match (parent, at) {
        (Some(parent), Some(at)) => Some((parent, at)),
        _ => None,
    }
}

/// The fork that a payload marks with a JSON document.
pub fn legacy_json_marker(payload: &[u8]) -> (r: Option<(String, u64)>)
    ensures
        match json_marker(payload@) {
            Some((stream, position)) => r matches Some((s, p)) && s@ == stream && p == position,
            None => r is None,
        },
{
    match read_text(payload) {
        Ok(text) => {
            let document = text.as_str().as_bytes();
            if check_json(document).is_none() {
                return read_document_marker(document);
            }
        },
        Err(_) => {},
    }
    if check_json(payload).is_none() {
        return read_document_marker(payload);
    }
    None
}

/// The fork that a payload marks, as an agent event or else as JSON.
pub open spec fn fork_marker(payload: Seq<u8>) -> Option<(Seq<char>, u64)> {
    match agent_marker(payload) {
        Some(marker) => Some(marker),
        None => json_marker(payload),
    }
}

/// The fork that a payload marks.
pub fn legacy_marker(payload: &[u8]) -> (r: Option<(String, u64)>)
    ensures
        match fork_marker(payload@) {
            Some((stream, position)) => r matches Some((s, p)) && s@ == stream && p == position,
            None => r is None,
        },
{
    match legacy_agent_marker(payload) {
        Some(marker) => Some(marker),
        None => legacy_json_marker(payload),
    }
}

} // verus!
