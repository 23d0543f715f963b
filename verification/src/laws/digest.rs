//! What digests promise: a retry is told from another request by everything
//! that it says, so that a change of a single byte of it shows.
use crate::checksum::{byte_change_shows, crc32c_of};
use crate::format::envelope::EnvelopeView;
use crate::format::metadata::MetadataView;
use crate::stream::{
    event_bytes, event_digest_of, expected_text, metadata_bytes, request_digest, request_event_bytes, request_events_bytes,
    NewEventView, RequestView,
};
use vstd::prelude::*;
use vstd::utf8::encode_utf8;

verus! {

/// Whether bytes differ from others in exactly one.
pub open spec fn byte_changed(a: Seq<u8>, b: Seq<u8>) -> bool {
    a.len() == b.len() && exists|p: int| #[trigger] changed_at(a, b, p)
}

/// Whether bytes differ from others at `p` and nowhere else.
pub open spec fn changed_at(a: Seq<u8>, b: Seq<u8>, p: int) -> bool {
    &&& 0 <= p < a.len()
    &&& a[p] != b[p]
    &&& forall|i: int| 0 <= i < a.len() && i != p ==> #[trigger] a[i] == b[i]
}

/// Whether metadata has the keys of other metadata and, but for one byte of one
/// value, its values.
pub open spec fn value_changed(a: MetadataView, b: MetadataView) -> bool {
    a.len() == b.len() && exists|k: int| #[trigger] value_changed_at(a, b, k)
}

/// Whether metadata differs from other metadata in one byte of value `k`.
pub open spec fn value_changed_at(a: MetadataView, b: MetadataView, k: int) -> bool {
    &&& 0 <= k < a.len()
    &&& a[k].0 == b[k].0
    &&& byte_changed(a[k].1, b[k].1)
    &&& forall|i: int| 0 <= i < a.len() && i != k ==> #[trigger] a[i] == b[i]
}

/// Whether an event differs from another in one byte of its payload, of its
/// identity or of one of its metadata's values.
pub open spec fn event_changed(a: NewEventView, b: NewEventView) -> bool {
    ||| b == (NewEventView { payload: b.payload, ..a }) && byte_changed(a.payload, b.payload)
    ||| b == (NewEventView { metadata: b.metadata, ..a }) && value_changed(a.metadata, b.metadata)
    ||| b == (NewEventView { event_id: b.event_id, ..a }) && a.event_id is Some && b.event_id is Some && byte_changed(
        a.event_id->0,
        b.event_id->0,
    )
}

/// Whether a request differs from another in one byte of one event, or of its
/// branch.
pub open spec fn request_changed(a: RequestView, b: RequestView) -> bool {
    &&& a.stream == b.stream && a.expected == b.expected && a.events.len() == b.events.len()
    &&& (a.branch == b.branch && exists|k: int| #[trigger] event_changed_at(a.events, b.events, k)) || (byte_changed(a.branch, b.branch)
        && a.events == b.events)
}

/// Whether events differ from others in one byte of event `k`.
pub open spec fn event_changed_at(a: Seq<NewEventView>, b: Seq<NewEventView>, k: int) -> bool {
    &&& 0 <= k < a.len()
    &&& event_changed(a[k], b[k])
    &&& forall|i: int| 0 <= i < a.len() && i != k ==> #[trigger] a[i] == b[i]
}

/// A change of one byte shows in the checksum.
proof fn lemma_change_shows(a: Seq<u8>, b: Seq<u8>)
    requires
        byte_change_shows(a, crc32c_of(a)),
        byte_changed(a, b),
    ensures
        crc32c_of(a) != crc32c_of(b),
{
    let p = choose|p: int| #[trigger] changed_at(a, b, p);
    assert(a.update(p, b[p]) =~= b);
}

/// Bytes around a change of one byte.
proof fn lemma_around(front: Seq<u8>, a: Seq<u8>, b: Seq<u8>, end: Seq<u8>)
    requires
        byte_changed(a, b),
    ensures
        byte_changed(front + a + end, front + b + end),
        byte_changed(front + a, front + b),
        byte_changed(a + end, b + end),
{
    let p = choose|p: int| #[trigger] changed_at(a, b, p);
    let n = front.len();
    assert(changed_at(front + a + end, front + b + end, n + p));
    assert(changed_at(front + a, front + b, n + p));
    assert(changed_at(a + end, b + end, p));
}

proof fn lemma_metadata_changed(a: MetadataView, b: MetadataView, k: int)
    requires
        a.len() == b.len(),
        value_changed_at(a, b, k),
    ensures
        byte_changed(metadata_bytes(a), metadata_bytes(b)),
    decreases a.len(),
{
    let n = a.len() - 1;
    let x = a.drop_last();
    let y = b.drop_last();
    if k == n {
        assert(x =~= y);
        lemma_around(metadata_bytes(x) + encode_utf8(a.last().0), a.last().1, b.last().1, Seq::empty());
    } else {
        assert(a[n] == b[n]);
        assert(value_changed_at(x, y, k));
        lemma_metadata_changed(x, y, k);
        lemma_around(Seq::empty(), metadata_bytes(x), metadata_bytes(y), encode_utf8(a.last().0));
        lemma_around(
            Seq::empty(),
            metadata_bytes(x) + encode_utf8(a.last().0),
            metadata_bytes(y) + encode_utf8(a.last().0),
            a.last().1,
        );
    }
}

proof fn lemma_event_changed(a: NewEventView, b: NewEventView)
    requires
        event_changed(a, b),
    ensures
        byte_changed(request_event_bytes(a), request_event_bytes(b)),
{
    let id = match a.event_id {
        Some(id) => id,
        None => crate::bytes::zero16(),
    };
    let kind = encode_utf8(a.event_type);
    let version = vstd::bytes::spec_u32_to_le_bytes(a.schema_version);
    let meta = metadata_bytes(a.metadata);
    if b == (NewEventView { payload: b.payload, ..a }) && byte_changed(a.payload, b.payload) {
        lemma_around(id + kind + version + meta, a.payload, b.payload, Seq::empty());
    } else if b == (NewEventView { metadata: b.metadata, ..a }) && value_changed(a.metadata, b.metadata) {
        let k = choose|k: int| #[trigger] value_changed_at(a.metadata, b.metadata, k);
        lemma_metadata_changed(a.metadata, b.metadata, k);
        lemma_around(id + kind + version, meta, metadata_bytes(b.metadata), a.payload);
    } else {
        let other = b.event_id->0;
        lemma_around(Seq::empty(), id, other, kind);
        lemma_around(Seq::empty(), id + kind, other + kind, version);
        lemma_around(Seq::empty(), id + kind + version, other + kind + version, meta);
        lemma_around(Seq::empty(), id + kind + version + meta, other + kind + version + meta, a.payload);
    }
}

proof fn lemma_events_changed(a: Seq<NewEventView>, b: Seq<NewEventView>, k: int)
    requires
        a.len() == b.len(),
        event_changed_at(a, b, k),
    ensures
        byte_changed(request_events_bytes(a), request_events_bytes(b)),
    decreases a.len(),
{
    let n = a.len() - 1;
    let x = a.drop_last();
    let y = b.drop_last();
    if k == n {
        assert(x =~= y);
        lemma_event_changed(a.last(), b.last());
        lemma_around(request_events_bytes(x), request_event_bytes(a.last()), request_event_bytes(b.last()), Seq::empty());
    } else {
        assert(a[n] == b[n]);
        assert(event_changed_at(x, y, k));
        lemma_events_changed(x, y, k);
        lemma_around(Seq::empty(), request_events_bytes(x), request_events_bytes(y), request_event_bytes(a.last()));
    }
}

/// What a request's digest is taken of.
pub open spec fn request_bytes(request: RequestView) -> Seq<u8> {
    request.branch + encode_utf8(request.stream) + encode_utf8(expected_text(request.expected)) + request_events_bytes(request.events)
}

/// A request that differs from another in one byte has another digest, so that
/// it is no retry of it. A digest does not look at the key, nor at how durable
/// the request is to be.
pub proof fn lemma_request_told(a: RequestView, b: RequestView)
    requires
        byte_change_shows(request_bytes(a), request_digest(a)),
    ensures
        request_changed(a, b) ==> request_digest(a) != request_digest(b),
        b == (RequestView { durability: b.durability, key: b.key, ..a }) ==> request_digest(a) == request_digest(b),
{
    let s = encode_utf8(a.stream);
    let e = encode_utf8(expected_text(a.expected));
    if request_changed(a, b) {
        if byte_changed(a.branch, b.branch) && a.events == b.events {
            let tail = request_events_bytes(a.events);
            lemma_around(Seq::empty(), a.branch, b.branch, s);
            lemma_around(Seq::empty(), a.branch + s, b.branch + s, e);
            lemma_around(Seq::empty(), a.branch + s + e, b.branch + s + e, tail);
        } else {
            let k = choose|k: int| #[trigger] event_changed_at(a.events, b.events, k);
            lemma_events_changed(a.events, b.events, k);
            lemma_around(a.branch + s + e, request_events_bytes(a.events), request_events_bytes(b.events), Seq::empty());
        }
        lemma_change_shows(request_bytes(a), request_bytes(b));
    }
}

/// Whether a stored event differs from another in one byte of what it says: of
/// its payload, of one of its metadata's values, of its branch or its stream.
pub open spec fn stored_changed(a: EnvelopeView, x: Seq<u8>, b: EnvelopeView, y: Seq<u8>) -> bool {
    ||| b == a && byte_changed(x, y)
    ||| b == (EnvelopeView { metadata: b.metadata, ..a }) && value_changed(a.metadata, b.metadata) && x == y
    ||| b == (EnvelopeView { branch_id: b.branch_id, ..a }) && byte_changed(a.branch_id, b.branch_id) && x == y
    ||| b == (EnvelopeView { stream_id: b.stream_id, ..a }) && byte_changed(a.stream_id, b.stream_id) && x == y
}

/// An event that differs from another in one byte of what it says has another
/// digest. A digest does not look at when an event was written, nor at which
/// batch it is in or what revision it takes.
pub proof fn lemma_event_told(a: EnvelopeView, x: Seq<u8>, b: EnvelopeView, y: Seq<u8>)
    requires
        byte_change_shows(event_bytes(a, x), event_digest_of(a, x)),
    ensures
        stored_changed(a, x, b, y) ==> event_digest_of(a, x) != event_digest_of(b, y),
        x == y && b == (EnvelopeView {
            event_id: b.event_id,
            database_id: b.database_id,
            stream_revision: b.stream_revision,
            timestamp: b.timestamp,
            batch_id: b.batch_id,
            batch_index: b.batch_index,
            ..a
        }) ==> event_digest_of(a, x) == event_digest_of(b, y),
{
    let kind = encode_utf8(a.event_type);
    let version = vstd::bytes::spec_u32_to_le_bytes(a.schema_version);
    let codec = vstd::bytes::spec_u32_to_le_bytes(a.codec);
    let meta = metadata_bytes(a.metadata);
    let ids = a.branch_id + a.stream_id;
    let mid = ids + kind + version + codec;
    if stored_changed(a, x, b, y) {
        if b == a && byte_changed(x, y) {
            lemma_around(mid + meta, x, y, Seq::empty());
        } else if b == (EnvelopeView { metadata: b.metadata, ..a }) && value_changed(a.metadata, b.metadata) {
            let k = choose|k: int| #[trigger] value_changed_at(a.metadata, b.metadata, k);
            lemma_metadata_changed(a.metadata, b.metadata, k);
            lemma_around(mid, meta, metadata_bytes(b.metadata), x);
        } else {
            if b == (EnvelopeView { branch_id: b.branch_id, ..a }) && byte_changed(a.branch_id, b.branch_id) {
                lemma_around(Seq::empty(), a.branch_id, b.branch_id, a.stream_id);
            } else {
                lemma_around(a.branch_id, a.stream_id, b.stream_id, Seq::empty());
            }
            let other = b.branch_id + b.stream_id;
            lemma_around(Seq::empty(), ids, other, kind);
            lemma_around(Seq::empty(), ids + kind, other + kind, version);
            lemma_around(Seq::empty(), ids + kind + version, other + kind + version, codec);
            lemma_around(Seq::empty(), mid, other + kind + version + codec, meta);
            lemma_around(Seq::empty(), mid + meta, other + kind + version + codec + meta, x);
        }
        lemma_change_shows(event_bytes(a, x), event_bytes(b, y));
    }
}

} // verus!
