//! Streams: names, append requests and receipts, and the catalog of what was
//! appended, by which retries are recognised and revisions are counted.
use crate::bytes::{copy_bytes, put, put_u32, read_u32, u32_at, zero16};
use crate::checksum::{byte_change_shows, crc32c, crc32c_of};
use crate::error::{corrupt, invalid_argument, ErrorView, Result, SalamanderError};
use crate::format::envelope::EnvelopeView;
use crate::format::frame::{record_views, OwnedStoredRecord, RecordView};
use crate::format::ids::{event_type_error, BatchId, BranchId, EventId, EventType, StreamId, StreamRevision};
use crate::format::metadata::{value_of, Metadata, MetadataView};
use crate::laws::digest::request_bytes;
use crate::places::{lemma_noted, Places};
use crate::text::{decimal, decimal_string, join3, same_text, utf8_text};
use vstd::bytes::spec_u32_to_le_bytes;
use vstd::prelude::*;
use vstd::utf8::{decode_utf8, encode_utf8, valid_utf8};

verus! {

/// Why `name` cannot name a stream, if it cannot.
pub open spec fn stream_name_error(name: Seq<char>) -> Option<ErrorView> {
    if name.len() == 0 || encode_utf8(name).contains(0u8) {
        Some(ErrorView::InvalidArgument("stream name must be nonempty and contain no NUL"@))
    } else {
        None
    }
}

/// A stream's name: nonempty and without NUL.
#[derive(Debug, PartialEq, Eq, PartialOrd, Ord, Hash)]
pub struct StreamName(String);

impl View for StreamName {
    type V = Seq<char>;

    closed spec fn view(&self) -> Seq<char> {
        self.0@
    }
}

impl StreamName {
    #[verifier::type_invariant]
    spec fn inv(self) -> bool {
        stream_name_error(self.0@) is None
    }

    pub fn new(value: &str) -> (r: Result<Self>)
        ensures
            r is Ok <==> stream_name_error(value@) is None,
            r matches Ok(name) ==> name@ == value@,
            r matches Err(e) ==> Some(e@) == stream_name_error(value@),
    {
        if value.is_empty() || crate::bytes::contains_byte(value.as_bytes(), 0) {
            return Err(invalid_argument("stream name must be nonempty and contain no NUL"));
        }
        Ok(StreamName(value.to_owned()))
    }

    pub fn as_str(&self) -> (r: &str)
        ensures
            r@ == self@,
            stream_name_error(r@) is None,
    {
        proof {
            use_type_invariant(self);
        }
        self.0.as_str()
    }
}

/// Why `bytes` cannot be an idempotency key, if they cannot.
pub open spec fn idempotency_key_error(bytes: Seq<u8>) -> Option<ErrorView> {
    if bytes.len() == 0 {
        Some(ErrorView::InvalidArgument("idempotency key must not be empty"@))
    } else {
        None
    }
}

/// The key by which a writer's retries are recognised: nonempty bytes.
#[derive(Debug, PartialEq, Eq, PartialOrd, Ord, Hash)]
pub struct IdempotencyKey(Vec<u8>);

impl View for IdempotencyKey {
    type V = Seq<u8>;

    closed spec fn view(&self) -> Seq<u8> {
        self.0@
    }
}

impl IdempotencyKey {
    #[verifier::type_invariant]
    spec fn inv(self) -> bool {
        idempotency_key_error(self.0@) is None
    }

    pub fn new(bytes: Vec<u8>) -> (r: Result<Self>)
        ensures
            r is Ok <==> idempotency_key_error(bytes@) is None,
            r matches Ok(key) ==> key@ == bytes@,
            r matches Err(e) ==> Some(e@) == idempotency_key_error(bytes@),
    {
        if bytes.len() == 0 {
            return Err(invalid_argument("idempotency key must not be empty"));
        }
        Ok(IdempotencyKey(bytes))
    }

    pub fn as_bytes(&self) -> (r: &[u8])
        ensures
            r@ == self@,
            idempotency_key_error(r@) is None,
    {
        proof {
            use_type_invariant(self);
        }
        self.0.as_slice()
    }
}

/// What a writer expects of a stream's revision.
#[derive(Debug, Clone, Copy, PartialEq, Eq, Structural)]
pub enum ExpectedRevision {
    Any,
    NoStream,
    Exact(StreamRevision),
}

/// How durable an append is to be.
#[derive(Debug, Clone, Copy, PartialEq, Eq, Structural)]
pub enum Durability {
    Buffered,
    Flush,
    Sync,
}

/// How durable an append was when it was acknowledged.
#[derive(Debug, Clone, Copy, PartialEq, Eq, Structural)]
pub enum ReceiptDurability {
    Buffered,
    Flushed,
    Synced,
}

/// The acknowledgement of an append.
#[derive(Debug, Clone, Copy, PartialEq, Eq)]
pub struct AppendReceipt {
    pub batch_id: BatchId,
    pub first_position: u64,
    pub last_position: u64,
    pub stream_id: StreamId,
    pub previous_revision: Option<StreamRevision>,
    pub current_revision: StreamRevision,
    pub durability: ReceiptDurability,
}

/// A receipt as plain values.
#[verifier::ext_equal]
pub struct ReceiptView {
    pub batch_id: Seq<u8>,
    pub first: u64,
    pub last: u64,
    pub stream_id: Seq<u8>,
    pub previous: Option<u64>,
    pub current: u64,
    pub durability: ReceiptDurability,
}

/// An optional revision as a plain number.
pub open spec fn revision_view(revision: Option<StreamRevision>) -> Option<u64> {
    match revision {
        Some(r) => Some(r.0),
        None => None,
    }
}

impl View for AppendReceipt {
    type V = ReceiptView;

    open spec fn view(&self) -> ReceiptView {
        ReceiptView {
            batch_id: self.batch_id@,
            first: self.first_position,
            last: self.last_position,
            stream_id: self.stream_id@,
            previous: revision_view(self.previous_revision),
            current: self.current_revision.0,
            durability: self.durability,
        }
    }
}

/// An event to append, its payload already encoded.
#[derive(Debug)]
pub struct NewEvent {
    pub event_id: Option<EventId>,
    pub event_type: EventType,
    pub schema_version: u32,
    pub metadata: Metadata,
    pub payload: Vec<u8>,
}

/// A new event as plain values.
#[verifier::ext_equal]
pub struct NewEventView {
    pub event_id: Option<Seq<u8>>,
    pub event_type: Seq<char>,
    pub schema_version: u32,
    pub metadata: MetadataView,
    pub payload: Seq<u8>,
}

/// An optional event identity as plain bytes.
pub open spec fn event_id_view(id: Option<EventId>) -> Option<Seq<u8>> {
    match id {
        Some(id) => Some(id@),
        None => None,
    }
}

impl View for NewEvent {
    type V = NewEventView;

    open spec fn view(&self) -> NewEventView {
        NewEventView {
            event_id: event_id_view(self.event_id),
            event_type: self.event_type@,
            schema_version: self.schema_version,
            metadata: self.metadata@,
            payload: self.payload@,
        }
    }
}

impl NewEvent {
    /// An event of the first schema version, without an identity or metadata.
    pub fn new(event_type: EventType, payload: Vec<u8>) -> (r: Self)
        ensures
            r@ == (NewEventView {
                event_id: None,
                event_type: event_type@,
                schema_version: 1,
                metadata: MetadataView::empty(),
                payload: payload@,
            }),
    {
        NewEvent { event_id: None, event_type, schema_version: 1, metadata: Metadata::new(), payload }
    }
}

/// The events of a list as plain values.
pub open spec fn new_event_views(events: Seq<NewEvent>) -> Seq<NewEventView> {
    Seq::new(events.len(), |i: int| events[i]@)
}

/// A request to append events to a stream, all or none.
#[derive(Debug)]
pub struct AppendRequest {
    pub branch: BranchId,
    pub stream: StreamName,
    pub expected: ExpectedRevision,
    pub idempotency_key: Option<IdempotencyKey>,
    pub events: Vec<NewEvent>,
    pub durability: Durability,
}

/// A request as plain values.
#[verifier::ext_equal]
pub struct RequestView {
    pub branch: Seq<u8>,
    pub stream: Seq<char>,
    pub expected: ExpectedRevision,
    pub key: Option<Seq<u8>>,
    pub events: Seq<NewEventView>,
    pub durability: Durability,
}

/// An optional key as plain bytes.
pub open spec fn key_view(key: Option<IdempotencyKey>) -> Option<Seq<u8>> {
    match key {
        Some(key) => Some(key@),
        None => None,
    }
}

impl View for AppendRequest {
    type V = RequestView;

    open spec fn view(&self) -> RequestView {
        RequestView {
            branch: self.branch@,
            stream: self.stream@,
            expected: self.expected,
            key: key_view(self.idempotency_key),
            events: new_event_views(self.events@),
            durability: self.durability,
        }
    }
}

/// Why a request cannot be taken, if it cannot.
pub open spec fn request_error(request: RequestView) -> Option<ErrorView> {
    if request.events.len() == 0 {
        Some(ErrorView::InvalidArgument("append request must hold an event"@))
    } else {
        None
    }
}

/// What appending one event to a stream asks for, or why it cannot be asked.
pub open spec fn single_request(branch: Seq<u8>, namespace: Seq<char>, event_type: Seq<char>, payload: Seq<u8>) -> core::result::Result<
    RequestView,
    ErrorView,
> {
    if stream_name_error(namespace) is Some {
        Err(stream_name_error(namespace)->0)
    } else if event_type_error(event_type) is Some {
        Err(event_type_error(event_type)->0)
    } else {
        Ok(
            RequestView {
                branch,
                stream: namespace,
                expected: ExpectedRevision::Any,
                key: None,
                events: seq![
                    NewEventView { event_id: None, event_type, schema_version: 1, metadata: Seq::empty(), payload },
                ],
                durability: Durability::Buffered,
            },
        )
    }
}

impl AppendRequest {
    /// Asks to append one event to a stream, whatever its revision.
    pub fn single(branch: BranchId, namespace: &str, event_type: &str, payload: Vec<u8>) -> (r: Result<Self>)
        ensures
            match single_request(branch@, namespace@, event_type@, payload@) {
                Ok(request) => r matches Ok(out) && out@ == request,
                Err(e) => r matches Err(error) && error@ == e,
            },
    {
        let stream = match StreamName::new(namespace) {
            Ok(stream) => stream,
            Err(e) => return Err(e),
        };
        let event_type = match EventType::new(event_type) {
            Ok(event_type) => event_type,
            Err(e) => return Err(e),
        };
        let event = NewEvent::new(event_type, payload);
        let ghost view = event@;
        let mut events: Vec<NewEvent> = Vec::new();
        events.push(event);
        let out = AppendRequest {
            branch,
            stream,
            expected: ExpectedRevision::Any,
            idempotency_key: None,
            events,
            durability: Durability::Buffered,
        };
        assert(out@.events =~= seq![view]);
        Ok(out)
    }

    pub fn validate(&self) -> (r: Result<()>)
        ensures
            r is Ok <==> request_error(self@) is None,
            r matches Err(e) ==> Some(e@) == request_error(self@),
    {
        if self.events.len() == 0 {
            return Err(invalid_argument("append request must hold an event"));
        }
        Ok(())
    }
}

/// The text of a revision.
pub open spec fn revision_text(revision: u64) -> Seq<char> {
    "StreamRevision("@ + decimal(revision as nat) + ")"@
}

/// The text of an expectation.
pub open spec fn expected_text(expected: ExpectedRevision) -> Seq<char> {
    match expected {
        ExpectedRevision::Any => "Any"@,
        ExpectedRevision::NoStream => "NoStream"@,
        ExpectedRevision::Exact(r) => "Exact("@ + revision_text(r.0) + ")"@,
    }
}

/// The text of what a stream's revision is.
pub open spec fn actual_text(actual: Option<u64>) -> Seq<char> {
    match actual {
        None => "None"@,
        Some(r) => "Some("@ + revision_text(r) + ")"@,
    }
}

pub fn expected_string(expected: ExpectedRevision) -> (s: String)
    ensures
        s@ == expected_text(expected),
{
    match expected {
        ExpectedRevision::Any => "Any".to_owned(),
        ExpectedRevision::NoStream => "NoStream".to_owned(),
        ExpectedRevision::Exact(r) => {
            let inner = join3("StreamRevision(", decimal_string(r.0).as_str(), ")");
            join3("Exact(", inner.as_str(), ")")
        },
    }
}

fn actual_string(actual: Option<StreamRevision>) -> (s: String)
    ensures
        s@ == actual_text(revision_view(actual)),
{
    match actual {
        None => "None".to_owned(),
        Some(r) => {
            let inner = join3("StreamRevision(", decimal_string(r.0).as_str(), ")");
            join3("Some(", inner.as_str(), ")")
        },
    }
}

/// Whether a stream at `actual` is what a writer expects.
pub open spec fn revision_expected(expected: ExpectedRevision, actual: Option<u64>) -> bool {
    match expected {
        ExpectedRevision::Any => true,
        ExpectedRevision::NoStream => actual is None,
        ExpectedRevision::Exact(r) => actual == Some(r.0),
    }
}

/// The error for a stream that is not what a writer expects.
pub open spec fn revision_error(expected: ExpectedRevision, actual: Option<u64>) -> ErrorView {
    ErrorView::RevisionConflict { expected: expected_text(expected), actual: actual_text(actual) }
}

/// Checks what a writer expects of a stream.
pub fn validate_expected(expected: ExpectedRevision, actual: Option<StreamRevision>) -> (r: Result<()>)
    ensures
        r is Ok <==> revision_expected(expected, revision_view(actual)),
        r matches Err(e) ==> e@ == revision_error(expected, revision_view(actual)),
{
    let matched = match expected {
        ExpectedRevision::Any => true,
        ExpectedRevision::NoStream => actual.is_none(),
        ExpectedRevision::Exact(wanted) => match actual {
            Some(found) => found.0 == wanted.0,
            None => false,
        },
    };
    if matched {
        return Ok(());
    }
    Err(SalamanderError::RevisionConflict { expected: expected_string(expected), actual: actual_string(actual) })
}

/// The keys and values of metadata, one after the other.
pub open spec fn metadata_bytes(m: MetadataView) -> Seq<u8>
    decreases m.len(),
{
    if m.len() == 0 {
        Seq::empty()
    } else {
        metadata_bytes(m.drop_last()) + encode_utf8(m.last().0) + m.last().1
    }
}

fn put_metadata(out: &mut Vec<u8>, metadata: &Metadata)
    ensures
        final(out)@ == old(out)@ + metadata_bytes(metadata@),
{
    let ghost m = metadata@;
    let ghost start = out@;
    let mut i: usize = 0;
    assert(m.take(0) =~= MetadataView::empty());
    assert(out@ =~= start + metadata_bytes(m.take(0)));
    while i < metadata.len()
        invariant
            m == metadata@,
            i <= m.len(),
            out@ == start + metadata_bytes(m.take(i as int)),
        decreases m.len() - i,
    {
        let entry = metadata.entry(i);
        put(out, entry.key.as_str().as_bytes());
        put(out, entry.value.as_slice());
        proof {
            let upto = m.take(i + 1);
            assert(upto.drop_last() =~= m.take(i as int));
            assert(upto.last() == m[i as int]);
            assert(out@ =~= start + metadata_bytes(upto));
        }
        i = i + 1;
    }
    assert(m.take(i as int) =~= m);
}

/// One event's part of a request's digest.
pub open spec fn request_event_bytes(event: NewEventView) -> Seq<u8> {
    let id = match event.event_id {
        Some(id) => id,
        None => zero16(),
    };
    id + encode_utf8(event.event_type) + spec_u32_to_le_bytes(event.schema_version) + metadata_bytes(event.metadata)
        + event.payload
}

/// The events' part of a request's digest.
pub open spec fn request_events_bytes(events: Seq<NewEventView>) -> Seq<u8>
    decreases events.len(),
{
    if events.len() == 0 {
        Seq::empty()
    } else {
        request_events_bytes(events.drop_last()) + request_event_bytes(events.last())
    }
}

/// The digest by which a retried request is recognised.
pub open spec fn request_digest(request: RequestView) -> u32 {
    crc32c_of(
        request.branch + encode_utf8(request.stream) + encode_utf8(expected_text(request.expected)) + request_events_bytes(
            request.events,
        ),
    )
}

/// The digest by which a retried request is recognised.
pub fn request_fingerprint(request: &AppendRequest) -> (r: u32)
    ensures
        r == request_digest(request@),
        byte_change_shows(request_bytes(request@), r),
{
    let ghost q = request@;
    let mut out: Vec<u8> = Vec::new();
    put(&mut out, request.branch.as_bytes());
    put(&mut out, request.stream.as_str().as_bytes());
    let expected = expected_string(request.expected);
    put(&mut out, expected.as_str().as_bytes());
    let ghost head = q.branch + encode_utf8(q.stream) + encode_utf8(expected_text(q.expected));
    assert(out@ =~= head);
    let mut i: usize = 0;
    assert(q.events.take(0) =~= Seq::empty());
    assert(out@ =~= head + request_events_bytes(q.events.take(0)));
    while i < request.events.len()
        invariant
            q == request@,
            i <= q.events.len(),
            out@ == head + request_events_bytes(q.events.take(i as int)),
        decreases q.events.len() - i,
    {
        let event = &request.events[i];
        let id: EventId = match event.event_id {
            Some(id) => id,
            None => EventId::zero(),
        };
        put(&mut out, id.as_bytes());
        put(&mut out, event.event_type.as_str().as_bytes());
        put_u32(&mut out, event.schema_version);
        put_metadata(&mut out, &event.metadata);
        put(&mut out, event.payload.as_slice());
        proof {
            let upto = q.events.take(i + 1);
            assert(upto.drop_last() =~= q.events.take(i as int));
            assert(upto.last() == event@);
            assert(out@ =~= head + request_events_bytes(upto));
        }
        i = i + 1;
    }
    assert(q.events.take(i as int) =~= q.events);
    crc32c(out.as_slice())
}

/// What an event says, whenever it was written: its branch, stream, type,
/// schema, codec, metadata and payload.
pub open spec fn event_bytes(env: EnvelopeView, payload: Seq<u8>) -> Seq<u8> {
    env.branch_id + env.stream_id + encode_utf8(env.event_type) + spec_u32_to_le_bytes(env.schema_version)
        + spec_u32_to_le_bytes(env.codec) + metadata_bytes(env.metadata) + payload
}

/// The digest of what an event says.
pub open spec fn event_digest_of(env: EnvelopeView, payload: Seq<u8>) -> u32 {
    crc32c_of(event_bytes(env, payload))
}

/// The digest of what an event says.
pub fn event_fingerprint(envelope: &crate::format::envelope::RecordEnvelopeV2, payload: &[u8]) -> (r: u32)
    ensures
        r == event_digest_of(envelope@, payload@),
        byte_change_shows(event_bytes(envelope@, payload@), r),
{
    let mut out: Vec<u8> = Vec::new();
    put(&mut out, envelope.branch_id.as_bytes());
    put(&mut out, envelope.stream_id.as_bytes());
    put(&mut out, envelope.event_type.as_str().as_bytes());
    put_u32(&mut out, envelope.schema_version);
    put_u32(&mut out, envelope.codec.0);
    put_metadata(&mut out, &envelope.metadata);
    put(&mut out, payload);
    assert(out@ =~= event_bytes(envelope@, payload@));
    crc32c(out.as_slice())
}

/// The stream that a record names in its metadata.
pub open spec fn stream_name_of(position: u64, metadata: MetadataView) -> core::result::Result<Seq<char>, ErrorView> {
    match value_of(metadata, "salamander.stream_name"@) {
        None => Err(
            ErrorView::Corrupt { offset: position, reason: "v2 event is missing salamander.stream_name metadata"@ },
        ),
        Some(bytes) => if valid_utf8(bytes) {
            Ok(decode_utf8(bytes))
        } else {
            Err(ErrorView::Corrupt { offset: position, reason: "v2 stream name is not UTF-8"@ })
        },
    }
}

/// The stream that a record names in its metadata.
pub fn record_stream_name(position: u64, metadata: &Metadata) -> (r: Result<String>)
    ensures
        match stream_name_of(position, metadata@) {
            Ok(name) => r matches Ok(s) && s@ == name,
            Err(e) => r matches Err(error) && error@ == e,
        },
{
    match metadata.get("salamander.stream_name") {
        None => Err(corrupt(position, "v2 event is missing salamander.stream_name metadata")),
        Some(bytes) => match utf8_text(bytes.as_slice()) {
            Some(name) => Ok(name),
            None => Err(corrupt(position, "v2 stream name is not UTF-8")),
        },
    }
}

/// A batch that was appended.
#[derive(Debug)]
pub struct BatchEntry {
    pub branch: BranchId,
    pub stream: String,
    pub stream_id: StreamId,
    /// The identities and digests of its events.
    pub digests: Vec<(EventId, u32)>,
    /// The key and the digest of its request.
    pub key: Option<(Vec<u8>, u32)>,
    pub receipt: AppendReceipt,
}

/// An appended batch as plain values.
#[verifier::ext_equal]
pub struct EntryView {
    pub branch: Seq<u8>,
    pub stream: Seq<char>,
    pub stream_id: Seq<u8>,
    pub digests: Seq<(Seq<u8>, u32)>,
    pub key: Option<(Seq<u8>, u32)>,
    pub receipt: ReceiptView,
}

/// Event identities and digests as plain values.
pub open spec fn digest_views(digests: Seq<(EventId, u32)>) -> Seq<(Seq<u8>, u32)> {
    Seq::new(digests.len(), |i: int| (digests[i].0@, digests[i].1))
}

impl View for BatchEntry {
    type V = EntryView;

    open spec fn view(&self) -> EntryView {
        EntryView {
            branch: self.branch@,
            stream: self.stream@,
            stream_id: self.stream_id@,
            digests: digest_views(self.digests@),
            key: match self.key {
                Some((key, digest)) => Some((key@, digest)),
                None => None,
            },
            receipt: self.receipt@,
        }
    }
}

/// The entries of a list as plain values.
pub open spec fn entry_views(entries: Seq<BatchEntry>) -> Seq<EntryView> {
    Seq::new(entries.len(), |i: int| entries[i]@)
}

/// The last batch of a stream.
pub open spec fn last_of_stream(h: Seq<EntryView>, branch: Seq<u8>, stream: Seq<char>) -> Option<EntryView>
    decreases h.len(),
{
    if h.len() == 0 {
        None
    } else if h.last().branch == branch && h.last().stream == stream {
        Some(h.last())
    } else {
        last_of_stream(h.drop_last(), branch, stream)
    }
}

/// The revision that a stream has reached.
pub open spec fn stream_revision_in(h: Seq<EntryView>, branch: Seq<u8>, stream: Seq<char>) -> Option<u64> {
    match last_of_stream(h, branch, stream) {
        Some(entry) => Some(entry.receipt.current),
        None => None,
    }
}

/// The digest of an event among those of a batch.
pub open spec fn digest_in(digests: Seq<(Seq<u8>, u32)>, id: Seq<u8>) -> Option<u32>
    decreases digests.len(),
{
    if digests.len() == 0 {
        None
    } else if digests.last().0 == id {
        Some(digests.last().1)
    } else {
        digest_in(digests.drop_last(), id)
    }
}

/// The digest and the receipt of an event that was appended.
pub open spec fn event_in(h: Seq<EntryView>, id: Seq<u8>) -> Option<(u32, ReceiptView)>
    decreases h.len(),
{
    if h.len() == 0 {
        None
    } else {
        match digest_in(h.last().digests, id) {
            Some(digest) => Some((digest, h.last().receipt)),
            None => event_in(h.drop_last(), id),
        }
    }
}

/// Whether a batch was appended.
pub open spec fn batch_in(h: Seq<EntryView>, id: Seq<u8>) -> bool {
    exists|i: int| 0 <= i < h.len() && (#[trigger] h[i]).receipt.batch_id == id
}

/// The request digest and the receipt under a branch's idempotency key.
pub open spec fn key_in(h: Seq<EntryView>, branch: Seq<u8>, key: Seq<u8>) -> Option<(u32, ReceiptView)>
    decreases h.len(),
{
    if h.len() == 0 {
        None
    } else {
        let entry = h.last();
        match entry.key {
            Some((k, digest)) if entry.branch == branch && k == key => Some((digest, entry.receipt)),
            _ => key_in(h.drop_last(), branch, key),
        }
    }
}

/// Whether a batch can be looked for under a name: its stream's, its own
/// identity, its key, or an event's identity.
pub open spec fn entry_named(entry: EntryView, name: Seq<u8>) -> bool {
    ||| encode_utf8(entry.stream) == name
    ||| entry.receipt.batch_id == name
    ||| (entry.key matches Some((key, _)) && key == name)
    ||| digest_in(entry.digests, name) is Some
}

/// The batches, and where they stand by their names.
#[derive(Debug)]
struct Noted {
    entries: Vec<BatchEntry>,
    places: Places,
}

impl Noted {
    spec fn wf(&self) -> bool {
        &&& self.places.ordered_below(self.entries@.len() as int)
        &&& forall|k: int, name: Seq<u8>|
            0 <= k < self.entries@.len() && #[trigger] entry_named(self.entries@[k]@, name) ==> self.places.under(name).contains(k as usize)
    }

    fn new() -> (r: Self)
        ensures
            r.wf(),
            r.entries@.len() == 0,
    {
        Noted { entries: Vec::new(), places: Places::new() }
    }

    /// Notes the names of the batch at a place, which is the last.
    fn note_names(places: &mut Places, entry: &BatchEntry, place: usize)
        requires
            old(places).ordered_below(place + 1),
        ensures
            final(places).ordered_below(place + 1),
            forall|name: Seq<u8>| #[trigger] entry_named(entry@, name) ==> final(places).under(name).contains(place),
            forall|name: Seq<u8>, p: usize| #[trigger] old(places).under(name).contains(p) ==> final(places).under(name).contains(p),
    {
        let stream = entry.stream.as_str().as_bytes();
        note_name(places, stream, place);
        note_name(places, entry.receipt.batch_id.as_bytes().as_slice(), place);
        match &entry.key {
            Some((key, _)) => {
                note_name(places, key.as_slice(), place);
            },
            None => {},
        }
        let ghost views = digest_views(entry.digests@);
        let mut i: usize = 0;
        assert(views.take(0) =~= Seq::empty());
        while i < entry.digests.len()
            invariant
                i <= entry.digests@.len(),
                views == digest_views(entry.digests@),
                places.ordered_below(place + 1),
                places.under(encode_utf8(entry.stream@)).contains(place),
                places.under(entry.receipt.batch_id@).contains(place),
                entry.key matches Some((key, _)) ==> places.under(key@).contains(place),
                forall|name: Seq<u8>| digest_in(views.take(i as int), name) is Some ==> #[trigger] places.under(name).contains(place),
                forall|name: Seq<u8>, p: usize| #[trigger] old(places).under(name).contains(p) ==> places.under(name).contains(p),
            decreases entry.digests@.len() - i,
        {
            proof {
                assert(views.take(i + 1).drop_last() =~= views.take(i as int));
                assert(views.take(i + 1).last() == (entry.digests@[i as int].0@, entry.digests@[i as int].1));
            }
            let ghost earlier = *places;
            note_name(places, entry.digests[i].0.as_bytes().as_slice(), place);
            proof {
                assert forall|name: Seq<u8>| digest_in(views.take(i + 1), name) is Some implies #[trigger] places.under(name).contains(
                    place,
                ) by {
                    if name != entry.digests@[i as int].0@ {
                        assert(digest_in(views.take(i as int), name) is Some);
                        assert(earlier.under(name).contains(place));
                    }
                }
            }
            i = i + 1;
        }
        assert(views.take(i as int) =~= views);
    }

    /// Adds a batch.
    fn push(&mut self, entry: BatchEntry)
        requires
            old(self).wf(),
        ensures
            final(self).wf(),
            final(self).entries@ == old(self).entries@.push(entry),
    {
        let place: usize = self.entries.len();
        let ghost before = *self;
        proof {
            lemma_below(self.places, place as int, place + 1);
        }
        Noted::note_names(&mut self.places, &entry, place);
        self.entries.push(entry);
        assert forall|k: int, name: Seq<u8>|
            0 <= k < self.entries@.len() && #[trigger] entry_named(self.entries@[k]@, name) implies self.places.under(name).contains(
            k as usize,
        ) by {
            if k < place {
                assert(entry_named(before.entries@[k]@, name));
                assert(before.places.under(name).contains(k as usize));
            }
        }
    }

    /// Adds an event to the last batch.
    fn extend(&mut self, id: EventId, digest: u32, position: u64, revision: StreamRevision)
        requires
            old(self).wf(),
            old(self).entries@.len() > 0,
        ensures
            final(self).wf(),
            final(self).entries@.len() == old(self).entries@.len(),
            forall|k: int| 0 <= k < old(self).entries@.len() - 1 ==> #[trigger] final(self).entries@[k] == old(self).entries@[k],
            ({
                let last = old(self).entries@.last()@;
                final(self).entries@.last()@ == (EntryView {
                    digests: last.digests.push((id@, digest)),
                    receipt: ReceiptView { last: position, current: revision.0, ..last.receipt },
                    ..last
                })
            }),
    {
        let ghost before = *self;
        let ghost entry = self.entries@.last()@;
        match self.entries.pop() {
            Some(mut last) => {
                last.digests.push((id, digest));
                last.receipt.last_position = position;
                last.receipt.current_revision = revision;
                let place: usize = self.entries.len();
                let ghost now = last@;
                proof {
                    assert(digest_views(last.digests@) =~= entry.digests.push((id@, digest)));
                    assert(now.digests.drop_last() =~= entry.digests);
                }
                note_name(&mut self.places, id.as_bytes().as_slice(), place);
                self.entries.push(last);
                assert forall|k: int, name: Seq<u8>|
                    0 <= k < self.entries@.len() && #[trigger] entry_named(self.entries@[k]@, name) implies self.places.under(
                    name,
                ).contains(k as usize) by {
                    if k < place || name != id@ {
                        assert(entry_named(before.entries@[k]@, name));
                        assert(before.places.under(name).contains(k as usize));
                    }
                }
            },
            None => {},
        }
    }
}

proof fn lemma_below(places: Places, n: int, m: int)
    requires
        places.ordered_below(n),
        n <= m,
    ensures
        places.ordered_below(m),
{
    assert forall|name: Seq<u8>|
        crate::places::places_ascend(#[trigger] places.under(name)) && forall|i: int|
            0 <= i < places.under(name).len() ==> places.under(name)[i] < m by {
        assert(crate::places::places_ascend(places.under(name)));
    }
}

fn note_name(places: &mut Places, name: &[u8], place: usize)
    requires
        old(places).ordered_below(place + 1),
    ensures
        final(places).ordered_below(place + 1),
        final(places).under(name@).contains(place),
        forall|other: Seq<u8>, p: usize| #[trigger] old(places).under(other).contains(p) ==> final(places).under(other).contains(p),
{
    let ghost before = *places;
    places.note(name, place);
    proof {
        lemma_noted(before, *places, name@, place);
    }
}

/// What was appended, batch by batch.
#[derive(Debug)]
pub struct StreamCatalog {
    noted: Noted,
}

impl StreamCatalog {
    #[verifier::type_invariant]
    spec fn inv(self) -> bool {
        self.noted.wf()
    }
}

impl View for StreamCatalog {
    type V = Seq<EntryView>;

    closed spec fn view(&self) -> Seq<EntryView> {
        entry_views(self.noted.entries@)
    }
}

fn find_digest(digests: &Vec<(EventId, u32)>, id: EventId) -> (r: Option<u32>)
    ensures
        r == digest_in(digest_views(digests@), id@),
{
    let ghost views = digest_views(digests@);
    let mut i: usize = digests.len();
    assert(views.take(i as int) =~= views);
    while i > 0
        invariant
            i <= digests@.len(),
            views == digest_views(digests@),
            digest_in(views, id@) == digest_in(views.take(i as int), id@),
        decreases i,
    {
        proof {
            assert(views.take(i as int).last() == (digests@[i - 1].0@, digests@[i - 1].1));
            assert(views.take(i as int).drop_last() =~= views.take(i - 1));
        }
        if digests[i - 1].0 == id {
            return Some(digests[i - 1].1);
        }
        i = i - 1;
    }
    None
}

/// Whether a batch was looked at and passed over, or lies where none is.
spec fn passed_over(list: Seq<usize>, from: int, h: Seq<EntryView>, wanted: spec_fn(EntryView) -> bool) -> bool {
    forall|p: int| from <= p < list.len() && (#[trigger] list[p]) < h.len() ==> !wanted(h[list[p] as int])
}

proof fn lemma_stream_at(h: Seq<EntryView>, branch: Seq<u8>, stream: Seq<char>, m: int)
    requires
        -1 <= m < h.len(),
        m >= 0 ==> h[m].branch == branch && h[m].stream == stream,
        forall|i: int| m < i < h.len() ==> !((#[trigger] h[i]).branch == branch && h[i].stream == stream),
    ensures
        last_of_stream(h, branch, stream) == if m >= 0 {
            Some(h[m])
        } else {
            None
        },
    decreases h.len(),
{
    if h.len() > 0 && m < h.len() - 1 {
        let front = h.drop_last();
        assert(h[h.len() - 1] == h.last());
        assert forall|i: int| m < i < front.len() implies !((#[trigger] front[i]).branch == branch && front[i].stream == stream) by {
            assert(front[i] == h[i]);
        }
        lemma_stream_at(front, branch, stream, m);
    }
}

proof fn lemma_event_at(h: Seq<EntryView>, id: Seq<u8>, m: int)
    requires
        -1 <= m < h.len(),
        m >= 0 ==> digest_in(h[m].digests, id) is Some,
        forall|i: int| m < i < h.len() ==> digest_in((#[trigger] h[i]).digests, id) is None,
    ensures
        event_in(h, id) == if m >= 0 {
            Some((digest_in(h[m].digests, id)->0, h[m].receipt))
        } else {
            None
        },
    decreases h.len(),
{
    if h.len() > 0 && m < h.len() - 1 {
        let front = h.drop_last();
        assert(h[h.len() - 1] == h.last());
        assert forall|i: int| m < i < front.len() implies digest_in((#[trigger] front[i]).digests, id) is None by {
            assert(front[i] == h[i]);
        }
        lemma_event_at(front, id, m);
    }
}

/// Whether a batch was appended under a branch's key.
spec fn keyed(entry: EntryView, branch: Seq<u8>, key: Seq<u8>) -> bool {
    entry.branch == branch && (entry.key matches Some((k, _)) && k == key)
}

proof fn lemma_key_at(h: Seq<EntryView>, branch: Seq<u8>, key: Seq<u8>, m: int)
    requires
        -1 <= m < h.len(),
        m >= 0 ==> keyed(h[m], branch, key),
        forall|i: int| m < i < h.len() ==> !keyed(#[trigger] h[i], branch, key),
    ensures
        key_in(h, branch, key) == if m >= 0 {
            Some(((h[m].key->0).1, h[m].receipt))
        } else {
            None
        },
    decreases h.len(),
{
    if h.len() > 0 && m < h.len() - 1 {
        let front = h.drop_last();
        assert(h[h.len() - 1] == h.last());
        assert forall|i: int| m < i < front.len() implies !keyed(#[trigger] front[i], branch, key) by {
            assert(front[i] == h[i]);
        }
        lemma_key_at(front, branch, key, m);
    }
}

/// What is wanted and has a name lies among the places under that name, so that
/// what was passed over from the end on leaves nothing wanted behind the place
/// that comes next.
proof fn lemma_none_behind(catalog: StreamCatalog, name: Seq<u8>, from: int, wanted: spec_fn(EntryView) -> bool)
    requires
        catalog.noted.wf(),
        0 <= from <= catalog.noted.places.under(name).len(),
        passed_over(catalog.noted.places.under(name), from, catalog@, wanted),
        forall|entry: EntryView| #[trigger] wanted(entry) ==> entry_named(entry, name),
    ensures
        forall|i: int|
            0 <= i < catalog@.len() && (from == 0 || i > catalog.noted.places.under(name)[from - 1]) ==> !wanted(#[trigger] catalog@[i]),
{
    let list = catalog.noted.places.under(name);
    assert(crate::places::places_ascend(list));
    assert(catalog.noted.entries.len() == catalog.noted.entries@.len());
    assert forall|i: int| 0 <= i < catalog@.len() && (from == 0 || i > list[from - 1]) implies !wanted(#[trigger] catalog@[i]) by {
        if wanted(catalog@[i]) {
            assert(entry_named(catalog.noted.entries@[i]@, name));
            assert(list.contains(i as usize));
            let p = choose|p: int| 0 <= p < list.len() && list[p] == i as usize;
            if p < from {
                assert(list[p] <= list[from - 1]);
            }
            assert(list[p] < catalog@.len());
        }
    }
}

impl StreamCatalog {
    pub fn new() -> (r: Self)
        ensures
            r@ == Seq::<EntryView>::empty(),
    {
        let r = StreamCatalog { noted: Noted::new() };
        assert(r@ =~= Seq::<EntryView>::empty());
        r
    }

    /// How many batches were noted.
    pub fn len(&self) -> (n: usize)
        ensures
            n == self@.len(),
    {
        self.noted.entries.len()
    }

    /// A batch, by its place among all.
    pub fn at(&self, index: usize) -> (r: &BatchEntry)
        requires
            index < self@.len(),
        ensures
            r@ == self@[index as int],
    {
        &self.noted.entries[index]
    }

    fn find_stream(&self, branch: BranchId, stream: &str) -> (r: Option<&BatchEntry>)
        ensures
            match last_of_stream(self@, branch@, stream@) {
                Some(entry) => r matches Some(e) && e@ == entry,
                None => r is None,
            },
    {
        proof {
            use_type_invariant(self);
        }
        let name = stream.as_bytes();
        let ghost h = self@;
        let ghost wanted = |entry: EntryView| entry.branch == branch@ && entry.stream == stream@;
        let ghost list_view = self.noted.places.under(name@);
        match self.noted.places.candidates(name) {
            Some(list) => {
                let mut i: usize = list.len();
                while i > 0
                    invariant
                        i <= list@.len(),
                        list@ == list_view,
                        list_view == self.noted.places.under(name@),
                        h == self@,
                        self.noted.wf(),
                        name@ == encode_utf8(stream@),
                        wanted == (|entry: EntryView| entry.branch == branch@ && entry.stream == stream@),
                        passed_over(list_view, i as int, h, wanted),
                    decreases i,
                {
                    let at: usize = list[i - 1];
                    if at < self.noted.entries.len() {
                        let entry = &self.noted.entries[at];
                        assert(h[at as int] == entry@);
                        if entry.branch == branch && same_text(entry.stream.as_str(), stream) {
                            proof {
                                lemma_none_behind(*self, name@, i as int, wanted);
                                assert forall|k: int| at < k < h.len() implies !((#[trigger] h[k]).branch == branch@ && h[k].stream == stream@) by {
                                    assert(!wanted(h[k]));
                                }
                                lemma_stream_at(h, branch@, stream@, at as int);
                            }
                            return Some(entry);
                        }
                    }
                    i = i - 1;
                }
            },
            None => {},
        }
        proof {
            lemma_none_behind(*self, name@, 0, wanted);
            assert forall|k: int| -1 < k < h.len() implies !((#[trigger] h[k]).branch == branch@ && h[k].stream == stream@) by {
                assert(!wanted(h[k]));
            }
            lemma_stream_at(h, branch@, stream@, -1);
        }
        None
    }

    /// The revision that a stream has reached.
    pub fn revision(&self, branch: BranchId, stream: &str) -> (r: Option<StreamRevision>)
        ensures
            revision_view(r) == stream_revision_in(self@, branch@, stream@),
    {
        match self.find_stream(branch, stream) {
            Some(entry) => Some(entry.receipt.current_revision),
            None => None,
        }
    }

    /// The identity of a stream that was appended to.
    pub fn stream_id(&self, branch: BranchId, stream: &str) -> (r: Option<StreamId>)
        ensures
            match last_of_stream(self@, branch@, stream@) {
                Some(entry) => r matches Some(id) && id@ == entry.stream_id,
                None => r is None,
            },
    {
        match self.find_stream(branch, stream) {
            Some(entry) => Some(entry.stream_id),
            None => None,
        }
    }

    /// The digest and the receipt of an event that was appended.
    pub fn event_receipt(&self, id: EventId) -> (r: Option<(u32, AppendReceipt)>)
        ensures
            match event_in(self@, id@) {
                Some((digest, receipt)) => r matches Some((d, found)) && d == digest && found@ == receipt,
                None => r is None,
            },
    {
        proof {
            use_type_invariant(self);
        }
        let name = id.as_bytes().as_slice();
        let ghost h = self@;
        let ghost wanted = |entry: EntryView| digest_in(entry.digests, id@) is Some;
        let ghost list_view = self.noted.places.under(name@);
        match self.noted.places.candidates(name) {
            Some(list) => {
                let mut i: usize = list.len();
                while i > 0
                    invariant
                        i <= list@.len(),
                        list@ == list_view,
                        list_view == self.noted.places.under(name@),
                        h == self@,
                        self.noted.wf(),
                        name@ == id@,
                        wanted == (|entry: EntryView| digest_in(entry.digests, id@) is Some),
                        passed_over(list_view, i as int, h, wanted),
                    decreases i,
                {
                    let at: usize = list[i - 1];
                    if at < self.noted.entries.len() {
                        let entry = &self.noted.entries[at];
                        assert(h[at as int] == entry@);
                        match find_digest(&entry.digests, id) {
                            Some(digest) => {
                                proof {
                                    lemma_none_behind(*self, name@, i as int, wanted);
                                    assert forall|k: int| at < k < h.len() implies digest_in((#[trigger] h[k]).digests, id@) is None by {
                                        assert(!wanted(h[k]));
                                    }
                                    lemma_event_at(h, id@, at as int);
                                }
                                return Some((digest, entry.receipt));
                            },
                            None => {},
                        }
                    }
                    i = i - 1;
                }
            },
            None => {},
        }
        proof {
            lemma_none_behind(*self, name@, 0, wanted);
            assert forall|k: int| -1 < k < h.len() implies digest_in((#[trigger] h[k]).digests, id@) is None by {
                assert(!wanted(h[k]));
            }
            lemma_event_at(h, id@, -1);
        }
        None
    }

    /// Whether a batch was appended.
    pub fn has_batch(&self, id: BatchId) -> (r: bool)
        ensures
            r == batch_in(self@, id@),
    {
        proof {
            use_type_invariant(self);
        }
        let name = id.as_bytes().as_slice();
        let ghost h = self@;
        let ghost wanted = |entry: EntryView| entry.receipt.batch_id == id@;
        let ghost list_view = self.noted.places.under(name@);
        match self.noted.places.candidates(name) {
            Some(list) => {
                let mut i: usize = list.len();
                while i > 0
                    invariant
                        i <= list@.len(),
                        list@ == list_view,
                        h == self@,
                        wanted == (|entry: EntryView| entry.receipt.batch_id == id@),
                        passed_over(list_view, i as int, h, wanted),
                    decreases i,
                {
                    let at: usize = list[i - 1];
                    if at < self.noted.entries.len() {
                        let entry = &self.noted.entries[at];
                        assert(h[at as int] == entry@);
                        if entry.receipt.batch_id == id {
                            return true;
                        }
                    }
                    i = i - 1;
                }
            },
            None => {},
        }
        proof {
            lemma_none_behind(*self, name@, 0, wanted);
            assert forall|k: int| 0 <= k < h.len() implies (#[trigger] h[k]).receipt.batch_id != id@ by {
                assert(!wanted(h[k]));
            }
        }
        false
    }

    /// The request digest and the receipt under a branch's idempotency key.
    pub fn idempotent(&self, branch: BranchId, key: &[u8]) -> (r: Option<(u32, AppendReceipt)>)
        ensures
            match key_in(self@, branch@, key@) {
                Some((digest, receipt)) => r matches Some((d, found)) && d == digest && found@ == receipt,
                None => r is None,
            },
    {
        proof {
            use_type_invariant(self);
        }
        let ghost h = self@;
        let ghost wanted = |entry: EntryView| keyed(entry, branch@, key@);
        let ghost list_view = self.noted.places.under(key@);
        match self.noted.places.candidates(key) {
            Some(list) => {
                let mut i: usize = list.len();
                while i > 0
                    invariant
                        i <= list@.len(),
                        list@ == list_view,
                        list_view == self.noted.places.under(key@),
                        h == self@,
                        self.noted.wf(),
                        wanted == (|entry: EntryView| keyed(entry, branch@, key@)),
                        passed_over(list_view, i as int, h, wanted),
                    decreases i,
                {
                    let at: usize = list[i - 1];
                    if at < self.noted.entries.len() {
                        let entry = &self.noted.entries[at];
                        assert(h[at as int] == entry@);
                        if entry.branch == branch {
                            match &entry.key {
                                Some((k, digest)) => {
                                    if crate::bytes::bytes_equal(k.as_slice(), key) {
                                        proof {
                                            lemma_none_behind(*self, key@, i as int, wanted);
                                            assert forall|k: int| at < k < h.len() implies !keyed(#[trigger] h[k], branch@, key@) by {
                                                assert(!wanted(h[k]));
                                            }
                                            lemma_key_at(h, branch@, key@, at as int);
                                        }
                                        return Some((*digest, entry.receipt));
                                    }
                                },
                                None => {},
                            }
                        }
                    }
                    i = i - 1;
                }
            },
            None => {},
        }
        proof {
            lemma_none_behind(*self, key@, 0, wanted);
            assert forall|k: int| -1 < k < h.len() implies !keyed(#[trigger] h[k], branch@, key@) by {
                assert(!wanted(h[k]));
            }
            lemma_key_at(h, branch@, key@, -1);
        }
        None
    }

    /// Takes note of a batch that was appended.
    pub fn record_batch(&mut self, entry: BatchEntry)
        ensures
            final(self)@ == old(self)@.push(entry@),
    {
        proof {
            use_type_invariant(&*self);
        }
        let ghost before = self@;
        let mut noted = Noted::new();
        core::mem::swap(&mut noted, &mut self.noted);
        noted.push(entry);
        self.noted = noted;
        assert(self@ =~= before.push(entry@));
    }

    /// Takes note of a record that was read back from the log.
    pub fn absorb(&mut self, record: &OwnedStoredRecord) -> (r: Result<()>)
        ensures
            match entry_absorbed(old(self)@, record@) {
                Ok(h) => r is Ok && final(self)@ == h,
                Err(e) => r matches Err(error) && error@ == e && final(self)@ == old(self)@,
            },
    {
        let ghost before = self@;
        let envelope = &record.envelope;
        let stream = match record_stream_name(record.position, &envelope.metadata) {
            Ok(stream) => stream,
            Err(e) => return Err(e),
        };
        let digest: u32 = event_fingerprint(envelope, record.payload.as_slice());
        let count: usize = self.noted.entries.len();
        let continues = count > 0 && self.noted.entries[count - 1].receipt.batch_id == envelope.batch_id;
        if continues {
            proof {
                use_type_invariant(&*self);
                assert(before.last() == self.noted.entries@.last()@);
            }
            let ghost entry = before.last();
            let mut noted = Noted::new();
            core::mem::swap(&mut noted, &mut self.noted);
            noted.extend(envelope.event_id, digest, record.position, envelope.stream_revision);
            self.noted = noted;
            assert(self@ =~= before.drop_last().push(entry_extended(entry, record@)));
            return Ok(());
        }
        assert(count > 0 ==> before.last() == self.noted.entries@.last()@);
        let revision: u64 = envelope.stream_revision.0;
        let previous = if revision == 0 {
            None
        } else {
            Some(StreamRevision(revision - 1))
        };
        let key = stored_key(&envelope.metadata);
        let mut digests: Vec<(EventId, u32)> = Vec::new();
        digests.push((envelope.event_id, digest));
        let entry = BatchEntry {
            branch: envelope.branch_id,
            stream,
            stream_id: envelope.stream_id,
            digests,
            key,
            receipt: AppendReceipt {
                batch_id: envelope.batch_id,
                first_position: record.position,
                last_position: record.position,
                stream_id: envelope.stream_id,
                previous_revision: previous,
                current_revision: envelope.stream_revision,
                durability: ReceiptDurability::Synced,
            },
        };
        proof {
            assert(digest_views(entry.digests@) =~= seq![(envelope.event_id@, digest)]);
            assert(entry@ =~= entry_begun(record@, stream@));
        }
        self.record_batch(entry);
        Ok(())
    }

    /// What the records of a log say was appended.
    pub fn rebuild(records: &Vec<OwnedStoredRecord>) -> (r: Result<Self>)
        ensures
            match history_of(record_views(records@)) {
                Ok(h) => r matches Ok(catalog) && catalog@ == h,
                Err(e) => r matches Err(error) && error@ == e,
            },
    {
        let ghost views = record_views(records@);
        let mut catalog = StreamCatalog::new();
        let mut i: usize = 0;
        assert(views.take(0) =~= Seq::empty());
        while i < records.len()
            invariant
                i <= records@.len(),
                views == record_views(records@),
                history_of(views.take(i as int)) == Ok::<Seq<EntryView>, ErrorView>(catalog@),
            decreases records@.len() - i,
        {
            proof {
                assert(views.take(i + 1).drop_last() =~= views.take(i as int));
                assert(views.take(i + 1).last() == records@[i as int]@);
            }
            match catalog.absorb(&records[i]) {
                Ok(()) => {},
                Err(e) => {
                    proof {
                        lemma_history_stops(views, i + 1);
                    }
                    return Err(e);
                },
            }
            i = i + 1;
        }
        assert(views.take(i as int) =~= views);
        Ok(catalog)
    }
}

/// The key and the request digest that a record's metadata holds.
pub open spec fn key_stored(metadata: MetadataView) -> Option<(Seq<u8>, u32)> {
    match (value_of(metadata, "salamander.idempotency_key"@), value_of(metadata, "salamander.request_digest"@)) {
        (Some(key), Some(digest)) => if digest.len() == 4 {
            Some((key, u32_at(digest, 0)))
        } else {
            None
        },
        _ => None,
    }
}

fn stored_key(metadata: &Metadata) -> (r: Option<(Vec<u8>, u32)>)
    ensures
        match key_stored(metadata@) {
            Some((key, digest)) => r matches Some((k, d)) && k@ == key && d == digest,
            None => r is None,
        },
{
    match (metadata.get("salamander.idempotency_key"), metadata.get("salamander.request_digest")) {
        (Some(key), Some(digest)) => {
            if digest.len() == 4 {
                Some((copy_bytes(key), read_u32(digest.as_slice(), 0)))
            } else {
                None
            }
        },
        _ => None,
    }
}

/// A batch that begins with a record. What is read back from the log is durable.
pub open spec fn entry_begun(record: RecordView, stream: Seq<char>) -> EntryView {
    let env = record.envelope;
    EntryView {
        branch: env.branch_id,
        stream,
        stream_id: env.stream_id,
        digests: seq![(env.event_id, event_digest_of(env, record.payload))],
        key: key_stored(env.metadata),
        receipt: ReceiptView {
            batch_id: env.batch_id,
            first: record.position,
            last: record.position,
            stream_id: env.stream_id,
            previous: if env.stream_revision == 0 {
                None
            } else {
                Some((env.stream_revision - 1) as u64)
            },
            current: env.stream_revision,
            durability: ReceiptDurability::Synced,
        },
    }
}

/// A batch with one more record of it.
pub open spec fn entry_extended(entry: EntryView, record: RecordView) -> EntryView {
    let env = record.envelope;
    EntryView {
        digests: entry.digests.push((env.event_id, event_digest_of(env, record.payload))),
        receipt: ReceiptView { last: record.position, current: env.stream_revision, ..entry.receipt },
        ..entry
    }
}

/// The history after one more record of the log.
pub open spec fn entry_absorbed(h: Seq<EntryView>, record: RecordView) -> core::result::Result<Seq<EntryView>, ErrorView> {
    match stream_name_of(record.position, record.envelope.metadata) {
        Err(e) => Err(e),
        Ok(stream) => if h.len() > 0 && h.last().receipt.batch_id == record.envelope.batch_id {
            Ok(h.drop_last().push(entry_extended(h.last(), record)))
        } else {
            Ok(h.push(entry_begun(record, stream)))
        },
    }
}

/// The history that records tell, or why the first bad one tells none.
pub open spec fn history_of(records: Seq<RecordView>) -> core::result::Result<Seq<EntryView>, ErrorView>
    decreases records.len(),
{
    if records.len() == 0 {
        Ok(Seq::empty())
    } else {
        match history_of(records.drop_last()) {
            Err(e) => Err(e),
            Ok(h) => entry_absorbed(h, records.last()),
        }
    }
}

proof fn lemma_history_stops(records: Seq<RecordView>, n: int)
    requires
        0 <= n <= records.len(),
        history_of(records.take(n)) is Err,
    ensures
        history_of(records) == history_of(records.take(n)),
    decreases records.len() - n,
{
    if n == records.len() {
        assert(records.take(n) =~= records);
    } else {
        assert(records.take(n + 1).drop_last() =~= records.take(n));
        lemma_history_stops(records, n + 1);
    }
}

} // verus!
