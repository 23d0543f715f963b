//! Typed events: what an application's payload must be able to do, and how a
//! stored record is read as an event.
use crate::binary::{text_at, PieceReader};
use crate::bytes::u64_at;
use crate::error::{ErrorView, Result, SalamanderError};
use crate::format::frame::{OwnedStoredRecord, RecordView};
use crate::format::ids::RUST_BINCODE_V1;
use crate::stream::{record_stream_name, stream_name_of};
use crate::text::{decimal, decimal_string, join2, same_text};
use vstd::prelude::*;

verus! {

/// A payload that is stored as bytes and read back. The engine frames, orders
/// and keeps payloads, and never looks inside.
pub trait Body: Sized {
    /// What a payload stands for.
    type Model;

    /// What this payload stands for.
    spec fn model(&self) -> Self::Model;

    /// What bytes are read as, where they are a payload.
    spec fn reading(bytes: Seq<u8>) -> Option<Self::Model>;

    /// The bytes that a payload is stored as.
    spec fn writing(model: Self::Model) -> Seq<u8>;

    fn decode(bytes: &[u8]) -> (r: core::result::Result<Self, String>)
        ensures
            match Self::reading(bytes@) {
                Some(model) => r matches Ok(body) && body.model() == model,
                None => r is Err,
            },
    ;

    fn encode(&self) -> (bytes: Vec<u8>)
        ensures
            bytes@ == Self::writing(self.model()),
    ;
}

/// One durable fact with its place in the log.
#[derive(Debug)]
pub struct Event<B> {
    /// The position that the log gave it.
    pub offset: u64,
    /// The wall clock when it was written; the offset alone orders events.
    pub timestamp_ms: u64,
    /// The stream it belongs to, such as a session.
    pub namespace: String,
    /// The application's payload.
    pub body: B,
}

impl<B: Clone> Clone for Event<B> {
    fn clone(&self) -> (r: Self)
        ensures
            r.offset == self.offset,
            r.timestamp_ms == self.timestamp_ms,
            r.namespace@ == self.namespace@,
            cloned(self.body, r.body),
    {
        Event {
            offset: self.offset,
            timestamp_ms: self.timestamp_ms,
            namespace: self.namespace.clone(),
            body: self.body.clone(),
        }
    }
}

/// An event as plain values.
#[verifier::ext_equal]
pub struct EventModel<M> {
    pub offset: u64,
    pub timestamp_ms: u64,
    pub namespace: Seq<char>,
    pub body: M,
}

/// An event as plain values.
pub open spec fn event_model<B: Body>(event: Event<B>) -> EventModel<B::Model> {
    EventModel {
        offset: event.offset,
        timestamp_ms: event.timestamp_ms,
        namespace: event.namespace@,
        body: event.body.model(),
    }
}

/// The event that bytes hold whole: an offset that nothing reads, the time, the
/// namespace, and the payload. Its offset is where it stands in the log.
pub open spec fn whole_event<B: Body>(offset: u64, bytes: Seq<u8>) -> Option<EventModel<B::Model>> {
    if bytes.len() < 16 {
        None
    } else {
        match text_at(bytes, 16) {
            None => None,
            Some((namespace, end)) => match B::reading(bytes.skip(end)) {
                None => None,
                Some(body) => Some(EventModel { offset, timestamp_ms: u64_at(bytes, 8), namespace, body }),
            },
        }
    }
}

fn read_whole<B: Body>(offset: u64, bytes: &[u8]) -> (r: core::result::Result<Event<B>, String>)
    ensures
        match whole_event::<B>(offset, bytes@) {
            Some(event) => r matches Ok(e) && event_model(e) == event,
            None => r is Err,
        },
{
    let mut reader = PieceReader::new(bytes);
    match reader.long() {
        Ok(_) => {},
        Err(e) => return Err(e),
    }
    let timestamp_ms: u64 = match reader.long() {
        Ok(timestamp_ms) => timestamp_ms,
        Err(e) => return Err(e),
    };
    let namespace = match reader.text() {
        Ok(namespace) => namespace,
        Err(e) => return Err(e),
    };
    match B::decode(reader.rest()) {
        Ok(body) => Ok(Event { offset, timestamp_ms, namespace, body }),
        Err(e) => Err(e),
    }
}

/// Reads an event that was stored whole. The log's own offset stands in the
/// result, whatever the bytes say of it. The reason of a failure is what the
/// reader of the payload gave, and is left open.
pub fn decode_event<B: Body>(offset: u64, bytes: &[u8]) -> (r: Result<Event<B>>)
    ensures
        match whole_event::<B>(offset, bytes@) {
            Some(event) => r matches Ok(e) && event_model(e) == event,
            None => r matches Err(SalamanderError::Corrupt { offset: at, reason: _ }) && at == offset,
        },
{
    match read_whole(offset, bytes) {
        Ok(event) => Ok(event),
        Err(reason) => Err(SalamanderError::Corrupt { offset, reason }),
    }
}

/// What reading a record as an event comes to.
pub enum Decoding<M> {
    Event(EventModel<M>),
    /// It is no event, for this reason.
    Fault(ErrorView),
    /// It holds an event whole, which cannot be read.
    Unreadable,
    /// Its payload cannot be read as a body.
    BodyUnreadable,
}

/// Nanoseconds as milliseconds; a time before the epoch counts as the epoch.
pub open spec fn millis_of(nanos: i64) -> u64 {
    if nanos < 0 {
        0
    } else {
        (nanos / 1_000_000) as u64
    }
}

/// What reading a record as an event comes to.
pub open spec fn stored_event<B: Body>(record: RecordView) -> Decoding<B::Model> {
    if record.envelope.event_type == "salamander.raw-v2"@ {
        match whole_event::<B>(record.position, record.payload) {
            Some(event) => Decoding::Event(event),
            None => Decoding::Unreadable,
        }
    } else if record.envelope.codec != RUST_BINCODE_V1 {
        Decoding::Fault(
            ErrorView::Codec("typed Rust replay does not support codec "@ + decimal(record.envelope.codec as nat)),
        )
    } else {
        match B::reading(record.payload) {
            None => Decoding::BodyUnreadable,
            Some(body) => match stream_name_of(record.position, record.envelope.metadata) {
                Err(e) => Decoding::Fault(e),
                Ok(namespace) => Decoding::Event(
                    EventModel { offset: record.position, timestamp_ms: millis_of(record.envelope.timestamp), namespace, body },
                ),
            },
        }
    }
}

/// Whether a reason says that a body cannot be read, and then why; what the
/// body's own reader says there is left open.
pub open spec fn names_payload(reason: Seq<char>) -> bool {
    exists|why: Seq<char>| reason == #[trigger] ("payload decode: "@ + why)
}

/// Whether a failure is what reading a record came to.
pub open spec fn fault_shown<M>(decoding: Decoding<M>, position: u64, e: ErrorView) -> bool {
    match decoding {
        Decoding::Event(_) => false,
        Decoding::Fault(fault) => e == fault,
        Decoding::Unreadable => e matches ErrorView::Corrupt { offset, .. } && offset == position,
        Decoding::BodyUnreadable => e matches ErrorView::Corrupt { offset, reason } && offset == position && names_payload(
            reason,
        ),
    }
}

/// Reads a record as an event.
pub fn decode_stored_event<B: Body>(record: &OwnedStoredRecord) -> (r: Result<Event<B>>)
    ensures
        match stored_event::<B>(record@) {
            Decoding::Event(event) => r matches Ok(e) && event_model(e) == event,
            fault => r matches Err(e) && fault_shown(fault, record.position, e@),
        },
{
    if same_text(record.envelope.event_type.as_str(), "salamander.raw-v2") {
        return decode_event(record.position, record.payload.as_slice());
    }
    if record.envelope.codec.0 != RUST_BINCODE_V1 {
        return Err(
            SalamanderError::Codec(
                join2("typed Rust replay does not support codec ", decimal_string(record.envelope.codec.0 as u64).as_str()),
            ),
        );
    }
    let body = match B::decode(record.payload.as_slice()) {
        Ok(body) => body,
        Err(error) => return Err(
            SalamanderError::Corrupt { offset: record.position, reason: join2("payload decode: ", error.as_str()) },
        ),
    };
    let namespace = match record_stream_name(record.position, &record.envelope.metadata) {
        Ok(namespace) => namespace,
        Err(e) => return Err(e),
    };
    let nanos: i64 = record.envelope.timestamp_unix_nanos;
    let timestamp_ms: u64 = if nanos < 0 {
        0
    } else {
        nanos as u64 / 1_000_000
    };
    Ok(Event { offset: record.position, timestamp_ms, namespace, body })
}

} // verus!
