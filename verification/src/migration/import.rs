//! Importing the events of a database of the first storage generation.
use crate::append::{nanos, nanos_of};
use crate::bytes::{bytes_equal, same16, zero16};
use crate::error::{ErrorView, Result, SalamanderError};
use crate::format::derive::{derive_import_id, derive_stream_id, import_id, twin_hash};
use crate::format::envelope::{EnvelopeView, RecordEnvelopeV2};
use crate::format::frame::{record_views, FrameKind, OwnedStoredRecord, RecordView};
use crate::format::ids::{
    event_type_error, BatchId, BranchId, CodecId, DatabaseId, EventId, EventType, StreamRevision, RUST_BINCODE_V1,
};
use crate::format::metadata::{inserted, lemma_inserted, value_of, Metadata, MetadataView};
use crate::log::record::{lemma_ascii_event_type, record_encoding, MAX_FRAME_BYTES};
use crate::log::segment::appended;
use crate::log::store::{Log, LogView};
use crate::migration::legacy::{legacy_views, numbered, LegacyEvent, LegacyView};
use crate::text::{decimal, decimal_string, hex_string, hex_text, join2, join4, same_text};
use vstd::bytes::{spec_u64_to_le_bytes, u64_to_le_bytes};
use vstd::prelude::*;
use vstd::utf8::encode_utf8;

verus! {

/// What an import came to.
#[derive(Debug, Clone, Copy, PartialEq, Eq, Structural)]
pub struct MigrationReport {
    pub source_records: u64,
    pub previously_imported: u64,
    pub newly_imported: u64,
    pub destination_head: u64,
}

/// What an imported event keeps beside its body.
pub open spec fn import_metadata(event: LegacyView) -> MetadataView {
    let named = inserted(MetadataView::empty(), "salamander.stream_name"@, encode_utf8(event.namespace));
    let spaced = inserted(named, "salamander.v1_namespace"@, encode_utf8(event.namespace));
    inserted(spaced, "salamander.v1_offset"@, spec_u64_to_le_bytes(event.offset))
}

/// The envelope of an imported event. Its identity comes of the source and of
/// its offset there.
pub open spec fn import_envelope_of(event: LegacyView, database: Seq<u8>, source: Seq<u8>) -> EnvelopeView {
    EnvelopeView {
        event_id: import_id(source, event.offset),
        database_id: database,
        branch_id: zero16(),
        stream_id: twin_hash(database + zero16() + encode_utf8(event.namespace)),
        stream_revision: event.offset,
        timestamp: nanos_of(event.timestamp_ms),
        event_type: "salamander.v1-import"@,
        schema_version: 1,
        codec: RUST_BINCODE_V1,
        batch_id: import_id(source, event.offset),
        batch_index: 0,
        metadata: import_metadata(event),
    }
}

proof fn lemma_import_type()
    ensures
        event_type_error("salamander.v1-import"@) is None,
{
    reveal_strlit("salamander.v1-import");
    lemma_ascii_event_type("salamander.v1-import"@);
}

/// The envelope of an imported event.
pub fn import_envelope(event: &LegacyEvent, database: DatabaseId, source: [u8; 16]) -> (r: Result<RecordEnvelopeV2>)
    ensures
        r matches Ok(env) && env@ == import_envelope_of(event@, database@, source@),
{
    let id = derive_import_id(source, event.offset);
    let mut metadata = Metadata::new();
    let _ = metadata.insert("salamander.stream_name".to_owned(), vstd::slice::slice_to_vec(event.namespace.as_str().as_bytes()));
    let _ = metadata.insert("salamander.v1_namespace".to_owned(), vstd::slice::slice_to_vec(event.namespace.as_str().as_bytes()));
    let _ = metadata.insert("salamander.v1_offset".to_owned(), u64_to_le_bytes(event.offset));
    proof {
        lemma_import_type();
    }
    let event_type = match EventType::new("salamander.v1-import") {
        Ok(event_type) => event_type,
        Err(e) => return Err(e),
    };
    Ok(
        RecordEnvelopeV2 {
            event_id: EventId::from_bytes(id),
            database_id: database,
            branch_id: BranchId::zero(),
            stream_id: derive_stream_id(database, BranchId::zero(), event.namespace.as_str()),
            stream_revision: StreamRevision(event.offset),
            timestamp_unix_nanos: nanos(event.timestamp_ms),
            event_type,
            schema_version: 1,
            codec: CodecId::rust_bincode_v1(),
            batch_id: BatchId::from_bytes(id),
            batch_index: 0,
            metadata,
        },
    )
}

/// Whether a record is the import of an event.
pub open spec fn is_import(record: RecordView, event: LegacyView, source: Seq<u8>) -> bool {
    &&& record.position == event.offset
    &&& record.envelope.event_id == import_id(source, event.offset)
    &&& record.payload == event.body
    &&& value_of(record.envelope.metadata, "salamander.v1_offset"@) == Some(spec_u64_to_le_bytes(event.offset))
}

/// Where records are not the imports of the first events, one for one.
pub open spec fn prefix_error(records: Seq<RecordView>, events: Seq<LegacyView>, source: Seq<u8>) -> Option<ErrorView>
    decreases records.len(),
{
    if records.len() == 0 {
        None
    } else {
        match prefix_error(records.drop_last(), events, source) {
            Some(e) => Some(e),
            None => if records.len() > events.len() {
                Some(ErrorView::Migration("destination prefix exceeds source"@))
            } else {
                let event = events[records.len() - 1];
                if is_import(records.last(), event, source) {
                    None
                } else {
                    Some(ErrorView::Migration("destination prefix differs at offset "@ + decimal(event.offset as nat)))
                }
            },
        }
    }
}

/// Why a destination with this head and these records does not hold a prefix of
/// the source, if it does not.
pub open spec fn destination_error(records: Seq<RecordView>, head: u64, events: Seq<LegacyView>, source: Seq<u8>) -> Option<ErrorView> {
    match prefix_error(records, events, source) {
        Some(e) => Some(e),
        None => if records.len() != head {
            Some(ErrorView::Migration("destination head does not match verified prefix"@))
        } else {
            None
        },
    }
}

proof fn lemma_first_difference(records: Seq<RecordView>, n: int, events: Seq<LegacyView>, source: Seq<u8>)
    requires
        0 <= n <= records.len(),
        prefix_error(records.take(n), events, source) is Some,
    ensures
        prefix_error(records, events, source) == prefix_error(records.take(n), events, source),
    decreases records.len(),
{
    if n == records.len() {
        assert(records.take(n) =~= records);
    } else {
        assert(records.drop_last().take(n) =~= records.take(n));
        lemma_first_difference(records.drop_last(), n, events, source);
    }
}

fn record_is_import(record: &OwnedStoredRecord, event: &LegacyEvent, source: [u8; 16]) -> (r: bool)
    ensures
        r == is_import(record@, event@, source@),
{
    let id = derive_import_id(source, event.offset);
    let offset = u64_to_le_bytes(event.offset);
    let stored = match record.envelope.metadata.get("salamander.v1_offset") {
        Some(stored) => bytes_equal(stored.as_slice(), offset.as_slice()),
        None => false,
    };
    record.position == event.offset && same16(record.envelope.event_id.as_bytes(), &id) && bytes_equal(
        record.payload.as_slice(),
        event.body.as_slice(),
    ) && stored
}

/// Whether the records of a destination are the imports of the first events of
/// the source, one for one, and are all that it holds.
pub fn verify_imported_prefix(records: &Vec<OwnedStoredRecord>, head: u64, source: &Vec<LegacyEvent>, identity: [u8; 16]) -> (r: Result<
    (),
>)
    ensures
        match destination_error(record_views(records@), head, legacy_views(source@), identity@) {
            None => r is Ok,
            Some(e) => r matches Err(error) && error@ == e,
        },
{
    let ghost views = record_views(records@);
    let ghost events = legacy_views(source@);
    let mut seen: usize = 0;
    assert(views.take(0) =~= Seq::empty());
    while seen < records.len()
        invariant
            seen <= records@.len(),
            views == record_views(records@),
            events == legacy_views(source@),
            prefix_error(views.take(seen as int), events, identity@) is None,
        decreases records@.len() - seen,
    {
        let ghost upto = views.take(seen + 1);
        proof {
            assert(upto.drop_last() =~= views.take(seen as int));
            assert(upto.last() == records@[seen as int]@);
            if prefix_error(upto, events, identity@) is Some {
                lemma_first_difference(views, seen + 1, events, identity@);
            }
        }
        if seen >= source.len() {
            return Err(SalamanderError::Migration("destination prefix exceeds source".to_owned()));
        }
        let expected = &source[seen];
        if !record_is_import(&records[seen], expected, identity) {
            return Err(
                SalamanderError::Migration(
                    join2("destination prefix differs at offset ", decimal_string(expected.offset).as_str()),
                ),
            );
        }
        seen = seen + 1;
    }
    assert(views.take(seen as int) =~= views);
    if seen as u64 != head {
        return Err(SalamanderError::Migration("destination head does not match verified prefix".to_owned()));
    }
    Ok(())
}

/// Where an import goes on: after the events that the destination holds.
pub fn resume_import(records: &Vec<OwnedStoredRecord>, head: u64, events: &Vec<LegacyEvent>, identity: [u8; 16]) -> (r: Result<usize>)
    ensures
        if head > events@.len() {
            r matches Err(e) && e@ == ErrorView::Migration("destination contains more records than the source"@)
        } else {
            match destination_error(record_views(records@), head, legacy_views(events@), identity@) {
                None => r == Ok::<usize, SalamanderError>(head as usize),
                Some(e) => r matches Err(error) && error@ == e,
            }
        },
{
    if head > events.len() as u64 {
        return Err(SalamanderError::Migration("destination contains more records than the source".to_owned()));
    }
    match verify_imported_prefix(records, head, events, identity) {
        Ok(()) => Ok(head as usize),
        Err(e) => Err(e),
    }
}

/// The error for an event that lands elsewhere than it was.
pub open spec fn displaced(position: u64, offset: u64) -> ErrorView {
    ErrorView::Migration(
        "destination position "@ + decimal(position as nat) + " differs from v0.1 offset "@ + decimal(offset as nat),
    )
}

/// Appends the import of an event to a log whose active segment is not full.
/// The event keeps its offset as its position.
pub fn import_event(log: &mut Log, event: &LegacyEvent, source: [u8; 16], out: &mut Vec<u8>) -> (r: Result<()>)
    requires
        old(log).wf(),
        old(log)@.active.next_offset < u64::MAX,
        old(log)@.active.len_bytes + MAX_FRAME_BYTES <= u64::MAX,
    ensures
        final(log).wf(),
        final(log)@ == (LogView { active: final(log)@.active, ..old(log)@ }),
        match record_encoding(
            FrameKind::Event,
            old(log)@.active.next_offset,
            import_envelope_of(event@, old(log)@.manifest.database_id@, source@),
            event.body@,
        ) {
            Err(e) => r matches Err(error) && error@ == e && final(out)@ == old(out)@ && final(log)@ == old(log)@,
            Ok(bytes) => final(out)@ == old(out)@ + bytes && appended(old(log)@.active, final(log)@.active, bytes, 1) && if old(
                log,
            )@.active.next_offset == event.offset {
                r is Ok
            } else {
                r matches Err(e) && e@ == displaced(old(log)@.active.next_offset, event.offset)
            },
        },
{
    let database = DatabaseId::from_bytes(log.manifest().database_id);
    let envelope = match import_envelope(event, database, source) {
        Ok(envelope) => envelope,
        Err(e) => return Err(e),
    };
    match log.append_enveloped(&envelope, event.body.as_slice(), out) {
        Err(e) => Err(e),
        Ok(position) => {
            if position != event.offset {
                return Err(
                    SalamanderError::Migration(
                        join4(
                            "destination position ",
                            decimal_string(position).as_str(),
                            " differs from v0.1 offset ",
                            decimal_string(event.offset).as_str(),
                        ),
                    ),
                );
            }
            Ok(())
        },
    }
}

/// What a destination says of itself before an import.
#[derive(Debug)]
pub struct DestinationState {
    /// The source that an import under way gives, as hexadecimal text.
    pub in_progress: Option<String>,
    /// Whether an import was completed there.
    pub completed: bool,
    /// Whether it is a database.
    pub is_database: bool,
}

/// Readies a destination: an import of the same source goes on, and an empty
/// destination is to be marked. The result says whether it is to be marked.
pub fn prepare_destination(state: &DestinationState, identity: [u8; 16]) -> (r: Result<bool>)
    ensures
        match state.in_progress {
            Some(marker) => if marker@ == hex_text(identity@) {
                r == Ok::<bool, SalamanderError>(false)
            } else {
                r matches Err(e) && e@ == ErrorView::Migration("destination belongs to a different v0.1 source"@)
            },
            None => if state.completed || state.is_database {
                r matches Err(e) && e@ == ErrorView::Migration("destination is already a database or completed migration"@)
            } else {
                r == Ok::<bool, SalamanderError>(true)
            },
        },
{
    match &state.in_progress {
        Some(marker) => {
            if !same_text(marker.as_str(), hex_string(identity.as_slice()).as_str()) {
                return Err(SalamanderError::Migration("destination belongs to a different v0.1 source".to_owned()));
            }
            Ok(false)
        },
        None => {
            if state.completed || state.is_database {
                return Err(SalamanderError::Migration("destination is already a database or completed migration".to_owned()));
            }
            Ok(true)
        },
    }
}

/// Checks that the marker of a completed import gives the source.
pub fn check_completed(marker: &str, identity: [u8; 16]) -> (r: Result<()>)
    ensures
        r is Ok <==> marker@ == hex_text(identity@),
        r matches Err(e) ==> e@ == ErrorView::Migration("completed destination belongs to a different v0.1 source"@),
{
    if !same_text(marker, hex_string(identity.as_slice()).as_str()) {
        return Err(SalamanderError::Migration("completed destination belongs to a different v0.1 source".to_owned()));
    }
    Ok(())
}

/// What a completed import came to, found again: its marker must give the
/// source, and the destination must hold the source's events.
pub fn completed_report(marker: &str, records: &Vec<OwnedStoredRecord>, head: u64, events: &Vec<LegacyEvent>, identity: [u8; 16]) -> (r:
    Result<MigrationReport>)
    ensures
        if marker@ != hex_text(identity@) {
            r matches Err(e) && e@ == ErrorView::Migration("completed destination belongs to a different v0.1 source"@)
        } else {
            match destination_error(record_views(records@), head, legacy_views(events@), identity@) {
                Some(e) => r matches Err(error) && error@ == e,
                None => r == Ok::<MigrationReport, SalamanderError>(
                    (MigrationReport {
                        source_records: events@.len() as u64,
                        previously_imported: head,
                        newly_imported: 0,
                        destination_head: head,
                    }),
                ),
            }
        },
{
    match check_completed(marker, identity) {
        Ok(()) => {},
        Err(e) => return Err(e),
    }
    match verify_imported_prefix(records, head, events, identity) {
        Ok(()) => Ok(
            MigrationReport {
                source_records: events.len() as u64,
                previously_imported: head,
                newly_imported: 0,
                destination_head: head,
            },
        ),
        Err(e) => Err(e),
    }
}

/// What an import came to that began after `previous` events.
pub fn import_report(events: usize, previous: usize, destination_head: u64) -> (r: MigrationReport)
    requires
        previous <= events,
    ensures
        r == (MigrationReport {
            source_records: events as u64,
            previously_imported: previous as u64,
            newly_imported: (events - previous) as u64,
            destination_head,
        }),
{
    MigrationReport {
        source_records: events as u64,
        previously_imported: previous as u64,
        newly_imported: (events - previous) as u64,
        destination_head,
    }
}

/// Whether a record is what the import of an event puts at its offset.
pub open spec fn imported_as(record: RecordView, event: LegacyView, database: Seq<u8>, source: Seq<u8>) -> bool {
    &&& record.position == event.offset
    &&& record.envelope == import_envelope_of(event, database, source)
    &&& record.payload == event.body
}

proof fn lemma_import_recognised(record: RecordView, event: LegacyView, database: Seq<u8>, source: Seq<u8>)
    requires
        imported_as(record, event, database, source),
    ensures
        is_import(record, event, source),
{
    let named = inserted(MetadataView::empty(), "salamander.stream_name"@, encode_utf8(event.namespace));
    let spaced = inserted(named, "salamander.v1_namespace"@, encode_utf8(event.namespace));
    lemma_inserted(MetadataView::empty(), "salamander.stream_name"@, encode_utf8(event.namespace));
    lemma_inserted(named, "salamander.v1_namespace"@, encode_utf8(event.namespace));
    lemma_inserted(spaced, "salamander.v1_offset"@, spec_u64_to_le_bytes(event.offset));
}

/// An interrupted import goes on: a destination that holds the imports of the
/// first events of a source, and nothing else, is accepted as a prefix of that
/// source.
pub proof fn lemma_import_resumes(records: Seq<RecordView>, events: Seq<LegacyView>, database: Seq<u8>, source: Seq<u8>)
    requires
        records.len() <= events.len() <= u64::MAX,
        forall|i: int| 0 <= i < records.len() ==> imported_as(#[trigger] records[i], events[i], database, source),
    ensures
        destination_error(records, records.len() as u64, events, source) is None,
    decreases records.len(),
{
    if records.len() > 0 {
        let front = records.drop_last();
        assert forall|i: int| 0 <= i < front.len() implies imported_as(#[trigger] front[i], events[i], database, source) by {
            assert(front[i] == records[i]);
        }
        lemma_import_resumes(front, events, database, source);
        let last = records.len() - 1;
        assert(imported_as(records[last], events[last], database, source));
        lemma_import_recognised(records.last(), events[last], database, source);
    }
}

/// A verified destination holds the source's events in their places: the record
/// at each position carries the identity and the body of the event of that
/// offset.
pub proof fn lemma_verified_prefix(records: Seq<RecordView>, head: u64, events: Seq<LegacyView>, source: Seq<u8>, i: int)
    requires
        destination_error(records, head, events, source) is None,
        numbered(events),
        0 <= i < head,
    ensures
        i < events.len(),
        records[i].position == i,
        records[i].envelope.event_id == import_id(source, i as u64),
        records[i].payload == events[i].body,
    decreases records.len(),
{
    if i == records.len() - 1 {
        assert(events[i].offset == i);
    } else {
        lemma_verified_prefix(records.drop_last(), (records.len() - 1) as u64, events, source, i);
    }
}

} // verus!
