//! One segment of the log: what appending to it writes, and what recovery
//! finds in its bytes.
use crate::bytes::{lemma_le_codec, put, put_u32, read_u32, u32_at};
use crate::checksum::{crc32c, crc32c_of};
use crate::error::{invalid_argument, invalid_format, ErrorView, Result, SalamanderError};
use crate::format::envelope::{EnvelopeView, RecordEnvelopeV2};
use crate::format::frame::{record_views, FrameKind, OwnedStoredRecord, RecordView};
use crate::format::ids::{event_type_error, BatchId, EventType};
use crate::format::metadata::inserted;
use crate::log::record::{
    decode_owned, encode_kind, lemma_ascii_event_type, lemma_record_read, lemma_record_size, record_decoding, record_encoding,
    MAX_FRAME_BYTES,
};
use crate::text::{
    decimal, decimal_string, digit, digit_value, digits_value, join4, lemma_padded_len, padded, padded_string, parse_u64,
    parsed_u64,
};
use vstd::bytes::spec_u32_to_le_bytes;
use vstd::prelude::*;
use vstd::slice::slice_subrange;
use vstd::utf8::{encode_utf8, is_ascii_chars, is_ascii_chars_encode_utf8};

verus! {

/// Why a scan stopped.
#[derive(Debug, Clone, Copy, PartialEq, Eq, Structural)]
pub enum ScanStop {
    /// The buffer ends exactly where a record ends.
    CleanEof,
    /// The last frame, or the batch it belongs to, is incomplete.
    TornTail,
    /// A complete frame does not match its checksum.
    CrcError,
    /// A frame is not at the next position.
    OffsetMismatch,
    /// The frames of a batch do not belong together.
    BatchMismatch,
    /// Bytes that are no frame.
    InvalidFrame,
}

/// The text that a stop is reported as.
pub open spec fn stop_reason(stop: ScanStop) -> Seq<char> {
    match stop {
        ScanStop::CleanEof => "clean eof"@,
        ScanStop::TornTail => "torn tail: incomplete trailing record"@,
        ScanStop::CrcError => "crc mismatch"@,
        ScanStop::OffsetMismatch => "offset-sequence mismatch"@,
        ScanStop::BatchMismatch => "batch commit mismatch"@,
        ScanStop::InvalidFrame => "invalid frame"@,
    }
}

impl ScanStop {
    pub fn reason(&self) -> (s: &'static str)
        ensures
            s@ == stop_reason(*self),
    {
        match self {
            ScanStop::CleanEof => "clean eof",
            ScanStop::TornTail => "torn tail: incomplete trailing record",
            ScanStop::CrcError => "crc mismatch",
            ScanStop::OffsetMismatch => "offset-sequence mismatch",
            ScanStop::BatchMismatch => "batch commit mismatch",
            ScanStop::InvalidFrame => "invalid frame",
        }
    }
}

/// The payload of the frames around a batch: its event count and the checksum
/// of its event frames.
pub open spec fn control_payload(count: u32, digest: u32) -> Seq<u8> {
    spec_u32_to_le_bytes(count) + spec_u32_to_le_bytes(digest)
}

/// What a control payload says.
pub open spec fn control_of(payload: Seq<u8>) -> core::result::Result<(u32, u32), ErrorView> {
    if payload.len() != 8 {
        Err(ErrorView::InvalidFormat("batch control payload must be eight bytes"@))
    } else if u32_at(payload, 0) == 0 {
        Err(ErrorView::InvalidFormat("batch control count must be nonzero"@))
    } else {
        Ok((u32_at(payload, 0), u32_at(payload, 4)))
    }
}

pub proof fn lemma_control_round_trip(count: u32, digest: u32)
    requires
        count > 0,
    ensures
        control_of(control_payload(count, digest)) == Ok::<(u32, u32), ErrorView>((count, digest)),
        control_payload(count, digest).len() == 8,
{
    lemma_le_codec();
    let p = control_payload(count, digest);
    assert(p.subrange(0, 4) =~= spec_u32_to_le_bytes(count));
    assert(p.subrange(4, 8) =~= spec_u32_to_le_bytes(digest));
}

fn batch_control_payload(count: u32, digest: u32) -> (r: Vec<u8>)
    ensures
        r@ == control_payload(count, digest),
{
    let mut payload: Vec<u8> = Vec::new();
    put_u32(&mut payload, count);
    put_u32(&mut payload, digest);
    assert(payload@ =~= control_payload(count, digest));
    payload
}

/// Reads the payload of a batch's control frame.
pub fn parse_batch_control(payload: &[u8]) -> (r: Result<(u32, u32)>)
    ensures
        match control_of(payload@) {
            Ok(pair) => r matches Ok(p) && p == pair,
            Err(e) => r matches Err(error) && error@ == e,
        },
{
    if payload.len() != 8 {
        return Err(invalid_format("batch control payload must be eight bytes"));
    }
    let count: u32 = read_u32(payload, 0);
    let digest: u32 = read_u32(payload, 4);
    if count == 0 {
        return Err(invalid_format("batch control count must be nonzero"));
    }
    Ok((count, digest))
}

/// A batch whose commit frame has not been met.
#[verifier::ext_equal]
pub struct PendingView {
    pub start: int,
    pub first: int,
    pub batch_id: Seq<u8>,
    pub count: u32,
    pub digest: u32,
    pub bytes: Seq<u8>,
    pub events: Seq<RecordView>,
}

/// How far a scan has come: the next frame's byte, the end of what is known to
/// be whole, the next position, what was recovered, and an open batch.
#[verifier::ext_equal]
pub struct ScanState {
    pub pos: int,
    pub valid: int,
    pub next: int,
    pub records: Seq<RecordView>,
    pub system: Seq<RecordView>,
    pub pending: Option<PendingView>,
}

/// What one frame does to a scan.
pub enum ScanStep {
    More(ScanState),
    Done(ScanStop),
}

/// What a scan finds.
#[verifier::ext_equal]
pub struct ScanView {
    pub records: Seq<RecordView>,
    pub system_records: Seq<RecordView>,
    pub valid_bytes: int,
    pub next_offset: int,
    pub stop: ScanStop,
}

/// Whether an event frame is the next one of an open batch.
pub open spec fn continues_batch(batch: PendingView, rec: RecordView) -> bool {
    let index = batch.events.len() as int;
    &&& rec.position == batch.first + index
    &&& rec.envelope.batch_id == batch.batch_id
    &&& rec.envelope.batch_index == index
    &&& index < batch.count
}

/// Whether a commit frame closes an open batch.
pub open spec fn closes_batch(batch: PendingView, rec: RecordView, count: u32, digest: u32) -> bool {
    &&& rec.position == batch.first
    &&& rec.envelope.batch_id == batch.batch_id
    &&& count == batch.count
    &&& digest == batch.digest
    &&& batch.events.len() == batch.count
    &&& crc32c_of(batch.bytes) == batch.digest
}

/// What the whole frame `rec`, which spans `s.pos..end`, does to a scan.
pub open spec fn scan_frame(buf: Seq<u8>, s: ScanState, rec: RecordView, end: int) -> ScanStep {
    match rec.kind {
        FrameKind::BatchBegin => if s.pending is Some || rec.position != s.next {
            ScanStep::Done(ScanStop::OffsetMismatch)
        } else {
            match control_of(rec.payload) {
                Err(_) => ScanStep::Done(ScanStop::BatchMismatch),
                Ok((count, digest)) => ScanStep::More(
                    ScanState {
                        pos: end,
                        pending: Some(
                            PendingView {
                                start: s.pos,
                                first: rec.position as int,
                                batch_id: rec.envelope.batch_id,
                                count,
                                digest,
                                bytes: Seq::empty(),
                                events: Seq::empty(),
                            },
                        ),
                        ..s
                    },
                ),
            }
        },
        FrameKind::Event => match s.pending {
            Some(batch) => if continues_batch(batch, rec) {
                ScanStep::More(
                    ScanState {
                        pos: end,
                        pending: Some(
                            PendingView {
                                bytes: batch.bytes + buf.subrange(s.pos, end),
                                events: batch.events.push(rec),
                                ..batch
                            },
                        ),
                        ..s
                    },
                )
            } else {
                ScanStep::Done(ScanStop::BatchMismatch)
            },
            None => if rec.position == s.next {
                ScanStep::More(
                    ScanState { pos: end, valid: end, next: s.next + 1, records: s.records.push(rec), ..s },
                )
            } else {
                ScanStep::Done(ScanStop::OffsetMismatch)
            },
        },
        FrameKind::BatchCommit => match s.pending {
            None => ScanStep::Done(ScanStop::BatchMismatch),
            Some(batch) => match control_of(rec.payload) {
                Err(_) => ScanStep::Done(ScanStop::BatchMismatch),
                Ok((count, digest)) => if closes_batch(batch, rec, count, digest) {
                    ScanStep::More(
                        ScanState {
                            pos: end,
                            valid: end,
                            next: s.next + batch.count,
                            records: s.records + batch.events,
                            pending: None,
                            ..s
                        },
                    )
                } else {
                    ScanStep::Done(ScanStop::BatchMismatch)
                },
            },
        },
        FrameKind::System => if s.pending is Some || rec.position != s.next {
            ScanStep::Done(ScanStop::OffsetMismatch)
        } else {
            ScanStep::More(ScanState { pos: end, valid: end, system: s.system.push(rec), ..s })
        },
    }
}

/// One step of a scan.
pub open spec fn scan_step(buf: Seq<u8>, s: ScanState) -> ScanStep {
    match record_decoding(buf.skip(s.pos)) {
        Ok(Some((rec, n))) => scan_frame(buf, s, rec, s.pos + n),
        Ok(None) => if s.pending is None && s.pos == buf.len() {
            ScanStep::Done(ScanStop::CleanEof)
        } else {
            ScanStep::Done(ScanStop::TornTail)
        },
        Err(e) => if e is Corrupt {
            ScanStep::Done(ScanStop::CrcError)
        } else {
            ScanStep::Done(ScanStop::InvalidFrame)
        },
    }
}

/// A frame is read from the bytes that are there.
pub proof fn lemma_step_advances(buf: Seq<u8>, s: ScanState)
    requires
        0 <= s.pos <= buf.len(),
    ensures
        scan_step(buf, s) matches ScanStep::More(t) ==> s.pos + 32 <= t.pos <= buf.len(),
{
    lemma_record_read(buf.skip(s.pos));
}

/// What a scan finds from `s` on.
pub open spec fn scan_from(buf: Seq<u8>, s: ScanState) -> ScanView
    recommends
        0 <= s.pos <= buf.len(),
    decreases buf.len() - s.pos,
{
    if !(0 <= s.pos <= buf.len()) {
        arbitrary()
    } else {
        match scan_step(buf, s) {
            ScanStep::More(t) => {
                proof {
                    lemma_step_advances(buf, s);
                }
                scan_from(buf, t)
            },
            ScanStep::Done(stop) => ScanView {
                records: s.records,
                system_records: s.system,
                valid_bytes: s.valid,
                next_offset: s.next,
                stop,
            },
        }
    }
}

/// Where a scan begins.
pub open spec fn scan_start(base: int) -> ScanState {
    ScanState { pos: 0, valid: 0, next: base, records: Seq::empty(), system: Seq::empty(), pending: None }
}

/// What recovery finds in the bytes of the segment that begins at `base`.
pub open spec fn scan_of(buf: Seq<u8>, base: int) -> ScanView {
    scan_from(buf, scan_start(base))
}

/// A scan never goes back: neither in position nor beyond its bytes.
pub proof fn lemma_scan_advances(buf: Seq<u8>, s: ScanState)
    requires
        0 <= s.pos <= buf.len(),
        0 <= s.valid <= s.pos,
    ensures
        s.next <= scan_from(buf, s).next_offset,
        0 <= scan_from(buf, s).valid_bytes <= buf.len(),
    decreases buf.len() - s.pos,
{
    match scan_step(buf, s) {
        ScanStep::More(t) => {
            lemma_step_advances(buf, s);
            lemma_scan_advances(buf, t);
        },
        _ => {},
    }
}

struct PendingBatch {
    start_byte: usize,
    first_position: u64,
    batch_id: BatchId,
    count: u32,
    digest: u32,
    event_bytes: Vec<u8>,
    events: Vec<OwnedStoredRecord>,
}

impl PendingBatch {
    spec fn view(&self) -> PendingView {
        PendingView {
            start: self.start_byte as int,
            first: self.first_position as int,
            batch_id: self.batch_id@,
            count: self.count,
            digest: self.digest,
            bytes: self.event_bytes@,
            events: record_views(self.events@),
        }
    }
}

struct Scan {
    pos: usize,
    valid: usize,
    next: u64,
    records: Vec<OwnedStoredRecord>,
    system: Vec<OwnedStoredRecord>,
    pending: Option<PendingBatch>,
}

impl Scan {
    spec fn view(&self) -> ScanState {
        ScanState {
            pos: self.pos as int,
            valid: self.valid as int,
            next: self.next as int,
            records: record_views(self.records@),
            system: record_views(self.system@),
            pending: match self.pending {
                Some(batch) => Some(batch@),
                None => None,
            },
        }
    }
}

/// Positions never outrun bytes.
spec fn scan_bounded(s: ScanState, base: int) -> bool {
    &&& base <= s.next
    &&& match s.pending {
        Some(batch) => batch.first == s.next && s.next - base + batch.events.len() <= s.pos,
        None => s.next - base <= s.pos,
    }
}

/// What a segment's bytes were found to hold.
#[derive(Debug)]
pub struct ScanResult {
    pub records: Vec<OwnedStoredRecord>,
    pub system_records: Vec<OwnedStoredRecord>,
    /// The length of the whole prefix, where a torn tail is cut off.
    pub valid_bytes: usize,
    /// The position that the next record takes.
    pub next_offset: u64,
    pub stop: ScanStop,
}

impl View for ScanResult {
    type V = ScanView;

    open spec fn view(&self) -> ScanView {
        ScanView {
            records: record_views(self.records@),
            system_records: record_views(self.system_records@),
            valid_bytes: self.valid_bytes as int,
            next_offset: self.next_offset as int,
            stop: self.stop,
        }
    }
}

/// Appends the records of a batch.
fn append_records(records: &mut Vec<OwnedStoredRecord>, batch: Vec<OwnedStoredRecord>)
    ensures
        record_views(final(records)@) == record_views(old(records)@) + record_views(batch@),
{
    let mut batch = batch;
    let ghost added = batch@;
    records.append(&mut batch);
    assert(record_views(records@) =~= record_views(old(records)@) + record_views(added));
}

fn push_record(records: &mut Vec<OwnedStoredRecord>, record: OwnedStoredRecord)
    ensures
        record_views(final(records)@) == record_views(old(records)@).push(record@),
{
    records.push(record);
    assert(record_views(records@) =~= record_views(old(records)@).push(record@));
}

fn step_event(buf: &[u8], s: &mut Scan, rec: OwnedStoredRecord, end: usize, Ghost(base): Ghost<int>) -> (r: Option<ScanStop>)
    requires
        rec@.kind is Event,
        old(s)@.pos + 32 <= end <= buf@.len(),
        scan_bounded(old(s)@, base),
        base + buf@.len() <= u64::MAX,
    ensures
        match scan_frame(buf@, old(s)@, rec@, end as int) {
            ScanStep::More(t) => r is None && final(s)@ == t && scan_bounded(t, base),
            ScanStep::Done(stop) => r == Some(stop) && *final(s) == *old(s),
        },
{
    let ghost before = s@;
    match s.pending.take() {
        Some(batch) => {
            let mut batch = batch;
            let ghost b = batch@;
            let index: usize = batch.events.len();
            let continues = index < batch.count as usize && rec.position == batch.first_position + index as u64
                && rec.envelope.batch_id == batch.batch_id && rec.envelope.batch_index == index as u32;
            if !continues {
                s.pending = Some(batch);
                return Some(ScanStop::BatchMismatch);
            }
            put(&mut batch.event_bytes, slice_subrange(buf, s.pos, end));
            push_record(&mut batch.events, rec);
            s.pending = Some(batch);
            s.pos = end;
            assert(s@.pending->0 =~= PendingView {
                bytes: b.bytes + buf@.subrange(before.pos, end as int),
                events: b.events.push(rec@),
                ..b
            });
            None
        },
        None => {
            if rec.position != s.next {
                return Some(ScanStop::OffsetMismatch);
            }
            push_record(&mut s.records, rec);
            s.next = s.next + 1;
            s.pos = end;
            s.valid = end;
            None
        },
    }
}

fn step_begin(s: &mut Scan, rec: OwnedStoredRecord, end: usize, Ghost(buf): Ghost<Seq<u8>>, Ghost(base): Ghost<int>) -> (r: Option<ScanStop>)
    requires
        rec@.kind is BatchBegin,
        old(s)@.pos + 32 <= end,
        scan_bounded(old(s)@, base),
    ensures
        match scan_frame(buf, old(s)@, rec@, end as int) {
            ScanStep::More(t) => r is None && final(s)@ == t && scan_bounded(t, base),
            ScanStep::Done(stop) => r == Some(stop) && *final(s) == *old(s),
        },
{
    if s.pending.is_some() || rec.position != s.next {
        return Some(ScanStop::OffsetMismatch);
    }
    match parse_batch_control(rec.payload.as_slice()) {
        Err(_) => Some(ScanStop::BatchMismatch),
        Ok((count, digest)) => {
            let batch = PendingBatch {
                start_byte: s.pos,
                first_position: rec.position,
                batch_id: rec.envelope.batch_id,
                count,
                digest,
                event_bytes: Vec::new(),
                events: Vec::new(),
            };
            assert(record_views(batch.events@) =~= Seq::empty());
            s.pending = Some(batch);
            s.pos = end;
            None
        },
    }
}

fn step_commit(s: &mut Scan, rec: OwnedStoredRecord, end: usize, Ghost(buf): Ghost<Seq<u8>>, Ghost(base): Ghost<int>) -> (r: Option<ScanStop>)
    requires
        rec@.kind is BatchCommit,
        old(s)@.pos + 32 <= end <= buf.len(),
        scan_bounded(old(s)@, base),
        base + buf.len() <= u64::MAX,
    ensures
        match scan_frame(buf, old(s)@, rec@, end as int) {
            ScanStep::More(t) => r is None && final(s)@ == t && scan_bounded(t, base),
            ScanStep::Done(stop) => r == Some(stop) && *final(s) == *old(s),
        },
{
    match s.pending.take() {
        None => Some(ScanStop::BatchMismatch),
        Some(batch) => match parse_batch_control(rec.payload.as_slice()) {
            Err(_) => {
                s.pending = Some(batch);
                Some(ScanStop::BatchMismatch)
            },
            Ok((count, digest)) => {
                let closes = rec.position == batch.first_position && rec.envelope.batch_id == batch.batch_id && count
                    == batch.count && digest == batch.digest && batch.events.len() == batch.count as usize && crc32c(
                    batch.event_bytes.as_slice(),
                ) == batch.digest;
                if !closes {
                    s.pending = Some(batch);
                    return Some(ScanStop::BatchMismatch);
                }
                s.next = s.next + batch.count as u64;
                append_records(&mut s.records, batch.events);
                s.pos = end;
                s.valid = end;
                None
            },
        },
    }
}

fn step_frame(buf: &[u8], s: &mut Scan, rec: OwnedStoredRecord, end: usize, Ghost(base): Ghost<int>) -> (r: Option<ScanStop>)
    requires
        old(s)@.pos + 32 <= end <= buf@.len(),
        scan_bounded(old(s)@, base),
        base + buf@.len() <= u64::MAX,
    ensures
        match scan_frame(buf@, old(s)@, rec@, end as int) {
            ScanStep::More(t) => r is None && final(s)@ == t && scan_bounded(t, base),
            ScanStep::Done(stop) => r == Some(stop) && *final(s) == *old(s),
        },
{
    match rec.kind {
        FrameKind::BatchBegin => step_begin(s, rec, end, Ghost(buf@), Ghost(base)),
        FrameKind::Event => step_event(buf, s, rec, end, Ghost(base)),
        FrameKind::BatchCommit => step_commit(s, rec, end, Ghost(buf@), Ghost(base)),
        FrameKind::System => {
            if s.pending.is_some() || rec.position != s.next {
                return Some(ScanStop::OffsetMismatch);
            }
            push_record(&mut s.system, rec);
            s.pos = end;
            s.valid = end;
            None
        },
    }
}

/// The single walk over a segment's bytes that recovery goes by. It accepts
/// the longest run of whole records: events at consecutive positions, batches
/// whose frames belong together, and system records. Whatever follows them,
/// be it cut off or no record at all, ends the run.
pub fn scan_records(buf: &[u8], base_offset: u64) -> (r: Result<ScanResult>)
    requires
        base_offset + buf@.len() <= u64::MAX,
    ensures
        r matches Ok(scan) && scan@ == scan_of(buf@, base_offset as int),
{
    let mut s = Scan {
        pos: 0,
        valid: 0,
        next: base_offset,
        records: Vec::new(),
        system: Vec::new(),
        pending: None,
    };
    assert(s@ =~= scan_start(base_offset as int)) by {
        assert(record_views(s.records@) =~= Seq::empty());
        assert(record_views(s.system@) =~= Seq::empty());
    }
    loop
        invariant
            base_offset + buf@.len() <= u64::MAX,
            0 <= s@.pos <= buf@.len(),
            scan_bounded(s@, base_offset as int),
            scan_of(buf@, base_offset as int) == scan_from(buf@, s@),
        decreases buf@.len() - s@.pos,
    {
        let ghost before = s@;
        let ghost rest = buf@.skip(before.pos);
        proof {
            lemma_step_advances(buf@, before);
            lemma_record_read(rest);
        }
        let tail = slice_subrange(buf, s.pos, buf.len());
        assert(tail@ =~= rest);
        let stop: Option<ScanStop> = match decode_owned(tail) {
            Ok(Some((rec, consumed))) => {
                let end: usize = s.pos + consumed;
                step_frame(buf, &mut s, rec, end, Ghost(base_offset as int))
            },
            Ok(None) => if s.pending.is_none() && s.pos == buf.len() {
                Some(ScanStop::CleanEof)
            } else {
                Some(ScanStop::TornTail)
            },
            Err(SalamanderError::Corrupt { offset, reason }) => Some(ScanStop::CrcError),
            Err(_) => Some(ScanStop::InvalidFrame),
        };
        match stop {
            None => {},
            Some(stop) => {
                return Ok(
                    ScanResult {
                        records: s.records,
                        system_records: s.system,
                        valid_bytes: s.valid,
                        next_offset: s.next,
                        stop,
                    },
                );
            },
        }
    }
}

/// An event to write: its envelope and its payload.
pub type EventView = (EnvelopeView, Seq<u8>);

/// The events of a list as plain values.
pub open spec fn event_views(events: Seq<(RecordEnvelopeV2, Vec<u8>)>) -> Seq<EventView> {
    Seq::new(events.len(), |i: int| (events[i].0@, events[i].1@))
}

/// The error for an event that is out of its batch's order.
pub open spec fn batch_order_error(found: u32, index: int) -> ErrorView {
    ErrorView::InvalidFormat(
        "batch index "@ + decimal(found as nat) + " does not match event order "@ + decimal(index as nat),
    )
}

/// The event frames of a batch whose first event takes the position `first`.
pub open spec fn events_encoding(first: int, events: Seq<EventView>) -> core::result::Result<Seq<u8>, ErrorView>
    decreases events.len(),
{
    if events.len() == 0 {
        Ok(Seq::empty())
    } else {
        let index = events.len() - 1;
        let event = events.last();
        match events_encoding(first, events.drop_last()) {
            Err(e) => Err(e),
            Ok(before) => if event.0.batch_index != index {
                Err(batch_order_error(event.0.batch_index, index))
            } else {
                match record_encoding(FrameKind::Event, (first + index) as u64, event.0, event.1) {
                    Err(e) => Err(e),
                    Ok(frame) => Ok(before + frame),
                }
            },
        }
    }
}

/// The envelope of a batch's control frames, made from its first event's.
pub open spec fn control_envelope(first: EnvelopeView, count: u32, digest: u32) -> EnvelopeView {
    EnvelopeView {
        event_type: "salamander.batch-control"@,
        batch_index: count,
        metadata: inserted(
            inserted(first.metadata, "salamander.batch_count"@, spec_u32_to_le_bytes(count)),
            "salamander.batch_digest"@,
            spec_u32_to_le_bytes(digest),
        ),
        ..first
    }
}

/// A control frame of a batch.
pub open spec fn control_encoding(kind: FrameKind, first: int, env: EnvelopeView, count: u32, digest: u32) -> core::result::Result<
    Seq<u8>,
    ErrorView,
> {
    record_encoding(kind, first as u64, control_envelope(env, count, digest), control_payload(count, digest))
}

/// A batch on disk: a begin frame, its events, and a commit frame.
pub open spec fn batch_encoding(first: int, events: Seq<EventView>) -> core::result::Result<Seq<u8>, ErrorView> {
    let count = events.len() as u32;
    if events.len() == 0 {
        Err(ErrorView::InvalidArgument("storage batch must not be empty"@))
    } else if events.len() > u32::MAX {
        Err(
            ErrorView::ResourceLimit {
                resource: "batch event count"@,
                actual: events.len() as u64,
                maximum: u32::MAX as u64,
            },
        )
    } else {
        match events_encoding(first, events) {
            Err(e) => Err(e),
            Ok(body) => {
                let digest = crc32c_of(body);
                match control_encoding(FrameKind::BatchBegin, first, events[0].0, count, digest) {
                    Err(e) => Err(e),
                    Ok(begin) => match control_encoding(FrameKind::BatchCommit, first, events[0].0, count, digest) {
                        Err(e) => Err(e),
                        Ok(commit) => Ok(begin + body + commit),
                    },
                }
            },
        }
    }
}

pub proof fn lemma_control_event_type()
    ensures
        event_type_error("salamander.batch-control"@) is None,
{
    reveal_strlit("salamander.batch-control");
    lemma_ascii_event_type("salamander.batch-control"@);
}

fn batch_control_envelope(first: &RecordEnvelopeV2, count: u32, digest: u32) -> (r: RecordEnvelopeV2)
    ensures
        r@ == control_envelope(first@, count, digest),
{
    proof {
        lemma_control_event_type();
    }
    let mut envelope = first.clone();
    let mut metadata = first.metadata.clone();
    let _ = metadata.insert("salamander.batch_count".to_owned(), vstd::bytes::u32_to_le_bytes(count));
    let _ = metadata.insert("salamander.batch_digest".to_owned(), vstd::bytes::u32_to_le_bytes(digest));
    envelope.event_type = EventType::new("salamander.batch-control").unwrap();
    envelope.batch_index = count;
    envelope.metadata = metadata;
    envelope
}

proof fn lemma_events_encoding_prefix(first: int, events: Seq<EventView>, n: int)
    requires
        0 <= n <= events.len(),
        events_encoding(first, events.take(n)) is Err,
    ensures
        events_encoding(first, events) == events_encoding(first, events.take(n)),
    decreases events.len() - n,
{
    if n == events.len() {
        assert(events.take(n) =~= events);
    } else {
        assert(events.take(n + 1).drop_last() =~= events.take(n));
        lemma_events_encoding_prefix(first, events, n + 1);
    }
}

/// The size of a batch's event frames.
pub proof fn lemma_events_size(first: int, events: Seq<EventView>)
    ensures
        events_encoding(first, events) matches Ok(body) ==> 32 * events.len() <= body.len() <= MAX_FRAME_BYTES * events.len(),
    decreases events.len(),
{
    if events.len() > 0 {
        let index = events.len() - 1;
        lemma_events_size(first, events.drop_last());
        lemma_record_size(FrameKind::Event, (first + index) as u64, events.last().0, events.last().1);
        assert(MAX_FRAME_BYTES * events.len() == MAX_FRAME_BYTES * index + MAX_FRAME_BYTES) by (nonlinear_arith)
            requires
                index == events.len() - 1,
        ;
        assert(32 * events.len() == 32 * index + 32);
    }
}

/// The size of a batch on disk.
pub proof fn lemma_batch_size(first: int, events: Seq<EventView>)
    ensures
        batch_encoding(first, events) matches Ok(bytes) ==> 64 + 32 * events.len() <= bytes.len() <= MAX_FRAME_BYTES * (
        events.len() + 2),
{
    if batch_encoding(first, events) is Ok {
        lemma_events_size(first, events);
        let count = events.len() as u32;
        let digest = crc32c_of(events_encoding(first, events)->Ok_0);
        let env = control_envelope(events[0].0, count, digest);
        lemma_record_size(FrameKind::BatchBegin, first as u64, env, control_payload(count, digest));
        lemma_record_size(FrameKind::BatchCommit, first as u64, env, control_payload(count, digest));
        assert(MAX_FRAME_BYTES * (events.len() + 2) == MAX_FRAME_BYTES * events.len() + 2 * MAX_FRAME_BYTES)
            by (nonlinear_arith);
    }
}

fn encode_events(first: u64, events: &Vec<(RecordEnvelopeV2, Vec<u8>)>) -> (r: Result<Vec<u8>>)
    requires
        first + events@.len() <= u64::MAX,
        events@.len() <= u32::MAX,
    ensures
        match events_encoding(first as int, event_views(events@)) {
            Ok(bytes) => r matches Ok(out) && out@ == bytes,
            Err(e) => r matches Err(error) && error@ == e,
        },
{
    let ghost views = event_views(events@);
    let mut out: Vec<u8> = Vec::new();
    let mut index: usize = 0;
    assert(views.take(0) =~= Seq::empty());
    while index < events.len()
        invariant
            index <= events@.len(),
            first + events@.len() <= u64::MAX,
            events@.len() <= u32::MAX,
            views == event_views(events@),
            events_encoding(first as int, views.take(index as int)) == Ok::<Seq<u8>, ErrorView>(out@),
        decreases events@.len() - index,
    {
        let envelope = &events[index].0;
        proof {
            let upto = views.take(index + 1);
            assert(upto.drop_last() =~= views.take(index as int));
            assert(upto.last() == views[index as int]);
            if events_encoding(first as int, upto) is Err {
                lemma_events_encoding_prefix(first as int, views, index + 1);
            }
        }
        if envelope.batch_index != index as u32 {
            return Err(
                SalamanderError::InvalidFormat(
                    join4(
                        "batch index ",
                        decimal_string(envelope.batch_index as u64).as_str(),
                        " does not match event order ",
                        decimal_string(index as u64).as_str(),
                    ),
                ),
            );
        }
        match encode_kind(FrameKind::Event, first + index as u64, envelope, events[index].1.as_slice(), &mut out) {
            Ok(()) => {},
            Err(e) => return Err(e),
        }
        index = index + 1;
    }
    assert(views.take(index as int) =~= views);
    Ok(out)
}

/// The bytes of a batch whose first event takes the position `first`.
pub fn encode_batch(first: u64, events: &Vec<(RecordEnvelopeV2, Vec<u8>)>) -> (r: Result<Vec<u8>>)
    requires
        first + events@.len() <= u64::MAX,
    ensures
        match batch_encoding(first as int, event_views(events@)) {
            Ok(bytes) => r matches Ok(out) && out@ == bytes,
            Err(e) => r matches Err(error) && error@ == e,
        },
{
    let ghost views = event_views(events@);
    if events.len() == 0 {
        return Err(invalid_argument("storage batch must not be empty"));
    }
    if events.len() as u64 > u32::MAX as u64 {
        return Err(
            SalamanderError::ResourceLimit {
                resource: "batch event count",
                actual: events.len() as u64,
                maximum: u32::MAX as u64,
            },
        );
    }
    let count: u32 = events.len() as u32;
    let body = match encode_events(first, events) {
        Ok(body) => body,
        Err(e) => return Err(e),
    };
    let digest: u32 = crc32c(body.as_slice());
    let payload = batch_control_payload(count, digest);
    assert(views[0] == (events@[0].0@, events@[0].1@));
    let envelope = batch_control_envelope(&events[0].0, count, digest);
    let mut out: Vec<u8> = Vec::new();
    match encode_kind(FrameKind::BatchBegin, first, &envelope, payload.as_slice(), &mut out) {
        Ok(()) => {},
        Err(e) => return Err(e),
    }
    put(&mut out, body.as_slice());
    match encode_kind(FrameKind::BatchCommit, first, &envelope, payload.as_slice(), &mut out) {
        Ok(()) => {},
        Err(e) => return Err(e),
    }
    Ok(out)
}

/// A segment that is appended to: where it begins, how long it is, and which
/// position comes next. The bytes themselves are the caller's to store.
#[derive(Debug, Clone, Copy, PartialEq, Eq, Structural)]
pub struct Segment {
    pub base_offset: u64,
    pub len_bytes: u64,
    pub next_offset: u64,
}

/// The outcome of an append: the bytes to store, or the error.
pub open spec fn appended(before: Segment, after: Segment, bytes: Seq<u8>, positions: int) -> bool {
    &&& after.base_offset == before.base_offset
    &&& after.len_bytes == before.len_bytes + bytes.len()
    &&& after.next_offset == before.next_offset + positions
}

impl Segment {
    /// An empty segment that begins at `base_offset`.
    pub fn create(base_offset: u64) -> (r: Self)
        ensures
            r == (Segment { base_offset, len_bytes: 0, next_offset: base_offset }),
    {
        Segment { base_offset, len_bytes: 0, next_offset: base_offset }
    }

    /// The segment that recovery leaves: its whole prefix, behind which the
    /// rest of the bytes is to be cut off.
    pub fn recover(buf: &[u8], base_offset: u64) -> (r: Result<(Segment, ScanStop)>)
        requires
            base_offset + buf@.len() <= u64::MAX,
        ensures
            ({
                let found = scan_of(buf@, base_offset as int);
                r matches Ok((segment, stop)) && segment.base_offset == base_offset && segment.len_bytes == found.valid_bytes
                    && segment.next_offset == found.next_offset && stop == found.stop
            }),
    {
        match scan_records(buf, base_offset) {
            Ok(scan) => Ok(
                (
                    Segment { base_offset, len_bytes: scan.valid_bytes as u64, next_offset: scan.next_offset },
                    scan.stop,
                ),
            ),
            Err(e) => Err(e),
        }
    }

    /// Appends one event; `out` receives what is to be stored.
    pub fn append_enveloped(&mut self, envelope: &RecordEnvelopeV2, payload: &[u8], out: &mut Vec<u8>) -> (r: Result<u64>)
        requires
            old(self).next_offset < u64::MAX,
            old(self).len_bytes + MAX_FRAME_BYTES <= u64::MAX,
        ensures
            match record_encoding(FrameKind::Event, old(self).next_offset, envelope@, payload@) {
                Ok(bytes) => r == Ok::<u64, SalamanderError>(old(self).next_offset) && final(out)@ == old(out)@ + bytes
                    && appended(*old(self), *final(self), bytes, 1),
                Err(e) => r matches Err(error) && error@ == e && final(out)@ == old(out)@ && *final(self) == *old(self),
            },
    {
        let offset: u64 = self.next_offset;
        let mut encoded: Vec<u8> = Vec::new();
        match encode_kind(FrameKind::Event, offset, envelope, payload, &mut encoded) {
            Ok(()) => {},
            Err(e) => return Err(e),
        }
        proof {
            lemma_record_size(FrameKind::Event, offset, envelope@, payload@);
        }
        put(out, encoded.as_slice());
        self.len_bytes = self.len_bytes + encoded.len() as u64;
        self.next_offset = self.next_offset + 1;
        Ok(offset)
    }

    /// Appends a batch; `out` receives what is to be stored. The result is the
    /// first and the last position of the batch.
    pub fn append_batch(&mut self, events: &Vec<(RecordEnvelopeV2, Vec<u8>)>, out: &mut Vec<u8>) -> (r: Result<(u64, u64)>)
        requires
            old(self).next_offset + events@.len() <= u64::MAX,
            old(self).len_bytes + MAX_FRAME_BYTES * (events@.len() + 2) <= u64::MAX,
        ensures
            match batch_encoding(old(self).next_offset as int, event_views(events@)) {
                Ok(bytes) => r matches Ok((first, last)) && first == old(self).next_offset && last == first + events@.len() - 1
                    && final(out)@ == old(out)@ + bytes && appended(*old(self), *final(self), bytes, events@.len() as int),
                Err(e) => r matches Err(error) && error@ == e && final(out)@ == old(out)@ && *final(self) == *old(self),
            },
    {
        let first: u64 = self.next_offset;
        let encoded = match encode_batch(first, events) {
            Ok(encoded) => encoded,
            Err(e) => return Err(e),
        };
        proof {
            lemma_batch_size(first as int, event_views(events@));
        }
        put(out, encoded.as_slice());
        self.len_bytes = self.len_bytes + encoded.len() as u64;
        self.next_offset = self.next_offset + events.len() as u64;
        Ok((first, self.next_offset - 1))
    }

    /// Appends a system record, which takes no position of its own.
    pub fn append_system(&mut self, envelope: &RecordEnvelopeV2, payload: &[u8], out: &mut Vec<u8>) -> (r: Result<()>)
        requires
            old(self).len_bytes + MAX_FRAME_BYTES <= u64::MAX,
        ensures
            match record_encoding(FrameKind::System, old(self).next_offset, envelope@, payload@) {
                Ok(bytes) => r is Ok && final(out)@ == old(out)@ + bytes && appended(*old(self), *final(self), bytes, 0),
                Err(e) => r matches Err(error) && error@ == e && final(out)@ == old(out)@ && *final(self) == *old(self),
            },
    {
        let mut encoded: Vec<u8> = Vec::new();
        match encode_kind(FrameKind::System, self.next_offset, envelope, payload, &mut encoded) {
            Ok(()) => {},
            Err(e) => return Err(e),
        }
        proof {
            lemma_record_size(FrameKind::System, self.next_offset, envelope@, payload@);
        }
        put(out, encoded.as_slice());
        self.len_bytes = self.len_bytes + encoded.len() as u64;
        Ok(())
    }
}

/// The name of a segment's file: its base with twenty digits, so that names
/// sort as the positions do.
pub open spec fn segment_name(base_offset: u64) -> Seq<char> {
    padded(base_offset as nat, 10, 20) + ".seg"@
}

/// The file name of the segment that begins at `base_offset`.
pub fn segment_file_name(base_offset: u64) -> (s: String)
    ensures
        s@ == segment_name(base_offset),
{
    let mut s = padded_string(base_offset, 10, 20);
    s.append(".seg");
    s
}

/// The position that a segment's file begins at: what its name spells.
pub fn parse_base_offset(stem: &str, path: &str) -> (r: Result<u64>)
    ensures
        match parsed_u64(stem@) {
            Some(base) => r == Ok::<u64, SalamanderError>(base),
            None => r matches Err(e) && e@ == ErrorView::InvalidSegmentName(path@),
        },
{
    match parse_u64(stem) {
        Some(base) => Ok(base),
        None => Err(SalamanderError::InvalidSegmentName(path.to_owned())),
    }
}

/// The name that a segment's file was given spells the position that it begins
/// at.
pub proof fn lemma_segment_name(base_offset: u64)
    ensures
        parsed_u64(padded(base_offset as nat, 10, 20)) == Some(base_offset),
{
    lemma_padded_digits(base_offset as nat, 20);
    assert(base_offset as nat % power10(20) == base_offset) by {
        reveal_with_fuel(power10, 21);
        vstd::arithmetic::div_mod::lemma_small_mod(base_offset as nat, power10(20));
    }
    lemma_padded_len(base_offset as nat, 10, 20);
    let bytes = encode_utf8(padded(base_offset as nat, 10, 20));
    if bytes[0] == 0x2b {
        lemma_digit_first(bytes);
    }
}

/// Ten to a power.
spec fn power10(n: nat) -> nat
    decreases n,
{
    if n == 0 {
        1
    } else {
        10 * power10((n - 1) as nat)
    }
}

proof fn lemma_digit_first(bytes: Seq<u8>)
    requires
        digits_value(bytes) is Some,
        bytes.len() > 0,
    ensures
        0x30 <= bytes[0] <= 0x39,
    decreases bytes.len(),
{
    if bytes.len() > 1 {
        lemma_digit_first(bytes.drop_last());
    }
}

proof fn lemma_padded_digits(n: nat, width: nat)
    ensures
        is_ascii_chars(padded(n, 10, width)),
        encode_utf8(padded(n, 10, width)).len() == width,
        digits_value(encode_utf8(padded(n, 10, width))) == Some((n % power10(width)) as int),
    decreases width,
{
    let text = padded(n, 10, width);
    lemma_padded_len(n, 10, width);
    if width == 0 {
        assert(text =~= Seq::empty());
        is_ascii_chars_encode_utf8(text);
        assert(n % 1 == 0);
    } else {
        let shorter = (width - 1) as nat;
        lemma_padded_digits(n / 10, shorter);
        let front = padded(n / 10, 10, shorter);
        let d = (n % 10) as int;
        assert(text =~= front.push(digit(d)));
        assert(is_ascii_chars(text)) by {
            assert forall|i: int| 0 <= i < text.len() implies '\0' <= #[trigger] text[i] <= '\u{7f}' by {
                if i < front.len() {
                    assert(text[i] == front[i]);
                }
            }
        }
        is_ascii_chars_encode_utf8(text);
        is_ascii_chars_encode_utf8(front);
        let bytes = encode_utf8(text);
        assert(bytes.drop_last() =~= encode_utf8(front)) by {
            assert forall|i: int| 0 <= i < shorter implies bytes[i] == encode_utf8(front)[i] by {
                assert(text[i] == front[i]);
            }
        }
        assert(bytes.last() == text[shorter as int] as u8);
        assert(digit_value(bytes.last()) == Some(d));
        let p = power10(shorter);
        lemma_power10_positive(shorter);
        lemma_mod_step(n, p);
    }
}

proof fn lemma_mod_step(n: nat, p: nat)
    requires
        p > 0,
    ensures
        10 * ((n / 10) % p) + n % 10 == n % (10 * p),
{
    let q = n / 10;
    assert(q == p * (q / p) + q % p) by (nonlinear_arith)
        requires
            p > 0,
    ;
    let a = q / p;
    assert((10 * p) * a == 10 * (p * a)) by (nonlinear_arith);
    assert(0 <= q % p < p) by (nonlinear_arith)
        requires
            p > 0,
    ;
    vstd::arithmetic::div_mod::lemma_fundamental_div_mod_converse_mod(
        n as int,
        (10 * p) as int,
        (q / p) as int,
        (10 * (q % p) + n % 10) as int,
    );
}

proof fn lemma_power10_positive(n: nat)
    ensures
        power10(n) > 0,
    decreases n,
{
    if n > 0 {
        lemma_power10_positive((n - 1) as nat);
    }
}

} // verus!
