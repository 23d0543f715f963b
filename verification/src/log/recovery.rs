//! What recovery promises: a log that was cut off anywhere gives back exactly
//! the writes that are still whole, a batch all at once or not at all.
use crate::checksum::crc32c_of;
use crate::error::ErrorView;
use crate::format::envelope::{default_limits, envelope_valid, EnvelopeView};
use crate::format::frame::{lemma_frame_prefix_incomplete, lemma_frame_round_trip, FrameKind, RecordView};
use crate::format::metadata::lemma_inserted;
use crate::log::record::{lemma_record_read, lemma_record_size, log_record, record_decoding, record_encoding};
use crate::log::segment::{
    batch_encoding, closes_batch, continues_batch, control_encoding, control_envelope, control_payload,
    events_encoding, lemma_control_event_type, lemma_control_round_trip, scan_frame, scan_from, scan_of, scan_start,
    scan_step, EventView, PendingView, ScanState, ScanStep, ScanStop, ScanView,
};
use vstd::bytes::spec_u32_to_le_bytes;
use vstd::prelude::*;

verus! {

/// One write to a log: an event, a batch of events, or a system record.
pub enum LogWrite {
    Event(EventView),
    Batch(Seq<EventView>),
    System(EventView),
}

/// What a writer of a batch must see to: envelopes are valid and carry one
/// batch identity.
pub open spec fn batch_valid(events: Seq<EventView>) -> bool {
    forall|i: int| 0 <= i < events.len() ==> envelope_valid((#[trigger] events[i]).0) && events[i].0.batch_id == events[0].0.batch_id
}

/// What a writer must see to beyond what encoding checks: envelopes are valid,
/// and the events of a batch carry one batch identity.
pub open spec fn write_valid(w: LogWrite) -> bool {
    match w {
        LogWrite::Event(event) => envelope_valid(event.0),
        LogWrite::Batch(events) => batch_valid(events),
        LogWrite::System(event) => envelope_valid(event.0),
    }
}

/// How many positions a write takes.
pub open spec fn write_span(w: LogWrite) -> nat {
    match w {
        LogWrite::Event(_) => 1,
        LogWrite::Batch(events) => events.len(),
        LogWrite::System(_) => 0,
    }
}

/// The bytes of a write whose first position is `next`.
pub open spec fn write_encoding(w: LogWrite, next: int) -> core::result::Result<Seq<u8>, ErrorView> {
    match w {
        LogWrite::Event(event) => record_encoding(FrameKind::Event, next as u64, event.0, event.1),
        LogWrite::Batch(events) => batch_encoding(next, events),
        LogWrite::System(event) => record_encoding(FrameKind::System, next as u64, event.0, event.1),
    }
}

/// The event records of a batch.
pub open spec fn batch_records(events: Seq<EventView>, first: int) -> Seq<RecordView> {
    Seq::new(events.len(), |i: int| log_record(FrameKind::Event, (first + i) as u64, events[i].0, events[i].1))
}

/// The event records of a write.
pub open spec fn write_events(w: LogWrite, next: int) -> Seq<RecordView> {
    match w {
        LogWrite::Event(event) => seq![log_record(FrameKind::Event, next as u64, event.0, event.1)],
        LogWrite::Batch(events) => batch_records(events, next),
        LogWrite::System(_) => Seq::empty(),
    }
}

/// The system records of a write.
pub open spec fn write_system(w: LogWrite, next: int) -> Seq<RecordView> {
    match w {
        LogWrite::System(event) => seq![log_record(FrameKind::System, next as u64, event.0, event.1)],
        _ => Seq::empty(),
    }
}

/// The state of a scan after the writes `ws` into a segment that begins at
/// `base`.
pub open spec fn state_after(ws: Seq<LogWrite>, base: int) -> ScanState
    decreases ws.len(),
{
    if ws.len() == 0 {
        scan_start(base)
    } else {
        after_write(state_after(ws.drop_last(), base), ws.last())
    }
}

/// The state of a scan after one more write.
pub open spec fn after_write(s: ScanState, w: LogWrite) -> ScanState {
    let end = s.pos + write_encoding(w, s.next)->Ok_0.len();
    ScanState {
        pos: end,
        valid: end,
        next: s.next + write_span(w),
        records: s.records + write_events(w, s.next),
        system: s.system + write_system(w, s.next),
        pending: None,
    }
}

/// The bytes of the writes `ws` into a segment that begins at `base`.
pub open spec fn log_bytes(ws: Seq<LogWrite>, base: int) -> Seq<u8>
    decreases ws.len(),
{
    if ws.len() == 0 {
        Seq::empty()
    } else {
        log_bytes(ws.drop_last(), base) + write_encoding(ws.last(), state_after(ws.drop_last(), base).next)->Ok_0
    }
}

/// Whether all the writes `ws` went through.
pub open spec fn all_written(ws: Seq<LogWrite>, base: int) -> bool
    decreases ws.len(),
{
    if ws.len() == 0 {
        0 <= base <= u64::MAX
    } else {
        &&& all_written(ws.drop_last(), base)
        &&& write_valid(ws.last())
        &&& write_encoding(ws.last(), state_after(ws.drop_last(), base).next) is Ok
        &&& state_after(ws, base).next <= u64::MAX
    }
}

/// A record that stands whole at `pos` is read there.
pub proof fn lemma_whole_frame(buf: Seq<u8>, pos: int, kind: FrameKind, position: u64, event: EventView)
    requires
        0 <= pos,
        buf.len() <= usize::MAX,
        envelope_valid(event.0),
        record_encoding(kind, position, event.0, event.1) is Ok,
        pos + record_encoding(kind, position, event.0, event.1)->Ok_0.len() <= buf.len(),
        buf.subrange(pos, pos + record_encoding(kind, position, event.0, event.1)->Ok_0.len()) == record_encoding(
            kind,
            position,
            event.0,
            event.1,
        )->Ok_0,
    ensures
        record_decoding(buf.skip(pos)) == Ok::<Option<(RecordView, int)>, ErrorView>(
            Some(
                (
                    log_record(kind, position, event.0, event.1),
                    record_encoding(kind, position, event.0, event.1)->Ok_0.len() as int,
                ),
            ),
        ),
{
    reveal(record_encoding);
    reveal(record_decoding);
    let frame = record_encoding(kind, position, event.0, event.1)->Ok_0;
    let rest = buf.skip(pos + frame.len());
    assert(buf.skip(pos) =~= frame + rest);
    lemma_frame_round_trip(log_record(kind, position, event.0, event.1), default_limits(), rest);
}

/// A record that is cut off at the end of the buffer is not read.
proof fn lemma_cut_frame(buf: Seq<u8>, pos: int, kind: FrameKind, position: u64, event: EventView, n: int)
    requires
        0 <= pos <= buf.len(),
        buf.len() <= usize::MAX,
        record_encoding(kind, position, event.0, event.1) is Ok,
        record_encoding(kind, position, event.0, event.1)->Ok_0.len() <= usize::MAX,
        0 <= n < record_encoding(kind, position, event.0, event.1)->Ok_0.len(),
        buf.skip(pos) == record_encoding(kind, position, event.0, event.1)->Ok_0.take(n),
    ensures
        record_decoding(buf.skip(pos)) == Ok::<Option<(RecordView, int)>, ErrorView>(None),
{
    reveal(record_encoding);
    reveal(record_decoding);
    lemma_frame_prefix_incomplete(log_record(kind, position, event.0, event.1), default_limits(), n);
}

/// The scan of a batch after its begin frame and `k` of its events.
spec fn batch_state(s: ScanState, events: Seq<EventView>, k: int) -> ScanState {
    let body = events_encoding(s.next, events)->Ok_0;
    let count = events.len() as u32;
    let digest = crc32c_of(body);
    let begin = control_encoding(FrameKind::BatchBegin, s.next, events[0].0, count, digest)->Ok_0;
    let upto = events_encoding(s.next, events.take(k))->Ok_0;
    ScanState {
        pos: s.pos + begin.len() + upto.len(),
        pending: Some(
            PendingView {
                start: s.pos,
                first: s.next,
                batch_id: events[0].0.batch_id,
                count,
                digest,
                bytes: upto,
                events: batch_records(events.take(k), s.next),
            },
        ),
        ..s
    }
}

pub proof fn lemma_control_valid(env: EnvelopeView, count: u32, digest: u32)
    requires
        envelope_valid(env),
    ensures
        envelope_valid(control_envelope(env, count, digest)),
{
    lemma_control_event_type();
    lemma_inserted(env.metadata, "salamander.batch_count"@, spec_u32_to_le_bytes(count));
    let once = crate::format::metadata::inserted(env.metadata, "salamander.batch_count"@, spec_u32_to_le_bytes(count));
    lemma_inserted(once, "salamander.batch_digest"@, spec_u32_to_le_bytes(digest));
}

/// The frames of the first events are a prefix of the frames of all.
pub proof fn lemma_events_prefix(first: int, events: Seq<EventView>, k: int)
    requires
        0 <= k <= events.len(),
        events_encoding(first, events) is Ok,
    ensures
        events_encoding(first, events.take(k)) is Ok,
        events_encoding(first, events.take(k))->Ok_0.is_prefix_of(events_encoding(first, events)->Ok_0),
    decreases events.len() - k,
{
    if k == events.len() {
        assert(events.take(k) =~= events);
    } else {
        lemma_events_prefix(first, events, k + 1);
        assert(events.take(k + 1).drop_last() =~= events.take(k));
        let a = events_encoding(first, events.take(k))->Ok_0;
        let b = events_encoding(first, events.take(k + 1))->Ok_0;
        let c = events_encoding(first, events)->Ok_0;
        assert(b.take(a.len() as int) =~= a);
        assert(c.take(b.len() as int) =~= b);
        assert(a =~= c.take(a.len() as int)) by {
            assert(c.take(b.len() as int).take(a.len() as int) =~= c.take(a.len() as int));
        }
    }
}

/// The frame of event `k` follows the frames of the events before it.
pub proof fn lemma_event_frame(first: int, events: Seq<EventView>, k: int)
    requires
        0 <= k < events.len(),
        events_encoding(first, events) is Ok,
    ensures
        events_encoding(first, events.take(k)) is Ok,
        events_encoding(first, events.take(k + 1)) is Ok,
        events[k].0.batch_index == k,
        record_encoding(FrameKind::Event, (first + k) as u64, events[k].0, events[k].1) is Ok,
        events_encoding(first, events.take(k + 1))->Ok_0 == events_encoding(first, events.take(k))->Ok_0 + record_encoding(
            FrameKind::Event,
            (first + k) as u64,
            events[k].0,
            events[k].1,
        )->Ok_0,
{
    lemma_events_prefix(first, events, k);
    lemma_events_prefix(first, events, k + 1);
    assert(events.take(k + 1).drop_last() =~= events.take(k));
    assert(events.take(k + 1).last() == events[k]);
}

/// The begin frame of a whole batch opens it.
proof fn lemma_batch_opens(buf: Seq<u8>, s: ScanState, events: Seq<EventView>)
    requires
        0 <= s.pos <= buf.len() <= usize::MAX,
        s.pending is None,
        0 <= s.next,
        s.next + events.len() <= u64::MAX,
        batch_valid(events),
        batch_encoding(s.next, events) is Ok,
        ({
            let begin = control_encoding(
                FrameKind::BatchBegin,
                s.next,
                events[0].0,
                events.len() as u32,
                crc32c_of(events_encoding(s.next, events)->Ok_0),
            )->Ok_0;
            s.pos + begin.len() <= buf.len() && buf.subrange(s.pos, s.pos + begin.len()) == begin
        }),
    ensures
        scan_step(buf, s) == ScanStep::More(batch_state(s, events, 0)),
{
    let count = events.len() as u32;
    let digest = crc32c_of(events_encoding(s.next, events)->Ok_0);
    let env = control_envelope(events[0].0, count, digest);
    lemma_control_valid(events[0].0, count, digest);
    lemma_control_round_trip(count, digest);
    lemma_whole_frame(buf, s.pos, FrameKind::BatchBegin, s.next as u64, (env, control_payload(count, digest)));
    assert(events.take(0) =~= Seq::empty());
    assert(batch_records(events.take(0), s.next) =~= Seq::empty());
    let begin = control_encoding(FrameKind::BatchBegin, s.next, events[0].0, count, digest)->Ok_0;
    let rec = log_record(FrameKind::BatchBegin, s.next as u64, env, control_payload(count, digest));
    assert(scan_frame(buf, s, rec, s.pos + begin.len()) == ScanStep::More(batch_state(s, events, 0)));
}

/// A whole event frame continues its batch.
proof fn lemma_batch_continues(buf: Seq<u8>, s: ScanState, events: Seq<EventView>, k: int)
    requires
        0 <= s.pos,
        buf.len() <= usize::MAX,
        s.pending is None,
        0 <= s.next,
        s.next + events.len() <= u64::MAX,
        batch_valid(events),
        batch_encoding(s.next, events) is Ok,
        0 <= k < events.len(),
        ({
            let t = batch_state(s, events, k);
            let frame = record_encoding(FrameKind::Event, (s.next + k) as u64, events[k].0, events[k].1)->Ok_0;
            t.pos + frame.len() <= buf.len() && buf.subrange(t.pos, t.pos + frame.len()) == frame
        }),
    ensures
        scan_step(buf, batch_state(s, events, k)) == ScanStep::More(batch_state(s, events, k + 1)),
{
    let t = batch_state(s, events, k);
    let u = batch_state(s, events, k + 1);
    lemma_event_frame(s.next, events, k);
    let frame = record_encoding(FrameKind::Event, (s.next + k) as u64, events[k].0, events[k].1)->Ok_0;
    lemma_whole_frame(buf, t.pos, FrameKind::Event, (s.next + k) as u64, events[k]);
    let rec = log_record(FrameKind::Event, (s.next + k) as u64, events[k].0, events[k].1);
    let batch = t.pending->0;
    assert(batch.events.len() == k);
    assert(continues_batch(batch, rec));
    assert(batch_records(events.take(k + 1), s.next) =~= batch_records(events.take(k), s.next).push(rec));
    assert(u.pos == t.pos + frame.len());
    assert(scan_frame(buf, t, rec, t.pos + frame.len()) == ScanStep::More(u));
}

/// A batch that stands whole is recovered at once.
proof fn lemma_whole_batch(buf: Seq<u8>, s: ScanState, events: Seq<EventView>, k: int)
    requires
        0 <= s.pos <= buf.len() <= usize::MAX,
        s.pending is None,
        0 <= s.next,
        s.next + events.len() <= u64::MAX,
        batch_valid(events),
        batch_encoding(s.next, events) is Ok,
        s.pos + batch_encoding(s.next, events)->Ok_0.len() <= buf.len(),
        buf.subrange(s.pos, s.pos + batch_encoding(s.next, events)->Ok_0.len()) == batch_encoding(s.next, events)->Ok_0,
        0 <= k <= events.len(),
    ensures
        scan_from(buf, batch_state(s, events, k)) == scan_from(buf, after_write(s, LogWrite::Batch(events))),
    decreases events.len() - k,
{
    let body = events_encoding(s.next, events)->Ok_0;
    let count = events.len() as u32;
    let digest = crc32c_of(body);
    let begin = control_encoding(FrameKind::BatchBegin, s.next, events[0].0, count, digest)->Ok_0;
    let commit = control_encoding(FrameKind::BatchCommit, s.next, events[0].0, count, digest)->Ok_0;
    let whole = batch_encoding(s.next, events)->Ok_0;
    let t = batch_state(s, events, k);
    lemma_events_prefix(s.next, events, k);
    if k < events.len() {
        lemma_event_frame(s.next, events, k);
        lemma_events_prefix(s.next, events, k + 1);
        let frame = record_encoding(FrameKind::Event, (s.next + k) as u64, events[k].0, events[k].1)->Ok_0;
        let upto = events_encoding(s.next, events.take(k))->Ok_0;
        let next = events_encoding(s.next, events.take(k + 1))->Ok_0;
        assert(body.take(next.len() as int) =~= next);
        assert(body.subrange(upto.len() as int, next.len() as int) =~= frame) by {
            assert(next.subrange(upto.len() as int, next.len() as int) =~= frame);
            assert(body.take(next.len() as int).subrange(upto.len() as int, next.len() as int) =~= body.subrange(
                upto.len() as int,
                next.len() as int,
            ));
        }
        assert(whole.subrange(begin.len() + upto.len() as int, begin.len() + next.len() as int) =~= body.subrange(
            upto.len() as int,
            next.len() as int,
        ));
        assert(buf.subrange(t.pos, t.pos + frame.len()) =~= buf.subrange(s.pos, s.pos + whole.len()).subrange(
            begin.len() + upto.len() as int,
            begin.len() + next.len() as int,
        ));
        lemma_batch_continues(buf, s, events, k);
        lemma_whole_batch(buf, s, events, k + 1);
    } else {
        assert(events.take(k) =~= events);
        let env = control_envelope(events[0].0, count, digest);
        lemma_control_valid(events[0].0, count, digest);
        lemma_control_round_trip(count, digest);
        assert(whole.subrange(begin.len() + body.len() as int, whole.len() as int) =~= commit);
        assert(buf.subrange(t.pos, t.pos + commit.len()) =~= buf.subrange(s.pos, s.pos + whole.len()).subrange(
            begin.len() + body.len() as int,
            whole.len() as int,
        ));
        lemma_whole_frame(buf, t.pos, FrameKind::BatchCommit, s.next as u64, (env, control_payload(count, digest)));
        let rec = log_record(FrameKind::BatchCommit, s.next as u64, env, control_payload(count, digest));
        assert(closes_batch(t.pending->0, rec, count, digest));
        let done = after_write(s, LogWrite::Batch(events));
        assert(done.system =~= s.system);
        assert(scan_frame(buf, t, rec, t.pos + commit.len()) == ScanStep::More(done));
    }
}

/// A write that stands whole is recovered.
proof fn lemma_whole_write(buf: Seq<u8>, s: ScanState, w: LogWrite)
    requires
        0 <= s.pos <= buf.len() <= usize::MAX,
        s.pending is None,
        0 <= s.next,
        s.next + write_span(w) <= u64::MAX,
        write_valid(w),
        write_encoding(w, s.next) is Ok,
        s.pos + write_encoding(w, s.next)->Ok_0.len() <= buf.len(),
        buf.subrange(s.pos, s.pos + write_encoding(w, s.next)->Ok_0.len()) == write_encoding(w, s.next)->Ok_0,
    ensures
        scan_from(buf, s) == scan_from(buf, after_write(s, w)),
{
    let bytes = write_encoding(w, s.next)->Ok_0;
    let done = after_write(s, w);
    match w {
        LogWrite::Event(event) => {
            lemma_whole_frame(buf, s.pos, FrameKind::Event, s.next as u64, event);
            let rec = log_record(FrameKind::Event, s.next as u64, event.0, event.1);
            assert(s.records + seq![rec] =~= s.records.push(rec));
            assert(done.system =~= s.system);
            assert(scan_frame(buf, s, rec, s.pos + bytes.len()) == ScanStep::More(done));
        },
        LogWrite::System(event) => {
            lemma_whole_frame(buf, s.pos, FrameKind::System, s.next as u64, event);
            let rec = log_record(FrameKind::System, s.next as u64, event.0, event.1);
            assert(s.system + seq![rec] =~= s.system.push(rec));
            assert(done.records =~= s.records);
            assert(scan_frame(buf, s, rec, s.pos + bytes.len()) == ScanStep::More(done));
        },
        LogWrite::Batch(events) => {
            let begin = control_encoding(
                FrameKind::BatchBegin,
                s.next,
                events[0].0,
                events.len() as u32,
                crc32c_of(events_encoding(s.next, events)->Ok_0),
            )->Ok_0;
            assert(bytes.subrange(0, begin.len() as int) =~= begin);
            assert(buf.subrange(s.pos, s.pos + begin.len()) =~= buf.subrange(s.pos, s.pos + bytes.len()).subrange(
                0,
                begin.len() as int,
            ));
            lemma_batch_opens(buf, s, events);
            lemma_whole_batch(buf, s, events, 0);
        },
    }
}

/// What a scan finds when it stops in `s`.
pub open spec fn found_in(s: ScanState, stop: ScanStop) -> ScanView {
    ScanView { records: s.records, system_records: s.system, valid_bytes: s.valid, next_offset: s.next, stop }
}

/// A batch that is cut off after its begin frame is not recovered.
proof fn lemma_cut_batch(buf: Seq<u8>, s: ScanState, events: Seq<EventView>, k: int, n: int)
    requires
        0 <= s.pos <= buf.len() <= usize::MAX,
        s.pending is None,
        0 <= s.next,
        s.next + events.len() <= u64::MAX,
        batch_valid(events),
        batch_encoding(s.next, events) is Ok,
        batch_encoding(s.next, events)->Ok_0.len() <= usize::MAX,
        0 <= n < batch_encoding(s.next, events)->Ok_0.len(),
        buf.skip(s.pos) == batch_encoding(s.next, events)->Ok_0.take(n),
        0 <= k <= events.len(),
        batch_state(s, events, k).pos - s.pos <= n,
    ensures
        scan_from(buf, batch_state(s, events, k)) == found_in(s, ScanStop::TornTail),
    decreases events.len() - k,
{
    let body = events_encoding(s.next, events)->Ok_0;
    let count = events.len() as u32;
    let digest = crc32c_of(body);
    let begin = control_encoding(FrameKind::BatchBegin, s.next, events[0].0, count, digest)->Ok_0;
    let commit = control_encoding(FrameKind::BatchCommit, s.next, events[0].0, count, digest)->Ok_0;
    let whole = batch_encoding(s.next, events)->Ok_0;
    let t = batch_state(s, events, k);
    let at = t.pos - s.pos;
    lemma_events_prefix(s.next, events, k);
    assert(buf.skip(s.pos).len() == n);
    assert(buf.len() == s.pos + n);
    if k < events.len() {
        lemma_event_frame(s.next, events, k);
        lemma_events_prefix(s.next, events, k + 1);
        let frame = record_encoding(FrameKind::Event, (s.next + k) as u64, events[k].0, events[k].1)->Ok_0;
        let upto = events_encoding(s.next, events.take(k))->Ok_0;
        let next = events_encoding(s.next, events.take(k + 1))->Ok_0;
        assert(body.take(next.len() as int) =~= next);
        assert(body.subrange(upto.len() as int, next.len() as int) =~= frame) by {
            assert(next.subrange(upto.len() as int, next.len() as int) =~= frame);
            assert(body.take(next.len() as int).subrange(upto.len() as int, next.len() as int) =~= body.subrange(
                upto.len() as int,
                next.len() as int,
            ));
        }
        assert(whole.subrange(at, at + frame.len()) =~= frame) by {
            assert(whole.subrange(at, at + frame.len()) =~= body.subrange(upto.len() as int, next.len() as int));
        }
        lemma_record_size(FrameKind::Event, (s.next + k) as u64, events[k].0, events[k].1);
        if at + frame.len() <= n {
            assert(buf.subrange(t.pos, t.pos + frame.len()) =~= buf.skip(s.pos).subrange(at, at + frame.len()));
            assert(whole.take(n).subrange(at, at + frame.len()) =~= whole.subrange(at, at + frame.len()));
            lemma_batch_continues(buf, s, events, k);
            lemma_cut_batch(buf, s, events, k + 1, n);
        } else {
            assert(buf.skip(t.pos) =~= buf.skip(s.pos).skip(at));
            assert(whole.take(n).skip(at) =~= whole.subrange(at, at + frame.len()).take(n - at));
            lemma_cut_frame(buf, t.pos, FrameKind::Event, (s.next + k) as u64, events[k], n - at);
        }
    } else {
        assert(events.take(k) =~= events);
        let env = control_envelope(events[0].0, count, digest);
        assert(whole.subrange(at, whole.len() as int) =~= commit);
        assert(buf.skip(t.pos) =~= buf.skip(s.pos).skip(at));
        assert(whole.take(n).skip(at) =~= whole.subrange(at, whole.len() as int).take(n - at));
        lemma_cut_frame(buf, t.pos, FrameKind::BatchCommit, s.next as u64, (env, control_payload(count, digest)), n - at);
    }
}

/// A write that is cut off is not recovered.
proof fn lemma_cut_write(buf: Seq<u8>, s: ScanState, w: LogWrite, n: int)
    requires
        0 <= s.pos <= buf.len() <= usize::MAX,
        s.pending is None,
        0 <= s.next,
        s.next + write_span(w) <= u64::MAX,
        write_valid(w),
        write_encoding(w, s.next) is Ok,
        write_encoding(w, s.next)->Ok_0.len() <= usize::MAX,
        0 <= n < write_encoding(w, s.next)->Ok_0.len(),
        buf.skip(s.pos) == write_encoding(w, s.next)->Ok_0.take(n),
    ensures
        scan_from(buf, s) == found_in(
            s,
            if n == 0 {
                ScanStop::CleanEof
            } else {
                ScanStop::TornTail
            },
        ),
{
    assert(buf.skip(s.pos).len() == n);
    assert(buf.len() == s.pos + n);
    match w {
        LogWrite::Event(event) => {
            lemma_cut_frame(buf, s.pos, FrameKind::Event, s.next as u64, event, n);
        },
        LogWrite::System(event) => {
            lemma_cut_frame(buf, s.pos, FrameKind::System, s.next as u64, event, n);
        },
        LogWrite::Batch(events) => {
            let whole = batch_encoding(s.next, events)->Ok_0;
            let count = events.len() as u32;
            let digest = crc32c_of(events_encoding(s.next, events)->Ok_0);
            let env = control_envelope(events[0].0, count, digest);
            let begin = control_encoding(FrameKind::BatchBegin, s.next, events[0].0, count, digest)->Ok_0;
            assert(whole.subrange(0, begin.len() as int) =~= begin);
            if begin.len() <= n {
                assert(buf.subrange(s.pos, s.pos + begin.len()) =~= buf.skip(s.pos).subrange(0, begin.len() as int));
                assert(whole.take(n).subrange(0, begin.len() as int) =~= begin);
                lemma_record_size(FrameKind::BatchBegin, s.next as u64, env, control_payload(count, digest));
                lemma_batch_opens(buf, s, events);
                assert(events.take(0) =~= Seq::empty());
                lemma_cut_batch(buf, s, events, 0, n);
            } else {
                assert(whole.take(n) =~= begin.take(n));
                lemma_cut_frame(buf, s.pos, FrameKind::BatchBegin, s.next as u64, (env, control_payload(count, digest)), n);
            }
        },
    }
}

/// The bytes of the first writes are a prefix of the bytes of all, and the
/// state after them stands at their end.
pub proof fn lemma_log_prefix(ws: Seq<LogWrite>, base: int, k: int)
    requires
        0 <= k <= ws.len(),
        all_written(ws, base),
    ensures
        all_written(ws.take(k), base),
        log_bytes(ws.take(k), base).is_prefix_of(log_bytes(ws, base)),
        state_after(ws.take(k), base).pos == log_bytes(ws.take(k), base).len(),
        state_after(ws.take(k), base).valid == log_bytes(ws.take(k), base).len(),
        state_after(ws.take(k), base).pending is None,
        0 <= state_after(ws.take(k), base).next <= u64::MAX,
    decreases ws.len(),
{
    if k == ws.len() {
        assert(ws.take(k) =~= ws);
        if ws.len() > 0 {
            lemma_log_prefix(ws.drop_last(), base, ws.len() - 1);
            assert(ws.drop_last().take(ws.len() - 1) =~= ws.drop_last());
        }
        assert(log_bytes(ws, base).take(log_bytes(ws, base).len() as int) =~= log_bytes(ws, base));
    } else {
        lemma_log_prefix(ws.drop_last(), base, k);
        assert(ws.drop_last().take(k) =~= ws.take(k));
        let a = log_bytes(ws.take(k), base);
        let b = log_bytes(ws.drop_last(), base);
        let c = log_bytes(ws, base);
        assert(b.take(a.len() as int) =~= a);
        assert(c.take(a.len() as int) =~= b.take(a.len() as int));
    }
}

/// A scan of a log passes through the state after each write that is whole.
proof fn lemma_scan_passes(ws: Seq<LogWrite>, base: int, buf: Seq<u8>, k: int)
    requires
        all_written(ws, base),
        0 <= k <= ws.len(),
        buf.len() <= usize::MAX,
        log_bytes(ws.take(k), base).is_prefix_of(buf),
    ensures
        scan_of(buf, base) == scan_from(buf, state_after(ws.take(k), base)),
    decreases k,
{
    if k == 0 {
        assert(ws.take(0) =~= Seq::empty());
    } else {
        let before = ws.take(k - 1);
        let upto = ws.take(k);
        lemma_log_prefix(ws, base, k);
        lemma_log_prefix(ws, base, k - 1);
        assert(upto.drop_last() =~= before);
        assert(upto.last() == ws[k - 1]);
        let s = state_after(before, base);
        let bytes = write_encoding(ws[k - 1], s.next)->Ok_0;
        let a = log_bytes(before, base);
        let b = log_bytes(upto, base);
        assert(b =~= a + bytes);
        assert(buf.take(b.len() as int) =~= b);
        assert(buf.take(a.len() as int) =~= a) by {
            assert(buf.take(b.len() as int).take(a.len() as int) =~= buf.take(a.len() as int));
            assert(b.take(a.len() as int) =~= a);
        }
        lemma_scan_passes(ws, base, buf, k - 1);
        assert(buf.subrange(s.pos, s.pos + bytes.len()) =~= b.subrange(a.len() as int, b.len() as int));
        assert(b.subrange(a.len() as int, b.len() as int) =~= bytes);
        lemma_whole_write(buf, s, ws[k - 1]);
    }
}

/// Recovery from a cut. A log of the writes `ws` that was cut off after `n`
/// bytes, `k` writes being whole, is recovered as those `k` writes and nothing
/// else: their records in order, the byte where they end, and the position
/// that comes next. In particular a batch is recovered whole or not at all.
pub proof fn lemma_recovery(ws: Seq<LogWrite>, base: int, n: int, k: int)
    requires
        all_written(ws, base),
        log_bytes(ws, base).len() <= usize::MAX,
        0 <= n <= log_bytes(ws, base).len(),
        0 <= k <= ws.len(),
        log_bytes(ws.take(k), base).len() <= n,
        k < ws.len() ==> n < log_bytes(ws.take(k + 1), base).len(),
    ensures
        scan_of(log_bytes(ws, base).take(n), base) == found_in(
            state_after(ws.take(k), base),
            if n == log_bytes(ws.take(k), base).len() {
                ScanStop::CleanEof
            } else {
                ScanStop::TornTail
            },
        ),
        state_after(ws.take(k), base).valid == log_bytes(ws.take(k), base).len(),
{
    let all = log_bytes(ws, base);
    let buf = all.take(n);
    let s = state_after(ws.take(k), base);
    lemma_log_prefix(ws, base, k);
    let a = log_bytes(ws.take(k), base);
    assert(all.take(a.len() as int) =~= a);
    assert(buf.take(a.len() as int) =~= a);
    lemma_scan_passes(ws, base, buf, k);
    if k < ws.len() {
        let upto = ws.take(k + 1);
        lemma_log_prefix(ws, base, k + 1);
        assert(upto.drop_last() =~= ws.take(k));
        assert(upto.last() == ws[k]);
        let bytes = write_encoding(ws[k], s.next)->Ok_0;
        let b = log_bytes(upto, base);
        assert(b =~= a + bytes);
        assert(all.take(b.len() as int) =~= b);
        assert(buf.skip(a.len() as int) =~= bytes.take(n - a.len())) by {
            assert(all.take(b.len() as int).subrange(a.len() as int, n) =~= buf.skip(a.len() as int));
            assert(b.subrange(a.len() as int, n) =~= bytes.take(n - a.len()));
        }
        lemma_cut_write(buf, s, ws[k], n - a.len());
    } else {
        assert(ws.take(k) =~= ws);
        assert(n == a.len());
        assert(buf.skip(s.pos).len() == 0);
        lemma_record_read(buf.skip(s.pos));
    }
}

/// Recovery from a bad tail. A log of the writes `ws` that goes on with bytes
/// at which no frame can be read is recovered as those writes and nothing else,
/// whatever the bytes are: a frame that is cut off, one with a wrong checksum,
/// or none at all.
pub proof fn lemma_tail_dropped(ws: Seq<LogWrite>, base: int, tail: Seq<u8>)
    requires
        all_written(ws, base),
        log_bytes(ws, base).len() + tail.len() <= usize::MAX,
        !(record_decoding(tail) matches Ok(Some(_))),
    ensures
        scan_of(log_bytes(ws, base) + tail, base) == found_in(
            state_after(ws, base),
            match record_decoding(tail) {
                Err(ErrorView::Corrupt { .. }) => ScanStop::CrcError,
                Err(_) => ScanStop::InvalidFrame,
                Ok(_) => if tail.len() == 0 {
                    ScanStop::CleanEof
                } else {
                    ScanStop::TornTail
                },
            },
        ),
        state_after(ws, base).valid == log_bytes(ws, base).len(),
{
    let all = log_bytes(ws, base);
    let buf = all + tail;
    let n = ws.len() as int;
    assert(ws.take(n) =~= ws);
    lemma_log_prefix(ws, base, n);
    assert(buf.take(all.len() as int) =~= all);
    lemma_scan_passes(ws, base, buf, n);
    assert(buf.skip(all.len() as int) =~= tail);
}

} // verus!
