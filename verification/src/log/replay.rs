//! What replay promises: a segment that was written is read back as exactly
//! the records that the filter selects, in order, and paging through them
//! loses and repeats nothing.
use crate::checksum::crc32c_of;
use crate::error::{ErrorView, Result};
use crate::format::envelope::default_limits;
use crate::format::frame::{record_views, FrameKind, OwnedStoredRecord, RecordView};
use crate::log::reader::{advance_of, limit_reached, max_of, walk_frame, Advance, AdvanceView, Walk, WalkStep, WalkView};
use crate::log::record::{lemma_record_read, record_decoding};
use crate::log::reader::{CheckView, TrackView};
use crate::log::recovery::{
    all_written, batch_records, batch_valid, lemma_control_valid, lemma_event_frame, lemma_events_prefix, lemma_log_prefix,
    lemma_whole_frame, log_bytes, state_after, write_encoding, write_events, write_span, LogWrite,
};
use crate::log::segment::{
    batch_encoding, control_encoding, control_envelope, control_payload, events_encoding, lemma_control_round_trip,
    EventView,
};
use crate::log::select::{passes, selector_counts, FilterView, ResolvedFilter};
use vstd::prelude::*;
use vstd::slice::slice_subrange;

verus! {

/// All that a filter yields of a segment's bytes from `at` on, and the state of
/// the read afterwards.
pub open spec fn segment_read(bytes: Seq<u8>, at: int, w: WalkView, f: FilterView, closed: bool, seg_end: u64) -> core::result::Result<
    (Seq<RecordView>, WalkView),
    ErrorView,
>
    decreases bytes.len() - at,
{
    if !(0 <= at <= bytes.len()) {
        Err(arbitrary())
    } else {
        match advance_of(w, f, bytes.skip(at), true, closed, seg_end) {
            AdvanceView::Need(_) => Err(arbitrary()),
            AdvanceView::SegmentEnd => Ok((Seq::empty(), w)),
            AdvanceView::Finished(next) => Ok((Seq::empty(), next)),
            AdvanceView::Skipped(next, n) => {
                proof {
                    lemma_record_read(bytes.skip(at));
                }
                segment_read(bytes, at + n, next, f, closed, seg_end)
            },
            AdvanceView::Matched(next, rec, n) => {
                proof {
                    lemma_record_read(bytes.skip(at));
                }
                match segment_read(bytes, at + n, next, f, closed, seg_end) {
                    Ok((rest, last)) => Ok((seq![rec] + rest, last)),
                    Err(e) => Err(e),
                }
            },
            AdvanceView::Fail(e) => Err(e),
        }
    }
}

/// Whether positions cannot run out within `n` more records.
pub open spec fn walk_room_for(w: WalkView, n: int) -> bool {
    &&& w.expected + n < u64::MAX
    &&& w.yielded + n < u64::MAX
    &&& w.batch matches Some(track) ==> track.first == w.expected && 0 <= track.seen && track.first + track.seen + n < u64::MAX
}

proof fn lemma_room_kept(w: WalkView, f: FilterView, avail: Seq<u8>, closed: bool, seg_end: u64, n: int)
    requires
        walk_room_for(w, n),
        n >= 1,
    ensures
        advance_of(w, f, avail, true, closed, seg_end) matches AdvanceView::Skipped(next, _) ==> walk_room_for(next, n - 1),
        advance_of(w, f, avail, true, closed, seg_end) matches AdvanceView::Matched(next, _, _) ==> walk_room_for(next, n - 1),
{
}

/// Reads all that the filter yields of a segment's bytes from `from` on.
pub fn read_segment(
    bytes: &[u8],
    from: usize,
    walk: &mut Walk,
    filter: &ResolvedFilter,
    closed: bool,
    seg_end: u64,
) -> (r: Result<Vec<OwnedStoredRecord>>)
    requires
        old(walk).wf(),
        from <= bytes@.len(),
        walk_room_for(old(walk)@, bytes@.len() - from + 1),
        selector_counts(filter@.selector),
    ensures
        match segment_read(bytes@, from as int, old(walk)@, filter@, closed, seg_end) {
            Ok((records, last)) => r matches Ok(found) && record_views(found@) == records && final(walk)@ == last,
            Err(e) => r matches Err(error) && error@ == e,
        },
{
    let mut found: Vec<OwnedStoredRecord> = Vec::new();
    let mut at: usize = from;
    let ghost w0 = walk@;
    let ghost whole = segment_read(bytes@, from as int, w0, filter@, closed, seg_end);
    assert(record_views(found@) =~= Seq::empty());
    proof {
        match whole {
            Ok((records, last)) => {
                assert(Seq::<RecordView>::empty() + records =~= records);
            },
            Err(_) => {},
        }
    }
    loop
        invariant
            walk.wf(),
            from <= at <= bytes@.len(),
            walk_room_for(walk@, bytes@.len() - at + 1),
            selector_counts(filter@.selector),
            whole == segment_read(bytes@, from as int, w0, filter@, closed, seg_end),
            w0 == old(walk)@,
            match segment_read(bytes@, at as int, walk@, filter@, closed, seg_end) {
                Ok((rest, last)) => whole == Ok::<(Seq<RecordView>, WalkView), ErrorView>((record_views(found@) + rest, last)),
                Err(e) => whole == Err::<(Seq<RecordView>, WalkView), ErrorView>(e),
            },
        decreases bytes@.len() - at,
    {
        let tail = slice_subrange(bytes, at, bytes.len());
        let ghost before = walk@;
        let ghost rest_bytes = bytes@.skip(at as int);
        assert(tail@ =~= rest_bytes);
        proof {
            lemma_record_read(rest_bytes);
            lemma_room_kept(before, filter@, rest_bytes, closed, seg_end, bytes@.len() - at + 1);
            lemma_never_needs(before, filter@, rest_bytes, closed, seg_end);
        }
        match walk.advance(filter, tail, true, closed, seg_end) {
            Err(e) => return Err(e),
            Ok(Advance::Need(_)) => {
                assert(false);
                return Ok(found);
            },
            Ok(Advance::SegmentEnd) => {
                assert(record_views(found@) + Seq::<RecordView>::empty() =~= record_views(found@));
                return Ok(found);
            },
            Ok(Advance::Finished) => {
                assert(record_views(found@) + Seq::<RecordView>::empty() =~= record_views(found@));
                return Ok(found);
            },
            Ok(Advance::Skipped(used)) => {
                at = at + used;
            },
            Ok(Advance::Matched(record, used)) => {
                let owned = record.into_owned();
                let ghost so_far = record_views(found@);
                let ghost rec = owned@;
                found.push(owned);
                proof {
                    assert(record_views(found@) =~= so_far.push(rec));
                    match segment_read(bytes@, at + used, walk@, filter@, closed, seg_end) {
                        Ok((rest, last)) => {
                            assert(so_far + (seq![rec] + rest) =~= record_views(found@) + rest);
                        },
                        Err(_) => {},
                    }
                }
                at = at + used;
            },
        }
    }
}

/// With all bytes at hand nothing more is asked for.
proof fn lemma_never_needs(w: WalkView, f: FilterView, avail: Seq<u8>, closed: bool, seg_end: u64)
    ensures
        !(advance_of(w, f, avail, true, closed, seg_end) is Need),
{
    reveal(record_decoding);
}

/// Whether a filter yields a record.
pub open spec fn keeps(f: FilterView, rec: RecordView) -> bool {
    passes(f, rec.kind, rec.position, rec.envelope) && rec.position < f.until
}

/// The records that a filter yields, in order.
pub open spec fn chosen(f: FilterView, records: Seq<RecordView>) -> Seq<RecordView>
    decreases records.len(),
{
    if records.len() == 0 {
        Seq::empty()
    } else if keeps(f, records[0]) {
        seq![records[0]] + chosen(f, records.skip(1))
    } else {
        chosen(f, records.skip(1))
    }
}

/// The position behind the last of `records`.
pub open spec fn past(records: Seq<RecordView>) -> int {
    if records.len() == 0 {
        0
    } else {
        records.last().position + 1
    }
}

/// How a read stands behind `records`, having yielded `out` of them: it is over
/// only where it was to yield no more, or where the records go beyond the
/// upper bound.
#[verifier::opaque]
pub open spec fn settled(w: WalkView, f: FilterView, records: Seq<RecordView>, out: Seq<RecordView>, last: WalkView) -> bool {
    &&& last.yielded == w.yielded + out.len()
    &&& if last.finished {
        limit_reached(last, f) || (past(records) > f.until && f.until <= last.continuation)
    } else {
        !limit_reached(last, f) && last.continuation <= max_of(w.continuation, past(records))
    }
}

/// Whether a read came to what `f` yields of `records`: to all of it, or, where
/// a maximum was reached, to that many, the read going on behind the last.
pub open spec fn reads_as(
    result: core::result::Result<(Seq<RecordView>, WalkView), ErrorView>,
    w: WalkView,
    f: FilterView,
    records: Seq<RecordView>,
) -> bool {
    let all = chosen(f, records);
    match result {
        Err(_) => false,
        Ok((out, last)) => settled(w, f, records, out, last) && match f.max_events {
            None => out == all,
            Some(max) => {
                let budget = max - w.yielded;
                if all.len() < budget {
                    out == all
                } else {
                    out == all.take(budget) && (budget > 0 ==> last.continuation == all[budget - 1].position + 1)
                }
            },
        },
    }
}

/// How far a read has come in its batch has no part in what it came to.
proof fn lemma_reads_same(
    result: core::result::Result<(Seq<RecordView>, WalkView), ErrorView>,
    v: WalkView,
    w: WalkView,
    f: FilterView,
    records: Seq<RecordView>,
)
    requires
        reads_as(result, v, f, records),
        v.yielded == w.yielded,
        v.continuation == w.continuation,
    ensures
        reads_as(result, w, f, records),
{
    reveal(settled);
}

/// A read that has all that it was asked for reads nothing more.
proof fn lemma_limit_reads(bytes: Seq<u8>, at: int, w: WalkView, f: FilterView, closed: bool, seg_end: u64, records: Seq<RecordView>)
    requires
        0 <= at <= bytes.len(),
        !w.finished,
        limit_reached(w, f),
        f.max_events matches Some(max) ==> w.yielded <= max,
    ensures
        reads_as(segment_read(bytes, at, w, f, closed, seg_end), w, f, records),
{
    reveal(settled);
    lemma_limit_stops(bytes, at, w, f, closed, seg_end);
    assert(chosen(f, records).take(0) =~= Seq::empty());
}

/// A read that stands between two writes, at the position `next`.
pub open spec fn at_boundary(w: WalkView, f: FilterView, next: int) -> bool {
    &&& !w.finished
    &&& w.batch is None
    &&& w.expected == next
    &&& w.continuation <= max_of(f.from as int, next)
    &&& f.max_events matches Some(max) ==> w.yielded <= max
}

/// Whether events stand at consecutive positions from `base` on.
pub open spec fn consecutive(records: Seq<RecordView>, base: int) -> bool {
    forall|i: int| 0 <= i < records.len() ==> (#[trigger] records[i]).kind is Event && records[i].position == base + i
}

/// The events of a log stand at consecutive positions.
pub proof fn lemma_log_consecutive(ws: Seq<LogWrite>, base: int)
    requires
        all_written(ws, base),
    ensures
        consecutive(state_after(ws, base).records, base),
        state_after(ws, base).next == base + state_after(ws, base).records.len(),
    decreases ws.len(),
{
    if ws.len() > 0 {
        lemma_log_consecutive(ws.drop_last(), base);
        lemma_log_prefix(ws, base, ws.len() - 1);
        assert(ws.take(ws.len() - 1) =~= ws.drop_last());
        let s = state_after(ws.drop_last(), base);
        let t = state_after(ws, base);
        let added = write_events(ws.last(), s.next);
        assert(added.len() == write_span(ws.last()));
        assert forall|i: int| 0 <= i < t.records.len() implies (#[trigger] t.records[i]).kind is Event && t.records[i].position
            == base + i by {
            if i >= s.records.len() {
                assert(t.records[i] == added[i - s.records.len()]);
            } else {
                assert(t.records[i] == s.records[i]);
            }
        }
    }
}

/// The events of the first writes are a prefix of the events of all.
pub proof fn lemma_records_prefix(ws: Seq<LogWrite>, base: int, k: int)
    requires
        0 <= k <= ws.len(),
    ensures
        state_after(ws.take(k), base).records.is_prefix_of(state_after(ws, base).records),
    decreases ws.len(),
{
    if k == ws.len() {
        assert(ws.take(k) =~= ws);
        let r = state_after(ws, base).records;
        assert(r =~= r.take(r.len() as int));
    } else {
        lemma_records_prefix(ws.drop_last(), base, k);
        assert(ws.drop_last().take(k) =~= ws.take(k));
        let a = state_after(ws.take(k), base).records;
        let b = state_after(ws.drop_last(), base).records;
        let c = state_after(ws, base).records;
        assert(b.take(a.len() as int) =~= a);
        assert(c.take(a.len() as int) =~= a);
    }
}

/// From a position at or above the upper bound on, nothing is yielded.
proof fn lemma_none_chosen(f: FilterView, records: Seq<RecordView>)
    requires
        forall|i: int| 0 <= i < records.len() ==> (#[trigger] records[i]).position >= f.until,
    ensures
        chosen(f, records) == Seq::<RecordView>::empty(),
    decreases records.len(),
{
    if records.len() > 0 {
        assert(records[0].position >= f.until);
        assert forall|i: int| 0 <= i < records.skip(1).len() implies (#[trigger] records.skip(1)[i]).position >= f.until by {
            assert(records.skip(1)[i] == records[i + 1]);
        }
        lemma_none_chosen(f, records.skip(1));
    }
}

/// A whole frame is looked at as the walk says.
pub(crate) proof fn lemma_advance_frame(w: WalkView, f: FilterView, bytes: Seq<u8>, at: int, rec: RecordView, n: int, closed: bool, seg_end: u64)
    requires
        0 <= at <= bytes.len(),
        !w.finished,
        !limit_reached(w, f),
        record_decoding(bytes.skip(at)) == Ok::<Option<(RecordView, int)>, ErrorView>(Some((rec, n))),
    ensures
        32 <= n <= bytes.len() - at,
        bytes.skip(at).take(n) == bytes.subrange(at, at + n),
        advance_of(w, f, bytes.skip(at), true, closed, seg_end) == match walk_frame(w, f, rec, bytes.subrange(at, at + n)) {
            WalkStep::Fail(e) => AdvanceView::Fail(e),
            WalkStep::Finish(next) => AdvanceView::Finished(next),
            WalkStep::Skip(next) => AdvanceView::Skipped(next, n),
            WalkStep::Match(next) => AdvanceView::Matched(next, rec, n),
        },
{
    reveal(record_decoding);
    lemma_record_read(bytes.skip(at));
    crate::format::frame::lemma_sizing_agrees(bytes.skip(at), default_limits());
    assert(bytes.skip(at).take(n) =~= bytes.subrange(at, at + n));
}

/// An event that is in order adds itself to what is read behind it.
proof fn lemma_event_read(
    w: WalkView,
    next: WalkView,
    f: FilterView,
    bytes: Seq<u8>,
    at: int,
    rec: RecordView,
    n: int,
    closed: bool,
    seg_end: u64,
    records: Seq<RecordView>,
)
    requires
        0 <= at <= bytes.len(),
        !w.finished,
        !limit_reached(w, f),
        record_decoding(bytes.skip(at)) == Ok::<Option<(RecordView, int)>, ErrorView>(Some((rec, n))),
        rec.kind is Event,
        records.len() > 0,
        records[0] == rec,
        consecutive(records, rec.position as int),
        w.continuation <= max_of(f.from as int, rec.position as int),
        f.max_events matches Some(max) ==> w.yielded <= max,
        f.kinds is UserEvents,
        walk_frame(w, f, rec, bytes.subrange(at, at + n)) == crate::log::reader::walk_filter(next, f, rec),
        next.yielded == w.yielded,
        next.continuation == w.continuation,
        !next.finished,
        rec.position < f.until ==> reads_as(
            segment_read(
                bytes,
                at + n,
                WalkView {
                    continuation: max_of(w.continuation, rec.position + 1),
                    yielded: if keeps(f, rec) {
                        w.yielded + 1
                    } else {
                        w.yielded
                    },
                    ..next
                },
                f,
                closed,
                seg_end,
            ),
            WalkView {
                continuation: max_of(w.continuation, rec.position + 1),
                yielded: if keeps(f, rec) {
                    w.yielded + 1
                } else {
                    w.yielded
                },
                ..next
            },
            f,
            records.skip(1),
        ),
    ensures
        reads_as(segment_read(bytes, at, w, f, closed, seg_end), w, f, records),
{
    reveal(settled);
    lemma_advance_frame(w, f, bytes, at, rec, n, closed, seg_end);
    let on = WalkView {
        continuation: max_of(w.continuation, rec.position + 1),
        yielded: if keeps(f, rec) {
            w.yielded + 1
        } else {
            w.yielded
        },
        ..next
    };
    let all = chosen(f, records);
    assert(records[records.len() - 1].position == rec.position + records.len() - 1);
    if records.len() > 1 {
        assert(records.skip(1).last() == records.last());
    }
    if rec.position >= f.until {
        lemma_none_chosen(f, records);
        assert(all.take(0) =~= Seq::empty());
    } else {
        let rest = chosen(f, records.skip(1));
        if keeps(f, rec) {
            assert(all == seq![rec] + rest);
            match segment_read(bytes, at + n, on, f, closed, seg_end) {
                Ok((out, last)) => {
                    match f.max_events {
                        None => {},
                        Some(max) => {
                            let budget = max - w.yielded;
                            assert(budget >= 1);
                            if all.len() < budget {
                            } else {
                                assert(all.take(budget) =~= seq![rec] + rest.take(budget - 1));
                                if budget == 1 {
                                    lemma_limit_stops(bytes, at + n, on, f, closed, seg_end);
                                }
                            }
                        },
                    }
                },
                Err(_) => {},
            }
        }
    }
}

/// A read that has all that it was asked for stops where it is.
pub(crate) proof fn lemma_limit_stops(bytes: Seq<u8>, at: int, w: WalkView, f: FilterView, closed: bool, seg_end: u64)
    requires
        0 <= at <= bytes.len(),
        !w.finished,
        limit_reached(w, f),
    ensures
        segment_read(bytes, at, w, f, closed, seg_end) == Ok::<(Seq<RecordView>, WalkView), ErrorView>(
            (Seq::empty(), WalkView { finished: true, ..w }),
        ),
{
}

/// A read inside the batch `events` that begins at `first`, after `j` events.
pub open spec fn batch_walk(w: WalkView, f: FilterView, events: Seq<EventView>, first: int, j: int) -> WalkView {
    let body = events_encoding(first, events)->Ok_0;
    WalkView {
        expected: first,
        batch: Some(
            TrackView {
                first,
                batch_id: events[0].0.batch_id,
                seen: j,
                check: if f.verification is BatchDigests {
                    Some(
                        CheckView {
                            count: events.len() as u32,
                            digest: crc32c_of(body),
                            bytes: events_encoding(first, events.take(j))->Ok_0,
                        },
                    )
                } else {
                    None
                },
            },
        ),
        ..w
    }
}

/// What must hold of the log and of the filter.
pub open spec fn replay_setting(ws: Seq<LogWrite>, base: int, f: FilterView, seg_end: u64) -> bool {
    &&& all_written(ws, base)
    &&& log_bytes(ws, base).len() <= usize::MAX
    &&& f.kinds is UserEvents
    &&& seg_end <= state_after(ws, base).next
}

/// Where write `k` lies in the bytes of the log.
pub proof fn lemma_write_place(ws: Seq<LogWrite>, base: int, k: int)
    requires
        all_written(ws, base),
        0 <= k < ws.len(),
    ensures
        ({
            let s = state_after(ws.take(k), base);
            let t = state_after(ws.take(k + 1), base);
            let bytes = log_bytes(ws, base);
            let enc = write_encoding(ws[k], s.next)->Ok_0;
            &&& s.pos == log_bytes(ws.take(k), base).len()
            &&& t.pos == s.pos + enc.len()
            &&& t.pos <= bytes.len()
            &&& bytes.subrange(s.pos, t.pos) == enc
            &&& write_encoding(ws[k], s.next) is Ok
            &&& crate::log::recovery::write_valid(ws[k])
            &&& t.next == s.next + write_span(ws[k])
            &&& 0 <= s.next <= t.next <= u64::MAX
            &&& t.records == s.records + write_events(ws[k], s.next)
        }),
{
    lemma_log_prefix(ws, base, k);
    lemma_log_prefix(ws, base, k + 1);
    let upto = ws.take(k + 1);
    assert(upto.drop_last() =~= ws.take(k));
    assert(upto.last() == ws[k]);
    let a = log_bytes(ws.take(k), base);
    let b = log_bytes(upto, base);
    let bytes = log_bytes(ws, base);
    let s = state_after(ws.take(k), base);
    let enc = write_encoding(ws[k], s.next)->Ok_0;
    assert(b =~= a + enc);
    assert(bytes.take(b.len() as int) =~= b);
    assert(bytes.subrange(a.len() as int, b.len() as int) =~= enc) by {
        assert(bytes.take(b.len() as int).subrange(a.len() as int, b.len() as int) =~= bytes.subrange(
            a.len() as int,
            b.len() as int,
        ));
        assert(b.subrange(a.len() as int, b.len() as int) =~= enc);
    }
}

/// Record `i` of write `k` is record `next - base + i` of the log.
pub proof fn lemma_record_place(ws: Seq<LogWrite>, base: int, k: int, i: int)
    requires
        all_written(ws, base),
        0 <= k < ws.len(),
        0 <= i < write_span(ws[k]),
    ensures
        ({
            let s = state_after(ws.take(k), base);
            let all = state_after(ws, base).records;
            &&& s.next - base + i < all.len()
            &&& s.next >= base
            &&& all[s.next - base + i] == write_events(ws[k], s.next)[i]
        }),
{
    lemma_write_place(ws, base, k);
    lemma_records_prefix(ws, base, k + 1);
    lemma_log_prefix(ws, base, k);
    lemma_log_consecutive(ws.take(k), base);
    let s = state_after(ws.take(k), base);
    let t = state_after(ws.take(k + 1), base);
    let all = state_after(ws, base).records;
    assert(write_events(ws[k], s.next).len() == write_span(ws[k]));
    assert(t.records[s.records.len() + i] == write_events(ws[k], s.next)[i]);
    assert(all.take(t.records.len() as int) =~= t.records);
    assert(all[s.records.len() + i] == all.take(t.records.len() as int)[s.records.len() + i]);
}

/// A read that stands before write `k` reads what the filter yields from
/// there on.
#[verifier::rlimit(40)]
pub proof fn lemma_boundary_read(ws: Seq<LogWrite>, base: int, f: FilterView, k: int, w: WalkView, closed: bool, seg_end: u64)
    requires
        replay_setting(ws, base, f, seg_end),
        0 <= k <= ws.len(),
        at_boundary(w, f, state_after(ws.take(k), base).next),
    ensures
        reads_as(
            segment_read(log_bytes(ws, base), state_after(ws.take(k), base).pos, w, f, closed, seg_end),
            w,
            f,
            state_after(ws, base).records.skip(state_after(ws.take(k), base).next - base),
        ),
    decreases ws.len() - k, 1int, 0int,
{
    let bytes = log_bytes(ws, base);
    let s = state_after(ws.take(k), base);
    let all = state_after(ws, base).records;
    let records = all.skip(s.next - base);
    lemma_log_prefix(ws, base, k);
    lemma_log_consecutive(ws, base);
    lemma_log_consecutive(ws.take(k), base);
    if limit_reached(w, f) {
        lemma_limit_reads(bytes, s.pos, w, f, closed, seg_end, records);
    } else if k == ws.len() {
        reveal(settled);
        assert(ws.take(k) =~= ws);
        assert(bytes.skip(s.pos).len() == 0);
        assert(records.len() == 0);
        assert(chosen(f, records).take(0) =~= Seq::empty());
        assert(advance_of(w, f, bytes.skip(s.pos), true, closed, seg_end) is SegmentEnd);
    } else {
        lemma_write_place(ws, base, k);
        let t = state_after(ws.take(k + 1), base);
        lemma_records_prefix(ws, base, k);
        match ws[k] {
            LogWrite::System(event) => {
                lemma_whole_frame(bytes, s.pos, FrameKind::System, s.next as u64, event);
                let rec = crate::log::record::log_record(FrameKind::System, s.next as u64, event.0, event.1);
                lemma_advance_frame(w, f, bytes, s.pos, rec, t.pos - s.pos, closed, seg_end);
                lemma_boundary_read(ws, base, f, k + 1, w, closed, seg_end);
            },
            LogWrite::Event(event) => {
                lemma_whole_frame(bytes, s.pos, FrameKind::Event, s.next as u64, event);
                let rec = crate::log::record::log_record(FrameKind::Event, s.next as u64, event.0, event.1);
                lemma_record_place(ws, base, k, 0);
                assert(records[0] == rec);
                assert(records.skip(1) =~= all.skip(t.next - base));
                assert forall|i: int| 0 <= i < records.len() implies (#[trigger] records[i]).kind is Event && records[i].position
                    == rec.position + i by {
                    assert(records[i] == all[s.next - base + i]);
                }
                let next = WalkView { expected: w.expected + 1, ..w };
                let on = WalkView {
                    continuation: max_of(w.continuation, rec.position + 1),
                    yielded: if keeps(f, rec) {
                        w.yielded + 1
                    } else {
                        w.yielded
                    },
                    ..next
                };
                if rec.position < f.until {
                    lemma_boundary_read(ws, base, f, k + 1, on, closed, seg_end);
                }
                lemma_event_read(w, next, f, bytes, s.pos, rec, t.pos - s.pos, closed, seg_end, records);
            },
            LogWrite::Batch(events) => {
                let body = events_encoding(s.next, events)->Ok_0;
                let count = events.len() as u32;
                let digest = crc32c_of(body);
                let env = control_envelope(events[0].0, count, digest);
                let begin = control_encoding(FrameKind::BatchBegin, s.next, events[0].0, count, digest)->Ok_0;
                lemma_control_round_trip(count, digest);
                lemma_batch_begin_place(ws, base, k, events);
                let rec = crate::log::record::log_record(
                    FrameKind::BatchBegin,
                    s.next as u64,
                    env,
                    control_payload(count, digest),
                );
                lemma_advance_frame(w, f, bytes, s.pos, rec, begin.len() as int, closed, seg_end);
                assert(events.take(0) =~= Seq::empty());
                let inside = batch_walk(w, f, events, s.next, 0);
                assert(walk_frame(w, f, rec, bytes.subrange(s.pos, s.pos + begin.len())) == WalkStep::Skip(inside));
                lemma_batch_read(ws, base, f, k, events, 0, w, closed, seg_end);
            },
        }
    }
}

/// Where the begin frame of a batch lies.
pub proof fn lemma_batch_begin_place(ws: Seq<LogWrite>, base: int, k: int, events: Seq<EventView>)
    requires
        all_written(ws, base),
        log_bytes(ws, base).len() <= usize::MAX,
        0 <= k < ws.len(),
        ws[k] == LogWrite::Batch(events),
    ensures
        ({
            let s = state_after(ws.take(k), base);
            let bytes = log_bytes(ws, base);
            let count = events.len() as u32;
            let digest = crc32c_of(events_encoding(s.next, events)->Ok_0);
            let begin = control_encoding(FrameKind::BatchBegin, s.next, events[0].0, count, digest)->Ok_0;
            &&& s.pos <= bytes.len()
            &&& record_decoding(bytes.skip(s.pos)) == Ok::<Option<(RecordView, int)>, ErrorView>(
                Some(
                    (
                        crate::log::record::log_record(
                            FrameKind::BatchBegin,
                            s.next as u64,
                            control_envelope(events[0].0, count, digest),
                            control_payload(count, digest),
                        ),
                        begin.len() as int,
                    ),
                ),
            )
        }),
{
    let bytes = log_bytes(ws, base);
    let s = state_after(ws.take(k), base);
    let t = state_after(ws.take(k + 1), base);
    lemma_write_place(ws, base, k);
    assert(batch_valid(events));
    let count = events.len() as u32;
    let digest = crc32c_of(events_encoding(s.next, events)->Ok_0);
    let env = control_envelope(events[0].0, count, digest);
    let begin = control_encoding(FrameKind::BatchBegin, s.next, events[0].0, count, digest)->Ok_0;
    let whole = batch_encoding(s.next, events)->Ok_0;
    assert(events[0] == events[0]);
    lemma_control_valid(events[0].0, count, digest);
    assert(whole.subrange(0, begin.len() as int) =~= begin);
    assert(bytes.subrange(s.pos, s.pos + begin.len()) =~= bytes.subrange(s.pos, t.pos).subrange(0, begin.len() as int));
    lemma_whole_frame(bytes, s.pos, FrameKind::BatchBegin, s.next as u64, (env, control_payload(count, digest)));
}

/// Where the frame of event `j` of a batch lies.
pub proof fn lemma_batch_event_place(ws: Seq<LogWrite>, base: int, k: int, events: Seq<EventView>, j: int)
    requires
        all_written(ws, base),
        log_bytes(ws, base).len() <= usize::MAX,
        0 <= k < ws.len(),
        ws[k] == LogWrite::Batch(events),
        0 <= j < events.len(),
    ensures
        ({
            let s = state_after(ws.take(k), base);
            let bytes = log_bytes(ws, base);
            let begin = control_encoding(
                FrameKind::BatchBegin,
                s.next,
                events[0].0,
                events.len() as u32,
                crc32c_of(events_encoding(s.next, events)->Ok_0),
            )->Ok_0;
            let at = s.pos + begin.len() + events_encoding(s.next, events.take(j))->Ok_0.len();
            let frame = crate::log::record::record_encoding(FrameKind::Event, (s.next + j) as u64, events[j].0, events[j].1)->Ok_0;
            &&& at <= bytes.len()
            &&& bytes.subrange(at, at + frame.len()) == frame
            &&& record_decoding(bytes.skip(at)) == Ok::<Option<(RecordView, int)>, ErrorView>(
                Some(
                    (
                        crate::log::record::log_record(FrameKind::Event, (s.next + j) as u64, events[j].0, events[j].1),
                        frame.len() as int,
                    ),
                ),
            )
        }),
{
    let bytes = log_bytes(ws, base);
    let s = state_after(ws.take(k), base);
    let t = state_after(ws.take(k + 1), base);
    lemma_write_place(ws, base, k);
    assert(batch_valid(events));
    let body = events_encoding(s.next, events)->Ok_0;
    let count = events.len() as u32;
    let digest = crc32c_of(body);
    let begin = control_encoding(FrameKind::BatchBegin, s.next, events[0].0, count, digest)->Ok_0;
    let whole = batch_encoding(s.next, events)->Ok_0;
    let upto = events_encoding(s.next, events.take(j))->Ok_0;
    let at = s.pos + begin.len() + upto.len();
    lemma_event_frame(s.next, events, j);
    lemma_events_prefix(s.next, events, j + 1);
    let frame = crate::log::record::record_encoding(FrameKind::Event, (s.next + j) as u64, events[j].0, events[j].1)->Ok_0;
    let more = events_encoding(s.next, events.take(j + 1))->Ok_0;
    assert(body.take(more.len() as int) =~= more);
    assert(body.subrange(upto.len() as int, more.len() as int) =~= frame) by {
        assert(more.subrange(upto.len() as int, more.len() as int) =~= frame);
        assert(body.take(more.len() as int).subrange(upto.len() as int, more.len() as int) =~= body.subrange(
            upto.len() as int,
            more.len() as int,
        ));
    }
    assert(whole.subrange(begin.len() + upto.len() as int, begin.len() + more.len() as int) =~= body.subrange(
        upto.len() as int,
        more.len() as int,
    ));
    assert(bytes.subrange(at, at + frame.len()) =~= bytes.subrange(s.pos, t.pos).subrange(
        begin.len() + upto.len() as int,
        begin.len() + more.len() as int,
    ));
    lemma_whole_frame(bytes, at, FrameKind::Event, (s.next + j) as u64, events[j]);
}

/// Where the commit frame of a batch lies.
pub proof fn lemma_batch_commit_place(ws: Seq<LogWrite>, base: int, k: int, events: Seq<EventView>)
    requires
        all_written(ws, base),
        log_bytes(ws, base).len() <= usize::MAX,
        0 <= k < ws.len(),
        ws[k] == LogWrite::Batch(events),
    ensures
        ({
            let s = state_after(ws.take(k), base);
            let bytes = log_bytes(ws, base);
            let body = events_encoding(s.next, events)->Ok_0;
            let count = events.len() as u32;
            let digest = crc32c_of(body);
            let begin = control_encoding(FrameKind::BatchBegin, s.next, events[0].0, count, digest)->Ok_0;
            let commit = control_encoding(FrameKind::BatchCommit, s.next, events[0].0, count, digest)->Ok_0;
            let at = s.pos + begin.len() + body.len();
            &&& at + commit.len() == state_after(ws.take(k + 1), base).pos
            &&& at <= bytes.len()
            &&& record_decoding(bytes.skip(at)) == Ok::<Option<(RecordView, int)>, ErrorView>(
                Some(
                    (
                        crate::log::record::log_record(
                            FrameKind::BatchCommit,
                            s.next as u64,
                            control_envelope(events[0].0, count, digest),
                            control_payload(count, digest),
                        ),
                        commit.len() as int,
                    ),
                ),
            )
        }),
{
    let bytes = log_bytes(ws, base);
    let s = state_after(ws.take(k), base);
    let t = state_after(ws.take(k + 1), base);
    lemma_write_place(ws, base, k);
    assert(batch_valid(events));
    let body = events_encoding(s.next, events)->Ok_0;
    let count = events.len() as u32;
    let digest = crc32c_of(body);
    let env = control_envelope(events[0].0, count, digest);
    let begin = control_encoding(FrameKind::BatchBegin, s.next, events[0].0, count, digest)->Ok_0;
    let commit = control_encoding(FrameKind::BatchCommit, s.next, events[0].0, count, digest)->Ok_0;
    let whole = batch_encoding(s.next, events)->Ok_0;
    let at = s.pos + begin.len() + body.len();
    lemma_control_valid(events[0].0, count, digest);
    assert(whole.subrange(begin.len() + body.len() as int, whole.len() as int) =~= commit);
    assert(bytes.subrange(at, at + commit.len()) =~= bytes.subrange(s.pos, t.pos).subrange(
        begin.len() + body.len() as int,
        whole.len() as int,
    ));
    lemma_whole_frame(bytes, at, FrameKind::BatchCommit, s.next as u64, (env, control_payload(count, digest)));
}

/// A read inside a batch reads what the filter yields from there on.
#[verifier::rlimit(40)]
proof fn lemma_batch_read(
    ws: Seq<LogWrite>,
    base: int,
    f: FilterView,
    k: int,
    events: Seq<EventView>,
    j: int,
    w: WalkView,
    closed: bool,
    seg_end: u64,
)
    requires
        replay_setting(ws, base, f, seg_end),
        0 <= k < ws.len(),
        ws[k] == LogWrite::Batch(events),
        0 <= j <= events.len(),
        !w.finished,
        w.continuation <= max_of(f.from as int, state_after(ws.take(k), base).next + j),
        f.max_events matches Some(max) ==> w.yielded <= max,
    ensures
        ({
            let s = state_after(ws.take(k), base);
            let begin = control_encoding(
                FrameKind::BatchBegin,
                s.next,
                events[0].0,
                events.len() as u32,
                crc32c_of(events_encoding(s.next, events)->Ok_0),
            )->Ok_0;
            let upto = events_encoding(s.next, events.take(j))->Ok_0;
            reads_as(
                segment_read(
                    log_bytes(ws, base),
                    s.pos + begin.len() + upto.len(),
                    batch_walk(w, f, events, s.next, j),
                    f,
                    closed,
                    seg_end,
                ),
                w,
                f,
                state_after(ws, base).records.skip(s.next + j - base),
            )
        }),
    decreases ws.len() - k, 0int, events.len() - j,
{
    let bytes = log_bytes(ws, base);
    let s = state_after(ws.take(k), base);
    let t = state_after(ws.take(k + 1), base);
    let all = state_after(ws, base).records;
    let records = all.skip(s.next + j - base);
    lemma_write_place(ws, base, k);
    lemma_log_consecutive(ws, base);
    lemma_log_prefix(ws, base, k);
    lemma_log_consecutive(ws.take(k), base);
    let body = events_encoding(s.next, events)->Ok_0;
    let count = events.len() as u32;
    let digest = crc32c_of(body);
    let env = control_envelope(events[0].0, count, digest);
    let begin = control_encoding(FrameKind::BatchBegin, s.next, events[0].0, count, digest)->Ok_0;
    let commit = control_encoding(FrameKind::BatchCommit, s.next, events[0].0, count, digest)->Ok_0;
    let upto = events_encoding(s.next, events.take(j))->Ok_0;
    let here = batch_walk(w, f, events, s.next, j);
    let at = s.pos + begin.len() + upto.len();
    lemma_events_prefix(s.next, events, j);
    assert(batch_valid(events));
    let read = segment_read(bytes, at, here, f, closed, seg_end);
    if limit_reached(here, f) {
        lemma_limit_reads(bytes, at, here, f, closed, seg_end, records);
        lemma_reads_same(read, here, w, f, records);
    } else if j < events.len() {
        lemma_batch_event_place(ws, base, k, events, j);
        lemma_event_frame(s.next, events, j);
        let frame = crate::log::record::record_encoding(FrameKind::Event, (s.next + j) as u64, events[j].0, events[j].1)->Ok_0;
        let rec = crate::log::record::log_record(FrameKind::Event, (s.next + j) as u64, events[j].0, events[j].1);
        lemma_record_place(ws, base, k, j);
        assert(batch_records(events, s.next)[j] == rec);
        assert(records[0] == rec);
        assert(records.skip(1) =~= all.skip(s.next + j + 1 - base));
        assert forall|i: int| 0 <= i < records.len() implies (#[trigger] records[i]).kind is Event && records[i].position
            == rec.position + i by {
            assert(records[i] == all[s.next + j - base + i]);
        }
        let v = WalkView {
            continuation: max_of(w.continuation, rec.position + 1),
            yielded: if keeps(f, rec) {
                w.yielded + 1
            } else {
                w.yielded
            },
            ..w
        };
        let next = batch_walk(w, f, events, s.next, j + 1);
        assert(events[j].0.batch_id == events[0].0.batch_id);
        assert(walk_frame(here, f, rec, bytes.subrange(at, at + frame.len())) == crate::log::reader::walk_filter(next, f, rec));
        if rec.position < f.until {
            lemma_batch_read(ws, base, f, k, events, j + 1, v, closed, seg_end);
            let on = WalkView { continuation: v.continuation, yielded: v.yielded, ..next };
            assert(batch_walk(v, f, events, s.next, j + 1) == on);
            lemma_reads_same(segment_read(bytes, at + frame.len(), on, f, closed, seg_end), v, on, f, records.skip(1));
        }
        lemma_event_read(here, next, f, bytes, at, rec, frame.len() as int, closed, seg_end, records);
        lemma_reads_same(read, here, w, f, records);
    } else {
        assert(events.take(j) =~= events);
        lemma_control_round_trip(count, digest);
        lemma_batch_commit_place(ws, base, k, events);
        let rec = crate::log::record::log_record(FrameKind::BatchCommit, s.next as u64, env, control_payload(count, digest));
        lemma_advance_frame(here, f, bytes, at, rec, commit.len() as int, closed, seg_end);
        let done = WalkView { expected: t.next, batch: None, ..w };
        assert(walk_frame(here, f, rec, bytes.subrange(at, at + commit.len())) == WalkStep::Skip(done));
        lemma_boundary_read(ws, base, f, k + 1, done, closed, seg_end);
        lemma_reads_same(read, done, w, f, records);
    }
}

/// Reading what was written. A segment of the writes `ws` that is read from its
/// start yields exactly the events that the filter selects, in order; with a
/// maximum it yields the first so many and is resumed behind the last of them.
pub proof fn lemma_read_written(ws: Seq<LogWrite>, base: int, f: FilterView, closed: bool, seg_end: u64)
    requires
        all_written(ws, base),
        log_bytes(ws, base).len() <= usize::MAX,
        f.kinds is UserEvents,
        seg_end <= state_after(ws, base).next,
    ensures
        ({
            let w = crate::log::reader::walk_enter(crate::log::reader::walk_start(f.from), base as u64);
            reads_as(segment_read(log_bytes(ws, base), 0, w, f, closed, seg_end), w, f, state_after(ws, base).records)
        }),
{
    let w = crate::log::reader::walk_enter(crate::log::reader::walk_start(f.from), base as u64);
    assert(ws.take(0) =~= Seq::empty());
    lemma_log_prefix(ws, base, 0);
    let all = state_after(ws, base).records;
    assert(all.skip(0) =~= all);
    lemma_boundary_read(ws, base, f, 0, w, closed, seg_end);
}

/// The filter that goes on from `from`.
pub open spec fn resumed(f: FilterView, from: u64) -> FilterView {
    FilterView { from, ..f }
}

/// What is chosen from `records` when the first of them lies below `from`.
proof fn lemma_chosen_resumed(f: FilterView, records: Seq<RecordView>, base: int, from: u64)
    requires
        consecutive(records, base),
        f.kinds is UserEvents,
        f.from <= from,
        base >= from,
    ensures
        chosen(resumed(f, from), records) == chosen(f, records),
    decreases records.len(),
{
    if records.len() > 0 {
        assert(records[0].position == base);
        assert forall|i: int| 0 <= i < records.skip(1).len() implies (#[trigger] records.skip(1)[i]).kind is Event && records.skip(
            1,
        )[i].position == base + 1 + i by {
            assert(records.skip(1)[i] == records[i + 1]);
        }
        lemma_chosen_resumed(f, records.skip(1), base + 1, from);
    }
}

/// Paging. Where a read yields the first `n` records that the filter selects, a
/// second read from behind the last of them selects exactly the others: no
/// record is lost and none comes twice.
pub proof fn lemma_paging(f: FilterView, records: Seq<RecordView>, base: int, n: int)
    requires
        consecutive(records, base),
        f.kinds is UserEvents,
        0 < n <= chosen(f, records).len(),
        chosen(f, records)[n - 1].position < u64::MAX,
    ensures
        chosen(resumed(f, (chosen(f, records)[n - 1].position + 1) as u64), records) == chosen(f, records).skip(n),
    decreases records.len(),
{
    let all = chosen(f, records);
    let from = (all[n - 1].position + 1) as u64;
    let g = resumed(f, from);
    if records.len() > 0 {
        let rest = records.skip(1);
        assert(records[0].position == base);
        assert forall|i: int| 0 <= i < rest.len() implies (#[trigger] rest[i]).kind is Event && rest[i].position == base + 1 + i by {
            assert(rest[i] == records[i + 1]);
        }
        lemma_chosen_within(f, rest, base + 1);
        if keeps(f, records[0]) {
            assert(all == seq![records[0]] + chosen(f, rest));
            if n == 1 {
                assert(all[0] == records[0]);
                lemma_chosen_resumed(f, rest, base + 1, from);
                assert(all.skip(1) =~= chosen(f, rest));
                assert(!keeps(g, records[0]));
            } else {
                assert(all[n - 1] == chosen(f, rest)[n - 2]);
                assert(chosen(f, rest)[n - 2].position >= base + 1);
                lemma_paging(f, rest, base + 1, n - 1);
                assert(all.skip(n) =~= chosen(f, rest).skip(n - 1));
                assert(!keeps(g, records[0]));
            }
        } else {
            assert(all == chosen(f, rest));
            lemma_paging(f, rest, base + 1, n);
            assert(!keeps(g, records[0]));
        }
    }
}

/// What is chosen stands at positions from `base` on.
proof fn lemma_chosen_within(f: FilterView, records: Seq<RecordView>, base: int)
    requires
        consecutive(records, base),
    ensures
        forall|i: int| 0 <= i < chosen(f, records).len() ==> (#[trigger] chosen(f, records)[i]).position >= base && keeps(
            f,
            chosen(f, records)[i],
        ),
    decreases records.len(),
{
    if records.len() > 0 {
        let rest = records.skip(1);
        assert(records[0].position == base);
        assert forall|i: int| 0 <= i < rest.len() implies (#[trigger] rest[i]).kind is Event && rest[i].position == base + 1 + i by {
            assert(rest[i] == records[i + 1]);
        }
        lemma_chosen_within(f, rest, base + 1);
    }
}

} // verus!
