//! What a read of system records promises: it yields the system records of the
//! segments that it looks at, in order, and those that it skips hold none.
use crate::checksum::crc32c_of;
use crate::error::ErrorView;
use crate::format::frame::{FrameKind, RecordView};
use crate::log::reader::{advance_of, entry_of, limit_reached, max_of, walk_enter, walk_filter, walk_frame, walk_start, WalkStep, WalkView};
use crate::log::record::{log_record, record_encoding};
use crate::log::recovery::{
    after_write, all_written, batch_valid, lemma_event_frame, lemma_events_prefix, lemma_log_prefix, lemma_whole_frame, log_bytes,
    state_after, write_system, LogWrite,
};
use crate::log::replay::{
    batch_walk, lemma_advance_frame, lemma_batch_begin_place, lemma_batch_commit_place, lemma_batch_event_place, lemma_limit_stops,
    lemma_log_consecutive, lemma_write_place, segment_read,
};
use crate::log::segment::{control_encoding, control_envelope, control_payload, events_encoding, lemma_control_round_trip, EventView};
use crate::log::select::{lemma_skip_sound, passes, FilterView};
use crate::log::sidecar::lemma_sidecar_covers;
use crate::log::whole::{entries_for, lemma_bases, lemma_parts_rest, log_read, parts_hold, PartView};
use vstd::prelude::*;

verus! {

/// The system records that a filter yields, in order.
pub open spec fn system_chosen(f: FilterView, records: Seq<RecordView>) -> Seq<RecordView> {
    records.filter(|rec: RecordView| passes(f, rec.kind, rec.position, rec.envelope))
}

/// Whether a filter yields every system record.
pub open spec fn asks_all(f: FilterView) -> bool {
    f.selector is All && f.scopes is None && f.time is None
}

/// Whether a read came to what `f` yields of the system records `records`: to
/// all of it, or, where a maximum was reached, to that many.
pub open spec fn reads_system(
    result: core::result::Result<(Seq<RecordView>, WalkView), ErrorView>,
    w: WalkView,
    f: FilterView,
    records: Seq<RecordView>,
) -> bool {
    let all = system_chosen(f, records);
    match result {
        Err(_) => false,
        Ok((out, last)) => {
            &&& last.yielded == w.yielded + out.len()
            &&& match f.max_events {
                None => out == all,
                Some(max) => if all.len() < max - w.yielded {
                    out == all
                } else {
                    out == all.take(max - w.yielded)
                },
            }
        },
    }
}

/// Whether a read of a segment goes on behind it, but for a maximum.
pub open spec fn left_open(result: core::result::Result<(Seq<RecordView>, WalkView), ErrorView>, f: FilterView) -> bool {
    result matches Ok((_, last)) && (last.finished ==> limit_reached(last, f))
}

/// What must hold of a segment and of a filter for its system records.
pub open spec fn system_setting(ws: Seq<LogWrite>, base: int, f: FilterView, seg_end: u64) -> bool {
    &&& all_written(ws, base)
    &&& log_bytes(ws, base).len() <= usize::MAX
    &&& f.kinds is SystemOnly
    &&& seg_end <= state_after(ws, base).next <= f.until
}

/// What is chosen of one list after another.
proof fn lemma_chosen_joined(f: FilterView, a: Seq<RecordView>, b: Seq<RecordView>)
    ensures
        system_chosen(f, a + b) == system_chosen(f, a) + system_chosen(f, b),
{
    Seq::filter_distributes_over_add(a, b, |rec: RecordView| passes(f, rec.kind, rec.position, rec.envelope));
}

/// What is chosen of a single record.
proof fn lemma_chosen_one(f: FilterView, rec: RecordView)
    ensures
        system_chosen(f, seq![rec]) == if passes(f, rec.kind, rec.position, rec.envelope) {
            seq![rec]
        } else {
            Seq::empty()
        },
{
    let one = seq![rec];
    let p = |rec: RecordView| passes(f, rec.kind, rec.position, rec.envelope);
    reveal(Seq::filter);
    assert(one.drop_last() =~= Seq::empty());
    assert(one.drop_last().filter(p) =~= Seq::empty());
    assert(Seq::<RecordView>::empty().push(rec) =~= one);
}

/// The system records of the first writes come before those of the next one,
/// and before those of all.
proof fn lemma_system_place(ws: Seq<LogWrite>, base: int, k: int)
    requires
        0 <= k <= ws.len(),
    ensures
        state_after(ws.take(k), base).system.is_prefix_of(state_after(ws, base).system),
        k < ws.len() ==> state_after(ws.take(k + 1), base).system == state_after(ws.take(k), base).system + write_system(
            ws[k],
            state_after(ws.take(k), base).next,
        ),
    decreases ws.len(),
{
    if k == ws.len() {
        assert(ws.take(k) =~= ws);
        let r = state_after(ws, base).system;
        assert(r =~= r.take(r.len() as int));
    } else {
        lemma_system_place(ws.drop_last(), base, k);
        assert(ws.drop_last().take(k) =~= ws.take(k));
        let a = state_after(ws.take(k), base).system;
        let b = state_after(ws.drop_last(), base).system;
        let c = state_after(ws, base).system;
        assert(b.take(a.len() as int) =~= a);
        assert(c.take(a.len() as int) =~= a);
        assert(ws.take(k + 1).drop_last() =~= ws.take(k));
        assert(ws.take(k + 1).last() == ws[k]);
    }
}

/// A batch is passed over.
#[verifier::rlimit(40)]
proof fn lemma_batch_passed(
    ws: Seq<LogWrite>,
    base: int,
    f: FilterView,
    k: int,
    events: Seq<EventView>,
    j: int,
    w: WalkView,
    closed: bool,
    seg_end: u64,
) -> (done: WalkView)
    requires
        system_setting(ws, base, f, seg_end),
        0 <= k < ws.len(),
        ws[k] == LogWrite::Batch(events),
        0 <= j <= events.len(),
        !w.finished,
        !limit_reached(w, f),
    ensures
        !done.finished,
        done.batch is None,
        done.expected == state_after(ws.take(k + 1), base).next,
        done.yielded == w.yielded,
        ({
            let s = state_after(ws.take(k), base);
            let begin = control_encoding(
                FrameKind::BatchBegin,
                s.next,
                events[0].0,
                events.len() as u32,
                crc32c_of(events_encoding(s.next, events)->Ok_0),
            )->Ok_0;
            let upto = events_encoding(s.next, events.take(j))->Ok_0;
            segment_read(
                log_bytes(ws, base),
                s.pos + begin.len() + upto.len(),
                batch_walk(w, f, events, s.next, j),
                f,
                closed,
                seg_end,
            ) == segment_read(log_bytes(ws, base), state_after(ws.take(k + 1), base).pos, done, f, closed, seg_end)
        }),
    decreases events.len() - j,
{
    let bytes = log_bytes(ws, base);
    let s = state_after(ws.take(k), base);
    let t = state_after(ws.take(k + 1), base);
    lemma_write_place(ws, base, k);
    lemma_log_prefix(ws, base, k + 1);
    lemma_log_consecutive(ws, base);
    lemma_log_consecutive(ws.take(k + 1), base);
    crate::log::replay::lemma_records_prefix(ws, base, k + 1);
    let body = events_encoding(s.next, events)->Ok_0;
    let count = events.len() as u32;
    let digest = crc32c_of(body);
    let env = control_envelope(events[0].0, count, digest);
    let begin = control_encoding(FrameKind::BatchBegin, s.next, events[0].0, count, digest)->Ok_0;
    let commit = control_encoding(FrameKind::BatchCommit, s.next, events[0].0, count, digest)->Ok_0;
    let upto = events_encoding(s.next, events.take(j))->Ok_0;
    let here = batch_walk(w, f, events, s.next, j);
    let at = s.pos + begin.len() + upto.len();
    lemma_events_prefix(s.next, events, j);
    assert(batch_valid(events));
    if j < events.len() {
        lemma_batch_event_place(ws, base, k, events, j);
        lemma_event_frame(s.next, events, j);
        let frame = record_encoding(FrameKind::Event, (s.next + j) as u64, events[j].0, events[j].1)->Ok_0;
        let rec = log_record(FrameKind::Event, (s.next + j) as u64, events[j].0, events[j].1);
        let next = batch_walk(w, f, events, s.next, j + 1);
        assert(events[j].0.batch_id == events[0].0.batch_id);
        lemma_advance_frame(here, f, bytes, at, rec, frame.len() as int, closed, seg_end);
        assert(walk_frame(here, f, rec, bytes.subrange(at, at + frame.len())) == walk_filter(next, f, rec));
        let v = WalkView { continuation: max_of(w.continuation, rec.position + 1), ..w };
        assert(rec.position < f.until);
        assert(walk_filter(next, f, rec) == WalkStep::Skip(batch_walk(v, f, events, s.next, j + 1)));
        lemma_batch_passed(ws, base, f, k, events, j + 1, v, closed, seg_end)
    } else {
        assert(events.take(j) =~= events);
        lemma_control_round_trip(count, digest);
        lemma_batch_commit_place(ws, base, k, events);
        let rec = log_record(FrameKind::BatchCommit, s.next as u64, env, control_payload(count, digest));
        lemma_advance_frame(here, f, bytes, at, rec, commit.len() as int, closed, seg_end);
        let done = WalkView { expected: t.next, batch: None, ..w };
        assert(walk_frame(here, f, rec, bytes.subrange(at, at + commit.len())) == WalkStep::Skip(done));
        done
    }
}

/// A read that stands before write `k` reads the system records from there on.
#[verifier::rlimit(40)]
proof fn lemma_system_boundary(ws: Seq<LogWrite>, base: int, f: FilterView, k: int, w: WalkView, closed: bool, seg_end: u64)
    requires
        system_setting(ws, base, f, seg_end),
        0 <= k <= ws.len(),
        !w.finished,
        w.batch is None,
        w.expected == state_after(ws.take(k), base).next,
        f.max_events matches Some(max) ==> w.yielded <= max,
    ensures
        reads_system(
            segment_read(log_bytes(ws, base), state_after(ws.take(k), base).pos, w, f, closed, seg_end),
            w,
            f,
            state_after(ws, base).system.skip(state_after(ws.take(k), base).system.len() as int),
        ),
        left_open(segment_read(log_bytes(ws, base), state_after(ws.take(k), base).pos, w, f, closed, seg_end), f),
    decreases ws.len() - k,
{
    let bytes = log_bytes(ws, base);
    let s = state_after(ws.take(k), base);
    let all = state_after(ws, base).system;
    let records = all.skip(s.system.len() as int);
    let picked = system_chosen(f, records);
    lemma_log_prefix(ws, base, k);
    lemma_system_place(ws, base, k);
    if limit_reached(w, f) {
        lemma_limit_stops(bytes, s.pos, w, f, closed, seg_end);
        assert(picked.take(0) =~= Seq::empty());
    } else if k == ws.len() {
        assert(ws.take(k) =~= ws);
        assert(records =~= Seq::empty());
        reveal(Seq::filter);
        assert(picked =~= Seq::empty());
        assert(bytes.skip(s.pos).len() == 0);
        assert(advance_of(w, f, bytes.skip(s.pos), true, closed, seg_end) is SegmentEnd);
    } else {
        lemma_write_place(ws, base, k);
        lemma_system_place(ws, base, k + 1);
        lemma_log_prefix(ws, base, k + 1);
        lemma_log_consecutive(ws, base);
        lemma_log_consecutive(ws.take(k + 1), base);
        crate::log::replay::lemma_records_prefix(ws, base, k + 1);
        let t = state_after(ws.take(k + 1), base);
        match ws[k] {
            LogWrite::System(event) => {
                lemma_whole_frame(bytes, s.pos, FrameKind::System, s.next as u64, event);
                let rec = log_record(FrameKind::System, s.next as u64, event.0, event.1);
                lemma_advance_frame(w, f, bytes, s.pos, rec, t.pos - s.pos, closed, seg_end);
                let rest = all.skip(t.system.len() as int);
                assert(all.take(t.system.len() as int) =~= t.system);
                assert(all[s.system.len() as int] == t.system[s.system.len() as int]);
                assert(records =~= seq![rec] + rest);
                lemma_chosen_joined(f, seq![rec], rest);
                lemma_chosen_one(f, rec);
                let later = system_chosen(f, rest);
                if passes(f, rec.kind, rec.position, rec.envelope) {
                    let next = WalkView { yielded: w.yielded + 1, ..w };
                    lemma_system_boundary(ws, base, f, k + 1, next, closed, seg_end);
                    match f.max_events {
                        None => {},
                        Some(max) => {
                            let budget = max - w.yielded;
                            if picked.len() >= budget {
                                assert(picked.take(budget) =~= seq![rec] + later.take(budget - 1));
                            }
                        },
                    }
                } else {
                    assert(Seq::<RecordView>::empty() + later =~= later);
                    lemma_system_boundary(ws, base, f, k + 1, w, closed, seg_end);
                }
            },
            LogWrite::Event(event) => {
                lemma_whole_frame(bytes, s.pos, FrameKind::Event, s.next as u64, event);
                let rec = log_record(FrameKind::Event, s.next as u64, event.0, event.1);
                lemma_advance_frame(w, f, bytes, s.pos, rec, t.pos - s.pos, closed, seg_end);
                assert(t.system =~= s.system);
                let on = WalkView { expected: w.expected + 1, continuation: max_of(w.continuation, rec.position + 1), ..w };
                assert(walk_frame(w, f, rec, bytes.subrange(s.pos, t.pos)) == WalkStep::Skip(on));
                lemma_system_boundary(ws, base, f, k + 1, on, closed, seg_end);
            },
            LogWrite::Batch(events) => {
                let body = events_encoding(s.next, events)->Ok_0;
                let count = events.len() as u32;
                let digest = crc32c_of(body);
                let env = control_envelope(events[0].0, count, digest);
                let begin = control_encoding(FrameKind::BatchBegin, s.next, events[0].0, count, digest)->Ok_0;
                lemma_control_round_trip(count, digest);
                lemma_batch_begin_place(ws, base, k, events);
                let rec = log_record(FrameKind::BatchBegin, s.next as u64, env, control_payload(count, digest));
                lemma_advance_frame(w, f, bytes, s.pos, rec, begin.len() as int, closed, seg_end);
                assert(events.take(0) =~= Seq::empty());
                let inside = batch_walk(w, f, events, s.next, 0);
                assert(walk_frame(w, f, rec, bytes.subrange(s.pos, s.pos + begin.len())) == WalkStep::Skip(inside));
                let done = lemma_batch_passed(ws, base, f, k, events, 0, w, closed, seg_end);
                assert(t.system =~= s.system);
                lemma_system_boundary(ws, base, f, k + 1, done, closed, seg_end);
            },
        }
    }
}

/// Reading what system records were written. A segment of the writes `ws` that
/// is read from its start yields exactly the system records that the filter
/// selects, in order; with a maximum it yields the first so many.
pub proof fn lemma_system_read_written(ws: Seq<LogWrite>, base: int, f: FilterView, closed: bool, seg_end: u64)
    requires
        system_setting(ws, base, f, seg_end),
    ensures
        ({
            let w = walk_enter(walk_start(f.from), base as u64);
            reads_system(segment_read(log_bytes(ws, base), 0, w, f, closed, seg_end), w, f, state_after(ws, base).system)
        }),
{
    let w = walk_enter(walk_start(f.from), base as u64);
    let all = state_after(ws, base).system;
    assert(ws.take(0) =~= Seq::empty());
    lemma_log_prefix(ws, base, 0);
    assert(all.skip(0) =~= all);
    lemma_system_boundary(ws, base, f, 0, w, closed, seg_end);
}

/// The system records of segments, in order.
pub open spec fn parts_system(parts: Seq<PartView>, wss: Seq<Seq<LogWrite>>) -> Seq<RecordView>
    decreases parts.len(),
{
    if parts.len() == 0 {
        Seq::empty()
    } else {
        state_after(wss[0], parts[0].base as int).system + parts_system(parts.skip(1), wss.skip(1))
    }
}

/// A read that stands before segments reads the system records of them.
proof fn lemma_parts_system_read(
    parts: Seq<PartView>,
    wss: Seq<Seq<LogWrite>>,
    entries: Seq<Option<(u64, u64)>>,
    w: WalkView,
    f: FilterView,
    head: u64,
)
    requires
        parts_hold(parts, wss),
        entries_for(parts, entries, f),
        f.kinds is SystemOnly,
        forall|i: int| 0 <= i < parts.len() ==> f.from <= (#[trigger] parts[i]).base && parts[i].end <= f.until,
        !w.finished,
        f.max_events matches Some(max) ==> w.yielded <= max,
    ensures
        reads_system(log_read(parts, entries, w, f, head), w, f, parts_system(parts, wss)),
    decreases parts.len(),
{
    let records = parts_system(parts, wss);
    let all = system_chosen(f, records);
    if limit_reached(w, f) {
        assert(all.take(0) =~= Seq::empty());
    } else if parts.len() == 0 {
        reveal(Seq::filter);
        assert(all =~= Seq::empty());
    } else {
        let base = parts[0].base as int;
        let here = state_after(wss[0], base).system;
        let later = parts_system(parts.skip(1), wss.skip(1));
        lemma_parts_rest(parts, wss);
        lemma_chosen_joined(f, here, later);
        assert(entry_of(f, parts[0].base, parts[0].sidecar, entries[0]));
        assert forall|i: int| 0 <= i < parts.skip(1).len() implies entry_of(
            f,
            (#[trigger] parts.skip(1)[i]).base,
            parts.skip(1)[i].sidecar,
            entries.skip(1)[i],
        ) by {
            assert(parts.skip(1)[i] == parts[i + 1]);
            assert(entries.skip(1)[i] == entries[i + 1]);
        }
        assert forall|i: int| 0 <= i < parts.skip(1).len() implies f.from <= (#[trigger] parts.skip(1)[i]).base && parts.skip(1)[i].end
            <= f.until by {
            assert(parts.skip(1)[i] == parts[i + 1]);
        }
        let got = system_chosen(f, here);
        match entries[0] {
            None => {
                lemma_sidecar_covers(wss[0], base);
                lemma_skip_sound(f, parts[0].sidecar->0, state_after(wss[0], base).records, here.len() as int);
                assert(here =~= Seq::empty());
                reveal(Seq::filter);
                assert(got =~= Seq::empty());
                assert(all =~= system_chosen(f, later));
                lemma_parts_system_read(parts.skip(1), wss.skip(1), entries.skip(1), w, f, head);
            },
            Some(entry) => {
                assert(entry == (parts[0].base, 0u64));
                let v = walk_enter(w, parts[0].base);
                assert(wss[0].take(0) =~= Seq::empty());
                lemma_log_prefix(wss[0], base, 0);
                assert(here.skip(0) =~= here);
                lemma_system_boundary(wss[0], base, f, 0, v, parts[0].closed, parts[0].end);
                let (out, next) = segment_read(parts[0].bytes, 0, v, f, parts[0].closed, parts[0].end)->Ok_0;
                if limit_reached(next, f) {
                    let budget = f.max_events->0 - w.yielded;
                    assert(out + Seq::<RecordView>::empty() =~= out);
                    assert(got.len() >= budget);
                    assert(all.take(budget) =~= got.take(budget));
                } else {
                    assert(out == got);
                    lemma_parts_system_read(parts.skip(1), wss.skip(1), entries.skip(1), next, f, head);
                    match f.max_events {
                        None => {},
                        Some(max) => {
                            let budget = max - w.yielded;
                            if all.len() >= budget {
                                assert(all.take(budget) =~= got + system_chosen(f, later).take(budget - got.len()));
                            }
                        },
                    }
                }
            },
        }
    }
}

/// System records are told as such.
proof fn lemma_system_kind(ws: Seq<LogWrite>, base: int)
    ensures
        forall|i: int| 0 <= i < state_after(ws, base).system.len() ==> (#[trigger] state_after(ws, base).system[i]).kind is System,
    decreases ws.len(),
{
    if ws.len() > 0 {
        lemma_system_kind(ws.drop_last(), base);
        let s = state_after(ws.drop_last(), base);
        let t = after_write(s, ws.last());
        assert forall|i: int| 0 <= i < t.system.len() implies (#[trigger] t.system[i]).kind is System by {
            if i < s.system.len() {
                assert(t.system[i] == s.system[i]);
            }
        }
    }
}

/// A filter that asks for every system record yields them all.
proof fn lemma_all_chosen(f: FilterView, records: Seq<RecordView>)
    requires
        asks_all(f),
        f.kinds is SystemOnly,
        forall|i: int| 0 <= i < records.len() ==> (#[trigger] records[i]).kind is System,
    ensures
        system_chosen(f, records) == records,
    decreases records.len(),
{
    reveal(Seq::filter);
    if records.len() > 0 {
        let front = records.drop_last();
        assert forall|i: int| 0 <= i < front.len() implies (#[trigger] front[i]).kind is System by {
            assert(front[i] == records[i]);
        }
        lemma_all_chosen(f, front);
        assert(records.last() == records[records.len() - 1]);
        assert(front.push(records.last()) =~= records);
    }
}

proof fn lemma_parts_kind(parts: Seq<PartView>, wss: Seq<Seq<LogWrite>>)
    requires
        parts_hold(parts, wss),
    ensures
        forall|i: int| 0 <= i < parts_system(parts, wss).len() ==> (#[trigger] parts_system(parts, wss)[i]).kind is System,
    decreases parts.len(),
{
    if parts.len() > 0 {
        lemma_parts_rest(parts, wss);
        lemma_system_kind(wss[0], parts[0].base as int);
        lemma_parts_kind(parts.skip(1), wss.skip(1));
        let here = state_after(wss[0], parts[0].base as int).system;
        let later = parts_system(parts.skip(1), wss.skip(1));
        let all = parts_system(parts, wss);
        assert forall|i: int| 0 <= i < all.len() implies (#[trigger] all[i]).kind is System by {
            if i < here.len() {
                assert(all[i] == here[i]);
            } else {
                assert(all[i] == later[i - here.len()]);
            }
        }
    }
}

/// Reading the system records of a log. A read that begins with the log and
/// ends with it or behind it passes over the segments whose sidecars count no
/// system record and reads the others from their start. It yields exactly the
/// system records of the log that its filter selects, in order, and all of them
/// where it asks for all; with a maximum it yields the first so many.
pub proof fn lemma_system_log_read(parts: Seq<PartView>, wss: Seq<Seq<LogWrite>>, entries: Seq<Option<(u64, u64)>>, f: FilterView)
    requires
        parts.len() > 0,
        parts_hold(parts, wss),
        entries_for(parts, entries, f),
        f.kinds is SystemOnly,
        f.from <= parts[0].base,
        parts.last().end <= f.until,
    ensures
        reads_system(
            log_read(parts, entries, walk_start(f.from), f, parts.last().end),
            walk_start(f.from),
            f,
            parts_system(parts, wss),
        ),
        asks_all(f) ==> system_chosen(f, parts_system(parts, wss)) == parts_system(parts, wss),
{
    let n = parts.len() - 1;
    assert forall|i: int| 0 <= i < parts.len() implies f.from <= (#[trigger] parts[i]).base && parts[i].end <= f.until by {
        lemma_bases(parts, wss, 0, i);
        lemma_bases(parts, wss, i, n);
        lemma_bases(parts, wss, n, n);
    }
    lemma_parts_system_read(parts, wss, entries, walk_start(f.from), f, parts.last().end);
    lemma_parts_kind(parts, wss);
    if asks_all(f) {
        lemma_all_chosen(f, parts_system(parts, wss));
    }
}

} // verus!
