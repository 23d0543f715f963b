//! What a read of a whole log promises: whatever its segments are, whichever of
//! them are skipped and wherever they are entered, a read yields exactly the
//! events that its filter selects, in order.
use crate::error::ErrorView;
use crate::format::frame::RecordView;
use crate::log::index::SidecarView;
use crate::log::reader::{entry_of, limit_reached, max_of, walk_enter, walk_exhausted, walk_start, WalkView};
use crate::log::recovery::{all_written, lemma_log_prefix, log_bytes, state_after, LogWrite};
use crate::log::replay::{
    chosen, consecutive, keeps, lemma_boundary_read, lemma_log_consecutive, reads_as, segment_read, settled,
};
use crate::log::select::{lemma_range_covers, lemma_skip_sound, range_selected, segment_end, FilterView};
use crate::log::sidecar::{lemma_seek_read, lemma_sidecar_covers, sidecar_of};
use vstd::prelude::*;

verus! {

/// A segment as a read meets it: where it begins and ends, whether it is
/// closed, its sidecar where there is one, and its bytes.
#[verifier::ext_equal]
pub struct PartView {
    pub base: u64,
    pub end: u64,
    pub closed: bool,
    pub sidecar: Option<SidecarView>,
    pub bytes: Seq<u8>,
}

/// A read of segments, one after the other: each is skipped or entered at its
/// place in `entries`, a position and a byte, and read to its end, until the
/// read is over. `head` is where the log ends.
pub open spec fn log_read(parts: Seq<PartView>, entries: Seq<Option<(u64, u64)>>, w: WalkView, f: FilterView, head: u64) -> core::result::Result<
    (Seq<RecordView>, WalkView),
    ErrorView,
>
    decreases parts.len(),
{
    if w.finished || limit_reached(w, f) {
        Ok((Seq::empty(), w))
    } else if parts.len() == 0 {
        Ok((Seq::empty(), walk_exhausted(w, f, head)))
    } else {
        match entries[0] {
            None => log_read(parts.skip(1), entries.skip(1), w, f, head),
            Some((position, byte)) => match segment_read(
                parts[0].bytes,
                byte as int,
                walk_enter(w, position),
                f,
                parts[0].closed,
                parts[0].end,
            ) {
                Err(e) => Err(e),
                Ok((out, next)) => match log_read(parts.skip(1), entries.skip(1), next, f, head) {
                    Err(e) => Err(e),
                    Ok((rest, last)) => Ok((out + rest, last)),
                },
            },
        }
    }
}

/// Whether a segment holds the writes `ws` and nothing else, ends where they
/// end, and has a sidecar of its own or none.
pub open spec fn part_holds(part: PartView, ws: Seq<LogWrite>) -> bool {
    &&& all_written(ws, part.base as int)
    &&& part.bytes == log_bytes(ws, part.base as int)
    &&& part.bytes.len() <= usize::MAX
    &&& part.end == state_after(ws, part.base as int).next
    &&& part.sidecar matches Some(s) ==> sidecar_of(part.bytes, part.base) == Ok::<SidecarView, ErrorView>(s)
}

/// Whether segments hold the writes `wss`, each beginning where the one before
/// it ends.
pub open spec fn parts_hold(parts: Seq<PartView>, wss: Seq<Seq<LogWrite>>) -> bool {
    &&& parts.len() == wss.len()
    &&& forall|i: int| 0 <= i < parts.len() ==> part_holds(#[trigger] parts[i], wss[i])
    &&& forall|i: int, j: int| 0 <= i && j == i + 1 && j < parts.len() ==> (#[trigger] parts[i]).end == (#[trigger] parts[j]).base
}

/// Whether the entries are those that a filter makes for its segments.
pub open spec fn entries_for(parts: Seq<PartView>, entries: Seq<Option<(u64, u64)>>, f: FilterView) -> bool {
    &&& entries.len() == parts.len()
    &&& forall|i: int| 0 <= i < parts.len() ==> entry_of(f, (#[trigger] parts[i]).base, parts[i].sidecar, entries[i])
}

/// The events of segments, in order.
pub open spec fn parts_records(parts: Seq<PartView>, wss: Seq<Seq<LogWrite>>) -> Seq<RecordView>
    decreases parts.len(),
{
    if parts.len() == 0 {
        Seq::empty()
    } else {
        state_after(wss[0], parts[0].base as int).records + parts_records(parts.skip(1), wss.skip(1))
    }
}

/// Whether a whole read came to what `f` yields of `records`: to all of it, and
/// it goes on at the end, or, where a maximum was reached, to that many, and it
/// goes on behind the last.
pub open spec fn reads_whole(
    result: core::result::Result<(Seq<RecordView>, WalkView), ErrorView>,
    w: WalkView,
    f: FilterView,
    records: Seq<RecordView>,
    head: u64,
) -> bool {
    let all = chosen(f, records);
    let through = |last: WalkView| f.until <= last.continuation || head <= last.continuation;
    match result {
        Err(_) => false,
        Ok((out, last)) => match f.max_events {
            None => out == all && through(last),
            Some(max) => {
                let budget = max - w.yielded;
                if all.len() < budget {
                    out == all && through(last)
                } else {
                    out == all.take(budget) && (budget > 0 ==> last.continuation == all[budget - 1].position + 1)
                }
            },
        },
    }
}

/// What is chosen of one list after another.
proof fn lemma_chosen_add(f: FilterView, a: Seq<RecordView>, b: Seq<RecordView>)
    ensures
        chosen(f, a + b) == chosen(f, a) + chosen(f, b),
    decreases a.len(),
{
    if a.len() == 0 {
        assert(a + b =~= b);
        assert(chosen(f, a) + chosen(f, b) =~= chosen(f, b));
    } else {
        assert((a + b).skip(1) =~= a.skip(1) + b);
        lemma_chosen_add(f, a.skip(1), b);
        assert(seq![a[0]] + (chosen(f, a.skip(1)) + chosen(f, b)) =~= (seq![a[0]] + chosen(f, a.skip(1))) + chosen(f, b));
    }
}

/// Nothing is chosen where nothing is kept.
proof fn lemma_chosen_none(f: FilterView, records: Seq<RecordView>)
    requires
        forall|i: int| 0 <= i < records.len() ==> !keeps(f, #[trigger] records[i]),
    ensures
        chosen(f, records) == Seq::<RecordView>::empty(),
    decreases records.len(),
{
    if records.len() > 0 {
        assert(!keeps(f, records[0]));
        assert forall|i: int| 0 <= i < records.skip(1).len() implies !keeps(f, #[trigger] records.skip(1)[i]) by {
            assert(records.skip(1)[i] == records[i + 1]);
        }
        lemma_chosen_none(f, records.skip(1));
    }
}

/// What remains of segments behind the first.
pub(crate) proof fn lemma_parts_rest(parts: Seq<PartView>, wss: Seq<Seq<LogWrite>>)
    requires
        parts_hold(parts, wss),
        parts.len() > 0,
    ensures
        parts_hold(parts.skip(1), wss.skip(1)),
        part_holds(parts[0], wss[0]),
        parts.len() > 1 ==> parts.skip(1)[0].base == parts[0].end,
{
    assert forall|i: int| 0 <= i < parts.skip(1).len() implies part_holds(#[trigger] parts.skip(1)[i], wss.skip(1)[i]) by {
        assert(parts.skip(1)[i] == parts[i + 1]);
        assert(wss.skip(1)[i] == wss[i + 1]);
    }
    assert forall|i: int, j: int| 0 <= i && j == i + 1 && j < parts.skip(1).len() implies (#[trigger] parts.skip(1)[i]).end == (
    #[trigger] parts.skip(1)[j]).base by {
        assert(parts.skip(1)[i] == parts[i + 1]);
        assert(parts.skip(1)[j] == parts[j + 1]);
    }
}

/// The events of segments stand at consecutive positions, from the first base
/// on.
proof fn lemma_parts_consecutive(parts: Seq<PartView>, wss: Seq<Seq<LogWrite>>)
    requires
        parts_hold(parts, wss),
        parts.len() > 0,
    ensures
        consecutive(parts_records(parts, wss), parts[0].base as int),
        parts_records(parts, wss).len() == parts.last().end - parts[0].base,
    decreases parts.len(),
{
    let head = state_after(wss[0], parts[0].base as int).records;
    lemma_parts_rest(parts, wss);
    lemma_log_consecutive(wss[0], parts[0].base as int);
    let all = parts_records(parts, wss);
    let rest = parts_records(parts.skip(1), wss.skip(1));
    if parts.len() > 1 {
        lemma_parts_consecutive(parts.skip(1), wss.skip(1));
        assert(parts.skip(1).last() == parts.last());
    } else {
        assert(rest.len() == 0);
    }
    assert forall|i: int| 0 <= i < all.len() implies (#[trigger] all[i]).kind is Event && all[i].position == parts[0].base + i by {
        if i < head.len() {
            assert(all[i] == head[i]);
        } else {
            assert(all[i] == rest[i - head.len()]);
        }
    }
}

/// A segment that is entered where its filter says reads as what the filter
/// yields of it.
proof fn lemma_entry_read(part: PartView, ws: Seq<LogWrite>, entry: (u64, u64), w: WalkView, f: FilterView)
    requires
        part_holds(part, ws),
        entry_of(f, part.base, part.sidecar, Some(entry)),
        f.kinds is UserEvents,
        !w.finished,
        w.continuation <= max_of(f.from as int, part.base as int),
        f.max_events matches Some(max) ==> w.yielded <= max,
    ensures
        reads_as(
            segment_read(part.bytes, entry.1 as int, walk_enter(w, entry.0), f, part.closed, part.end),
            walk_enter(w, entry.0),
            f,
            state_after(ws, part.base as int).records,
        ),
{
    let base = part.base as int;
    if entry == (part.base, 0u64) {
        let all = state_after(ws, base).records;
        assert(ws.take(0) =~= Seq::empty());
        lemma_log_prefix(ws, base, 0);
        assert(all.skip(0) =~= all);
        lemma_boundary_read(ws, base, f, 0, walk_enter(w, part.base), part.closed, part.end);
    } else {
        let s = part.sidecar->0;
        let k = choose|k: int|
            0 <= k < s.seek_points.len() && #[trigger] s.seek_points[k] == entry && (forall|i: int|
                k < i < s.seek_points.len() ==> (#[trigger] s.seek_points[i]).0 > f.from);
        assert(s.seek_points.contains(entry));
        lemma_seek_read(ws, base, f, entry, w, part.closed, part.end);
    }
}

/// A segment that is skipped holds nothing that the filter yields.
proof fn lemma_entry_skips(part: PartView, ws: Seq<LogWrite>, f: FilterView)
    requires
        part_holds(part, ws),
        entry_of(f, part.base, part.sidecar, None),
        f.kinds is UserEvents,
    ensures
        chosen(f, state_after(ws, part.base as int).records) == Seq::<RecordView>::empty(),
{
    let base = part.base as int;
    let s = part.sidecar->0;
    let records = state_after(ws, base).records;
    lemma_sidecar_covers(ws, base);
    lemma_log_consecutive(ws, base);
    lemma_skip_sound(f, s, records, state_after(ws, base).system.len() as int);
    lemma_chosen_none(f, records);
}

/// A read that stands before segments reads what the filter yields of them.
proof fn lemma_parts_read(parts: Seq<PartView>, wss: Seq<Seq<LogWrite>>, entries: Seq<Option<(u64, u64)>>, w: WalkView, f: FilterView, head: u64)
    requires
        parts_hold(parts, wss),
        entries_for(parts, entries, f),
        f.kinds is UserEvents,
        !w.finished,
        parts.len() > 0 ==> w.continuation <= max_of(f.from as int, parts[0].base as int),
        f.max_events matches Some(max) ==> w.yielded <= max,
    ensures
        reads_whole(log_read(parts, entries, w, f, head), w, f, parts_records(parts, wss), head),
    decreases parts.len(),
{
    let records = parts_records(parts, wss);
    let all = chosen(f, records);
    if limit_reached(w, f) {
        assert(all.take(0) =~= Seq::empty());
    } else if parts.len() > 0 {
        let here = state_after(wss[0], parts[0].base as int).records;
        let later = parts_records(parts.skip(1), wss.skip(1));
        lemma_parts_rest(parts, wss);
        lemma_chosen_add(f, here, later);
        lemma_log_consecutive(wss[0], parts[0].base as int);
        assert(entry_of(f, parts[0].base, parts[0].sidecar, entries[0]));
        assert forall|i: int| 0 <= i < parts.skip(1).len() implies entry_of(
            f,
            (#[trigger] parts.skip(1)[i]).base,
            parts.skip(1)[i].sidecar,
            entries.skip(1)[i],
        ) by {
            assert(parts.skip(1)[i] == parts[i + 1]);
            assert(entries.skip(1)[i] == entries[i + 1]);
        }
        match entries[0] {
            None => {
                lemma_entry_skips(parts[0], wss[0], f);
                assert(all =~= chosen(f, later));
                lemma_parts_read(parts.skip(1), wss.skip(1), entries.skip(1), w, f, head);
            },
            Some(entry) => {
                lemma_entry_read(parts[0], wss[0], entry, w, f);
                let v = walk_enter(w, entry.0);
                let (out, next) = segment_read(parts[0].bytes, entry.1 as int, v, f, parts[0].closed, parts[0].end)->Ok_0;
                let got = chosen(f, here);
                assert(settled(v, f, here, out, next));
                reveal(settled);
                if here.len() > 0 {
                    assert(here.last().position == parts[0].base + here.len() - 1);
                }
                assert(parts[0].base <= parts[0].end);
                if limit_reached(next, f) {
                    let budget = f.max_events->0 - w.yielded;
                    assert(got.len() >= budget);
                    assert(out + Seq::<RecordView>::empty() =~= out);
                    assert(all.take(budget) =~= got.take(budget));
                    assert(all[budget - 1] == got[budget - 1]);
                } else {
                    assert(out == got);
                    if next.finished {
                        if parts.len() > 1 {
                            lemma_parts_consecutive(parts.skip(1), wss.skip(1));
                        }
                        assert forall|i: int| 0 <= i < later.len() implies !keeps(f, #[trigger] later[i]) by {}
                        lemma_chosen_none(f, later);
                        assert(all =~= got);
                        assert(out + Seq::<RecordView>::empty() =~= out);
                    } else {
                        lemma_parts_read(parts.skip(1), wss.skip(1), entries.skip(1), next, f, head);
                        let (rest, last) = log_read(parts.skip(1), entries.skip(1), next, f, head)->Ok_0;
                        match f.max_events {
                            None => {},
                            Some(max) => {
                                let budget = max - w.yielded;
                                if all.len() >= budget {
                                    assert(all.take(budget) =~= got + chosen(f, later).take(budget - got.len()));
                                }
                            },
                        }
                    }
                }
            },
        }
    }
}

/// Whether no position of a segment is one that the filter asks for.
spec fn out_of_range(part: PartView, f: FilterView) -> bool {
    part.end <= f.from || f.until <= part.base || part.end <= part.base || f.until <= f.from
}

/// Segments out of range hold nothing that the filter yields.
proof fn lemma_out_of_range(parts: Seq<PartView>, wss: Seq<Seq<LogWrite>>, f: FilterView)
    requires
        parts_hold(parts, wss),
        f.kinds is UserEvents,
        forall|i: int| 0 <= i < parts.len() ==> out_of_range(#[trigger] parts[i], f),
    ensures
        chosen(f, parts_records(parts, wss)) == Seq::<RecordView>::empty(),
    decreases parts.len(),
{
    if parts.len() > 0 {
        let here = state_after(wss[0], parts[0].base as int).records;
        lemma_parts_rest(parts, wss);
        lemma_log_consecutive(wss[0], parts[0].base as int);
        assert(out_of_range(parts[0], f));
        lemma_chosen_none(f, here);
        assert forall|i: int| 0 <= i < parts.skip(1).len() implies out_of_range(#[trigger] parts.skip(1)[i], f) by {
            assert(parts.skip(1)[i] == parts[i + 1]);
        }
        lemma_out_of_range(parts.skip(1), wss.skip(1), f);
        lemma_chosen_add(f, here, parts_records(parts.skip(1), wss.skip(1)));
    }
}

/// The events of segments are those of the first `n` and those behind them.
proof fn lemma_parts_split(parts: Seq<PartView>, wss: Seq<Seq<LogWrite>>, n: int)
    requires
        parts_hold(parts, wss),
        0 <= n <= parts.len(),
    ensures
        parts_hold(parts.take(n), wss.take(n)),
        parts_hold(parts.skip(n), wss.skip(n)),
        parts_records(parts, wss) == parts_records(parts.take(n), wss.take(n)) + parts_records(parts.skip(n), wss.skip(n)),
    decreases n,
{
    if n == 0 {
        assert(parts.skip(0) =~= parts);
        assert(wss.skip(0) =~= wss);
        assert(parts_records(parts.take(0), wss.take(0)) + parts_records(parts, wss) =~= parts_records(parts, wss));
    } else {
        lemma_parts_rest(parts, wss);
        lemma_parts_split(parts.skip(1), wss.skip(1), n - 1);
        assert(parts.skip(1).skip(n - 1) =~= parts.skip(n));
        assert(wss.skip(1).skip(n - 1) =~= wss.skip(n));
        assert(parts.take(n).skip(1) =~= parts.skip(1).take(n - 1));
        assert(wss.take(n).skip(1) =~= wss.skip(1).take(n - 1));
        let here = state_after(wss[0], parts[0].base as int).records;
        let mid = parts_records(parts.take(n).skip(1), wss.take(n).skip(1));
        let end = parts_records(parts.skip(n), wss.skip(n));
        assert(here + (mid + end) =~= (here + mid) + end);
        let first = parts.take(n);
        assert forall|i: int| 0 <= i < n implies part_holds(#[trigger] first[i], wss.take(n)[i]) by {
            assert(first[i] == parts[i]);
        }
        assert forall|i: int, j: int| 0 <= i && j == i + 1 && j < n implies (#[trigger] first[i]).end == (#[trigger] first[j]).base by {
            assert(first[i] == parts[i]);
            assert(first[j] == parts[j]);
        }
    }
}

/// The bases of segments.
pub open spec fn part_bases(parts: Seq<PartView>) -> Seq<u64> {
    Seq::new(parts.len(), |i: int| parts[i].base)
}

pub(crate) proof fn lemma_bases(parts: Seq<PartView>, wss: Seq<Seq<LogWrite>>, i: int, j: int)
    requires
        parts_hold(parts, wss),
        0 <= i <= j < parts.len(),
    ensures
        parts[i].base <= parts[j].base,
        parts[i].base <= parts[i].end,
        i < j ==> parts[i].end <= parts[j].base,
    decreases j - i,
{
    assert(part_holds(parts[i], wss[i]));
    lemma_log_consecutive(wss[i], parts[i].base as int);
    if i < j {
        lemma_bases(parts, wss, i + 1, j);
        assert(parts[i].end == parts[i + 1].base);
    }
}

/// Reading a log. Of all its segments a read looks at those that can hold a
/// position it asks for, passes over those whose sidecars prove that nothing in
/// them is selected, and enters the others at their start or at a seek point.
/// It yields exactly the events of the log that its filter selects, in order;
/// with a maximum it yields the first so many and is resumed behind the last.
pub proof fn lemma_log_read(
    parts: Seq<PartView>,
    wss: Seq<Seq<LogWrite>>,
    start: int,
    end: int,
    entries: Seq<Option<(u64, u64)>>,
    f: FilterView,
)
    requires
        parts.len() > 0,
        parts_hold(parts, wss),
        range_selected(part_bases(parts), parts.last().end, f.from, f.until, start, end),
        entries_for(parts.subrange(start, end), entries, f),
        f.kinds is UserEvents,
    ensures
        reads_whole(
            log_read(parts.subrange(start, end), entries, walk_start(f.from), f, parts.last().end),
            walk_start(f.from),
            f,
            parts_records(parts, wss),
            parts.last().end,
        ),
{
    let head = parts.last().end;
    let bases = part_bases(parts);
    let n = parts.len() as int;
    assert forall|i: int, j: int| 0 <= i < j < bases.len() implies #[trigger] bases[i] <= #[trigger] bases[j] by {
        lemma_bases(parts, wss, i, j);
    }
    lemma_bases(parts, wss, n - 1, n - 1);
    assert forall|i: int| 0 <= i < n && !(start <= i < end) implies out_of_range(#[trigger] parts[i], f) by {
        lemma_bases(parts, wss, i, i);
        if i + 1 < n {
            assert(parts[i].end == parts[i + 1].base);
        }
        assert(segment_end(bases, head, i) == parts[i].end);
        if !out_of_range(parts[i], f) {
            let p: u64 = if parts[i].base < f.from {
                f.from
            } else {
                parts[i].base
            };
            lemma_range_covers(bases, head, f.from, f.until, start, end, i, p);
        }
    }
    let mid = parts.subrange(start, end);
    let mid_ws = wss.subrange(start, end);
    lemma_parts_split(parts, wss, end);
    lemma_parts_split(parts.take(end), wss.take(end), start);
    assert(parts.take(end).take(start) =~= parts.take(start));
    assert(wss.take(end).take(start) =~= wss.take(start));
    assert(parts.take(end).skip(start) =~= mid);
    assert(wss.take(end).skip(start) =~= mid_ws);
    assert forall|i: int| 0 <= i < start implies out_of_range(#[trigger] parts.take(start)[i], f) by {
        assert(parts.take(start)[i] == parts[i]);
    }
    assert forall|i: int| 0 <= i < parts.skip(end).len() implies out_of_range(#[trigger] parts.skip(end)[i], f) by {
        assert(parts.skip(end)[i] == parts[end + i]);
    }
    lemma_out_of_range(parts.take(start), wss.take(start), f);
    lemma_out_of_range(parts.skip(end), wss.skip(end), f);
    let a = parts_records(parts.take(start), wss.take(start));
    let b = parts_records(mid, mid_ws);
    let c = parts_records(parts.skip(end), wss.skip(end));
    lemma_chosen_add(f, a + b, c);
    lemma_chosen_add(f, a, b);
    assert(chosen(f, parts_records(parts, wss)) =~= chosen(f, b));
    lemma_parts_read(mid, mid_ws, entries, walk_start(f.from), f, head);
}

} // verus!
