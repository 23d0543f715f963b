//! What the pages of a reader come to together: the end of what it reads is
//! fixed when it is opened, and its pages hold exactly what lies before that
//! end.
use crate::db::engine::DbView;
use crate::db::read::replay_filter;
use crate::facade::page::{
    divides, dto_of, lemma_page_complete, limits_of, page_after, page_fits, pass_in_order, stream_wanted, wanted_records,
    PageLimits, PageView, Passing,
};
use crate::facade::sequencer::{reader_error, reader_plan, request_bounded};
use crate::facade::types::{RecordDtoView, ReplayRequest};
use crate::format::frame::RecordView;
use crate::log::replay::{chosen, consecutive, keeps, resumed};
use crate::log::select::FilterView;
use vstd::prelude::*;

verus! {

/// The records that a filter yields, each with the position behind it.
pub open spec fn passing_of(f: FilterView, events: Seq<RecordView>) -> Seq<Passing> {
    chosen(f, events).map_values(|record: RecordView| (dto_of(record), (record.position + 1) as u64))
}

/// A reader's page that begins at `start`: it takes from the records that pass
/// until it is full; where it is not, the read goes on at `tail`, where they end.
pub open spec fn page_read(start: u64, limits: PageLimits, passing: Seq<Passing>, tail: u64) -> PageView {
    let p = page_after(start, limits, passing);
    if p.full || p.continuation >= tail {
        p
    } else {
        PageView { continuation: tail, ..p }
    }
}

/// A page of a reader, with the database as it then was, the events of its log,
/// and where the read for the page ended.
pub struct Turn {
    pub db: DbView,
    pub events: Seq<RecordView>,
    pub tail: u64,
    pub page: PageView,
}

/// Whether a database is what appends made of another: its branches and what it
/// keeps are the same, and it reaches as far or further.
pub open spec fn appended_to(before: DbView, after: DbView) -> bool {
    &&& after.branches == before.branches
    &&& after.log.manifest.retention_floor == before.log.manifest.retention_floor
    &&& before.log.active.next_offset <= after.log.active.next_offset
}

/// Whether `events` are the events of a database's log, from `base` on.
pub open spec fn log_holds(db: DbView, events: Seq<RecordView>, base: int) -> bool {
    consecutive(events, base) && base + events.len() == db.log.active.next_offset
}

/// Whether a page is the reader's next one, from `start` on.
pub open spec fn turned(db: DbView, request: ReplayRequest, events: Seq<RecordView>, base: int, start: u64, turn: Turn) -> bool {
    &&& appended_to(db, turn.db)
    &&& log_holds(turn.db, turn.events, base)
    &&& events.is_prefix_of(turn.events)
    &&& replay_filter(turn.db, reader_plan(request, start)) matches Ok(f) && f.until <= turn.tail && turn.page == page_read(
        start,
        limits_of(request),
        passing_of(f, turn.events),
        turn.tail,
    )
}

/// Where a reader goes on after some pages.
pub open spec fn goes_on(from: u64, turns: Seq<Turn>) -> u64 {
    if turns.len() == 0 {
        from
    } else {
        turns.last().page.continuation
    }
}

/// Whether pages are the first ones of a reader, one after the other, events
/// being appended as may be in between.
pub open spec fn paged(db: DbView, request: ReplayRequest, events: Seq<RecordView>, base: int, turns: Seq<Turn>) -> bool
    decreases turns.len(),
{
    turns.len() == 0 || (paged(db, request, events, base, turns.drop_last()) && turned(
        db,
        request,
        events,
        base,
        goes_on(request.from, turns.drop_last()),
        turns.last(),
    ))
}

/// The records of pages, joined.
pub open spec fn joined(turns: Seq<Turn>) -> Seq<RecordDtoView>
    decreases turns.len(),
{
    if turns.len() == 0 {
        Seq::empty()
    } else {
        joined(turns.drop_last()) + turns.last().page.records
    }
}

/// Where a reader that is opened now ends.
pub open spec fn reader_end(db: DbView, request: ReplayRequest) -> u64 {
    match request.until {
        Some(until) => until,
        None => db.log.active.next_offset,
    }
}

/// The end of a reader is fixed when it is opened: whatever is appended later,
/// its next page reads what it would have read then, from where it goes on to
/// the head that was seen on opening, or to the end that was asked for.
pub proof fn lemma_end_fixed(db: DbView, later: DbView, request: ReplayRequest, from: u64)
    requires
        reader_error(db, request_bounded(request, db.log.active.next_offset)) is None,
        appended_to(db, later),
        request.from <= from,
    ensures
        ({
            let bounded = request_bounded(request, db.log.active.next_offset);
            let f = replay_filter(db, reader_plan(bounded, bounded.from))->Ok_0;
            &&& replay_filter(db, reader_plan(bounded, bounded.from)) is Ok
            &&& f.until == reader_end(db, request) <= db.log.active.next_offset
            &&& f.from == request.from
            &&& replay_filter(later, reader_plan(bounded, from)) == Ok::<FilterView, crate::error::ErrorView>(resumed(f, from))
        }),
{
}

/// What is chosen stands in order.
proof fn lemma_chosen_order(f: FilterView, events: Seq<RecordView>, base: int)
    requires
        consecutive(events, base),
    ensures
        forall|i: int| 0 <= i < chosen(f, events).len() ==> base <= (#[trigger] chosen(f, events)[i]).position < base + events.len() && keeps(
            f,
            chosen(f, events)[i],
        ),
        forall|i: int, j: int|
            0 <= i < j < chosen(f, events).len() ==> (#[trigger] chosen(f, events)[i]).position < (#[trigger] chosen(f, events)[j]).position,
    decreases events.len(),
{
    if events.len() > 0 {
        let rest = events.skip(1);
        assert(events[0].position == base);
        assert forall|i: int| 0 <= i < rest.len() implies (#[trigger] rest[i]).kind is Event && rest[i].position == base + 1 + i by {
            assert(rest[i] == events[i + 1]);
        }
        lemma_chosen_order(f, rest, base + 1);
        let all = chosen(f, events);
        let later = chosen(f, rest);
        if keeps(f, events[0]) {
            assert(all == seq![events[0]] + later);
            assert forall|i: int| 0 <= i < all.len() implies base <= (#[trigger] all[i]).position < base + events.len() && keeps(f, all[i]) by {
                if i > 0 {
                    assert(all[i] == later[i - 1]);
                }
            }
            assert forall|i: int, j: int| 0 <= i < j < all.len() implies (#[trigger] all[i]).position < (#[trigger] all[j]).position by {
                assert(all[j] == later[j - 1]);
                if i > 0 {
                    assert(all[i] == later[i - 1]);
                }
            }
        }
    }
}

/// What is chosen from `from` on is what is chosen, without the first of it.
proof fn lemma_chosen_on(f: FilterView, events: Seq<RecordView>, base: int, from: u64, k: int)
    requires
        consecutive(events, base),
        f.from <= from,
        0 <= k <= chosen(f, events).len(),
        forall|i: int| 0 <= i < k ==> (#[trigger] chosen(f, events)[i]).position < from,
        forall|i: int| k <= i < chosen(f, events).len() ==> from <= (#[trigger] chosen(f, events)[i]).position,
    ensures
        chosen(resumed(f, from), events) == chosen(f, events).skip(k),
    decreases events.len(),
{
    let g = resumed(f, from);
    let all = chosen(f, events);
    if events.len() == 0 {
        assert(all.skip(k) =~= Seq::empty());
    } else {
        let rest = events.skip(1);
        assert(events[0].kind is Event);
        assert forall|i: int| 0 <= i < rest.len() implies (#[trigger] rest[i]).kind is Event && rest[i].position == base + 1 + i by {
            assert(rest[i] == events[i + 1]);
        }
        let later = chosen(f, rest);
        if keeps(f, events[0]) {
            assert(all == seq![events[0]] + later);
            assert(all[0] == events[0]);
            let m = if k == 0 {
                0
            } else {
                k - 1
            };
            assert forall|i: int| 0 <= i < m implies (#[trigger] later[i]).position < from by {
                assert(later[i] == all[i + 1]);
            }
            assert forall|i: int| m <= i < later.len() implies from <= (#[trigger] later[i]).position by {
                assert(later[i] == all[i + 1]);
            }
            lemma_chosen_on(f, rest, base + 1, from, m);
            if k == 0 {
                assert(keeps(g, events[0]));
                assert(later.skip(0) =~= later);
                assert(all.skip(0) =~= all);
            } else {
                assert(!keeps(g, events[0]));
                assert(all.skip(k) =~= later.skip(k - 1));
            }
        } else {
            assert(all == later);
            assert(!keeps(g, events[0]));
            lemma_chosen_on(f, rest, base + 1, from, k);
        }
    }
}

/// Events behind the end add nothing to what is chosen.
proof fn lemma_chosen_before_end(f: FilterView, events: Seq<RecordView>, all: Seq<RecordView>, base: int)
    requires
        consecutive(all, base),
        events.is_prefix_of(all),
        f.until <= base + events.len(),
    ensures
        chosen(f, all) == chosen(f, events),
    decreases all.len(),
{
    assert(all.take(events.len() as int) =~= events);
    if all.len() > 0 {
        let rest = all.skip(1);
        assert forall|i: int| 0 <= i < rest.len() implies (#[trigger] rest[i]).kind is Event && rest[i].position == base + 1 + i by {
            assert(rest[i] == all[i + 1]);
        }
        assert(all[0].position == base);
        if events.len() > 0 {
            assert(all[0] == events[0]);
            let front = events.skip(1);
            assert(rest.take(front.len() as int) =~= front);
            lemma_chosen_before_end(f, front, rest, base + 1);
        } else {
            assert(!keeps(f, all[0]));
            assert(rest.take(0) =~= events);
            lemma_chosen_before_end(f, events, rest, base + 1);
        }
    }
}

/// The wanted ones of one list after another.
proof fn lemma_wanted_add(limits: PageLimits, a: Seq<Passing>, b: Seq<Passing>)
    ensures
        wanted_records(limits, a + b) == wanted_records(limits, a) + wanted_records(limits, b),
    decreases b.len(),
{
    if b.len() == 0 {
        assert(a + b =~= a);
        assert(wanted_records(limits, a) + wanted_records(limits, b) =~= wanted_records(limits, a));
    } else {
        assert((a + b).drop_last() =~= a + b.drop_last());
        assert((a + b).last() == b.last());
        lemma_wanted_add(limits, a, b.drop_last());
        if stream_wanted(limits.stream, b.last().0.metadata) {
            assert((wanted_records(limits, a) + wanted_records(limits, b.drop_last())).push(b.last().0) =~= wanted_records(limits, a)
                + wanted_records(limits, b.drop_last()).push(b.last().0));
        }
    }
}

/// Whoever is wanted is among those that pass.
proof fn lemma_wanted_among(limits: PageLimits, passing: Seq<Passing>, bound: u64)
    requires
        forall|i: int| 0 <= i < passing.len() ==> (#[trigger] passing[i]).0.position < bound,
    ensures
        forall|i: int| 0 <= i < wanted_records(limits, passing).len() ==> (#[trigger] wanted_records(limits, passing)[i]).position < bound,
    decreases passing.len(),
{
    if passing.len() > 0 {
        let shorter = passing.drop_last();
        assert forall|i: int| 0 <= i < shorter.len() implies (#[trigger] shorter[i]).0.position < bound by {
            assert(shorter[i] == passing[i]);
        }
        lemma_wanted_among(limits, shorter, bound);
        assert(passing.last() == passing[passing.len() - 1]);
    }
}

/// A page never goes on before its start.
proof fn lemma_goes_forward(start: u64, limits: PageLimits, passing: Seq<Passing>)
    requires
        pass_in_order(start, passing),
    ensures
        start <= page_after(start, limits, passing).continuation,
    decreases passing.len(),
{
    if passing.len() > 0 {
        let shorter = passing.drop_last();
        assert forall|i: int| 0 <= i < shorter.len() implies start <= (#[trigger] shorter[i]).0.position < shorter[i].1 by {
            assert(shorter[i] == passing[i]);
        }
        assert forall|i: int, j: int| 0 <= i < j < shorter.len() implies (#[trigger] shorter[i]).1 <= (#[trigger] shorter[j]).0.position by {
            assert(shorter[i] == passing[i] && shorter[j] == passing[j]);
        }
        lemma_goes_forward(start, limits, shorter);
        assert(passing.last() == passing[passing.len() - 1]);
        assert(start <= passing[passing.len() - 1].0.position < passing[passing.len() - 1].1);
    }
}

/// What a reader's page holds of what passes before its end.
proof fn lemma_turn(db: DbView, request: ReplayRequest, events: Seq<RecordView>, base: int, f: FilterView, start: u64, turn: Turn, k: int) -> (n: int)
    requires
        request.page_events > 0,
        log_holds(db, events, base),
        f.kinds is UserEvents,
        f.from <= start,
        f.until <= db.log.active.next_offset,
        turned(db, request, events, base, start, turn),
        replay_filter(turn.db, reader_plan(request, start)) == Ok::<FilterView, crate::error::ErrorView>(resumed(f, start)),
        divides(passing_of(f, events), k, start),
    ensures
        k <= n,
        divides(passing_of(f, events), n, turn.page.continuation),
        turn.page.records == wanted_records(limits_of(request), passing_of(f, events).subrange(k, n)),
        start <= turn.page.continuation,
        turn.page.records.len() <= request.page_events,
        page_fits(turn.page, request.page_bytes),
        turn.page.records.len() == 0 ==> f.until <= turn.page.continuation,
        forall|i: int| 0 <= i < turn.page.records.len() ==> (#[trigger] turn.page.records[i]).position < f.until,
{
    let g = resumed(f, start);
    let limits = limits_of(request);
    let whole = passing_of(f, events);
    let picked = chosen(f, events);
    lemma_chosen_order(f, events, base);
    lemma_chosen_before_end(g, events, turn.events, base);
    assert forall|i: int| 0 <= i < k implies (#[trigger] picked[i]).position < start by {
        assert(whole[i].0.position == picked[i].position);
    }
    assert forall|i: int| k <= i < picked.len() implies start <= (#[trigger] picked[i]).position by {
        assert(whole[i].0.position == picked[i].position);
    }
    lemma_chosen_on(f, events, base, start, k);
    let passing = passing_of(g, turn.events);
    assert(passing =~= whole.skip(k));
    assert forall|i: int| 0 <= i < whole.len() implies (#[trigger] whole[i]).0.position == picked[i].position && whole[i].1
        == picked[i].position + 1 && whole[i].0.position < f.until by {
        assert(keeps(f, picked[i]));
        assert(picked[i].position < db.log.active.next_offset);
    }
    assert forall|i: int| 0 <= i < passing.len() implies start <= (#[trigger] passing[i]).0.position < passing[i].1 by {
        assert(passing[i] == whole[k + i]);
    }
    assert forall|i: int, j: int| 0 <= i < j < passing.len() implies (#[trigger] passing[i]).1 <= (#[trigger] passing[j]).0.position by {
        assert(passing[i] == whole[k + i] && passing[j] == whole[k + j]);
        assert(picked[k + i].position < picked[k + j].position);
    }
    let m = lemma_page_complete(start, limits, passing);
    lemma_goes_forward(start, limits, passing);
    let p = page_after(start, limits, passing);
    let n = k + m;
    assert(passing.take(m) =~= whole.subrange(k, n));
    assert forall|i: int| 0 <= i < n implies (#[trigger] whole[i]).0.position < turn.page.continuation by {
        if i >= k {
            assert(passing[i - k] == whole[i]);
            assert(whole[i].0.position < p.continuation);
        } else {
            assert(whole[i].0.position < start);
        }
    }
    assert forall|i: int| n <= i < whole.len() implies turn.page.continuation <= (#[trigger] whole[i]).0.position by {
        assert(passing[i - k] == whole[i]);
    }
    assert forall|i: int| 0 <= i < passing.take(m).len() implies (#[trigger] passing.take(m)[i]).0.position < f.until by {
        assert(passing.take(m)[i] == whole[k + i]);
    }
    lemma_wanted_among(limits, passing.take(m), f.until);
    n
}

/// Whether a page keeps to a reader's limits and its end; an empty one is the
/// last.
pub open spec fn page_sound(request: ReplayRequest, end: u64, page: PageView) -> bool {
    &&& page.records.len() <= request.page_events
    &&& page_fits(page, request.page_bytes)
    &&& page.records.len() == 0 ==> end <= page.continuation
    &&& forall|i: int| 0 <= i < page.records.len() ==> (#[trigger] page.records[i]).position < end
}

proof fn lemma_pages_upto(db: DbView, request: ReplayRequest, events: Seq<RecordView>, base: int, turns: Seq<Turn>) -> (n: int)
    requires
        reader_error(db, request_bounded(request, db.log.active.next_offset)) is None,
        log_holds(db, events, base),
        paged(db, request_bounded(request, db.log.active.next_offset), events, base, turns),
    ensures
        ({
            let bounded = request_bounded(request, db.log.active.next_offset);
            let f = replay_filter(db, reader_plan(bounded, bounded.from))->Ok_0;
            &&& divides(passing_of(f, events), n, goes_on(request.from, turns))
            &&& joined(turns) == wanted_records(limits_of(bounded), passing_of(f, events).take(n))
            &&& request.from <= goes_on(request.from, turns)
            &&& forall|i: int| 0 <= i < turns.len() ==> page_sound(bounded, f.until, (#[trigger] turns[i]).page)
        }),
    decreases turns.len(),
{
    let bounded = request_bounded(request, db.log.active.next_offset);
    let f = replay_filter(db, reader_plan(bounded, bounded.from))->Ok_0;
    let whole = passing_of(f, events);
    let limits = limits_of(bounded);
    lemma_end_fixed(db, db, request, request.from);
    if turns.len() == 0 {
        lemma_chosen_order(f, events, base);
        assert forall|i: int| 0 <= i < whole.len() implies request.from <= (#[trigger] whole[i]).0.position by {
            assert(keeps(f, chosen(f, events)[i]));
        }
        assert(whole.take(0) =~= Seq::empty());
        0
    } else {
        let before = turns.drop_last();
        let k = lemma_pages_upto(db, request, events, base, before);
        let start = goes_on(request.from, before);
        let turn = turns.last();
        lemma_end_fixed(db, turn.db, request, start);
        let n = lemma_turn(db, bounded, events, base, f, start, turn, k);
        assert(whole.take(n) =~= whole.take(k) + whole.subrange(k, n));
        lemma_wanted_add(limits, whole.take(k), whole.subrange(k, n));
        assert forall|i: int| 0 <= i < turns.len() implies page_sound(bounded, f.until, (#[trigger] turns[i]).page) by {
            if i < before.len() {
                assert(before[i] == turns[i]);
            }
        }
        n
    }
}

/// The pages of a reader, joined, are what it was opened for: once a page has
/// reached the end, they hold exactly the records of the wanted stream that the
/// branch shows between the start and that end, in order, none missing and none
/// twice, whatever was appended in the meantime. No page holds more events than
/// it may, nor more bytes unless it holds a single event, nor an event at or
/// behind the end; and an empty page is the last.
pub proof fn lemma_pages_joined(db: DbView, request: ReplayRequest, events: Seq<RecordView>, base: int, turns: Seq<Turn>)
    requires
        reader_error(db, request_bounded(request, db.log.active.next_offset)) is None,
        log_holds(db, events, base),
        paged(db, request_bounded(request, db.log.active.next_offset), events, base, turns),
    ensures
        ({
            let bounded = request_bounded(request, db.log.active.next_offset);
            let end = reader_end(db, request);
            let f = replay_filter(db, reader_plan(bounded, bounded.from))->Ok_0;
            &&& f.until == end
            &&& end <= goes_on(request.from, turns) ==> joined(turns) == wanted_records(limits_of(bounded), passing_of(f, events))
            &&& forall|i: int| 0 <= i < turns.len() ==> page_sound(bounded, end, (#[trigger] turns[i]).page)
        }),
{
    let bounded = request_bounded(request, db.log.active.next_offset);
    let f = replay_filter(db, reader_plan(bounded, bounded.from))->Ok_0;
    let whole = passing_of(f, events);
    lemma_end_fixed(db, db, request, request.from);
    let n = lemma_pages_upto(db, request, events, base, turns);
    lemma_chosen_order(f, events, base);
    if f.until <= goes_on(request.from, turns) {
        if n < whole.len() {
            assert(keeps(f, chosen(f, events)[n]));
            assert(whole[n].0.position < f.until);
        }
        assert(whole.take(n) =~= whole);
    }
}

} // verus!
