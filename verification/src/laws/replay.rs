//! What a replay promises: it yields exactly the events that its plan asks for,
//! of the branch as it is seen up to the plan's end.
use crate::branch::{catalog_valid, find, lemma_find, lemma_find_distinct, lemma_find_prefix, path, scopes_of, BranchView};
use crate::db::engine::DbView;
use crate::db::read::replay_filter;
use crate::error::ErrorView;
use crate::format::frame::RecordView;
use crate::log::reader::walk_start;
use crate::log::recovery::LogWrite;
use crate::log::replay::{chosen, keeps};
use crate::log::select::{in_scopes, range_selected, FilterView, ReplayEnd, ReplayPlan, ReplayStart, StreamSelector};
use crate::log::whole::{entries_for, lemma_log_read, log_read, part_bases, parts_hold, parts_records, PartView};
use crate::timeline::{fork_or, lemma_bound};
use vstd::bytes::spec_u64_from_le_bytes;
use vstd::prelude::*;

verus! {

/// Whether places of a list are a line of descent: each branch behind the first
/// was forked from the one before it.
pub open spec fn descends(bs: Seq<BranchView>, line: Seq<int>) -> bool {
    &&& line.len() > 0
    &&& forall|k: int| 0 <= k < line.len() ==> 0 <= #[trigger] line[k] < bs.len()
    &&& forall|k: int| 1 <= k < line.len() ==> #[trigger] forked_from(bs, line, k)
}

/// Whether branch `k` of a line was forked from the one before it.
pub open spec fn forked_from(bs: Seq<BranchView>, line: Seq<int>, k: int) -> bool {
    bs[line[k]].parent == Some(bs[line[k - 1]].id)
}

/// Whether a position lies below the fork of every branch of a line but the
/// first.
pub open spec fn below_forks(bs: Seq<BranchView>, line: Seq<int>, position: u64) -> bool {
    forall|k: int| 1 <= k < line.len() ==> (bs[#[trigger] line[k]].fork_position matches Some(f) ==> position < f)
}

/// Whether branch `i` sees what `branch` holds at a position: it is that branch,
/// or it descends from it by forks that all lie behind the position.
pub open spec fn sees(bs: Seq<BranchView>, i: int, branch: Seq<u8>, position: u64) -> bool {
    exists|line: Seq<int>| #[trigger]
        descends(bs, line) && line.last() == i && bs[line[0]].id == branch && below_forks(bs, line, position)
}

/// The places of a line of ancestry.
pub(crate) proof fn lemma_line(bs: Seq<BranchView>, i: int) -> (line: Seq<int>)
    requires
        catalog_valid(bs),
        0 <= i < bs.len(),
    ensures
        descends(bs, line),
        line.last() == i,
        bs[line[0]].parent is None,
        line.len() == path(bs, i).len(),
        forall|k: int| 0 <= k < line.len() ==> bs[#[trigger] line[k]] == path(bs, i)[k],
    decreases i,
{
    match bs[i].parent {
        None => seq![i],
        Some(p) => {
            lemma_find_prefix(bs, i, p);
            lemma_find(bs.take(i), p);
            let j = find(bs.take(i), p)->0;
            assert(bs.take(i)[j] == bs[j]);
            let above = lemma_line(bs, j);
            let line = above.push(i);
            assert forall|k: int| 0 <= k < line.len() implies 0 <= #[trigger] line[k] < bs.len() && bs[line[k]] == path(bs, i)[k] by {
                if k < above.len() {
                    assert(line[k] == above[k]);
                }
            }
            assert forall|k: int| 1 <= k < line.len() implies #[trigger] forked_from(bs, line, k) by {
                if k < above.len() {
                    assert(forked_from(bs, above, k));
                    assert(line[k] == above[k]);
                    assert(line[k - 1] == above[k - 1]);
                } else {
                    assert(line[k - 1] == above.last());
                }
            }
            assert(line[0] == above[0]);
            line
        },
    }
}

/// Two lines of descent that end with one branch agree as far back as both go.
proof fn lemma_lines_agree(bs: Seq<BranchView>, a: Seq<int>, b: Seq<int>, back: int)
    requires
        catalog_valid(bs),
        descends(bs, a),
        descends(bs, b),
        a.last() == b.last(),
        0 <= back < a.len(),
        back < b.len(),
    ensures
        a[a.len() - 1 - back] == b[b.len() - 1 - back],
    decreases back,
{
    if back > 0 {
        lemma_lines_agree(bs, a, b, back - 1);
        let x = a.len() - back;
        let y = b.len() - back;
        assert(forked_from(bs, a, x));
        assert(forked_from(bs, b, y));
        lemma_find_distinct(bs, a[x - 1]);
        lemma_find_distinct(bs, b[y - 1]);
    }
}

/// What is in the scopes of a branch is what it sees below the bound.
pub proof fn lemma_scopes_seen(bs: Seq<BranchView>, i: int, upto: u64, branch: Seq<u8>, position: u64)
    requires
        catalog_valid(bs),
        0 <= i < bs.len(),
    ensures
        in_scopes(scopes_of(path(bs, i), upto), branch, position) <==> position < upto && sees(bs, i, branch, position),
{
    let ancestry = path(bs, i);
    let scopes = scopes_of(ancestry, upto);
    let line = lemma_line(bs, i);
    if in_scopes(scopes, branch, position) {
        let k = choose|k: int| 0 <= k < scopes.len() && (#[trigger] scopes[k]).0 == branch && position < scopes[k].1;
        lemma_bound(ancestry, k, upto, position);
        let part = line.skip(k);
        assert forall|m: int| 0 <= m < part.len() implies 0 <= #[trigger] part[m] < bs.len() by {
            assert(part[m] == line[m + k]);
        }
        assert forall|m: int| 1 <= m < part.len() implies #[trigger] forked_from(bs, part, m) by {
            assert(forked_from(bs, line, m + k));
            assert(part[m] == line[m + k]);
            assert(part[m - 1] == line[m + k - 1]);
        }
        assert forall|m: int| 1 <= m < part.len() implies (bs[#[trigger] part[m]].fork_position matches Some(f) ==> position < f) by {
            assert(part[m] == line[m + k]);
            assert(position < fork_or(ancestry, m + k, upto));
        }
        assert(part[0] == line[k]);
        assert(descends(bs, part));
    }
    if position < upto && sees(bs, i, branch, position) {
        let part = choose|part: Seq<int>| #[trigger]
            descends(bs, part) && part.last() == i && bs[part[0]].id == branch && below_forks(bs, part, position);
        if part.len() > line.len() {
            lemma_lines_agree(bs, part, line, line.len() - 1);
            assert(forked_from(bs, part, part.len() - line.len()));
        }
        let k = line.len() - part.len();
        lemma_lines_agree(bs, part, line, part.len() - 1);
        assert forall|m: int| k < m < ancestry.len() implies position < #[trigger] fork_or(ancestry, m, upto) by {
            lemma_lines_agree(bs, part, line, line.len() - 1 - m);
            assert(bs[line[m]] == ancestry[m]);
            assert(part[m - k] == line[m]);
        }
        lemma_bound(ancestry, k, upto, position);
        assert(bs[line[k]] == ancestry[k]);
        assert(scopes[k].0 == branch);
    }
}

/// Whether a plan begins at or before a position.
pub open spec fn begun(start: ReplayStart, position: u64) -> bool {
    match start {
        ReplayStart::Unbounded => true,
        ReplayStart::Included(p) => p <= position,
        ReplayStart::Excluded(p) => p < position,
    }
}

/// Whether a plan ends behind a position, of a log that ends at `head`.
pub open spec fn unended(end: ReplayEnd, head: u64, position: u64) -> bool {
    match end {
        ReplayEnd::Head => position < head,
        ReplayEnd::At(p) => position < p,
    }
}

/// Whether streams are selected by name, by class, or all.
pub open spec fn stream_asked(streams: StreamSelector, stream: Seq<u8>) -> bool {
    match streams {
        StreamSelector::All => true,
        StreamSelector::Streams(ids) => exists|i: int| 0 <= i < ids@.len() && (#[trigger] ids@[i])@ == stream,
        StreamSelector::PartitionClass { count, index } => spec_u64_from_le_bytes(stream.subrange(0, 8)) % (count as u64) == index,
    }
}

/// Whether a plan asks for a record: an event, between where the plan begins and
/// ends, of a stream it selects, seen from branch `i`, and written in its time.
pub open spec fn asked(db: DbView, plan: ReplayPlan, i: int, record: RecordView) -> bool {
    &&& record.kind is Event
    &&& begun(plan.from, record.position)
    &&& unended(plan.until, db.log.active.next_offset, record.position)
    &&& stream_asked(plan.streams, record.envelope.stream_id)
    &&& sees(db.branches, i, record.envelope.branch_id, record.position)
    &&& plan.time matches Some(range) ==> range.start <= record.envelope.timestamp < range.end
}

/// Whether branch `i` is the one that an identity names.
pub open spec fn is_branch(bs: Seq<BranchView>, i: int, id: Seq<u8>) -> bool {
    0 <= i < bs.len() && bs[i].id == id
}

/// A plan that can be read yields a record exactly where it asks for it, at most
/// as many as it says, and is checked as it says.
pub proof fn lemma_plan_asks(db: DbView, plan: ReplayPlan, i: int, record: RecordView)
    requires
        catalog_valid(db.branches),
        is_branch(db.branches, i, plan.branch@),
        replay_filter(db, plan@) is Ok,
    ensures
        ({
            let f = replay_filter(db, plan@)->Ok_0;
            &&& keeps(f, record) <==> asked(db, plan, i, record)
            &&& f.max_events == plan.max_events
            &&& f.verification == plan.verification
            &&& f.kinds is UserEvents
        }),
{
    let f = replay_filter(db, plan@)->Ok_0;
    lemma_find_distinct(db.branches, i);
    lemma_scopes_seen(db.branches, i, f.until, record.envelope.branch_id, record.position);
    let stream = record.envelope.stream_id;
    match plan.streams {
        StreamSelector::All => {},
        StreamSelector::Streams(ids) => {
            let views = crate::log::select::stream_views(ids@);
            if views.contains(stream) {
                let k = choose|k: int| 0 <= k < views.len() && views[k] == stream;
                assert(ids@[k]@ == stream);
            }
            if exists|k: int| 0 <= k < ids@.len() && (#[trigger] ids@[k])@ == stream {
                let k = choose|k: int| 0 <= k < ids@.len() && (#[trigger] ids@[k])@ == stream;
                assert(views[k] == stream);
            }
        },
        StreamSelector::PartitionClass { count, index } => {
            assert(0 < count);
            let n = spec_u64_from_le_bytes(stream.subrange(0, 8));
            assert(n % (count as u64) < count);
        },
    }
}

/// A plan can be read exactly where it names a class that exists, ends at or
/// below the head, begins and ends where the log still reaches, and names a
/// branch that exists.
pub proof fn lemma_plan_readable(db: DbView, plan: ReplayPlan)
    ensures
        ({
            let head = db.log.active.next_offset;
            let floor = db.log.manifest.retention_floor;
            let known = exists|i: int| is_branch(db.branches, i, plan.branch@);
            let r = replay_filter(db, plan@);
            if plan.streams matches StreamSelector::PartitionClass { count, index } && index >= count {
                r is Err && r->Err_0 is InvalidArgument
            } else if plan.until matches ReplayEnd::At(p) && p > head {
                r is Err && r->Err_0 == ErrorView::OffsetBeyondHead(plan.until->At_0)
            } else if (plan.until matches ReplayEnd::At(p) && p < floor) || (plan.until is Head && head < floor) || !(forall|p: u64|
                begun(plan.from, p) && p < u64::MAX ==> floor <= p) {
                r is Err && r->Err_0 is PositionUnavailable
            } else if !known {
                r is Err && r->Err_0 is BranchNotFound
            } else {
                r is Ok
            }
        }),
{
    let floor = db.log.manifest.retention_floor;
    lemma_find(db.branches, plan.branch@);
    if let Some(i) = find(db.branches, plan.branch@) {
        assert(is_branch(db.branches, i, plan.branch@));
    }
    let from = crate::log::select::start_position(plan.from);
    if from < floor {
        assert(begun(plan.from, from) && from < u64::MAX);
    }
}

proof fn lemma_chosen_filtered(f: FilterView, records: Seq<RecordView>, wanted: spec_fn(RecordView) -> bool)
    requires
        forall|record: RecordView| keeps(f, record) <==> #[trigger] wanted(record),
    ensures
        chosen(f, records) == records.filter(wanted),
    decreases records.len(),
{
    reveal(Seq::filter);
    if records.len() > 0 {
        let rest = records.skip(1);
        lemma_chosen_filtered(f, rest, wanted);
        assert(records =~= seq![records[0]] + rest);
        Seq::filter_distributes_over_add(seq![records[0]], rest, wanted);
        let one = seq![records[0]];
        assert(one.drop_last() =~= Seq::empty());
        assert(one.drop_last().filter(wanted) =~= Seq::empty());
        assert(wanted(records[0]) <==> keeps(f, records[0]));
        if wanted(records[0]) {
            assert(one.filter(wanted) =~= one);
        } else {
            assert(one.filter(wanted) =~= Seq::empty());
            assert(Seq::<RecordView>::empty() + rest.filter(wanted) =~= rest.filter(wanted));
        }
    }
}

/// A replay of a log yields the events that its plan asks for, all of them and
/// in order, or, where it is to yield at most so many, the first so many of
/// them.
pub proof fn lemma_replay_yields(
    db: DbView,
    plan: ReplayPlan,
    i: int,
    parts: Seq<PartView>,
    wss: Seq<Seq<LogWrite>>,
    start: int,
    end: int,
    entries: Seq<Option<(u64, u64)>>,
)
    requires
        catalog_valid(db.branches),
        is_branch(db.branches, i, plan.branch@),
        replay_filter(db, plan@) is Ok,
        parts.len() > 0,
        parts_hold(parts, wss),
        range_selected(
            part_bases(parts),
            parts.last().end,
            replay_filter(db, plan@)->Ok_0.from,
            replay_filter(db, plan@)->Ok_0.until,
            start,
            end,
        ),
        entries_for(parts.subrange(start, end), entries, replay_filter(db, plan@)->Ok_0),
    ensures
        ({
            let f = replay_filter(db, plan@)->Ok_0;
            let all = parts_records(parts, wss).filter(|record: RecordView| asked(db, plan, i, record));
            match log_read(parts.subrange(start, end), entries, walk_start(f.from), f, parts.last().end) {
                Err(_) => false,
                Ok((out, _)) => match plan.max_events {
                    None => out == all,
                    Some(max) => if all.len() < max {
                        out == all
                    } else {
                        out == all.take(max as int)
                    },
                },
            }
        }),
{
    let f = replay_filter(db, plan@)->Ok_0;
    let wanted = |record: RecordView| asked(db, plan, i, record);
    assert forall|record: RecordView| keeps(f, record) <==> #[trigger] wanted(record) by {
        lemma_plan_asks(db, plan, i, record);
    }
    lemma_find_distinct(db.branches, i);
    lemma_chosen_filtered(f, parts_records(parts, wss), wanted);
    lemma_log_read(parts, wss, start, end, entries, f);
}

} // verus!
