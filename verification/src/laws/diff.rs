//! What a comparison of two timelines promises: where they part, what they
//! share, and what each says from there on.
use crate::branch::{
    catalog_valid, divergence_position, find, least_fork, lemma_find, lemma_find_distinct, lemma_find_prefix, path, shared_len,
    BranchView,
};
use crate::db::engine::DbView;
use crate::db::read::{timeline_diff, DiffRequest, ReplayView};
use crate::format::frame::RecordView;
use crate::laws::replay::is_branch;
use crate::log::replay::keeps;
use crate::log::select::{in_scopes, ReplayEnd, ReplayStart, StreamSelector};
use crate::timeline::{all_forked, behind_fork, fork_or, lemma_bound, lemma_common_root, lemma_path_members, lemma_shared};
use vstd::prelude::*;

verus! {

/// The position that a request gives for the end of a timeline.
pub open spec fn end_asked(end: ReplayEnd, head: u64) -> u64 {
    match end {
        ReplayEnd::Head => head,
        ReplayEnd::At(position) => position,
    }
}

/// Whether a plan reads a branch from one position up to another, of the streams
/// that were asked for, and leaves nothing of that out.
pub open spec fn reads_window(plan: ReplayView, branch: Seq<u8>, request: DiffRequest, from: u64, until: u64) -> bool {
    &&& plan.branch == branch
    &&& plan.streams == request.streams@
    &&& plan.from == ReplayStart::Included(from)
    &&& plan.until == ReplayEnd::At(until)
    &&& plan.time is None
    &&& plan.max_events is None
}

/// Each side of a comparison is its own: it is the branch that was asked for, it
/// ends where the request says, and its suffix reads that branch from where the
/// two part up to that end. What is shared reads the common ancestor from the
/// floor of the log up to where the two part.
pub proof fn lemma_sides(db: DbView, request: DiffRequest)
    requires
        timeline_diff(db, request) is Ok,
    ensures
        ({
            let d = timeline_diff(db, request)->Ok_0;
            let head = db.log.active.next_offset;
            &&& d.left.until == end_asked(request.left_until, head) && d.left.until <= head
            &&& d.right.until == end_asked(request.right_until, head) && d.right.until <= head
            &&& db.branches.contains(d.left.branch) && d.left.branch.id == request.left@
            &&& db.branches.contains(d.right.branch) && d.right.branch.id == request.right@
            &&& reads_window(d.left.suffix, request.left@, request, d.divergence, d.left.until)
            &&& reads_window(d.right.suffix, request.right@, request, d.divergence, d.right.until)
            &&& reads_window(d.shared, d.common_ancestor.id, request, db.log.manifest.retention_floor, d.divergence)
            &&& db.log.manifest.retention_floor <= d.divergence
        }),
{
    lemma_find(db.branches, request.left@);
    lemma_find(db.branches, request.right@);
}

/// The least of a bound and of the forks in the tail is one of them.
proof fn lemma_least_taken(tail: Seq<BranchView>, until: u64)
    ensures
        least_fork(tail, until) <= until,
        forall|i: int| 0 <= i < tail.len() ==> ((#[trigger] tail[i]).fork_position matches Some(f) ==> least_fork(tail, until) <= f),
        least_fork(tail, until) == until || exists|i: int|
            0 <= i < tail.len() && (#[trigger] tail[i]).fork_position == Some(least_fork(tail, until)),
    decreases tail.len(),
{
    if tail.len() > 0 {
        let n = tail.len() - 1;
        let front = tail.drop_last();
        lemma_least_taken(front, until);
        let at = least_fork(tail, until);
        assert forall|i: int| 0 <= i < tail.len() implies ((#[trigger] tail[i]).fork_position matches Some(f) ==> at <= f) by {
            if i < n {
                assert(front[i] == tail[i]);
            }
        }
        if at != until {
            if tail[n].fork_position != Some(at) {
                let i = choose|i: int| 0 <= i < front.len() && (#[trigger] front[i]).fork_position == Some(at);
                assert(tail[i] == front[i]);
            }
        }
    }
}

/// Whether a branch stands in a line behind the first `n`, and was forked at a
/// position.
pub open spec fn forked_behind(line: Seq<BranchView>, n: int, position: u64) -> bool {
    exists|k: int| n <= k < line.len() && (#[trigger] line[k]).fork_position == Some(position)
}

/// The common ancestor is the last branch that both lines begin with, and two
/// timelines part at the first of these: the end of either, and every fork of a
/// branch that only one of them goes through.
pub proof fn lemma_parting(db: DbView, request: DiffRequest, i: int, j: int)
    requires
        catalog_valid(db.branches),
        all_forked(db.branches),
        is_branch(db.branches, i, request.left@),
        is_branch(db.branches, j, request.right@),
        timeline_diff(db, request) is Ok,
    ensures
        ({
            let d = timeline_diff(db, request)->Ok_0;
            let left = path(db.branches, i);
            let right = path(db.branches, j);
            exists|n: int|
                {
                    &&& 1 <= n <= left.len() && n <= right.len()
                    &&& d.common_ancestor == #[trigger] left[n - 1]
                    &&& forall|k: int| 0 <= k < n ==> (#[trigger] left[k]).id == right[k].id
                    &&& n < left.len() && n < right.len() ==> left[n].id != right[n].id
                    &&& d.divergence <= d.left.until && d.divergence <= d.right.until
                    &&& forall|k: int| n <= k < left.len() ==> ((#[trigger] left[k]).fork_position matches Some(f) ==> d.divergence <= f)
                    &&& forall|k: int| n <= k < right.len() ==> ((#[trigger] right[k]).fork_position matches Some(f) ==> d.divergence <= f)
                    &&& d.divergence == d.left.until || d.divergence == d.right.until || forked_behind(left, n, d.divergence)
                        || forked_behind(right, n, d.divergence)
                }
        }),
{
    let d = timeline_diff(db, request)->Ok_0;
    let left = path(db.branches, i);
    let right = path(db.branches, j);
    lemma_find_distinct(db.branches, i);
    lemma_find_distinct(db.branches, j);
    lemma_common_root(db.branches, i, j);
    lemma_shared(left, right);
    let n = shared_len(left, right) as int;
    let l = left.skip(n);
    let r = right.skip(n);
    lemma_least_taken(l, d.left.until);
    lemma_least_taken(r, d.right.until);
    assert forall|k: int| n <= k < left.len() implies ((#[trigger] left[k]).fork_position matches Some(f) ==> d.divergence <= f) by {
        assert(l[k - n] == left[k]);
    }
    assert forall|k: int| n <= k < right.len() implies ((#[trigger] right[k]).fork_position matches Some(f) ==> d.divergence <= f) by {
        assert(r[k - n] == right[k]);
    }
    let a = least_fork(l, d.left.until);
    let b = least_fork(r, d.right.until);
    if d.divergence == a && a != d.left.until {
        let k = choose|k: int| 0 <= k < l.len() && (#[trigger] l[k]).fork_position == Some(a);
        assert(left[n + k] == l[k]);
        assert(forked_behind(left, n, d.divergence));
    }
    if d.divergence == b && b != d.right.until {
        let k = choose|k: int| 0 <= k < r.len() && (#[trigger] r[k]).fork_position == Some(b);
        assert(right[n + k] == r[k]);
        assert(forked_behind(right, n, d.divergence));
    }
    assert(d.common_ancestor == left[n - 1]);
}

/// The line of a branch's ancestor is the beginning of its own.
proof fn lemma_ancestor_line(bs: Seq<BranchView>, i: int, n: int) -> (j: int)
    requires
        catalog_valid(bs),
        0 <= i < bs.len(),
        1 <= n <= path(bs, i).len(),
    ensures
        0 <= j <= i,
        bs[j] == path(bs, i)[n - 1],
        path(bs, j) == path(bs, i).take(n),
    decreases i,
{
    let line = path(bs, i);
    if n == line.len() {
        assert(line.take(n) =~= line);
        lemma_path_members(bs, i);
        i
    } else {
        match bs[i].parent {
            None => i,
            Some(p) => {
                lemma_find_prefix(bs, i, p);
                let up = find(bs.take(i), p)->0;
                let above = path(bs, up);
                assert(line == above.push(bs[i]));
                assert(line.take(n) =~= above.take(n));
                lemma_ancestor_line(bs, up, n)
            },
        }
    }
}

/// Below where they part, what a side sees is what the common ancestor sees.
proof fn lemma_shared_seen(bs: Seq<BranchView>, i: int, n: int, until: u64, at: u64, branch: Seq<u8>, p: u64)
    requires
        catalog_valid(bs),
        all_forked(bs),
        0 <= i < bs.len(),
        1 <= n <= path(bs, i).len(),
        at <= until,
        forall|k: int| n <= k < path(bs, i).len() ==> ((#[trigger] path(bs, i)[k]).fork_position matches Some(f) ==> at <= f),
        behind_fork(bs, branch, p),
        p < at,
    ensures
        in_scopes(crate::branch::scopes_of(path(bs, i).take(n), at), branch, p) <==> in_scopes(
            crate::branch::scopes_of(path(bs, i), until),
            branch,
            p,
        ),
{
    let line = path(bs, i);
    let part = line.take(n);
    let whole = crate::branch::scopes_of(line, until);
    let shared = crate::branch::scopes_of(part, at);
    lemma_path_members(bs, i);
    assert forall|k: int| n <= k < line.len() implies p < #[trigger] fork_or(line, k, until) by {
        assert(line[k].fork_position is Some);
    }
    if in_scopes(shared, branch, p) {
        let k = choose|k: int| 0 <= k < shared.len() && (#[trigger] shared[k]).0 == branch && p < shared[k].1;
        lemma_bound(part, k, at, p);
        assert forall|m: int| k < m < line.len() implies p < #[trigger] fork_or(line, m, until) by {
            if m < n {
                assert(part[m] == line[m]);
                assert(p < fork_or(part, m, at));
                assert(line[m].fork_position is Some);
            }
        }
        lemma_bound(line, k, until, p);
        assert(part[k] == line[k]);
        assert(whole[k].0 == branch);
    }
    if in_scopes(whole, branch, p) {
        let k = choose|k: int| 0 <= k < whole.len() && (#[trigger] whole[k]).0 == branch && p < whole[k].1;
        lemma_bound(line, k, until, p);
        if k >= n {
            assert(bs.contains(line[k]));
            let a = choose|a: int| 0 <= a < bs.len() && bs[a] == line[k];
            assert(bs[a].id == branch);
            assert(line[k].fork_position is Some);
            assert(false);
        }
        assert forall|m: int| k < m < part.len() implies p < #[trigger] fork_or(part, m, at) by {
            assert(part[m] == line[m]);
            assert(p < fork_or(line, m, until));
        }
        lemma_bound(part, k, at, p);
        assert(part[k] == line[k]);
        assert(shared[k].0 == branch);
    }
}

/// A window of a branch, from the floor of the log up to a position.
pub open spec fn whole_side(request: DiffRequest, branch: Seq<u8>, floor: u64, until: u64) -> ReplayView {
    ReplayView {
        branch,
        streams: request.streams@,
        from: ReplayStart::Included(floor),
        until: ReplayEnd::At(until),
        time: None,
        max_events: None,
        verification: crate::log::select::VerificationMode::FrameCrc,
    }
}

/// Whether a plan can be read and yields a record.
pub open spec fn yields(db: DbView, plan: ReplayView, record: RecordView) -> bool {
    crate::db::read::replay_filter(db, plan) matches Ok(f) && keeps(f, record)
}

/// What two timelines share and what one of them says after that are, one after
/// the other, that timeline: an event is read of exactly one of the two where it
/// is read of the branch up to its end, and of neither otherwise. An event lies
/// behind the fork of its own branch.
pub proof fn lemma_timeline_joined(db: DbView, request: DiffRequest, i: int, j: int, record: RecordView)
    requires
        catalog_valid(db.branches),
        all_forked(db.branches),
        is_branch(db.branches, i, request.left@),
        is_branch(db.branches, j, request.right@),
        timeline_diff(db, request) is Ok,
        behind_fork(db.branches, record.envelope.branch_id, record.position),
    ensures
        ({
            let d = timeline_diff(db, request)->Ok_0;
            let floor = db.log.manifest.retention_floor;
            let left = whole_side(request, request.left@, floor, d.left.until);
            let right = whole_side(request, request.right@, floor, d.right.until);
            &&& yields(db, left, record) <==> yields(db, d.shared, record) || yields(db, d.left.suffix, record)
            &&& yields(db, right, record) <==> yields(db, d.shared, record) || yields(db, d.right.suffix, record)
            &&& yields(db, d.shared, record) ==> !yields(db, d.left.suffix, record) && !yields(db, d.right.suffix, record)
        }),
{
    let bs = db.branches;
    let d = timeline_diff(db, request)->Ok_0;
    let floor = db.log.manifest.retention_floor;
    let branch = record.envelope.branch_id;
    let p = record.position;
    lemma_sides(db, request);
    lemma_parting(db, request, i, j);
    lemma_find_distinct(bs, i);
    lemma_find_distinct(bs, j);
    let l = path(bs, i);
    let r = path(bs, j);
    lemma_common_root(bs, i, j);
    lemma_shared(l, r);
    let n = shared_len(l, r) as int;
    lemma_least_taken(l.skip(n), d.left.until);
    lemma_least_taken(r.skip(n), d.right.until);
    assert forall|k: int| n <= k < l.len() implies ((#[trigger] l[k]).fork_position matches Some(f) ==> d.divergence <= f) by {
        assert(l.skip(n)[k - n] == l[k]);
    }
    assert forall|k: int| n <= k < r.len() implies ((#[trigger] r[k]).fork_position matches Some(f) ==> d.divergence <= f) by {
        assert(r.skip(n)[k - n] == r[k]);
    }
    let a = lemma_ancestor_line(bs, i, n);
    let b = lemma_ancestor_line(bs, j, n);
    lemma_find_distinct(bs, a);
    lemma_find_distinct(bs, b);
    assert(l[n - 1].id == r[n - 1].id);
    assert(a == b);
    if p < d.divergence {
        lemma_shared_seen(bs, i, n, d.left.until, d.divergence, branch, p);
        lemma_shared_seen(bs, j, n, d.right.until, d.divergence, branch, p);
    }
}

/// Two timelines can be compared exactly where the streams are a class that
/// exists, both ends lie at or below the head, both branches exist, and the log
/// still reaches where they part.
pub proof fn lemma_comparable(db: DbView, request: DiffRequest)
    ensures
        ({
            let head = db.log.active.next_offset;
            let floor = db.log.manifest.retention_floor;
            let l = find(db.branches, request.left@);
            let r = find(db.branches, request.right@);
            timeline_diff(db, request) is Ok <==> {
                &&& request.streams matches StreamSelector::PartitionClass { count, index } ==> index < count
                &&& end_asked(request.left_until, head) <= head && end_asked(request.right_until, head) <= head
                &&& exists|i: int| is_branch(db.branches, i, request.left@)
                &&& exists|j: int| is_branch(db.branches, j, request.right@)
                &&& floor <= divergence_position(
                    path(db.branches, l->0),
                    end_asked(request.left_until, head),
                    path(db.branches, r->0),
                    end_asked(request.right_until, head),
                )
            }
        }),
{
    lemma_find(db.branches, request.left@);
    lemma_find(db.branches, request.right@);
    if let Some(i) = find(db.branches, request.left@) {
        assert(is_branch(db.branches, i, request.left@));
    }
    if let Some(j) = find(db.branches, request.right@) {
        assert(is_branch(db.branches, j, request.right@));
    }
}

} // verus!
