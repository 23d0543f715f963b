//! What branching promises of timelines: what a fork sees of its parent, that
//! bounds cascade down a line, and that two timelines agree below the position
//! where they part.
use crate::branch::{
    catalog_valid, divergence_position, find, least_fork, lemma_find_distinct, lemma_find_prefix, path, scope_bound, scopes_of,
    shared_len, BranchView,
};
use crate::log::select::in_scopes;
use vstd::prelude::*;

verus! {

/// Whether every branch but the default one was forked from a parent at a
/// position.
pub open spec fn all_forked(bs: Seq<BranchView>) -> bool {
    forall|i: int| 0 < i < bs.len() ==> (#[trigger] bs[i]).parent is Some && bs[i].fork_position is Some
}

/// The fork position of a line's branch `i`, or the replay's bound where it has
/// none.
pub open spec fn fork_or(line: Seq<BranchView>, i: int, upto: u64) -> u64 {
    match line[i].fork_position {
        Some(f) => f,
        None => upto,
    }
}

/// A position is below a bound exactly when it is below the replay's bound and
/// below every fork further down.
pub proof fn lemma_bound(line: Seq<BranchView>, i: int, upto: u64, p: u64)
    requires
        0 <= i < line.len(),
    ensures
        p < scope_bound(line, i, upto) <==> p < upto && (forall|k: int| i < k < line.len() ==> p < #[trigger] fork_or(line, k, upto)),
    decreases line.len() - i,
{
    if i + 1 < line.len() {
        lemma_bound(line, i + 1, upto, p);
        if p < scope_bound(line, i, upto) {
            assert forall|k: int| i < k < line.len() implies p < #[trigger] fork_or(line, k, upto) by {}
        } else if p < upto && (forall|k: int| i < k < line.len() ==> p < #[trigger] fork_or(line, k, upto)) {
            assert(p < fork_or(line, i + 1, upto));
        }
    }
}

/// Bounds cascade: no branch is seen further than one below it in the line, the
/// end of the line is seen up to the replay's bound, and no branch is seen
/// beyond a fork further down.
pub proof fn lemma_scopes_cascade(line: Seq<BranchView>, upto: u64)
    requires
        line.len() > 0,
    ensures
        scopes_of(line, upto)[line.len() - 1].1 == upto,
        forall|i: int, j: int|
            0 <= i <= j < line.len() ==> (#[trigger] scopes_of(line, upto)[i]).1 <= (#[trigger] scopes_of(line, upto)[j]).1,
        forall|i: int, k: int|
            0 <= i < k < line.len() ==> (#[trigger] scopes_of(line, upto)[i]).1 <= #[trigger] fork_or(line, k, upto),
{
    assert forall|i: int, j: int| 0 <= i <= j < line.len() implies (#[trigger] scopes_of(line, upto)[i]).1 <= (#[trigger] scopes_of(
        line,
        upto,
    )[j]).1 by {
        let b = scope_bound(line, j, upto);
        if b < scope_bound(line, i, upto) {
            lemma_bound(line, i, upto, b);
            lemma_bound(line, j, upto, b);
        }
    }
    assert forall|i: int, k: int| 0 <= i < k < line.len() implies (#[trigger] scopes_of(line, upto)[i]).1 <= #[trigger] fork_or(
        line,
        k,
        upto,
    ) by {
        let f = fork_or(line, k, upto);
        if f < scope_bound(line, i, upto) {
            lemma_bound(line, i, upto, f);
        }
    }
}

/// A fork sees of each ancestor what its parent sees of it, and only below the
/// fork: nothing that is written to an ancestor from there on shows on it.
pub proof fn lemma_fork_view(line: Seq<BranchView>, child: BranchView, upto: u64, i: int, p: u64)
    requires
        0 <= i < line.len(),
        child.fork_position is Some,
    ensures
        p < scope_bound(line.push(child), i, upto) <==> p < child.fork_position->0 && p < scope_bound(line, i, upto),
{
    let longer = line.push(child);
    lemma_bound(longer, i, upto, p);
    lemma_bound(line, i, upto, p);
    assert(fork_or(longer, line.len() as int, upto) == child.fork_position->0);
    assert forall|k: int| i < k < line.len() implies #[trigger] fork_or(line, k, upto) == fork_or(longer, k, upto) by {
        assert(longer[k] == line[k]);
    }
    if p < child.fork_position->0 && p < scope_bound(line, i, upto) {
        assert forall|k: int| i < k < longer.len() implies p < #[trigger] fork_or(longer, k, upto) by {
            if k < line.len() {
                assert(p < fork_or(line, k, upto));
            }
        }
    }
    if p < scope_bound(longer, i, upto) {
        assert forall|k: int| i < k < line.len() implies p < #[trigger] fork_or(line, k, upto) by {
            assert(p < fork_or(longer, k, upto));
        }
    }
}

/// What two lines share.
pub proof fn lemma_shared(left: Seq<BranchView>, right: Seq<BranchView>)
    ensures
        shared_len(left, right) <= left.len(),
        shared_len(left, right) <= right.len(),
        shared_len(left, right) == shared_len(right, left),
        forall|i: int| 0 <= i < shared_len(left, right) ==> (#[trigger] left[i]).id == right[i].id,
        ({
            let n = shared_len(left, right) as int;
            n < left.len() && n < right.len() ==> left[n].id != right[n].id
        }),
    decreases left.len(),
{
    if left.len() > 0 && right.len() > 0 && left[0].id == right[0].id {
        lemma_shared(left.skip(1), right.skip(1));
        let n = shared_len(left, right) as int;
        assert forall|i: int| 0 <= i < n implies (#[trigger] left[i]).id == right[i].id by {
            if i > 0 {
                assert(left.skip(1)[i - 1] == left[i]);
                assert(right.skip(1)[i - 1] == right[i]);
            }
        }
        if n < left.len() && n < right.len() {
            assert(left.skip(1)[n - 1] == left[n]);
            assert(right.skip(1)[n - 1] == right[n]);
        }
    }
}

/// Where two timelines part does not depend on which is called left.
pub proof fn lemma_divergence_symmetric(left: Seq<BranchView>, left_until: u64, right: Seq<BranchView>, right_until: u64)
    ensures
        divergence_position(left, left_until, right, right_until) == divergence_position(right, right_until, left, left_until),
{
    lemma_shared(left, right);
}

/// No later than the bound and every fork in the tail.
proof fn lemma_least_fork(tail: Seq<BranchView>, until: u64)
    ensures
        least_fork(tail, until) <= until,
        forall|i: int| 0 <= i < tail.len() ==> ((#[trigger] tail[i]).fork_position matches Some(f) ==> least_fork(tail, until) <= f),
    decreases tail.len(),
{
    if tail.len() > 0 {
        lemma_least_fork(tail.drop_last(), until);
        assert forall|i: int| 0 <= i < tail.len() implies ((#[trigger] tail[i]).fork_position matches Some(f) ==> least_fork(
            tail,
            until,
        ) <= f) by {
            if i < tail.len() - 1 {
                assert(tail.drop_last()[i] == tail[i]);
            }
        }
    }
}

/// Whether the branches of a line that lie behind the first `n` were forked.
spec fn tail_forked(line: Seq<BranchView>, n: int) -> bool {
    forall|i: int| n <= i < line.len() ==> (#[trigger] line[i]).fork_position is Some
}

/// Whether events of `branch` at `p` respect the fork of every branch in the
/// line that has this identity.
spec fn after_forks(line: Seq<BranchView>, branch: Seq<u8>, p: u64) -> bool {
    forall|i: int| 0 <= i < line.len() ==> ((#[trigger] line[i]).id == branch ==> (line[i].fork_position matches Some(f) ==> f <= p))
}

proof fn lemma_history_one_way(left: Seq<BranchView>, lu: u64, right: Seq<BranchView>, ru: u64, branch: Seq<u8>, p: u64)
    requires
        p < divergence_position(left, lu, right, ru),
        forall|i: int| 0 <= i < shared_len(left, right) ==> #[trigger] left[i] == right[i],
        tail_forked(left, shared_len(left, right) as int),
        tail_forked(right, shared_len(left, right) as int),
        after_forks(left, branch, p),
        in_scopes(scopes_of(left, lu), branch, p),
    ensures
        in_scopes(scopes_of(right, ru), branch, p),
{
    let n = shared_len(left, right) as int;
    lemma_shared(left, right);
    lemma_least_fork(left.skip(n), lu);
    lemma_least_fork(right.skip(n), ru);
    let scopes = scopes_of(left, lu);
    let i = choose|i: int| 0 <= i < scopes.len() && (#[trigger] scopes[i]).0 == branch && p < scopes[i].1;
    assert(left[i].id == branch);
    if i >= n {
        assert(left.skip(n)[i - n] == left[i]);
        assert(left[i].fork_position is Some);
        assert(false);
    }
    lemma_bound(left, i, lu, p);
    assert forall|k: int| i < k < right.len() implies p < #[trigger] fork_or(right, k, ru) by {
        if k < n {
            assert(left[k] == right[k]);
            assert(p < fork_or(left, k, lu));
        } else {
            assert(right.skip(n)[k - n] == right[k]);
            assert(right[k].fork_position is Some);
        }
    }
    lemma_bound(right, i, ru, p);
    assert(left[i] == right[i]);
    assert(scopes_of(right, ru)[i].0 == branch);
}

/// A line of ancestry is made of branches of the catalog; it begins with the
/// default branch and ends with its own.
pub proof fn lemma_path_members(bs: Seq<BranchView>, i: int)
    requires
        catalog_valid(bs),
        0 <= i < bs.len(),
    ensures
        path(bs, i).len() > 0,
        path(bs, i).last() == bs[i],
        forall|k: int| 0 <= k < path(bs, i).len() ==> bs.contains(#[trigger] path(bs, i)[k]),
        all_forked(bs) ==> path(bs, i)[0] == bs[0],
        all_forked(bs) ==> forall|k: int| 1 <= k < path(bs, i).len() ==> (#[trigger] path(bs, i)[k]).fork_position is Some,
    decreases i,
{
    let line = path(bs, i);
    assert(bs[i] == bs[i]);
    match bs[i].parent {
        None => {
            assert(line[0] == bs[i]);
            assert(bs.contains(line[0]));
        },
        Some(p) => {
            lemma_find_prefix(bs, i, p);
            let j = find(bs.take(i), p)->0;
            lemma_path_members(bs, j);
            let above = path(bs, j);
            assert(line == above.push(bs[i]));
            assert forall|k: int| 0 <= k < line.len() implies bs.contains(#[trigger] line[k]) by {
                if k < above.len() {
                    assert(line[k] == above[k]);
                } else {
                    assert(line[k] == bs[i]);
                }
            }
            if all_forked(bs) {
                assert forall|k: int| 1 <= k < line.len() implies (#[trigger] line[k]).fork_position is Some by {
                    if k < above.len() {
                        assert(line[k] == above[k]);
                    } else {
                        assert(i > 0);
                    }
                }
            }
        },
    }
}

/// Whether events of `branch` lie at or behind its fork.
pub open spec fn behind_fork(bs: Seq<BranchView>, branch: Seq<u8>, p: u64) -> bool {
    forall|i: int| 0 <= i < bs.len() ==> ((#[trigger] bs[i]).id == branch ==> (bs[i].fork_position matches Some(f) ==> f <= p))
}

/// Below the position where two timelines part they agree: an event that lies
/// behind the fork of its own branch is visible on both or on neither.
pub proof fn lemma_common_history(bs: Seq<BranchView>, i: int, left_until: u64, j: int, right_until: u64, branch: Seq<u8>, p: u64)
    requires
        catalog_valid(bs),
        all_forked(bs),
        0 <= i < bs.len(),
        0 <= j < bs.len(),
        behind_fork(bs, branch, p),
        p < divergence_position(path(bs, i), left_until, path(bs, j), right_until),
    ensures
        in_scopes(scopes_of(path(bs, i), left_until), branch, p) <==> in_scopes(scopes_of(path(bs, j), right_until), branch, p),
{
    let left = path(bs, i);
    let right = path(bs, j);
    lemma_path_members(bs, i);
    lemma_path_members(bs, j);
    lemma_shared(left, right);
    lemma_divergence_symmetric(left, left_until, right, right_until);
    assert(left[0].id == right[0].id);
    assert(shared_len(left, right) >= 1);
    assert forall|k: int| 0 <= k < shared_len(left, right) implies #[trigger] left[k] == right[k] by {
        assert(left[k].id == right[k].id);
        assert(bs.contains(left[k]) && bs.contains(right[k]));
        let a = choose|a: int| 0 <= a < bs.len() && bs[a] == left[k];
        let b = choose|b: int| 0 <= b < bs.len() && bs[b] == right[k];
        lemma_find_distinct(bs, a);
        lemma_find_distinct(bs, b);
    }
    lemma_after_forks(bs, left, branch, p);
    lemma_after_forks(bs, right, branch, p);
    if in_scopes(scopes_of(left, left_until), branch, p) {
        lemma_history_one_way(left, left_until, right, right_until, branch, p);
    }
    if in_scopes(scopes_of(right, right_until), branch, p) {
        lemma_history_one_way(right, right_until, left, left_until, branch, p);
    }
}

proof fn lemma_after_forks(bs: Seq<BranchView>, line: Seq<BranchView>, branch: Seq<u8>, p: u64)
    requires
        behind_fork(bs, branch, p),
        forall|k: int| 0 <= k < line.len() ==> bs.contains(#[trigger] line[k]),
    ensures
        after_forks(line, branch, p),
{
    assert forall|k: int| 0 <= k < line.len() && (#[trigger] line[k]).id == branch implies (line[k].fork_position matches Some(
        f,
    ) ==> f <= p) by {
        assert(bs.contains(line[k]));
        let a = choose|a: int| 0 <= a < bs.len() && bs[a] == line[k];
        assert(bs[a].id == line[k].id);
    }
}

/// In a catalog whose branches were all forked, any two branches have a common
/// ancestor: the default branch at least.
pub proof fn lemma_common_root(bs: Seq<BranchView>, i: int, j: int)
    requires
        catalog_valid(bs),
        all_forked(bs),
        0 <= i < bs.len(),
        0 <= j < bs.len(),
    ensures
        path(bs, i)[0] == bs[0],
        path(bs, j)[0] == bs[0],
        shared_len(path(bs, i), path(bs, j)) > 0,
{
    lemma_path_members(bs, i);
    lemma_path_members(bs, j);
}

} // verus!
