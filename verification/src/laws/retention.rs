//! What retention and snapshots promise: which events a policy keeps, what
//! stands against letting go of the others, and which snapshots are of use.
use crate::branch::BranchView;
use crate::checksum::crc32c_of;
use crate::commit::{commit_due, PolicyView};
use crate::db::engine::{DbView, Salamander};
use crate::db::retain::{
    blockers_of, branch_blockers, first_newer, lemma_boundary, policy_choice, retention_plan, BlockerView, RetentionPolicy,
};
use crate::log::store::{bases_of, fitting, reclaimable_of, total_bytes};
use crate::retention::{branch_bootstrap_at, BranchBootstrapView, RetentionAnchorInfo};
use crate::snapshot::{of_partition, surplus, InfoView};
use vstd::prelude::*;

verus! {

/// Whether a branch has a checkpoint at a floor whose bytes are whole.
pub open spec fn has_checkpoint(items: Seq<BranchBootstrapView>, branch: Seq<u8>, floor: u64) -> bool {
    exists|i: int|
        0 <= i < items.len() && (#[trigger] items[i]).branch == branch && items[i].floor == floor && crc32c_of(items[i].checkpoint)
            == items[i].checksum
}

proof fn lemma_checkpoint(items: Seq<BranchBootstrapView>, branch: Seq<u8>, floor: u64)
    ensures
        branch_bootstrap_at(items, branch, Some(floor)) is Some <==> has_checkpoint(items, branch, floor),
    decreases items.len(),
{
    if items.len() > 0 {
        let front = items.drop_last();
        let n = items.len() - 1;
        lemma_checkpoint(front, branch, floor);
        if has_checkpoint(front, branch, floor) {
            let i = choose|i: int|
                0 <= i < front.len() && (#[trigger] front[i]).branch == branch && front[i].floor == floor && crc32c_of(front[i].checkpoint)
                    == front[i].checksum;
            assert(items[i] == front[i]);
        }
        if has_checkpoint(items, branch, floor) {
            let i = choose|i: int|
                0 <= i < items.len() && (#[trigger] items[i]).branch == branch && items[i].floor == floor && crc32c_of(items[i].checkpoint)
                    == items[i].checksum;
            if i < n {
                assert(front[i] == items[i]);
            }
        }
        assert(items[n] == items.last());
    }
}

/// Whether a branch stands against a floor: it was forked below it and has no
/// checkpoint there.
pub open spec fn branch_blocks(items: Seq<BranchBootstrapView>, branch: BranchView, floor: u64) -> bool {
    branch.fork_position matches Some(at) && at < floor && !has_checkpoint(items, branch.id, floor)
}

/// Every branch that stands against a floor is named, in order, and no other.
pub proof fn lemma_branches_block(branches: Seq<BranchView>, items: Seq<BranchBootstrapView>, floor: u64)
    ensures
        branch_blockers(branches, items, floor) == branches.filter(|b: BranchView| branch_blocks(items, b, floor)).map_values(
            |b: BranchView| BlockerView::BranchRequiresBootstrap { branch: b.name, fork_position: b.fork_position->0 },
        ),
    decreases branches.len(),
{
    let blocks = |b: BranchView| branch_blocks(items, b, floor);
    let named = |b: BranchView| BlockerView::BranchRequiresBootstrap { branch: b.name, fork_position: b.fork_position->0 };
    reveal(Seq::filter);
    if branches.len() > 0 {
        let front = branches.drop_last();
        lemma_branches_block(front, items, floor);
        lemma_checkpoint(items, branches.last().id, floor);
        if blocks(branches.last()) {
            assert(front.filter(blocks).push(branches.last()).map_values(named) =~= front.filter(blocks).map_values(named).push(
                named(branches.last()),
            ));
        }
    } else {
        assert(branches.filter(blocks).map_values(named) =~= Seq::empty());
    }
}

/// Nothing stands against a floor exactly where the anchor is the one for it, no
/// branch stands against it, and no view is live.
pub proof fn lemma_unblocked(
    db: DbView,
    anchor: Option<RetentionAnchorInfo>,
    items: Seq<BranchBootstrapView>,
    views: Seq<Seq<char>>,
    floor: u64,
)
    ensures
        blockers_of(db, anchor, items, views, floor).len() == 0 <==> {
            &&& anchor matches Some(a) && a.database_id@ == db.log.manifest.database_id@ && a.floor == floor && a.head == db.durable_head
            &&& forall|i: int| 0 <= i < db.branches.len() ==> !branch_blocks(items, #[trigger] db.branches[i], floor)
            &&& views.len() == 0
        },
{
    lemma_none_block(db.branches, items, floor);
}

proof fn lemma_none_block(branches: Seq<BranchView>, items: Seq<BranchBootstrapView>, floor: u64)
    ensures
        branch_blockers(branches, items, floor).len() == 0 <==> forall|i: int|
            0 <= i < branches.len() ==> !branch_blocks(items, #[trigger] branches[i], floor),
    decreases branches.len(),
{
    if branches.len() > 0 {
        let front = branches.drop_last();
        let n = branches.len() - 1;
        lemma_none_block(front, items, floor);
        lemma_checkpoint(items, branches.last().id, floor);
        if branch_blockers(branches, items, floor).len() == 0 {
            assert forall|i: int| 0 <= i < branches.len() implies !branch_blocks(items, #[trigger] branches[i], floor) by {
                if i < n {
                    assert(front[i] == branches[i]);
                }
            }
        } else if forall|i: int| 0 <= i < branches.len() ==> !branch_blocks(items, #[trigger] branches[i], floor) {
            assert(!branch_blocks(items, branches[n], floor));
            assert forall|i: int| 0 <= i < front.len() implies !branch_blocks(items, #[trigger] front[i], floor) by {
                assert(front[i] == branches[i]);
            }
        }
    }
}

/// The segments that are let go are the closed ones below the floor whose size is
/// known.
proof fn lemma_reclaimed(closed: Seq<(u64, Seq<char>)>, sizes: Seq<Option<u64>>, floor: u64, base: u64, bytes: u64)
    requires
        sizes.len() >= closed.len(),
    ensures
        reclaimable_of(closed, sizes, floor).contains((base, bytes)) <==> base < floor && exists|i: int|
            0 <= i < closed.len() && (#[trigger] closed[i]).0 == base && sizes[i] == Some(bytes),
    decreases closed.len(),
{
    if closed.len() > 0 {
        let front = closed.drop_last();
        let n = closed.len() - 1;
        lemma_reclaimed(front, sizes, floor, base, bytes);
        let before = reclaimable_of(front, sizes, floor);
        let all = reclaimable_of(closed, sizes, floor);
        if all.contains((base, bytes)) {
            let k = choose|k: int| 0 <= k < all.len() && all[k] == (base, bytes);
            if k < before.len() {
                assert(before[k] == (base, bytes));
                let i = choose|i: int| 0 <= i < front.len() && (#[trigger] front[i]).0 == base && sizes[i] == Some(bytes);
                assert(closed[i] == front[i]);
            } else {
                assert(closed[n].0 == base && sizes[n] == Some(bytes));
            }
        }
        if base < floor && exists|i: int| 0 <= i < closed.len() && (#[trigger] closed[i]).0 == base && sizes[i] == Some(bytes) {
            let i = choose|i: int| 0 <= i < closed.len() && (#[trigger] closed[i]).0 == base && sizes[i] == Some(bytes);
            if i < n {
                assert(front[i] == closed[i]);
                let k = choose|k: int| 0 <= k < before.len() && before[k] == (base, bytes);
                assert(all[k] == (base, bytes));
            } else {
                assert(all[before.len() as int] == (base, bytes));
            }
        }
    }
}

/// What a plan says: it can be made for a position between the floor and what is
/// durable; it moves the floor to the last segment's base at or below that
/// position, lets go of nothing at or above it, and names all that is below it.
pub proof fn lemma_plan_keeps(db: Salamander, requested: u64, sizes: Seq<Option<u64>>, plan_id: Seq<u8>, base: u64, bytes: u64)
    requires
        sizes.len() >= db@.log.closed.len(),
    ensures
        retention_plan(db, requested, sizes, plan_id) is Ok <==> db@.log.manifest.retention_floor <= requested <= db@.durable_head,
        retention_plan(db, requested, sizes, plan_id) matches Ok(plan) ==> {
            &&& plan.plan_id == plan_id
            &&& plan.requested_floor == requested
            &&& plan.current_floor == db@.log.manifest.retention_floor
            &&& plan.durable_head == db@.durable_head
            &&& plan.generation == db@.log.manifest.retention_generation
            &&& plan.current_floor <= plan.effective_floor <= requested
            &&& plan.effective_floor == plan.current_floor || bases_of(db@.log).contains(plan.effective_floor)
            &&& forall|i: int|
                0 <= i < bases_of(db@.log).len() && (#[trigger] bases_of(db@.log)[i]) <= requested ==> bases_of(db@.log)[i]
                    <= plan.effective_floor
            &&& plan.segments.contains((base, bytes)) <==> base < plan.effective_floor && exists|i: int|
                0 <= i < db@.log.closed.len() && (#[trigger] db@.log.closed[i]).0 == base && sizes[i] == Some(bytes)
            &&& total_bytes(plan.segments) <= u64::MAX ==> plan.bytes == total_bytes(plan.segments)
        },
{
    if let Ok(plan) = retention_plan(db, requested, sizes, plan_id) {
        lemma_boundary(bases_of(db@.log), db@.log.manifest.retention_floor, requested);
        lemma_reclaimed(db@.log.closed, sizes, plan.effective_floor, base, bytes);
    }
}

proof fn lemma_first_newer(events: Seq<(u64, i64)>, cutoff: i64, head: u64)
    ensures
        first_newer(events, cutoff, head) <= head,
        forall|i: int| 0 <= i < events.len() && (#[trigger] events[i]).1 >= cutoff ==> first_newer(events, cutoff, head) <= events[i].0,
        first_newer(events, cutoff, head) == head || exists|i: int|
            0 <= i < events.len() && (#[trigger] events[i]).1 >= cutoff && events[i].0 == first_newer(events, cutoff, head),
    decreases events.len(),
{
    if events.len() > 0 {
        let front = events.drop_last();
        let n = events.len() - 1;
        lemma_first_newer(front, cutoff, head);
        let at = first_newer(events, cutoff, head);
        assert forall|i: int| 0 <= i < events.len() && (#[trigger] events[i]).1 >= cutoff implies at <= events[i].0 by {
            if i < n {
                assert(front[i] == events[i]);
            }
        }
        if at != head {
            if at == first_newer(front, cutoff, head) {
                let i = choose|i: int| 0 <= i < front.len() && (#[trigger] front[i]).1 >= cutoff && front[i].0 == at;
                assert(events[i] == front[i]);
            } else {
                assert(events[n].1 >= cutoff && events[n].0 == at);
            }
        }
    }
}

/// What a policy keeps: from the position it names; the latest so many events, or
/// all where there are no more; or every event that is not older than a time, and
/// nothing below the first such.
pub proof fn lemma_policy_keeps(db: DbView, policy: RetentionPolicy, sizes: Seq<u64>, events: Seq<(u64, i64)>)
    ensures
        ({
            let (floor, met, _) = policy_choice(db, policy, sizes, events);
            let current = db.log.manifest.retention_floor;
            let head = db.durable_head;
            match policy {
                RetentionPolicy::KeepFrom(position) => floor == position && met,
                RetentionPolicy::KeepLatestEvents(count) => {
                    &&& met
                    &&& current <= head ==> current <= floor <= head
                    &&& current <= head && count <= head - current ==> head - floor == count
                    &&& current > head || count > head - current ==> floor == current
                },
                RetentionPolicy::KeepNewerThan(cutoff) => {
                    &&& met
                    &&& floor <= head
                    &&& forall|i: int| 0 <= i < events.len() && (#[trigger] events[i]).1 >= cutoff ==> floor <= events[i].0
                    &&& floor == head || exists|i: int|
                        0 <= i < events.len() && (#[trigger] events[i]).1 >= cutoff && events[i].0 == floor
                },
                RetentionPolicy::TargetLogBytes(_) => true,
            }
        }),
{
    if let RetentionPolicy::KeepNewerThan(cutoff) = policy {
        lemma_first_newer(events, cutoff, db.durable_head);
    }
}

/// A target in bytes keeps the most segments that fit: those from the chosen base
/// on, and one more would not fit; the last stays in any case.
pub proof fn lemma_target_fits(segments: Seq<(u64, u64)>, target: u64) -> (k: int)
    requires
        segments.len() > 0,
    ensures
        0 <= k < segments.len(),
        fitting(segments, target).0 == segments[k].0,
        fitting(segments, target).1 == total_bytes(segments.skip(k)),
        fitting(segments, target).2 <==> total_bytes(segments.skip(k)) <= target,
        !fitting(segments, target).2 ==> k == segments.len() - 1,
        forall|j: int| 0 <= j < k ==> total_bytes(#[trigger] segments.skip(j)) > target,
    decreases segments.len(),
{
    assert(segments.skip(0) =~= segments);
    if segments.len() == 1 {
        assert(segments.skip(1) =~= Seq::empty());
        assert(total_bytes(segments.skip(1)) == 0);
        0
    } else if total_bytes(segments) <= target {
        0
    } else {
        let rest = segments.skip(1);
        let k = lemma_target_fits(rest, target);
        assert(rest.skip(k) =~= segments.skip(k + 1));
        assert(rest[k] == segments[k + 1]);
        assert forall|j: int| 0 <= j < k + 1 implies total_bytes(#[trigger] segments.skip(j)) > target by {
            if j > 0 {
                assert(rest.skip(j - 1) =~= segments.skip(j));
            }
        }
        k + 1
    }
}

/// Whether a snapshot of a partition has two of that partition before it.
pub open spec fn behind_two(items: Seq<InfoView>, partition: Option<u32>, i: int) -> bool {
    exists|a: int, b: int|
        0 <= a < b < i && (#[trigger] items[a]).1.partition == partition && (#[trigger] items[b]).1.partition == partition
}

proof fn lemma_counted(items: Seq<InfoView>, partition: Option<u32>)
    ensures
        of_partition(items, partition) >= 1 <==> exists|a: int| 0 <= a < items.len() && (#[trigger] items[a]).1.partition == partition,
        of_partition(items, partition) >= 2 <==> behind_two(items, partition, items.len() as int),
    decreases items.len(),
{
    if items.len() > 0 {
        let front = items.drop_last();
        let n = items.len() - 1;
        lemma_counted(front, partition);
        assert forall|a: int| 0 <= a < front.len() implies #[trigger] front[a] == items[a] by {}
        if exists|a: int| 0 <= a < front.len() && (#[trigger] front[a]).1.partition == partition {
            let a = choose|a: int| 0 <= a < front.len() && (#[trigger] front[a]).1.partition == partition;
            assert(items[a].1.partition == partition);
            if items[n].1.partition == partition {
                assert(behind_two(items, partition, items.len() as int));
            }
        }
        if behind_two(front, partition, front.len() as int) {
            let (a, b) = choose|a: int, b: int|
                0 <= a < b < front.len() && (#[trigger] front[a]).1.partition == partition && (#[trigger] front[b]).1.partition
                    == partition;
            assert(items[a].1.partition == partition && items[b].1.partition == partition);
        }
        if exists|a: int| 0 <= a < items.len() && (#[trigger] items[a]).1.partition == partition {
            let a = choose|a: int| 0 <= a < items.len() && (#[trigger] items[a]).1.partition == partition;
            if a < n {
                assert(front[a].1.partition == partition);
            }
        }
        if behind_two(items, partition, items.len() as int) {
            let (a, b) = choose|a: int, b: int|
                0 <= a < b < items.len() && (#[trigger] items[a]).1.partition == partition && (#[trigger] items[b]).1.partition
                    == partition;
            assert(front[a].1.partition == partition);
            if b < n {
                assert(front[b].1.partition == partition);
            }
        }
    }
}

/// Of a partition's snapshots, newest first, exactly those behind the two newest
/// are let go.
pub proof fn lemma_two_kept(items: Seq<InfoView>, partition: Option<u32>, name: Seq<char>)
    ensures
        surplus(items, partition).contains(name) <==> exists|i: int|
            0 <= i < items.len() && (#[trigger] items[i]).1.partition == partition && items[i].0 == name && behind_two(
                items,
                partition,
                i,
            ),
    decreases items.len(),
{
    if items.len() > 0 {
        let front = items.drop_last();
        let n = items.len() - 1;
        lemma_two_kept(front, partition, name);
        lemma_counted(front, partition);
        let before = surplus(front, partition);
        let all = surplus(items, partition);
        assert forall|i: int| 0 <= i <= n implies behind_two(front, partition, i) == #[trigger] behind_two(items, partition, i) by {
            if behind_two(front, partition, i) {
                let (a, b) = choose|a: int, b: int|
                    0 <= a < b < i && (#[trigger] front[a]).1.partition == partition && (#[trigger] front[b]).1.partition == partition;
                assert(items[a].1.partition == partition && items[b].1.partition == partition);
            }
            if behind_two(items, partition, i) {
                let (a, b) = choose|a: int, b: int|
                    0 <= a < b < i && (#[trigger] items[a]).1.partition == partition && (#[trigger] items[b]).1.partition == partition;
                assert(front[a].1.partition == partition && front[b].1.partition == partition);
            }
        }
        if all.contains(name) {
            let k = choose|k: int| 0 <= k < all.len() && all[k] == name;
            if k < before.len() {
                assert(before[k] == name);
                let i = choose|i: int|
                    0 <= i < front.len() && (#[trigger] front[i]).1.partition == partition && front[i].0 == name && behind_two(
                        front,
                        partition,
                        i,
                    );
                assert(items[i] == front[i]);
                assert(behind_two(items, partition, i));
            } else {
                assert(items[n].1.partition == partition && items[n].0 == name && behind_two(items, partition, n));
            }
        }
        if exists|i: int|
            0 <= i < items.len() && (#[trigger] items[i]).1.partition == partition && items[i].0 == name && behind_two(
                items,
                partition,
                i,
            ) {
            let i = choose|i: int|
                0 <= i < items.len() && (#[trigger] items[i]).1.partition == partition && items[i].0 == name && behind_two(
                    items,
                    partition,
                    i,
                );
            if i < n {
                assert(front[i] == items[i]);
                assert(behind_two(front, partition, i));
                let k = choose|k: int| 0 <= k < before.len() && before[k] == name;
                assert(all[k] == name);
            } else {
                assert(behind_two(front, partition, n));
                assert(all[before.len() as int] == name);
            }
        }
    }
}

/// A commit is due exactly where any threshold that is set was reached.
pub proof fn lemma_commit_due(p: PolicyView, bytes: u64, count: u64, millis: u64)
    ensures
        commit_due(p, bytes, count, millis) <==> (p.bytes matches Some(t) && t <= bytes) || (p.count matches Some(t) && t <= count) || (
        p.millis matches Some(t) && t <= millis),
{
}

} // verus!
