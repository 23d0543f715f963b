//! Letting go of old history: what a floor would reclaim, what stands against
//! it, and moving the floor.
use crate::branch::{BranchName, BranchView};
use crate::bytes::same16;
use crate::db::engine::{DbView, Retained, Salamander};
use crate::error::{invalid_argument, ErrorView, Result, SalamanderError};
use crate::log::store::{
    bases_of, boundary_of, fitting, kept_segments, reclaimable_of, reclaimed_bytes, sized_segments, text_views, total_bytes, LogView,
    Manifest, Removal,
};
use crate::retention::{
    branch_bootstrap_at, branch_bootstrap_views, consumer_bootstrap_at, consumer_bootstrap_views, find_branch_bootstrap,
    find_consumer_bootstrap, BranchBootstrapView, RetentionAnchorInfo, RetentionProjectionCoverage,
};
use crate::snapshot::{SnapshotManifest, SnapshotView};
use crate::text::{decimal, decimal_string, join2, join4, same_text};
use vstd::prelude::*;

verus! {

/// A closed segment that could be reclaimed.
#[derive(Debug, Clone, Copy, PartialEq, Eq, Structural)]
pub struct RetentionSegment {
    pub base_position: u64,
    pub bytes: u64,
}

/// What stands against a floor.
#[derive(Debug)]
pub enum RetentionBlocker {
    /// There is no anchor for the floor.
    EngineAnchorUnavailable,
    /// A branch was forked below the floor, and has no checkpoint there.
    BranchRequiresBootstrap { branch: BranchName, fork_position: u64 },
    /// A live view has no checkpoint.
    ProjectionRequiresBootstrap { name: String },
    /// A consumer stands below the floor.
    ConsumerRequiresBootstrap { consumer_id: String, position: u64 },
    /// Readers or feeds are open.
    MaintenanceHandlesOpen { readers: usize, feeds: usize },
}

/// A blocker as plain values.
#[verifier::ext_equal]
pub enum BlockerView {
    EngineAnchorUnavailable,
    BranchRequiresBootstrap { branch: Seq<char>, fork_position: u64 },
    ProjectionRequiresBootstrap { name: Seq<char> },
    ConsumerRequiresBootstrap { consumer_id: Seq<char>, position: u64 },
    MaintenanceHandlesOpen { readers: usize, feeds: usize },
}

impl View for RetentionBlocker {
    type V = BlockerView;

    open spec fn view(&self) -> BlockerView {
        match *self {
            RetentionBlocker::EngineAnchorUnavailable => BlockerView::EngineAnchorUnavailable,
            RetentionBlocker::BranchRequiresBootstrap { branch, fork_position } => BlockerView::BranchRequiresBootstrap {
                branch: branch@,
                fork_position,
            },
            RetentionBlocker::ProjectionRequiresBootstrap { name } => BlockerView::ProjectionRequiresBootstrap { name: name@ },
            RetentionBlocker::ConsumerRequiresBootstrap { consumer_id, position } => BlockerView::ConsumerRequiresBootstrap {
                consumer_id: consumer_id@,
                position,
            },
            RetentionBlocker::MaintenanceHandlesOpen { readers, feeds } => BlockerView::MaintenanceHandlesOpen { readers, feeds },
        }
    }
}

/// The blockers of a list as plain values.
pub open spec fn blocker_views(blockers: Seq<RetentionBlocker>) -> Seq<BlockerView> {
    Seq::new(blockers.len(), |i: int| blockers[i]@)
}

/// What keeping everything from a position on would come to.
#[derive(Debug)]
pub struct RetentionPlan {
    /// By which a stale plan is told from a current one.
    pub plan_id: [u8; 16],
    pub generation: u64,
    pub requested_floor: u64,
    /// The segment boundary at or below the requested floor.
    pub effective_floor: u64,
    pub current_floor: u64,
    pub durable_head: u64,
    pub reclaimable_segments: Vec<RetentionSegment>,
    pub reclaimable_bytes: u64,
    pub blockers: Vec<RetentionBlocker>,
}

/// A plan as plain values.
#[verifier::ext_equal]
pub struct RetentionPlanView {
    pub plan_id: Seq<u8>,
    pub generation: u64,
    pub requested_floor: u64,
    pub effective_floor: u64,
    pub current_floor: u64,
    pub durable_head: u64,
    pub segments: Seq<(u64, u64)>,
    pub bytes: int,
    pub blockers: Seq<BlockerView>,
}

/// Segments as pairs of base and size.
pub open spec fn segment_pairs(segments: Seq<RetentionSegment>) -> Seq<(u64, u64)> {
    Seq::new(segments.len(), |i: int| (segments[i].base_position, segments[i].bytes))
}

impl View for RetentionPlan {
    type V = RetentionPlanView;

    open spec fn view(&self) -> RetentionPlanView {
        RetentionPlanView {
            plan_id: self.plan_id@,
            generation: self.generation,
            requested_floor: self.requested_floor,
            effective_floor: self.effective_floor,
            current_floor: self.current_floor,
            durable_head: self.durable_head,
            segments: segment_pairs(self.reclaimable_segments@),
            bytes: self.reclaimable_bytes as int,
            blockers: blocker_views(self.blockers@),
        }
    }
}

/// What moving the floor came to.
#[derive(Debug, Clone, Copy, PartialEq, Eq, Structural)]
pub struct RetentionApplyResult {
    pub generation: u64,
    pub floor: u64,
    pub reclaimed_bytes: u64,
}

/// The segments below the floor whose files are still there.
#[derive(Debug)]
pub struct RetentionCleanupStatus {
    pub pending_segments: Vec<RetentionSegment>,
    pub pending_bytes: u64,
}

/// How a floor is chosen.
#[derive(Debug, Clone, Copy, PartialEq, Eq, Structural)]
pub enum RetentionPolicy {
    /// Keep everything from this position on.
    KeepFrom(u64),
    /// Keep so many of the latest events.
    KeepLatestEvents(u64),
    /// Keep every event that is not older than this.
    KeepNewerThan(i64),
    /// Keep as much as fits into so many bytes.
    TargetLogBytes(u64),
}

/// What a policy comes to.
#[derive(Debug)]
pub struct RetentionPolicyPreview {
    pub policy: RetentionPolicy,
    pub selected_floor: u64,
    /// Not where even the last segment takes more than the target.
    pub target_satisfied: bool,
    pub explanation: String,
    pub plan: RetentionPlan,
}

/// Whether the anchor of a database is the one for a floor at its durable head.
pub open spec fn anchor_ready(db: DbView, anchor: Option<RetentionAnchorInfo>, floor: u64) -> bool {
    anchor matches Some(a) && a.database_id@ == db.log.manifest.database_id@ && a.floor == floor && a.head == db.durable_head
}

/// The branches that stand against a floor: those forked below it that have no
/// checkpoint there.
pub open spec fn branch_blockers(branches: Seq<BranchView>, bootstraps: Seq<BranchBootstrapView>, floor: u64) -> Seq<BlockerView>
    decreases branches.len(),
{
    if branches.len() == 0 {
        Seq::empty()
    } else {
        let before = branch_blockers(branches.drop_last(), bootstraps, floor);
        let branch = branches.last();
        match branch.fork_position {
            Some(at) => if at < floor && branch_bootstrap_at(bootstraps, branch.id, Some(floor)) is None {
                before.push(BlockerView::BranchRequiresBootstrap { branch: branch.name, fork_position: at })
            } else {
                before
            },
            None => before,
        }
    }
}

/// Everything that stands against a floor: the missing anchor, branches, and
/// live views.
pub open spec fn blockers_of(
    db: DbView,
    anchor: Option<RetentionAnchorInfo>,
    bootstraps: Seq<BranchBootstrapView>,
    views: Seq<Seq<char>>,
    floor: u64,
) -> Seq<BlockerView> {
    let first = if anchor_ready(db, anchor, floor) {
        Seq::empty()
    } else {
        seq![BlockerView::EngineAnchorUnavailable]
    };
    first + branch_blockers(db.branches, bootstraps, floor) + Seq::new(
        views.len(),
        |i: int| BlockerView::ProjectionRequiresBootstrap { name: views[i] },
    )
}

/// A size, at most as large as a `u64` holds.
pub open spec fn capped_bytes(n: int) -> int {
    if n > u64::MAX {
        u64::MAX as int
    } else {
        n
    }
}

/// What keeping everything from a position on would come to, or why it cannot
/// be planned.
pub open spec fn retention_plan(db: Salamander, requested: u64, sizes: Seq<Option<u64>>, plan_id: Seq<u8>) -> core::result::Result<
    RetentionPlanView,
    ErrorView,
> {
    let floor = db@.log.manifest.retention_floor;
    let effective = boundary_of(bases_of(db@.log), floor, requested);
    let segments = reclaimable_of(db@.log.closed, sizes, effective);
    if requested > db@.durable_head {
        Err(ErrorView::OffsetBeyondHead(requested))
    } else if requested < floor {
        Err(
            ErrorView::InvalidArgument(
                "retention floor cannot move backward from "@ + decimal(floor as nat) + " to "@ + decimal(requested as nat),
            ),
        )
    } else {
        Ok(
            RetentionPlanView {
                plan_id,
                generation: db@.log.manifest.retention_generation,
                requested_floor: requested,
                effective_floor: effective,
                current_floor: floor,
                durable_head: db@.durable_head,
                segments,
                bytes: capped_bytes(total_bytes(segments)),
                blockers: blockers_of(
                    db@,
                    db.retained.anchor,
                    branch_bootstrap_views(db.retained.branch_bootstraps@),
                    text_views(db.views@),
                    effective,
                ),
            },
        )
    }
}

fn to_segments(pairs: &Vec<(u64, u64)>) -> (r: (Vec<RetentionSegment>, u64))
    ensures
        segment_pairs(r.0@) == pairs@,
        r.1 == capped_bytes(total_bytes(pairs@)),
{
    let mut out: Vec<RetentionSegment> = Vec::new();
    let mut i: usize = 0;
    while i < pairs.len()
        invariant
            i <= pairs@.len(),
            out@.len() == i,
            forall|k: int| 0 <= k < i ==> (#[trigger] segment_pairs(out@)[k]) == pairs@[k],
        decreases pairs@.len() - i,
    {
        let ghost before = segment_pairs(out@);
        out.push(RetentionSegment { base_position: pairs[i].0, bytes: pairs[i].1 });
        proof {
            let now = segment_pairs(out@);
            assert forall|k: int| 0 <= k < i + 1 implies (#[trigger] now[k]) == pairs@[k] by {
                if k < i {
                    assert(before[k] == pairs@[k]);
                }
            }
        }
        i = i + 1;
    }
    assert(segment_pairs(out@) =~= pairs@);
    let mut total: u64 = 0;
    let mut k: usize = pairs.len();
    assert(pairs@.skip(k as int) =~= Seq::empty());
    while k > 0
        invariant
            k <= pairs@.len(),
            total == capped_bytes(total_bytes(pairs@.skip(k as int))),
        decreases k,
    {
        proof {
            let tail = pairs@.skip(k - 1);
            assert(tail[0] == pairs@[k - 1]);
            assert(tail.skip(1) =~= pairs@.skip(k as int));
        }
        k = k - 1;
        total = total.saturating_add(pairs[k].1);
    }
    assert(pairs@.skip(0) =~= pairs@);
    (out, total)
}

/// The position of the first event that is not older than a cutoff, else
/// `head`.
pub open spec fn first_newer(events: Seq<(u64, i64)>, cutoff: i64, head: u64) -> u64
    decreases events.len(),
{
    if events.len() == 0 {
        head
    } else {
        let before = first_newer(events.drop_last(), cutoff, head);
        if events.last().1 >= cutoff && events.last().0 < before {
            events.last().0
        } else {
            before
        }
    }
}

/// The floor that keeps so many of the latest events.
pub open spec fn latest_floor(current: u64, head: u64, count: u64) -> int {
    if head <= current {
        current as int
    } else if count >= head - current {
        current as int
    } else {
        head - count
    }
}

/// A timestamp as text.
pub open spec fn signed_decimal(n: int) -> Seq<char> {
    if n < 0 {
        "-"@ + decimal((-n) as nat)
    } else {
        decimal(n as nat)
    }
}

fn signed_string(n: i64) -> (s: String)
    ensures
        s@ == signed_decimal(n as int),
{
    if n >= 0 {
        decimal_string(n as u64)
    } else if n == i64::MIN {
        join2("-", decimal_string(0x8000_0000_0000_0000).as_str())
    } else {
        join2("-", decimal_string((-n) as u64).as_str())
    }
}

/// The floor that a policy selects, whether its target is met, and why.
pub open spec fn policy_choice(db: DbView, policy: RetentionPolicy, sizes: Seq<u64>, events: Seq<(u64, i64)>) -> (u64, bool, Seq<char>) {
    let current = db.log.manifest.retention_floor;
    let head = db.durable_head;
    match policy {
        RetentionPolicy::KeepFrom(position) => (position, true, "selected explicit position "@ + decimal(position as nat)),
        RetentionPolicy::KeepLatestEvents(count) => {
            let selected = latest_floor(current, head, count);
            (
                selected as u64,
                true,
                "selected position "@ + decimal(selected as nat) + " to keep the latest "@ + decimal(count as nat) + " event(s)"@,
            )
        },
        RetentionPolicy::KeepNewerThan(cutoff) => (
            first_newer(events, cutoff, head),
            true,
            "selected earliest event at or after unix-nanosecond cutoff "@ + signed_decimal(cutoff as int),
        ),
        RetentionPolicy::TargetLogBytes(bytes) => {
            let (selected, kept, fits) = fitting(sized_segments(db.log, sizes), bytes);
            (
                selected,
                fits,
                "selected position "@ + decimal(selected as nat) + " with "@ + decimal(kept as nat)
                    + " retained segment byte(s) for target "@ + decimal(bytes as nat),
            )
        },
    }
}

impl Salamander {
    /// Whether a branch has a checkpoint at a floor.
    pub fn has_retention_branch_bootstrap(&self, branch: &[u8; 16], floor: u64) -> (r: bool)
        ensures
            r == (branch_bootstrap_at(branch_bootstrap_views(self.retained.branch_bootstraps@), branch@, Some(floor)) is Some),
    {
        find_branch_bootstrap(&self.retained.branch_bootstraps, branch, Some(floor)).is_some()
    }

    /// Whether a consumer has a checkpoint at a floor.
    pub fn has_retention_consumer_bootstrap(&self, consumer: &str, floor: u64) -> (r: bool)
        ensures
            r == (consumer_bootstrap_at(consumer_bootstrap_views(self.retained.consumer_bootstraps@), consumer@, Some(floor)) is Some),
    {
        find_consumer_bootstrap(&self.retained.consumer_bootstraps, consumer, Some(floor)).is_some()
    }

    fn blockers(&self, floor: u64) -> (r: Vec<RetentionBlocker>)
        ensures
            blocker_views(r@) == blockers_of(
                self@,
                self.retained.anchor,
                branch_bootstrap_views(self.retained.branch_bootstraps@),
                text_views(self.views@),
                floor,
            ),
    {
        let ghost bs = self@.branches;
        let ghost boots = branch_bootstrap_views(self.retained.branch_bootstraps@);
        let mut out: Vec<RetentionBlocker> = Vec::new();
        let manifest = self.log.manifest();
        let ready = match &self.retained.anchor {
            Some(anchor) => same16(&anchor.database_id, &manifest.database_id) && anchor.floor == floor && anchor.head
                == self.durable_head,
            None => false,
        };
        let ghost first = if ready {
            Seq::<BlockerView>::empty()
        } else {
            seq![BlockerView::EngineAnchorUnavailable]
        };
        if !ready {
            out.push(RetentionBlocker::EngineAnchorUnavailable);
        }
        assert(blocker_views(out@) =~= first);
        let mut i: usize = 0;
        assert(bs.take(0) =~= Seq::empty());
        assert(blocker_views(out@) =~= first + branch_blockers(bs.take(0), boots, floor));
        while i < self.branches.len()
            invariant
                i <= bs.len(),
                bs == self@.branches,
                boots == branch_bootstrap_views(self.retained.branch_bootstraps@),
                blocker_views(out@) == first + branch_blockers(bs.take(i as int), boots, floor),
            decreases bs.len() - i,
        {
            let branch = self.branches.at(i);
            assert(bs.take(i + 1).last() == bs[i as int]);
            assert(bs.take(i + 1).drop_last() =~= bs.take(i as int));
            match branch.fork_position {
                Some(at) => {
                    if at < floor && !self.has_retention_branch_bootstrap(branch.id.as_bytes(), floor) {
                        let ghost before = blocker_views(out@);
                        out.push(RetentionBlocker::BranchRequiresBootstrap { branch: branch.name.clone(), fork_position: at });
                        assert(blocker_views(out@) =~= before.push(
                            BlockerView::BranchRequiresBootstrap { branch: bs[i as int].name, fork_position: at },
                        ));
                        assert(blocker_views(out@) =~= first + branch_blockers(bs.take(i + 1), boots, floor));
                    }
                },
                None => {},
            }
            i = i + 1;
        }
        assert(bs.take(i as int) =~= bs);
        let ghost names = text_views(self.views@);
        let ghost shown = Seq::new(names.len(), |k: int| BlockerView::ProjectionRequiresBootstrap { name: names[k] });
        let ghost so_far = first + branch_blockers(bs, boots, floor);
        let mut k: usize = 0;
        assert(so_far + shown.take(0) =~= so_far);
        while k < self.views.len()
            invariant
                k <= self.views@.len(),
                names == text_views(self.views@),
                shown == Seq::new(names.len(), |j: int| BlockerView::ProjectionRequiresBootstrap { name: names[j] }),
                blocker_views(out@) == so_far + shown.take(k as int),
            decreases self.views@.len() - k,
        {
            let ghost before = blocker_views(out@);
            assert(names[k as int] == self.views@[k as int]@);
            out.push(RetentionBlocker::ProjectionRequiresBootstrap { name: self.views[k].clone() });
            assert(blocker_views(out@) =~= before.push(shown[k as int]));
            assert(so_far + shown.take(k + 1) =~= (so_far + shown.take(k as int)).push(shown[k as int]));
            k = k + 1;
        }
        assert(shown.take(k as int) =~= shown);
        out
    }

    /// What keeping everything from a position on would come to. `sizes` are
    /// those of the closed segments' files. Nothing is changed.
    pub fn plan_retention(&self, requested_floor: u64, sizes: &Vec<Option<u64>>, plan_id: [u8; 16]) -> (r: Result<RetentionPlan>)
        requires
            sizes@.len() == self@.log.closed.len(),
        ensures
            match retention_plan(*self, requested_floor, sizes@, plan_id@) {
                Ok(plan) => r matches Ok(found) && found@ == plan,
                Err(e) => r matches Err(error) && error@ == e,
            },
    {
        let head: u64 = self.durable_head();
        let floor: u64 = self.retention_floor();
        if requested_floor > head {
            return Err(SalamanderError::OffsetBeyondHead(requested_floor));
        }
        if requested_floor < floor {
            return Err(
                SalamanderError::InvalidArgument(
                    join4(
                        "retention floor cannot move backward from ",
                        decimal_string(floor).as_str(),
                        " to ",
                        decimal_string(requested_floor).as_str(),
                    ),
                ),
            );
        }
        let (effective_floor, pairs) = self.log.retention_boundary(requested_floor, sizes);
        let (reclaimable_segments, reclaimable_bytes) = to_segments(&pairs);
        let blockers = self.blockers(effective_floor);
        let plan = RetentionPlan {
            plan_id,
            generation: self.log.manifest().retention_generation,
            requested_floor,
            effective_floor,
            current_floor: floor,
            durable_head: head,
            reclaimable_segments,
            reclaimable_bytes,
            blockers,
        };
        Ok(plan)
    }

    /// What a policy comes to. `events` are the positions and timestamps of the
    /// events that are kept now. Nothing is changed.
    pub fn preview_retention_policy(
        &self,
        policy: RetentionPolicy,
        events: &Vec<(u64, i64)>,
        known_sizes: &Vec<u64>,
        sizes: &Vec<Option<u64>>,
        plan_id: [u8; 16],
    ) -> (r: Result<RetentionPolicyPreview>)
        requires
            sizes@.len() == self@.log.closed.len(),
            known_sizes@.len() == self@.log.closed.len(),
            total_bytes(sized_segments(self@.log, known_sizes@)) <= u64::MAX,
        ensures
            ({
                let (selected, fits, why) = policy_choice(self@, policy, known_sizes@, events@);
                match retention_plan(*self, selected, sizes@, plan_id@) {
                    Ok(plan) => r matches Ok(found) && found.policy == policy && found.selected_floor == selected
                        && found.target_satisfied == fits && found.explanation@ == why && found.plan@ == plan,
                    Err(e) => r matches Err(error) && error@ == e,
                }
            }),
    {
        let current: u64 = self.retention_floor();
        let head: u64 = self.durable_head();
        let (selected_floor, target_satisfied, explanation): (u64, bool, String) = match policy {
            RetentionPolicy::KeepFrom(position) => (
                position,
                true,
                join2("selected explicit position ", decimal_string(position).as_str()),
            ),
            RetentionPolicy::KeepLatestEvents(count) => {
                let selected: u64 = if head <= current || count >= head - current {
                    current
                } else {
                    head - count
                };
                let mut why = join4(
                    "selected position ",
                    decimal_string(selected).as_str(),
                    " to keep the latest ",
                    decimal_string(count).as_str(),
                );
                why.append(" event(s)");
                (selected, true, why)
            },
            RetentionPolicy::KeepNewerThan(cutoff) => {
                let mut selected: u64 = head;
                let mut i: usize = 0;
                assert(events@.take(0) =~= Seq::empty());
                while i < events.len()
                    invariant
                        i <= events@.len(),
                        selected == first_newer(events@.take(i as int), cutoff, head),
                    decreases events@.len() - i,
                {
                    assert(events@.take(i + 1).last() == events@[i as int]);
                    assert(events@.take(i + 1).drop_last() =~= events@.take(i as int));
                    if events[i].1 >= cutoff && events[i].0 < selected {
                        selected = events[i].0;
                    }
                    i = i + 1;
                }
                assert(events@.take(i as int) =~= events@);
                (
                    selected,
                    true,
                    join2("selected earliest event at or after unix-nanosecond cutoff ", signed_string(cutoff).as_str()),
                )
            },
            RetentionPolicy::TargetLogBytes(bytes) => {
                let (selected, kept, fits) = self.log.retention_floor_for_bytes(bytes, known_sizes);
                let mut why = join4(
                    "selected position ",
                    decimal_string(selected).as_str(),
                    " with ",
                    decimal_string(kept).as_str(),
                );
                why.append(" retained segment byte(s) for target ");
                why.append(decimal_string(bytes).as_str());
                (selected, fits, why)
            },
        };
        match self.plan_retention(selected_floor, sizes, plan_id) {
            Ok(plan) => Ok(RetentionPolicyPreview { policy, selected_floor, target_satisfied, explanation, plan }),
            Err(e) => Err(e),
        }
    }

    /// Moves the floor, as a plan said, if the database and its anchor are still
    /// as they were then. The manifest that results is the one to store.
    pub fn begin_retention(&mut self, effective_floor: u64, durable_head: u64) -> (r: Result<()>)
        requires
            old(self).wf(),
        ensures
            final(self).wf(),
            final(self).retained == old(self).retained,
            final(self).views == old(self).views,
            ({
                let db = old(self)@;
                let anchor = old(self).retained.anchor;
                if db.durable_head != durable_head {
                    (r matches Err(e) && e@ == ErrorView::InvalidArgument("retention plan is stale because durable head changed"@))
                        && final(self)@ == db
                } else if anchor is None {
                    (r matches Err(e) && e@ == ErrorView::InvalidArgument("retention plan has no verified anchor"@)) && final(self)@ == db
                } else if anchor->0.floor != effective_floor || anchor->0.head != durable_head {
                    (r matches Err(e) && e@ == ErrorView::InvalidArgument("retention plan anchor identity is stale"@)) && final(self)@ == db
                } else if !(db.log.manifest.retention_floor <= effective_floor <= db.log.active.next_offset) {
                    (r matches Err(e) && e@ == ErrorView::InvalidArgument(
                        "invalid retention floor "@ + decimal(effective_floor as nat) + " for current floor "@ + decimal(
                            db.log.manifest.retention_floor as nat,
                        ) + " and head "@ + decimal(db.log.active.next_offset as nat),
                    )) && final(self)@ == db
                } else {
                    r is Ok && final(self)@ == (DbView {
                        log: LogView {
                            manifest: Manifest {
                                retention_floor: effective_floor,
                                retention_generation: if db.log.manifest.retention_generation < u64::MAX {
                                    (db.log.manifest.retention_generation + 1) as u64
                                } else {
                                    u64::MAX
                                },
                                retention_anchor_checksum: Some(anchor->0.checksum),
                                next_offset: db.log.active.next_offset,
                                ..db.log.manifest
                            },
                            ..db.log
                        },
                        ..db
                    })
                }
            }),
    {
        if self.durable_head != durable_head {
            return Err(invalid_argument("retention plan is stale because durable head changed"));
        }
        let anchor = match self.retained.anchor {
            Some(anchor) => anchor,
            None => return Err(invalid_argument("retention plan has no verified anchor")),
        };
        if anchor.floor != effective_floor || anchor.head != durable_head {
            return Err(invalid_argument("retention plan anchor identity is stale"));
        }
        self.log.activate_retention(effective_floor, anchor.checksum)
    }

    /// Lets go of the segments whose files were removed.
    pub fn finish_retention(&mut self, outcomes: &Vec<Removal>) -> (r: RetentionApplyResult)
        requires
            old(self).wf(),
            outcomes@.len() == old(self)@.log.closed.len(),
        ensures
            final(self).wf(),
            final(self).retained == old(self).retained,
            final(self).views == old(self).views,
            final(self)@ == (DbView {
                log: LogView {
                    closed: kept_segments(old(self)@.log.closed, old(self)@.log.manifest.retention_floor, outcomes@),
                    ..old(self)@.log
                },
                ..old(self)@
            }),
            r.generation == old(self)@.log.manifest.retention_generation,
            r.floor == old(self)@.log.manifest.retention_floor,
            r.reclaimed_bytes == reclaimed_bytes(old(self)@.log.closed, old(self)@.log.manifest.retention_floor, outcomes@),
    {
        let reclaimed_bytes: u64 = self.log.reclaim_below_retention_floor(outcomes);
        let manifest = self.log.manifest();
        RetentionApplyResult { generation: manifest.retention_generation, floor: manifest.retention_floor, reclaimed_bytes }
    }

    /// The segments below the floor whose files are still there.
    pub fn retention_cleanup_status(&self, sizes: &Vec<Option<u64>>) -> (r: RetentionCleanupStatus)
        requires
            sizes@.len() == self@.log.closed.len(),
        ensures
            ({
                let floor = self@.log.manifest.retention_floor;
                let pending = reclaimable_of(self@.log.closed, sizes@, boundary_of(bases_of(self@.log), floor, floor));
                &&& segment_pairs(r.pending_segments@) == pending
                &&& r.pending_bytes == capped_bytes(total_bytes(pending))
            }),
    {
        let (_, pairs) = self.log.retention_boundary(self.retention_floor(), sizes);
        let (pending_segments, pending_bytes) = to_segments(&pairs);
        RetentionCleanupStatus { pending_segments, pending_bytes }
    }

    /// Takes what an anchor keeps.
    pub fn publish_anchor(&mut self, retained: Retained)
        requires
            old(self).wf(),
        ensures
            final(self).wf(),
            final(self)@ == old(self)@,
            final(self).retained == retained,
            final(self).views == old(self).views,
    {
        self.retained = retained;
    }

    /// Takes note of a live view; a name counts once.
    pub fn register_view(&mut self, name: String)
        requires
            old(self).wf(),
        ensures
            final(self).wf(),
            final(self)@ == old(self)@,
            final(self).retained == old(self).retained,
            text_views(final(self).views@) == (if text_views(old(self).views@).contains(name@) {
                text_views(old(self).views@)
            } else {
                text_views(old(self).views@).push(name@)
            }),
    {
        if crate::facade::types::has_text(&self.views, name.as_str()) {
            return;
        }
        let ghost before = text_views(self.views@);
        self.views.push(name);
        assert(text_views(self.views@) =~= before.push(name@));
    }

    /// Takes note that a live view is gone.
    pub fn deregister_view(&mut self, name: &str)
        requires
            old(self).wf(),
        ensures
            final(self).wf(),
            final(self)@ == old(self)@,
            final(self).retained == old(self).retained,
            text_views(final(self).views@) == names_without(text_views(old(self).views@), name@),
    {
        let ghost all = text_views(self.views@);
        let mut kept: Vec<String> = Vec::new();
        let mut i: usize = 0;
        assert(all.take(0) =~= Seq::empty());
        assert(text_views(kept@) =~= Seq::empty());
        while i < self.views.len()
            invariant
                i <= all.len(),
                all == text_views(self.views@),
                text_views(kept@) == names_without(all.take(i as int), name@),
            decreases all.len() - i,
        {
            assert(all[i as int] == self.views@[i as int]@);
            assert(all.take(i + 1).last() == all[i as int]);
            assert(all.take(i + 1).drop_last() =~= all.take(i as int));
            if !same_text(self.views[i].as_str(), name) {
                let ghost before = text_views(kept@);
                kept.push(self.views[i].clone());
                assert(text_views(kept@) =~= before.push(all[i as int]));
            }
            i = i + 1;
        }
        assert(all.take(i as int) =~= all);
        self.views = kept;
    }
}

/// The partition that a snapshot is of; one of a whole projection counts as the
/// first.
pub open spec fn partition_number(m: SnapshotView) -> u32 {
    match m.partition {
        Some(p) => p,
        None => 0,
    }
}

/// Whether a snapshot is one of those that cover a projection at the head.
pub open spec fn snapshot_covers(m: Option<SnapshotView>, name: Seq<char>, fingerprint: Seq<u8>, branch: Seq<u8>, head: u64, partitions: u32) -> bool {
    m matches Some(m) && m.name == name && m.fingerprint == fingerprint && m.branch == branch && m.cursor.position == head && (
    match m.partition_count {
        Some(count) => count == partitions,
        None => partitions == 1,
    })
}

/// Whether snapshots cover a projection at the head, one for each partition.
pub open spec fn projection_covered(
    coverage: RetentionProjectionCoverage,
    name: Seq<char>,
    fingerprint: Seq<u8>,
    branch: Seq<u8>,
    head: u64,
    partitions: u32,
    found: Seq<Option<SnapshotView>>,
) -> bool {
    &&& coverage.name@ == name
    &&& coverage.descriptor_fingerprint@ == fingerprint
    &&& coverage.branch_id@ == branch
    &&& coverage.cursor == head
    &&& coverage.snapshot_ids@.len() == partitions
    &&& forall|i: int| 0 <= i < found.len() ==> snapshot_covers(#[trigger] found[i], name, fingerprint, branch, head, partitions)
    &&& forall|i: int, j: int|
        0 <= i < j < found.len() ==> partition_number((#[trigger] found[i])->0) != partition_number((#[trigger] found[j])->0)
}

/// Manifests as plain values.
pub open spec fn found_manifests(found: Seq<Option<SnapshotManifest>>) -> Seq<Option<SnapshotView>> {
    Seq::new(
        found.len(),
        |i: int|
            match found[i] {
                Some(m) => Some(m@),
                None => None,
            },
    )
}

fn partition_seen(found: &Vec<Option<SnapshotManifest>>, n: usize, partition: u32) -> (r: bool)
    requires
        n <= found.len(),
        forall|i: int| 0 <= i < n ==> (#[trigger] found@[i]) is Some,
    ensures
        r == exists|i: int| 0 <= i < n && partition_number((#[trigger] found_manifests(found@)[i])->0) == partition,
{
    let ghost views = found_manifests(found@);
    let mut i: usize = 0;
    while i < n
        invariant
            i <= n <= found@.len(),
            views == found_manifests(found@),
            forall|k: int| 0 <= k < n ==> (#[trigger] found@[k]) is Some,
            forall|k: int| 0 <= k < i ==> partition_number((#[trigger] views[k])->0) != partition,
        decreases n - i,
    {
        assert(found@[i as int] is Some);
        match &found[i] {
            Some(m) => {
                assert(views[i as int] == Some(m@));
                let number: u32 = match m.partition {
                    Some(p) => p,
                    None => 0,
                };
                if number == partition {
                    assert(partition_number(views[i as int]->0) == partition);
                    return true;
                }
            },
            None => {},
        }
        i = i + 1;
    }
    false
}

/// Whether snapshots cover a projection at the head, one for each partition.
/// `found` holds the manifests of the snapshots that the coverage names, where
/// they were found to be whole.
pub fn covers_projection(
    coverage: &RetentionProjectionCoverage,
    name: &str,
    fingerprint: &[u8; 16],
    branch: &[u8; 16],
    head: u64,
    partitions: u32,
    found: &Vec<Option<SnapshotManifest>>,
) -> (r: bool)
    requires
        found@.len() == coverage.snapshot_ids@.len(),
    ensures
        r == projection_covered(*coverage, name@, fingerprint@, branch@, head, partitions, found_manifests(found@)),
{
    let ghost views = found_manifests(found@);
    if !same_text(coverage.name.as_str(), name) || !same16(&coverage.descriptor_fingerprint, fingerprint) || !same16(
        &coverage.branch_id,
        branch,
    ) || coverage.cursor != head || coverage.snapshot_ids.len() as u64 != partitions as u64 {
        return false;
    }
    let mut i: usize = 0;
    while i < found.len()
        invariant
            i <= found@.len(),
            views == found_manifests(found@),
            forall|k: int| 0 <= k < i ==> (#[trigger] found@[k]) is Some,
            forall|k: int| 0 <= k < i ==> snapshot_covers(#[trigger] views[k], name@, fingerprint@, branch@, head, partitions),
            forall|a: int, b: int|
                0 <= a < b < i ==> partition_number((#[trigger] views[a])->0) != partition_number((#[trigger] views[b])->0),
        decreases found@.len() - i,
    {
        let fits = match &found[i] {
            Some(m) => {
                assert(views[i as int] == Some(m@));
                let counted = match m.partition_count {
                    Some(count) => count == partitions,
                    None => partitions == 1,
                };
                same_text(m.projection_name.as_str(), name) && same16(&m.descriptor_fingerprint, fingerprint) && same16(
                    &m.branch_id,
                    branch,
                ) && m.cursor.position == head && counted
            },
            None => {
                assert(views[i as int] is None);
                false
            },
        };
        assert(fits == snapshot_covers(views[i as int], name@, fingerprint@, branch@, head, partitions));
        if !fits {
            return false;
        }
        let number: u32 = match &found[i] {
            Some(m) => match m.partition {
                Some(p) => p,
                None => 0,
            },
            None => 0,
        };
        assert(number == partition_number(views[i as int]->0));
        if partition_seen(found, i, number) {
            proof {
                let k = choose|k: int| 0 <= k < i && partition_number((#[trigger] views[k])->0) == number;
                assert(partition_number(views[k]->0) == partition_number(views[i as int]->0));
            }
            return false;
        }
        i = i + 1;
    }
    true
}

/// Names without one of them.
pub open spec fn names_without(names: Seq<Seq<char>>, name: Seq<char>) -> Seq<Seq<char>>
    decreases names.len(),
{
    if names.len() == 0 {
        Seq::empty()
    } else if names.last() == name {
        names_without(names.drop_last(), name)
    } else {
        names_without(names.drop_last(), name).push(names.last())
    }
}

/// The effective floor of a plan lies between the floor of now and the one that
/// was asked for, and is the base of a segment unless it is the floor of now. So
/// a plan never takes back what was let go, and never takes more than was asked.
pub proof fn lemma_boundary(bases: Seq<u64>, floor: u64, requested: u64)
    requires
        floor <= requested,
    ensures
        floor <= boundary_of(bases, floor, requested) <= requested,
        boundary_of(bases, floor, requested) == floor || bases.contains(boundary_of(bases, floor, requested)),
        forall|i: int| 0 <= i < bases.len() && (#[trigger] bases[i]) <= requested ==> bases[i] <= boundary_of(bases, floor, requested),
    decreases bases.len(),
{
    if bases.len() > 0 {
        let shorter = bases.drop_last();
        lemma_boundary(shorter, floor, requested);
        let before = boundary_of(shorter, floor, requested);
        if shorter.contains(before) {
            assert(bases[shorter.index_of(before)] == before);
        }
        assert(bases[bases.len() - 1] == bases.last());
        assert forall|i: int| 0 <= i < bases.len() && (#[trigger] bases[i]) <= requested implies bases[i] <= boundary_of(
            bases,
            floor,
            requested,
        ) by {
            if i < shorter.len() {
                assert(shorter[i] == bases[i]);
            }
        }
    }
}

/// Choosing a floor by age never lets go of an event that is not older than the
/// cutoff, in whatever order their timestamps stand.
pub proof fn lemma_newer_kept(events: Seq<(u64, i64)>, cutoff: i64, head: u64, i: int)
    requires
        0 <= i < events.len(),
        events[i].1 >= cutoff,
    ensures
        first_newer(events, cutoff, head) <= events[i].0,
    decreases events.len(),
{
    if i < events.len() - 1 {
        lemma_newer_kept(events.drop_last(), cutoff, head, i);
    }
}

} // verus!
