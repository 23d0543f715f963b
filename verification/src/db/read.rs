//! Reading: what a replay comes to, and how two timelines differ.
use crate::branch::{divergence_position, find, lemma_find, path, scopes_of, shared_len, BranchInfo, BranchView};
use crate::db::engine::{DbView, Salamander};
use crate::error::{ErrorView, Result, SalamanderError};
use crate::format::ids::BranchId;
use crate::log::select::{
    selector_valid, start_position, FilterView, FrameFilter, ReplayEnd, ReplayPlan, ReplayStart, ResolvedFilter, SelectorView,
    StreamSelector, VerificationMode,
};
use crate::text::{decimal, hex_string, hex_text};
use vstd::prelude::*;

verus! {

/// A plan as plain values.
#[verifier::ext_equal]
pub struct ReplayView {
    pub branch: Seq<u8>,
    pub streams: SelectorView,
    pub from: ReplayStart,
    pub until: ReplayEnd,
    pub time: Option<(i64, i64)>,
    pub max_events: Option<u64>,
    pub verification: VerificationMode,
}

impl View for ReplayPlan {
    type V = ReplayView;

    open spec fn view(&self) -> ReplayView {
        ReplayView {
            branch: self.branch@,
            streams: self.streams@,
            from: self.from,
            until: self.until,
            time: match self.time {
                Some(range) => Some((range.start, range.end)),
                None => None,
            },
            max_events: self.max_events,
            verification: self.verification,
        }
    }
}

/// The error for a position that is no longer kept.
pub open spec fn unavailable(db: DbView, requested: u64) -> ErrorView {
    ErrorView::PositionUnavailable {
        requested,
        floor: db.log.manifest.retention_floor,
        head: db.log.active.next_offset,
        bootstrap_available: false,
    }
}

/// The error for a class of streams that cannot be.
pub open spec fn selector_error(s: SelectorView) -> ErrorView {
    match s {
        SelectorView::PartitionClass { count, index } => ErrorView::InvalidArgument(
            "partition class "@ + decimal(index as nat) + " of "@ + decimal(count as nat) + " is not a valid partition"@,
        ),
        _ => arbitrary(),
    }
}

/// The position that an end stands for, or why it cannot be.
pub open spec fn end_position(end: ReplayEnd, head: u64) -> core::result::Result<u64, ErrorView> {
    match end {
        ReplayEnd::Head => Ok(head),
        ReplayEnd::At(position) => if position > head {
            Err(ErrorView::OffsetBeyondHead(position))
        } else {
            Ok(position)
        },
    }
}

/// The position that an end stands for.
pub fn resolve_end(end: ReplayEnd, head: u64) -> (r: Result<u64>)
    ensures
        match end_position(end, head) {
            Ok(position) => r == Ok::<u64, SalamanderError>(position),
            Err(e) => r matches Err(error) && error@ == e,
        },
{
    match end {
        ReplayEnd::Head => Ok(head),
        ReplayEnd::At(position) => if position > head {
            Err(SalamanderError::OffsetBeyondHead(position))
        } else {
            Ok(position)
        },
    }
}

/// What a replay reads, or why it cannot be read.
pub open spec fn replay_filter(db: DbView, plan: ReplayView) -> core::result::Result<FilterView, ErrorView> {
    let floor = db.log.manifest.retention_floor;
    let from = start_position(plan.from);
    if !selector_valid(plan.streams) {
        Err(selector_error(plan.streams))
    } else {
        match end_position(plan.until, db.log.active.next_offset) {
            Err(e) => Err(e),
            Ok(until) => if until < floor {
                Err(unavailable(db, until))
            } else if from < floor {
                Err(unavailable(db, from))
            } else {
                match find(db.branches, plan.branch) {
                    None => Err(ErrorView::BranchNotFound(hex_text(plan.branch))),
                    Some(i) => Ok(
                        FilterView {
                            from,
                            until,
                            selector: plan.streams,
                            scopes: Some(scopes_of(path(db.branches, i), until)),
                            time: plan.time,
                            kinds: FrameFilter::UserEvents,
                            max_events: plan.max_events,
                            verification: plan.verification,
                        },
                    ),
                }
            },
        }
    }
}

/// What to compare: two timelines, each a branch up to a position, and the
/// streams that the resulting plans select.
#[derive(Debug)]
pub struct DiffRequest {
    pub left: BranchId,
    pub right: BranchId,
    pub left_until: ReplayEnd,
    pub right_until: ReplayEnd,
    pub streams: StreamSelector,
}

impl DiffRequest {
    /// Two branches up to the head, all streams.
    pub fn new(left: BranchId, right: BranchId) -> (r: Self)
        ensures
            r == (DiffRequest {
                left,
                right,
                left_until: ReplayEnd::Head,
                right_until: ReplayEnd::Head,
                streams: StreamSelector::All,
            }),
    {
        DiffRequest { left, right, left_until: ReplayEnd::Head, right_until: ReplayEnd::Head, streams: StreamSelector::All }
    }
}

/// One of two timelines: its branch, where it ends, and what it says after the
/// two part.
#[derive(Debug)]
pub struct DiffSide {
    pub branch: BranchInfo,
    pub until: u64,
    pub suffix: ReplayPlan,
}

/// A side as plain values.
#[verifier::ext_equal]
pub struct SideView {
    pub branch: BranchView,
    pub until: u64,
    pub suffix: ReplayView,
}

impl View for DiffSide {
    type V = SideView;

    open spec fn view(&self) -> SideView {
        SideView { branch: self.branch@, until: self.until, suffix: self.suffix@ }
    }
}

/// How two timelines differ: where they part, what they share, and what each
/// says after that.
#[derive(Debug)]
pub struct TimelineDiff {
    pub common_ancestor: BranchInfo,
    pub divergence: u64,
    pub shared: ReplayPlan,
    pub left: DiffSide,
    pub right: DiffSide,
}

/// A difference as plain values.
#[verifier::ext_equal]
pub struct DiffView {
    pub common_ancestor: BranchView,
    pub divergence: u64,
    pub shared: ReplayView,
    pub left: SideView,
    pub right: SideView,
}

impl View for TimelineDiff {
    type V = DiffView;

    open spec fn view(&self) -> DiffView {
        DiffView {
            common_ancestor: self.common_ancestor@,
            divergence: self.divergence,
            shared: self.shared@,
            left: self.left@,
            right: self.right@,
        }
    }
}

/// The plan that reads a window of a branch.
pub open spec fn window(branch: Seq<u8>, streams: SelectorView, from: u64, until: u64) -> ReplayView {
    ReplayView {
        branch,
        streams,
        from: ReplayStart::Included(from),
        until: ReplayEnd::At(until),
        time: None,
        max_events: None,
        verification: VerificationMode::FrameCrc,
    }
}

/// The plan that reads a window of a branch.
pub fn window_plan(branch: BranchId, streams: StreamSelector, from: u64, until: u64) -> (r: ReplayPlan)
    ensures
        r@ == window(branch@, streams@, from, until),
{
    ReplayPlan {
        branch,
        streams,
        from: ReplayStart::Included(from),
        until: ReplayEnd::At(until),
        time: None,
        max_events: None,
        verification: VerificationMode::FrameCrc,
    }
}

/// How two timelines differ, or why they cannot be compared.
pub open spec fn timeline_diff(db: DbView, request: DiffRequest) -> core::result::Result<DiffView, ErrorView> {
    let head = db.log.active.next_offset;
    let floor = db.log.manifest.retention_floor;
    let streams = request.streams@;
    if !selector_valid(streams) {
        Err(selector_error(streams))
    } else if end_position(request.left_until, head) is Err {
        Err(end_position(request.left_until, head)->Err_0)
    } else if end_position(request.right_until, head) is Err {
        Err(end_position(request.right_until, head)->Err_0)
    } else {
        let left_until = end_position(request.left_until, head)->Ok_0;
        let right_until = end_position(request.right_until, head)->Ok_0;
        match (find(db.branches, request.left@), find(db.branches, request.right@)) {
            (None, _) => Err(ErrorView::BranchNotFound(hex_text(request.left@))),
            (Some(_), None) => Err(ErrorView::BranchNotFound(hex_text(request.right@))),
            (Some(i), Some(j)) => {
                let l = path(db.branches, i);
                let r = path(db.branches, j);
                let ancestor = l[shared_len(l, r) - 1];
                let at = divergence_position(l, left_until, r, right_until);
                if at < floor {
                    Err(unavailable(db, at))
                } else {
                    Ok(
                        DiffView {
                            common_ancestor: ancestor,
                            divergence: at,
                            shared: window(ancestor.id, streams, floor, at),
                            left: SideView {
                                branch: db.branches[i],
                                until: left_until,
                                suffix: window(db.branches[i].id, streams, at, left_until),
                            },
                            right: SideView {
                                branch: db.branches[j],
                                until: right_until,
                                suffix: window(db.branches[j].id, streams, at, right_until),
                            },
                        },
                    )
                }
            },
        }
    }
}

impl Salamander {
    /// The error for a position that is no longer kept.
    pub fn position_unavailable(&self, requested: u64) -> (e: SalamanderError)
        ensures
            e@ == unavailable(self@, requested),
    {
        SalamanderError::PositionUnavailable {
            requested,
            floor: self.retention_floor(),
            head: self.head(),
            bootstrap_available: false,
        }
    }

    /// Checks that nothing of the history was let go.
    pub fn require_full_history(&self) -> (r: Result<()>)
        ensures
            r is Ok <==> self@.log.manifest.retention_floor == 0,
            r matches Err(e) ==> e@ == unavailable(self@, 0),
    {
        if self.retention_floor() > 0 {
            return Err(self.position_unavailable(0));
        }
        Ok(())
    }

    /// Checks that the state as of `n` can be rebuilt.
    pub fn check_time_travel(&self, n: u64) -> (r: Result<()>)
        ensures
            r is Ok <==> n <= self@.log.active.next_offset && self@.log.manifest.retention_floor == 0,
            r matches Err(e) ==> e@ == (if n > self@.log.active.next_offset {
                ErrorView::OffsetBeyondHead(n)
            } else {
                unavailable(self@, 0)
            }),
    {
        if n > self.head() {
            return Err(SalamanderError::OffsetBeyondHead(n));
        }
        self.require_full_history()
    }

    /// Checks that a replay can start at `start`.
    pub fn check_replay_start(&self, start: u64) -> (r: Result<()>)
        ensures
            r is Ok <==> start >= self@.log.manifest.retention_floor,
            r matches Err(e) ==> e@ == unavailable(self@, start),
    {
        if start < self.retention_floor() {
            return Err(self.position_unavailable(start));
        }
        Ok(())
    }

    /// What a replay reads. A branch sees its ancestors' events up to where it
    /// left them.
    pub fn read(&self, plan: &ReplayPlan) -> (r: Result<ResolvedFilter>)
        requires
            self.wf(),
        ensures
            match replay_filter(self@, plan@) {
                Ok(filter) => r matches Ok(found) && found@ == filter,
                Err(e) => r matches Err(error) && error@ == e,
            },
    {
        match plan.streams.validate() {
            Ok(()) => {},
            Err(e) => return Err(e),
        }
        let until: u64 = match resolve_end(plan.until, self.head()) {
            Ok(until) => until,
            Err(e) => return Err(e),
        };
        let from: u64 = plan.from.position();
        if until < self.retention_floor() {
            return Err(self.position_unavailable(until));
        }
        if from < self.retention_floor() {
            return Err(self.position_unavailable(from));
        }
        let scopes = match self.branches.replay_scopes(plan.branch, until) {
            Ok(scopes) => scopes,
            Err(e) => return Err(e),
        };
        let time = match &plan.time {
            Some(range) => Some(range.start..range.end),
            None => None,
        };
        let filter = ResolvedFilter {
            from,
            until,
            selector: plan.streams.clone(),
            scopes: Some(scopes),
            time,
            kinds: FrameFilter::UserEvents,
            max_events: plan.max_events,
            verification: plan.verification,
        };
        Ok(filter)
    }

    /// How two timelines differ. It follows from where the branches were forked;
    /// no record is read.
    pub fn diff(&self, request: &DiffRequest) -> (r: Result<TimelineDiff>)
        requires
            self.wf(),
            (find(self@.branches, request.left@) matches Some(i) && find(self@.branches, request.right@) matches Some(j))
                ==> path(self@.branches, find(self@.branches, request.left@)->0)[0].id == path(
                self@.branches,
                find(self@.branches, request.right@)->0,
            )[0].id,
        ensures
            match timeline_diff(self@, *request) {
                Ok(diff) => r matches Ok(found) && found@ == diff,
                Err(e) => r matches Err(error) && error@ == e,
            },
    {
        match request.streams.validate() {
            Ok(()) => {},
            Err(e) => return Err(e),
        }
        let head: u64 = self.head();
        let left_until: u64 = match resolve_end(request.left_until, head) {
            Ok(until) => until,
            Err(e) => return Err(e),
        };
        let right_until: u64 = match resolve_end(request.right_until, head) {
            Ok(until) => until,
            Err(e) => return Err(e),
        };
        let left = match self.branches.get(request.left) {
            Some(info) => info.clone(),
            None => return Err(SalamanderError::BranchNotFound(hex_string(request.left.as_bytes()))),
        };
        let right = match self.branches.get(request.right) {
            Some(info) => info.clone(),
            None => return Err(SalamanderError::BranchNotFound(hex_string(request.right.as_bytes()))),
        };
        proof {
            lemma_find(self@.branches, request.left@);
            lemma_find(self@.branches, request.right@);
        }
        let (common_ancestor, divergence) = match self.branches.divergence(request.left, left_until, request.right, right_until) {
            Ok(pair) => pair,
            Err(e) => return Err(e),
        };
        let floor: u64 = self.retention_floor();
        if divergence < floor {
            return Err(self.position_unavailable(divergence));
        }
        Ok(
            TimelineDiff {
                shared: window_plan(common_ancestor.id, request.streams.clone(), floor, divergence),
                common_ancestor,
                divergence,
                left: DiffSide {
                    suffix: window_plan(left.id, request.streams.clone(), divergence, left_until),
                    branch: left,
                    until: left_until,
                },
                right: DiffSide {
                    suffix: window_plan(right.id, request.streams.clone(), divergence, right_until),
                    branch: right,
                    until: right_until,
                },
            },
        )
    }
}

} // verus!
