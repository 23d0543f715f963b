//! Bringing a projection up to date, partition by partition, and answering for
//! how up to date it is.
use crate::db::engine::{DbView, Salamander};
use crate::db::read::{window, window_plan};
use crate::facade::error::{conflict_error, invalid_error, EngineError};
use crate::facade::projection::{
    cursor_of, partition_cursor, partition_cursor_of, status_cursor, CursorView, DescriptorView, PartitionStatus, PartitionView,
    ProjectionCursor, ProjectionDescriptor, ProjectionStatus, QueryConsistency, StaleReason, StatusView,
};
use crate::facade::query::{FailureView, ProjectionFailure};
use crate::format::ids::{BranchId, StreamId};
use crate::log::select::{class_of, partition_of, stream_views, ReplayPlan, SelectorView, StreamSelector};
use crate::stream::{last_of_stream, stream_name_error, StreamName};
use crate::text::{decimal, decimal_string, join2, join3, quote, quoted};
use vstd::prelude::*;

verus! {

/// A projection that is registered: what it is, and where it and each of its
/// partitions stand. The state that it folds is kept elsewhere.
#[derive(Debug)]
pub struct QueryState {
    descriptor: ProjectionDescriptor,
    fingerprint: [u8; 16],
    database: [u8; 16],
    status: ProjectionStatus,
    partitions: Vec<PartitionStatus>,
}

/// A registered projection as plain values.
#[verifier::ext_equal]
pub struct QueryView {
    pub descriptor: DescriptorView,
    pub fingerprint: Seq<u8>,
    pub database: Seq<u8>,
    pub status: StatusView,
    pub partitions: Seq<PartitionView>,
}

/// The partitions of a list as plain values.
pub open spec fn partition_views(partitions: Seq<PartitionStatus>) -> Seq<PartitionView> {
    Seq::new(partitions.len(), |i: int| partitions[i]@)
}

impl View for QueryState {
    type V = QueryView;

    closed spec fn view(&self) -> QueryView {
        QueryView {
            descriptor: self.descriptor@,
            fingerprint: self.fingerprint@,
            database: self.database@,
            status: self.status@,
            partitions: partition_views(self.partitions@),
        }
    }
}

/// A projection's cursor at a position.
pub open spec fn cursor_at(q: QueryView, position: u64) -> CursorView {
    CursorView { database: q.database, branch: q.descriptor.branch, position, fingerprint: q.fingerprint }
}

/// How many partitions a projection has.
pub open spec fn partition_total(d: DescriptorView) -> int {
    if d.scheme.count == 0 {
        1
    } else {
        d.scheme.count as int
    }
}

/// The position that partitions are brought to.
pub open spec fn heal_target(consistency: QueryConsistency, head: u64) -> u64 {
    match consistency {
        QueryConsistency::WaitFor(position) => if position < head {
            position
        } else {
            head
        },
        _ => head,
    }
}

/// The position that partitions are brought to.
pub fn target_of(consistency: QueryConsistency, head: u64) -> (r: u64)
    ensures
        r == heal_target(consistency, head),
{
    match consistency {
        QueryConsistency::WaitFor(position) => if position < head {
            position
        } else {
            head
        },
        _ => head,
    }
}

/// What a partition needs.
#[derive(Debug, Clone, Copy, PartialEq, Eq, Structural)]
pub enum HealStep {
    /// Nothing: it failed, is stale, or is up to date.
    Settled,
    /// The events from here to the target.
    Replay { start: u64 },
}

/// A partition after a snapshot of it was found, or not. Only a cold one takes
/// a snapshot.
pub open spec fn partition_restored(status: PartitionView, found: Option<CursorView>) -> PartitionView {
    match (status, found) {
        (PartitionView::Cold { .. }, Some(cursor)) => PartitionView::Ready { cursor },
        _ => status,
    }
}

/// A partition that is about to be brought to a target.
pub open spec fn partition_healing(q: QueryView, status: PartitionView, target: u64) -> (PartitionView, HealStep) {
    let start = partition_cursor_of(status).position;
    if status is Failed || status is Stale {
        (status, HealStep::Settled)
    } else if start >= target {
        (PartitionView::Ready { cursor: cursor_at(q, target) }, HealStep::Settled)
    } else {
        (PartitionView::Healing { cursor: cursor_at(q, start) }, HealStep::Replay { start })
    }
}

/// A partition after the events up to a target were applied, or one of them was
/// not: then it stays where it began.
pub open spec fn partition_healed(q: QueryView, start: u64, target: u64, failure: Option<FailureView>) -> PartitionView {
    match failure {
        Some(error) => PartitionView::Failed { cursor: cursor_at(q, start), error },
        None => PartitionView::Ready { cursor: cursor_at(q, target) },
    }
}

/// The first partition that failed.
pub open spec fn first_failed(partitions: Seq<PartitionView>) -> Option<(CursorView, FailureView)>
    decreases partitions.len(),
{
    if partitions.len() == 0 {
        None
    } else {
        match partitions[0] {
            PartitionView::Failed { cursor, error } => Some((cursor, error)),
            _ => first_failed(partitions.skip(1)),
        }
    }
}

/// The first partition that is stale.
pub open spec fn first_stale(partitions: Seq<PartitionView>) -> Option<(CursorView, StaleReason)>
    decreases partitions.len(),
{
    if partitions.len() == 0 {
        None
    } else {
        match partitions[0] {
            PartitionView::Stale { cursor, reason } => Some((cursor, reason)),
            _ => first_stale(partitions.skip(1)),
        }
    }
}

/// The first of the cursors that are furthest behind.
pub open spec fn least_cursor(partitions: Seq<PartitionView>) -> CursorView
    decreases partitions.len(),
{
    if partitions.len() <= 1 {
        partition_cursor_of(partitions[0])
    } else {
        let before = least_cursor(partitions.drop_last());
        if partition_cursor_of(partitions.last()).position < before.position {
            partition_cursor_of(partitions.last())
        } else {
            before
        }
    }
}

/// Whether every partition is ready.
pub open spec fn all_ready(partitions: Seq<PartitionView>) -> bool {
    forall|i: int| 0 <= i < partitions.len() ==> (#[trigger] partitions[i]) is Ready
}

/// Where a projection stands, by its partitions: failed or stale if any of them
/// is, else as far as the one furthest behind.
pub open spec fn aggregate_status(partitions: Seq<PartitionView>) -> StatusView {
    match first_failed(partitions) {
        Some((cursor, error)) => StatusView::Failed { cursor, error },
        None => match first_stale(partitions) {
            Some((cursor, reason)) => StatusView::Stale { cursor, reason },
            None => if all_ready(partitions) {
                StatusView::Ready { cursor: least_cursor(partitions) }
            } else {
                StatusView::Building { cursor: least_cursor(partitions) }
            },
        },
    }
}

/// Which streams a partition reads: those of its class, or, where the
/// projection is bound to one stream, that one if it is of the class.
pub open spec fn heal_selection(count: u32, partition: u32, stream: Option<Seq<u8>>) -> SelectorView {
    match stream {
        None => SelectorView::PartitionClass { count, index: partition },
        Some(id) => if class_of(id, count) == partition {
            SelectorView::Streams(seq![id])
        } else {
            SelectorView::Streams(Seq::empty())
        },
    }
}

/// Which streams a partition reads.
pub fn heal_selector(count: u32, partition: u32, stream: Option<StreamId>) -> (r: StreamSelector)
    requires
        count > 0,
    ensures
        r@ == heal_selection(
            count,
            partition,
            match stream {
                Some(id) => Some(id@),
                None => None,
            },
        ),
{
    match stream {
        None => StreamSelector::PartitionClass { count, index: partition },
        Some(id) => {
            let mut ids: Vec<StreamId> = Vec::new();
            if partition_of(id, count) == partition {
                ids.push(id);
                assert(stream_views(ids@) =~= seq![id@]);
            } else {
                assert(stream_views(ids@) =~= Seq::empty());
            }
            StreamSelector::Streams(ids)
        },
    }
}

/// The identity of the stream that a projection is kept to: none where it is
/// kept to none, or to one that holds nothing yet.
pub open spec fn kept_stream(db: DbView, d: DescriptorView) -> Option<Seq<u8>> {
    match d.stream {
        Some(name) => if stream_name_error(name) is Some {
            None
        } else {
            match last_of_stream(db.history, d.branch, name) {
                Some(entry) => Some(entry.stream_id),
                None => None,
            }
        },
        None => None,
    }
}

fn stream_kept(db: &Salamander, descriptor: &ProjectionDescriptor) -> (r: Option<StreamId>)
    ensures
        match kept_stream(db@, descriptor@) {
            Some(id) => r matches Some(found) && found@ == id,
            None => r is None,
        },
{
    match &descriptor.scope.stream {
        Some(name) => match StreamName::new(name.as_str()) {
            Ok(name) => db.stream_id(BranchId::from_bytes(descriptor.scope.branch_id), name.as_str()),
            Err(_) => None,
        },
        None => None,
    }
}

/// What is read to bring one partition of a projection from `start` to
/// `target`: of its branch, the streams of its class, or of those the one
/// stream that the projection is kept to.
pub fn heal_plan(db: &Salamander, state: &QueryState, partition: u32, start: u64, target: u64) -> (r: ReplayPlan)
    requires
        0 < state@.partitions.len() <= u32::MAX,
    ensures
        r@ == window(
            state@.descriptor.branch,
            heal_selection(state@.partitions.len() as u32, partition, kept_stream(db@, state@.descriptor)),
            start,
            target,
        ),
{
    let count: u32 = state.partitions.len() as u32;
    let streams = heal_selector(count, partition, stream_kept(db, &state.descriptor));
    window_plan(BranchId::from_bytes(state.descriptor.scope.branch_id), streams, start, target)
}

/// What is read to bring a whole projection from `start` to `head`: all streams
/// of its branch.
pub fn drive_plan(state: &QueryState, start: u64, head: u64) -> (r: ReplayPlan)
    ensures
        r@ == window(state@.descriptor.branch, SelectorView::All, start, head),
{
    window_plan(BranchId::from_bytes(state.descriptor.scope.branch_id), StreamSelector::All, start, head)
}

/// What comes of driving a projection, event by event.
#[derive(Debug)]
pub enum DriveEvent {
    /// The log could not be read.
    ReadFailed(String),
    /// The event at this position could not be read.
    DecodeFailed { position: u64, message: String },
    /// The event at this position was taken.
    Applied { position: u64 },
    /// The event at this position was not taken.
    Refused { position: u64, error: ProjectionFailure },
    /// There are no more events.
    Exhausted,
}

/// What comes of driving a projection, as plain values.
#[verifier::ext_equal]
#[allow(inconsistent_fields)]
pub enum DriveView {
    ReadFailed(Seq<char>),
    DecodeFailed { position: u64, message: Seq<char> },
    Applied { position: u64 },
    Refused { position: u64, error: FailureView },
    Exhausted,
}

impl View for DriveEvent {
    type V = DriveView;

    open spec fn view(&self) -> DriveView {
        match *self {
            DriveEvent::ReadFailed(message) => DriveView::ReadFailed(message@),
            DriveEvent::DecodeFailed { position, message } => DriveView::DecodeFailed { position, message: message@ },
            DriveEvent::Applied { position } => DriveView::Applied { position },
            DriveEvent::Refused { position, error } => DriveView::Refused { position, error: error@ },
            DriveEvent::Exhausted => DriveView::Exhausted,
        }
    }
}

/// Where a projection that is driven to `head` stands next.
pub open spec fn driven(q: QueryView, event: DriveView, head: u64) -> StatusView {
    match event {
        DriveView::ReadFailed(message) => StatusView::Failed {
            cursor: cursor_of(q.status),
            error: FailureView { code: "read"@, message },
        },
        DriveView::DecodeFailed { position, message } => StatusView::Failed {
            cursor: cursor_at(q, position),
            error: FailureView { code: "decode"@, message },
        },
        DriveView::Applied { position } => StatusView::Building { cursor: cursor_at(q, (position + 1) as u64) },
        DriveView::Refused { position, error } => StatusView::Failed { cursor: cursor_at(q, position), error },
        DriveView::Exhausted => StatusView::Ready { cursor: cursor_at(q, head) },
    }
}

/// What registering a projection under a name that is taken comes to.
#[derive(Debug, Clone, Copy, PartialEq, Eq, Structural)]
pub enum Registration {
    /// It is the same one, and it goes on as it is.
    Keep,
    /// It is the same one, and it starts over.
    Restart,
    /// It is another one, and takes the place of the first.
    Replace,
}

/// Whether an answer from a projection is up to date enough.
pub open spec fn acceptable(status: StatusView, consistency: QueryConsistency, head: u64) -> bool {
    match consistency {
        QueryConsistency::AllowStale => !(status is Dropping),
        QueryConsistency::RequireHead => status is Ready && cursor_of(status).position >= head,
        QueryConsistency::WaitFor(position) => !(status is Failed) && !(status is Dropping) && cursor_of(status).position >= position,
    }
}

/// The position that the partitions an answer comes from must have reached.
pub open spec fn touch_target(consistency: QueryConsistency, head: u64) -> u64 {
    match consistency {
        QueryConsistency::RequireHead => head,
        QueryConsistency::AllowStale => 0,
        QueryConsistency::WaitFor(position) => position,
    }
}

/// Whether a partition can answer.
pub open spec fn partition_acceptable(status: PartitionView, consistency: QueryConsistency, head: u64) -> bool {
    !(status is Failed) && !(status is Stale) && (consistency is AllowStale || partition_cursor_of(status).position
        >= touch_target(consistency, head))
}

/// Whether partitions are some, and all in range.
pub open spec fn partitions_named(partitions: Seq<u32>, total: int) -> bool {
    partitions.len() > 0 && forall|i: int| 0 <= i < partitions.len() ==> (#[trigger] partitions[i]) < total
}

impl QueryState {
    /// Whether a registered projection is valid: it has at least one partition.
    pub open spec fn wf(&self) -> bool {
        self@.partitions.len() > 0
    }

    /// A projection that has yet to be built.
    pub fn new(descriptor: ProjectionDescriptor, fingerprint: [u8; 16], database: [u8; 16]) -> (r: Self)
        ensures
            r.wf(),
            r@.descriptor == descriptor@,
            r@.fingerprint == fingerprint@,
            r@.database == database@,
            r@.status == (StatusView::Building { cursor: cursor_at(r@, 0) }),
            r@.partitions == Seq::new(partition_total(descriptor@) as nat, |i: int| PartitionView::Cold { cursor: cursor_at(r@, 0) }),
    {
        let cursor = ProjectionCursor {
            database_id: database,
            branch_id: descriptor.scope.branch_id,
            position: 0,
            descriptor_fingerprint: fingerprint,
        };
        let total: u32 = if descriptor.partition_scheme.partition_count == 0 {
            1
        } else {
            descriptor.partition_scheme.partition_count
        };
        let mut partitions: Vec<PartitionStatus> = Vec::new();
        let mut i: u32 = 0;
        while i < total
            invariant
                i <= total,
                partitions@.len() == i,
                forall|j: int| 0 <= j < i ==> (#[trigger] partitions@[j])@ == (PartitionView::Cold { cursor: cursor@ }),
            decreases total - i,
        {
            partitions.push(PartitionStatus::Cold { cursor });
            i = i + 1;
        }
        let r = QueryState { descriptor, fingerprint, database, status: ProjectionStatus::Building { cursor }, partitions };
        assert(r@.partitions =~= Seq::new(
            partition_total(descriptor@) as nat,
            |i: int| PartitionView::Cold { cursor: cursor_at(r@, 0) },
        ));
        r
    }

    pub fn descriptor(&self) -> (r: &ProjectionDescriptor)
        ensures
            r@ == self@.descriptor,
    {
        &self.descriptor
    }

    pub fn fingerprint(&self) -> (r: [u8; 16])
        ensures
            r@ == self@.fingerprint,
    {
        self.fingerprint
    }

    pub fn database(&self) -> (r: [u8; 16])
        ensures
            r@ == self@.database,
    {
        self.database
    }

    pub fn status(&self) -> (r: &ProjectionStatus)
        ensures
            r@ == self@.status,
    {
        &self.status
    }

    pub fn partitions(&self) -> (r: &Vec<PartitionStatus>)
        ensures
            partition_views(r@) == self@.partitions,
    {
        &self.partitions
    }

    /// The projection's cursor at a position.
    pub fn cursor(&self, position: u64) -> (r: ProjectionCursor)
        ensures
            r@ == cursor_at(self@, position),
    {
        ProjectionCursor {
            database_id: self.database,
            branch_id: self.descriptor.scope.branch_id,
            position,
            descriptor_fingerprint: self.fingerprint,
        }
    }

    /// What registering `descriptor` under this projection's name comes to; one
    /// that is to be replaced is stale from then on.
    pub fn register_again(&mut self, descriptor: &ProjectionDescriptor) -> (r: Registration)
        ensures
            r == (if old(self)@.descriptor != descriptor@ {
                Registration::Replace
            } else if old(self)@.status is Failed || old(self)@.status is Stale {
                Registration::Restart
            } else {
                Registration::Keep
            }),
            final(self)@ == (QueryView {
                status: if r is Replace {
                    StatusView::Stale { cursor: cursor_of(old(self)@.status), reason: StaleReason::DescriptorChanged }
                } else {
                    old(self)@.status
                },
                ..old(self)@
            }),
    {
        if !self.descriptor.same(descriptor) {
            let cursor = status_cursor(&self.status);
            self.status = ProjectionStatus::Stale { cursor, reason: StaleReason::DescriptorChanged };
            return Registration::Replace;
        }
        match &self.status {
            ProjectionStatus::Failed { .. } => Registration::Restart,
            ProjectionStatus::Stale { .. } => Registration::Restart,
            _ => Registration::Keep,
        }
    }

    /// Marks a projection whose runtime has yet to be registered again.
    pub fn await_runtime(&mut self)
        ensures
            final(self)@ == (QueryView {
                status: StatusView::Stale { cursor: cursor_at(old(self)@, 0), reason: StaleReason::DescriptorChanged },
                ..old(self)@
            }),
    {
        let cursor = self.cursor(0);
        self.status = ProjectionStatus::Stale { cursor, reason: StaleReason::DescriptorChanged };
    }

    /// Marks a projection that is being removed.
    pub fn drop_it(&mut self)
        ensures
            final(self)@ == (QueryView { status: StatusView::Dropping, ..old(self)@ }),
    {
        self.status = ProjectionStatus::Dropping;
    }

    /// Starts a projection over.
    pub fn restart(&mut self)
        ensures
            final(self)@ == (QueryView { status: StatusView::Building { cursor: cursor_at(old(self)@, 0) }, ..old(self)@ }),
    {
        let cursor = self.cursor(0);
        self.status = ProjectionStatus::Building { cursor };
    }

    /// Begins to drive a projection to `head`, and says from where its events
    /// are needed, if any are.
    pub fn begin_drive(&mut self, head: u64) -> (r: Option<u64>)
        ensures
            ({
                let start = cursor_of(old(self)@.status).position;
                if start >= head {
                    r is None && final(self)@ == (QueryView { status: StatusView::Ready { cursor: cursor_at(old(self)@, head) }, ..old(self)@ })
                } else {
                    r == Some(start) && final(self)@ == (QueryView {
                        status: StatusView::Building { cursor: cursor_at(old(self)@, start) },
                        ..old(self)@
                    })
                }
            }),
    {
        let start: u64 = status_cursor(&self.status).position;
        if start >= head {
            let cursor = self.cursor(head);
            self.status = ProjectionStatus::Ready { cursor };
            return None;
        }
        let cursor = self.cursor(start);
        self.status = ProjectionStatus::Building { cursor };
        Some(start)
    }

    /// Takes note of what came of driving, and says whether to go on.
    pub fn drive(&mut self, event: DriveEvent, head: u64) -> (r: bool)
        requires
            event@ matches DriveView::Applied { position } ==> position < u64::MAX,
        ensures
            final(self)@ == (QueryView { status: driven(old(self)@, event@, head), ..old(self)@ }),
            r == (event@ is Applied),
    {
        match event {
            DriveEvent::ReadFailed(message) => {
                let cursor = status_cursor(&self.status);
                self.status = ProjectionStatus::Failed { cursor, error: ProjectionFailure::new("read", message.as_str()) };
                false
            },
            DriveEvent::DecodeFailed { position, message } => {
                let cursor = self.cursor(position);
                self.status = ProjectionStatus::Failed { cursor, error: ProjectionFailure::new("decode", message.as_str()) };
                false
            },
            DriveEvent::Applied { position } => {
                let cursor = self.cursor(position + 1);
                self.status = ProjectionStatus::Building { cursor };
                true
            },
            DriveEvent::Refused { position, error } => {
                let cursor = self.cursor(position);
                self.status = ProjectionStatus::Failed { cursor, error };
                false
            },
            DriveEvent::Exhausted => {
                let cursor = self.cursor(head);
                self.status = ProjectionStatus::Ready { cursor };
                false
            },
        }
    }

    /// Whether a partition looks for a snapshot before it is brought up to date.
    pub fn wants_snapshot(&self, partition: u32) -> (r: bool)
        requires
            partition < self@.partitions.len(),
        ensures
            r == (self@.partitions[partition as int] is Cold),
    {
        match &self.partitions[partition as usize] {
            PartitionStatus::Cold { .. } => true,
            _ => false,
        }
    }

    /// Begins to bring a partition to `target`, from the snapshot that was found
    /// for it, if one was.
    pub fn begin_heal(&mut self, partition: u32, found: Option<ProjectionCursor>, target: u64) -> (r: HealStep)
        requires
            partition < old(self)@.partitions.len(),
        ensures
            ({
                let restored = partition_restored(
                    old(self)@.partitions[partition as int],
                    match found {
                        Some(cursor) => Some(cursor@),
                        None => None,
                    },
                );
                let (status, step) = partition_healing(old(self)@, restored, target);
                &&& r == step
                &&& final(self)@ == (QueryView { partitions: old(self)@.partitions.update(partition as int, status), ..old(self)@ })
            }),
    {
        let ghost before = self@;
        let slot: usize = partition as usize;
        assert(before.partitions[partition as int] == self.partitions@[slot as int]@);
        let restored = match &self.partitions[slot] {
            PartitionStatus::Cold { cursor } => match found {
                Some(cursor) => PartitionStatus::Ready { cursor },
                None => PartitionStatus::Cold { cursor: *cursor },
            },
            other => other.clone(),
        };
        let start: u64 = partition_cursor(&restored).position;
        let settled = match &restored {
            PartitionStatus::Failed { .. } => true,
            PartitionStatus::Stale { .. } => true,
            _ => false,
        };
        let (status, step) = if settled {
            (restored, HealStep::Settled)
        } else if start >= target {
            (PartitionStatus::Ready { cursor: self.cursor(target) }, HealStep::Settled)
        } else {
            (PartitionStatus::Healing { cursor: self.cursor(start) }, HealStep::Replay { start })
        };
        let ghost status_view = status@;
        self.partitions.set(slot, status);
        assert(self@.partitions =~= before.partitions.update(partition as int, status_view));
        step
    }

    /// Ends bringing a partition from `start` to `target`.
    pub fn end_heal(&mut self, partition: u32, start: u64, target: u64, failure: Option<ProjectionFailure>)
        requires
            partition < old(self)@.partitions.len(),
        ensures
            final(self)@ == (QueryView {
                partitions: old(self)@.partitions.update(
                    partition as int,
                    partition_healed(
                        old(self)@,
                        start,
                        target,
                        match failure {
                            Some(error) => Some(error@),
                            None => None,
                        },
                    ),
                ),
                ..old(self)@
            }),
    {
        let ghost before = self@;
        let status = match failure {
            Some(error) => PartitionStatus::Failed { cursor: self.cursor(start), error },
            None => PartitionStatus::Ready { cursor: self.cursor(target) },
        };
        let ghost status_view = status@;
        self.partitions.set(partition as usize, status);
        assert(self@.partitions =~= before.partitions.update(partition as int, status_view));
    }

    /// Sets where the projection stands by its partitions.
    pub fn aggregate(&mut self)
        requires
            old(self).wf(),
        ensures
            final(self)@ == (QueryView { status: aggregate_status(old(self)@.partitions), ..old(self)@ }),
    {
        let ghost before = self@;
        let ghost all = self@.partitions;
        let mut i: usize = 0;
        let mut stale: Option<(ProjectionCursor, StaleReason)> = None;
        let mut ready = true;
        let mut least: ProjectionCursor = partition_cursor(&self.partitions[0]);
        assert(all.skip(0) =~= all);
        assert(all[0] == self.partitions@[0]@);
        assert(all.take(1) =~= seq![all[0]]);
        while i < self.partitions.len()
            invariant
                i <= all.len(),
                before == self@,
                before == old(self)@,
                all == before.partitions,
                all.len() > 0,
                first_failed(all) == first_failed(all.skip(i as int)),
                match stale {
                    Some((cursor, reason)) => first_stale(all) == Some((cursor@, reason)),
                    None => first_stale(all) == first_stale(all.skip(i as int)),
                },
                ready <==> forall|j: int| 0 <= j < i ==> (#[trigger] all[j]) is Ready,
                i == 0 ==> least@ == partition_cursor_of(all[0]),
                i > 0 ==> least@ == least_cursor(all.take(i as int)),
            decreases all.len() - i,
        {
            let status = &self.partitions[i];
            assert(all[i as int] == status@);
            assert(all.skip(i as int)[0] == all[i as int]);
            assert(all.skip(i as int).skip(1) =~= all.skip(i + 1));
            match status {
                PartitionStatus::Failed { cursor, error } => {
                    let failed = ProjectionStatus::Failed { cursor: *cursor, error: error.clone() };
                    self.status = failed;
                    return;
                },
                PartitionStatus::Stale { cursor, reason } => {
                    match stale {
                        None => {
                            stale = Some((*cursor, *reason));
                        },
                        Some(_) => {},
                    }
                    ready = false;
                },
                PartitionStatus::Ready { .. } => {},
                _ => {
                    ready = false;
                },
            }
            let cursor = partition_cursor(status);
            proof {
                let upto = all.take(i + 1);
                assert(upto.last() == all[i as int]);
                assert(upto.drop_last() =~= all.take(i as int));
            }
            if cursor.position < least.position {
                least = cursor;
            }
            i = i + 1;
        }
        assert(all.skip(i as int) =~= Seq::empty());
        assert(all.take(i as int) =~= all);
        self.status = match stale {
            Some((cursor, reason)) => ProjectionStatus::Stale { cursor, reason },
            None => if ready {
                ProjectionStatus::Ready { cursor: least }
            } else {
                ProjectionStatus::Building { cursor: least }
            },
        };
    }

    /// The partitions that are ready, and so have to be kept up to date.
    pub fn ready_partitions(&self) -> (r: Vec<u32>)
        requires
            self@.partitions.len() <= u32::MAX,
        ensures
            r@ == ready_of(self@.partitions),
    {
        let ghost all = self@.partitions;
        let mut ready: Vec<u32> = Vec::new();
        let mut i: usize = 0;
        assert(all.take(0) =~= Seq::empty());
        while i < self.partitions.len()
            invariant
                i <= all.len(),
                all == self@.partitions,
                all.len() <= u32::MAX,
                ready@ == ready_of(all.take(i as int)),
            decreases all.len() - i,
        {
            assert(all[i as int] == self.partitions@[i as int]@);
            assert(all.take(i + 1).last() == all[i as int]);
            assert(all.take(i + 1).drop_last() =~= all.take(i as int));
            match &self.partitions[i] {
                PartitionStatus::Ready { .. } => {
                    ready.push(i as u32);
                },
                _ => {},
            }
            i = i + 1;
        }
        assert(all.take(i as int) =~= all);
        ready
    }

    /// Checks that partitions are some, and all in range.
    pub fn validate_partitions(&self, partitions: &Vec<u32>) -> (r: core::result::Result<(), EngineError>)
        ensures
            r is Ok <==> partitions_named(partitions@, self@.partitions.len() as int),
            r matches Err(e) ==> e@ == invalid_error("query partition set is empty or out of range"@),
    {
        let total: usize = self.partitions.len();
        if partitions.len() == 0 {
            return Err(EngineError::invalid("query partition set is empty or out of range"));
        }
        let mut i: usize = 0;
        while i < partitions.len()
            invariant
                i <= partitions@.len(),
                partitions@.len() > 0,
                total == self@.partitions.len(),
                forall|j: int| 0 <= j < i ==> (#[trigger] partitions@[j]) < total,
            decreases partitions@.len() - i,
        {
            if partitions[i] as usize >= total {
                assert(!(partitions@[i as int] < total));
                return Err(EngineError::invalid("query partition set is empty or out of range"));
            }
            i = i + 1;
        }
        Ok(())
    }

    /// Checks that the projection is up to date enough to answer.
    pub fn check_query(&self, consistency: QueryConsistency, head: u64) -> (r: core::result::Result<(), EngineError>)
        ensures
            r is Ok <==> acceptable(self@.status, consistency, head),
            r matches Err(e) ==> e@ == conflict_error("projection_not_ready"@, "projection status is "@ + status_text(self@.status)),
    {
        let position: u64 = status_cursor(&self.status).position;
        let ready = match &self.status {
            ProjectionStatus::Ready { .. } => true,
            _ => false,
        };
        let failed = match &self.status {
            ProjectionStatus::Failed { .. } => true,
            _ => false,
        };
        let dropping = match &self.status {
            ProjectionStatus::Dropping => true,
            _ => false,
        };
        let fine = match consistency {
            QueryConsistency::AllowStale => !dropping,
            QueryConsistency::RequireHead => ready && position >= head,
            QueryConsistency::WaitFor(wanted) => !failed && !dropping && position >= wanted,
        };
        if fine {
            return Ok(());
        }
        let message = join2("projection status is ", status_string(&self.status).as_str());
        Err(EngineError::conflict("projection_not_ready", message.as_str()))
    }

    /// Checks that the partitions which an answer comes from are up to date
    /// enough.
    pub fn check_partitions(&self, partitions: &Vec<u32>, consistency: QueryConsistency, head: u64) -> (r: core::result::Result<(), EngineError>)
        requires
            partitions_named(partitions@, self@.partitions.len() as int),
        ensures
            r is Ok <==> forall|i: int|
                0 <= i < partitions@.len() ==> partition_acceptable(
                    self@.partitions[(#[trigger] partitions@[i]) as int],
                    consistency,
                    head,
                ),
            r matches Err(e) ==> e@ == conflict_error("projection_not_ready"@, "one or more requested partitions are not ready"@),
    {
        let target: u64 = match consistency {
            QueryConsistency::RequireHead => head,
            QueryConsistency::AllowStale => 0,
            QueryConsistency::WaitFor(position) => position,
        };
        let mut i: usize = 0;
        while i < partitions.len()
            invariant
                i <= partitions@.len(),
                target == touch_target(consistency, head),
                partitions_named(partitions@, self@.partitions.len() as int),
                forall|j: int|
                    0 <= j < i ==> partition_acceptable(self@.partitions[(#[trigger] partitions@[j]) as int], consistency, head),
            decreases partitions@.len() - i,
        {
            let slot: usize = partitions[i] as usize;
            assert(partitions@[i as int] < self@.partitions.len());
            let status = &self.partitions[slot];
            assert(self@.partitions[partitions@[i as int] as int] == status@);
            let broken = match status {
                PartitionStatus::Failed { .. } => true,
                PartitionStatus::Stale { .. } => true,
                _ => false,
            };
            if broken || partition_cursor(status).position < target {
                assert(!partition_acceptable(self@.partitions[partitions@[i as int] as int], consistency, head));
                return Err(EngineError::conflict("projection_not_ready", "one or more requested partitions are not ready"));
            }
            i = i + 1;
        }
        Ok(())
    }
}

/// The partitions that are ready, by number.
pub open spec fn ready_of(partitions: Seq<PartitionView>) -> Seq<u32>
    decreases partitions.len(),
{
    if partitions.len() == 0 {
        Seq::empty()
    } else {
        let before = ready_of(partitions.drop_last());
        if partitions.last() is Ready {
            before.push((partitions.len() - 1) as u32)
        } else {
            before
        }
    }
}

/// Bytes as a list of numbers.
pub open spec fn byte_list(bytes: Seq<u8>) -> Seq<char>
    decreases bytes.len(),
{
    if bytes.len() == 0 {
        Seq::empty()
    } else if bytes.len() == 1 {
        decimal(bytes[0] as nat)
    } else {
        byte_list(bytes.drop_last()) + ", "@ + decimal(bytes.last() as nat)
    }
}

/// The text of bytes.
pub open spec fn bytes_text(bytes: Seq<u8>) -> Seq<char> {
    "["@ + byte_list(bytes) + "]"@
}

/// The text of a cursor.
pub open spec fn cursor_text(c: CursorView) -> Seq<char> {
    "ProjectionCursor { database_id: "@ + bytes_text(c.database) + ", branch_id: "@ + bytes_text(c.branch) + ", position: "@ + decimal(
        c.position as nat,
    ) + ", descriptor_fingerprint: "@ + bytes_text(c.fingerprint) + " }"@
}

/// The text of a status.
pub open spec fn status_text(status: StatusView) -> Seq<char> {
    match status {
        StatusView::Building { cursor } => "Building { cursor: "@ + cursor_text(cursor) + " }"@,
        StatusView::Ready { cursor } => "Ready { cursor: "@ + cursor_text(cursor) + " }"@,
        StatusView::Stale { cursor, reason } => "Stale { cursor: "@ + cursor_text(cursor) + ", reason: "@ + (match reason {
            StaleReason::DescriptorChanged => "DescriptorChanged"@,
            StaleReason::BehindHead { head } => "BehindHead { head: "@ + decimal(head as nat) + " }"@,
        }) + " }"@,
        StatusView::Failed { cursor, error } => "Failed { cursor: "@ + cursor_text(cursor) + ", error: ProjectionFailure { code: "@ + quoted(
            error.code,
        ) + ", message: "@ + quoted(error.message) + " } }"@,
        StatusView::Dropping => "Dropping"@,
    }
}

pub(crate) fn bytes_string(bytes: &[u8]) -> (s: String)
    ensures
        s@ == bytes_text(bytes@),
{
    let mut list = String::new();
    let mut i: usize = 0;
    assert(bytes@.take(0) =~= Seq::empty());
    assert(list@ =~= Seq::empty());
    while i < bytes.len()
        invariant
            i <= bytes@.len(),
            list@ == byte_list(bytes@.take(i as int)),
        decreases bytes@.len() - i,
    {
        proof {
            assert(bytes@.take(i + 1).last() == bytes@[i as int]);
            assert(bytes@.take(i + 1).drop_last() =~= bytes@.take(i as int));
        }
        if i > 0 {
            list.append(", ");
        }
        list.append(decimal_string(bytes[i] as u64).as_str());
        proof {
            if i == 0 {
                assert(list@ =~= decimal(bytes@[0] as nat));
            }
        }
        i = i + 1;
    }
    assert(bytes@.take(i as int) =~= bytes@);
    join3("[", list.as_str(), "]")
}

fn cursor_string(cursor: &ProjectionCursor) -> (s: String)
    ensures
        s@ == cursor_text(cursor@),
{
    let mut s = join2("ProjectionCursor { database_id: ", bytes_string(&cursor.database_id).as_str());
    s.append(", branch_id: ");
    s.append(bytes_string(&cursor.branch_id).as_str());
    s.append(", position: ");
    s.append(decimal_string(cursor.position).as_str());
    s.append(", descriptor_fingerprint: ");
    s.append(bytes_string(&cursor.descriptor_fingerprint).as_str());
    s.append(" }");
    s
}

fn status_string(status: &ProjectionStatus) -> (s: String)
    ensures
        s@ == status_text(status@),
{
    match status {
        ProjectionStatus::Building { cursor } => join3("Building { cursor: ", cursor_string(cursor).as_str(), " }"),
        ProjectionStatus::Ready { cursor } => join3("Ready { cursor: ", cursor_string(cursor).as_str(), " }"),
        ProjectionStatus::Stale { cursor, reason } => {
            let mut s = join3("Stale { cursor: ", cursor_string(cursor).as_str(), ", reason: ");
            match reason {
                StaleReason::DescriptorChanged => s.append("DescriptorChanged"),
                StaleReason::BehindHead { head } => s.append(
                    join3("BehindHead { head: ", decimal_string(*head).as_str(), " }").as_str(),
                ),
            }
            s.append(" }");
            s
        },
        ProjectionStatus::Failed { cursor, error } => {
            let mut s = join3("Failed { cursor: ", cursor_string(cursor).as_str(), ", error: ProjectionFailure { code: ");
            s.append(quote(error.code.as_str()).as_str());
            s.append(", message: ");
            s.append(quote(error.message.as_str()).as_str());
            s.append(" } }");
            s
        },
        ProjectionStatus::Dropping => "Dropping".to_owned(),
    }
}

proof fn lemma_all_ready(partitions: Seq<PartitionView>)
    requires
        all_ready(partitions),
    ensures
        first_failed(partitions) is None,
        first_stale(partitions) is None,
    decreases partitions.len(),
{
    if partitions.len() > 0 {
        assert(partitions[0] is Ready);
        assert forall|i: int| 0 <= i < partitions.skip(1).len() implies (#[trigger] partitions.skip(1)[i]) is Ready by {
            assert(partitions[i + 1] is Ready);
        }
        lemma_all_ready(partitions.skip(1));
    }
}

proof fn lemma_least_cursor(partitions: Seq<PartitionView>, position: u64)
    requires
        partitions.len() > 0,
        forall|i: int| 0 <= i < partitions.len() ==> partition_cursor_of(#[trigger] partitions[i]).position == position,
    ensures
        least_cursor(partitions).position == position,
    decreases partitions.len(),
{
    assert(partition_cursor_of(partitions[0]).position == position);
    if partitions.len() > 1 {
        assert(partition_cursor_of(partitions[partitions.len() - 1]).position == position);
        assert forall|i: int| 0 <= i < partitions.drop_last().len() implies partition_cursor_of(
            #[trigger] partitions.drop_last()[i],
        ).position == position by {
            assert(partition_cursor_of(partitions[i]).position == position);
        }
        lemma_least_cursor(partitions.drop_last(), position);
    }
}

/// A projection all of whose partitions were brought to the target of a query
/// is up to date enough to answer it.
pub proof fn lemma_healed_answers(q: QueryView, consistency: QueryConsistency, head: u64)
    requires
        q.partitions.len() > 0,
        consistency matches QueryConsistency::WaitFor(position) ==> position <= head,
        forall|i: int|
            0 <= i < q.partitions.len() ==> (#[trigger] q.partitions[i]) == (PartitionView::Ready {
                cursor: cursor_at(q, heal_target(consistency, head)),
            }),
    ensures
        aggregate_status(q.partitions) is Ready,
        acceptable(aggregate_status(q.partitions), consistency, head),
        forall|i: int| 0 <= i < q.partitions.len() ==> partition_acceptable(#[trigger] q.partitions[i], consistency, head),
{
    let target = heal_target(consistency, head);
    assert(all_ready(q.partitions));
    lemma_all_ready(q.partitions);
    assert forall|i: int| 0 <= i < q.partitions.len() implies partition_cursor_of(#[trigger] q.partitions[i]).position == target by {}
    lemma_least_cursor(q.partitions, target);
}

} // verus!
