//! What the operations of a database and of its queries return, whatever they
//! are called with.
use crate::append::{batch_id_view, event_id_views, AppendPlan, FreshIds};
use crate::branch::{catalog_valid, BranchCatalog, BranchInfo, BranchName};
use crate::db::engine::Salamander;
use crate::db::fork::ArchivePlan;
use crate::db::read::{DiffRequest, TimelineDiff};
use crate::error::Result;
use crate::facade::heal::{drive_plan, heal_plan, kept_stream, QueryState};
use crate::facade::json::{json_rows, json_stream_rows};
use crate::facade::params::{parse_durability, parse_expected_revision, RevisionArgument};
use crate::facade::query::{
    index_field, JsonIndexRuntime, OperationView, ProjectionFailure, QueryOperation, QueryResult,
};
use crate::facade::types::{DurabilityDto, ExpectedRevisionDto};
use crate::format::ids::{BatchId, BranchId};
use crate::format::metadata::{value_of, Metadata};
use crate::laws::query::{lemma_answer_whole, lemma_class_whole, meets, of_class};
use crate::laws::replay::{asked, is_branch, lemma_plan_asks};
use crate::log::replay::keeps;
use crate::log::select::{class_of, selects, ReplayEnd, ReplayPlan, ReplayStart, ResolvedFilter};
use crate::stream::AppendRequest;
use vstd::prelude::*;

verus! {

/// What a question is answered with: the rows of the table that meet it, in the
/// table's order, and how many rows there are at all; only a question by an
/// index that the definition does not name fails.
pub proof fn lemma_query_answers(
    runtime: JsonIndexRuntime,
    operation: QueryOperation,
    r: core::result::Result<QueryResult, ProjectionFailure>,
)
    requires
        call_ensures(JsonIndexRuntime::query, (&runtime, &operation), r),
    ensures
        ({
            let field = match operation@ {
                OperationView::By { index, key } => index_field(runtime.definition().indexes, index),
                _ => Some(Seq::empty()),
            };
            match r {
                Err(_) => field is None,
                Ok(found) => {
                    &&& field is Some
                    &&& found.len == runtime@.rows.len()
                    &&& Seq::new(found.rows@.len(), |i: int| found.rows@[i]@) == runtime@.rows.filter(
                        |row: (Seq<char>, Seq<u8>)| meets(operation@, field->0, row),
                    ).map_values(|row: (Seq<char>, Seq<u8>)| row.1)
                },
            }
        }),
{
    let field = match operation@ {
        OperationView::By { index, key } => index_field(runtime.definition().indexes, index),
        _ => Some(Seq::empty()),
    };
    if field is Some {
        lemma_answer_whole(operation@, field->0, runtime@.rows);
    }
}

/// What a replay is resolved to keeps a record exactly where the plan asks for
/// it.
pub proof fn lemma_read_resolves(db: Salamander, plan: ReplayPlan, i: int, r: Result<ResolvedFilter>, record: crate::format::frame::RecordView)
    requires
        call_ensures(Salamander::read, (&db, &plan), r),
        r is Ok,
        catalog_valid(db@.branches),
        is_branch(db@.branches, i, plan.branch@),
    ensures
        keeps(r->Ok_0@, record) <==> asked(db@, plan, i, record),
        r->Ok_0.max_events == plan.max_events,
        r->Ok_0.verification == plan.verification,
{
    lemma_plan_asks(db@, plan, i, record);
}

/// A comparison returns the two sides that were asked for, each with its own end
/// and with the plan that reads it from where the two part up to that end.
pub proof fn lemma_diff_returns(db: Salamander, request: DiffRequest, r: Result<TimelineDiff>)
    requires
        call_ensures(Salamander::diff, (&db, &request), r),
        r is Ok,
    ensures
        ({
            let d = r->Ok_0;
            let head = db@.log.active.next_offset;
            &&& d.left.branch.id@ == request.left@ && d.right.branch.id@ == request.right@
            &&& d.left.until == match request.left_until {
                ReplayEnd::Head => head,
                ReplayEnd::At(p) => p,
            }
            &&& d.right.until == match request.right_until {
                ReplayEnd::Head => head,
                ReplayEnd::At(p) => p,
            }
            &&& reads(d.left.suffix, request, request.left@, d.divergence, d.left.until)
            &&& reads(d.right.suffix, request, request.right@, d.divergence, d.right.until)
            &&& reads(d.shared, request, d.common_ancestor.id@, db@.log.manifest.retention_floor, d.divergence)
        }),
{
    crate::laws::diff::lemma_sides(db@, request);
    assert(r->Ok_0@.left.suffix == r->Ok_0.left.suffix@);
    assert(r->Ok_0@.right.suffix == r->Ok_0.right.suffix@);
    assert(r->Ok_0@.shared == r->Ok_0.shared@);
    assert(r->Ok_0@.left.branch == r->Ok_0.left.branch@);
    assert(r->Ok_0@.right.branch == r->Ok_0.right.branch@);
}

/// Whether a plan reads a branch from one position up to another, of the streams
/// that were asked for.
pub open spec fn reads(plan: ReplayPlan, request: DiffRequest, branch: Seq<u8>, from: u64, until: u64) -> bool {
    &&& plan.branch@ == branch
    &&& plan.streams@ == request.streams@
    &&& plan.from == ReplayStart::Included(from)
    &&& plan.until == ReplayEnd::At(until)
    &&& plan.time is None
    &&& plan.max_events is None
}

/// What an append is to write is the request: its events in order, each with its
/// payload, type, version and own metadata, in one batch of one stream.
pub proof fn lemma_append_prepared(
    db: Salamander,
    request: AppendRequest,
    supplied: Option<BatchId>,
    fresh: FreshIds,
    millis: u64,
    r: Result<AppendPlan>,
)
    requires
        call_ensures(Salamander::plan_append, (&db, &request, supplied, &fresh, millis), r),
        r is Ok && r->Ok_0 is Write,
        crate::append::next_revision(crate::stream::stream_revision_in(db@.history, request.branch@, request.stream@))
            + request.events@.len() <= u64::MAX + 1,
        request.events@.len() <= u32::MAX,
    ensures
        ({
            let p = r->Ok_0->Write_0;
            &&& p.branch@ == request.branch@ && p.stream@ == request.stream@ && p.durability == request.durability
            &&& p.events@.len() == request.events@.len()
            &&& forall|i: int|
                0 <= i < request.events@.len() ==> {
                    let (env, payload) = #[trigger] p.events@[i];
                    let event = request.events@[i];
                    &&& payload@ == event.payload@
                    &&& env.event_type@ == event.event_type@ && env.schema_version == event.schema_version
                    &&& event.event_id matches Some(id) ==> env.event_id@ == id@
                    &&& env.branch_id@ == request.branch@ && env.batch_id@ == p.batch_id@ && env.stream_id@ == p.stream_id@
                    &&& env.batch_index == i
                    &&& crate::laws::append::is_nanos(millis, env.timestamp_unix_nanos)
                    &&& crate::format::metadata::keys_ascend(event.metadata@) ==> forall|name: Seq<char>|
                        !crate::laws::append::engine_key(name) ==> #[trigger] crate::format::metadata::value_of(env.metadata@, name)
                            == crate::format::metadata::value_of(event.metadata@, name)
                }
        }),
{
    let p = r->Ok_0->Write_0;
    let batch = fresh.batch@;
    let ids = event_id_views(fresh.events@);
    let database = db@.log.manifest.database_id@;
    assert(r->Ok_0@ == crate::append::PlanView::Write(p@));
    crate::laws::append::lemma_request_written(
        db@.history,
        db@.branches,
        database,
        request,
        batch_id_view(supplied),
        batch,
        ids,
        millis,
        p@,
    );
    assert(p@.events.len() == p.events@.len());
    assert forall|i: int| 0 <= i < request.events@.len() implies {
        let (env, payload) = #[trigger] p.events@[i];
        let event = request.events@[i];
        &&& payload@ == event.payload@
        &&& env.event_type@ == event.event_type@ && env.schema_version == event.schema_version
        &&& event.event_id matches Some(id) ==> env.event_id@ == id@
        &&& env.branch_id@ == request.branch@ && env.batch_id@ == p.batch_id@ && env.stream_id@ == p.stream_id@
        &&& env.batch_index == i
        &&& crate::laws::append::is_nanos(millis, env.timestamp_unix_nanos)
        &&& crate::format::metadata::keys_ascend(event.metadata@) ==> forall|name: Seq<char>|
            !crate::laws::append::engine_key(name) ==> #[trigger] crate::format::metadata::value_of(env.metadata@, name)
                == crate::format::metadata::value_of(event.metadata@, name)
    } by {
        assert(crate::laws::append::event_stored(
            db@.history,
            database,
            request,
            batch_id_view(supplied),
            batch,
            ids,
            millis,
            p@,
            i,
        ));
        assert(p@.events[i] == (p.events@[i].0@, p.events@[i].1@));
    }
}

/// A fork returns the branch that was asked for and the catalog that holds it
/// beside the others.
pub proof fn lemma_fork_returns(
    db: Salamander,
    parent: BranchId,
    at: u64,
    name: BranchName,
    metadata: Metadata,
    id: BranchId,
    millis: u64,
    before: Option<BatchId>,
    after: Option<BatchId>,
    r: Result<(BranchInfo, BranchCatalog)>,
)
    requires
        call_ensures(Salamander::fork_branch, (&db, parent, at, name, metadata, id, millis, before, after), r),
        r is Ok,
    ensures
        ({
            let (info, catalog) = r->Ok_0;
            &&& info.id@ == id@ && info.name@ == name@ && info.metadata@ == metadata@
            &&& branch_named(info, parent) && info.fork_position == Some(at) && info.status is Active
            &&& catalog@ == db@.branches.push(info@)
            &&& db@.log.manifest.retention_floor <= at <= db@.log.active.next_offset
        }),
{
    let (info, catalog) = r->Ok_0;
    assert(info@.fork_position == info.fork_position);
}

/// Whether a branch was forked from another.
pub open spec fn branch_named(info: BranchInfo, parent: BranchId) -> bool {
    info.parent matches Some(p) && p@ == parent@
}

/// Archiving returns the branch that was named, archived, and the catalog in which
/// nothing else has changed.
pub proof fn lemma_archive_returns(db: Salamander, id: BranchId, i: int, r: Result<ArchivePlan>)
    requires
        call_ensures(Salamander::archive_branch, (&db, id), r),
        catalog_valid(db@.branches),
        is_branch(db@.branches, i, id@),
    ensures
        match r {
            Err(_) => id@ == crate::bytes::zero16(),
            Ok(ArchivePlan::Done(info)) => info@ == db@.branches[i] && info.status is Archived,
            Ok(ArchivePlan::Change(info, catalog)) => {
                &&& info.id@ == id@ && info.status is Archived && db@.branches[i].status is Active
                &&& catalog@.len() == db@.branches.len() && catalog@[i] == info@
                &&& forall|j: int| 0 <= j < catalog@.len() && j != i ==> #[trigger] catalog@[j] == db@.branches[j]
            },
        },
{
    crate::laws::branch::lemma_archiving(db@, id@, i);
    crate::branch::lemma_find_distinct(db@.branches, i);
    match r {
        Ok(ArchivePlan::Done(info)) => {
            assert(info@.status == info.status);
        },
        Ok(ArchivePlan::Change(info, catalog)) => {
            assert(info@.status == info.status);
            assert(info@.id == info.id@);
        },
        Err(_) => {},
    }
}

/// What is read to heal a partition is its branch from where it stands up to the
/// target, all of it, of the streams that are its own.
pub proof fn lemma_heal_reads(db: Salamander, state: QueryState, partition: u32, start: u64, target: u64, r: ReplayPlan, stream: Seq<u8>)
    requires
        call_ensures(heal_plan, (&db, &state, partition, start, target), r),
        0 < state@.partitions.len() <= u32::MAX,
        partition < state@.partitions.len(),
    ensures
        r.branch@ == state@.descriptor.branch,
        r.from == ReplayStart::Included(start),
        r.until == ReplayEnd::At(target),
        r.time is None && r.max_events is None,
        selects(r.streams@, stream) <==> class_of(stream, state@.partitions.len() as u32) == partition && (kept_stream(
            db@,
            state@.descriptor,
        ) matches Some(id) ==> id == stream),
{
    assert(r@.branch == r.branch@ && r@.streams == r.streams@);
    crate::laws::projection::lemma_partitions_read(
        state@.partitions.len() as u32,
        partition,
        kept_stream(db@, state@.descriptor),
        stream,
    );
}

/// What is read to drive a projection is all of its branch from where it stands
/// up to the head.
pub proof fn lemma_drive_reads(state: QueryState, start: u64, head: u64, r: ReplayPlan)
    requires
        call_ensures(drive_plan, (&state, start, head), r),
    ensures
        r.branch@ == state@.descriptor.branch,
        r.streams@ is All,
        r.from == ReplayStart::Included(start),
        r.until == ReplayEnd::At(head),
        r.time is None && r.max_events is None,
{
    assert(r@.branch == r.branch@ && r@.streams == r.streams@);
}

/// What a writer's words mean: no expectation, no stream, or a revision; and how
/// durable an append is to be.
pub proof fn lemma_words(
    argument: RevisionArgument,
    revision: core::result::Result<ExpectedRevisionDto, String>,
    name: &str,
    durability: core::result::Result<DurabilityDto, String>,
)
    requires
        call_ensures(parse_expected_revision, (&argument,), revision),
        call_ensures(parse_durability, (name,), durability),
    ensures
        argument is Missing ==> revision matches Ok(ExpectedRevisionDto::Any),
        argument matches RevisionArgument::Number(n) ==> (revision matches Ok(ExpectedRevisionDto::Exact(m)) && m == n),
        argument matches RevisionArgument::Text(text) ==> (text@ == "any"@ ==> revision matches Ok(ExpectedRevisionDto::Any)),
        argument matches RevisionArgument::Text(text) ==> (text@ != "any"@ && text@ == "no_stream"@ ==> revision matches Ok(
            ExpectedRevisionDto::NoStream,
        )),
        argument matches RevisionArgument::Text(text) ==> (text@ != "any"@ && text@ != "no_stream"@ ==> revision is Err),
        argument is Truth || argument is Other ==> revision is Err,
        durability matches Ok(DurabilityDto::Buffered) ==> name@ == "buffered"@,
        durability matches Ok(DurabilityDto::Flush) ==> name@ == "flush"@,
        durability matches Ok(DurabilityDto::Sync) ==> name@ == "sync"@,
        durability is Err <==> name@ != "buffered"@ && name@ != "flush"@ && name@ != "sync"@,
{
}

/// A checkpoint is the document of every row, and that of a class the document of
/// every row whose stream is of the class, with its stream.
pub proof fn lemma_checkpoints_whole(
    runtime: JsonIndexRuntime,
    whole: core::result::Result<Vec<u8>, ProjectionFailure>,
    partition: u32,
    count: u32,
    part: core::result::Result<Vec<u8>, ProjectionFailure>,
)
    requires
        call_ensures(JsonIndexRuntime::checkpoint, (&runtime,), whole),
        call_ensures(JsonIndexRuntime::checkpoint_partition, (&runtime, partition, count), part),
        count > 0,
    ensures
        whole matches Ok(state) && state@ == json_rows(runtime@.rows),
        part matches Ok(state) && state@ == json_stream_rows(
            runtime@.rows.filter(|row: (Seq<char>, Seq<u8>)| of_class(runtime@.streams, row.0, count, partition)).map_values(
                |row: (Seq<char>, Seq<u8>)| (row.0, value_of(runtime@.streams, row.0)->0, row.1),
            ),
        ),
{
    lemma_class_whole(runtime@, runtime@.rows, count, partition);
}

} // verus!
