//! Forking and archiving branches.
use crate::append::{nanos, nanos_of};
use crate::branch::{catalog_insert, find, lemma_find, BranchCatalog, BranchInfo, BranchName, BranchStatus, BranchView};
use crate::bytes::zero16;
use crate::db::engine::{DbView, Salamander};
use crate::db::read::unavailable;
use crate::error::{invalid_argument, ErrorView, Result, SalamanderError};
use crate::format::envelope::{EnvelopeView, RecordEnvelopeV2};
use crate::format::frame::FrameKind;
use crate::format::ids::{BatchId, BranchId, CodecId, DatabaseId, EventId, EventType, StreamId, StreamRevision, JSON_UTF8};
use crate::format::metadata::{Metadata, MetadataView};
use crate::log::record::{record_encoding, MAX_FRAME_BYTES};
use crate::log::segment::appended;
use crate::log::store::LogView;
use crate::text::{hex_string, hex_text};
use vstd::prelude::*;

verus! {

/// Whether a position lies between two batches; `before` and `after` are the
/// batches of the events on its two sides.
pub open spec fn batch_boundary(db: DbView, at: u64, before: Option<Seq<u8>>, after: Option<Seq<u8>>) -> bool {
    at == 0 || at == db.log.active.next_offset || (before is Some && after is Some && before != after)
}

/// An optional batch as plain bytes.
pub open spec fn batch_view(id: Option<BatchId>) -> Option<Seq<u8>> {
    match id {
        Some(id) => Some(id@),
        None => None,
    }
}

/// The branch that a fork comes to, or why it cannot be.
pub open spec fn forked(
    db: DbView,
    parent: Seq<u8>,
    at: u64,
    boundary: bool,
    info: BranchView,
) -> core::result::Result<Seq<BranchView>, ErrorView> {
    if find(db.branches, parent) is None {
        Err(ErrorView::BranchNotFound(hex_text(parent)))
    } else if at > db.log.active.next_offset {
        Err(ErrorView::OffsetBeyondHead(at))
    } else if at < db.log.manifest.retention_floor {
        Err(unavailable(db, at))
    } else if !boundary {
        Err(ErrorView::NotBatchBoundary(at))
    } else {
        catalog_insert(db.branches, info)
    }
}

/// What a new branch is.
pub open spec fn branch_forked(id: Seq<u8>, name: Seq<char>, parent: Seq<u8>, at: u64, millis: u64, metadata: MetadataView) -> BranchView {
    BranchView {
        id,
        name,
        parent: Some(parent),
        fork_position: Some(at),
        created: nanos_of(millis),
        metadata,
        status: BranchStatus::Active,
    }
}

/// What archiving a branch comes to.
#[derive(Debug)]
pub enum ArchivePlan {
    /// It is archived already.
    Done(BranchInfo),
    /// It becomes this, in this catalog.
    Change(BranchInfo, BranchCatalog),
}

/// The catalog after a branch is archived, or nothing where it is already, or
/// why it cannot be.
pub open spec fn archived(db: DbView, id: Seq<u8>) -> core::result::Result<Option<Seq<BranchView>>, ErrorView> {
    match find(db.branches, id) {
        None => Err(ErrorView::BranchNotFound(hex_text(id))),
        Some(i) => if id == zero16() {
            Err(ErrorView::InvalidArgument("the default branch cannot be archived"@))
        } else if db.branches[i].status is Archived {
            Ok(None)
        } else {
            Ok(Some(db.branches.update(i, BranchView { status: BranchStatus::Archived, ..db.branches[i] })))
        },
    }
}

/// The envelope of a record about a branch.
pub open spec fn branch_envelope(database: Seq<u8>, branch: Seq<u8>, id: Seq<u8>, timestamp: i64, event_type: Seq<char>) -> EnvelopeView {
    EnvelopeView {
        event_id: id,
        database_id: database,
        branch_id: branch,
        stream_id: zero16(),
        stream_revision: 0,
        timestamp,
        event_type,
        schema_version: 1,
        codec: JSON_UTF8,
        batch_id: id,
        batch_index: 0,
        metadata: MetadataView::empty(),
    }
}

/// The envelope of a system record.
pub fn system_envelope(database: DatabaseId, branch: BranchId, id: [u8; 16], timestamp: i64, event_type: &str) -> (r: Result<
    RecordEnvelopeV2,
>)
    ensures
        r is Ok <==> crate::format::ids::event_type_error(event_type@) is None,
        r matches Ok(env) ==> env@ == branch_envelope(database@, branch@, id@, timestamp, event_type@),
        r matches Err(e) ==> Some(e@) == crate::format::ids::event_type_error(event_type@),
{
    let event_type = match EventType::new(event_type) {
        Ok(event_type) => event_type,
        Err(e) => return Err(e),
    };
    Ok(
        RecordEnvelopeV2 {
            event_id: EventId::from_bytes(id),
            database_id: database,
            branch_id: branch,
            stream_id: StreamId::zero(),
            stream_revision: StreamRevision(0),
            timestamp_unix_nanos: timestamp,
            event_type,
            schema_version: 1,
            codec: CodecId::json_utf8(),
            batch_id: BatchId::from_bytes(id),
            batch_index: 0,
            metadata: Metadata::new(),
        },
    )
}

impl Salamander {
    /// Whether a position lies between two batches.
    pub fn is_batch_boundary(&self, at: u64, before: Option<BatchId>, after: Option<BatchId>) -> (r: bool)
        ensures
            r == batch_boundary(self@, at, batch_view(before), batch_view(after)),
    {
        if at == 0 || at == self.head() {
            return true;
        }
        match (before, after) {
            (Some(left), Some(right)) => left != right,
            _ => false,
        }
    }

    /// Decides on a fork of `parent` at `at`: the new branch, and the catalog
    /// that holds it. Neither counts before the record of it is durable.
    pub fn fork_branch(
        &self,
        parent: BranchId,
        at: u64,
        name: BranchName,
        metadata: Metadata,
        id: BranchId,
        timestamp_ms: u64,
        before: Option<BatchId>,
        after: Option<BatchId>,
    ) -> (r: Result<(BranchInfo, BranchCatalog)>)
        requires
            self.wf(),
        ensures
            ({
                let info = branch_forked(id@, name@, parent@, at, timestamp_ms, metadata@);
                match forked(self@, parent@, at, batch_boundary(self@, at, batch_view(before), batch_view(after)), info) {
                    Ok(bs) => r matches Ok((found, catalog)) && found@ == info && catalog@ == bs && catalog.wf(),
                    Err(e) => r matches Err(error) && error@ == e,
                }
            }),
    {
        if self.branches.get(parent).is_none() {
            return Err(SalamanderError::BranchNotFound(hex_string(parent.as_bytes())));
        }
        if at > self.head() {
            return Err(SalamanderError::OffsetBeyondHead(at));
        }
        if at < self.retention_floor() {
            return Err(self.position_unavailable(at));
        }
        if !self.is_batch_boundary(at, before, after) {
            return Err(SalamanderError::NotBatchBoundary(at));
        }
        let info = BranchInfo {
            id,
            name,
            parent: Some(parent),
            fork_position: Some(at),
            created_at_unix_nanos: nanos(timestamp_ms),
            metadata,
            status: BranchStatus::Active,
        };
        let mut catalog = self.branches.clone();
        match catalog.insert(info.clone()) {
            Ok(()) => Ok((info, catalog)),
            Err(e) => Err(e),
        }
    }

    /// Decides on archiving a branch.
    pub fn archive_branch(&self, id: BranchId) -> (r: Result<ArchivePlan>)
        requires
            self.wf(),
        ensures
            match archived(self@, id@) {
                Err(e) => r matches Err(error) && error@ == e,
                Ok(None) => r matches Ok(ArchivePlan::Done(info)) && info@ == self@.branches[find(self@.branches, id@)->0],
                Ok(Some(bs)) => r matches Ok(ArchivePlan::Change(info, catalog)) && info@ == bs[find(self@.branches, id@)->0] && catalog@
                    == bs && catalog.wf(),
            },
    {
        proof {
            lemma_find(self@.branches, id@);
        }
        let mut info = match self.branches.get(id) {
            Some(info) => info.clone(),
            None => return Err(SalamanderError::BranchNotFound(hex_string(id.as_bytes()))),
        };
        if id.is_zero() {
            return Err(invalid_argument("the default branch cannot be archived"));
        }
        match info.status {
            BranchStatus::Archived => return Ok(ArchivePlan::Done(info)),
            BranchStatus::Active => {},
        }
        let ghost before = info@;
        info.status = BranchStatus::Archived;
        assert(info@ =~= (BranchView { status: BranchStatus::Archived, ..before }));
        let mut catalog = self.branches.clone();
        match catalog.archive(info.clone()) {
            Ok(()) => Ok(ArchivePlan::Change(info, catalog)),
            Err(e) => Err(e),
        }
    }

    /// Writes a system record at the head. The active segment must not be full.
    pub fn append_system(&mut self, envelope: &RecordEnvelopeV2, payload: &[u8], out: &mut Vec<u8>) -> (r: Result<()>)
        requires
            old(self).wf(),
            old(self)@.log.active.len_bytes + MAX_FRAME_BYTES <= u64::MAX,
        ensures
            final(self).wf(),
            final(self).retained == old(self).retained,
            final(self).views == old(self).views,
            final(self)@ == (DbView { log: LogView { active: final(self)@.log.active, ..old(self)@.log }, ..old(self)@ }),
            match record_encoding(FrameKind::System, old(self)@.log.active.next_offset, envelope@, payload@) {
                Ok(bytes) => r is Ok && final(out)@ == old(out)@ + bytes && appended(
                    old(self)@.log.active,
                    final(self)@.log.active,
                    bytes,
                    0,
                ),
                Err(e) => r matches Err(error) && error@ == e && final(out)@ == old(out)@ && final(self)@ == old(self)@,
            },
    {
        self.log.append_system(envelope, payload, out)
    }

    /// Takes the branches that a durable record brought about.
    pub fn publish_branches(&mut self, branches: BranchCatalog)
        requires
            old(self).wf(),
            branches.wf(),
        ensures
            final(self).wf(),
            final(self)@ == (DbView { branches: branches@, ..old(self)@ }),
            final(self).retained == old(self).retained,
            final(self).views == old(self).views,
    {
        self.branches = branches;
    }
}

/// A branch that was forked can be found, takes events, and is there for good:
/// the branches that were there before are as they were.
pub proof fn lemma_fork_keeps(db: DbView, parent: Seq<u8>, at: u64, boundary: bool, info: BranchView, now: Seq<BranchView>, other: Seq<u8>)
    requires
        crate::branch::catalog_valid(db.branches),
        forked(db, parent, at, boundary, info) == Ok::<Seq<BranchView>, ErrorView>(now),
        info.status is Active,
        other != info.id,
    ensures
        find(now, info.id) == Some(db.branches.len() as int),
        crate::append::branch_error(now, info.id) is None,
        find(now, other) == find(db.branches, other),
        forall|i: int| 0 <= i < db.branches.len() ==> now[i] == db.branches[i],
{
    assert(now.drop_last() =~= db.branches);
}

/// An archived branch takes no events, and archiving changes no other branch.
pub proof fn lemma_archive_refuses(db: DbView, id: Seq<u8>, now: Seq<BranchView>, other: Seq<u8>)
    requires
        crate::branch::catalog_valid(db.branches),
        archived(db, id) == Ok::<Option<Seq<BranchView>>, ErrorView>(Some(now)),
        other != id,
        find(db.branches, other) is Some,
    ensures
        crate::append::branch_error(now, id) == Some(ErrorView::BranchArchived(now[find(db.branches, id)->0].name)),
        find(now, other) == find(db.branches, other),
        now[find(now, other)->0] == db.branches[find(db.branches, other)->0],
{
    lemma_find(db.branches, id);
    lemma_find(db.branches, other);
    let i = find(db.branches, id)->0;
    assert forall|a: int, b: int| 0 <= a < b < now.len() implies (#[trigger] now[a]).id != (#[trigger] now[b]).id && now[a].name
        != now[b].name by {
        assert(db.branches[a].id != db.branches[b].id && db.branches[a].name != db.branches[b].name);
    }
    crate::branch::lemma_find_distinct(now, i);
    crate::branch::lemma_find_distinct(now, find(db.branches, other)->0);
}

} // verus!
