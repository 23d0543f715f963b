//! The state of an open database, and appending to it.
use crate::append::{
    append_plan, batch_id_view, entry_of, event_id_views, next_revision, plan_append, receipt_of, AppendPlan, FreshIds,
    PreparedAppend, PreparedView,
};
use crate::branch::{branch_views, find, has_name, names_ascend, path, shared_len, BranchCatalog, BranchInfo, BranchView};
use crate::commit::{commit_due, CommitPolicy, PolicyView};
use crate::error::{ErrorView, Result, SalamanderError};
use crate::format::ids::{BatchId, BranchId, DatabaseId, StreamId};
use crate::log::record::MAX_FRAME_BYTES;
use crate::log::segment::{appended, batch_encoding, event_views, EventView};
use crate::log::store::{bases_of, Log, LogView};
use crate::retention::{
    identity_error, validate_identity, RetentionAnchorInfo, RetentionBranchBootstrap, RetentionConsumerBootstrap,
    RetentionProjectionCoverage,
};
use crate::stream::{
    last_of_stream, stream_revision_in, AppendReceipt, AppendRequest, Durability, EntryView, ReceiptDurability, StreamCatalog,
};
use crate::text::hex_text;
use vstd::prelude::*;

verus! {

/// Where an opening database takes its catalogs from.
#[derive(Debug, Clone, Copy, PartialEq, Eq, Structural)]
pub enum CatalogSource {
    /// From the retention anchor.
    Anchor,
    /// From the records of the log.
    Records,
}

/// Whether an anchor is the one that an opening log needs.
pub open spec fn anchor_exact(log: LogView, anchor: RetentionAnchorInfo) -> bool {
    &&& identity_error(anchor, log.manifest.database_id@, log.manifest.retention_floor, log.active.next_offset) is None
    &&& log.manifest.retention_anchor_checksum matches Some(checksum) ==> checksum == anchor.checksum
}

/// Where an opening database takes its catalogs from, given what came of
/// loading an anchor. A log that reaches back to its beginning can do without
/// one, unless its manifest names one.
pub open spec fn source_of(log: LogView, loaded: core::result::Result<Option<RetentionAnchorInfo>, ErrorView>) -> core::result::Result<
    CatalogSource,
    ErrorView,
> {
    let named = log.manifest.retention_anchor_checksum is Some;
    let complete = bases_of(log)[0] == 0;
    if loaded is Err && !(complete && !named) {
        Err(loaded->Err_0)
    } else if loaded matches Ok(Some(anchor)) && anchor_exact(log, anchor) {
        Ok(CatalogSource::Anchor)
    } else if named {
        Err(ErrorView::InvalidFormat("manifest has no matching authoritative retention anchor"@))
    } else if complete {
        Ok(CatalogSource::Records)
    } else {
        Err(ErrorView::InvalidFormat("retained database has no compatible authoritative core anchor"@))
    }
}

/// What came of loading an anchor, as plain values.
pub open spec fn loaded_view(loaded: Result<Option<RetentionAnchorInfo>>) -> core::result::Result<Option<RetentionAnchorInfo>, ErrorView> {
    match loaded {
        Ok(anchor) => Ok(anchor),
        Err(e) => Err(e@),
    }
}

/// Decides where an opening database takes its catalogs from.
pub fn choose_source(log: &Log, loaded: Result<Option<RetentionAnchorInfo>>) -> (r: Result<CatalogSource>)
    ensures
        match source_of(log@, loaded_view(loaded)) {
            Ok(source) => r == Ok::<CatalogSource, SalamanderError>(source),
            Err(e) => r matches Err(error) && error@ == e,
        },
{
    let manifest = log.manifest();
    let named = manifest.retention_anchor_checksum.is_some();
    let complete = log.has_complete_prefix();
    let anchor: Option<RetentionAnchorInfo> = match loaded {
        Ok(anchor) => anchor,
        Err(e) => {
            if complete && !named {
                None
            } else {
                return Err(e);
            }
        },
    };
    match anchor {
        Some(anchor) => {
            let checked = match manifest.retention_anchor_checksum {
                Some(checksum) => checksum == anchor.checksum,
                None => true,
            };
            let fits = validate_identity(&anchor, &manifest.database_id, log.retention_floor(), log.head());
            if fits.is_ok() && checked {
                return Ok(CatalogSource::Anchor);
            }
        },
        None => {},
    }
    if named {
        return Err(crate::error::invalid_format("manifest has no matching authoritative retention anchor"));
    }
    if complete {
        Ok(CatalogSource::Records)
    } else {
        Err(crate::error::invalid_format("retained database has no compatible authoritative core anchor"))
    }
}

/// The most bytes of a stored catalog.
pub const MAX_CATALOG_BYTES: u64 = 256 * 1024 * 1024;

/// The checksum that a catalog is stored with.
pub fn catalog_checksum(payload: &[u8]) -> (r: u32)
    ensures
        r == crate::checksum::crc32c_of(payload@),
{
    crate::checksum::crc32c(payload)
}

/// Whether a stored catalog is that of an opening log: of the same database, at
/// the same head, and whole.
pub fn catalog_accepted(
    database: &[u8; 16],
    head: u64,
    file_bytes: u64,
    stored_database: &[u8; 16],
    stored_head: u64,
    payload: &[u8],
    checksum: u32,
) -> (r: bool)
    ensures
        r == (file_bytes <= MAX_CATALOG_BYTES && stored_database@ == database@ && stored_head == head && crate::checksum::crc32c_of(
            payload@,
        ) == checksum),
{
    file_bytes <= MAX_CATALOG_BYTES && crate::bytes::same16(stored_database, database) && stored_head == head
        && crate::checksum::crc32c(payload) == checksum
}

/// What an anchor keeps of what lies below its floor.
#[derive(Debug)]
pub struct Retained {
    pub anchor: Option<RetentionAnchorInfo>,
    pub projection_coverage: Vec<RetentionProjectionCoverage>,
    pub branch_bootstraps: Vec<RetentionBranchBootstrap>,
    pub consumer_bootstraps: Vec<RetentionConsumerBootstrap>,
}

/// An open database.
#[derive(Debug)]
pub struct Salamander {
    pub log: Log,
    pub catalog: StreamCatalog,
    pub branches: BranchCatalog,
    pub policy: CommitPolicy,
    /// The payload bytes and events that were appended since the last commit.
    pub pending_bytes: u64,
    pub pending_count: u64,
    pub durable_head: u64,
    pub retained: Retained,
    /// The names of the live views.
    pub views: Vec<String>,
}

/// What changes in an open database as it is appended to.
#[verifier::ext_equal]
pub struct DbView {
    pub log: LogView,
    pub history: Seq<EntryView>,
    pub branches: Seq<BranchView>,
    pub policy: PolicyView,
    pub pending_bytes: u64,
    pub pending_count: u64,
    pub durable_head: u64,
}

impl View for Salamander {
    type V = DbView;

    open spec fn view(&self) -> DbView {
        DbView {
            log: self.log@,
            history: self.catalog@,
            branches: self.branches@,
            policy: self.policy@,
            pending_bytes: self.pending_bytes,
            pending_count: self.pending_count,
            durable_head: self.durable_head,
        }
    }
}

/// The payload bytes of events together.
pub open spec fn stored_bytes(events: Seq<EventView>) -> int
    decreases events.len(),
{
    if events.len() == 0 {
        0
    } else {
        stored_bytes(events.drop_last()) + events.last().1.len()
    }
}

/// Whether an append is to be made durable at once: it is wanted, or due.
pub open spec fn sync_wanted(db: DbView, p: PreparedView, elapsed_millis: u64) -> bool {
    p.durability is Sync || commit_due(
        db.policy,
        (db.pending_bytes + stored_bytes(p.events)) as u64,
        (db.pending_count + p.events.len()) as u64,
        elapsed_millis,
    )
}

/// How durable an append is when it is acknowledged.
pub open spec fn receipt_durability(durability: Durability, sync: bool) -> ReceiptDurability {
    if sync {
        ReceiptDurability::Synced
    } else if durability is Flush {
        ReceiptDurability::Flushed
    } else {
        ReceiptDurability::Buffered
    }
}

/// A database after a commit.
pub open spec fn committed(db: DbView) -> DbView {
    DbView { pending_bytes: 0, pending_count: 0, durable_head: db.log.active.next_offset, ..db }
}

/// A batch that was written.
#[derive(Debug, Clone, Copy, PartialEq, Eq, Structural)]
pub struct WrittenAppend {
    pub first_position: u64,
    pub last_position: u64,
    /// It has to be made durable before it is acknowledged.
    pub sync: bool,
}

/// Whether a prepared append fits the machine: positions, revisions and counts.
pub open spec fn append_fits(db: DbView, p: PreparedView) -> bool {
    &&& p.events.len() > 0
    &&& db.log.active.next_offset + p.events.len() <= u64::MAX
    &&& db.log.active.len_bytes + MAX_FRAME_BYTES * (p.events.len() + 2) <= u64::MAX
    &&& db.pending_bytes + stored_bytes(p.events) <= u64::MAX
    &&& db.pending_count + p.events.len() <= u64::MAX
    &&& next_revision(p.previous) + p.events.len() - 1 <= u64::MAX
}

fn count_bytes(events: &Vec<(crate::format::envelope::RecordEnvelopeV2, Vec<u8>)>) -> (n: u64)
    requires
        stored_bytes(event_views(events@)) <= u64::MAX,
    ensures
        n == stored_bytes(event_views(events@)),
{
    let ghost views = event_views(events@);
    let mut n: u64 = 0;
    let mut i: usize = 0;
    assert(views.take(0) =~= Seq::empty());
    while i < events.len()
        invariant
            i <= events@.len(),
            views == event_views(events@),
            n == stored_bytes(views.take(i as int)),
            stored_bytes(views) <= u64::MAX,
        decreases events@.len() - i,
    {
        proof {
            assert(views.take(i + 1).drop_last() =~= views.take(i as int));
            assert(views.take(i + 1).last() == views[i as int]);
            lemma_stored_prefix(views, i + 1);
        }
        n = n + events[i].1.len() as u64;
        i = i + 1;
    }
    assert(views.take(i as int) =~= views);
    n
}

proof fn lemma_stored_prefix(events: Seq<EventView>, n: int)
    requires
        0 <= n <= events.len(),
    ensures
        0 <= stored_bytes(events.take(n)) <= stored_bytes(events),
    decreases events.len(),
{
    if n == events.len() {
        assert(events.take(n) =~= events);
        if n > 0 {
            lemma_stored_prefix(events.drop_last(), n - 1);
        }
    } else {
        assert(events.drop_last().take(n) =~= events.take(n));
        lemma_stored_prefix(events.drop_last(), n);
    }
}

impl Salamander {
    /// What holds of every open database.
    pub open spec fn wf(&self) -> bool {
        self.log.wf() && self.branches.wf() && self.durable_head <= self@.log.active.next_offset
    }

    /// A database whose log is durable as it was found.
    pub fn open(log: Log, catalog: StreamCatalog, branches: BranchCatalog, policy: CommitPolicy, retained: Retained) -> (r: Self)
        requires
            log.wf(),
            branches.wf(),
        ensures
            r.wf(),
            r@ == (DbView {
                log: log@,
                history: catalog@,
                branches: branches@,
                policy: policy@,
                pending_bytes: 0,
                pending_count: 0,
                durable_head: log@.active.next_offset,
            }),
            r.retained == retained,
            r.views@.len() == 0,
    {
        let durable_head: u64 = log.head();
        Salamander { log, catalog, branches, policy, pending_bytes: 0, pending_count: 0, durable_head, retained, views: Vec::new() }
    }

    /// Replaces the policy. What is pending stays so, and may be due at once.
    pub fn set_commit_policy(&mut self, policy: CommitPolicy)
        requires
            old(self).wf(),
        ensures
            final(self).wf(),
            final(self)@ == (DbView { policy: policy@, ..old(self)@ }),
            final(self).retained == old(self).retained,
            final(self).views == old(self).views,
    {
        self.policy = policy;
    }

    pub fn commit_policy(&self) -> (r: CommitPolicy)
        ensures
            r@ == self@.policy,
    {
        self.policy
    }

    /// The lowest position that can be read.
    pub fn retention_floor(&self) -> (r: u64)
        ensures
            r == self@.log.manifest.retention_floor,
    {
        self.log.retention_floor()
    }

    /// The position that the next event takes.
    pub fn head(&self) -> (r: u64)
        ensures
            r == self@.log.active.next_offset,
    {
        self.log.head()
    }

    /// The position below which everything is durable.
    pub fn durable_head(&self) -> (r: u64)
        ensures
            r == self@.durable_head,
    {
        self.durable_head
    }

    pub fn uncommitted_bytes(&self) -> (r: u64)
        ensures
            r == self@.pending_bytes,
    {
        self.pending_bytes
    }

    pub fn uncommitted_count(&self) -> (r: u64)
        ensures
            r == self@.pending_count,
    {
        self.pending_count
    }

    pub fn database_id(&self) -> (r: DatabaseId)
        ensures
            r@ == self@.log.manifest.database_id@,
    {
        DatabaseId::from_bytes(self.log.manifest().database_id)
    }

    /// The identity of a stream that was appended to.
    pub fn stream_id(&self, branch: BranchId, stream: &str) -> (r: Option<StreamId>)
        ensures
            match last_of_stream(self@.history, branch@, stream@) {
                Some(entry) => r matches Some(id) && id@ == entry.stream_id,
                None => r is None,
            },
    {
        self.catalog.stream_id(branch, stream)
    }

    /// Decides what an append comes to. Nothing is written.
    pub fn plan_append(
        &self,
        request: &AppendRequest,
        supplied_batch_id: Option<BatchId>,
        fresh: &FreshIds,
        timestamp_ms: u64,
    ) -> (r: Result<AppendPlan>)
        requires
            request.events@.len() <= fresh.events@.len(),
            next_revision(stream_revision_in(self@.history, request.branch@, request.stream@)) + request.events@.len() <= u64::MAX + 1,
        ensures
            match append_plan(
                self@.history,
                self@.branches,
                self@.log.manifest.database_id@,
                request@,
                batch_id_view(supplied_batch_id),
                fresh.batch@,
                event_id_views(fresh.events@),
                timestamp_ms,
            ) {
                Ok(plan) => r matches Ok(found) && found@ == plan,
                Err(e) => r matches Err(error) && error@ == e,
            },
    {
        plan_append(&self.catalog, &self.branches, self.database_id(), request, supplied_batch_id, fresh, timestamp_ms)
    }

    /// Writes a prepared append at the head. The active segment must not be
    /// full.
    pub fn write_append(&mut self, prepared: &PreparedAppend, elapsed_millis: u64, out: &mut Vec<u8>) -> (r: Result<WrittenAppend>)
        requires
            old(self).wf(),
            append_fits(old(self)@, prepared@),
        ensures
            final(self).wf(),
            final(self).retained == old(self).retained,
            final(self).views == old(self).views,
            match batch_encoding(old(self)@.log.active.next_offset as int, prepared@.events) {
                Ok(bytes) => {
                    &&& final(out)@ == old(out)@ + bytes
                    &&& appended(old(self)@.log.active, final(self)@.log.active, bytes, prepared@.events.len() as int)
                    &&& final(self)@ == (DbView {
                        log: LogView { active: final(self)@.log.active, ..old(self)@.log },
                        pending_bytes: (old(self)@.pending_bytes + stored_bytes(prepared@.events)) as u64,
                        pending_count: (old(self)@.pending_count + prepared@.events.len()) as u64,
                        ..old(self)@
                    })
                    &&& r == Ok::<WrittenAppend, SalamanderError>(
                        WrittenAppend {
                            first_position: old(self)@.log.active.next_offset,
                            last_position: (old(self)@.log.active.next_offset + prepared@.events.len() - 1) as u64,
                            sync: sync_wanted(old(self)@, prepared@, elapsed_millis),
                        },
                    )
                },
                Err(e) => r matches Err(error) && error@ == e && final(out)@ == old(out)@ && final(self)@ == old(self)@,
            },
    {
        let bytes: u64 = count_bytes(&prepared.events);
        let count: u64 = prepared.events.len() as u64;
        let (first_position, last_position) = match self.log.append_batch(&prepared.events, out) {
            Ok(pair) => pair,
            Err(e) => return Err(e),
        };
        self.pending_bytes = self.pending_bytes + bytes;
        self.pending_count = self.pending_count + count;
        let wanted = match prepared.durability {
            Durability::Sync => true,
            _ => false,
        };
        let sync = wanted || self.policy.should_commit(self.pending_bytes, self.pending_count, elapsed_millis);
        Ok(WrittenAppend { first_position, last_position, sync })
    }

    /// Takes note that everything up to the head is durable.
    pub fn committed(&mut self) -> (head: u64)
        requires
            old(self).wf(),
        ensures
            final(self).wf(),
            final(self)@ == committed(old(self)@),
            final(self).retained == old(self).retained,
            final(self).views == old(self).views,
            head == old(self)@.log.active.next_offset,
    {
        self.durable_head = self.log.head();
        self.pending_bytes = 0;
        self.pending_count = 0;
        self.durable_head
    }

    /// Takes note of a batch that was written, and durable where it had to be,
    /// and acknowledges it.
    pub fn finish_append(&mut self, prepared: PreparedAppend, written: WrittenAppend) -> (r: AppendReceipt)
        requires
            old(self).wf(),
            prepared@.events.len() > 0,
            written.first_position + prepared@.events.len() - 1 <= u64::MAX,
            next_revision(prepared@.previous) + prepared@.events.len() - 1 <= u64::MAX,
        ensures
            final(self).wf(),
            ({
                let durability = receipt_durability(prepared@.durability, written.sync);
                &&& r@ == receipt_of(prepared@, written.first_position, durability)
                &&& final(self)@ == (DbView {
                    history: old(self)@.history.push(entry_of(prepared@, written.first_position, durability)),
                    ..old(self)@
                })
            }),
            final(self).retained == old(self).retained,
            final(self).views == old(self).views,
    {
        let flush = match prepared.durability {
            Durability::Flush => true,
            _ => false,
        };
        let durability = if written.sync {
            ReceiptDurability::Synced
        } else if flush {
            ReceiptDurability::Flushed
        } else {
            ReceiptDurability::Buffered
        };
        assert(prepared.events@.len() == prepared@.events.len());
        let entry = prepared.into_entry(written.first_position, durability);
        let receipt = entry.receipt;
        self.catalog.record_batch(entry);
        receipt
    }

    pub fn branch(&self, id: BranchId) -> (r: Option<&BranchInfo>)
        ensures
            match find(self@.branches, id@) {
                Some(i) => r matches Some(info) && info@ == self@.branches[i],
                None => r is None,
            },
    {
        self.branches.get(id)
    }

    pub fn branch_named(&self, name: &str) -> (r: Option<&BranchInfo>)
        ensures
            r is Some <==> has_name(self@.branches, name@),
            r matches Some(info) ==> info@.name == name@ && self@.branches.contains(info@),
    {
        self.branches.named(name)
    }

    /// The line of ancestors of a branch, from the oldest down to itself.
    pub fn branch_ancestry(&self, id: BranchId) -> (r: Result<Vec<BranchInfo>>)
        requires
            self.wf(),
        ensures
            match find(self@.branches, id@) {
                Some(i) => r matches Ok(line) && branch_views(line@) == path(self@.branches, i),
                None => r matches Err(e) && e@ == ErrorView::BranchNotFound(hex_text(id@)),
            },
    {
        self.branches.ancestry(id)
    }

    /// The branches forked from a branch, by name.
    pub fn branch_children(&self, id: BranchId) -> (r: Vec<BranchInfo>)
        requires
            self.wf(),
        ensures
            names_ascend(branch_views(r@)),
            forall|b: BranchView| #[trigger]
                branch_views(r@).contains(b) <==> self@.branches.contains(b) && b.parent == Some(id@),
    {
        self.branches.children(id)
    }

    /// The deepest branch that two branches descend from.
    pub fn branch_common_ancestor(&self, left: BranchId, right: BranchId) -> (r: Result<BranchInfo>)
        requires
            self.wf(),
        ensures
            match (find(self@.branches, left@), find(self@.branches, right@)) {
                (Some(i), Some(j)) => {
                    let l = path(self@.branches, i);
                    let shared = shared_len(l, path(self@.branches, j));
                    if shared > 0 {
                        r matches Ok(info) && info@ == l[shared - 1]
                    } else {
                        r matches Err(e) && e@ == ErrorView::InvalidBranchAncestry("branches have no common root"@)
                    }
                },
                (None, _) => r matches Err(e) && e@ == ErrorView::BranchNotFound(hex_text(left@)),
                (Some(_), None) => r matches Err(e) && e@ == ErrorView::BranchNotFound(hex_text(right@)),
            },
    {
        self.branches.common_ancestor(left, right)
    }
}

} // verus!
