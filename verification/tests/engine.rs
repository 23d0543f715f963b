use salamander::append::{AppendPlan, FreshIds};
use salamander::branch::{BranchCatalog, BranchName, BranchStatus};
use salamander::commit::CommitPolicy;
use salamander::db::engine::{catalog_accepted, catalog_checksum, choose_source, CatalogSource, Retained, Salamander};
use salamander::db::fork::{system_envelope, ArchivePlan};
use salamander::db::read::{resolve_end, window_plan, DiffRequest};
use salamander::db::retain::{covers_projection, RetentionBlocker, RetentionPolicy};
use salamander::error::SalamanderError;
use salamander::facade::feed::ConsumerCheckpoints;
use salamander::facade::heal::{drive_plan, heal_plan, QueryState};
use salamander::facade::page::encode_payload;
use salamander::facade::projection::descriptor_for_query;
use salamander::facade::sequencer::Sequencer;
use salamander::facade::types::{PayloadCodec, ReplayRequest};
use salamander::format::derive::derive_stream_id;
use salamander::format::frame::{FrameKind, OwnedStoredRecord};
use salamander::format::ids::{BatchId, BranchId, DatabaseId, EventId, EventType, StreamRevision};
use salamander::format::metadata::Metadata;
use salamander::log::reader::{segment_entry, Walk};
use salamander::log::replay::read_segment;
use salamander::log::segment::segment_file_name;
use salamander::log::select::{
    partition_of, FrameFilter, ReplayEnd, ReplayPlan, ReplayStart, ResolvedFilter, StreamSelector,
};
use salamander::log::store::{bootstrap_manifest, DiscoveredSegment, Log, Removal};
use salamander::retention::{
    anchor_info, encode_anchor, find_branch_bootstrap, find_consumer_bootstrap, open_anchor, validate_bootstraps,
    validate_identity, AnchorHeader, RetentionAnchorInfo, RetentionBranchBootstrap, RetentionConsumerBootstrap,
    RetentionFeedScope, RetentionProjectionCoverage,
};
use salamander::stream::{
    expected_string, validate_expected, AppendReceipt, AppendRequest, Durability, ExpectedRevision, IdempotencyKey, NewEvent,
    ReceiptDurability, StreamCatalog, StreamName,
};
use std::collections::BTreeMap;

type Outcome<T> = Result<T, SalamanderError>;

struct Engine {
    db: Salamander,
    files: BTreeMap<u64, Vec<u8>>,
    next: u8,
}

fn nothing_retained() -> Retained {
    Retained {
        anchor: None,
        projection_coverage: Vec::new(),
        branch_bootstraps: Vec::new(),
        consumer_bootstraps: Vec::new(),
    }
}

impl Engine {
    fn new(max: u64) -> Engine {
        let manifest = bootstrap_manifest(&Vec::new(), [7; 16]).unwrap();
        let found = vec![DiscoveredSegment { base: 0, len: 0, path: "0".to_string() }];
        let log = Log::open(manifest, &found, &[], max).unwrap().log;
        let db = Salamander::open(
            log,
            StreamCatalog::new(),
            BranchCatalog::new(),
            CommitPolicy::manual(),
            nothing_retained(),
        );
        let mut files = BTreeMap::new();
        files.insert(0, Vec::new());
        Engine { db, files, next: 0 }
    }

    fn fresh(&mut self, n: usize) -> FreshIds {
        let mut id = || {
            self.next += 1;
            [self.next; 16]
        };
        FreshIds { batch: BatchId::from_bytes(id()), events: (0..n).map(|_| EventId::from_bytes(id())).collect() }
    }

    fn roll(&mut self) {
        if self.db.log.needs_roll() {
            let full = self.db.log.active().base_offset;
            self.db.log.roll(segment_file_name(full));
            self.files.insert(self.db.log.active().base_offset, Vec::new());
        }
    }

    fn write(&mut self, out: Vec<u8>) {
        let base = self.db.log.active().base_offset;
        self.files.get_mut(&base).unwrap().extend(out);
    }

    fn append_with(&mut self, request: &AppendRequest, batch: Option<BatchId>) -> Outcome<AppendReceipt> {
        let fresh = self.fresh(request.events.len());
        match self.db.plan_append(request, batch, &fresh, 1_000)? {
            AppendPlan::Existing { receipt, .. } => Ok(receipt),
            AppendPlan::Write(prepared) => {
                self.roll();
                let mut out = Vec::new();
                let written = self.db.write_append(&prepared, 0, &mut out)?;
                self.write(out);
                if written.sync {
                    self.db.committed();
                }
                Ok(self.db.finish_append(prepared, written))
            }
        }
    }

    fn append(&mut self, request: &AppendRequest) -> Outcome<AppendReceipt> {
        self.append_with(request, None)
    }

    fn read(&self, filter: &ResolvedFilter) -> Vec<OwnedStoredRecord> {
        let mut walk = Walk::new(filter.from);
        let mut out = Vec::new();
        for planned in self.db.log.plan_reader(filter) {
            let (position, byte) = segment_entry(filter, planned.base, None).unwrap();
            walk.enter(position);
            let bytes = &self.files[&planned.base];
            out.extend(
                read_segment(bytes, byte as usize, &mut walk, filter, planned.index.is_some(), planned.end).unwrap(),
            );
        }
        out
    }

    fn records(&self) -> Vec<OwnedStoredRecord> {
        self.read(&ResolvedFilter::raw(0, self.db.head(), FrameFilter::UserEvents))
    }

    fn batches_at(&self, at: u64) -> (Option<BatchId>, Option<BatchId>) {
        let batch = |position: u64| {
            self.records().iter().find(|r| r.position == position).map(|r| r.envelope.batch_id)
        };
        (if at == 0 { None } else { batch(at - 1) }, batch(at))
    }

    fn fork(&mut self, parent: BranchId, at: u64, name: &str, id: u8) -> Outcome<BranchId> {
        let (before, after) = self.batches_at(at);
        let (info, branches) = self.db.fork_branch(
            parent,
            at,
            BranchName::new(name)?,
            Metadata::new(),
            BranchId::from_bytes([id; 16]),
            1_000,
            before,
            after,
        )?;
        let envelope = system_envelope(self.db.database_id(), info.id, [id; 16], 1, "salamander.branch.created")?;
        let mut out = Vec::new();
        self.db.append_system(&envelope, b"{}", &mut out)?;
        self.write(out);
        self.db.publish_branches(branches);
        Ok(info.id)
    }
}

fn event(payload: &[u8]) -> NewEvent {
    NewEvent::new(EventType::new("e").unwrap(), payload.to_vec())
}

fn request(stream: &str, payloads: &[&[u8]]) -> AppendRequest {
    AppendRequest {
        branch: BranchId::zero(),
        stream: StreamName::new(stream).unwrap(),
        expected: ExpectedRevision::Any,
        idempotency_key: None,
        events: payloads.iter().map(|p| event(p)).collect(),
        durability: Durability::Buffered,
    }
}

#[test]
fn appends_take_the_next_positions_and_revisions() {
    let mut engine = Engine::new(1 << 20);
    let first = engine.append(&request("s", &[b"a", b"b"])).unwrap();
    assert_eq!((first.first_position, first.last_position), (0, 1));
    assert_eq!(first.previous_revision, None);
    assert_eq!(first.current_revision, StreamRevision(1));
    assert_eq!(first.stream_id, derive_stream_id(DatabaseId::from_bytes([7; 16]), BranchId::zero(), "s"));
    assert_eq!(first.durability, ReceiptDurability::Buffered);
    let second = engine.append(&request("t", &[b"c"])).unwrap();
    assert_eq!((second.first_position, second.current_revision), (2, StreamRevision(0)));
    let third = engine.append(&request("s", &[b"d"])).unwrap();
    assert_eq!(third.previous_revision, Some(StreamRevision(1)));
    assert_eq!(third.current_revision, StreamRevision(2));
    assert_eq!(engine.db.head(), 4);
    assert_eq!(engine.db.uncommitted_count(), 4);
    assert_eq!(engine.db.uncommitted_bytes(), 4);
    let records = engine.records();
    assert_eq!(records.iter().map(|r| r.position).collect::<Vec<_>>(), vec![0, 1, 2, 3]);
    assert_eq!(records[1].payload, b"b");
    assert_eq!(records[1].envelope.batch_index, 1);
    assert_eq!(records[1].envelope.timestamp_unix_nanos, 1_000_000_000);
    assert_eq!(records[2].envelope.metadata.get("salamander.stream_name"), Some(&b"t".to_vec()));
}

#[test]
fn an_expected_revision_guards_a_stream() {
    let mut engine = Engine::new(1 << 20);
    let mut guarded = request("s", &[b"a"]);
    guarded.expected = ExpectedRevision::Exact(StreamRevision(3));
    assert!(matches!(
        engine.append(&guarded),
        Err(SalamanderError::RevisionConflict { expected, actual })
            if expected == expected_string(ExpectedRevision::Exact(StreamRevision(3))) && !actual.is_empty()
    ));
    guarded.expected = ExpectedRevision::NoStream;
    engine.append(&guarded).unwrap();
    assert!(matches!(engine.append(&guarded), Err(SalamanderError::RevisionConflict { .. })));
    guarded.expected = ExpectedRevision::Exact(StreamRevision(0));
    assert_eq!(engine.append(&guarded).unwrap().current_revision, StreamRevision(1));
    assert_eq!(engine.db.head(), 2);
    assert!(validate_expected(ExpectedRevision::Any, None).is_ok());
    assert!(validate_expected(ExpectedRevision::NoStream, Some(StreamRevision(0))).is_err());
}

#[test]
fn a_repeated_key_gives_the_first_receipt() {
    let mut engine = Engine::new(1 << 20);
    let mut keyed = request("s", &[b"a"]);
    keyed.idempotency_key = Some(IdempotencyKey::new(b"key".to_vec()).unwrap());
    let first = engine.append(&keyed).unwrap();
    assert_eq!(engine.append(&keyed).unwrap(), first);
    assert_eq!(engine.db.head(), 1);
    keyed.events = vec![event(b"b")];
    assert!(matches!(engine.append(&keyed), Err(SalamanderError::IdempotencyConflict)));
    assert!(IdempotencyKey::new(Vec::new()).is_err());
}

#[test]
fn a_repeated_event_gives_the_first_receipt() {
    let mut engine = Engine::new(1 << 20);
    let mut named = request("s", &[b"a"]);
    named.events[0].event_id = Some(EventId::from_bytes([200; 16]));
    let first = engine.append(&named).unwrap();
    assert_eq!(engine.append(&named).unwrap(), first);
    named.events[0].payload = b"other".to_vec();
    assert!(matches!(engine.append(&named), Err(SalamanderError::EventIdConflict)));
    assert_eq!(engine.db.head(), 1);
}

#[test]
fn a_batch_identity_is_used_once() {
    let mut engine = Engine::new(1 << 20);
    let id = BatchId::from_bytes([201; 16]);
    engine.append_with(&request("s", &[b"a"]), Some(id)).unwrap();
    assert!(matches!(engine.append_with(&request("s", &[b"b"]), Some(id)), Err(SalamanderError::BatchIdConflict)));
}

#[test]
fn requests_are_checked() {
    let mut engine = Engine::new(1 << 20);
    assert!(matches!(engine.append(&request("s", &[])), Err(SalamanderError::InvalidArgument(_))));
    let mut lost = request("s", &[b"a"]);
    lost.branch = BranchId::from_bytes([99; 16]);
    assert!(matches!(engine.append(&lost), Err(SalamanderError::BranchNotFound(_))));
    assert!(StreamName::new("").is_err());
}

#[test]
fn a_catalog_is_rebuilt_from_the_log() {
    let mut engine = Engine::new(1 << 20);
    let mut keyed = request("s", &[b"a", b"b"]);
    keyed.idempotency_key = Some(IdempotencyKey::new(b"key".to_vec()).unwrap());
    let receipt = engine.append(&keyed).unwrap();
    engine.append(&request("t", &[b"c"])).unwrap();
    let rebuilt = StreamCatalog::rebuild(&engine.records()).unwrap();
    for stream in ["s", "t", "u"] {
        assert_eq!(rebuilt.revision(BranchId::zero(), stream), engine.db.catalog.revision(BranchId::zero(), stream));
        assert_eq!(rebuilt.stream_id(BranchId::zero(), stream), engine.db.stream_id(BranchId::zero(), stream));
    }
    let (_, found) = rebuilt.idempotent(BranchId::zero(), b"key").unwrap();
    assert_eq!((found.first_position, found.last_position), (receipt.first_position, receipt.last_position));
    assert!(rebuilt.has_batch(receipt.batch_id));
    assert!(rebuilt.event_receipt(engine.records()[2].envelope.event_id).is_some());
}

#[test]
fn a_policy_says_when_to_commit() {
    let mut engine = Engine::new(1 << 20);
    engine.db.set_commit_policy(CommitPolicy::every_count(3));
    engine.append(&request("s", &[b"a", b"b"])).unwrap();
    assert_eq!((engine.db.durable_head(), engine.db.uncommitted_count()), (0, 2));
    let receipt = engine.append(&request("s", &[b"c"])).unwrap();
    assert_eq!((engine.db.durable_head(), engine.db.uncommitted_count()), (3, 0));
    assert_eq!(receipt.durability, ReceiptDurability::Synced);
    let mut synced = request("s", &[b"d"]);
    synced.durability = Durability::Sync;
    assert_eq!(engine.append(&synced).unwrap().durability, ReceiptDurability::Synced);
    assert_eq!(engine.db.durable_head(), 4);
}

#[test]
fn a_fork_sees_its_parent_below_the_fork() {
    let mut engine = Engine::new(1 << 20);
    engine.append(&request("s", &[b"a"])).unwrap();
    engine.append(&request("s", &[b"b", b"c"])).unwrap();
    let child = engine.fork(BranchId::zero(), 1, "child", 210).unwrap();
    let mut there = request("s", &[b"d"]);
    there.branch = child;
    engine.append(&there).unwrap();
    engine.append(&request("s", &[b"e"])).unwrap();

    let positions = |branch: BranchId| -> Vec<u64> {
        let plan = ReplayPlan { branch, ..ReplayPlan::default() };
        engine.read(&engine.db.read(&plan).unwrap()).iter().map(|r| r.position).collect()
    };
    assert_eq!(positions(BranchId::zero()), vec![0, 1, 2, 4]);
    assert_eq!(positions(child), vec![0, 3]);

    assert!(matches!(engine.fork(BranchId::zero(), 2, "torn", 211), Err(SalamanderError::NotBatchBoundary(2))));
    assert!(matches!(engine.fork(BranchId::zero(), 9, "far", 211), Err(SalamanderError::OffsetBeyondHead(9))));
    assert!(matches!(engine.fork(BranchId::zero(), 1, "child", 211), Err(SalamanderError::BranchExists(_))));
    assert!(matches!(
        engine.fork(BranchId::from_bytes([99; 16]), 1, "lost", 211),
        Err(SalamanderError::BranchNotFound(_))
    ));
    assert_eq!(engine.db.branch_named("child").unwrap().id, child);
    assert_eq!(engine.db.branch_ancestry(child).unwrap().len(), 2);
    assert_eq!(engine.db.branch_children(BranchId::zero()).len(), 1);
    assert_eq!(engine.db.branch_common_ancestor(child, BranchId::zero()).unwrap().id, BranchId::zero());
}

#[test]
fn an_archived_branch_takes_no_events() {
    let mut engine = Engine::new(1 << 20);
    let child = engine.fork(BranchId::zero(), 0, "child", 210).unwrap();
    let ArchivePlan::Change(info, branches) = engine.db.archive_branch(child).unwrap() else { panic!("no change") };
    assert_eq!(info.status, BranchStatus::Archived);
    engine.db.publish_branches(branches);
    let mut there = request("s", &[b"d"]);
    there.branch = child;
    assert!(matches!(engine.append(&there), Err(SalamanderError::BranchArchived(_))));
    assert!(matches!(engine.db.archive_branch(child).unwrap(), ArchivePlan::Done(_)));
    assert!(matches!(engine.db.archive_branch(BranchId::zero()), Err(SalamanderError::InvalidArgument(_))));
}

#[test]
fn a_diff_splits_at_the_divergence() {
    let mut engine = Engine::new(1 << 20);
    engine.append(&request("s", &[b"a"])).unwrap();
    engine.append(&request("s", &[b"b"])).unwrap();
    let child = engine.fork(BranchId::zero(), 1, "child", 210).unwrap();
    let mut there = request("s", &[b"c"]);
    there.branch = child;
    engine.append(&there).unwrap();
    let diff = engine.db.diff(&DiffRequest::new(BranchId::zero(), child)).unwrap();
    assert_eq!(diff.common_ancestor.id, BranchId::zero());
    assert_eq!(diff.divergence, 1);
    let positions = |plan: &ReplayPlan| -> Vec<u64> {
        engine.read(&engine.db.read(plan).unwrap()).iter().map(|r| r.position).collect()
    };
    assert_eq!(positions(&diff.shared), vec![0]);
    assert_eq!(positions(&diff.left.suffix), vec![1]);
    assert_eq!(positions(&diff.right.suffix), vec![2]);
    let window = window_plan(BranchId::zero(), StreamSelector::All, 1, 2);
    assert_eq!((window.from, window.until), (ReplayStart::Included(1), ReplayEnd::At(2)));
}

#[test]
fn an_end_lies_within_the_log() {
    assert_eq!(resolve_end(ReplayEnd::Head, 5).unwrap(), 5);
    assert_eq!(resolve_end(ReplayEnd::At(3), 5).unwrap(), 3);
    assert!(matches!(resolve_end(ReplayEnd::At(6), 5), Err(SalamanderError::OffsetBeyondHead(6))));
}

fn header(floor: u64, head: u64) -> AnchorHeader {
    AnchorHeader {
        format_version: 5,
        database_id: [7; 16],
        floor,
        head,
        bytes: 100,
        checksum: 77,
        system_records: 0,
    }
}

fn anchor(floor: u64, head: u64) -> RetentionAnchorInfo {
    anchor_info(header(floor, head), &Vec::new(), &Vec::new(), &Vec::new())
}

#[test]
fn retention_needs_an_anchor_and_frees_segments() {
    let mut engine = Engine::new(64);
    for i in 0..4u8 {
        engine.append(&request("s", &[&[i; 100]])).unwrap();
    }
    engine.db.committed();
    let sizes: Vec<Option<u64>> = (0..engine.db.log.closed_len()).map(|_| Some(10)).collect();
    let plan = engine.db.plan_retention(2, &sizes, [1; 16]).unwrap();
    assert_eq!((plan.requested_floor, plan.effective_floor, plan.current_floor), (2, 2, 0));
    assert_eq!(plan.reclaimable_segments.len(), 2);
    assert_eq!(plan.reclaimable_bytes, 20);
    assert!(matches!(plan.blockers.as_slice(), [RetentionBlocker::EngineAnchorUnavailable]));
    assert!(matches!(engine.db.plan_retention(5, &sizes, [1; 16]), Err(SalamanderError::OffsetBeyondHead(5))));
    assert!(matches!(engine.db.begin_retention(2, 4), Err(SalamanderError::InvalidArgument(_))));

    engine.db.register_view("live".to_string());
    engine.db.publish_anchor(Retained { anchor: Some(anchor(2, 4)), ..nothing_retained() });
    let plan = engine.db.plan_retention(2, &sizes, [1; 16]).unwrap();
    assert!(matches!(plan.blockers.as_slice(), [RetentionBlocker::ProjectionRequiresBootstrap { name }] if name == "live"));
    engine.db.deregister_view("live");
    assert!(engine.db.plan_retention(2, &sizes, [1; 16]).unwrap().blockers.is_empty());
    assert!(matches!(engine.db.begin_retention(2, 3), Err(SalamanderError::InvalidArgument(_))));
    engine.db.begin_retention(2, 4).unwrap();
    assert_eq!(engine.db.retention_floor(), 2);
    assert!(matches!(
        engine.db.plan_retention(1, &sizes, [1; 16]),
        Err(SalamanderError::InvalidArgument(message)) if message == "retention floor cannot move backward from 2 to 1"
    ));
    let pending = engine.db.retention_cleanup_status(&sizes);
    assert_eq!((pending.pending_segments.len(), pending.pending_bytes), (2, 20));
    let outcomes: Vec<Removal> = vec![Removal::Removed(10), Removal::Missing, Removal::Failed];
    let result = engine.db.finish_retention(&outcomes);
    assert_eq!((result.generation, result.floor, result.reclaimed_bytes), (1, 2, 10));
    assert_eq!(engine.db.log.closed_len(), 1);

    assert!(matches!(
        engine.db.read(&window_plan(BranchId::zero(), StreamSelector::All, 1, 4)),
        Err(SalamanderError::PositionUnavailable { requested: 1, floor: 2, head: 4, .. })
    ));
    assert!(engine.db.require_full_history().is_err());
    assert!(engine.db.check_time_travel(1).is_err());
    assert!(engine.db.check_replay_start(2).is_ok());
}

#[test]
fn a_policy_selects_a_floor() {
    let mut engine = Engine::new(64);
    for i in 0..4u8 {
        engine.append(&request("s", &[&[i; 100]])).unwrap();
    }
    engine.db.committed();
    let known: Vec<u64> = (0..engine.db.log.closed_len()).map(|_| 10).collect();
    let sizes: Vec<Option<u64>> = known.iter().map(|n| Some(*n)).collect();
    let events: Vec<(u64, i64)> = vec![(0, 5), (1, 6), (2, 7), (3, 8)];
    let floor = |policy: RetentionPolicy| {
        engine.db.preview_retention_policy(policy, &events, &known, &sizes, [1; 16]).unwrap().selected_floor
    };
    assert_eq!(floor(RetentionPolicy::KeepFrom(3)), 3);
    assert_eq!(floor(RetentionPolicy::KeepLatestEvents(1)), 3);
    assert_eq!(floor(RetentionPolicy::KeepLatestEvents(9)), 0);
    assert_eq!(floor(RetentionPolicy::KeepNewerThan(7)), 2);
    assert_eq!(floor(RetentionPolicy::KeepNewerThan(100)), 4);
    let preview = engine
        .db
        .preview_retention_policy(RetentionPolicy::KeepFrom(3), &events, &known, &sizes, [1; 16])
        .unwrap();
    assert_eq!(preview.explanation, "selected explicit position 3");
    assert!(preview.target_satisfied);
    let tight = engine
        .db
        .preview_retention_policy(RetentionPolicy::TargetLogBytes(1), &events, &known, &sizes, [1; 16])
        .unwrap();
    assert!(!tight.target_satisfied);
    assert_eq!(tight.selected_floor, 3);
}

#[test]
fn a_branch_below_the_floor_blocks_without_a_checkpoint() {
    let mut engine = Engine::new(64);
    for i in 0..4u8 {
        engine.append(&request("s", &[&[i; 100]])).unwrap();
    }
    engine.db.committed();
    let child = engine.fork(BranchId::zero(), 1, "child", 210).unwrap();
    engine.db.committed();
    let sizes: Vec<Option<u64>> = (0..engine.db.log.closed_len()).map(|_| Some(10)).collect();
    engine.db.publish_anchor(Retained { anchor: Some(anchor(2, 4)), ..nothing_retained() });
    let plan = engine.db.plan_retention(2, &sizes, [1; 16]).unwrap();
    assert!(matches!(
        plan.blockers.as_slice(),
        [RetentionBlocker::BranchRequiresBootstrap { branch, fork_position: 1 }] if branch.as_str() == "child"
    ));
    let bootstrap = RetentionBranchBootstrap {
        branch_id: *child.as_bytes(),
        floor: 2,
        checksum: crc32c::crc32c(b"state"),
        checkpoint: b"state".to_vec(),
    };
    engine.db.publish_anchor(Retained {
        anchor: Some(anchor(2, 4)),
        branch_bootstraps: vec![bootstrap],
        ..nothing_retained()
    });
    assert!(engine.db.has_retention_branch_bootstrap(child.as_bytes(), 2));
    assert!(engine.db.plan_retention(2, &sizes, [1; 16]).unwrap().blockers.is_empty());
}

#[test]
fn an_anchor_is_its_database_s() {
    let good = anchor(2, 4);
    assert!(validate_identity(&good, &[7; 16], 2, 4).is_ok());
    assert!(validate_identity(&good, &[8; 16], 2, 4).is_err());
    assert!(validate_identity(&good, &[7; 16], 1, 4).is_err());
    let bytes = encode_anchor(b"123456789").unwrap();
    assert_eq!(open_anchor(&bytes).unwrap(), (9, 0xe306_9283));
    assert!(open_anchor(&bytes[..20]).is_err());
    let engine = Engine::new(64);
    assert_eq!(choose_source(&engine.db.log, Ok(None)).unwrap(), CatalogSource::Records);
    assert_eq!(
        choose_source(&engine.db.log, Err(SalamanderError::Manifest("m".into()))).unwrap(),
        CatalogSource::Records
    );
}

fn consumer(id: &str, floor: u64) -> RetentionConsumerBootstrap {
    RetentionConsumerBootstrap {
        consumer_id: id.to_string(),
        floor,
        checksum: crc32c::crc32c(b"c"),
        checkpoint: b"c".to_vec(),
        checkpoint_id: [1; 16],
        scope: RetentionFeedScope::default(),
        codec: "json".to_string(),
        codec_version: 1,
    }
}

#[test]
fn checkpoints_in_an_anchor_are_checked() {
    let branch = |floor: u64, checksum: u32| RetentionBranchBootstrap {
        branch_id: [5; 16],
        floor,
        checksum,
        checkpoint: b"state".to_vec(),
    };
    let good = crc32c::crc32c(b"state");
    assert!(validate_bootstraps(2, &vec![branch(2, good)], &vec![consumer("a", 2)]).is_ok());
    assert!(validate_bootstraps(2, &vec![branch(2, good ^ 1)], &Vec::new()).is_err());
    assert!(validate_bootstraps(2, &vec![branch(3, good)], &Vec::new()).is_err());
    assert!(validate_bootstraps(2, &vec![branch(2, good), branch(2, good)], &Vec::new()).is_err());
    let branches = vec![branch(2, good)];
    assert!(find_branch_bootstrap(&branches, &[5; 16], Some(2)).is_some());
    assert!(find_branch_bootstrap(&branches, &[5; 16], Some(3)).is_none());
    assert!(find_branch_bootstrap(&branches, &[6; 16], None).is_none());
    let consumers = vec![consumer("a", 2)];
    assert!(find_consumer_bootstrap(&consumers, "a", None).is_some());
    assert!(find_consumer_bootstrap(&consumers, "b", None).is_none());
    let info = anchor_info(header(2, 4), &Vec::new(), &branches, &consumers);
    assert_eq!((info.branch_bootstraps, info.consumer_bootstraps, info.bootstrap_bytes), (1, 1, 6));
}

#[test]
fn a_stored_catalog_is_taken_where_it_is_current() {
    let sum = crc32c::crc32c(b"payload");
    assert!(catalog_accepted(&[7; 16], 4, 100, &[7; 16], 4, b"payload", sum));
    assert!(!catalog_accepted(&[7; 16], 4, 100, &[8; 16], 4, b"payload", sum));
    assert!(!catalog_accepted(&[7; 16], 4, 100, &[7; 16], 3, b"payload", sum));
    assert!(!catalog_accepted(&[7; 16], 4, 100, &[7; 16], 4, b"payload", sum ^ 1));
    assert!(!catalog_accepted(&[7; 16], 4, 257 * 1024 * 1024, &[7; 16], 4, b"payload", sum));
}

#[test]
fn coverage_names_every_partition() {
    let coverage = RetentionProjectionCoverage {
        name: "p".to_string(),
        descriptor_fingerprint: [2; 16],
        branch_id: [0; 16],
        cursor: 4,
        snapshot_ids: vec!["a".to_string()],
    };
    assert!(!covers_projection(&coverage, "p", &[2; 16], &[0; 16], 4, 1, &vec![None]));
    assert!(!covers_projection(&coverage, "q", &[2; 16], &[0; 16], 4, 1, &vec![None]));
}

#[test]
fn system_records_are_kept_apart() {
    let mut engine = Engine::new(1 << 20);
    engine.fork(BranchId::zero(), 0, "child", 210).unwrap();
    engine.append(&request("s", &[b"a"])).unwrap();
    assert_eq!(engine.db.head(), 1);
    let filter = ResolvedFilter::raw(0, 1, FrameFilter::SystemOnly);
    let system = engine.read(&filter);
    assert_eq!(system.len(), 1);
    assert_eq!(system[0].kind, FrameKind::System);
    assert_eq!(system[0].envelope.event_type.as_str(), "salamander.branch.created");
}

#[test]
fn one_event_can_be_asked_for_alone() {
    let mut engine = Engine::new(1 << 20);
    let single = AppendRequest::single(BranchId::zero(), "s", "kind", b"x".to_vec()).unwrap();
    assert_eq!((single.expected, single.durability, single.events.len()), (ExpectedRevision::Any, Durability::Buffered, 1));
    assert_eq!(engine.append(&single).unwrap().first_position, 0);
    assert_eq!(engine.records()[0].envelope.event_type.as_str(), "kind");
    assert!(AppendRequest::single(BranchId::zero(), "", "kind", Vec::new()).is_err());
    assert!(AppendRequest::single(BranchId::zero(), "s", "", Vec::new()).is_err());
    assert!(!engine.db.has_retention_consumer_bootstrap("c", 0));
}

fn stored(text: &str) -> Vec<u8> {
    encode_payload(PayloadCodec::Json, text.as_bytes())
}

#[test]
fn the_pages_of_a_reader_hold_what_lay_before_its_end() {
    let mut engine = Engine::new(200);
    let payloads: Vec<Vec<u8>> = (0..7).map(|i| stored(&format!("{i}"))).collect();
    for (i, payload) in payloads.iter().enumerate() {
        let stream = if i % 3 == 2 { "other" } else { "s" };
        engine.append(&request(stream, &[payload.as_slice()])).unwrap();
    }
    let mut sequencer = Sequencer::new(ConsumerCheckpoints::new());
    let asked = ReplayRequest { stream: Some("s".to_string()), page_events: 2, ..ReplayRequest::default() };
    let handle = sequencer.open_reader(&engine.db, asked).unwrap();
    let mut positions = Vec::new();
    loop {
        let (mut page, filter) = sequencer.begin_page(&engine.db, handle).unwrap();
        assert_eq!(filter.until, 7);
        for record in engine.read(&filter) {
            if page.is_full() {
                break;
            }
            let after = record.position + 1;
            page.offer(&sequencer.readers[&handle.0].request, record, after).unwrap();
        }
        if !page.is_full() {
            page.exhausted(7);
        }
        let page = sequencer.end_page(handle, page, engine.db.head()).unwrap();
        assert!(page.records.len() <= 2);
        assert_eq!(page.done, page.continuation >= 7);
        positions.extend(page.records.iter().map(|record| record.position));
        if page.done {
            break;
        }
        engine.append(&request("s", &[stored("9").as_slice()])).unwrap();
    }
    assert_eq!(positions, vec![0, 1, 3, 4, 6]);
    assert!(engine.db.head() > 7);
}

#[test]
fn projections_read_their_branch_and_their_streams() {
    let mut engine = Engine::new(1 << 20);
    let receipt = engine.append(&request("s", &[stored("1").as_slice()])).unwrap();
    let state = QueryState::new(descriptor_for_query("q", b"def", 2), [2; 16], [7; 16]);
    let plan = drive_plan(&state, 3, 9);
    assert_eq!((plan.from, plan.until), (ReplayStart::Included(3), ReplayEnd::At(9)));
    assert_eq!((plan.branch, plan.streams), (BranchId::zero(), StreamSelector::All));
    let plan = heal_plan(&engine.db, &state, 1, 3, 9);
    assert_eq!((plan.from, plan.until), (ReplayStart::Included(3), ReplayEnd::At(9)));
    assert_eq!(plan.streams, StreamSelector::PartitionClass { count: 2, index: 1 });
    let mut descriptor = descriptor_for_query("q", b"def", 2);
    descriptor.scope.stream = Some("s".to_string());
    let state = QueryState::new(descriptor, [2; 16], [7; 16]);
    let class = partition_of(receipt.stream_id, 2);
    assert_eq!(
        heal_plan(&engine.db, &state, class, 0, 1).streams,
        StreamSelector::Streams(vec![receipt.stream_id])
    );
    assert_eq!(heal_plan(&engine.db, &state, 1 - class, 0, 1).streams, StreamSelector::Streams(Vec::new()));
}

#[test]
fn a_catalog_is_stored_with_its_crc32c() {
    assert_eq!(catalog_checksum(b"123456789"), 0xe306_9283);
    assert_eq!(catalog_checksum(b""), 0);
}
